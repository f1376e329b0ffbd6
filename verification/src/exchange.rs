//! What the volume manager is built upon, and the record of what passed between them.
//!
//! A device, a clock and a file allocation table may answer anything. What an operation does is
//! therefore said of the calls that it made and of the answers that it was given. `Host` makes
//! those calls, and it alone adds to the record of them. `happened` says of a part of a record that
//! its calls were made, one after another, and that the answers are those that were given.
use crate::blockdevice;
use crate::blockdevice::{Block, BlockCount, BlockDevice, BlockIdx};
use crate::error::{Error, FilenameError};
use crate::filesystem::{
    Attributes, Cluster, DirEntry, Directory, ShortFileName, TimeSource, Timestamp,
};
use crate::record;
use crate::volume::{BlockCache, FatLayout, FatTable, FatType, FatVolume};
use vstd::prelude::*;

verus! {

/// A call, and what was answered.
#[allow(inconsistent_fields)]
pub enum Exchange<E> {
    ReadBlock { block_idx: BlockIdx, reason: Seq<char>, answer: Result<Seq<u8>, E> },
    WriteBlock { block_idx: BlockIdx, block: Seq<u8>, answer: Result<(), E> },
    GetTimestamp { answer: Timestamp },
    ParseVolume {
        lba_start: BlockIdx,
        num_blocks: BlockCount,
        answer: Result<FatLayout, Error<E>>,
    },
    CreateFromStr { name: Seq<char>, answer: Result<ShortFileName, FilenameError> },
    Serialize { entry: DirEntry, fat_type: FatType, answer: Seq<u8> },
    ClusterToBlock { cluster: Cluster, answer: BlockIdx },
    NextCluster {
        cluster: Cluster,
        block_cache: BlockCache,
        answer: (BlockCache, Result<Cluster, Error<E>>),
    },
    AllocCluster {
        prev_cluster: Option<Cluster>,
        zero: bool,
        answer: Result<Cluster, Error<E>>,
    },
    TruncateClusterChain { cluster: Cluster, answer: Result<(), Error<E>> },
    UpdateInfoSector { answer: Result<(), Error<E>> },
    FindDirectoryEntry { dir: Directory, name: Seq<char>, answer: Result<DirEntry, Error<E>> },
    IterateDir { dir: Directory, answer: Result<(), Error<E>> },
    WriteNewDirectoryEntry {
        dir: Directory,
        name: ShortFileName,
        attributes: Attributes,
        answer: Result<DirEntry, Error<E>>,
    },
    DeleteDirectoryEntry { dir: Directory, name: Seq<char>, answer: Result<(), Error<E>> },
    /// The device was handed out, for others to use.
    HandedOut,
}

/// The bytes of a block that was read, or why it was not.
pub open spec fn bytes_of<E>(answer: Result<Block, E>) -> Result<Seq<u8>, E> {
    match answer {
        Ok(block) => Ok(block@),
        Err(error) => Err(error),
    }
}

/// The layout of a volume that was parsed, or why it was not.
pub open spec fn layout_of<F, E>(answer: Result<FatVolume<F>, E>) -> Result<FatLayout, E> {
    match answer {
        Ok(volume) => Ok(volume.layout),
        Err(error) => Err(error),
    }
}

/// Has `device` read block `block_idx` over a block of zeroes, and gives what is there then.
pub fn read_block<D: BlockDevice>(device: &D, block_idx: BlockIdx, reason: &str) -> (answer: Result<
    Block,
    D::Error,
>)
    ensures
        exists|blocks: &mut [Block], done: Result<(), D::Error>|
            {
                &&& #[trigger] call_ensures(D::read, (device, blocks, block_idx, reason), done)
                &&& blocks@.len() == 1
                &&& blocks@[0]@ == blockdevice::zero_block()
                &&& match answer {
                    Ok(block) => done is Ok && final(blocks)@ == seq![block],
                    Err(error) => done == Err::<(), D::Error>(error),
                }
            },
{
    let mut blocks = [Block::new()];
    match device.read(&mut blocks, block_idx, reason) {
        Ok(()) => Ok(blocks[0]),
        Err(error) => Err(error),
    }
}

/// Has `device` write `block` to block `block_idx`.
pub fn write_block<D: BlockDevice>(device: &D, block_idx: BlockIdx, block: Block) -> (answer:
    Result<(), D::Error>)
    ensures
        exists|blocks: &[Block]| #[trigger]
            call_ensures(D::write, (device, blocks, block_idx), answer) && blocks@ == seq![block],
{
    let blocks = [block];
    let answer = device.write(&blocks, block_idx);
    assert(blocks@ =~= seq![block]);
    answer
}

/// The exchange is a call that was made, on that device, that clock and the table `before`, with
/// the answer that it gave; the table is `after` from then on.
pub open spec fn took_place<D: BlockDevice, T: TimeSource, F: FatTable>(
    exchange: Exchange<D::Error>,
    device: D,
    clock: T,
    before: F,
    after: F,
) -> bool {
    match exchange {
        Exchange::ReadBlock { block_idx, reason, answer } => before == after && block_read(
            device,
            block_idx,
            reason,
            answer,
        ),
        Exchange::WriteBlock { block_idx, block, answer } => before == after && block_written(
            device,
            block_idx,
            block,
            answer,
        ),
        Exchange::GetTimestamp { answer } => before == after && call_ensures(
            T::get_timestamp,
            (&clock,),
            answer,
        ),
        Exchange::ParseVolume { lba_start, num_blocks, answer } => before == after && (exists|
            parsed: Result<FatVolume<F>, Error<D::Error>>,
        |
            #[trigger] call_ensures(F::parse_volume::<D>, (&device, lba_start, num_blocks), parsed)
                && layout_of(parsed) == answer),
        Exchange::CreateFromStr { name, answer } => before == after && (exists|text: &str|
            #[trigger] call_ensures(F::create_from_str, (text,), answer) && text@ == name),
        Exchange::Serialize { entry, fat_type, answer } => before == after && (exists|
            bytes: [u8; 32],
        |
            #[trigger] call_ensures(F::serialize, (&entry, fat_type), bytes) && bytes@ == answer),
        Exchange::ClusterToBlock { cluster, answer } => before == after && call_ensures(
            F::cluster_to_block,
            (&before, cluster),
            answer,
        ),
        Exchange::NextCluster { cluster, block_cache, answer } => before == after && call_ensures(
            F::next_cluster::<D>,
            (&before, &device, cluster, block_cache),
            answer,
        ),
        Exchange::AllocCluster { prev_cluster, zero, answer } => call_ensures(
            F::alloc_cluster::<D>,
            (&before, &device, prev_cluster, zero),
            (after, answer),
        ),
        Exchange::TruncateClusterChain { cluster, answer } => call_ensures(
            F::truncate_cluster_chain::<D>,
            (&before, &device, cluster),
            (after, answer),
        ),
        Exchange::UpdateInfoSector { answer } => call_ensures(
            F::update_info_sector::<D>,
            (&before, &device),
            (after, answer),
        ),
        Exchange::FindDirectoryEntry { dir, name, answer } => before == after && (exists|text: &str|
            #[trigger] call_ensures(
                F::find_directory_entry::<D>,
                (&before, &device, &dir, text),
                answer,
            ) && text@ == name),
        // What the entries are handed to is not on record
        Exchange::IterateDir { .. } => before == after,
        Exchange::WriteNewDirectoryEntry { dir, name, attributes, answer } => call_ensures(
            F::write_new_directory_entry::<D, T>,
            (&before, &device, &clock, &dir, name, attributes),
            (after, answer),
        ),
        Exchange::DeleteDirectoryEntry { dir, name, answer } => before == after && (exists|
            text: &str,
        |
            #[trigger] call_ensures(
                F::delete_directory_entry::<D>,
                (&before, &device, &dir, text),
                answer,
            ) && text@ == name),
        // What is done with a device that was handed out is not on record
        Exchange::HandedOut => false,
    }
}

/// Block `block_idx` of `device` was read, with that answer.
pub open spec fn block_read<D: BlockDevice>(
    device: D,
    block_idx: BlockIdx,
    reason: Seq<char>,
    answer: Result<Seq<u8>, D::Error>,
) -> bool {
    exists|text: &str, read: Result<Block, D::Error>|
        {
            &&& #[trigger] call_ensures(
                read_block::<D>,
                (&device, block_idx, text),
                read,
            )
            &&& text@ == reason
            &&& bytes_of(read) == answer
        }
}

/// `bytes` were written to block `block_idx` of `device`, with that answer.
pub open spec fn block_written<D: BlockDevice>(
    device: D,
    block_idx: BlockIdx,
    bytes: Seq<u8>,
    answer: Result<(), D::Error>,
) -> bool {
    exists|block: Block| #[trigger]
        call_ensures(write_block::<D>, (&device, block_idx, block), answer) && block@
            == bytes
}

/// The exchanges from `from` to `to` took place one after another, on that device and that clock,
/// and on a table that was `before` at first and is `after` at last.
#[verifier::opaque]
pub open spec fn happened<D: BlockDevice, T: TimeSource, F: FatTable>(
    log: Seq<Exchange<D::Error>>,
    from: int,
    to: int,
    device: D,
    clock: T,
    before: F,
    after: F,
) -> bool
    decreases to - from,
{
    if to <= from {
        before == after
    } else {
        exists|between: F|
            {
                &&& happened(log, from, to - 1, device, clock, before, between)
                &&& #[trigger] took_place(log[to - 1], device, clock, between, after)
            }
    }
}

/// Where there is no exchange, the table is what it was.
pub proof fn lemma_nothing_happened<D: BlockDevice, T: TimeSource, F: FatTable>(
    log: Seq<Exchange<D::Error>>,
    at: int,
    device: D,
    clock: T,
    before: F,
    after: F,
)
    ensures
        happened(log, at, at, device, clock, before, after) <==> before == after,
{
    reveal(happened);
}

/// What happened does not change when the record grows.
pub proof fn lemma_happened_stable<D: BlockDevice, T: TimeSource, F: FatTable>(
    earlier: Seq<Exchange<D::Error>>,
    later: Seq<Exchange<D::Error>>,
    from: int,
    to: int,
    device: D,
    clock: T,
    before: F,
    after: F,
)
    requires
        0 <= from,
        to <= earlier.len(),
        record::extends(later, earlier),
        happened(earlier, from, to, device, clock, before, after),
    ensures
        happened(later, from, to, device, clock, before, after),
    decreases to - from,
{
    reveal(happened);
    if from < to {
        let between = choose|between: F|
            {
                &&& happened(earlier, from, to - 1, device, clock, before, between)
                &&& #[trigger] took_place(earlier[to - 1], device, clock, between, after)
            };
        lemma_happened_stable(earlier, later, from, to - 1, device, clock, before, between);
        assert(took_place(later[to - 1], device, clock, between, after));
    }
}

/// One more exchange took place.
pub proof fn lemma_one_more_happened<D: BlockDevice, T: TimeSource, F: FatTable>(
    earlier: Seq<Exchange<D::Error>>,
    later: Seq<Exchange<D::Error>>,
    from: int,
    device: D,
    clock: T,
    before: F,
    between: F,
    after: F,
)
    requires
        0 <= from <= earlier.len(),
        later.len() == earlier.len() + 1,
        record::extends(later, earlier),
        happened(earlier, from, earlier.len() as int, device, clock, before, between),
        took_place(later.last(), device, clock, between, after),
    ensures
        happened(later, from, later.len() as int, device, clock, before, after),
{
    reveal(happened);
    lemma_happened_stable(
        earlier,
        later,
        from,
        earlier.len() as int,
        device,
        clock,
        before,
        between,
    );
}

/// What happened up to `middle` and what happened from there on happened one after another.
pub proof fn lemma_happened_on<D: BlockDevice, T: TimeSource, F: FatTable>(
    earlier: Seq<Exchange<D::Error>>,
    later: Seq<Exchange<D::Error>>,
    from: int,
    to: int,
    device: D,
    clock: T,
    before: F,
    between: F,
    after: F,
)
    requires
        0 <= from <= earlier.len() <= to <= later.len(),
        record::extends(later, earlier),
        happened(earlier, from, earlier.len() as int, device, clock, before, between),
        happened(later, earlier.len() as int, to, device, clock, between, after),
    ensures
        happened(later, from, to, device, clock, before, after),
    decreases to,
{
    reveal(happened);
    let middle = earlier.len() as int;
    if to == middle {
        lemma_happened_stable(earlier, later, from, to, device, clock, before, between);
    } else {
        let last = choose|last: F|
            {
                &&& happened(later, middle, to - 1, device, clock, between, last)
                &&& #[trigger] took_place(later[to - 1], device, clock, last, after)
            };
        lemma_happened_on(
            earlier,
            later,
            from,
            to - 1,
            device,
            clock,
            before,
            between,
            last,
        );
        assert(took_place(later[to - 1], device, clock, last, after));
    }
}

/// Where the first exchange leaves the table as it is, what happened is that exchange and the rest.
pub proof fn lemma_first_happened<D: BlockDevice, T: TimeSource, F: FatTable>(
    log: Seq<Exchange<D::Error>>,
    from: int,
    to: int,
    device: D,
    clock: T,
    before: F,
    after: F,
)
    requires
        from < to,
        log[from] is FindDirectoryEntry,
        happened(log, from, to, device, clock, before, after),
    ensures
        took_place(log[from], device, clock, before, before),
        happened(log, from + 1, to, device, clock, before, after),
    decreases to - from,
{
    reveal(happened);
    let between = choose|between: F|
        {
            &&& happened(log, from, to - 1, device, clock, before, between)
            &&& #[trigger] took_place(log[to - 1], device, clock, between, after)
        };
    if from + 1 < to {
        lemma_first_happened(log, from, to - 1, device, clock, before, between);
        assert(took_place(log[to - 1], device, clock, between, after));
    } else {
        assert(between == before);
    }
}

/// A block device and a clock, and the record of every call made to them or with them.
pub(crate) struct Host<D: BlockDevice, T: TimeSource> {
    block_device: D,
    timesource: T,
    log: Ghost<Seq<Exchange<D::Error>>>,
}

impl<D: BlockDevice, T: TimeSource> Host<D, T> {
    /// The block device.
    pub closed spec fn block_device(&self) -> D {
        self.block_device
    }

    /// The clock.
    pub closed spec fn timesource(&self) -> T {
        self.timesource
    }

    /// Every exchange there was, in order.
    pub closed spec fn log(&self) -> Seq<Exchange<D::Error>> {
        self.log@
    }

    /// `self` is `before` with `exchange` added to the record.
    pub open spec fn after(&self, before: Self, exchange: Exchange<D::Error>) -> bool {
        &&& self.log() == before.log().push(exchange)
        &&& self.block_device() == before.block_device()
        &&& self.timesource() == before.timesource()
    }

    /// A device and a clock that have not been called yet.
    pub fn new(block_device: D, timesource: T) -> (host: Self)
        ensures
            host.block_device() == block_device,
            host.timesource() == timesource,
            host.log() == Seq::<Exchange<D::Error>>::empty(),
    {
        Host { block_device, timesource, log: Ghost(Seq::empty()) }
    }

    /// The block device, for others to use.
    pub fn device(&mut self) -> (device: &mut D)
        ensures
            *device == old(self).block_device(),
            final(self).block_device() == *final(device),
            final(self).timesource() == old(self).timesource(),
            final(self).log() == old(self).log().push(Exchange::HandedOut),
    {
        self.record(Ghost(Exchange::HandedOut));
        &mut self.block_device
    }

    /// The block device and the clock.
    pub fn free(self) -> (parts: (D, T))
        ensures
            parts == (self.block_device(), self.timesource()),
    {
        (self.block_device, self.timesource)
    }

    /// Adds `exchange` to the record.
    fn record(&mut self, exchange: Ghost<Exchange<D::Error>>)
        ensures
            final(self).after(*old(self), exchange@),
    {
        proof {
            self.log@ = self.log@.push(exchange@);
        }
    }

    /// Reads a block.
    pub fn read_block(&mut self, block_idx: BlockIdx, reason: &str) -> (answer: Result<
        Block,
        D::Error,
    >)
        ensures
            final(self).after(
                *old(self),
                Exchange::ReadBlock { block_idx, reason: reason@, answer: bytes_of(answer) },
            ),
            block_read(old(self).block_device(), block_idx, reason@, bytes_of(answer)),
    {
        let answer = read_block(&self.block_device, block_idx, reason);
        self.record(
            Ghost(Exchange::ReadBlock { block_idx, reason: reason@, answer: bytes_of(answer) }),
        );
        answer
    }

    /// Writes a block.
    pub fn write_block(&mut self, block_idx: BlockIdx, block: Block) -> (answer: Result<
        (),
        D::Error,
    >)
        ensures
            final(self).after(
                *old(self),
                Exchange::WriteBlock { block_idx, block: block@, answer },
            ),
            block_written(old(self).block_device(), block_idx, block@, answer),
    {
        let answer = write_block(&self.block_device, block_idx, block);
        self.record(Ghost(Exchange::WriteBlock { block_idx, block: block@, answer }));
        answer
    }

    /// Asks the clock.
    pub fn get_timestamp(&mut self) -> (answer: Timestamp)
        ensures
            final(self).after(*old(self), Exchange::GetTimestamp { answer }),
            call_ensures(T::get_timestamp, (&old(self).timesource(),), answer),
    {
        let answer = self.timesource.get_timestamp();
        self.record(Ghost(Exchange::GetTimestamp { answer }));
        answer
    }

    /// Has a volume parsed.
    pub fn parse_volume<F: FatTable>(
        &mut self,
        lba_start: BlockIdx,
        num_blocks: BlockCount,
    ) -> (answer: Result<FatVolume<F>, Error<D::Error>>)
        ensures
            final(self).after(
                *old(self),
                Exchange::ParseVolume { lba_start, num_blocks, answer: layout_of(answer) },
            ),
            call_ensures(
                F::parse_volume::<D>,
                (&old(self).block_device(), lba_start, num_blocks),
                answer,
            ),
    {
        let answer = F::parse_volume(&self.block_device, lba_start, num_blocks);
        self.record(
            Ghost(Exchange::ParseVolume { lba_start, num_blocks, answer: layout_of(answer) }),
        );
        answer
    }

    /// Has a name turned into a short file name.
    pub fn create_from_str<F: FatTable>(&mut self, name: &str) -> (answer: Result<
        ShortFileName,
        FilenameError,
    >)
        ensures
            final(self).after(*old(self), Exchange::CreateFromStr { name: name@, answer }),
            call_ensures(F::create_from_str, (name,), answer),
    {
        let answer = F::create_from_str(name);
        self.record(Ghost(Exchange::CreateFromStr { name: name@, answer }));
        answer
    }

    /// Has a directory entry turned into bytes.
    pub fn serialize<F: FatTable>(&mut self, entry: &DirEntry, fat_type: FatType) -> (answer: [u8;
        32])
        ensures
            final(self).after(
                *old(self),
                Exchange::Serialize { entry: *entry, fat_type, answer: answer@ },
            ),
            call_ensures(F::serialize, (entry, fat_type), answer),
    {
        let answer = F::serialize(entry, fat_type);
        self.record(Ghost(Exchange::Serialize { entry: *entry, fat_type, answer: answer@ }));
        answer
    }

    /// Asks for the first block of a cluster.
    pub fn cluster_to_block<F: FatTable>(&mut self, table: &F, cluster: Cluster) -> (answer:
        BlockIdx)
        ensures
            final(self).after(*old(self), Exchange::ClusterToBlock { cluster, answer }),
            call_ensures(F::cluster_to_block, (table, cluster), answer),
    {
        let answer = table.cluster_to_block(cluster);
        self.record(Ghost(Exchange::ClusterToBlock { cluster, answer }));
        answer
    }

    /// Asks for the next cluster of a chain.
    pub fn next_cluster<F: FatTable>(
        &mut self,
        table: &F,
        cluster: Cluster,
        block_cache: BlockCache,
    ) -> (answer: (BlockCache, Result<Cluster, Error<D::Error>>))
        ensures
            final(self).after(
                *old(self),
                Exchange::NextCluster { cluster, block_cache, answer },
            ),
            call_ensures(
                F::next_cluster::<D>,
                (table, &old(self).block_device(), cluster, block_cache),
                answer,
            ),
    {
        let ghost given = block_cache;
        let answer = table.next_cluster(&self.block_device, cluster, block_cache);
        self.record(Ghost(Exchange::NextCluster { cluster, block_cache: given, answer }));
        answer
    }

    /// Has a cluster allocated.
    pub fn alloc_cluster<F: FatTable>(
        &mut self,
        table: &mut F,
        prev_cluster: Option<Cluster>,
        zero: bool,
    ) -> (answer: Result<Cluster, Error<D::Error>>)
        ensures
            final(self).after(
                *old(self),
                Exchange::AllocCluster { prev_cluster, zero, answer },
            ),
            call_ensures(
                F::alloc_cluster::<D>,
                (&*old(table), &old(self).block_device(), prev_cluster, zero),
                (*final(table), answer),
            ),
    {
        let (after, answer) = table.alloc_cluster(&self.block_device, prev_cluster, zero);
        *table = after;
        self.record(Ghost(Exchange::AllocCluster { prev_cluster, zero, answer }));
        answer
    }

    /// Has a cluster chain cut short.
    pub fn truncate_cluster_chain<F: FatTable>(&mut self, table: &mut F, cluster: Cluster) -> (
    answer: Result<(), Error<D::Error>>)
        ensures
            final(self).after(*old(self), Exchange::TruncateClusterChain { cluster, answer }),
            call_ensures(
                F::truncate_cluster_chain::<D>,
                (&*old(table), &old(self).block_device(), cluster),
                (*final(table), answer),
            ),
    {
        let (after, answer) = table.truncate_cluster_chain(&self.block_device, cluster);
        *table = after;
        self.record(Ghost(Exchange::TruncateClusterChain { cluster, answer }));
        answer
    }

    /// Has the count of free clusters written down.
    pub fn update_info_sector<F: FatTable>(&mut self, table: &mut F) -> (answer: Result<
        (),
        Error<D::Error>,
    >)
        ensures
            final(self).after(*old(self), Exchange::UpdateInfoSector { answer }),
            call_ensures(
                F::update_info_sector::<D>,
                (&*old(table), &old(self).block_device()),
                (*final(table), answer),
            ),
    {
        let (after, answer) = table.update_info_sector(&self.block_device);
        *table = after;
        self.record(Ghost(Exchange::UpdateInfoSector { answer }));
        answer
    }

    /// Looks for an entry of a directory.
    pub fn find_directory_entry<F: FatTable>(
        &mut self,
        table: &F,
        dir: &Directory,
        name: &str,
    ) -> (answer: Result<DirEntry, Error<D::Error>>)
        ensures
            final(self).after(
                *old(self),
                Exchange::FindDirectoryEntry { dir: *dir, name: name@, answer },
            ),
            call_ensures(
                F::find_directory_entry::<D>,
                (table, &old(self).block_device(), dir, name),
                answer,
            ),
    {
        let answer = table.find_directory_entry(&self.block_device, dir, name);
        self.record(Ghost(Exchange::FindDirectoryEntry { dir: *dir, name: name@, answer }));
        answer
    }

    /// Goes through the entries of a directory.
    pub fn iterate_dir<F: FatTable, G: FnMut(&DirEntry)>(
        &mut self,
        table: &F,
        dir: &Directory,
        func: G,
    ) -> (answer: Result<(), Error<D::Error>>)
        ensures
            final(self).after(*old(self), Exchange::IterateDir { dir: *dir, answer }),
            call_ensures(
                F::iterate_dir::<D, G>,
                (table, &old(self).block_device(), dir, func),
                answer,
            ),
    {
        let answer = table.iterate_dir(&self.block_device, dir, func);
        self.record(Ghost(Exchange::IterateDir { dir: *dir, answer }));
        answer
    }

    /// Has an entry added to a directory.
    pub fn write_new_directory_entry<F: FatTable>(
        &mut self,
        table: &mut F,
        dir: &Directory,
        name: ShortFileName,
        attributes: Attributes,
    ) -> (answer: Result<DirEntry, Error<D::Error>>)
        ensures
            final(self).after(
                *old(self),
                Exchange::WriteNewDirectoryEntry { dir: *dir, name, attributes, answer },
            ),
            call_ensures(
                F::write_new_directory_entry::<D, T>,
                (
                    &*old(table),
                    &old(self).block_device(),
                    &old(self).timesource(),
                    dir,
                    name,
                    attributes,
                ),
                (*final(table), answer),
            ),
    {
        let (after, answer) = table.write_new_directory_entry(
            &self.block_device,
            &self.timesource,
            dir,
            name,
            attributes,
        );
        *table = after;
        self.record(
            Ghost(Exchange::WriteNewDirectoryEntry { dir: *dir, name, attributes, answer }),
        );
        answer
    }

    /// Has an entry taken out of a directory.
    pub fn delete_directory_entry<F: FatTable>(
        &mut self,
        table: &F,
        dir: &Directory,
        name: &str,
    ) -> (answer: Result<(), Error<D::Error>>)
        ensures
            final(self).after(
                *old(self),
                Exchange::DeleteDirectoryEntry { dir: *dir, name: name@, answer },
            ),
            call_ensures(
                F::delete_directory_entry::<D>,
                (table, &old(self).block_device(), dir, name),
                answer,
            ),
    {
        let answer = table.delete_directory_entry(&self.block_device, dir, name);
        self.record(Ghost(Exchange::DeleteDirectoryEntry { dir: *dir, name: name@, answer }));
        answer
    }
}

} // verus!
