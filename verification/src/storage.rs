//! What reads and writes come to on a medium that keeps what it is given.
//!
//! The operations work with whatever the device and the tables answer. Here it is said what they
//! do where those answers are of a piece: a block that is read holds what was last written to it,
//! a chain of clusters is the same each time it is followed, and no reserved cluster is allocated.
use crate::blockdevice::BlockIdx;
use crate::error::Error;
use crate::exchange::Exchange;
use crate::filesystem::{Cluster, File};
use crate::locate;
use crate::reading;
use crate::reading::Reading;
use crate::volume::{BlockCache, FatLayout};
use crate::writing;
use crate::writing::{ChunkEnd, Spot};
use vstd::prelude::*;

verus! {

/// A device with a file system on it.
pub struct Medium {
    /// What each block held at first.
    pub blocks: spec_fn(BlockIdx) -> Seq<u8>,
    /// The cluster after each one that has one after it, once the chains are as long as they get.
    pub following: spec_fn(Cluster) -> Cluster,
    /// The first block of each cluster.
    pub first_block: spec_fn(Cluster) -> BlockIdx,
}

impl Medium {
    /// Cluster `n` of the chain that `start` starts, counted from zero.
    pub open spec fn chain(self, start: Cluster, n: nat) -> Cluster
        decreases n,
    {
        if n == 0 {
            start
        } else {
            (self.following)(self.chain(start, (n - 1) as nat))
        }
    }

    /// The block that holds position `position` of the file that starts with cluster `start`.
    pub open spec fn block_of(self, layout: FatLayout, start: Cluster, position: int) -> BlockIdx {
        let n = position / 512;
        let size = layout.cluster_size.blocks() as int;
        BlockIdx(
            ((self.first_block)(self.chain(start, (n / size) as nat)).0 + n % size) as u32,
        )
    }

    /// What block `block_idx` holds after exchange `upto`, given what it held at exchange `base`.
    pub open spec fn held<E>(
        self,
        log: Seq<Exchange<E>>,
        base: int,
        upto: int,
        block_idx: BlockIdx,
    ) -> Seq<u8>
        decreases upto - base,
    {
        if upto <= base {
            (self.blocks)(block_idx)
        } else {
            match log[upto - 1] {
                Exchange::WriteBlock { block_idx: written, block, answer: Ok(()) } => if written
                    == block_idx {
                    block
                } else {
                    self.held(log, base, upto - 1, block_idx)
                },
                _ => self.held(log, base, upto - 1, block_idx),
            }
        }
    }

    /// The byte at position `position` of the file that starts with cluster `start`, after exchange
    /// `upto`.
    pub open spec fn byte_at<E>(
        self,
        log: Seq<Exchange<E>>,
        base: int,
        upto: int,
        layout: FatLayout,
        start: Cluster,
        position: int,
    ) -> u8 {
        self.held(log, base, upto, self.block_of(layout, start, position))[position % 512]
    }

    /// Exchange `i` is what comes of this medium, which held `blocks` at exchange `base`.
    pub open spec fn answers<E>(self, log: Seq<Exchange<E>>, base: int, i: int) -> bool {
        match log[i] {
            Exchange::ReadBlock { block_idx, answer: Ok(block), .. } => block.len() == 512 && block
                == self.held(log, base, i, block_idx),
            Exchange::NextCluster { cluster, answer: (_, Ok(next)), .. } => next == (
            self.following)(cluster),
            Exchange::ClusterToBlock { cluster, answer } => answer == (self.first_block)(cluster),
            Exchange::AllocCluster { answer: Ok(cluster), .. } => cluster.0 >= 2,
            _ => true,
        }
    }

    /// The exchanges from `from` to `to` are what comes of this medium, which held `blocks` at
    /// exchange `base`.
    pub open spec fn faithful<E>(
        self,
        log: Seq<Exchange<E>>,
        base: int,
        from: int,
        to: int,
    ) -> bool {
        forall|i: int| from <= i < to ==> #[trigger] self.answers(log, base, i)
    }

    /// `place` is a cluster of the file that starts with cluster `start`, with the number of bytes
    /// of the file that come before it.
    pub open spec fn on_chain(self, layout: FatLayout, start: Cluster, place: (u32, Cluster)) -> bool {
        exists|n: nat|
            place.0 == n * layout.cluster_size.bytes() && place.1 == #[trigger] self.chain(start, n)
    }

    /// The positions from `from` to `to` of the file that starts with cluster `start` are in blocks
    /// of their own: a block for each 512 of them, and none of them `other`.
    pub open spec fn apart(
        self,
        layout: FatLayout,
        start: Cluster,
        from: int,
        to: int,
        other: BlockIdx,
    ) -> bool {
        &&& forall|p: int|
            from <= p < to ==> #[trigger] self.block_of(layout, start, p) != other
        &&& forall|p: int, q: int|
            from <= p < to && from <= q < to && p / 512 != q / 512 ==> #[trigger] self.block_of(
                layout,
                start,
                p,
            ) != #[trigger] self.block_of(layout, start, q)
    }
}

/// No block was written in the exchanges from `from` to `to`.
pub open spec fn writes_nothing<E>(log: Seq<Exchange<E>>, from: int, to: int) -> bool {
    forall|i: int| from <= i < to ==> !(#[trigger] log[i] is WriteBlock)
}

/// The blocks that were read in the exchanges from `from` to `to` were whole.
pub open spec fn whole_blocks<E>(log: Seq<Exchange<E>>, from: int, to: int) -> bool {
    forall|i: int|
        from <= i < to ==> match #[trigger] log[i] {
            Exchange::ReadBlock { answer: Ok(block), .. } => block.len() == 512,
            _ => true,
        }
}

/// Where nothing was written, every block holds what it held.
pub proof fn lemma_held_if_nothing_written<E>(
    medium: Medium,
    log: Seq<Exchange<E>>,
    base: int,
    from: int,
    to: int,
    block_idx: BlockIdx,
)
    requires
        base <= from <= to,
        writes_nothing(log, from, to),
    ensures
        medium.held(log, base, to, block_idx) == medium.held(log, base, from, block_idx),
    decreases to - from,
{
    if from < to {
        lemma_held_if_nothing_written(medium, log, base, from, to - 1, block_idx);
        assert(!(log[to - 1] is WriteBlock));
    }
}

/// Which block of which cluster a position is in.
proof fn lemma_block_in_cluster(offset: int, clusters: int, blocks: int)
    requires
        blocks > 0,
        0 <= clusters,
        0 <= offset - clusters * (blocks * 512) < blocks * 512,
    ensures
        (offset / 512) / blocks == clusters,
        (offset / 512) % blocks == (offset - clusters * (blocks * 512)) / 512,
{
    let rest = offset - clusters * (blocks * 512);
    assert(clusters * (blocks * 512) == (clusters * blocks) * 512) by (nonlinear_arith);
    let whole = clusters * blocks;
    assert(offset / 512 == whole + rest / 512);
    vstd::arithmetic::div_mod::lemma_fundamental_div_mod_converse(
        offset / 512,
        blocks,
        clusters,
        rest / 512,
    );
}

/// Looking for a position takes an exchange or more, and writes nothing.
pub proof fn lemma_located_writes_nothing<E>(
    log: Seq<Exchange<E>>,
    at: int,
    cluster_bytes: int,
    start: (u32, Cluster),
    offset: u32,
)
    requires
        0 <= at,
        start.0 <= offset,
        locate::located(log, at, cluster_bytes, start, offset) is Some,
    ensures
        ({
            let found = locate::located(log, at, cluster_bytes, start, offset)->0;
            &&& at < found.next <= log.len()
            &&& start.0 <= found.start.0 <= offset
            &&& writes_nothing(log, at, found.next)
        }),
{
    lemma_located_with_writes_nothing(log, at, cluster_bytes, start, offset, None);
}

/// As `lemma_located_writes_nothing`, for a search that goes on.
pub proof fn lemma_located_with_writes_nothing<E>(
    log: Seq<Exchange<E>>,
    at: int,
    cluster_bytes: int,
    start: (u32, Cluster),
    offset: u32,
    block_cache: Option<BlockCache>,
)
    requires
        0 <= at,
        start.0 <= offset,
        locate::located_with(log, at, cluster_bytes, start, offset, block_cache) is Some,
    ensures
        ({
            let found = locate::located_with(
                log,
                at,
                cluster_bytes,
                start,
                offset,
                block_cache,
            )->0;
            &&& at < found.next <= log.len()
            &&& start.0 <= found.start.0 <= offset
            &&& writes_nothing(log, at, found.next)
        }),
    decreases offset - start.0,
{
    if offset - start.0 >= cluster_bytes {
        if let Exchange::NextCluster { answer: (left, Ok(cluster)), .. } = log[at] {
            lemma_located_with_writes_nothing(
                log,
                at + 1,
                cluster_bytes,
                ((start.0 + cluster_bytes) as u32, cluster),
                offset,
                Some(left),
            );
        }
    }
}

/// Looking for a position stays on the chain, and finds the block of the position.
pub proof fn lemma_located_on_chain<E>(
    medium: Medium,
    log: Seq<Exchange<E>>,
    base: int,
    at: int,
    layout: FatLayout,
    first: Cluster,
    start: (u32, Cluster),
    offset: u32,
)
    requires
        0 <= at,
        layout.cluster_size.blocks() > 0,
        start.0 <= offset,
        medium.on_chain(layout, first, start),
        locate::located(log, at, layout.cluster_size.bytes(), start, offset) is Some,
        ({
            let found = locate::located(log, at, layout.cluster_size.bytes(), start, offset)->0;
            medium.faithful(log, base, at, found.next)
        }),
    ensures
        ({
            let found = locate::located(log, at, layout.cluster_size.bytes(), start, offset)->0;
            &&& medium.on_chain(layout, first, found.start)
            &&& found.answer matches Ok(block_idx) ==> block_idx == medium.block_of(
                layout,
                first,
                offset as int,
            )
        }),
{
    lemma_located_with_on_chain(medium, log, base, at, layout, first, start, offset, None);
}

/// As `lemma_located_on_chain`, for a search that goes on.
proof fn lemma_located_with_on_chain<E>(
    medium: Medium,
    log: Seq<Exchange<E>>,
    base: int,
    at: int,
    layout: FatLayout,
    first: Cluster,
    start: (u32, Cluster),
    offset: u32,
    block_cache: Option<BlockCache>,
)
    requires
        0 <= at,
        layout.cluster_size.blocks() > 0,
        start.0 <= offset,
        medium.on_chain(layout, first, start),
        ({
            let bytes = layout.cluster_size.bytes();
            let found = locate::located_with(log, at, bytes, start, offset, block_cache);
            &&& found is Some
            &&& medium.faithful(log, base, at, found->0.next)
        }),
    ensures
        ({
            let bytes = layout.cluster_size.bytes();
            let found = locate::located_with(log, at, bytes, start, offset, block_cache)->0;
            &&& medium.on_chain(layout, first, found.start)
            &&& found.answer matches Ok(block_idx) ==> block_idx == medium.block_of(
                layout,
                first,
                offset as int,
            )
        }),
    decreases offset - start.0,
{
    let bytes = layout.cluster_size.bytes();
    let n = choose|n: nat| start.0 == n * bytes && start.1 == #[trigger] medium.chain(first, n);
    lemma_located_with_writes_nothing(log, at, bytes, start, offset, block_cache);
    assert(medium.answers(log, base, at));
    if offset - start.0 < bytes {
        lemma_block_in_cluster(
            offset as int,
            n as int,
            layout.cluster_size.blocks() as int,
        );
    } else {
        if let Exchange::NextCluster { answer: (left, Ok(cluster)), .. } = log[at] {
            let further = ((start.0 + bytes) as u32, cluster);
            assert((n + 1) * bytes == n * bytes + bytes) by (nonlinear_arith);
            assert(medium.chain(first, n + 1) == cluster);
            lemma_located_with_on_chain(
                medium,
                log,
                base,
                at + 1,
                layout,
                first,
                further,
                offset,
                Some(left),
            );
        }
    }
}

/// Looking for a spot to write at writes nothing.
pub proof fn lemma_spot_writes_nothing<E>(
    log: Seq<Exchange<E>>,
    at: int,
    cluster_bytes: int,
    start: (u32, Cluster),
    offset: u32,
)
    requires
        0 <= at,
        start.0 <= offset,
        writing::spot_found(log, at, cluster_bytes, start, offset) is Some,
    ensures
        ({
            let found = writing::spot_found(log, at, cluster_bytes, start, offset)->0;
            &&& at < found.next <= log.len()
            &&& found.start.0 <= offset
            &&& writes_nothing(log, at, found.next)
        }),
{
    lemma_located_writes_nothing(log, at, cluster_bytes, start, offset);
    let found = locate::located(log, at, cluster_bytes, start, offset)->0;
    if found.answer == Err::<BlockIdx, Error<E>>(Error::EndOfFile) {
        if let Exchange::AllocCluster { answer: Ok(_), .. } = log[found.next] {
            lemma_located_writes_nothing(
                log,
                found.next + 1,
                cluster_bytes,
                found.start,
                offset,
            );
        }
    }
}

/// Looking for a spot to write at stays on the chain, and finds the block of the position.
pub proof fn lemma_spot_on_chain<E>(
    medium: Medium,
    log: Seq<Exchange<E>>,
    base: int,
    at: int,
    layout: FatLayout,
    first: Cluster,
    start: (u32, Cluster),
    offset: u32,
)
    requires
        0 <= at,
        layout.cluster_size.blocks() > 0,
        start.0 <= offset,
        medium.on_chain(layout, first, start),
        writing::spot_found(log, at, layout.cluster_size.bytes(), start, offset) is Some,
        ({
            let found = writing::spot_found(
                log,
                at,
                layout.cluster_size.bytes(),
                start,
                offset,
            )->0;
            medium.faithful(log, base, at, found.next)
        }),
    ensures
        ({
            let found = writing::spot_found(
                log,
                at,
                layout.cluster_size.bytes(),
                start,
                offset,
            )->0;
            &&& medium.on_chain(layout, first, found.start)
            &&& found.spot matches Spot::Block(block_idx) ==> block_idx == medium.block_of(
                layout,
                first,
                offset as int,
            )
        }),
{
    let bytes = layout.cluster_size.bytes();
    lemma_located_writes_nothing(log, at, bytes, start, offset);
    let found = locate::located(log, at, bytes, start, offset)->0;
    if found.answer == Err::<BlockIdx, Error<E>>(Error::EndOfFile) {
        if let Exchange::AllocCluster { answer: Ok(_), .. } = log[found.next] {
            lemma_located_writes_nothing(log, found.next + 1, bytes, found.start, offset);
            lemma_located_on_chain(medium, log, base, at, layout, first, start, offset);
            lemma_located_on_chain(
                medium,
                log,
                base,
                found.next + 1,
                layout,
                first,
                found.start,
                offset,
            );
        } else {
            lemma_located_on_chain(medium, log, base, at, layout, first, start, offset);
        }
    } else {
        lemma_located_on_chain(medium, log, base, at, layout, first, start, offset);
    }
}

/// The writing of a block takes an exchange or more, and moves the file on as far as it got.
pub proof fn lemma_chunk_extent<E>(
    log: Seq<Exchange<E>>,
    at: int,
    layout: FatLayout,
    bytes: Seq<u8>,
    file: File,
)
    requires
        0 <= at,
        file.current_cluster.0 <= file.current_offset,
        file.current_offset + bytes.len() <= u32::MAX,
        writing::chunk_written(log, at, layout, bytes, file) is Some,
    ensures
        ({
            let chunk = writing::chunk_written(log, at, layout, bytes, file)->0;
            &&& at < chunk.next <= log.len()
            &&& chunk.file.starting_cluster == file.starting_cluster
            &&& chunk.file.entry.entry_block == file.entry.entry_block
            &&& chunk.file.entry.entry_offset == file.entry.entry_offset
            &&& chunk.file.mode == file.mode
            &&& chunk.file.search_id == file.search_id
            &&& chunk.file.current_cluster.0 <= chunk.file.current_offset
            &&& chunk.end is NoSpace ==> chunk.file == file
            &&& chunk.end is Stored ==> chunk.file.current_offset == file.current_offset
                + bytes.len() && chunk.file.length == file.length + bytes.len()
        }),
{
    lemma_spot_writes_nothing(
        log,
        at,
        layout.cluster_size.bytes(),
        file.current_cluster,
        file.current_offset,
    );
}

/// The writing of a block leaves the file with one of its own clusters.
pub proof fn lemma_chunk_on_chain<E>(
    medium: Medium,
    log: Seq<Exchange<E>>,
    base: int,
    at: int,
    layout: FatLayout,
    bytes: Seq<u8>,
    file: File,
)
    requires
        0 <= at,
        layout.cluster_size.blocks() > 0,
        file.current_cluster.0 <= file.current_offset,
        medium.on_chain(layout, file.starting_cluster, file.current_cluster),
        writing::chunk_written(log, at, layout, bytes, file) is Some,
        medium.faithful(
            log,
            base,
            at,
            writing::chunk_written(log, at, layout, bytes, file)->0.next,
        ),
    ensures
        medium.on_chain(
            layout,
            file.starting_cluster,
            writing::chunk_written(log, at, layout, bytes, file)->0.file.current_cluster,
        ),
{
    lemma_spot_writes_nothing(
        log,
        at,
        layout.cluster_size.bytes(),
        file.current_cluster,
        file.current_offset,
    );
    lemma_spot_on_chain(
        medium,
        log,
        base,
        at,
        layout,
        file.starting_cluster,
        file.current_cluster,
        file.current_offset,
    );
}

/// Once the bytes for a block are stored, the block of the position holds them, and what came
/// before them in it; every other block but that of the directory entry holds what it held.
pub proof fn lemma_chunk_stores<E>(
    medium: Medium,
    log: Seq<Exchange<E>>,
    base: int,
    at: int,
    layout: FatLayout,
    bytes: Seq<u8>,
    file: File,
)
    requires
        0 <= base <= at,
        layout.cluster_size.blocks() > 0,
        file.current_cluster.0 <= file.current_offset,
        file.current_offset % 512 + bytes.len() <= 512,
        file.current_offset + bytes.len() <= u32::MAX,
        medium.on_chain(layout, file.starting_cluster, file.current_cluster),
        writing::chunk_written(log, at, layout, bytes, file) is Some,
        ({
            let chunk = writing::chunk_written(log, at, layout, bytes, file)->0;
            &&& medium.faithful(log, base, at, chunk.next)
            &&& chunk.end is Stored
        }),
        medium.block_of(layout, file.starting_cluster, file.current_offset as int)
            != file.entry.entry_block,
    ensures
        ({
            let chunk = writing::chunk_written(log, at, layout, bytes, file)->0;
            let target = medium.block_of(
                layout,
                file.starting_cluster,
                file.current_offset as int,
            );
            let before = medium.held(log, base, at, target);
            let after = medium.held(log, base, chunk.next, target);
            let from = file.current_offset as int % 512;
            &&& forall|i: int| 0 <= i < bytes.len() ==> #[trigger] after[from + i] == bytes[i]
            &&& forall|i: int| 0 <= i < from ==> #[trigger] after[i] == before[i]
            &&& forall|other: BlockIdx|
                other != target && other != file.entry.entry_block ==> #[trigger] medium.held(
                    log,
                    base,
                    chunk.next,
                    other,
                ) == medium.held(log, base, at, other)
        }),
{
    let cluster_bytes = layout.cluster_size.bytes();
    let chunk = writing::chunk_written(log, at, layout, bytes, file)->0;
    let target = medium.block_of(layout, file.starting_cluster, file.current_offset as int);
    let from = file.current_offset as int % 512;
    lemma_chunk_extent(log, at, layout, bytes, file);
    lemma_spot_writes_nothing(
        log,
        at,
        cluster_bytes,
        file.current_cluster,
        file.current_offset,
    );
    let found = writing::spot_found(
        log,
        at,
        cluster_bytes,
        file.current_cluster,
        file.current_offset,
    )->0;
    lemma_spot_on_chain(
        medium,
        log,
        base,
        at,
        layout,
        file.starting_cluster,
        file.current_cluster,
        file.current_offset,
    );
    assert(found.spot == Spot::<E>::Block(target));
    let stored = writing::block_stored(log, found.next, target, from, bytes)->0;
    // Up to the exchange that writes the block, nothing is written
    let write_at = stored.next - 1;
    assert(writes_nothing(log, at, write_at));
    assert(log[write_at] is WriteBlock);
    // Behind it, the block of the directory entry alone is
    let entry_at = chunk.next - 1;
    assert(entry_at == write_at + 5);
    assert(writes_nothing(log, write_at + 1, entry_at));
    assert forall|other: BlockIdx|
        other != target && other != file.entry.entry_block implies #[trigger] medium.held(
        log,
        base,
        chunk.next,
        other,
    ) == medium.held(log, base, at, other) by {
        lemma_held_if_nothing_written(medium, log, base, at, write_at, other);
        lemma_held_if_nothing_written(medium, log, base, write_at + 1, entry_at, other);
    }
    lemma_held_if_nothing_written(medium, log, base, write_at + 1, entry_at, target);
    lemma_held_if_nothing_written(medium, log, base, at, write_at, target);
    if from != 0 {
        assert(medium.answers(log, base, found.next));
        lemma_held_if_nothing_written(medium, log, base, at, found.next, target);
    }
}

/// How far a write moves the file on, and why it stops.
pub proof fn lemma_write_extent<E>(
    log: Seq<Exchange<E>>,
    at: int,
    layout: FatLayout,
    buffer: Seq<u8>,
    total: nat,
    file: File,
    written: nat,
)
    requires
        0 <= at <= log.len(),
        written <= total <= buffer.len(),
        file.current_cluster.0 <= file.current_offset,
        file.current_offset + (total - written) <= u32::MAX,
        writing::write_on(log, at, layout, buffer, total, file, written) is Some,
    ensures
        ({
            let outcome = writing::write_on(log, at, layout, buffer, total, file, written)->0;
            &&& at <= outcome.next <= log.len()
            &&& outcome.file.starting_cluster == file.starting_cluster
            &&& outcome.file.entry.entry_block == file.entry.entry_block
            &&& outcome.file.entry.entry_offset == file.entry.entry_offset
            &&& outcome.file.mode == file.mode
            &&& outcome.file.search_id == file.search_id
            &&& outcome.file.current_cluster.0 <= outcome.file.current_offset
            &&& outcome.answer matches Ok(count) ==> {
                &&& written <= count <= total
                &&& outcome.file.current_offset == file.current_offset + (count - written)
                &&& outcome.file.length == file.length + (count - written)
                &&& count < total ==> {
                    &&& at < outcome.next
                    &&& log[outcome.next - 1] matches Exchange::AllocCluster {
                        answer: Err(_),
                        ..
                    }
                }
            }
        }),
    decreases total - written,
{
    if written < total {
        let count = writing::chunk_len(file.current_offset, total - written);
        let bytes = buffer.subrange(written as int, written + count);
        lemma_chunk_extent(log, at, layout, bytes, file);
        let chunk = writing::chunk_written(log, at, layout, bytes, file)->0;
        match chunk.end {
            ChunkEnd::Stored => {
                lemma_write_extent(
                    log,
                    chunk.next,
                    layout,
                    buffer,
                    total,
                    chunk.file,
                    (written + count) as nat,
                );
            },
            ChunkEnd::NoSpace => {
                lemma_no_space(
                    log,
                    at,
                    layout.cluster_size.bytes(),
                    file.current_cluster,
                    file.current_offset,
                );
            },
            ChunkEnd::Failed(_) => {},
        }
    }
}

/// There is no space where no cluster could be allocated.
proof fn lemma_no_space<E>(
    log: Seq<Exchange<E>>,
    at: int,
    cluster_bytes: int,
    start: (u32, Cluster),
    offset: u32,
)
    requires
        writing::spot_found(log, at, cluster_bytes, start, offset) is Some,
        writing::spot_found(log, at, cluster_bytes, start, offset)->0.spot is NoSpace,
    ensures
        ({
            let found = writing::spot_found(log, at, cluster_bytes, start, offset)->0;
            log[found.next - 1] matches Exchange::AllocCluster { answer: Err(_), .. }
        }),
{
}

/// A write leaves the file with one of its own clusters.
pub proof fn lemma_write_on_chain<E>(
    medium: Medium,
    log: Seq<Exchange<E>>,
    base: int,
    at: int,
    layout: FatLayout,
    buffer: Seq<u8>,
    total: nat,
    file: File,
    written: nat,
)
    requires
        0 <= at <= log.len(),
        layout.cluster_size.blocks() > 0,
        written <= total <= buffer.len(),
        file.current_cluster.0 <= file.current_offset,
        file.current_offset + (total - written) <= u32::MAX,
        medium.on_chain(layout, file.starting_cluster, file.current_cluster),
        writing::write_on(log, at, layout, buffer, total, file, written) is Some,
        medium.faithful(
            log,
            base,
            at,
            writing::write_on(log, at, layout, buffer, total, file, written)->0.next,
        ),
    ensures
        medium.on_chain(
            layout,
            file.starting_cluster,
            writing::write_on(
                log,
                at,
                layout,
                buffer,
                total,
                file,
                written,
            )->0.file.current_cluster,
        ),
    decreases total - written,
{
    if written < total {
        let len = writing::chunk_len(file.current_offset, total - written);
        let bytes = buffer.subrange(written as int, written + len);
        let done = (written + len) as nat;
        lemma_chunk_extent(log, at, layout, bytes, file);
        let chunk = writing::chunk_written(log, at, layout, bytes, file)->0;
        if chunk.end is Stored {
            lemma_write_extent(log, chunk.next, layout, buffer, total, chunk.file, done);
            lemma_chunk_on_chain(medium, log, base, at, layout, bytes, file);
            lemma_write_on_chain(
                medium,
                log,
                base,
                chunk.next,
                layout,
                buffer,
                total,
                chunk.file,
                done,
            );
        } else {
            lemma_chunk_on_chain(medium, log, base, at, layout, bytes, file);
        }
    }
}

/// Once `count` bytes are written, the blocks of the file hold them and what came before them, as
/// far back as `lowest`; every block that is none of these, nor that of the directory entry, holds
/// what it held.
pub proof fn lemma_write_stores<E>(
    medium: Medium,
    log: Seq<Exchange<E>>,
    base: int,
    at: int,
    layout: FatLayout,
    buffer: Seq<u8>,
    total: nat,
    file: File,
    written: nat,
    count: nat,
    lowest: int,
)
    requires
        0 <= base <= at <= log.len(),
        layout.cluster_size.blocks() > 0,
        written <= total <= buffer.len(),
        file.current_cluster.0 <= file.current_offset,
        file.current_offset + (total - written) <= u32::MAX,
        medium.on_chain(layout, file.starting_cluster, file.current_cluster),
        writing::write_on(log, at, layout, buffer, total, file, written) is Some,
        ({
            let outcome = writing::write_on(log, at, layout, buffer, total, file, written)->0;
            &&& medium.faithful(log, base, at, outcome.next)
            &&& outcome.answer == Ok::<nat, Error<E>>(count)
        }),
        0 <= lowest <= file.current_offset,
        medium.apart(
            layout,
            file.starting_cluster,
            lowest,
            file.current_offset + (count - written),
            file.entry.entry_block,
        ),
    ensures
        ({
            let outcome = writing::write_on(log, at, layout, buffer, total, file, written)->0;
            let first = file.starting_cluster;
            let position = file.current_offset as int;
            &&& forall|i: int|
                written <= i < count ==> #[trigger] medium.byte_at(
                    log,
                    base,
                    outcome.next,
                    layout,
                    first,
                    position + (i - written),
                ) == buffer[i]
            &&& forall|q: int|
                lowest <= q < position ==> #[trigger] medium.byte_at(
                    log,
                    base,
                    outcome.next,
                    layout,
                    first,
                    q,
                ) == medium.byte_at(log, base, at, layout, first, q)
            &&& forall|other: BlockIdx|
                other != file.entry.entry_block && (forall|q: int|
                    position <= q < position + (count - written) ==> #[trigger] medium.block_of(
                        layout,
                        first,
                        q,
                    ) != other) ==> #[trigger] medium.held(log, base, outcome.next, other)
                    == medium.held(log, base, at, other)
        }),
    decreases total - written,
{
    lemma_write_extent(log, at, layout, buffer, total, file, written);
    if written < total {
        let first = file.starting_cluster;
        let position = file.current_offset as int;
        let len = writing::chunk_len(file.current_offset, total - written);
        let bytes = buffer.subrange(written as int, written + len);
        lemma_chunk_extent(log, at, layout, bytes, file);
        let chunk = writing::chunk_written(log, at, layout, bytes, file)->0;
        let outcome = writing::write_on(log, at, layout, buffer, total, file, written)->0;
        match chunk.end {
            ChunkEnd::Stored => {
                let done = (written + len) as nat;
                lemma_write_extent(log, chunk.next, layout, buffer, total, chunk.file, done);
                let target = medium.block_of(layout, first, position);
                assert(target != file.entry.entry_block);
                lemma_chunk_on_chain(medium, log, base, at, layout, bytes, file);
                lemma_chunk_stores(medium, log, base, at, layout, bytes, file);
                lemma_write_stores(
                    medium,
                    log,
                    base,
                    chunk.next,
                    layout,
                    buffer,
                    total,
                    chunk.file,
                    done,
                    count,
                    lowest,
                );
                assert forall|i: int| written <= i < count implies #[trigger] medium.byte_at(
                    log,
                    base,
                    outcome.next,
                    layout,
                    first,
                    position + (i - written),
                ) == buffer[i] by {
                    let q = position + (i - written);
                    if i < done {
                        assert(q / 512 == position / 512);
                        assert(medium.held(log, base, chunk.next, target)[position % 512 + (i
                            - written)] == bytes[i - written]);
                        assert(medium.byte_at(log, base, chunk.next, layout, first, q)
                            == buffer[i]);
                    } else {
                        assert(medium.byte_at(
                            log,
                            base,
                            outcome.next,
                            layout,
                            first,
                            chunk.file.current_offset + (i - done),
                        ) == buffer[i]);
                    }
                }
                assert forall|q: int| lowest <= q < position implies #[trigger] medium.byte_at(
                    log,
                    base,
                    outcome.next,
                    layout,
                    first,
                    q,
                ) == medium.byte_at(log, base, at, layout, first, q) by {
                    assert(medium.byte_at(log, base, outcome.next, layout, first, q)
                        == medium.byte_at(log, base, chunk.next, layout, first, q));
                    let holder = medium.block_of(layout, first, q);
                    assert(holder != file.entry.entry_block);
                    if q / 512 == position / 512 {
                        assert(holder == target);
                        assert(0 <= q % 512 < position % 512);
                    } else {
                        assert(holder != target);
                        assert(medium.held(log, base, chunk.next, holder) == medium.held(
                            log,
                            base,
                            at,
                            holder,
                        ));
                    }
                }
                assert forall|other: BlockIdx|
                    other != file.entry.entry_block && (forall|q: int|
                        position <= q < position + (count - written) ==> #[trigger] medium.block_of(
                            layout,
                            first,
                            q,
                        ) != other) implies #[trigger] medium.held(log, base, outcome.next, other)
                    == medium.held(log, base, at, other) by {
                    assert(target != other);
                    assert(medium.held(log, base, chunk.next, other) == medium.held(
                        log,
                        base,
                        at,
                        other,
                    ));
                }
            },
            ChunkEnd::NoSpace => {
                lemma_spot_writes_nothing(
                    log,
                    at,
                    layout.cluster_size.bytes(),
                    file.current_cluster,
                    file.current_offset,
                );
                assert forall|other: BlockIdx| #[trigger] medium.held(log, base, chunk.next, other)
                    == medium.held(log, base, at, other) by {
                    lemma_held_if_nothing_written(medium, log, base, at, chunk.next, other);
                }
            },
            ChunkEnd::Failed(_) => {},
        }
    }
}

/// A read writes nothing.
pub proof fn lemma_read_writes_nothing<E>(
    log: Seq<Exchange<E>>,
    at: int,
    cluster_bytes: int,
    length: u32,
    wanted: nat,
    reading: Reading,
)
    requires
        0 <= at <= log.len(),
        reading.current_cluster.0 <= reading.offset <= length,
        reading::read_on(log, at, cluster_bytes, length, wanted, reading) is Some,
    ensures
        ({
            let outcome = reading::read_on(log, at, cluster_bytes, length, wanted, reading)->0;
            &&& at <= outcome.next <= log.len()
            &&& writes_nothing(log, at, outcome.next)
        }),
    decreases length - reading.offset,
{
    if reading.data.len() < wanted && reading.offset < length {
        lemma_located_writes_nothing(
            log,
            at,
            cluster_bytes,
            reading.current_cluster,
            reading.offset,
        );
        let found = locate::located(
            log,
            at,
            cluster_bytes,
            reading.current_cluster,
            reading.offset,
        )->0;
        let reached = Reading { current_cluster: found.start, ..reading };
        if found.answer is Ok {
            if let Exchange::ReadBlock { answer: Ok(block), .. } = log[found.next] {
                lemma_read_writes_nothing(
                    log,
                    found.next + 1,
                    cluster_bytes,
                    length,
                    wanted,
                    reading::with_chunk(reached, block, length, wanted),
                );
            }
        }
    }
}

/// How far a read of whole blocks gets, and that it keeps what it has.
pub proof fn lemma_read_extent<E>(
    log: Seq<Exchange<E>>,
    at: int,
    cluster_bytes: int,
    length: u32,
    wanted: nat,
    reading: Reading,
)
    requires
        0 <= at <= log.len(),
        reading.current_cluster.0 <= reading.offset <= length,
        reading.data.len() <= wanted,
        reading::read_on(log, at, cluster_bytes, length, wanted, reading) is Some,
        whole_blocks(
            log,
            at,
            reading::read_on(log, at, cluster_bytes, length, wanted, reading)->0.next,
        ),
    ensures
        ({
            let outcome = reading::read_on(log, at, cluster_bytes, length, wanted, reading)->0;
            &&& reading.data.is_prefix_of(outcome.end.data)
            &&& outcome.end.data.len() <= wanted
            &&& outcome.end.offset == reading.offset + (outcome.end.data.len()
                - reading.data.len())
            &&& outcome.end.current_cluster.0 <= outcome.end.offset <= length
            &&& outcome.error is None ==> outcome.end.data.len() == wanted || outcome.end.offset
                == length
        }),
    decreases length - reading.offset,
{
    lemma_read_writes_nothing(log, at, cluster_bytes, length, wanted, reading);
    if reading.data.len() < wanted && reading.offset < length {
        lemma_located_writes_nothing(
            log,
            at,
            cluster_bytes,
            reading.current_cluster,
            reading.offset,
        );
        let found = locate::located(
            log,
            at,
            cluster_bytes,
            reading.current_cluster,
            reading.offset,
        )->0;
        let reached = Reading { current_cluster: found.start, ..reading };
        if found.answer is Ok {
            if let Exchange::ReadBlock { answer: Ok(block), .. } = log[found.next] {
                let further = reading::with_chunk(reached, block, length, wanted);
                let count = reading::chunk_len(reached, length, wanted);
                lemma_read_writes_nothing(
                    log,
                    found.next + 1,
                    cluster_bytes,
                    length,
                    wanted,
                    further,
                );
                assert(further.data.len() == reading.data.len() + count);
                lemma_read_extent(log, found.next + 1, cluster_bytes, length, wanted, further);
                assert(reading.data.is_prefix_of(further.data));
            }
        }
    }
}

/// What is read is what the blocks of the file hold.
pub proof fn lemma_read_gives<E>(
    medium: Medium,
    log: Seq<Exchange<E>>,
    base: int,
    at: int,
    layout: FatLayout,
    first: Cluster,
    length: u32,
    wanted: nat,
    reading: Reading,
)
    requires
        0 <= base <= at <= log.len(),
        layout.cluster_size.blocks() > 0,
        reading.current_cluster.0 <= reading.offset <= length,
        reading.data.len() <= wanted,
        medium.on_chain(layout, first, reading.current_cluster),
        reading::read_on(
            log,
            at,
            layout.cluster_size.bytes(),
            length,
            wanted,
            reading,
        ) is Some,
        ({
            let outcome = reading::read_on(
                log,
                at,
                layout.cluster_size.bytes(),
                length,
                wanted,
                reading,
            )->0;
            medium.faithful(log, base, at, outcome.next)
        }),
    ensures
        ({
            let outcome = reading::read_on(
                log,
                at,
                layout.cluster_size.bytes(),
                length,
                wanted,
                reading,
            )->0;
            let had = reading.data.len();
            &&& medium.on_chain(layout, first, outcome.end.current_cluster)
            &&& forall|i: int|
                had <= i < outcome.end.data.len() ==> #[trigger] outcome.end.data[i]
                    == medium.byte_at(
                    log,
                    base,
                    at,
                    layout,
                    first,
                    reading.offset + (i - had),
                )
        }),
    decreases length - reading.offset,
{
    let cluster_bytes = layout.cluster_size.bytes();
    lemma_faithful_blocks_are_whole(
        medium,
        log,
        base,
        at,
        reading::read_on(log, at, cluster_bytes, length, wanted, reading)->0.next,
    );
    lemma_read_extent(log, at, cluster_bytes, length, wanted, reading);
    if reading.data.len() < wanted && reading.offset < length {
        lemma_located_writes_nothing(
            log,
            at,
            cluster_bytes,
            reading.current_cluster,
            reading.offset,
        );
        let found = locate::located(
            log,
            at,
            cluster_bytes,
            reading.current_cluster,
            reading.offset,
        )->0;
        let reached = Reading { current_cluster: found.start, ..reading };
        let outcome = reading::read_on(log, at, cluster_bytes, length, wanted, reading)->0;
        lemma_read_writes_nothing(log, at, cluster_bytes, length, wanted, reading);
        if let (Ok(block_idx), Exchange::ReadBlock { answer: Ok(block), .. }) = (
            found.answer,
            log[found.next],
        ) {
            let further = reading::with_chunk(reached, block, length, wanted);
            let count = reading::chunk_len(reached, length, wanted);
            lemma_read_writes_nothing(
                log,
                found.next + 1,
                cluster_bytes,
                length,
                wanted,
                further,
            );
            lemma_read_extent(log, found.next + 1, cluster_bytes, length, wanted, further);
            lemma_located_on_chain(
                medium,
                log,
                base,
                at,
                layout,
                first,
                reading.current_cluster,
                reading.offset,
            );
            assert(medium.answers(log, base, found.next));
            lemma_read_gives(
                medium,
                log,
                base,
                found.next + 1,
                layout,
                first,
                length,
                wanted,
                further,
            );
            let had = reading.data.len();
            assert forall|i: int| had <= i < outcome.end.data.len() implies #[trigger]
                outcome.end.data[i] == medium.byte_at(
                log,
                base,
                at,
                layout,
                first,
                reading.offset + (i - had),
            ) by {
                let q = reading.offset + (i - had);
                let holder = medium.block_of(layout, first, q);
                if i < had + count {
                    assert(outcome.end.data[i] == further.data[i]);
                    assert(q / 512 == reading.offset as int / 512);
                    assert(holder == block_idx);
                    lemma_held_if_nothing_written(medium, log, base, at, found.next, holder);
                } else {
                    assert(further.offset + (i - further.data.len()) == q);
                    lemma_held_if_nothing_written(medium, log, base, at, found.next + 1, holder);
                }
            }
        } else {
            lemma_located_on_chain(
                medium,
                log,
                base,
                at,
                layout,
                first,
                reading.current_cluster,
                reading.offset,
            );
        }
    }
}

/// The blocks that a medium gives back are whole.
pub proof fn lemma_faithful_blocks_are_whole<E>(
    medium: Medium,
    log: Seq<Exchange<E>>,
    base: int,
    from: int,
    to: int,
)
    requires
        medium.faithful(log, base, from, to),
    ensures
        whole_blocks(log, from, to),
{
    assert forall|i: int| from <= i < to implies match #[trigger] log[i] {
        Exchange::ReadBlock { answer: Ok(block), .. } => block.len() == 512,
        _ => true,
    } by {
        assert(medium.answers(log, base, i));
    }
}

} // verus!
