//! What writing to a file does.
use crate::blockdevice;
use crate::blockdevice::BlockIdx;
use crate::error::Error;
use crate::exchange::Exchange;
use crate::filesystem::{Cluster, DirEntry, File, Mode, Timestamp};
use crate::locate;
use crate::open_list;
use crate::opening;
use crate::record;
use crate::state::ManagerState;
use crate::volume::FatLayout;
use vstd::prelude::*;

verus! {

/// Where the next bytes are to be written.
pub enum Spot<E> {
    /// In that block.
    Block(BlockIdx),
    /// Nowhere: there is no cluster left for the file.
    NoSpace,
    /// It could not be found out.
    Unknown(Error<E>),
}

/// What came of looking for a spot to write at.
pub struct SpotFound<E> {
    /// Where the record of it ends.
    pub next: int,
    /// The last cluster that was reached, and how many bytes of the file come before it.
    pub start: (u32, Cluster),
    /// The spot.
    pub spot: Spot<E>,
}

/// The record from `at` on tells how the spot for position `offset` was looked for, given a
/// cluster of the file and how many bytes of the file come before it: where the chain ended before
/// the position, it was extended by a cluster and followed from its end.
pub open spec fn spot_found<E>(
    log: Seq<Exchange<E>>,
    at: int,
    cluster_bytes: int,
    start: (u32, Cluster),
    offset: u32,
) -> Option<SpotFound<E>> {
    match locate::located(log, at, cluster_bytes, start, offset) {
        None => None,
        Some(found) => match found.answer {
            Ok(block_idx) => Some(
                SpotFound { next: found.next, start: found.start, spot: Spot::Block(block_idx) },
            ),
            Err(Error::EndOfFile) => match record::answered_alloc(
                log,
                found.next,
                Some(found.start.1),
            ) {
                None => None,
                Some(Err(_)) => Some(
                    SpotFound { next: found.next + 1, start: found.start, spot: Spot::NoSpace },
                ),
                Some(Ok(_)) => match locate::located(
                    log,
                    found.next + 1,
                    cluster_bytes,
                    found.start,
                    offset,
                ) {
                    None => None,
                    Some(again) => Some(
                        SpotFound {
                            next: again.next,
                            start: again.start,
                            spot: match again.answer {
                                Ok(block_idx) => Spot::Block(block_idx),
                                Err(_) => Spot::Unknown(Error::AllocationError),
                            },
                        },
                    ),
                },
            },
            Err(error) => Some(
                SpotFound { next: found.next, start: found.start, spot: Spot::Unknown(error) },
            ),
        },
    }
}

/// What came of a step of a write.
pub struct StepTaken<A, E> {
    /// Where the record of it ends.
    pub next: int,
    /// What it gave, or why it failed.
    pub answer: Result<A, Error<E>>,
}

/// The record from `at` on tells how `bytes` were written to block `block_idx` from byte `from`
/// on. A block that is not written from its start is read first; the rest of a block that is
/// written from its start becomes zero.
pub open spec fn block_stored<E>(
    log: Seq<Exchange<E>>,
    at: int,
    block_idx: BlockIdx,
    from: int,
    bytes: Seq<u8>,
) -> Option<StepTaken<(), E>> {
    if from == 0 {
        block_written(log, at, block_idx, blockdevice::overlaid(blockdevice::zero_block(), 0, bytes))
    } else {
        match record::answered_read(log, at, block_idx, "read"@) {
            None => None,
            Some(Err(error)) => Some(
                StepTaken { next: at + 1, answer: Err(Error::DeviceError(error)) },
            ),
            Some(Ok(block)) => block_written(
                log,
                at + 1,
                block_idx,
                blockdevice::overlaid(block, from, bytes),
            ),
        }
    }
}

/// The exchange at `at` tells how `block` was written to block `block_idx`.
pub open spec fn block_written<E>(
    log: Seq<Exchange<E>>,
    at: int,
    block_idx: BlockIdx,
    block: Seq<u8>,
) -> Option<StepTaken<(), E>> {
    match record::answered_write(log, at, block_idx, block) {
        None => None,
        Some(Err(error)) => Some(
            StepTaken { next: at + 1, answer: Err(Error::DeviceError(error)) },
        ),
        Some(Ok(())) => Some(StepTaken { next: at + 1, answer: Ok(()) }),
    }
}

/// The record from `at` on tells how the size of the file was written down, in `entry` and in the
/// count of free clusters.
pub open spec fn size_noted<E>(
    log: Seq<Exchange<E>>,
    at: int,
    layout: FatLayout,
    entry: DirEntry,
) -> Option<StepTaken<(), E>> {
    match record::answered_update_info(log, at) {
        None => None,
        Some(Err(error)) => Some(StepTaken { next: at + 1, answer: Err(error) }),
        Some(Ok(())) => match opening::entry_stored(log, at + 1, layout.fat_type, entry) {
            None => None,
            Some(stored) => Some(StepTaken { next: stored.next, answer: stored.answer }),
        },
    }
}

/// `file` once `count` bytes were written at its position, which is in or behind the cluster
/// `start`, at time `time`.
pub open spec fn file_written(file: File, start: (u32, Cluster), count: int, time: Timestamp) -> File {
    let length = (file.length + count) as u32;
    File {
        current_cluster: start,
        current_offset: (file.current_offset + count) as u32,
        length,
        entry: DirEntry {
            size: length,
            attributes: file.entry.attributes.archived(),
            mtime: time,
            ..file.entry
        },
        ..file
    }
}

/// How the writing of the bytes for one block ended.
pub enum ChunkEnd<E> {
    /// They are on the device, and so is the new size.
    Stored,
    /// There is no cluster left for them.
    NoSpace,
    /// Something failed.
    Failed(Error<E>),
}

/// What came of writing the bytes for one block.
pub struct ChunkOutcome<E> {
    /// Where the record of it ends.
    pub next: int,
    /// The file from then on.
    pub file: File,
    /// How it ended.
    pub end: ChunkEnd<E>,
}

/// The record from `at` on tells how `bytes` were written at the position of `file`, whose block
/// they do not reach beyond: a spot was found, the bytes were stored, and the new size was noted,
/// unless there is no such size.
pub open spec fn chunk_written<E>(
    log: Seq<Exchange<E>>,
    at: int,
    layout: FatLayout,
    bytes: Seq<u8>,
    file: File,
) -> Option<ChunkOutcome<E>> {
    match spot_found(
        log,
        at,
        layout.cluster_size.bytes(),
        file.current_cluster,
        file.current_offset,
    ) {
        None => None,
        Some(found) => match found.spot {
            Spot::NoSpace => Some(
                ChunkOutcome { next: found.next, file, end: ChunkEnd::NoSpace },
            ),
            Spot::Unknown(error) => Some(
                ChunkOutcome { next: found.next, file, end: ChunkEnd::Failed(error) },
            ),
            Spot::Block(block_idx) => match block_stored(
                log,
                found.next,
                block_idx,
                file.current_offset as int % 512,
                bytes,
            ) {
                None => None,
                Some(stored) => match stored.answer {
                    Err(error) => Some(
                        ChunkOutcome { next: stored.next, file, end: ChunkEnd::Failed(error) },
                    ),
                    Ok(()) => if file.length + bytes.len() > u32::MAX {
                        Some(
                            ChunkOutcome {
                                next: stored.next,
                                file: File { current_cluster: found.start, ..file },
                                end: ChunkEnd::Failed(Error::ConversionError),
                            },
                        )
                    } else {
                        match record::answered_timestamp(log, stored.next) {
                            None => None,
                            Some(time) => {
                                let further = file_written(
                                    file,
                                    found.start,
                                    bytes.len() as int,
                                    time,
                                );
                                match size_noted(log, stored.next + 1, layout, further.entry) {
                                    None => None,
                                    Some(noted) => Some(
                                        ChunkOutcome {
                                            next: noted.next,
                                            file: further,
                                            end: match noted.answer {
                                                Ok(()) => ChunkEnd::Stored,
                                                Err(error) => ChunkEnd::Failed(error),
                                            },
                                        },
                                    ),
                                }
                            },
                        }
                    },
                },
            },
        },
    }
}

/// What came of a write.
pub struct WriteOutcome<E> {
    /// Where the record of it ends.
    pub next: int,
    /// The file from then on.
    pub file: File,
    /// How many bytes were written, or why the write failed.
    pub answer: Result<nat, Error<E>>,
}

/// How many of `remaining` bytes are written to the block of position `offset`.
pub open spec fn chunk_len(offset: u32, remaining: int) -> int {
    let room = 512 - offset % 512;
    if room <= remaining {
        room
    } else {
        remaining
    }
}

/// The record from `at` on tells how a write of the first `total` bytes of `buffer` went on after
/// `written` of them: block by block, until all were written or there was no space left.
pub open spec fn write_on<E>(
    log: Seq<Exchange<E>>,
    at: int,
    layout: FatLayout,
    buffer: Seq<u8>,
    total: nat,
    file: File,
    written: nat,
) -> Option<WriteOutcome<E>>
    decreases total - written,
{
    if written >= total {
        Some(WriteOutcome { next: at, file, answer: Ok(written) })
    } else {
        let count = chunk_len(file.current_offset, total - written);
        let bytes = buffer.subrange(written as int, written + count);
        match chunk_written(log, at, layout, bytes, file) {
            None => None,
            Some(chunk) => match chunk.end {
                ChunkEnd::Stored => write_on(
                    log,
                    chunk.next,
                    layout,
                    buffer,
                    total,
                    chunk.file,
                    (written + count) as nat,
                ),
                ChunkEnd::NoSpace => Some(
                    WriteOutcome { next: chunk.next, file: chunk.file, answer: Ok(written) },
                ),
                ChunkEnd::Failed(error) => Some(
                    WriteOutcome { next: chunk.next, file: chunk.file, answer: Err(error) },
                ),
            },
        }
    }
}

/// `file`, with its first cluster remembered if the one remembered so far has a lower number.
pub open spec fn rewound(file: File) -> File {
    if file.current_cluster.1.0 < file.starting_cluster.0 {
        File { current_cluster: (0, file.starting_cluster), ..file }
    } else {
        file
    }
}

/// `file` with `cluster` as its first cluster.
pub open spec fn started_at(file: File, cluster: Cluster) -> File {
    File { starting_cluster: cluster, entry: DirEntry { cluster, ..file.entry }, ..file }
}

/// How many of `available` bytes fit into a file from position `offset` on.
pub open spec fn fitting(available: nat, offset: u32) -> nat {
    if available <= u32::MAX - offset {
        available
    } else {
        (u32::MAX - offset) as nat
    }
}

/// What came of making a file ready to be written.
pub struct Prepared<E> {
    /// What the volume manager keeps track of from then on.
    pub after: ManagerState<E>,
    /// The file from then on.
    pub file: File,
    /// Whether the file is ready, or why it is not.
    pub answer: Result<(), Error<E>>,
}

/// The record `log` continues that of `before` and tells how `file` was made ready to be written:
/// where it had no cluster, it was given one, which the list of open files then has too.
pub open spec fn prepared<E>(
    log: Seq<Exchange<E>>,
    before: ManagerState<E>,
    file: File,
) -> Option<Prepared<E>> {
    let at = before.log.len() as int;
    if file.mode == Mode::ReadOnly {
        Some(Prepared { after: before, file, answer: Err(Error::ReadOnly) })
    } else if file.starting_cluster.0 < 2 {
        let after = before.with_log(log.take(at + 1));
        match record::answered_alloc(log, at, None) {
            None => None,
            Some(Err(error)) => Some(Prepared { after, file, answer: Err(error) }),
            Some(Ok(cluster)) => Some(
                Prepared {
                    after: ManagerState {
                        open_files: open_list::with_cluster(
                            before.open_files,
                            file.search_id,
                            cluster,
                        ),
                        ..after
                    },
                    file: rewound(started_at(file, cluster)),
                    answer: Ok(()),
                },
            ),
        }
    } else {
        Some(Prepared { after: before, file: rewound(file), answer: Ok(()) })
    }
}

/// What came of writing to a file.
pub struct Written<E> {
    /// What the volume manager keeps track of from then on.
    pub after: ManagerState<E>,
    /// The file from then on.
    pub file: File,
    /// How many bytes were written, or why the write failed.
    pub answer: Result<nat, Error<E>>,
}

/// The record `log` continues that of `before` and tells how `buffer` was written to `file`: the
/// file was made ready, and then as many of the bytes were written as fit into a file.
pub open spec fn file_write<E>(
    log: Seq<Exchange<E>>,
    before: ManagerState<E>,
    layout: FatLayout,
    file: File,
    buffer: Seq<u8>,
) -> Option<Written<E>> {
    match prepared(log, before, file) {
        None => None,
        Some(ready) => match ready.answer {
            Err(error) => Some(
                Written { after: ready.after, file: ready.file, answer: Err(error) },
            ),
            Ok(()) => match write_on(
                log,
                ready.after.log.len() as int,
                layout,
                buffer,
                fitting(buffer.len(), ready.file.current_offset),
                ready.file,
                0,
            ) {
                None => None,
                Some(outcome) => Some(
                    Written {
                        after: ready.after.with_log(log.take(outcome.next)),
                        file: outcome.file,
                        answer: outcome.answer,
                    },
                ),
            },
        },
    }
}

/// What a record tells of a search for a spot does not change when the record grows.
pub proof fn lemma_spot_stable<E>(
    earlier: Seq<Exchange<E>>,
    later: Seq<Exchange<E>>,
    at: int,
    cluster_bytes: int,
    start: (u32, Cluster),
    offset: u32,
)
    requires
        record::extends(later, earlier),
        spot_found(earlier, at, cluster_bytes, start, offset) is Some,
    ensures
        spot_found(later, at, cluster_bytes, start, offset) == spot_found(
            earlier,
            at,
            cluster_bytes,
            start,
            offset,
        ),
{
    locate::lemma_located_stable(earlier, later, at, cluster_bytes, start, offset);
    let found = locate::located(earlier, at, cluster_bytes, start, offset)->0;
    if found.answer == Err::<BlockIdx, Error<E>>(Error::EndOfFile) {
        if let Some(Ok(_)) = record::answered_alloc(earlier, found.next, Some(found.start.1)) {
            locate::lemma_located_stable(
                earlier,
                later,
                found.next + 1,
                cluster_bytes,
                found.start,
                offset,
            );
        }
    }
}

/// What a record tells of the writing of a block does not change when the record grows.
pub proof fn lemma_chunk_stable<E>(
    earlier: Seq<Exchange<E>>,
    later: Seq<Exchange<E>>,
    at: int,
    layout: FatLayout,
    bytes: Seq<u8>,
    file: File,
)
    requires
        record::extends(later, earlier),
        chunk_written(earlier, at, layout, bytes, file) is Some,
    ensures
        chunk_written(later, at, layout, bytes, file) == chunk_written(
            earlier,
            at,
            layout,
            bytes,
            file,
        ),
{
    lemma_spot_stable(
        earlier,
        later,
        at,
        layout.cluster_size.bytes(),
        file.current_cluster,
        file.current_offset,
    );
}

/// What a record tells of a write does not change when the record grows.
pub proof fn lemma_write_stable<E>(
    earlier: Seq<Exchange<E>>,
    later: Seq<Exchange<E>>,
    at: int,
    layout: FatLayout,
    buffer: Seq<u8>,
    total: nat,
    file: File,
    written: nat,
)
    requires
        record::extends(later, earlier),
        write_on(earlier, at, layout, buffer, total, file, written) is Some,
    ensures
        write_on(later, at, layout, buffer, total, file, written) == write_on(
            earlier,
            at,
            layout,
            buffer,
            total,
            file,
            written,
        ),
    decreases total - written,
{
    if written < total {
        let count = chunk_len(file.current_offset, total - written);
        let bytes = buffer.subrange(written as int, written + count);
        lemma_chunk_stable(earlier, later, at, layout, bytes, file);
        let chunk = chunk_written(earlier, at, layout, bytes, file)->0;
        if chunk.end is Stored {
            lemma_write_stable(
                earlier,
                later,
                chunk.next,
                layout,
                buffer,
                total,
                chunk.file,
                (written + count) as nat,
            );
        }
    }
}

} // verus!
