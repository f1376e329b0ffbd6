//! Which calls reading and writing make, and what they give for each answer.
use crate::blockdevice::BlockIdx;
use crate::error::Error;
use crate::exchange::Exchange;
use crate::filesystem::{Cluster, DirEntry, File, Mode, SearchId};
use crate::handle_laws;
use crate::locate;
use crate::locate::Located;
use crate::open_list;
use crate::open_list::ClusterDescriptor;
use crate::opening_laws;
use crate::reading;
use crate::reading::Reading;
use crate::state::ManagerState;
use crate::storage;
use crate::volume::{BlockCache, FatLayout};
use crate::writing;
use crate::writing::{ChunkEnd, Spot};
use vstd::prelude::*;

verus! {

/// The cluster that a step of a search asks about.
pub open spec fn asked_about<E>(exchange: Exchange<E>) -> Option<Cluster> {
    match exchange {
        Exchange::NextCluster { cluster, .. } => Some(cluster),
        Exchange::ClusterToBlock { cluster, .. } => Some(cluster),
        _ => None,
    }
}

/// The step of a search at `i` goes on with the cluster that the step before gave, and with the
/// block that it looked at last.
pub open spec fn goes_on<E>(log: Seq<Exchange<E>>, i: int) -> bool {
    &&& log[i - 1] matches Exchange::NextCluster { answer: (left, Ok(cluster)), .. }
    &&& asked_about(log[i]) == Some(cluster)
    &&& log[i] matches Exchange::NextCluster { block_cache, .. } ==> block_cache == left
}

/// A search for position `offset` follows the chain from the cluster it begins with, one cluster
/// at a time, until it is at the cluster that holds the position, and asks for the first block of
/// that. It gives the block that the position is in whenever every cluster on the way was given
/// and the number of the block fits; if not, it gives the reason.
pub open spec fn searched<E>(
    log: Seq<Exchange<E>>,
    at: int,
    cluster_bytes: int,
    start: (u32, Cluster),
    offset: u32,
    found: Located<E>,
) -> bool {
    let steps = found.next - at - 1;
    let into = offset - found.start.0;
    &&& 0 <= at < found.next <= log.len()
    &&& asked_about(log[at]) == Some(start.1)
    &&& forall|i: int| at < i < found.next ==> #[trigger] goes_on(log, i)
    &&& asked_about(log[found.next - 1]) == Some(found.start.1)
    &&& found.start.0 == start.0 + steps * cluster_bytes
    &&& match log[found.next - 1] {
        Exchange::ClusterToBlock { answer: first, .. } => {
            &&& 0 <= into < cluster_bytes
            &&& if first.0 + into / 512 <= 0xFFFF_FFFF {
                &&& found.answer matches Ok(block_idx)
                &&& block_idx.0 == first.0 + into / 512
            } else {
                found.answer == Err::<BlockIdx, Error<E>>(Error::ConversionError)
            }
        },
        Exchange::NextCluster { answer: (_, Err(error)), .. } => {
            &&& into >= cluster_bytes
            &&& found.answer == Err::<BlockIdx, Error<E>>(error)
        },
        _ => false,
    }
}

/// What a search asks, in which order, and what it gives.
pub proof fn law_search_gives_the_block<E>(
    log: Seq<Exchange<E>>,
    at: int,
    cluster_bytes: int,
    start: (u32, Cluster),
    offset: u32,
)
    requires
        0 <= at,
        0 < cluster_bytes,
        start.0 <= offset,
        locate::located(log, at, cluster_bytes, start, offset) is Some,
    ensures
        searched(
            log,
            at,
            cluster_bytes,
            start,
            offset,
            locate::located(log, at, cluster_bytes, start, offset)->0,
        ),
        log[at] matches Exchange::NextCluster { block_cache, .. } ==> block_cache.idx is None
            && block_cache.block@ == Seq::new(512, |i: int| 0u8),
{
    lemma_searched(log, at, cluster_bytes, start, offset, None);
}

/// As `law_search_gives_the_block`, for a search that goes on.
proof fn lemma_searched<E>(
    log: Seq<Exchange<E>>,
    at: int,
    cluster_bytes: int,
    start: (u32, Cluster),
    offset: u32,
    block_cache: Option<BlockCache>,
)
    requires
        0 <= at,
        0 < cluster_bytes,
        start.0 <= offset,
        locate::located_with(log, at, cluster_bytes, start, offset, block_cache) is Some,
    ensures
        searched(
            log,
            at,
            cluster_bytes,
            start,
            offset,
            locate::located_with(log, at, cluster_bytes, start, offset, block_cache)->0,
        ),
        log[at] matches Exchange::NextCluster { block_cache: given, .. } ==> match block_cache {
            Some(cache) => given == cache,
            None => given.idx is None && given.block@ == Seq::new(512, |i: int| 0u8),
        },
    decreases offset - start.0,
{
    let found = locate::located_with(log, at, cluster_bytes, start, offset, block_cache)->0;
    if offset - start.0 >= cluster_bytes {
        if let Exchange::NextCluster { answer: (left, Ok(cluster)), .. } = log[at] {
            let further = ((start.0 + cluster_bytes) as u32, cluster);
            lemma_searched(log, at + 1, cluster_bytes, further, offset, Some(left));
            assert(goes_on(log, at + 1));
            let steps = found.next - at - 1;
            assert(steps * cluster_bytes == (steps - 1) * cluster_bytes + cluster_bytes)
                by (nonlinear_arith);
            assert forall|i: int| at < i < found.next implies #[trigger] goes_on(log, i) by {
                if i > at + 1 {
                    assert(goes_on(log, i));
                }
            }
        } else {
            assert(0 * cluster_bytes == 0);
        }
    } else {
        assert(0 * cluster_bytes == 0);
    }
}

/// How many of the exchanges from `from` to `to` are blocks that were read.
pub open spec fn blocks_read<E>(log: Seq<Exchange<E>>, from: int, to: int) -> int
    decreases to - from,
{
    if to <= from {
        0
    } else {
        blocks_read(log, from, to - 1) + if log[to - 1] matches Exchange::ReadBlock {
            answer: Ok(_),
            ..
        } {
            1int
        } else {
            0
        }
    }
}

/// How often the clock was asked in the exchanges from `from` to `to`, which is once for each block
/// that was written.
pub open spec fn times_asked<E>(log: Seq<Exchange<E>>, from: int, to: int) -> int
    decreases to - from,
{
    if to <= from {
        0
    } else {
        times_asked(log, from, to - 1) + if log[to - 1] is GetTimestamp {
            1int
        } else {
            0
        }
    }
}

/// How far a transfer of `bytes` bytes from position `position` on has come after `blocks` blocks:
/// to the end of the last of them, or to the end of the bytes.
pub open spec fn reached_after(position: int, bytes: int, blocks: int) -> int {
    if blocks == 0 {
        position
    } else if (position / 512 + blocks) * 512 <= position + bytes {
        (position / 512 + blocks) * 512
    } else {
        position + bytes
    }
}

/// Counting from `from` to `to` is counting to `middle` and from there on.
proof fn lemma_count_split<E>(log: Seq<Exchange<E>>, from: int, middle: int, to: int)
    requires
        from <= middle <= to,
    ensures
        blocks_read(log, from, to) == blocks_read(log, from, middle) + blocks_read(
            log,
            middle,
            to,
        ),
        times_asked(log, from, to) == times_asked(log, from, middle) + times_asked(
            log,
            middle,
            to,
        ),
    decreases to - middle,
{
    if middle < to {
        lemma_count_split(log, from, middle, to - 1);
    }
}

/// Where the clock is not asked, it is asked no time.
proof fn lemma_no_times<E>(log: Seq<Exchange<E>>, from: int, to: int)
    requires
        forall|i: int| from <= i < to ==> !(#[trigger] log[i] is GetTimestamp),
    ensures
        times_asked(log, from, to) == 0,
    decreases to - from,
{
    if from < to {
        assert(!(log[to - 1] is GetTimestamp));
        lemma_no_times(log, from, to - 1);
    }
}

/// Where no block is read, none is counted; counts are not negative.
proof fn lemma_no_blocks<E>(log: Seq<Exchange<E>>, from: int, to: int)
    ensures
        0 <= blocks_read(log, from, to),
        0 <= times_asked(log, from, to),
        (forall|i: int| from <= i < to ==> !(#[trigger] log[i] is ReadBlock)) ==> blocks_read(
            log,
            from,
            to,
        ) == 0,
    decreases to - from,
{
    if from < to {
        lemma_no_blocks(log, from, to - 1);
        if forall|i: int| from <= i < to ==> !(#[trigger] log[i] is ReadBlock) {
            assert(!(log[to - 1] is ReadBlock));
        }
    }
}

/// The exchange is a call that succeeded, and no block number that comes of it is too large.
pub open spec fn succeeded<E>(exchange: Exchange<E>, cluster_bytes: int) -> bool {
    match exchange {
        Exchange::ReadBlock { answer, .. } => answer is Ok,
        Exchange::WriteBlock { answer, .. } => answer is Ok,
        Exchange::NextCluster { answer, .. } => answer.1 is Ok,
        Exchange::ClusterToBlock { answer, .. } => answer.0 + (cluster_bytes - 1) / 512
            <= 0xFFFF_FFFF,
        Exchange::AllocCluster { answer, .. } => answer is Ok,
        Exchange::UpdateInfoSector { answer } => answer is Ok,
        _ => true,
    }
}

/// `error` is why a read failed whose last call was `last`.
pub open spec fn read_failed_with<E>(
    last: Exchange<E>,
    cluster_bytes: int,
    error: Error<E>,
) -> bool {
    match last {
        Exchange::ReadBlock { answer: Err(reported), .. } => error == Error::<E>::DeviceError(
            reported,
        ),
        Exchange::NextCluster { answer: (_, Err(reported)), .. } => error == reported,
        Exchange::ClusterToBlock { answer: first, .. } => error is ConversionError && first.0 + (
        cluster_bytes - 1) / 512 > 0xFFFF_FFFF,
        _ => false,
    }
}

/// A read whose calls all succeed gives all the bytes that are wanted or left. It fails only where
/// one of its calls does: that is the last, and its error is what is given; what was read up to then
/// is kept. It makes no other calls than to follow the chain and to read blocks.
pub proof fn law_read_fails_only_with_its_calls<E>(
    log: Seq<Exchange<E>>,
    at: int,
    cluster_bytes: int,
    file: File,
    wanted: nat,
)
    requires
        0 <= at <= log.len(),
        0 < cluster_bytes,
        file.current_cluster.0 <= file.current_offset <= file.length,
        storage::whole_blocks(log, at, log.len() as int),
        reading::read_on(
            log,
            at,
            cluster_bytes,
            file.length,
            wanted,
            reading::start_of_read(file),
        ) is Some,
    ensures
        ({
            let outcome = reading::read_on(
                log,
                at,
                cluster_bytes,
                file.length,
                wanted,
                reading::start_of_read(file),
            )->0;
            let left = file.length - file.current_offset;
            let count = outcome.end.data.len();
            &&& at <= outcome.next <= log.len()
            &&& outcome.end.offset == file.current_offset + count
            &&& outcome.end.offset == reached_after(
                file.current_offset as int,
                if wanted <= left {
                    wanted as int
                } else {
                    left
                },
                blocks_read(log, at, outcome.next),
            )
            &&& (forall|i: int|
                at <= i < outcome.next ==> succeeded(#[trigger] log[i], cluster_bytes))
                ==> outcome.error is None
            &&& match outcome.error {
                None => {
                    &&& count == if wanted <= left {
                        wanted as int
                    } else {
                        left
                    }
                    &&& forall|i: int|
                        at <= i < outcome.next ==> read_call(#[trigger] log[i])
                },
                Some(error) => {
                    &&& at < outcome.next
                    &&& count < wanted && count < left
                    &&& read_failed_with(log[outcome.next - 1], cluster_bytes, error)
                    &&& forall|i: int|
                        at <= i < outcome.next - 1 ==> read_call(#[trigger] log[i])
                },
            }
        }),
{
    let start = reading::start_of_read(file);
    storage::lemma_read_writes_nothing(log, at, cluster_bytes, file.length, wanted, start);
    storage::lemma_read_extent(log, at, cluster_bytes, file.length, wanted, start);
    lemma_read_calls(log, at, cluster_bytes, file.length, wanted, start);
}

/// The exchange is a call that a read makes, and the answer is no failure.
pub open spec fn read_call<E>(exchange: Exchange<E>) -> bool {
    match exchange {
        Exchange::ReadBlock { reason, answer, .. } => reason == "read"@ && answer is Ok,
        Exchange::NextCluster { answer, .. } => answer.1 is Ok,
        Exchange::ClusterToBlock { .. } => true,
        _ => false,
    }
}

/// Where a block number is too large, it is so for the last block of the cluster.
proof fn lemma_too_large(first: u32, into: int, cluster_bytes: int)
    requires
        0 <= into < cluster_bytes,
        first + into / 512 > 0xFFFF_FFFF,
    ensures
        first + (cluster_bytes - 1) / 512 > 0xFFFF_FFFF,
{
}

/// As `law_read_fails_only_with_its_calls`, for a read that goes on.
proof fn lemma_read_calls<E>(
    log: Seq<Exchange<E>>,
    at: int,
    cluster_bytes: int,
    length: u32,
    wanted: nat,
    reading: Reading,
)
    requires
        0 <= at <= log.len(),
        0 < cluster_bytes,
        reading.current_cluster.0 <= reading.offset <= length,
        reading.data.len() <= wanted,
        storage::whole_blocks(log, at, log.len() as int),
        reading::read_on(log, at, cluster_bytes, length, wanted, reading) is Some,
    ensures
        ({
            let outcome = reading::read_on(log, at, cluster_bytes, length, wanted, reading)->0;
            let bytes = if wanted - reading.data.len() <= length - reading.offset {
                wanted - reading.data.len()
            } else {
                length - reading.offset
            };
            &&& outcome.end.offset == reached_after(
                reading.offset as int,
                bytes,
                blocks_read(log, at, outcome.next),
            )
            &&& match outcome.error {
                None => forall|i: int| at <= i < outcome.next ==> read_call(#[trigger] log[i]),
                Some(error) => {
                    &&& at < outcome.next
                    &&& outcome.end.data.len() < wanted && outcome.end.offset < length
                    &&& read_failed_with(log[outcome.next - 1], cluster_bytes, error)
                    &&& !succeeded(log[outcome.next - 1], cluster_bytes)
                    &&& forall|i: int|
                        at <= i < outcome.next - 1 ==> read_call(#[trigger] log[i])
                },
            }
        }),
    decreases length - reading.offset,
{
    let outcome = reading::read_on(log, at, cluster_bytes, length, wanted, reading)->0;
    if reading.data.len() < wanted && reading.offset < length {
        let start = reading.current_cluster;
        law_search_gives_the_block(log, at, cluster_bytes, start, reading.offset);
        let found = locate::located(log, at, cluster_bytes, start, reading.offset)->0;
        assert forall|i: int| at <= i < found.next - 1 implies read_call(#[trigger] log[i])
            && !(log[i] is ReadBlock) by {
            assert(goes_on(log, i + 1));
        }
        lemma_no_blocks(log, at, found.next);
        let reached = Reading { current_cluster: found.start, ..reading };
        if found.answer is Ok {
            if let Exchange::ReadBlock { answer: Ok(block), .. } = log[found.next] {
                let further = reading::with_chunk(reached, block, length, wanted);
                storage::lemma_located_writes_nothing(
                    log,
                    at,
                    cluster_bytes,
                    start,
                    reading.offset,
                );
                assert(further.data.len() == reading.data.len() + reading::chunk_len(
                    reached,
                    length,
                    wanted,
                ));
                lemma_read_calls(log, found.next + 1, cluster_bytes, length, wanted, further);
                storage::lemma_read_writes_nothing(
                    log,
                    found.next + 1,
                    cluster_bytes,
                    length,
                    wanted,
                    further,
                );
                lemma_count_split(log, at, found.next, found.next + 1);
                lemma_count_split(log, at, found.next + 1, outcome.next);
                assert(blocks_read(log, found.next, found.next + 1) == 1) by {
                    assert(blocks_read(log, found.next, found.next) == 0);
                }
                lemma_no_blocks(log, found.next + 1, outcome.next);
            }
        } else if let Exchange::ClusterToBlock { answer: first, .. } = log[found.next - 1] {
            lemma_too_large(first.0, reading.offset - found.start.0, cluster_bytes);
        }
    }
}

/// The exchange at `i` of a write is no failure, or the end of a chain that is extended next: a
/// cluster is allocated behind the one that was asked about.
pub open spec fn write_call<E>(log: Seq<Exchange<E>>, i: int) -> bool {
    match log[i] {
        Exchange::ReadBlock { reason, answer, .. } => reason == "read"@ && answer is Ok,
        Exchange::WriteBlock { answer, .. } => answer is Ok,
        Exchange::GetTimestamp { .. } => true,
        Exchange::Serialize { .. } => true,
        Exchange::ClusterToBlock { .. } => true,
        Exchange::UpdateInfoSector { answer } => answer is Ok,
        Exchange::AllocCluster { zero, answer, .. } => !zero && answer is Ok,
        Exchange::NextCluster { cluster, answer: (_, next), .. } => match next {
            Ok(_) => true,
            Err(error) => {
                &&& error is EndOfFile
                &&& i + 1 < log.len()
                &&& log[i + 1] matches Exchange::AllocCluster { prev_cluster, .. }
                &&& prev_cluster == Some(cluster)
            },
        },
        _ => false,
    }
}

/// The last search before `end` was made after the chain was extended, at `from` or later.
pub open spec fn just_extended<E>(log: Seq<Exchange<E>>, from: int, end: int) -> bool {
    exists|j: int|
        {
            &&& from <= j < end - 1
            &&& #[trigger] log[j] matches Exchange::AllocCluster {
                prev_cluster: Some(_),
                answer: Ok(_),
                ..
            }
            &&& forall|i: int| j < i < end - 1 ==> #[trigger] log[i] is NextCluster
        }
}

/// No cluster could be allocated behind the last one of the chain: the last two exchanges before
/// `end` say so.
pub open spec fn no_space<E>(log: Seq<Exchange<E>>, end: int) -> bool {
    &&& 2 <= end <= log.len()
    &&& log[end - 2] matches Exchange::NextCluster { cluster, answer: (_, Err(error)), .. }
    &&& error is EndOfFile
    &&& log[end - 1] matches Exchange::AllocCluster { prev_cluster, zero, answer }
    &&& prev_cluster == Some(cluster)
    &&& !zero
    &&& answer is Err
}

/// `error` is why a write failed whose exchanges are those from `from` to `end`, and which left
/// the file at size `length`.
pub open spec fn write_failed_with<E>(
    log: Seq<Exchange<E>>,
    from: int,
    end: int,
    cluster_bytes: int,
    length: u32,
    error: Error<E>,
) -> bool {
    &&& from < end <= log.len()
    &&& match log[end - 1] {
        Exchange::ReadBlock { answer: Err(reported), .. } => error == Error::<E>::DeviceError(
            reported,
        ),
        Exchange::WriteBlock { answer: Err(reported), .. } => error == Error::<E>::DeviceError(
            reported,
        ),
        // No file can be so large
        Exchange::WriteBlock { answer: Ok(()), .. } => error is ConversionError && length + 512
            > 0xFFFF_FFFF,
        Exchange::UpdateInfoSector { answer: Err(reported) } => error == reported,
        Exchange::AllocCluster { prev_cluster: None, zero, answer: Err(reported) } => end == from
            + 1 && !zero && error == reported,
        Exchange::NextCluster { answer: (_, Err(reported)), .. } => if just_extended(
            log,
            from,
            end,
        ) {
            error is AllocationError
        } else {
            error == reported && !(reported is EndOfFile)
        },
        Exchange::ClusterToBlock { answer: first, .. } => {
            &&& first.0 + (cluster_bytes - 1) / 512 > 0xFFFF_FFFF
            &&& if just_extended(log, from, end) {
                error is AllocationError
            } else {
                error is ConversionError
            }
        },
        _ => false,
    }
}

/// What came before the search at `at` was no search and did not extend the chain.
spec fn starts_afresh<E>(log: Seq<Exchange<E>>, from: int, at: int) -> bool {
    at == from || !(log[at - 1] is NextCluster) && !(log[at - 1] matches Exchange::AllocCluster {
        prev_cluster: Some(_),
        ..
    })
}

/// The chain was not extended before a search that starts afresh.
proof fn lemma_not_extended<E>(log: Seq<Exchange<E>>, from: int, at: int, end: int)
    requires
        from <= at < end <= log.len(),
        starts_afresh(log, from, at),
        forall|i: int| at <= i < end - 1 ==> #[trigger] log[i] is NextCluster,
    ensures
        !just_extended(log, from, end),
{
    if just_extended(log, from, end) {
        let j = choose|j: int|
            {
                &&& from <= j < end - 1
                &&& #[trigger] log[j] matches Exchange::AllocCluster {
                    prev_cluster: Some(_),
                    answer: Ok(_),
                    ..
                }
                &&& forall|i: int| j < i < end - 1 ==> #[trigger] log[i] is NextCluster
            };
        if j < at - 1 {
            assert(log[at - 1] is NextCluster);
        }
    }
}

/// What looking for a spot to write at asks, and what it gives.
proof fn lemma_spot_calls<E>(
    log: Seq<Exchange<E>>,
    from: int,
    at: int,
    cluster_bytes: int,
    start: (u32, Cluster),
    offset: u32,
)
    requires
        0 <= from <= at,
        0 < cluster_bytes,
        start.0 <= offset,
        starts_afresh(log, from, at),
        writing::spot_found(log, at, cluster_bytes, start, offset) is Some,
    ensures
        ({
            let found = writing::spot_found(log, at, cluster_bytes, start, offset)->0;
            &&& at < found.next <= log.len()
            &&& forall|i: int| at <= i < found.next - 1 ==> #[trigger] write_call(log, i)
            &&& forall|i: int| at <= i < found.next ==> !(#[trigger] log[i] is GetTimestamp)
            &&& match found.spot {
                Spot::Block(_) => log[found.next - 1] is ClusterToBlock && write_call(
                    log,
                    found.next - 1,
                ),
                Spot::NoSpace => no_space(log, found.next),
                Spot::Unknown(error) => {
                    &&& !(log[found.next - 1] is WriteBlock)
                    &&& forall|length: u32|
                        write_failed_with(
                            log,
                            from,
                            found.next,
                            cluster_bytes,
                            length,
                            error,
                        )
                },
            }
        }),
{
    law_search_gives_the_block(log, at, cluster_bytes, start, offset);
    let first = locate::located(log, at, cluster_bytes, start, offset)->0;
    assert forall|i: int| at <= i < first.next - 1 implies #[trigger] log[i] is NextCluster
        && write_call(log, i) by {
        assert(goes_on(log, i + 1));
    }
    if let Exchange::ClusterToBlock { answer: block, .. } = log[first.next - 1] {
        if first.answer is Err {
            lemma_too_large(block.0, offset - first.start.0, cluster_bytes);
        }
    }
    lemma_not_extended(log, from, at, first.next);
    if first.answer == Err::<BlockIdx, Error<E>>(Error::EndOfFile) {
        assert(write_call(log, first.next - 1));
        if let Exchange::AllocCluster { answer: Ok(_), .. } = log[first.next] {
            let again_at = first.next + 1;
            law_search_gives_the_block(log, again_at, cluster_bytes, first.start, offset);
            let again = locate::located(log, again_at, cluster_bytes, first.start, offset)->0;
            assert forall|i: int| again_at <= i < again.next - 1 implies #[trigger]
                log[i] is NextCluster && write_call(log, i) by {
                assert(goes_on(log, i + 1));
            }
            if let Exchange::ClusterToBlock { answer: block, .. } = log[again.next - 1] {
                if again.answer is Err {
                    lemma_too_large(block.0, offset - again.start.0, cluster_bytes);
                }
            }
            assert(write_call(log, first.next));
            assert(just_extended(log, from, again.next)) by {
                assert(log[first.next] matches Exchange::AllocCluster {
                    prev_cluster: Some(_),
                    answer: Ok(_),
                    ..
                });
            }
            let found = writing::spot_found(log, at, cluster_bytes, start, offset)->0;
            assert forall|i: int| at <= i < found.next - 1 implies #[trigger] write_call(log, i) by {
                if i < first.next - 1 {
                    assert(log[i] is NextCluster);
                } else if i > first.next {
                    assert(log[i] is NextCluster);
                }
            }
            assert forall|i: int| at <= i < found.next implies !(
            #[trigger] log[i] is GetTimestamp) by {
                if i < found.next - 1 && i != first.next - 1 && i != first.next {
                    assert(log[i] is NextCluster);
                }
            }
        }
    }
}

/// `after` is `before` with the archive bit, and every other bit as it was.
pub open spec fn archive_bit_set(before: u8, after: u8) -> bool {
    after == if (before / 32) % 2 == 1 {
        before as int
    } else {
        before + 32
    }
}

/// `after` is `before` some bytes further on, and longer by as many. Its entry says so, and that it
/// is to be archived. All else is the same.
pub open spec fn carried_on(before: File, after: File) -> bool {
    let count = after.current_offset - before.current_offset;
    &&& 0 <= count
    &&& after.length == before.length + count
    &&& after.starting_cluster == before.starting_cluster
    &&& after.mode == before.mode
    &&& after.search_id == before.search_id
    &&& after.entry.name == before.entry.name
    &&& after.entry.ctime == before.entry.ctime
    &&& after.entry.cluster == before.entry.cluster
    &&& after.entry.entry_block == before.entry.entry_block
    &&& after.entry.entry_offset == before.entry.entry_offset
    &&& if count == 0 {
        after.entry == before.entry
    } else {
        &&& after.entry.size == after.length
        &&& archive_bit_set(before.entry.attributes.0, after.entry.attributes.0)
    }
}

/// The five exchanges from `k` on note what `file` is after a write: the clock gives the time that
/// its entry has, the count of free clusters is written down, and the entry is stored.
pub open spec fn noted<E>(log: Seq<Exchange<E>>, k: int, layout: FatLayout, file: File) -> bool {
    &&& 0 <= k
    &&& k + 5 <= log.len()
    &&& log[k] matches Exchange::GetTimestamp { answer: time }
    &&& file.entry.mtime == time
    &&& log[k + 1] matches Exchange::UpdateInfoSector { answer: Ok(()) }
    &&& opening_laws::entry_put(
        log,
        k + 2,
        k + 5,
        file.entry,
        layout.fat_type,
        Ok::<(), Error<E>>(()),
    )
}

/// The time that the entry of `file` has is what the clock gave at `k`, and it was not asked again
/// before `end`.
pub open spec fn timed_at<E>(log: Seq<Exchange<E>>, k: int, end: int, file: File) -> bool {
    &&& log[k] matches Exchange::GetTimestamp { answer: time }
    &&& file.entry.mtime == time
    &&& forall|i: int| k < i < end ==> !(#[trigger] log[i] is GetTimestamp)
}

/// Which calls the writing of a block makes, and what it gives.
proof fn lemma_chunk_calls<E>(
    log: Seq<Exchange<E>>,
    from: int,
    at: int,
    layout: FatLayout,
    bytes: Seq<u8>,
    file: File,
)
    requires
        0 <= from <= at,
        layout.cluster_size.blocks() > 0,
        file.current_cluster.0 <= file.current_offset,
        1 <= bytes.len() <= 512,
        file.current_offset + bytes.len() <= u32::MAX,
        starts_afresh(log, from, at),
        writing::chunk_written(log, at, layout, bytes, file) is Some,
    ensures
        ({
            let chunk = writing::chunk_written(log, at, layout, bytes, file)->0;
            &&& at < chunk.next <= log.len()
            &&& carried_on(file, chunk.file)
            &&& times_asked(log, at, chunk.next) == if chunk.file.current_offset
                == file.current_offset {
                0int
            } else {
                1
            }
            &&& chunk.file.current_offset == file.current_offset || chunk.file.current_offset
                == file.current_offset + bytes.len()
            &&& chunk.file.current_offset > file.current_offset ==> exists|k: int|
                at <= k < chunk.next && #[trigger] timed_at(log, k, chunk.next, chunk.file)
            &&& chunk.file.current_offset <= file.current_offset + bytes.len()
            &&& forall|i: int| at <= i < chunk.next - 1 ==> #[trigger] write_call(log, i)
            &&& match chunk.end {
                ChunkEnd::Stored => {
                    &&& write_call(log, chunk.next - 1)
                    &&& log[chunk.next - 1] is WriteBlock
                    &&& at <= chunk.next - 5
                    &&& noted(log, chunk.next - 5, layout, chunk.file)
                    &&& chunk.file.current_offset == file.current_offset + bytes.len()
                },
                ChunkEnd::NoSpace => no_space(log, chunk.next) && chunk.file == file,
                ChunkEnd::Failed(error) => write_failed_with(
                    log,
                    from,
                    chunk.next,
                    layout.cluster_size.bytes(),
                    chunk.file.length,
                    error,
                ),
            }
        }),
{
    let cluster_bytes = layout.cluster_size.bytes();
    let chunk = writing::chunk_written(log, at, layout, bytes, file)->0;
    lemma_spot_calls(
        log,
        from,
        at,
        cluster_bytes,
        file.current_cluster,
        file.current_offset,
    );
    opening_laws::law_attribute_bits(file.entry.attributes);
    let found = writing::spot_found(
        log,
        at,
        cluster_bytes,
        file.current_cluster,
        file.current_offset,
    )->0;
    lemma_no_times(log, at, found.next);
    if let Spot::Block(block_idx) = found.spot {
        let stored = writing::block_stored(
            log,
            found.next,
            block_idx,
            file.current_offset as int % 512,
            bytes,
        )->0;
        assert forall|i: int| at <= i < stored.next - 1 implies #[trigger] write_call(log, i) by {}
        lemma_no_times(log, at, stored.next);
        if stored.answer is Ok {
            assert(write_call(log, stored.next - 1));
            if file.length + bytes.len() <= u32::MAX {
                let further = chunk.file;
                lemma_count_split(log, at, stored.next, stored.next + 1);
                lemma_count_split(log, at, stored.next + 1, chunk.next);
                assert(times_asked(log, stored.next, stored.next) == 0);
                assert(times_asked(log, stored.next, stored.next + 1) == 1);
                assert forall|i: int| stored.next + 1 <= i < chunk.next implies !(
                #[trigger] log[i] is GetTimestamp) by {}
                lemma_no_times(log, stored.next + 1, chunk.next);
                assert(timed_at(log, stored.next, chunk.next, chunk.file));
                assert(write_call(log, stored.next));
                if let Exchange::UpdateInfoSector { answer: Ok(()) } = log[stored.next + 1] {
                    assert(write_call(log, stored.next + 1));
                    opening_laws::law_storing_an_entry_replaces_it_alone(
                        log,
                        stored.next + 2,
                        layout.fat_type,
                        further.entry,
                    );
                    assert forall|i: int| at <= i < chunk.next - 1 implies #[trigger] write_call(
                        log,
                        i,
                    ) by {}
                }
            }
        }
    }
}

/// Which calls a write makes, and what it gives.
proof fn lemma_write_calls<E>(
    log: Seq<Exchange<E>>,
    from: int,
    at: int,
    layout: FatLayout,
    buffer: Seq<u8>,
    total: nat,
    file: File,
    written: nat,
)
    requires
        0 <= from <= at <= log.len(),
        layout.cluster_size.blocks() > 0,
        written <= total <= buffer.len(),
        file.current_cluster.0 <= file.current_offset,
        file.current_offset + (total - written) <= u32::MAX,
        starts_afresh(log, from, at),
        writing::write_on(log, at, layout, buffer, total, file, written) is Some,
    ensures
        ({
            let outcome = writing::write_on(log, at, layout, buffer, total, file, written)->0;
            let moved = outcome.file.current_offset - file.current_offset;
            &&& at <= outcome.next <= log.len()
            &&& carried_on(file, outcome.file)
            &&& moved <= total - written
            &&& outcome.file.current_offset == reached_after(
                file.current_offset as int,
                total - written,
                times_asked(log, at, outcome.next),
            )
            &&& moved > 0 ==> exists|k: int|
                at <= k < outcome.next && #[trigger] timed_at(log, k, outcome.next, outcome.file)
            &&& forall|i: int| at <= i < outcome.next - 1 ==> #[trigger] write_call(log, i)
            &&& match outcome.answer {
                Ok(count) => {
                    &&& count == written + moved
                    &&& count < total ==> no_space(log, outcome.next)
                    &&& count == total && at < outcome.next ==> write_call(log, outcome.next - 1)
                    &&& moved > 0 ==> exists|k: int|
                        at <= k <= outcome.next - 5 && #[trigger] noted(
                            log,
                            k,
                            layout,
                            outcome.file,
                        ) && storage::writes_nothing(log, k + 5, outcome.next)
                },
                Err(error) => write_failed_with(
                    log,
                    from,
                    outcome.next,
                    layout.cluster_size.bytes(),
                    outcome.file.length,
                    error,
                ),
            }
        }),
    decreases total - written,
{
    if written < total {
        let len = writing::chunk_len(file.current_offset, total - written);
        let bytes = buffer.subrange(written as int, written + len);
        lemma_chunk_calls(log, from, at, layout, bytes, file);
        storage::lemma_chunk_extent(log, at, layout, bytes, file);
        let chunk = writing::chunk_written(log, at, layout, bytes, file)->0;
        match chunk.end {
            ChunkEnd::Stored => {
                let done = (written + len) as nat;
                lemma_write_calls(
                    log,
                    from,
                    chunk.next,
                    layout,
                    buffer,
                    total,
                    chunk.file,
                    done,
                );
                let outcome = writing::write_on(log, at, layout, buffer, total, file, written)->0;
                lemma_count_split(log, at, chunk.next, outcome.next);
                lemma_no_blocks(log, chunk.next, outcome.next);
                let k = choose|k: int|
                    at <= k < chunk.next && #[trigger] timed_at(log, k, chunk.next, chunk.file);
                if outcome.file.current_offset == chunk.file.current_offset {
                    lemma_times_none(log, chunk.next, outcome.next);
                    assert(timed_at(log, k, outcome.next, outcome.file)) by {
                        lemma_unmoved(log, chunk.next, layout, buffer, total, chunk.file, done);
                    }
                } else {
                    let later = choose|k: int|
                        chunk.next <= k < outcome.next && #[trigger] timed_at(
                            log,
                            k,
                            outcome.next,
                            outcome.file,
                        );
                    assert(at <= later < outcome.next && timed_at(
                        log,
                        later,
                        outcome.next,
                        outcome.file,
                    ));
                }
                assert forall|i: int| at <= i < outcome.next - 1 implies #[trigger] write_call(
                    log,
                    i,
                ) by {
                    if i == chunk.next - 1 {
                        assert(write_call(log, chunk.next - 1));
                    }
                }
                if outcome.answer is Ok && outcome.file.current_offset
                    == chunk.file.current_offset {
                    lemma_nothing_further(log, chunk.next, layout, buffer, total, chunk.file, done);
                    assert(noted(log, chunk.next - 5, layout, outcome.file));
                }
            },
            ChunkEnd::NoSpace => {},
            ChunkEnd::Failed(_) => {},
        }
    }
}

/// Where the clock is asked no time, no exchange is one with the clock.
proof fn lemma_times_none<E>(log: Seq<Exchange<E>>, from: int, to: int)
    requires
        times_asked(log, from, to) == 0,
    ensures
        forall|i: int| from <= i < to ==> !(#[trigger] log[i] is GetTimestamp),
    decreases to - from,
{
    if from < to {
        lemma_no_blocks(log, from, to - 1);
        lemma_times_none(log, from, to - 1);
    }
}

/// A write that gets no further leaves the entry of the file as it is.
proof fn lemma_unmoved<E>(
    log: Seq<Exchange<E>>,
    at: int,
    layout: FatLayout,
    buffer: Seq<u8>,
    total: nat,
    file: File,
    written: nat,
)
    requires
        0 <= at <= log.len(),
        written <= total <= buffer.len(),
        writing::write_on(log, at, layout, buffer, total, file, written) is Some,
        carried_on(
            file,
            writing::write_on(log, at, layout, buffer, total, file, written)->0.file,
        ),
        writing::write_on(
            log,
            at,
            layout,
            buffer,
            total,
            file,
            written,
        )->0.file.current_offset == file.current_offset,
    ensures
        writing::write_on(log, at, layout, buffer, total, file, written)->0.file.entry
            == file.entry,
{
}

/// A write that gets no further writes nothing more.
proof fn lemma_nothing_further<E>(
    log: Seq<Exchange<E>>,
    at: int,
    layout: FatLayout,
    buffer: Seq<u8>,
    total: nat,
    file: File,
    written: nat,
)
    requires
        0 <= at <= log.len(),
        written <= total <= buffer.len(),
        file.current_cluster.0 <= file.current_offset,
        file.current_offset + (total - written) <= u32::MAX,
        writing::write_on(log, at, layout, buffer, total, file, written) is Some,
        ({
            let outcome = writing::write_on(log, at, layout, buffer, total, file, written)->0;
            outcome.answer is Ok && outcome.file.current_offset == file.current_offset
        }),
    ensures
        ({
            let outcome = writing::write_on(log, at, layout, buffer, total, file, written)->0;
            outcome.file == file && storage::writes_nothing(log, at, outcome.next)
        }),
{
    if written < total {
        let len = writing::chunk_len(file.current_offset, total - written);
        let bytes = buffer.subrange(written as int, written + len);
        storage::lemma_chunk_extent(log, at, layout, bytes, file);
        let chunk = writing::chunk_written(log, at, layout, bytes, file)->0;
        if chunk.end is Stored {
            storage::lemma_write_extent(
                log,
                chunk.next,
                layout,
                buffer,
                total,
                chunk.file,
                (written + len) as nat,
            );
        } else {
            storage::lemma_spot_writes_nothing(
                log,
                at,
                layout.cluster_size.bytes(),
                file.current_cluster,
                file.current_offset,
            );
        }
    }
}

/// `file` with `cluster` as its first cluster.
pub open spec fn beginning_with(file: File, cluster: Cluster) -> File {
    File { starting_cluster: cluster, entry: DirEntry { cluster, ..file.entry }, ..file }
}

/// `after` is `before`, but for the first cluster of the first in the list that has that id.
pub open spec fn only_first_cluster_set(
    before: Seq<ClusterDescriptor>,
    after: Seq<ClusterDescriptor>,
    id: SearchId,
    cluster: Cluster,
) -> bool {
    &&& after.len() == before.len()
    &&& forall|i: int|
        0 <= i < before.len() ==> {
            let first = before[i].search_id == id && forall|j: int|
                0 <= j < i ==> (#[trigger] before[j]).search_id != id;
            &&& (#[trigger] after[i]).volume_idx == before[i].volume_idx
            &&& after[i].search_id == before[i].search_id
            &&& after[i].entry == before[i].entry
            &&& after[i].cluster == if first {
                cluster
            } else {
                before[i].cluster
            }
        }
}

/// What a write of `buffer` to `file` gives, of which `begun` is what it is once it has a cluster,
/// with the exchanges from `at` to `end`.
///
/// It gets on by the bytes that it wrote, block by block, and the clock is asked for each. It writes all of them, unless the file is as large as can
/// be or there is no space left on the volume; and it notes in the entry of the file what was
/// written last. It fails only where one of its calls does, or where the file would be too large,
/// and gives the reason.
pub open spec fn written_to<E>(
    log: Seq<Exchange<E>>,
    from: int,
    at: int,
    end: int,
    layout: FatLayout,
    begun: File,
    buffer: Seq<u8>,
    file: File,
    answer: Result<nat, Error<E>>,
) -> bool {
    let count = file.current_offset - begun.current_offset;
    let room = 0xFFFF_FFFF - begun.current_offset;
    &&& at <= end <= log.len()
    &&& carried_on(begun, file)
    &&& file.current_offset == reached_after(
        begun.current_offset as int,
        if buffer.len() <= room {
            buffer.len() as int
        } else {
            room
        },
        times_asked(log, at, end),
    )
    &&& count > 0 ==> exists|k: int| at <= k < end && #[trigger] timed_at(log, k, end, file)
    &&& count <= buffer.len()
    &&& forall|i: int| at <= i < end - 1 ==> #[trigger] write_call(log, i)
    &&& match answer {
        Ok(bytes) => {
            &&& bytes == count
            &&& count == buffer.len() || file.current_offset == 0xFFFF_FFFF || no_space(log, end)
            &&& at < end ==> write_call(log, end - 1) || no_space(log, end)
            &&& count > 0 ==> exists|k: int|
                at <= k <= end - 5 && #[trigger] noted(log, k, layout, file)
                    && storage::writes_nothing(log, k + 5, end)
        },
        Err(error) => write_failed_with(
            log,
            from,
            end,
            layout.cluster_size.blocks() * 512,
            file.length,
            error,
        ),
    }
}

/// What writing to a file gives, for every answer. A file that was opened to be read is not
/// written. A file that has no cluster is given one, which the list of open files then has too.
pub proof fn law_what_a_write_gives<E>(
    log: Seq<Exchange<E>>,
    before: ManagerState<E>,
    layout: FatLayout,
    file: File,
    buffer: Seq<u8>,
)
    requires
        layout.cluster_size.blocks() > 0,
        file.current_cluster.0 <= file.current_offset <= file.length,
        before.log.len() <= log.len(),
        writing::file_write(log, before, layout, file, buffer) is Some,
    ensures
        ({
            let written = writing::file_write(log, before, layout, file, buffer)->0;
            let at = before.log.len() as int;
            let end = written.after.log.len() as int;
            &&& written.after.open_dirs == before.open_dirs
            &&& written.after.next_id == before.next_id
            &&& if file.mode == Mode::ReadOnly {
                &&& written.answer == Err::<nat, Error<E>>(Error::ReadOnly)
                &&& written.file == file
                &&& written.after == before
            } else if file.starting_cluster.0 >= 2 {
                &&& written.after.open_files == before.open_files
                &&& written_to(
                    log,
                    at,
                    at,
                    end,
                    layout,
                    file,
                    buffer,
                    written.file,
                    written.answer,
                )
            } else {
                &&& at < log.len()
                &&& log[at] matches Exchange::AllocCluster { prev_cluster, zero, answer }
                &&& prev_cluster is None
                &&& !zero
                &&& match answer {
                    Err(error) => {
                        &&& written.answer == Err::<nat, Error<E>>(error)
                        &&& written.file == file
                        &&& written.after.open_files == before.open_files
                        &&& end == at + 1
                    },
                    Ok(cluster) => {
                        &&& only_first_cluster_set(
                            before.open_files,
                            written.after.open_files,
                            file.search_id,
                            cluster,
                        )
                        &&& written_to(
                            log,
                            at,
                            at + 1,
                            end,
                            layout,
                            beginning_with(file, cluster),
                            buffer,
                            written.file,
                            written.answer,
                        )
                    },
                }
            }
        }),
{
    let base = before.log.len() as int;
    let written = writing::file_write(log, before, layout, file, buffer)->0;
    let ready = writing::prepared(log, before, file)->0;
    if ready.answer is Ok {
        let at = ready.after.log.len() as int;
        let total = writing::fitting(buffer.len(), ready.file.current_offset);
        lemma_write_calls(log, base, at, layout, buffer, total, ready.file, 0);
        if file.starting_cluster.0 < 2 {
            let cluster = ready.file.starting_cluster;
            lemma_only_first_cluster_set(before.open_files, file.search_id, cluster);
            assert(carried_on(beginning_with(file, cluster), written.file));
        } else {
            assert(carried_on(file, written.file));
        }
    }
}

/// Giving a file its first cluster changes the list in no other way.
proof fn lemma_only_first_cluster_set(
    list: Seq<ClusterDescriptor>,
    id: SearchId,
    cluster: Cluster,
)
    ensures
        only_first_cluster_set(list, open_list::with_cluster(list, id, cluster), id, cluster),
{
    if open_list::has_id(list, id) {
        handle_laws::lemma_id_has_a_position(list, id);
        let position = open_list::position_of(list, id);
        let after = open_list::with_cluster(list, id, cluster);
        assert forall|i: int| 0 <= i < list.len() implies {
            let first = list[i].search_id == id && forall|j: int|
                0 <= j < i ==> (#[trigger] list[j]).search_id != id;
            &&& (#[trigger] after[i]).volume_idx == list[i].volume_idx
            &&& after[i].search_id == list[i].search_id
            &&& after[i].entry == list[i].entry
            &&& after[i].cluster == if first {
                cluster
            } else {
                list[i].cluster
            }
        } by {
            if i > position {
                assert(list[position].search_id == id);
            }
        }
    }
}

} // verus!
