//! Where on the device a position of a file is.
use crate::blockdevice::{BlockIdx, BLOCK_LEN, BLOCK_LEN_U32};
use crate::error::Error;
use crate::exchange::Exchange;
use crate::filesystem::Cluster;
use crate::record;
use crate::volume::BlockCache;
use vstd::prelude::*;

verus! {

/// What came of looking for a position.
pub struct Located<E> {
    /// Where the record of it ends.
    pub next: int,
    /// The last cluster that was reached, and how many bytes of the file come before it.
    pub start: (u32, Cluster),
    /// The block that the position is in, or why none was found.
    pub answer: Result<BlockIdx, Error<E>>,
}

/// The block that lies `bytes` bytes into the cluster that starts with block `first`.
pub open spec fn block_in_cluster<E>(first: BlockIdx, bytes: int) -> Result<BlockIdx, Error<E>> {
    if first.0 + bytes / 512 <= u32::MAX {
        Ok(BlockIdx((first.0 + bytes / 512) as u32))
    } else {
        Err(Error::ConversionError)
    }
}

/// The record from `at` on tells how position `offset` of a file was looked for, given a cluster
/// of the file and how many bytes of the file come before it: the chain was followed up to the
/// cluster that holds the position, and the first block of that cluster was asked for.
pub open spec fn located<E>(
    log: Seq<Exchange<E>>,
    at: int,
    cluster_bytes: int,
    start: (u32, Cluster),
    offset: u32,
) -> Option<Located<E>> {
    located_with(log, at, cluster_bytes, start, offset, None)
}

/// As `located`, where the search goes on with what was looked at last, if anything was.
pub open spec fn located_with<E>(
    log: Seq<Exchange<E>>,
    at: int,
    cluster_bytes: int,
    start: (u32, Cluster),
    offset: u32,
    block_cache: Option<BlockCache>,
) -> Option<Located<E>>
    decreases offset - start.0,
{
    if offset - start.0 < cluster_bytes {
        match record::answered_cluster_to_block(log, at, start.1) {
            Some(first) => Some(
                Located {
                    next: at + 1,
                    start,
                    answer: block_in_cluster(first, offset - start.0),
                },
            ),
            None => None,
        }
    } else if cluster_bytes <= 0 {
        None
    } else {
        match record::answered_next_cluster(log, at, start.1, block_cache) {
            Some((left, Ok(cluster))) => located_with(
                log,
                at + 1,
                cluster_bytes,
                ((start.0 + cluster_bytes) as u32, cluster),
                offset,
                Some(left),
            ),
            Some((_, Err(error))) => Some(Located { next: at + 1, start, answer: Err(error) }),
            None => None,
        }
    }
}

/// What a record tells of a search does not change when the record grows.
pub proof fn lemma_located_stable<E>(
    earlier: Seq<Exchange<E>>,
    later: Seq<Exchange<E>>,
    at: int,
    cluster_bytes: int,
    start: (u32, Cluster),
    offset: u32,
)
    requires
        record::extends(later, earlier),
        located(earlier, at, cluster_bytes, start, offset) is Some,
    ensures
        located(later, at, cluster_bytes, start, offset) == located(
            earlier,
            at,
            cluster_bytes,
            start,
            offset,
        ),
{
    lemma_located_with_stable(earlier, later, at, cluster_bytes, start, offset, None);
}

/// As `lemma_located_stable`, for a search that goes on.
proof fn lemma_located_with_stable<E>(
    earlier: Seq<Exchange<E>>,
    later: Seq<Exchange<E>>,
    at: int,
    cluster_bytes: int,
    start: (u32, Cluster),
    offset: u32,
    block_cache: Option<BlockCache>,
)
    requires
        record::extends(later, earlier),
        located_with(earlier, at, cluster_bytes, start, offset, block_cache) is Some,
    ensures
        located_with(later, at, cluster_bytes, start, offset, block_cache) == located_with(
            earlier,
            at,
            cluster_bytes,
            start,
            offset,
            block_cache,
        ),
    decreases offset - start.0,
{
    if offset - start.0 >= cluster_bytes && cluster_bytes > 0 {
        if let Some((left, Ok(cluster))) = record::answered_next_cluster(
            earlier,
            at,
            start.1,
            block_cache,
        ) {
            lemma_located_with_stable(
                earlier,
                later,
                at + 1,
                cluster_bytes,
                ((start.0 + cluster_bytes) as u32, cluster),
                offset,
                Some(left),
            );
        }
    }
}

/// The block that position `desired_offset` of a file is in, where in that block it is, and how
/// many bytes of the block there are from there on. The cluster that holds the position has
/// `cluster_start` bytes of the file before it and starts with block `first_block`.
pub fn data_location(first_block: BlockIdx, cluster_start: u32, desired_offset: u32) -> (location: (
    BlockIdx,
    usize,
    usize,
))
    requires
        cluster_start <= desired_offset,
        first_block.0 + (desired_offset - cluster_start) / 512 <= u32::MAX,
    ensures
        location.0.0 == first_block.0 + (desired_offset - cluster_start) / 512,
        location.1 == desired_offset % 512,
        location.2 == 512 - desired_offset % 512,
{
    // How many blocks in are we?
    let num_blocks: u32 = (desired_offset - cluster_start) / BLOCK_LEN_U32;
    let block_offset: usize = (desired_offset % BLOCK_LEN_U32) as usize;
    (BlockIdx(first_block.0 + num_blocks), block_offset, BLOCK_LEN - block_offset)
}

/// With a whole cluster less to go, there is one cluster less to go.
pub proof fn lemma_one_cluster_less(bytes: int, cluster_bytes: int, clusters: int)
    by (nonlinear_arith)
    requires
        0 <= bytes,
        0 < cluster_bytes,
        bytes / cluster_bytes == clusters,
    ensures
        clusters > 0 <==> bytes >= cluster_bytes,
        clusters > 0 ==> (bytes - cluster_bytes) / cluster_bytes == clusters - 1,
{
}

} // verus!
