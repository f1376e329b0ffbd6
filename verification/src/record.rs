//! Reading the record of exchanges.
//!
//! Each `answered_..` function looks at one place of a record. Where the call made there is the
//! one asked about, it tells what was answered; where it is another one, or the record does not
//! go that far, there is no answer.
use crate::blockdevice::{BlockCount, BlockIdx};
use crate::error::{Error, FilenameError};
use crate::exchange::Exchange;
use crate::filesystem::{Attributes, Cluster, DirEntry, Directory, ShortFileName, Timestamp};
use crate::volume::{BlockCache, FatLayout, FatType};
use vstd::prelude::*;

verus! {

/// `later` is `earlier`, with or without more exchanges behind it.
pub open spec fn extends<E>(later: Seq<Exchange<E>>, earlier: Seq<Exchange<E>>) -> bool {
    &&& earlier.len() <= later.len()
    &&& forall|i: int| 0 <= i < earlier.len() ==> #[trigger] later[i] == earlier[i]
}

/// The exchange at `at`.
pub open spec fn exchange_at<E>(log: Seq<Exchange<E>>, at: int) -> Option<Exchange<E>> {
    if 0 <= at < log.len() {
        Some(log[at])
    } else {
        None
    }
}

/// Block `block_idx` was read.
pub open spec fn answered_read<E>(
    log: Seq<Exchange<E>>,
    at: int,
    block_idx: BlockIdx,
    reason: Seq<char>,
) -> Option<Result<Seq<u8>, E>> {
    match exchange_at(log, at) {
        Some(Exchange::ReadBlock { block_idx: asked, reason: given, answer }) => if asked
            == block_idx && given == reason {
            Some(answer)
        } else {
            None
        },
        _ => None,
    }
}

/// `block` was written to block `block_idx`.
pub open spec fn answered_write<E>(
    log: Seq<Exchange<E>>,
    at: int,
    block_idx: BlockIdx,
    block: Seq<u8>,
) -> Option<Result<(), E>> {
    match exchange_at(log, at) {
        Some(Exchange::WriteBlock { block_idx: asked, block: given, answer }) => if asked
            == block_idx && given == block {
            Some(answer)
        } else {
            None
        },
        _ => None,
    }
}

/// The clock was asked.
pub open spec fn answered_timestamp<E>(log: Seq<Exchange<E>>, at: int) -> Option<Timestamp> {
    match exchange_at(log, at) {
        Some(Exchange::GetTimestamp { answer }) => Some(answer),
        _ => None,
    }
}

/// The first block of `cluster` was asked for.
pub open spec fn answered_cluster_to_block<E>(
    log: Seq<Exchange<E>>,
    at: int,
    cluster: Cluster,
) -> Option<BlockIdx> {
    match exchange_at(log, at) {
        Some(Exchange::ClusterToBlock { cluster: asked, answer }) => if asked == cluster {
            Some(answer)
        } else {
            None
        },
        _ => None,
    }
}

/// The cluster after `cluster` was asked for, with that cache, or with an empty one.
pub open spec fn answered_next_cluster<E>(
    log: Seq<Exchange<E>>,
    at: int,
    cluster: Cluster,
    block_cache: Option<BlockCache>,
) -> Option<(BlockCache, Result<Cluster, Error<E>>)> {
    match exchange_at(log, at) {
        Some(Exchange::NextCluster { cluster: asked, block_cache: given, answer }) => if asked
            == cluster && (match block_cache {
            Some(cache) => given == cache,
            None => given.is_empty(),
        }) {
            Some(answer)
        } else {
            None
        },
        _ => None,
    }
}

/// A cluster was to be allocated after `prev_cluster`, as it is.
pub open spec fn answered_alloc<E>(
    log: Seq<Exchange<E>>,
    at: int,
    prev_cluster: Option<Cluster>,
) -> Option<Result<Cluster, Error<E>>> {
    match exchange_at(log, at) {
        Some(Exchange::AllocCluster { prev_cluster: asked, zero, answer }) => if asked
            == prev_cluster && !zero {
            Some(answer)
        } else {
            None
        },
        _ => None,
    }
}

/// The chain that `cluster` starts was to be cut short.
pub open spec fn answered_truncate<E>(
    log: Seq<Exchange<E>>,
    at: int,
    cluster: Cluster,
) -> Option<Result<(), Error<E>>> {
    match exchange_at(log, at) {
        Some(Exchange::TruncateClusterChain { cluster: asked, answer }) => if asked == cluster {
            Some(answer)
        } else {
            None
        },
        _ => None,
    }
}

/// The count of free clusters was to be written down.
pub open spec fn answered_update_info<E>(log: Seq<Exchange<E>>, at: int) -> Option<
    Result<(), Error<E>>,
> {
    match exchange_at(log, at) {
        Some(Exchange::UpdateInfoSector { answer }) => Some(answer),
        _ => None,
    }
}

/// `entry` was to be turned into bytes.
pub open spec fn answered_serialize<E>(
    log: Seq<Exchange<E>>,
    at: int,
    entry: DirEntry,
    fat_type: FatType,
) -> Option<Seq<u8>> {
    match exchange_at(log, at) {
        Some(Exchange::Serialize { entry: asked, fat_type: given, answer }) => if asked == entry
            && given == fat_type {
            Some(answer)
        } else {
            None
        },
        _ => None,
    }
}

/// The entry called `name` in `dir` was looked for.
pub open spec fn answered_find<E>(
    log: Seq<Exchange<E>>,
    at: int,
    dir: Directory,
    name: Seq<char>,
) -> Option<Result<DirEntry, Error<E>>> {
    match exchange_at(log, at) {
        Some(Exchange::FindDirectoryEntry { dir: asked, name: given, answer }) => if asked == dir
            && given == name {
            Some(answer)
        } else {
            None
        },
        _ => None,
    }
}

/// `name` was to be turned into a short file name.
pub open spec fn answered_short_name<E>(log: Seq<Exchange<E>>, at: int, name: Seq<char>) -> Option<
    Result<ShortFileName, FilenameError>,
> {
    match exchange_at(log, at) {
        Some(Exchange::CreateFromStr { name: asked, answer }) => if asked == name {
            Some(answer)
        } else {
            None
        },
        _ => None,
    }
}

/// An entry with that name and those attributes was to be added to `dir`.
pub open spec fn answered_new_entry<E>(
    log: Seq<Exchange<E>>,
    at: int,
    dir: Directory,
    name: ShortFileName,
    attributes: Attributes,
) -> Option<Result<DirEntry, Error<E>>> {
    match exchange_at(log, at) {
        Some(
            Exchange::WriteNewDirectoryEntry {
                dir: asked,
                name: given,
                attributes: wanted,
                answer,
            },
        ) => if asked == dir && given == name && wanted == attributes {
            Some(answer)
        } else {
            None
        },
        _ => None,
    }
}

/// The entry called `name` was to be taken out of `dir`.
pub open spec fn answered_delete<E>(
    log: Seq<Exchange<E>>,
    at: int,
    dir: Directory,
    name: Seq<char>,
) -> Option<Result<(), Error<E>>> {
    match exchange_at(log, at) {
        Some(Exchange::DeleteDirectoryEntry { dir: asked, name: given, answer }) => if asked == dir
            && given == name {
            Some(answer)
        } else {
            None
        },
        _ => None,
    }
}

/// The volume of `num_blocks` blocks from `lba_start` on was to be parsed.
pub open spec fn answered_parse<E>(
    log: Seq<Exchange<E>>,
    at: int,
    lba_start: BlockIdx,
    num_blocks: BlockCount,
) -> Option<Result<FatLayout, Error<E>>> {
    match exchange_at(log, at) {
        Some(Exchange::ParseVolume { lba_start: asked, num_blocks: given, answer }) => if asked
            == lba_start && given == num_blocks {
            Some(answer)
        } else {
            None
        },
        _ => None,
    }
}

} // verus!
