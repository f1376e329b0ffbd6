//! What is on record was done: of every exchange, which call it was, and on what.
use crate::blockdevice::{Block, BlockDevice, BlockIdx};
use crate::error::Error;
use crate::exchange;
use crate::exchange::Exchange;
use crate::filesystem::TimeSource;
use crate::volume::{FatTable, FatVolume};
use vstd::prelude::*;

verus! {

/// The table that an exchange finds, and the one that it leaves, are between those at the two ends.
pub open spec fn between<D: BlockDevice, T: TimeSource, F: FatTable>(
    log: Seq<Exchange<D::Error>>,
    from: int,
    i: int,
    to: int,
    device: D,
    clock: T,
    first: F,
    found: F,
    left: F,
    last: F,
) -> bool {
    &&& exchange::happened(log, from, i, device, clock, first, found)
    &&& exchange::happened(log, i + 1, to, device, clock, left, last)
}

/// Every exchange of what happened took place on a table that came of those before it, and left the
/// one that those behind it found.
proof fn lemma_one_of_them<D: BlockDevice, T: TimeSource, F: FatTable>(
    log: Seq<Exchange<D::Error>>,
    from: int,
    i: int,
    to: int,
    device: D,
    clock: T,
    first: F,
    last: F,
) -> (tables: (F, F))
    requires
        from <= i < to,
        exchange::happened(log, from, to, device, clock, first, last),
    ensures
        between(log, from, i, to, device, clock, first, tables.0, tables.1, last),
        exchange::took_place(log[i], device, clock, tables.0, tables.1),
    decreases to - from,
{
    reveal(exchange::happened);
    let before_last = choose|table: F|
        {
            &&& exchange::happened(log, from, to - 1, device, clock, first, table)
            &&& #[trigger] exchange::took_place(log[to - 1], device, clock, table, last)
        };
    if i == to - 1 {
        (before_last, last)
    } else {
        let tables = lemma_one_of_them(log, from, i, to - 1, device, clock, first, before_last);
        assert(exchange::took_place(log[to - 1], device, clock, before_last, last));
        tables
    }
}

/// A block that was read, by the record, was read: the device was asked for that one block, over
/// zeroes, and what it left there, or the error that it gave, is on record. Each block has 512
/// bytes.
pub proof fn law_recorded_read_was_made<D: BlockDevice, T: TimeSource, F: FatTable>(
    log: Seq<Exchange<D::Error>>,
    from: int,
    i: int,
    to: int,
    device: D,
    clock: T,
    first: F,
    last: F,
    block_idx: BlockIdx,
    reason: Seq<char>,
    answer: Result<Seq<u8>, D::Error>,
)
    requires
        from <= i < to,
        exchange::happened(log, from, to, device, clock, first, last),
        log[i] == (Exchange::ReadBlock { block_idx, reason, answer }),
    ensures
        exists|blocks: &mut [Block], text: &str, done: Result<(), D::Error>|
            {
                &&& #[trigger] call_ensures(D::read, (&device, blocks, block_idx, text), done)
                &&& text@ == reason
                &&& blocks@.len() == 1
                &&& blocks@[0]@ == Seq::new(512, |j: int| 0u8)
                &&& match answer {
                    Ok(bytes) => done is Ok && final(blocks)@.len() == 1 && final(blocks)@[0]@
                        == bytes,
                    Err(error) => done == Err::<(), D::Error>(error),
                }
            },
        answer matches Ok(bytes) ==> bytes.len() == 512,
{
    let tables = lemma_one_of_them(log, from, i, to, device, clock, first, last);
    let (text, read) = choose|text: &str, read: Result<Block, D::Error>|
        {
            &&& #[trigger] call_ensures(
                exchange::read_block::<D>,
                (&device, block_idx, text),
                read,
            )
            &&& text@ == reason
            &&& exchange::bytes_of(read) == answer
        };
    assert(call_ensures(exchange::read_block::<D>, (&device, block_idx, text), read));
}

/// A block that was written, by the record, was written: the device was given that one block for
/// that place, and what it answered is on record.
pub proof fn law_recorded_write_was_made<D: BlockDevice, T: TimeSource, F: FatTable>(
    log: Seq<Exchange<D::Error>>,
    from: int,
    i: int,
    to: int,
    device: D,
    clock: T,
    first: F,
    last: F,
    block_idx: BlockIdx,
    bytes: Seq<u8>,
    answer: Result<(), D::Error>,
)
    requires
        from <= i < to,
        exchange::happened(log, from, to, device, clock, first, last),
        log[i] == (Exchange::WriteBlock { block_idx, block: bytes, answer }),
    ensures
        exists|blocks: &[Block]|
            {
                &&& #[trigger] call_ensures(D::write, (&device, blocks, block_idx), answer)
                &&& blocks@.len() == 1
                &&& blocks@[0]@ == bytes
            },
        bytes.len() == 512,
{
    let tables = lemma_one_of_them(log, from, i, to, device, clock, first, last);
    let block = choose|block: Block| #[trigger]
        call_ensures(exchange::write_block::<D>, (&device, block_idx, block), answer) && block@
            == bytes;
    assert(call_ensures(exchange::write_block::<D>, (&device, block_idx, block), answer));
}

/// The call of the table or the clock that `exchange` stands for was made on the table `found`, with
/// what is on record, and gave what is on record and the table `left`. Only what allocates, frees,
/// counts or creates gives another table.
pub open spec fn call_made<D: BlockDevice, T: TimeSource, F: FatTable>(
    exchange: Exchange<D::Error>,
    device: D,
    clock: T,
    found: F,
    left: F,
) -> bool {
    match exchange {
        Exchange::ReadBlock { .. } => left == found,
        Exchange::WriteBlock { .. } => left == found,
        Exchange::IterateDir { .. } => left == found,
        Exchange::GetTimestamp { answer } => {
            &&& left == found
            &&& call_ensures(T::get_timestamp, (&clock,), answer)
        },
        Exchange::ParseVolume { lba_start, num_blocks, answer } => {
            &&& left == found
            &&& exists|parsed: Result<FatVolume<F>, Error<D::Error>>|
                {
                    &&& #[trigger] call_ensures(
                        F::parse_volume::<D>,
                        (&device, lba_start, num_blocks),
                        parsed,
                    )
                    &&& match (parsed, answer) {
                        (Ok(volume), Ok(layout)) => volume.layout == layout,
                        (Err(error), Err(given)) => error == given,
                        _ => false,
                    }
                }
        },
        Exchange::CreateFromStr { name, answer } => {
            &&& left == found
            &&& exists|text: &str| #[trigger]
                call_ensures(F::create_from_str, (text,), answer) && text@ == name
        },
        Exchange::Serialize { entry, fat_type, answer } => {
            &&& left == found
            &&& answer.len() == 32
            &&& exists|bytes: [u8; 32]| #[trigger]
                call_ensures(F::serialize, (&entry, fat_type), bytes) && bytes@ == answer
        },
        Exchange::ClusterToBlock { cluster, answer } => {
            &&& left == found
            &&& call_ensures(F::cluster_to_block, (&found, cluster), answer)
        },
        Exchange::NextCluster { cluster, block_cache, answer } => {
            &&& left == found
            &&& call_ensures(
                F::next_cluster::<D>,
                (&found, &device, cluster, block_cache),
                answer,
            )
        },
        Exchange::AllocCluster { prev_cluster, zero, answer } => call_ensures(
            F::alloc_cluster::<D>,
            (&found, &device, prev_cluster, zero),
            (left, answer),
        ),
        Exchange::TruncateClusterChain { cluster, answer } => call_ensures(
            F::truncate_cluster_chain::<D>,
            (&found, &device, cluster),
            (left, answer),
        ),
        Exchange::UpdateInfoSector { answer } => call_ensures(
            F::update_info_sector::<D>,
            (&found, &device),
            (left, answer),
        ),
        Exchange::FindDirectoryEntry { dir, name, answer } => {
            &&& left == found
            &&& exists|text: &str| #[trigger]
                call_ensures(
                    F::find_directory_entry::<D>,
                    (&found, &device, &dir, text),
                    answer,
                ) && text@ == name
        },
        Exchange::WriteNewDirectoryEntry { dir, name, attributes, answer } => call_ensures(
            F::write_new_directory_entry::<D, T>,
            (&found, &device, &clock, &dir, name, attributes),
            (left, answer),
        ),
        Exchange::DeleteDirectoryEntry { dir, name, answer } => {
            &&& left == found
            &&& exists|text: &str| #[trigger]
                call_ensures(
                    F::delete_directory_entry::<D>,
                    (&found, &device, &dir, text),
                    answer,
                ) && text@ == name
        },
        Exchange::HandedOut => false,
    }
}

/// Every call that is on record was made, on the table that the calls before it left; the table at
/// the end is the one that the last of them left.
pub proof fn law_recorded_call_was_made<D: BlockDevice, T: TimeSource, F: FatTable>(
    log: Seq<Exchange<D::Error>>,
    from: int,
    i: int,
    to: int,
    device: D,
    clock: T,
    first: F,
    last: F,
)
    requires
        from <= i < to,
        exchange::happened(log, from, to, device, clock, first, last),
    ensures
        exists|found: F, left: F|
            {
                &&& between(log, from, i, to, device, clock, first, found, left, last)
                &&& #[trigger] call_made(log[i], device, clock, found, left)
            },
{
    let tables = lemma_one_of_them(log, from, i, to, device, clock, first, last);
    match log[i] {
        Exchange::ParseVolume { lba_start, num_blocks, answer } => {
            let parsed = choose|parsed: Result<FatVolume<F>, Error<D::Error>>|
                #[trigger] call_ensures(
                    F::parse_volume::<D>,
                    (&device, lba_start, num_blocks),
                    parsed,
                ) && exchange::layout_of(parsed) == answer;
            assert(call_ensures(F::parse_volume::<D>, (&device, lba_start, num_blocks), parsed));
        },
        Exchange::Serialize { entry, fat_type, answer } => {
            let bytes = choose|bytes: [u8; 32]|
                #[trigger] call_ensures(F::serialize, (&entry, fat_type), bytes) && bytes@
                    == answer;
            assert(bytes@.len() == 32);
        },
        _ => {},
    }
    assert(call_made(log[i], device, clock, tables.0, tables.1));
}

/// Where no cluster is allocated or freed, none is counted and no entry is created, the table stays
/// what it was.
pub proof fn law_table_changes_with_its_calls<D: BlockDevice, T: TimeSource, F: FatTable>(
    log: Seq<Exchange<D::Error>>,
    from: int,
    to: int,
    device: D,
    clock: T,
    first: F,
    last: F,
)
    requires
        exchange::happened(log, from, to, device, clock, first, last),
        forall|i: int|
            from <= i < to ==> !(#[trigger] log[i] is AllocCluster) && !(
            log[i] is TruncateClusterChain) && !(log[i] is UpdateInfoSector) && !(
            log[i] is WriteNewDirectoryEntry),
    ensures
        last == first,
    decreases to - from,
{
    reveal(exchange::happened);
    if from < to {
        let before_last = choose|table: F|
            {
                &&& exchange::happened(log, from, to - 1, device, clock, first, table)
                &&& #[trigger] exchange::took_place(log[to - 1], device, clock, table, last)
            };
        law_table_changes_with_its_calls(log, from, to - 1, device, clock, first, before_last);
        assert(!(log[to - 1] is AllocCluster));
    }
}

} // verus!
