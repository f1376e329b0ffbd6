//! What holds of blocks, files, partitions and records by themselves.
use crate::blockdevice;
use crate::blockdevice::BlockDevice;
use crate::error::Error;
use crate::exchange;
use crate::exchange::Exchange;
use crate::filesystem;
use crate::filesystem::{File, Mode, TimeSource};
use crate::mbr;
use crate::opening;
use crate::opening_laws;
use crate::record;
use crate::state::ManagerState;
use crate::volume::{FatTable, FatVolume, Volume, VolumeIdx, VolumeType};
use crate::volume_mgr::VolumeManager;
use vstd::prelude::*;

verus! {

/// A new block has 512 bytes, and each of them is zero.
pub proof fn law_new_block_is_zero(i: int)
    requires
        0 <= i < 512,
    ensures
        blockdevice::zero_block().len() == 512,
        blockdevice::zero_block()[i] == 0,
{
}

/// Copying bytes over others replaces those, and no other.
pub proof fn law_copying_replaces_no_other_byte(base: Seq<u8>, at: int, bytes: Seq<u8>)
    requires
        0 <= at,
        at + bytes.len() <= base.len(),
    ensures
        opening_laws::only_replaced(base, blockdevice::overlaid(base, at, bytes), at, bytes),
{
}

/// A file that is moved to a position is at that position, and is otherwise what it was. It
/// remembers the cluster that it did, unless that lies behind the position; then it remembers its
/// first.
pub proof fn law_moving_changes_the_position_alone(file: File, offset: u32)
    ensures
        ({
            let moved = file.moved_to(offset);
            &&& moved.current_offset == offset
            &&& moved.length == file.length
            &&& moved.mode == file.mode
            &&& moved.entry == file.entry
            &&& moved.search_id == file.search_id
            &&& moved.starting_cluster == file.starting_cluster
            &&& moved.current_cluster.0 <= offset
            &&& moved.current_cluster == file.current_cluster || file.current_cluster.0 > offset
                && moved.current_cluster == (0u32, file.starting_cluster)
        }),
{
}

/// A file that is given a size has it, in its entry too, and is otherwise what it was.
pub proof fn law_resizing_changes_the_size_alone(file: File, length: u32)
    ensures
        ({
            let resized = file.resized(length);
            &&& resized.length == length
            &&& resized.entry.size == length
            &&& resized.current_offset == file.current_offset
            &&& resized.current_cluster == file.current_cluster
            &&& resized.starting_cluster == file.starting_cluster
            &&& resized.mode == file.mode
            &&& resized.search_id == file.search_id
            &&& resized.entry.name == file.entry.name
            &&& resized.entry.mtime == file.entry.mtime
            &&& resized.entry.ctime == file.entry.ctime
            &&& resized.entry.attributes == file.entry.attributes
            &&& resized.entry.cluster == file.entry.cluster
            &&& resized.entry.entry_block == file.entry.entry_block
            &&& resized.entry.entry_offset == file.entry.entry_offset
        }),
{
}

/// A file is as it should be if its position lies in it, and not before the cluster that it
/// remembers.
pub proof fn law_position_lies_in_the_file(file: File)
    ensures
        file.valid() <==> file.current_cluster.0 <= file.current_offset && file.current_offset
            <= file.length,
{
}

/// The modes that create or append, and create or truncate, do the one where the file is not there
/// and the other where it is; every other mode is what it is.
pub proof fn law_mode_variants(mode: Mode, there: bool)
    ensures
        ({
            let solved = opening::solved_mode(mode, there);
            if mode == Mode::ReadWriteCreateOrAppend {
                solved == if there {
                    Mode::ReadWriteAppend
                } else {
                    Mode::ReadWriteCreate
                }
            } else if mode == Mode::ReadWriteCreateOrTruncate {
                solved == if there {
                    Mode::ReadWriteTruncate
                } else {
                    Mode::ReadWriteCreate
                }
            } else {
                solved == mode
            }
        }),
{
}

/// Each id is one more than the one before, until they start anew.
pub proof fn law_ids_count_up(id: u32)
    ensures
        filesystem::following_id(id) == (id + 1) % 0x1_0000_0000,
{
}

/// At first, nothing is open, the first id is zero, and nothing is on record.
pub proof fn law_nothing_is_open_at_first<E>()
    ensures
        ({
            let state = ManagerState::<E>::initial();
            &&& state.open_dirs.len() == 0
            &&& state.open_files.len() == 0
            &&& state.next_id == 0
            &&& state.log.len() == 0
        }),
{
}

/// What a volume is made of, and how many bytes its clusters have.
pub proof fn law_parts_of_a_volume<F>(volume: Volume<F>, fat: FatVolume<F>, other: Volume<F>)
    requires
        volume.volume_type == VolumeType::Fat(fat),
    ensures
        volume.layout() == fat.layout,
        volume.table() == fat.table,
        volume.cluster_bytes() == 512 * fat.layout.cluster_size.blocks(),
        volume.same_but_table(other) ==> volume.idx == other.idx && volume.layout()
            == other.layout(),
        volume.same_but_table(other) && volume.table() == other.table() ==> volume == other,
{
}

/// What the Master Boot Record says of a partition: entries of 16 bytes from byte 446 on, each with
/// its status, its type, its first block and its number of blocks, in that order.
pub proof fn law_partition_entries<E>(block: Seq<u8>, volume_idx: VolumeIdx)
    ensures
        ({
            let p = 446 + 16 * volume_idx.0;
            match mbr::partition_in::<E>(block, volume_idx) {
                Ok(partition) => {
                    &&& block[510] == 0x55 && block[511] == 0xAA
                    &&& volume_idx.0 < 4
                    &&& block[p] == 0 || block[p] == 128
                    &&& partition.part_type == block[p + 4]
                    &&& partition.lba_start.0 == opening_laws::number_at(block, p + 8)
                    &&& partition.num_blocks.0 == opening_laws::number_at(block, p + 12)
                },
                Err(error) => if block[510] != 0x55 || block[511] != 0xAA {
                    error == Error::<E>::FormatError("Invalid MBR signature")
                } else if volume_idx.0 >= 4 {
                    error is NoSuchVolume
                } else {
                    &&& block[p] != 0 && block[p] != 128
                    &&& error == Error::<E>::FormatError("Invalid partition status")
                },
            }
        }),
{
}

/// The partitions that can be worked with are those of the four FAT types.
pub proof fn law_supported_types(part_type: u8)
    ensures
        mbr::supported(part_type) <==> part_type == 6 || part_type == 11 || part_type == 12
            || part_type == 14,
{
}

/// A record that extends another begins with it.
pub proof fn law_longer_record_begins_with_the_shorter<E>(
    later: Seq<Exchange<E>>,
    earlier: Seq<Exchange<E>>,
)
    ensures
        record::extends(later, earlier) <==> earlier.len() <= later.len() && later.subrange(
            0,
            earlier.len() as int,
        ) == earlier,
{
    if record::extends(later, earlier) {
        assert(later.subrange(0, earlier.len() as int) =~= earlier);
    }
    if earlier.len() <= later.len() && later.subrange(0, earlier.len() as int) == earlier {
        assert forall|i: int| 0 <= i < earlier.len() implies #[trigger] later[i] == earlier[i] by {
            assert(later.subrange(0, earlier.len() as int)[i] == later[i]);
        }
    }
}

/// Putting something on record changes nothing that is open.
pub proof fn law_record_keeps_what_is_open<E>(state: ManagerState<E>, log: Seq<Exchange<E>>)
    ensures
        state.with_log(log).open_dirs == state.open_dirs,
        state.with_log(log).open_files == state.open_files,
        state.with_log(log).next_id == state.next_id,
        state.with_log(log).log == log,
{
}

/// What it is for two states of a volume manager to differ in the record alone, and for what is on
/// record to have been done.
pub proof fn law_states_of_a_manager<
    D: BlockDevice,
    T: TimeSource,
    F: FatTable,
    const MAX_DIRS: usize,
    const MAX_FILES: usize,
>(
    manager: VolumeManager<D, T, MAX_DIRS, MAX_FILES>,
    before: VolumeManager<D, T, MAX_DIRS, MAX_FILES>,
    first: F,
    last: F,
)
    ensures
        manager.same_host(before) <==> manager.block_device() == before.block_device()
            && manager.timesource() == before.timesource(),
        manager.same_but_log(before) <==> manager.same_host(before) && manager@
            == before@.with_log(manager@.log),
        manager.did(before, first, last) <==> exchange::happened(
            manager@.log,
            before@.log.len() as int,
            manager@.log.len() as int,
            before.block_device(),
            before.timesource(),
            first,
            last,
        ),
{
    assert(manager.same_but_log(before) ==> manager@ =~= before@.with_log(manager@.log));
}

} // verus!
