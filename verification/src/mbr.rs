//! The Master Boot Record: the first block of a device, which says where its volumes are.
use crate::blockdevice::{Block, BlockCount, BlockIdx};
use crate::error::Error;
use crate::exchange::Exchange;
use crate::record;
use crate::volume::{FatLayout, VolumeIdx};
use vstd::prelude::*;
use vstd::slice::slice_subrange;

verus! {

/// Where the four partition entries start.
pub const PARTITION1_START: usize = 446;

pub const PARTITION2_START: usize = 462;

pub const PARTITION3_START: usize = 478;

pub const PARTITION4_START: usize = 494;

/// How long a partition entry is.
pub const PARTITION_INFO_LENGTH: usize = 16;

/// Where in a partition entry its parts start.
pub const PARTITION_INFO_STATUS_INDEX: usize = 0;

pub const PARTITION_INFO_TYPE_INDEX: usize = 4;

pub const PARTITION_INFO_LBA_START_INDEX: usize = 8;

pub const PARTITION_INFO_NUM_BLOCKS_INDEX: usize = 12;

/// Where the signature of the record starts.
pub const FOOTER_START: usize = 510;

/// The signature of the record.
pub const FOOTER_VALUE: u16 = 0xAA55;

/// A FAT16 partition.
pub const PARTITION_ID_FAT16: u8 = 0x06;

/// A FAT32 partition.
pub const PARTITION_ID_FAT32_CHS_LBA: u8 = 0x0B;

/// A FAT32 partition that is addressed by block numbers.
pub const PARTITION_ID_FAT32_LBA: u8 = 0x0C;

/// A FAT16 partition that is addressed by block numbers.
pub const PARTITION_ID_FAT16_LBA: u8 = 0x0E;

/// What a partition entry says.
#[derive(Clone, Copy, Debug, PartialEq, Eq, Structural)]
pub struct Partition {
    /// What kind of volume is in the partition.
    pub part_type: u8,
    /// The first block of the partition.
    pub lba_start: BlockIdx,
    /// How many blocks the partition has.
    pub num_blocks: BlockCount,
}

/// The number that the two bytes from `at` on stand for, the least significant first.
pub open spec fn le_u16(bytes: Seq<u8>, at: int) -> int {
    bytes[at] + 0x100 * bytes[at + 1]
}

/// The number that the four bytes from `at` on stand for, the least significant first.
pub open spec fn le_u32(bytes: Seq<u8>, at: int) -> int {
    bytes[at] + 0x100 * bytes[at + 1] + 0x1_0000 * bytes[at + 2] + 0x100_0000 * bytes[at + 3]
}

/// Where the entry of partition `n` starts.
pub open spec fn partition_start(n: usize) -> int {
    446 + 16 * n
}

/// What the record says of volume `volume_idx`.
pub open spec fn partition_in<E>(record: Seq<u8>, volume_idx: VolumeIdx) -> Result<
    Partition,
    Error<E>,
> {
    let start = partition_start(volume_idx.0);
    if le_u16(record, 510) != 0xAA55 {
        Err(Error::FormatError("Invalid MBR signature"))
    } else if volume_idx.0 > 3 {
        Err(Error::NoSuchVolume)
    } else if record[start] != 0x00 && record[start] != 0x80 {
        Err(Error::FormatError("Invalid partition status"))
    } else {
        Ok(
            Partition {
                part_type: record[start + 4],
                lba_start: BlockIdx(le_u32(record, start + 8) as u32),
                num_blocks: BlockCount(le_u32(record, start + 12) as u32),
            },
        )
    }
}

/// Whether partitions of that type hold volumes that can be worked with.
pub open spec fn supported(part_type: u8) -> bool {
    part_type == 0x06 || part_type == 0x0B || part_type == 0x0C || part_type == 0x0E
}

/// What came of looking for a volume.
pub struct VolumeFound<E> {
    /// Where the record of it ends.
    pub next: int,
    /// The layout of the volume, or why there is none to be had.
    pub answer: Result<FatLayout, Error<E>>,
}

/// The record from `at` on tells how volume `volume_idx` was looked for: the Master Boot Record
/// was read, and the partition that it gives for the volume was parsed.
pub open spec fn volume_found<E>(
    log: Seq<Exchange<E>>,
    at: int,
    volume_idx: VolumeIdx,
) -> Option<VolumeFound<E>> {
    match record::answered_read(log, at, BlockIdx(0), "read_mbr"@) {
        None => None,
        Some(Err(error)) => Some(
            VolumeFound { next: at + 1, answer: Err(Error::DeviceError(error)) },
        ),
        Some(Ok(block)) => match partition_in::<E>(block, volume_idx) {
            Err(error) => Some(VolumeFound { next: at + 1, answer: Err(error) }),
            Ok(partition) => if !supported(partition.part_type) {
                Some(
                    VolumeFound {
                        next: at + 1,
                        answer: Err(Error::FormatError("Partition type not supported")),
                    },
                )
            } else {
                match record::answered_parse(
                    log,
                    at + 1,
                    partition.lba_start,
                    partition.num_blocks,
                ) {
                    None => None,
                    Some(answer) => Some(VolumeFound { next: at + 2, answer }),
                }
            },
        },
    }
}

/// Calls `byteorder::LittleEndian::read_u16`, which reads the first two bytes of `buf`, the least
/// significant first. It panics where there are fewer.
#[verifier::external_body]
fn read_u16(buf: &[u8]) -> (value: u16)
    requires
        buf@.len() >= 2,
    ensures
        value == le_u16(buf@, 0),
{
    <byteorder::LittleEndian as byteorder::ByteOrder>::read_u16(buf)
}

/// Calls `byteorder::LittleEndian::read_u32`, which reads the first four bytes of `buf`, the least
/// significant first. It panics where there are fewer.
#[verifier::external_body]
fn read_u32(buf: &[u8]) -> (value: u32)
    requires
        buf@.len() >= 4,
    ensures
        value == le_u32(buf@, 0),
{
    <byteorder::LittleEndian as byteorder::ByteOrder>::read_u32(buf)
}

/// What the record in `block` says of volume `volume_idx`.
///
/// Only records with the signature of a Master Boot Record are understood, not GUID partition
/// tables.
pub fn read_partition<E>(block: &Block, volume_idx: VolumeIdx) -> (result: Result<
    Partition,
    Error<E>,
>)
    ensures
        result == partition_in::<E>(block@, volume_idx),
{
    let record = block.contents.as_slice();
    if read_u16(slice_subrange(record, FOOTER_START, FOOTER_START + 2)) != FOOTER_VALUE {
        return Err(Error::FormatError("Invalid MBR signature"));
    }
    let start: usize = match volume_idx.0 {
        0 => PARTITION1_START,
        1 => PARTITION2_START,
        2 => PARTITION3_START,
        3 => PARTITION4_START,
        _ => {
            return Err(Error::NoSuchVolume);
        },
    };
    let partition = slice_subrange(record, start, start + PARTITION_INFO_LENGTH);
    let status: u8 = partition[PARTITION_INFO_STATUS_INDEX];
    // Only 0x80 and 0x00 are valid (bootable, and non-bootable)
    assert(status & 0x7F == 0 <==> status == 0x00 || status == 0x80) by (bit_vector);
    if status & 0x7F != 0x00 {
        return Err(Error::FormatError("Invalid partition status"));
    }
    let lba_start = read_u32(
        slice_subrange(
            partition,
            PARTITION_INFO_LBA_START_INDEX,
            PARTITION_INFO_LBA_START_INDEX + 4,
        ),
    );
    let num_blocks = read_u32(
        slice_subrange(
            partition,
            PARTITION_INFO_NUM_BLOCKS_INDEX,
            PARTITION_INFO_NUM_BLOCKS_INDEX + 4,
        ),
    );
    Ok(
        Partition {
            part_type: partition[PARTITION_INFO_TYPE_INDEX],
            lba_start: BlockIdx(lba_start),
            num_blocks: BlockCount(num_blocks),
        },
    )
}

/// Whether partitions of that type hold volumes that can be worked with.
pub fn is_supported(part_type: u8) -> (answer: bool)
    ensures
        answer == supported(part_type),
{
    part_type == PARTITION_ID_FAT32_CHS_LBA || part_type == PARTITION_ID_FAT32_LBA || part_type
        == PARTITION_ID_FAT16_LBA || part_type == PARTITION_ID_FAT16
}

} // verus!
