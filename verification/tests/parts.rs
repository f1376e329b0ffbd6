//! What the volume manager is made of.
use volume_mgr::blockdevice::{copy_bytes, Block, BlockCount, BlockIdx};
use volume_mgr::error::{Error, FileError};
use volume_mgr::filesystem::{
    Attributes, Cluster, DirEntry, EntryOffset, File, IdGenerator, Mode, SearchId, ShortFileName,
    Timestamp,
};
use volume_mgr::locate::data_location;
use volume_mgr::mbr::{is_supported, read_partition, Partition};
use volume_mgr::open_list::{
    cluster_already_open, cluster_position_by_id, entry_already_open, ClusterDescriptor, EntryPlace,
};
use volume_mgr::volume::{ClusterSize, VolumeIdx};
use volume_mgr::volume_mgr::solve_mode_variant;

const TIME: Timestamp = Timestamp {
    year_since_1970: 30,
    zero_indexed_month: 0,
    zero_indexed_day: 0,
    hours: 0,
    minutes: 0,
    seconds: 0,
};

fn file(length: u32, current_offset: u32, current_cluster: (u32, Cluster)) -> File {
    File {
        starting_cluster: Cluster(2),
        current_cluster,
        current_offset,
        length,
        mode: Mode::ReadOnly,
        entry: DirEntry {
            name: ShortFileName { contents: *b"A          " },
            mtime: TIME,
            ctime: TIME,
            attributes: Attributes(0),
            cluster: Cluster(2),
            size: length,
            entry_block: BlockIdx(5),
            entry_offset: EntryOffset::new(0).unwrap(),
        },
        search_id: SearchId(0),
    }
}

fn boot_record() -> Block {
    let mut block = Block::new();
    block.contents[510] = 0x55;
    block.contents[511] = 0xAA;
    for (n, start) in [446usize, 462, 478, 494].into_iter().enumerate() {
        block.contents[start + 4] = 0x0B + n as u8;
        block.contents[start + 8..start + 12].copy_from_slice(&[n as u8, 2, 3, 4]);
        block.contents[start + 12..start + 16].copy_from_slice(&[0x78, 0x56, 0x34, 0x12]);
    }
    block
}

#[test]
fn partitions_are_read_from_the_boot_record() {
    let block = boot_record();
    for n in 0..4u8 {
        let partition = read_partition::<()>(&block, VolumeIdx(n as usize)).unwrap();
        assert_eq!(
            partition,
            Partition {
                part_type: 0x0B + n,
                lba_start: BlockIdx(0x0403_0200 + n as u32),
                num_blocks: BlockCount(0x1234_5678),
            }
        );
    }
}

#[test]
fn boot_record_that_is_not_valid() {
    let mut block = boot_record();
    assert!(matches!(read_partition::<()>(&block, VolumeIdx(4)), Err(Error::NoSuchVolume)));
    block.contents[462] = 0x80;
    assert!(read_partition::<()>(&block, VolumeIdx(1)).is_ok());
    block.contents[462] = 0x81;
    assert!(matches!(
        read_partition::<()>(&block, VolumeIdx(1)),
        Err(Error::FormatError("Invalid partition status"))
    ));
    assert!(read_partition::<()>(&block, VolumeIdx(0)).is_ok());
    block.contents[510] = 0xAA;
    block.contents[511] = 0x55;
    assert!(matches!(
        read_partition::<()>(&block, VolumeIdx(4)),
        Err(Error::FormatError("Invalid MBR signature"))
    ));
}

#[test]
fn supported_partitions() {
    let supported: Vec<u8> = (0..=255).filter(|t| is_supported(*t)).collect();
    assert_eq!(supported, [0x06, 0x0B, 0x0C, 0x0E]);
}

#[test]
fn positions_are_located() {
    assert_eq!(data_location(BlockIdx(10), 0, 0), (BlockIdx(10), 0, 512));
    assert_eq!(data_location(BlockIdx(10), 0, 511), (BlockIdx(10), 511, 1));
    assert_eq!(data_location(BlockIdx(10), 0, 512), (BlockIdx(11), 0, 512));
    assert_eq!(data_location(BlockIdx(10), 2048, 3000), (BlockIdx(11), 440, 72));
}

#[test]
fn bytes_are_copied() {
    let mut bytes = [0u8, 1, 2, 3, 4];
    copy_bytes(&mut bytes, 1, &[10, 11, 12, 13], 1, 2);
    assert_eq!(bytes, [0, 11, 12, 3, 4]);
    copy_bytes(&mut bytes, 5, &[], 0, 0);
    assert_eq!(bytes, [0, 11, 12, 3, 4]);
}

#[test]
fn descriptors_are_found() {
    let list = [
        ClusterDescriptor::new(VolumeIdx(0), Cluster(5), SearchId(7)),
        ClusterDescriptor::new(VolumeIdx(1), Cluster(6), SearchId(8)),
        ClusterDescriptor::new(VolumeIdx(0), Cluster(9), SearchId(8)),
    ];
    assert_eq!(cluster_position_by_id(&list, SearchId(7)), Some(0));
    assert_eq!(cluster_position_by_id(&list, SearchId(8)), Some(1));
    assert_eq!(cluster_position_by_id(&list, SearchId(9)), None);
    assert!(cluster_already_open(&list, VolumeIdx(1), Cluster(6)));
    assert!(cluster_already_open(&list, VolumeIdx(0), Cluster(9)));
    assert!(!cluster_already_open(&list, VolumeIdx(1), Cluster(9)));
    assert!(!cluster_already_open(&[], VolumeIdx(0), Cluster(5)));
    assert!(list[0].compare_id(SearchId(7)) && !list[0].compare_id(SearchId(8)));
    assert!(list[0].compare_volume_and_cluster(VolumeIdx(0), Cluster(5)));
    assert!(!list[0].compare_volume_and_cluster(VolumeIdx(0), Cluster(6)));
}

#[test]
fn modes_are_solved() {
    for there in [true, false] {
        for mode in [
            Mode::ReadOnly,
            Mode::ReadWriteAppend,
            Mode::ReadWriteTruncate,
            Mode::ReadWriteCreate,
        ] {
            assert_eq!(solve_mode_variant(mode, there), mode);
        }
    }
    let append = Mode::ReadWriteCreateOrAppend;
    let truncate = Mode::ReadWriteCreateOrTruncate;
    assert_eq!(solve_mode_variant(append, true), Mode::ReadWriteAppend);
    assert_eq!(solve_mode_variant(append, false), Mode::ReadWriteCreate);
    assert_eq!(solve_mode_variant(truncate, true), Mode::ReadWriteTruncate);
    assert_eq!(solve_mode_variant(truncate, false), Mode::ReadWriteCreate);
}

#[test]
fn files_are_moved_in() {
    let mut f = file(3000, 1500, (1024, Cluster(3)));
    assert_eq!(f.left(), 1500);
    f.seek_from_current(-400).unwrap();
    assert_eq!((f.current_offset, f.current_cluster), (1100, (1024, Cluster(3))));
    f.seek_from_current(-100).unwrap();
    assert_eq!((f.current_offset, f.current_cluster), (1000, (0, Cluster(2))));
    assert_eq!(f.seek_from_current(-1001), Err(FileError::InvalidOffset));
    assert_eq!(f.seek_from_current(2001), Err(FileError::InvalidOffset));
    assert_eq!(f.current_offset, 1000);
    f.seek_from_current(2000).unwrap();
    assert!(f.eof());
    assert_eq!(f.seek_from_end(3001), Err(FileError::InvalidOffset));
    f.seek_from_end(3000).unwrap();
    assert_eq!((f.current_offset, f.eof()), (0, false));
    f.update_length(7);
    assert_eq!((f.length, f.entry.size), (7, 7));
}

#[test]
fn ids_follow_one_another() {
    let mut generator = IdGenerator::new();
    assert_eq!(generator.get(), SearchId(0));
    assert_eq!(generator.get(), SearchId(1));
}

#[test]
fn attributes_are_bits() {
    let mut attributes = Attributes::create_from_fat(0x11);
    assert!(attributes.is_read_only() && attributes.is_directory());
    attributes.set_archive(false);
    assert_eq!(attributes, Attributes(0x11));
    attributes.set_archive(true);
    assert_eq!(attributes, Attributes(0x31));
    assert!(!Attributes(0x2E).is_read_only() && !Attributes(0x2F).is_directory());
}

#[test]
fn sizes_and_offsets_that_cannot_be() {
    assert!(ClusterSize::new(0).is_none());
    assert_eq!(ClusterSize::new(255).unwrap().get_bytes(), 130560);
    assert_eq!(EntryOffset::new(480).unwrap().get(), 480);
    assert!(EntryOffset::new(481).is_none());
}

#[test]
fn files_are_found_by_their_entries() {
    let f = file(0, 0, (0, Cluster(0)));
    let place = EntryPlace::new(&f.entry);
    assert_eq!(place, EntryPlace { block: BlockIdx(5), offset: 0 });
    let list = [
        ClusterDescriptor::new(VolumeIdx(0), Cluster(2), SearchId(3)),
        ClusterDescriptor::of_file(VolumeIdx(0), &f),
    ];
    assert_eq!(list[1].cluster, Cluster(2));
    assert_eq!(list[1].search_id, SearchId(0));
    assert!(list[1].compare_entry(VolumeIdx(0), place));
    assert!(!list[0].compare_entry(VolumeIdx(0), place));
    assert!(entry_already_open(&list, VolumeIdx(0), place));
    assert!(!entry_already_open(&list, VolumeIdx(1), place));
    let other = EntryPlace { block: BlockIdx(5), offset: 32 };
    assert!(!entry_already_open(&list, VolumeIdx(0), other));
}
