//! The volume manager on a device in memory, with a small file system of its own: block 0 of a
//! volume says how large the clusters are, block 1 is the root directory, and the clusters follow.
//! A directory is one block of sixteen entries.
use std::cell::{Cell, RefCell};
use std::rc::Rc;
use volume_mgr::blockdevice::{Block, BlockCount, BlockDevice, BlockIdx};
use volume_mgr::error::{Error, FilenameError};
use volume_mgr::filesystem::{
    Attributes, Cluster, DirEntry, Directory, EntryOffset, File, Mode, SearchId, ShortFileName,
    TimeSource, Timestamp, ROOT_DIR_CLUSTER,
};
use volume_mgr::volume::{
    BlockCache, ClusterSize, FatLayout, FatTable, FatType, FatVolume, Volume, VolumeIdx, VolumeType,
};
use volume_mgr::volume_mgr::VolumeManager;

#[derive(Debug, Clone, Copy, PartialEq)]
enum Broken {
    Read(u32),
    Write(u32),
}

#[derive(Clone)]
struct Memory {
    blocks: Rc<RefCell<Vec<[u8; 512]>>>,
    broken_read: Rc<Cell<Option<u32>>>,
    broken_write: Rc<Cell<Option<u32>>>,
    reads: Rc<RefCell<Vec<(u32, String)>>>,
    writes: Rc<RefCell<Vec<u32>>>,
}

impl BlockDevice for Memory {
    type Error = Broken;

    fn read(&self, blocks: &mut [Block], start: BlockIdx, reason: &str) -> Result<(), Broken> {
        self.reads.borrow_mut().push((start.0, reason.to_string()));
        if self.broken_read.get() == Some(start.0) {
            return Err(Broken::Read(start.0));
        }
        for (i, block) in blocks.iter_mut().enumerate() {
            block.contents = self.blocks.borrow()[start.0 as usize + i];
        }
        Ok(())
    }

    fn write(&self, blocks: &[Block], start: BlockIdx) -> Result<(), Broken> {
        self.writes.borrow_mut().push(start.0);
        if self.broken_write.get() == Some(start.0) {
            return Err(Broken::Write(start.0));
        }
        for (i, block) in blocks.iter().enumerate() {
            self.blocks.borrow_mut()[start.0 as usize + i] = block.contents;
        }
        Ok(())
    }
}

struct Clock;

const NOON: Timestamp = Timestamp {
    year_since_1970: 53,
    zero_indexed_month: 6,
    zero_indexed_day: 20,
    hours: 12,
    minutes: 0,
    seconds: 0,
};

const NEVER: Timestamp = Timestamp {
    year_since_1970: 0,
    zero_indexed_month: 0,
    zero_indexed_day: 0,
    hours: 0,
    minutes: 0,
    seconds: 0,
};

impl TimeSource for Clock {
    fn get_timestamp(&self) -> Timestamp {
        NOON
    }
}

const FREE: u32 = 0;
const LAST: u32 = 0xFFFF_FFFF;

#[derive(Clone, Debug)]
struct Table {
    lba_start: u32,
    blocks_per_cluster: u32,
    links: Vec<u32>,
    forgets_links: bool,
    updates: usize,
}

fn unpack(bytes: &[u8], block: u32, slot: u32) -> DirEntry {
    let word = |at: usize| {
        u32::from_le_bytes([bytes[at], bytes[at + 1], bytes[at + 2], bytes[at + 3]])
    };
    let mut contents = [0u8; 11];
    contents.copy_from_slice(&bytes[..11]);
    DirEntry {
        name: ShortFileName { contents },
        mtime: Timestamp { hours: bytes[20], ..NEVER },
        ctime: NEVER,
        attributes: Attributes(bytes[11]),
        cluster: Cluster(word(12)),
        size: word(16),
        entry_block: BlockIdx(block),
        entry_offset: EntryOffset::new(slot * 32).unwrap(),
    }
}

impl Table {
    fn dir_block(&self, dir: &Directory) -> u32 {
        if dir.cluster.0 == ROOT_DIR_CLUSTER {
            self.lba_start + 1
        } else {
            self.cluster_to_block(dir.cluster).0
        }
    }

    fn load<D: BlockDevice>(&self, device: &D, block: u32) -> Result<[u8; 512], Error<D::Error>> {
        let mut blocks = [Block::new()];
        device.read(&mut blocks, BlockIdx(block), "table").map_err(Error::DeviceError)?;
        Ok(blocks[0].contents)
    }

    fn store<D: BlockDevice>(
        &self,
        device: &D,
        block: u32,
        contents: [u8; 512],
    ) -> Result<(), Error<D::Error>> {
        device.write(&[Block { contents }], BlockIdx(block)).map_err(Error::DeviceError)
    }
}

impl FatTable for Table {
    fn parse_volume<D: BlockDevice>(
        block_device: &D,
        lba_start: BlockIdx,
        num_blocks: BlockCount,
    ) -> Result<FatVolume<Self>, Error<D::Error>> {
        let mut table = Table { lba_start: lba_start.0, blocks_per_cluster: 0, links: vec![], forgets_links: false, updates: 0 };
        let size = table.load(block_device, lba_start.0)?[13];
        let cluster_size = ClusterSize::new(size).ok_or(Error::FormatError("No clusters"))?;
        table.blocks_per_cluster = size as u32;
        table.links = vec![FREE; 2 + ((num_blocks.0 - 2) / size as u32) as usize];
        Ok(FatVolume { layout: FatLayout { fat_type: FatType::Fat16, cluster_size }, table })
    }

    fn create_from_str(name: &str) -> Result<ShortFileName, FilenameError> {
        if name.is_empty() {
            return Err(FilenameError::FilenameEmpty);
        }
        if name.len() > 11 {
            return Err(FilenameError::NameTooLong);
        }
        let mut contents = [b' '; 11];
        contents[..name.len()].copy_from_slice(name.as_bytes());
        Ok(ShortFileName { contents })
    }

    fn serialize(entry: &DirEntry, fat_type: FatType) -> [u8; 32] {
        assert_eq!(fat_type, FatType::Fat16);
        let mut bytes = [0u8; 32];
        bytes[..11].copy_from_slice(&entry.name.contents);
        bytes[11] = entry.attributes.0;
        bytes[12..16].copy_from_slice(&entry.cluster.0.to_le_bytes());
        bytes[16..20].copy_from_slice(&entry.size.to_le_bytes());
        bytes[20] = entry.mtime.hours;
        bytes
    }

    fn cluster_to_block(&self, cluster: Cluster) -> BlockIdx {
        BlockIdx(self.lba_start + 2 + (cluster.0 - 2) * self.blocks_per_cluster)
    }

    fn next_cluster<D: BlockDevice>(
        &self,
        _block_device: &D,
        cluster: Cluster,
        mut block_cache: BlockCache,
    ) -> (BlockCache, Result<Cluster, Error<D::Error>>) {
        // The cache is empty, or what the step before left
        if let Some(before) = block_cache.idx {
            assert_eq!(self.links[before.0 as usize], cluster.0);
        }
        block_cache.idx = Some(BlockIdx(cluster.0));
        let answer = match self.links[cluster.0 as usize] {
            LAST => Err(Error::EndOfFile),
            FREE => Err(Error::FormatError("Free cluster in chain")),
            next => Ok(Cluster(next)),
        };
        (block_cache, answer)
    }

    fn alloc_cluster<D: BlockDevice>(
        &self,
        _block_device: &D,
        prev_cluster: Option<Cluster>,
        zero: bool,
    ) -> (Self, Result<Cluster, Error<D::Error>>) {
        assert!(!zero);
        let mut table = self.clone();
        let free = match (2..self.links.len()).find(|c| self.links[*c] == FREE) {
            Some(free) => free,
            None => return (table, Err(Error::FormatError("No free cluster"))),
        };
        table.links[free] = LAST;
        if let (Some(prev), false) = (prev_cluster, self.forgets_links) {
            table.links[prev.0 as usize] = free as u32;
        }
        (table, Ok(Cluster(free as u32)))
    }

    fn truncate_cluster_chain<D: BlockDevice>(
        &self,
        _block_device: &D,
        cluster: Cluster,
    ) -> (Self, Result<(), Error<D::Error>>) {
        let mut table = self.clone();
        let mut next = std::mem::replace(&mut table.links[cluster.0 as usize], LAST);
        while next != LAST {
            next = std::mem::replace(&mut table.links[next as usize], FREE);
        }
        (table, Ok(()))
    }

    fn update_info_sector<D: BlockDevice>(
        &self,
        block_device: &D,
    ) -> (Self, Result<(), Error<D::Error>>) {
        let mut table = self.clone();
        table.updates += 1;
        (table, self.load(block_device, self.lba_start).map(|_| ()))
    }

    fn find_directory_entry<D: BlockDevice>(
        &self,
        block_device: &D,
        dir: &Directory,
        name: &str,
    ) -> Result<DirEntry, Error<D::Error>> {
        let wanted = Self::create_from_str(name).map_err(Error::FilenameError)?;
        let block = self.dir_block(dir);
        let bytes = self.load(block_device, block)?;
        for slot in 0..16 {
            let at = slot * 32;
            if bytes[at..at + 11] == wanted.contents {
                return Ok(unpack(&bytes[at..at + 32], block, slot as u32));
            }
        }
        Err(Error::FileNotFound)
    }

    fn iterate_dir<D: BlockDevice, G: FnMut(&DirEntry)>(
        &self,
        block_device: &D,
        dir: &Directory,
        mut func: G,
    ) -> Result<(), Error<D::Error>> {
        let block = self.dir_block(dir);
        let bytes = self.load(block_device, block)?;
        for slot in 0..16 {
            let at = slot * 32;
            if bytes[at] != 0 {
                func(&unpack(&bytes[at..at + 32], block, slot as u32));
            }
        }
        Ok(())
    }

    fn write_new_directory_entry<D: BlockDevice, T: TimeSource>(
        &self,
        block_device: &D,
        timesource: &T,
        dir: &Directory,
        name: ShortFileName,
        attributes: Attributes,
    ) -> (Self, Result<DirEntry, Error<D::Error>>) {
        let block = self.dir_block(dir);
        let written = self.load(block_device, block).and_then(|mut bytes| {
            let slot = (0..16).find(|s| bytes[s * 32] == 0).ok_or(Error::Unsupported)?;
            let entry = DirEntry {
                name,
                mtime: timesource.get_timestamp(),
                ctime: NEVER,
                attributes,
                cluster: Cluster(0),
                size: 0,
                entry_block: BlockIdx(block),
                entry_offset: EntryOffset::new(slot as u32 * 32).unwrap(),
            };
            let packed = Self::serialize(&entry, FatType::Fat16);
            bytes[slot * 32..slot * 32 + 32].copy_from_slice(&packed);
            self.store(block_device, block, bytes)?;
            Ok(entry)
        });
        (self.clone(), written)
    }

    fn delete_directory_entry<D: BlockDevice>(
        &self,
        block_device: &D,
        dir: &Directory,
        name: &str,
    ) -> Result<(), Error<D::Error>> {
        let entry = self.find_directory_entry(block_device, dir, name)?;
        let mut bytes = self.load(block_device, entry.entry_block.0)?;
        let at = entry.entry_offset.get() as usize;
        for byte in &mut bytes[at..at + 32] {
            *byte = 0;
        }
        self.store(block_device, entry.entry_block.0, bytes)
    }
}

type Manager = VolumeManager<Memory, Clock, 4, 4>;

/// Where the volume starts, and how many blocks it has: clusters 2 to 9 of two blocks each.
const VOLUME_START: u32 = 4;
const VOLUME_BLOCKS: u32 = 18;

/// The first block of cluster `n`.
fn cluster_block(n: u32) -> usize {
    (VOLUME_START + 2 + (n - 2) * 2) as usize
}

fn memory() -> Memory {
    let mut blocks = vec![[0u8; 512]; (VOLUME_START + VOLUME_BLOCKS) as usize];
    blocks[0][446] = 0x80;
    blocks[0][450] = 0x06;
    blocks[0][454..458].copy_from_slice(&VOLUME_START.to_le_bytes());
    blocks[0][458..462].copy_from_slice(&VOLUME_BLOCKS.to_le_bytes());
    blocks[0][510] = 0x55;
    blocks[0][511] = 0xAA;
    blocks[VOLUME_START as usize][13] = 2;
    Memory {
        blocks: Rc::new(RefCell::new(blocks)),
        broken_read: Rc::new(Cell::new(None)),
        broken_write: Rc::new(Cell::new(None)),
        reads: Rc::new(RefCell::new(vec![])),
        writes: Rc::new(RefCell::new(vec![])),
    }
}

fn set_up() -> (Memory, Manager, Volume<Table>) {
    let memory = memory();
    let mut manager = VolumeManager::new(memory.clone(), Clock);
    let volume = manager.get_volume(VolumeIdx(0)).unwrap();
    (memory, manager, volume)
}

fn table(volume: &Volume<Table>) -> &Table {
    let VolumeType::Fat(fat) = &volume.volume_type;
    &fat.table
}

fn table_mut(volume: &mut Volume<Table>) -> &mut Table {
    let VolumeType::Fat(fat) = &mut volume.volume_type;
    &mut fat.table
}

/// Puts a directory called `name` into the root directory, at cluster `cluster`.
fn add_sub_dir(memory: &Memory, slot: usize, name: &[u8], cluster: u32) {
    let mut blocks = memory.blocks.borrow_mut();
    let at = slot * 32;
    let root = &mut blocks[VOLUME_START as usize + 1];
    for byte in &mut root[at..at + 11] {
        *byte = b' ';
    }
    root[at..at + name.len()].copy_from_slice(name);
    root[at + 11] = 0x10;
    root[at + 12..at + 16].copy_from_slice(&cluster.to_le_bytes());
}

fn create(manager: &mut Manager, volume: &mut Volume<Table>, root: &Directory, name: &str) -> File {
    manager.open_file_in_dir(volume, root, name, Mode::ReadWriteCreate).unwrap()
}

fn pattern(count: usize) -> Vec<u8> {
    (0..count).map(|i| (i * 7 + i / 251 + 1) as u8).collect()
}

#[test]
fn volume_comes_from_the_boot_record() {
    let (memory, _manager, volume) = set_up();
    assert_eq!(volume.idx, VolumeIdx(0));
    assert_eq!(table(&volume).lba_start, 4);
    assert_eq!(table(&volume).links.len(), 10);
    let VolumeType::Fat(fat) = &volume.volume_type;
    assert_eq!(fat.bytes_per_cluster(), 1024);
    assert_eq!(fat.get_fat_type(), FatType::Fat16);
    assert_eq!(memory.reads.borrow()[0], (0, "read_mbr".to_string()));
    assert_eq!(memory.reads.borrow()[1].0, 4);
}

#[test]
fn volume_that_is_not_there() {
    let (memory, mut manager, _volume) = set_up();
    let found = |manager: &mut Manager, n| manager.get_volume::<Table>(VolumeIdx(n));
    assert!(matches!(found(&mut manager, 4), Err(Error::NoSuchVolume)));
    assert!(matches!(
        found(&mut manager, 1),
        Err(Error::FormatError("Partition type not supported"))
    ));
    memory.blocks.borrow_mut()[0][462] = 1;
    assert!(matches!(found(&mut manager, 1), Err(Error::FormatError("Invalid partition status"))));
    memory.blocks.borrow_mut()[4][13] = 0;
    assert!(matches!(found(&mut manager, 0), Err(Error::FormatError("No clusters"))));
    memory.blocks.borrow_mut()[0][511] = 0;
    assert!(matches!(found(&mut manager, 0), Err(Error::FormatError("Invalid MBR signature"))));
    memory.broken_read.set(Some(0));
    assert!(matches!(found(&mut manager, 0), Err(Error::DeviceError(Broken::Read(0)))));
}

#[test]
fn handles_are_open_when_any_are() {
    let (_memory, mut manager, mut volume) = set_up();
    assert!(!manager.has_open_handles());
    let root = manager.open_root_dir(&volume).unwrap();
    assert!(manager.has_open_handles());
    let file = create(&mut manager, &mut volume, &root, "A");
    assert!(manager.has_open_handles());
    manager.close_dir(&volume, root);
    assert!(manager.has_open_handles());
    manager.close_file(&volume, file).unwrap();
    assert!(!manager.has_open_handles());
}

#[test]
fn directory_is_opened_once() {
    let (memory, mut manager, volume) = set_up();
    add_sub_dir(&memory, 0, b"SUB", 9);
    let root = manager.open_root_dir(&volume).unwrap();
    assert_eq!(root.cluster, Cluster(ROOT_DIR_CLUSTER));
    assert_eq!(root.search_id, SearchId(0));
    assert!(matches!(manager.open_root_dir(&volume), Err(Error::DirAlreadyOpen)));
    let sub = manager.open_dir(&volume, &root, "SUB").unwrap();
    assert_eq!((sub.cluster, sub.search_id), (Cluster(9), SearchId(1)));
    assert!(matches!(manager.open_dir(&volume, &root, "SUB"), Err(Error::DirAlreadyOpen)));
    manager.close_dir(&volume, sub);
    let sub = manager.open_dir(&volume, &root, "SUB").unwrap();
    assert_eq!(sub.search_id, SearchId(2));
    manager.close_dir(&volume, root);
    assert!(manager.open_root_dir(&volume).is_ok());
}

#[test]
fn directories_are_limited() {
    let (memory, mut manager, volume) = set_up();
    for (slot, name) in [b"A", b"B", b"C", b"D"].iter().enumerate() {
        add_sub_dir(&memory, slot, *name, 5 + slot as u32);
    }
    let root = manager.open_root_dir(&volume).unwrap();
    let mut open = vec![];
    for name in ["A", "B", "C"] {
        open.push(manager.open_dir(&volume, &root, name).unwrap());
    }
    let reads = memory.reads.borrow().len();
    assert!(matches!(manager.open_dir(&volume, &root, "D"), Err(Error::TooManyOpenDirs)));
    assert!(matches!(manager.open_root_dir(&volume), Err(Error::TooManyOpenDirs)));
    assert_eq!(memory.reads.borrow().len(), reads);
    manager.close_dir(&volume, open.remove(1));
    let d = manager.open_dir(&volume, &root, "D").unwrap();
    assert_eq!(d.cluster, Cluster(8));
    manager.close_dir(&volume, open.remove(1));
    assert!(matches!(manager.open_dir(&volume, &root, "A"), Err(Error::DirAlreadyOpen)));
    assert!(manager.open_dir(&volume, &root, "C").is_ok());
}

#[test]
fn limits_can_be_chosen() {
    let mut manager: VolumeManager<Memory, Clock, 1, 0> =
        VolumeManager::new_with_limits(memory(), Clock);
    let mut volume = manager.get_volume::<Table>(VolumeIdx(0)).unwrap();
    let root = manager.open_root_dir(&volume).unwrap();
    assert!(matches!(manager.open_root_dir(&volume), Err(Error::TooManyOpenDirs)));
    assert!(matches!(
        manager.open_file_in_dir(&mut volume, &root, "A", Mode::ReadWriteCreate),
        Err(Error::TooManyOpenFiles)
    ));
}

#[test]
fn file_is_no_directory() {
    let (_memory, mut manager, mut volume) = set_up();
    let root = manager.open_root_dir(&volume).unwrap();
    let file = create(&mut manager, &mut volume, &root, "A");
    manager.close_file(&volume, file).unwrap();
    assert!(matches!(manager.open_dir(&volume, &root, "A"), Err(Error::OpenedDirAsFile)));
    assert!(matches!(manager.open_dir(&volume, &root, "B"), Err(Error::FileNotFound)));
}

#[test]
fn entries_are_found_and_listed() {
    let (memory, mut manager, mut volume) = set_up();
    add_sub_dir(&memory, 0, b"SUB", 9);
    let root = manager.open_root_dir(&volume).unwrap();
    let file = create(&mut manager, &mut volume, &root, "A");
    assert_eq!(file.entry.mtime, NOON);
    let entry = manager.find_directory_entry(&volume, &root, "SUB").unwrap();
    assert_eq!(entry.cluster, Cluster(9));
    assert!(manager.find_directory_entry(&volume, &root, "NONE").is_err());
    let mut names = vec![];
    manager.iterate_dir(&volume, &root, |entry| names.push(entry.name.contents[0])).unwrap();
    assert_eq!(names, [b'S', b'A']);
    memory.broken_read.set(Some(VOLUME_START + 1));
    assert!(matches!(
        manager.iterate_dir(&volume, &root, |_| ()),
        Err(Error::DeviceError(Broken::Read(5)))
    ));
}

#[test]
fn file_is_opened_once_by_name() {
    let (_memory, mut manager, mut volume) = set_up();
    let root = manager.open_root_dir(&volume).unwrap();
    let mut file = create(&mut manager, &mut volume, &root, "A");
    manager.write(&mut volume, &mut file, b"x").unwrap();
    for mode in [Mode::ReadOnly, Mode::ReadWriteAppend, Mode::ReadWriteCreateOrTruncate] {
        assert!(matches!(
            manager.open_file_in_dir(&mut volume, &root, "A", mode),
            Err(Error::FileAlreadyOpen)
        ));
    }
    manager.close_file(&volume, file).unwrap();
    assert!(manager.open_file_in_dir(&mut volume, &root, "A", Mode::ReadOnly).is_ok());
}

#[test]
fn file_is_opened_once_by_entry() {
    let (_memory, mut manager, mut volume) = set_up();
    let root = manager.open_root_dir(&volume).unwrap();
    let mut file = create(&mut manager, &mut volume, &root, "A");
    manager.write(&mut volume, &mut file, b"x").unwrap();
    manager.close_file(&volume, file).unwrap();
    let entry = manager.find_directory_entry(&volume, &root, "A").unwrap();
    let file = manager.open_dir_entry(&mut volume, entry, Mode::ReadOnly).unwrap();
    assert!(matches!(
        manager.open_dir_entry(&mut volume, entry, Mode::ReadOnly),
        Err(Error::FileAlreadyOpen)
    ));
    manager.close_file(&volume, file).unwrap();
    assert!(manager.open_dir_entry(&mut volume, entry, Mode::ReadOnly).is_ok());
}

#[test]
fn entries_that_are_not_opened_as_files() {
    let (memory, mut manager, mut volume) = set_up();
    add_sub_dir(&memory, 0, b"SUB", 9);
    let root = manager.open_root_dir(&volume).unwrap();
    let mut entry = manager.find_directory_entry(&volume, &root, "SUB").unwrap();
    assert!(matches!(
        manager.open_dir_entry(&mut volume, entry, Mode::ReadOnly),
        Err(Error::OpenedDirAsFile)
    ));
    let sub = manager.open_dir(&volume, &root, "SUB").unwrap();
    assert!(matches!(
        manager.open_dir_entry(&mut volume, entry, Mode::ReadOnly),
        Err(Error::DirAlreadyOpen)
    ));
    manager.close_dir(&volume, sub);
    entry.attributes = Attributes(0x01);
    assert!(matches!(
        manager.open_dir_entry(&mut volume, entry, Mode::ReadWriteAppend),
        Err(Error::ReadOnly)
    ));
    entry.attributes = Attributes(0x20);
    assert!(matches!(
        manager.open_dir_entry(&mut volume, entry, Mode::ReadWriteCreate),
        Err(Error::Unsupported)
    ));
    entry.attributes = Attributes(0x01);
    let file = manager.open_dir_entry(&mut volume, entry, Mode::ReadOnly).unwrap();
    assert_eq!(file.mode, Mode::ReadOnly);
    assert_eq!(file.current_cluster, (0, Cluster(9)));
}

#[test]
fn files_are_limited() {
    let (_memory, mut manager, mut volume) = set_up();
    let root = manager.open_root_dir(&volume).unwrap();
    let mut files = vec![];
    for name in ["A", "B", "C", "D"] {
        files.push(create(&mut manager, &mut volume, &root, name));
    }
    assert_eq!(files[3].search_id, SearchId(4));
    assert!(matches!(
        manager.open_file_in_dir(&mut volume, &root, "E", Mode::ReadWriteCreate),
        Err(Error::TooManyOpenFiles)
    ));
    let entry = files[0].entry;
    assert!(matches!(
        manager.open_dir_entry(&mut volume, entry, Mode::ReadOnly),
        Err(Error::TooManyOpenFiles)
    ));
    manager.close_file(&volume, files.remove(0)).unwrap();
    assert_eq!(create(&mut manager, &mut volume, &root, "E").search_id, SearchId(5));
}

#[test]
fn modes_decide_what_is_opened() {
    let (_memory, mut manager, mut volume) = set_up();
    let root = manager.open_root_dir(&volume).unwrap();
    for mode in [Mode::ReadOnly, Mode::ReadWriteAppend, Mode::ReadWriteTruncate] {
        assert!(matches!(
            manager.open_file_in_dir(&mut volume, &root, "A", mode),
            Err(Error::FileNotFound)
        ));
    }
    let mut file = manager
        .open_file_in_dir(&mut volume, &root, "A", Mode::ReadWriteCreateOrAppend)
        .unwrap();
    assert_eq!((file.mode, file.length), (Mode::ReadWriteCreate, 0));
    assert_eq!(manager.write(&mut volume, &mut file, b"hello").unwrap(), 5);
    manager.close_file(&volume, file).unwrap();

    assert!(matches!(
        manager.open_file_in_dir(&mut volume, &root, "A", Mode::ReadWriteCreate),
        Err(Error::FileAlreadyExists)
    ));
    let file = manager
        .open_file_in_dir(&mut volume, &root, "A", Mode::ReadWriteCreateOrAppend)
        .unwrap();
    assert_eq!((file.mode, file.length, file.current_offset), (Mode::ReadWriteAppend, 5, 5));
    manager.close_file(&volume, file).unwrap();

    let file = manager.open_file_in_dir(&mut volume, &root, "A", Mode::ReadOnly).unwrap();
    assert_eq!((file.mode, file.length, file.current_offset), (Mode::ReadOnly, 5, 0));
    manager.close_file(&volume, file).unwrap();

    let file = manager
        .open_file_in_dir(&mut volume, &root, "A", Mode::ReadWriteCreateOrTruncate)
        .unwrap();
    assert_eq!((file.mode, file.length, file.current_offset), (Mode::ReadWriteTruncate, 0, 0));
    assert_eq!(file.entry.size, 0);
    manager.close_file(&volume, file).unwrap();
    assert_eq!(manager.find_directory_entry(&volume, &root, "A").unwrap().size, 0);
}

#[test]
fn names_that_cannot_be_used() {
    let (_memory, mut manager, mut volume) = set_up();
    let root = manager.open_root_dir(&volume).unwrap();
    assert!(matches!(
        manager.open_file_in_dir(&mut volume, &root, "FAR TOO LONG", Mode::ReadWriteCreate),
        Err(Error::FilenameError(FilenameError::NameTooLong))
    ));
    assert!(matches!(
        manager.open_file_in_dir(&mut volume, &root, "", Mode::ReadOnly),
        Err(Error::FileNotFound)
    ));
}

#[test]
fn truncation_frees_the_chain_and_can_fail() {
    let (memory, mut manager, mut volume) = set_up();
    let root = manager.open_root_dir(&volume).unwrap();
    let mut file = create(&mut manager, &mut volume, &root, "A");
    assert_eq!(manager.write(&mut volume, &mut file, &pattern(2500)).unwrap(), 2500);
    manager.close_file(&volume, file).unwrap();
    assert_eq!(table(&volume).links[2..5], [3, 4, LAST]);
    memory.broken_write.set(Some(VOLUME_START + 1));
    assert!(matches!(
        manager.open_file_in_dir(&mut volume, &root, "A", Mode::ReadWriteTruncate),
        Err(Error::DeviceError(Broken::Write(5)))
    ));
    memory.broken_write.set(None);
    assert_eq!(table(&volume).links[2..5], [LAST, FREE, FREE]);
    let file = manager
        .open_file_in_dir(&mut volume, &root, "A", Mode::ReadWriteTruncate)
        .unwrap();
    assert_eq!(file.starting_cluster, Cluster(2));
    assert!(manager.open_file_in_dir(&mut volume, &root, "A", Mode::ReadOnly).is_err());
}

#[test]
fn what_was_written_is_read_back() {
    let (memory, mut manager, mut volume) = set_up();
    let root = manager.open_root_dir(&volume).unwrap();
    let mut file = create(&mut manager, &mut volume, &root, "A");
    let data = pattern(3000);
    assert_eq!(manager.write(&mut volume, &mut file, &data[..700]).unwrap(), 700);
    assert_eq!(manager.write(&mut volume, &mut file, &data[700..]).unwrap(), 2300);
    assert_eq!((file.length, file.current_offset), (3000, 3000));
    assert_eq!(file.entry.attributes, Attributes(0x20));
    assert_eq!(file.current_cluster, (2048, Cluster(4)));
    manager.close_file(&volume, file).unwrap();
    assert_eq!(memory.blocks.borrow()[cluster_block(2)][..], data[..512]);
    assert_eq!(memory.blocks.borrow()[cluster_block(4) + 1][..440], data[2560..]);

    let mut file = manager.open_file_in_dir(&mut volume, &root, "A", Mode::ReadOnly).unwrap();
    assert_eq!(file.entry.mtime.hours, 12);
    let mut buffer = vec![0u8; 4000];
    assert_eq!(manager.read(&volume, &mut file, &mut buffer[..100]).unwrap(), 100);
    assert_eq!(manager.read(&volume, &mut file, &mut buffer[100..1500]).unwrap(), 1400);
    assert_eq!(manager.read(&volume, &mut file, &mut buffer[1500..]).unwrap(), 1500);
    assert_eq!(buffer[..3000], data[..]);
    assert_eq!(buffer[3000..], [0u8; 1000]);
    assert_eq!(manager.read(&volume, &mut file, &mut buffer).unwrap(), 0);
    assert_eq!(file.current_offset, 3000);
}

#[test]
fn reading_goes_on_from_anywhere() {
    let (_memory, mut manager, mut volume) = set_up();
    let root = manager.open_root_dir(&volume).unwrap();
    let mut file = create(&mut manager, &mut volume, &root, "A");
    let data = pattern(3000);
    manager.write(&mut volume, &mut file, &data).unwrap();
    let mut byte = [0u8];
    // From the cluster that is remembered, and from the first one
    file.seek_from_end(2).unwrap();
    assert_eq!(file.current_cluster.0, 2048);
    manager.read(&volume, &mut file, &mut byte).unwrap();
    assert_eq!(byte[0], data[2998]);
    file.seek_from_current(-1).unwrap();
    file.current_cluster = (0, file.starting_cluster);
    manager.read(&volume, &mut file, &mut byte).unwrap();
    assert_eq!(byte[0], data[2998]);
    // Back to the start
    file.seek_from_end(2999).unwrap();
    assert_eq!(file.current_cluster, (0, Cluster(2)));
    manager.read(&volume, &mut file, &mut byte).unwrap();
    assert_eq!(byte[0], data[1]);
}

#[test]
fn reading_writes_nothing() {
    let (memory, mut manager, mut volume) = set_up();
    let root = manager.open_root_dir(&volume).unwrap();
    let mut file = create(&mut manager, &mut volume, &root, "A");
    manager.write(&mut volume, &mut file, &pattern(2000)).unwrap();
    file.seek_from_end(2000).unwrap();
    let writes = memory.writes.borrow().len();
    let mut buffer = [0u8; 2000];
    manager.read(&volume, &mut file, &mut buffer).unwrap();
    assert_eq!(memory.writes.borrow().len(), writes);
}

#[test]
fn reading_can_fail() {
    let (memory, mut manager, mut volume) = set_up();
    let root = manager.open_root_dir(&volume).unwrap();
    let mut file = create(&mut manager, &mut volume, &root, "A");
    let data = pattern(2000);
    manager.write(&mut volume, &mut file, &data).unwrap();
    file.seek_from_end(2000).unwrap();
    memory.broken_read.set(Some(cluster_block(2) as u32 + 1));
    let mut buffer = [0u8; 2000];
    assert!(matches!(
        manager.read(&volume, &mut file, &mut buffer),
        Err(Error::DeviceError(Broken::Read(7)))
    ));
    assert_eq!(file.current_offset, 512);
    assert_eq!(buffer[..512], data[..512]);
    assert_eq!(buffer[512..], [0u8; 1488]);
    memory.broken_read.set(None);
    // A chain that is shorter than the file
    file.length = 5000;
    let mut buffer = [0u8; 5000];
    assert!(matches!(manager.read(&volume, &mut file, &mut buffer), Err(Error::EndOfFile)));
    assert_eq!(file.current_offset, 2048);
    assert_eq!(file.current_cluster, (1024, Cluster(3)));
    assert_eq!(buffer[..1488], data[512..]);
}

#[test]
fn writing_stops_when_the_volume_is_full() {
    let (_memory, mut manager, mut volume) = set_up();
    let root = manager.open_root_dir(&volume).unwrap();
    let mut file = create(&mut manager, &mut volume, &root, "A");
    let data = pattern(10000);
    assert_eq!(manager.write(&mut volume, &mut file, &data).unwrap(), 8192);
    assert_eq!((file.length, file.current_offset), (8192, 8192));
    assert_eq!(manager.write(&mut volume, &mut file, &data).unwrap(), 0);
    let mut other = create(&mut manager, &mut volume, &root, "B");
    assert!(matches!(
        manager.write(&mut volume, &mut other, &data),
        Err(Error::FormatError("No free cluster"))
    ));
    file.seek_from_end(8192).unwrap();
    let mut buffer = vec![0u8; 8192];
    assert_eq!(manager.read(&volume, &mut file, &mut buffer).unwrap(), 8192);
    assert_eq!(buffer[..], data[..8192]);
}

#[test]
fn writing_stops_at_the_largest_size() {
    let (_memory, mut manager, mut volume) = set_up();
    let root = manager.open_root_dir(&volume).unwrap();
    let mut file = create(&mut manager, &mut volume, &root, "A");
    manager.write(&mut volume, &mut file, b"x").unwrap();
    // The last cluster of a file as large as can be
    file.length = u32::MAX - 3;
    file.current_offset = u32::MAX - 3;
    file.current_cluster = (u32::MAX - 1023, Cluster(2));
    assert_eq!(manager.write(&mut volume, &mut file, b"abcdef").unwrap(), 3);
    assert_eq!((file.length, file.current_offset), (u32::MAX, u32::MAX));
}

#[test]
fn writing_can_fail() {
    let (memory, mut manager, mut volume) = set_up();
    let root = manager.open_root_dir(&volume).unwrap();
    let mut file = create(&mut manager, &mut volume, &root, "A");
    let data = pattern(600);
    // The block cannot be written
    memory.broken_write.set(Some(cluster_block(2) as u32));
    assert!(matches!(
        manager.write(&mut volume, &mut file, &data),
        Err(Error::DeviceError(Broken::Write(6)))
    ));
    assert_eq!((file.length, file.starting_cluster), (0, Cluster(2)));
    // The entry cannot be written
    memory.broken_write.set(Some(VOLUME_START + 1));
    assert!(matches!(
        manager.write(&mut volume, &mut file, &data),
        Err(Error::DeviceError(Broken::Write(5)))
    ));
    assert_eq!((file.length, file.current_offset), (512, 512));
    memory.broken_write.set(None);
    assert_eq!(manager.write(&mut volume, &mut file, &data[512..]).unwrap(), 88);
    // The block cannot be read before a part of it is written
    memory.broken_read.set(Some(cluster_block(2) as u32 + 1));
    assert!(matches!(
        manager.write(&mut volume, &mut file, &data),
        Err(Error::DeviceError(Broken::Read(7)))
    ));
    // The count of free clusters cannot be written down
    memory.broken_read.set(Some(VOLUME_START));
    assert!(matches!(
        manager.write(&mut volume, &mut file, &data),
        Err(Error::DeviceError(Broken::Read(4)))
    ));
    assert_eq!(file.length, 1024);
}

#[test]
fn file_opened_to_be_read_is_not_written() {
    let (memory, mut manager, mut volume) = set_up();
    let root = manager.open_root_dir(&volume).unwrap();
    let mut file = create(&mut manager, &mut volume, &root, "A");
    manager.write(&mut volume, &mut file, b"hello").unwrap();
    manager.close_file(&volume, file).unwrap();
    let mut file = manager.open_file_in_dir(&mut volume, &root, "A", Mode::ReadOnly).unwrap();
    let writes = memory.writes.borrow().len();
    assert!(matches!(manager.write(&mut volume, &mut file, b"x"), Err(Error::ReadOnly)));
    assert_eq!(memory.writes.borrow().len(), writes);
}

#[test]
fn first_cluster_is_known_to_the_list() {
    let (_memory, mut manager, mut volume) = set_up();
    let root = manager.open_root_dir(&volume).unwrap();
    let mut file = create(&mut manager, &mut volume, &root, "A");
    assert_eq!(file.starting_cluster, Cluster(0));
    manager.write(&mut volume, &mut file, b"hello").unwrap();
    assert_eq!((file.starting_cluster, file.entry.cluster), (Cluster(2), Cluster(2)));
    let entry = manager.find_directory_entry(&volume, &root, "A").unwrap();
    assert_eq!(entry.cluster, Cluster(2));
    assert!(matches!(
        manager.open_dir_entry(&mut volume, entry, Mode::ReadOnly),
        Err(Error::FileAlreadyOpen)
    ));
    assert!(matches!(
        manager.delete_file_in_dir(&volume, &root, "A"),
        Err(Error::FileIsOpen)
    ));
}

#[test]
fn closed_file_is_deleted() {
    let (memory, mut manager, mut volume) = set_up();
    add_sub_dir(&memory, 0, b"SUB", 9);
    let root = manager.open_root_dir(&volume).unwrap();
    let mut file = create(&mut manager, &mut volume, &root, "A");
    manager.write(&mut volume, &mut file, b"hello").unwrap();
    assert!(matches!(manager.delete_file_in_dir(&volume, &root, "A"), Err(Error::FileIsOpen)));
    manager.close_file(&volume, file).unwrap();
    let other = create(&mut manager, &mut volume, &root, "B");
    assert!(manager.delete_file_in_dir(&volume, &root, "A").is_ok());
    assert!(matches!(manager.delete_file_in_dir(&volume, &root, "A"), Err(Error::FileNotFound)));
    assert!(manager.find_directory_entry(&volume, &root, "A").is_err());
    assert!(matches!(
        manager.delete_file_in_dir(&volume, &root, "SUB"),
        Err(Error::DeleteDirAsFile)
    ));
    assert!(manager.close_file(&volume, other).is_ok());
}

#[test]
fn block_numbers_do_not_run_over() {
    let (_memory, mut manager, mut volume) = set_up();
    let root = manager.open_root_dir(&volume).unwrap();
    let mut file = create(&mut manager, &mut volume, &root, "A");
    manager.write(&mut volume, &mut file, &pattern(600)).unwrap();
    table_mut(&mut volume).lba_start = u32::MAX - 2;
    file.seek_from_end(1).unwrap();
    let mut byte = [0u8];
    assert!(matches!(
        manager.read(&volume, &mut file, &mut byte),
        Err(Error::ConversionError)
    ));
}

#[test]
fn device_is_handed_out() {
    let (memory, mut manager, _volume) = set_up();
    manager.device().broken_read.set(Some(0));
    assert!(manager.get_volume::<Table>(VolumeIdx(0)).is_err());
    manager.device().blocks = Rc::new(RefCell::new(vec![]));
    let (device, clock) = manager.free();
    assert_eq!(device.blocks.borrow().len(), 0);
    assert_eq!(memory.blocks.borrow().len(), 22);
    assert_eq!(clock.get_timestamp(), NOON);
}

#[test]
fn writing_keeps_what_comes_before_and_other_blocks() {
    let (memory, mut manager, mut volume) = set_up();
    let root = manager.open_root_dir(&volume).unwrap();
    let mut file = create(&mut manager, &mut volume, &root, "A");
    let data = pattern(1500);
    manager.write(&mut volume, &mut file, &data).unwrap();
    let before = memory.blocks.borrow().clone();
    file.seek_from_end(900).unwrap();
    assert_eq!(manager.write(&mut volume, &mut file, &[0xEE; 50]).unwrap(), 50);
    assert_eq!((file.current_offset, file.length), (650, 1550));
    let after = memory.blocks.borrow().clone();
    for block in 0..after.len() {
        if block != cluster_block(2) + 1 && block != VOLUME_START as usize + 1 {
            assert_eq!(after[block], before[block]);
        }
    }
    let mut buffer = vec![0u8; 1500];
    file.seek_from_end(1550).unwrap();
    assert_eq!(manager.read(&volume, &mut file, &mut buffer).unwrap(), 1500);
    assert_eq!(buffer[..600], data[..600]);
    assert_eq!(buffer[600..650], [0xEE; 50]);
    assert_eq!(buffer[650..], data[650..]);
}

#[test]
fn block_written_from_its_start_is_filled_up_with_zeroes() {
    let (memory, mut manager, mut volume) = set_up();
    let root = manager.open_root_dir(&volume).unwrap();
    let mut file = create(&mut manager, &mut volume, &root, "A");
    manager.write(&mut volume, &mut file, &pattern(512)).unwrap();
    file.seek_from_end(512).unwrap();
    manager.write(&mut volume, &mut file, b"xyz").unwrap();
    assert_eq!(memory.blocks.borrow()[cluster_block(2)][..4], *b"xyz\0");
    assert_eq!(memory.blocks.borrow()[cluster_block(2)][511], 0);
}

#[test]
fn appending_stays_at_the_end() {
    let (_memory, mut manager, mut volume) = set_up();
    let root = manager.open_root_dir(&volume).unwrap();
    let mut file = create(&mut manager, &mut volume, &root, "A");
    manager.write(&mut volume, &mut file, b"one ").unwrap();
    manager.close_file(&volume, file).unwrap();
    let mut file = manager
        .open_file_in_dir(&mut volume, &root, "A", Mode::ReadWriteAppend)
        .unwrap();
    assert_eq!(file.current_offset, 4);
    manager.write(&mut volume, &mut file, b"two ").unwrap();
    manager.write(&mut volume, &mut file, b"three").unwrap();
    assert_eq!((file.current_offset, file.length), (13, 13));
    let mut buffer = [0u8; 13];
    file.seek_from_end(13).unwrap();
    manager.read(&volume, &mut file, &mut buffer).unwrap();
    assert_eq!(&buffer, b"one two three");
}

#[test]
fn chain_that_does_not_hold_together() {
    let (_memory, mut manager, mut volume) = set_up();
    let root = manager.open_root_dir(&volume).unwrap();
    let mut file = create(&mut manager, &mut volume, &root, "A");
    manager.write(&mut volume, &mut file, &pattern(1024)).unwrap();
    // The cluster that was allocated is not found
    table_mut(&mut volume).forgets_links = true;
    assert!(matches!(
        manager.write(&mut volume, &mut file, b"x"),
        Err(Error::AllocationError)
    ));
    assert_eq!((file.length, file.current_cluster), (1024, (0, Cluster(2))));
    // The chain leads to a free cluster
    table_mut(&mut volume).links[2] = FREE;
    assert!(matches!(
        manager.write(&mut volume, &mut file, b"x"),
        Err(Error::FormatError("Free cluster in chain"))
    ));
}

#[test]
fn ids_are_not_given_out_twice() {
    let (memory, mut manager, mut volume) = set_up();
    add_sub_dir(&memory, 0, b"SUB", 9);
    let root = manager.open_root_dir(&volume).unwrap();
    let a = create(&mut manager, &mut volume, &root, "A");
    let sub = manager.open_dir(&volume, &root, "SUB").unwrap();
    let b = create(&mut manager, &mut volume, &root, "B");
    assert_eq!(
        [root.search_id, a.search_id, sub.search_id, b.search_id],
        [SearchId(0), SearchId(1), SearchId(2), SearchId(3)]
    );
    // Closing one leaves the others
    manager.close_file(&volume, a).unwrap();
    manager.close_dir(&volume, sub);
    assert!(matches!(manager.open_root_dir(&volume), Err(Error::DirAlreadyOpen)));
    manager.close_file(&volume, b).unwrap();
    assert!(manager.has_open_handles());
    manager.close_dir(&volume, root);
    assert!(!manager.has_open_handles());
}

#[test]
fn refused_opening_changes_nothing() {
    let (_memory, mut manager, mut volume) = set_up();
    let root = manager.open_root_dir(&volume).unwrap();
    assert!(manager.open_root_dir(&volume).is_err());
    assert!(manager.open_dir(&volume, &root, "NONE").is_err());
    assert!(manager.open_file_in_dir(&mut volume, &root, "NONE", Mode::ReadOnly).is_err());
    // No id was used for what was refused
    let file = create(&mut manager, &mut volume, &root, "A");
    assert_eq!(file.search_id, SearchId(1));
    manager.close_file(&volume, file).unwrap();
    manager.close_dir(&volume, root);
    assert!(!manager.has_open_handles());
}

#[test]
fn file_does_not_grow_beyond_the_largest_size() {
    let (memory, mut manager, mut volume) = set_up();
    let root = manager.open_root_dir(&volume).unwrap();
    let mut file = create(&mut manager, &mut volume, &root, "A");
    manager.write(&mut volume, &mut file, b"hello").unwrap();
    file.length = u32::MAX - 1;
    file.seek_from_current(-5).unwrap();
    assert!(matches!(
        manager.write(&mut volume, &mut file, b"xy"),
        Err(Error::ConversionError)
    ));
    assert_eq!((file.length, file.current_offset), (u32::MAX - 1, 0));
    assert_eq!(memory.blocks.borrow()[cluster_block(2)][..2], *b"xy");
    assert_eq!(manager.write(&mut volume, &mut file, b"z").unwrap(), 1);
    assert_eq!(file.length, u32::MAX);
    file.mode = Mode::ReadOnly;
    assert!(matches!(manager.write(&mut volume, &mut file, b"z"), Err(Error::ReadOnly)));
}

#[test]
fn files_without_clusters_are_told_apart() {
    let (_memory, mut manager, mut volume) = set_up();
    let root = manager.open_root_dir(&volume).unwrap();
    for name in ["A", "B"] {
        let file = create(&mut manager, &mut volume, &root, name);
        manager.close_file(&volume, file).unwrap();
    }
    let a = manager.find_directory_entry(&volume, &root, "A").unwrap();
    let b = manager.find_directory_entry(&volume, &root, "B").unwrap();
    assert_eq!((a.cluster, b.cluster), (Cluster(0), Cluster(0)));
    let mut file = manager.open_dir_entry(&mut volume, a, Mode::ReadWriteAppend).unwrap();
    assert!(matches!(
        manager.open_dir_entry(&mut volume, a, Mode::ReadOnly),
        Err(Error::FileAlreadyOpen)
    ));
    let other = manager.open_dir_entry(&mut volume, b, Mode::ReadOnly).unwrap();
    // An entry that was found before the file was given a cluster is still that of the file
    manager.write(&mut volume, &mut file, b"x").unwrap();
    assert_eq!(file.starting_cluster, Cluster(2));
    assert!(matches!(
        manager.open_dir_entry(&mut volume, a, Mode::ReadOnly),
        Err(Error::FileAlreadyOpen)
    ));
    manager.close_file(&volume, other).unwrap();
    manager.close_file(&volume, file).unwrap();
}

#[test]
fn open_file_is_not_deleted_whatever_its_entry_says() {
    let (memory, mut manager, mut volume) = set_up();
    let root = manager.open_root_dir(&volume).unwrap();
    let mut file = create(&mut manager, &mut volume, &root, "A");
    // The file is given a cluster, but its entry is not written
    memory.broken_write.set(Some(VOLUME_START + 1));
    assert!(manager.write(&mut volume, &mut file, b"x").is_err());
    memory.broken_write.set(None);
    let entry = manager.find_directory_entry(&volume, &root, "A").unwrap();
    assert_eq!((file.starting_cluster, entry.cluster), (Cluster(2), Cluster(0)));
    assert!(matches!(manager.delete_file_in_dir(&volume, &root, "A"), Err(Error::FileIsOpen)));
    assert!(matches!(
        manager.open_file_in_dir(&mut volume, &root, "A", Mode::ReadOnly),
        Err(Error::FileAlreadyOpen)
    ));
    manager.close_file(&volume, file).unwrap();
    assert!(manager.delete_file_in_dir(&volume, &root, "A").is_ok());
}

#[test]
fn volume_changes_only_with_its_table() {
    let (_memory, mut manager, mut volume) = set_up();
    let root = manager.open_root_dir(&volume).unwrap();
    let mut file = create(&mut manager, &mut volume, &root, "A");
    manager.write(&mut volume, &mut file, &pattern(600)).unwrap();
    assert_eq!(table(&volume).updates, 2);
    manager.close_file(&volume, file).unwrap();
    let links = table(&volume).links.clone();
    assert!(manager
        .open_file_in_dir(&mut volume, &root, "A", Mode::ReadWriteCreate)
        .is_err());
    let mut file = manager.open_file_in_dir(&mut volume, &root, "A", Mode::ReadOnly).unwrap();
    assert!(manager.write(&mut volume, &mut file, b"x").is_err());
    assert_eq!((table(&volume).links.clone(), table(&volume).updates), (links, 2));
}

#[test]
fn splitting_a_read_changes_nothing() {
    let (_memory, mut manager, mut volume) = set_up();
    let root = manager.open_root_dir(&volume).unwrap();
    let mut file = create(&mut manager, &mut volume, &root, "A");
    manager.write(&mut volume, &mut file, &pattern(2500)).unwrap();
    let mut whole = vec![0u8; 2600];
    file.seek_from_end(2400).unwrap();
    assert_eq!(manager.read(&volume, &mut file, &mut whole).unwrap(), 2400);
    let mut parts = vec![0u8; 2600];
    file.seek_from_end(2400).unwrap();
    assert_eq!(manager.read(&volume, &mut file, &mut parts[..1100]).unwrap(), 1100);
    assert_eq!(manager.read(&volume, &mut file, &mut parts[1100..]).unwrap(), 1300);
    assert_eq!(whole, parts);
    assert_eq!(file.current_offset, 2500);
}
