//! The Volume Manager handles partitions and open files on a block device.
use crate::blockdevice::{
    copy_bytes, Block, BlockCount, BlockDevice, BlockIdx, BLOCK_LEN, BLOCK_LEN_U32,
};
use crate::error::Error;
use crate::exchange;
use crate::exchange::{Exchange, Host};
use crate::filesystem::{
    Attributes, Cluster, DirEntry, Directory, File, IdGenerator, Mode, TimeSource, DIR_ENTRY_LEN,
    MAX_FILE_SIZE, RESERVED_ENTRIES, ROOT_DIR_CLUSTER,
};
use crate::locate;
use crate::mbr;
use crate::mbr::{is_supported, read_partition};
use crate::open_list;
use crate::open_list::{
    cluster_already_open, cluster_position_by_id, entry_already_open, ClusterDescriptor, EntryPlace,
    OpenList,
};
use crate::opening;
use crate::opening::{DirOpened, EntryStored, FileOpened};
use crate::reading;
use crate::record;
use crate::state::ManagerState;
use crate::volume::{BlockCache, FatTable, FatType, FatVolume, Volume, VolumeIdx, VolumeType};
use crate::writing;
use crate::writing::{ChunkEnd, ChunkOutcome, Prepared, Spot, SpotFound, StepTaken};
use vstd::prelude::*;

verus! {

/// A `VolumeManager` wraps a block device and gives access to the volumes within it. At most
/// `MAX_DIRS` directories and `MAX_FILES` files can be open at a time.
pub struct VolumeManager<
    D: BlockDevice,
    T: TimeSource,
    const MAX_DIRS: usize,
    const MAX_FILES: usize,
> {
    host: Host<D, T>,
    id_generator: IdGenerator,
    open_dirs: OpenList<MAX_DIRS>,
    open_files: OpenList<MAX_FILES>,
}

impl<D: BlockDevice, T: TimeSource, const MAX_DIRS: usize, const MAX_FILES: usize> View for
    VolumeManager<D, T, MAX_DIRS, MAX_FILES> {
    type V = ManagerState<D::Error>;

    closed spec fn view(&self) -> ManagerState<D::Error> {
        ManagerState {
            open_dirs: self.open_dirs@,
            open_files: self.open_files@,
            next_id: self.id_generator.next(),
            log: self.host.log(),
        }
    }
}

impl<D: BlockDevice, T: TimeSource> VolumeManager<D, T, 4, 4> {
    /// Create a new Volume Manager using a generic `BlockDevice`. From this
    /// object we can open volumes (partitions) and with those we can open
    /// files.
    ///
    /// This creates a `VolumeManager` with default values
    /// MAX_DIRS = 4, MAX_FILES = 4. Call `VolumeManager::new_with_limits(block_device, timesource)`
    /// if you need different limits.
    pub fn new(block_device: D, timesource: T) -> (manager: Self)
        ensures
            manager.block_device() == block_device,
            manager.timesource() == timesource,
            manager@ == ManagerState::<D::Error>::initial(),
    {
        Self::new_with_limits(block_device, timesource)
    }
}

impl<
    D: BlockDevice,
    T: TimeSource,
    const MAX_DIRS: usize,
    const MAX_FILES: usize,
> VolumeManager<D, T, MAX_DIRS, MAX_FILES> {
    /// The block device.
    pub closed spec fn block_device(&self) -> D {
        self.host.block_device()
    }

    /// The clock.
    pub closed spec fn timesource(&self) -> T {
        self.host.timesource()
    }

    /// The two have the same device and the same clock.
    pub open spec fn same_host(&self, other: Self) -> bool {
        &&& self.block_device() == other.block_device()
        &&& self.timesource() == other.timesource()
    }

    /// The two differ in no more than the record of exchanges.
    pub open spec fn same_but_log(&self, other: Self) -> bool {
        &&& self.same_host(other)
        &&& self@.open_dirs == other@.open_dirs
        &&& self@.open_files == other@.open_files
        &&& self@.next_id == other@.next_id
    }

    /// What was put on record since `before` took place: the calls were made, on the device and the
    /// clock, and on a table that was `first` then and is `last` now.
    pub open spec fn did<F: FatTable>(&self, before: Self, first: F, last: F) -> bool {
        exchange::happened(
            self@.log,
            before@.log.len() as int,
            self@.log.len() as int,
            before.block_device(),
            before.timesource(),
            first,
            last,
        )
    }

    /// At first, nothing was done.
    proof fn lemma_did_nothing<F: FatTable>(start: Self, table: F)
        ensures
            start.did(start, table, table),
    {
        exchange::lemma_nothing_happened(
            start@.log,
            start@.log.len() as int,
            start.block_device(),
            start.timesource(),
            table,
            table,
        );
    }

    /// What was done up to `earlier`, and one more call, was done one after another.
    proof fn lemma_did_one_more<F: FatTable>(
        start: Self,
        earlier: Self,
        later: Self,
        first: F,
        between: F,
        last: F,
    )
        requires
            earlier.did(start, first, between),
            earlier.same_host(start),
            record::extends(earlier@.log, start@.log),
            record::extends(later@.log, earlier@.log),
            later@.log.len() == earlier@.log.len() + 1,
            exchange::took_place(
                later@.log.last(),
                start.block_device(),
                start.timesource(),
                between,
                last,
            ),
        ensures
            later.did(start, first, last),
    {
        exchange::lemma_one_more_happened(
            earlier@.log,
            later@.log,
            start@.log.len() as int,
            start.block_device(),
            start.timesource(),
            first,
            between,
            last,
        );
    }

    /// One call was made.
    proof fn lemma_did_one<F: FatTable>(start: Self, later: Self, first: F, last: F)
        requires
            record::extends(later@.log, start@.log),
            later@.log.len() == start@.log.len() + 1,
            exchange::took_place(
                later@.log.last(),
                start.block_device(),
                start.timesource(),
                first,
                last,
            ),
        ensures
            later.did(start, first, last),
    {
        Self::lemma_did_nothing(start, first);
        Self::lemma_did_one_more(start, start, later, first, first, last);
    }

    /// What was done up to `earlier`, and from there on, was done one after another.
    proof fn lemma_did_on<F: FatTable>(
        start: Self,
        earlier: Self,
        later: Self,
        first: F,
        between: F,
        last: F,
    )
        requires
            earlier.did(start, first, between),
            earlier.same_host(start),
            later.did(earlier, between, last),
            record::extends(earlier@.log, start@.log),
            record::extends(later@.log, earlier@.log),
        ensures
            later.did(start, first, last),
    {
        exchange::lemma_happened_on(
            earlier@.log,
            later@.log,
            start@.log.len() as int,
            later@.log.len() as int,
            start.block_device(),
            start.timesource(),
            first,
            between,
            last,
        );
    }

    /// Create a new Volume Manager using a generic `BlockDevice`. From this
    /// object we can open volumes (partitions) and with those we can open
    /// files.
    pub fn new_with_limits(block_device: D, timesource: T) -> (manager: Self)
        ensures
            manager.block_device() == block_device,
            manager.timesource() == timesource,
            manager@ == ManagerState::<D::Error>::initial(),
    {
        VolumeManager {
            host: Host::new(block_device, timesource),
            id_generator: IdGenerator::new(),
            open_dirs: OpenList::new(),
            open_files: OpenList::new(),
        }
    }

    /// Temporarily get access to the underlying block device.
    pub fn device(&mut self) -> (device: &mut D)
        ensures
            *device == old(self).block_device(),
            final(self).block_device() == *final(device),
            final(self).timesource() == old(self).timesource(),
            final(self)@ == old(self)@.with_log(old(self)@.log.push(Exchange::HandedOut)),
    {
        self.host.device()
    }

    /// Get a volume (or partition) based on entries in the Master Boot
    /// Record. We do not support GUID Partition Table disks. Nor do we
    /// support any concept of drive letters - that is for a higher layer to
    /// handle.
    pub fn get_volume<F: FatTable>(&mut self, volume_idx: VolumeIdx) -> (result: Result<
        Volume<F>,
        Error<D::Error>,
    >)
        ensures
            final(self).same_but_log(*old(self)),
            record::extends(final(self)@.log, old(self)@.log),
            ({
                let found = mbr::volume_found(
                    final(self)@.log,
                    old(self)@.log.len() as int,
                    volume_idx,
                );
                &&& found is Some
                &&& found->0.next == final(self)@.log.len()
                &&& match found->0.answer {
                    Ok(layout) => result matches Ok(volume) && volume.idx == volume_idx
                        && volume.layout() == layout,
                    Err(error) => result == Err::<Volume<F>, Error<D::Error>>(error),
                }
            }),
            result matches Ok(volume) ==> exists|lba_start: BlockIdx, num_blocks: BlockCount|
                {
                    &&& #[trigger] call_ensures(
                        F::parse_volume::<D>,
                        (&old(self).block_device(), lba_start, num_blocks),
                        Ok::<FatVolume<F>, Error<D::Error>>(volume.volume_type->Fat_0),
                    )
                    &&& record::answered_parse(
                        final(self)@.log,
                        old(self)@.log.len() as int + 1,
                        lba_start,
                        num_blocks,
                    ) is Some
                },
            forall|table: F| #[trigger] final(self).did(*old(self), table, table),
    {
        let answer = self.host.read_block(BlockIdx(0), "read_mbr");
        let ghost seen = *self;
        assert forall|table: F| #[trigger] self.did(*old(self), table, table) by {
            Self::lemma_did_one(*old(self), *self, table, table);
        }
        let block = match answer {
            Ok(block) => block,
            Err(error) => {
                return Err(Error::DeviceError(error));
            },
        };
        let partition = match read_partition(&block, volume_idx) {
            Ok(partition) => partition,
            Err(error) => {
                return Err(error);
            },
        };
        if !is_supported(partition.part_type) {
            return Err(Error::FormatError("Partition type not supported"));
        }
        let parsed = self.host.parse_volume::<F>(partition.lba_start, partition.num_blocks);
        assert forall|table: F| #[trigger] self.did(*old(self), table, table) by {
            Self::lemma_did_one_more(*old(self), seen, *self, table, table, table);
        }
        match parsed {
            Ok(fat) => Ok(Volume { idx: volume_idx, volume_type: VolumeType::Fat(fat) }),
            Err(error) => Err(error),
        }
    }

    /// Open the volume's root directory.
    ///
    /// You can then read the directory entries with `iterate_dir` and `open_file_in_dir`.
    pub fn open_root_dir<F: FatTable>(&mut self, volume: &Volume<F>) -> (result: Result<
        Directory,
        Error<D::Error>,
    >)
        ensures
            final(self).same_host(*old(self)),
            ({
                let opened = opening::dir_opened(
                    old(self)@,
                    MAX_DIRS as nat,
                    volume.idx,
                    Cluster(0xFFFF_FFFC),
                );
                &&& opened.after == final(self)@
                &&& opened.answer == result
            }),
    {
        if self.open_dirs.is_full() {
            return Err(Error::TooManyOpenDirs);
        }
        self.add_dir(volume.idx, Cluster(ROOT_DIR_CLUSTER))
    }

    /// Opens a directory that starts with that cluster, unless it is open, where the list is not
    /// full.
    fn add_dir(&mut self, volume_idx: VolumeIdx, cluster: Cluster) -> (result: Result<
        Directory,
        Error<D::Error>,
    >)
        requires
            old(self)@.open_dirs.len() != MAX_DIRS,
        ensures
            final(self).same_host(*old(self)),
            ({
                let opened = opening::dir_opened(
                    old(self)@,
                    MAX_DIRS as nat,
                    volume_idx,
                    cluster,
                );
                &&& opened.after == final(self)@
                &&& opened.answer == result
            }),
    {
        proof {
            use_type_invariant(&self.open_dirs);
        }
        // Check it's not already open
        if cluster_already_open(self.open_dirs.as_slice(), volume_idx, cluster) {
            return Err(Error::DirAlreadyOpen);
        }
        let search_id = self.id_generator.get();
        // Remember this open directory
        match self.open_dirs.push(ClusterDescriptor::new(volume_idx, cluster, search_id)) {
            Ok(()) => Ok(Directory { cluster, search_id }),
            Err(_) => Err(Error::TooManyOpenDirs),
        }
    }

    /// Open a directory.
    ///
    /// You can then read the directory entries with `iterate_dir` and `open_file_in_dir`.
    pub fn open_dir<F: FatTable>(
        &mut self,
        volume: &Volume<F>,
        parent_dir: &Directory,
        name: &str,
    ) -> (result: Result<Directory, Error<D::Error>>)
        ensures
            final(self).same_host(*old(self)),
            record::extends(final(self)@.log, old(self)@.log),
            opening::named_dir_opened(
                final(self)@.log,
                old(self)@,
                MAX_DIRS as nat,
                volume.idx,
                *parent_dir,
                name@,
            ) == Some((DirOpened { after: final(self)@, answer: result })),
            final(self).did(*old(self), volume.table(), volume.table()),
    {
        if self.open_dirs.is_full() {
            proof {
                Self::lemma_did_nothing(*self, volume.table());
            }
            return Err(Error::TooManyOpenDirs);
        }
        proof {
            use_type_invariant(&self.open_dirs);
        }
        // Open the directory
        let VolumeType::Fat(fat) = &volume.volume_type;
        let found = self.host.find_directory_entry(&fat.table, parent_dir, name);
        proof {
            Self::lemma_did_one(*old(self), *self, volume.table(), volume.table());
        }
        assert(self@.log =~= self@.log.take(old(self)@.log.len() as int + 1));
        let dir_entry = match found {
            Ok(dir_entry) => dir_entry,
            Err(error) => {
                return Err(error);
            },
        };
        if !dir_entry.attributes.is_directory() {
            return Err(Error::OpenedDirAsFile);
        }
        self.add_dir(volume.idx, dir_entry.cluster)
    }

    /// Close a directory. You cannot perform operations on an open directory
    /// and so must close it if you want to do something with it.
    pub fn close_dir<F: FatTable>(&mut self, volume: &Volume<F>, dir: Directory)
        requires
            open_list::has_id(old(self)@.open_dirs, dir.search_id),
        ensures
            final(self).same_host(*old(self)),
            final(self)@ == (ManagerState {
                open_dirs: open_list::without_id(old(self)@.open_dirs, dir.search_id),
                ..old(self)@
            }),
    {
        // We should never be in a situation where we're attempting to close a dir
        // with an ID which doesn't exist in our open dirs list.
        if let Some(idx_to_close) = cluster_position_by_id(
            self.open_dirs.as_slice(),
            dir.search_id,
        ) {
            proof {
                open_list::lemma_position_of(
                    self@.open_dirs,
                    dir.search_id,
                    idx_to_close as int,
                );
            }
            let _ = self.open_dirs.remove(idx_to_close);
        }
    }

    /// Look in a directory for a named file.
    pub fn find_directory_entry<F: FatTable>(
        &mut self,
        volume: &Volume<F>,
        dir: &Directory,
        name: &str,
    ) -> (result: Result<DirEntry, Error<D::Error>>)
        ensures
            final(self).same_host(*old(self)),
            final(self)@ == old(self)@.with_log(
                old(self)@.log.push(
                    Exchange::FindDirectoryEntry { dir: *dir, name: name@, answer: result },
                ),
            ),
            call_ensures(
                F::find_directory_entry::<D>,
                (&volume.table(), &old(self).block_device(), dir, name),
                result,
            ),
    {
        let VolumeType::Fat(fat) = &volume.volume_type;
        self.host.find_directory_entry(&fat.table, dir, name)
    }

    /// Call a callback function for each directory entry in a directory.
    pub fn iterate_dir<F: FatTable, G: FnMut(&DirEntry)>(
        &mut self,
        volume: &Volume<F>,
        dir: &Directory,
        func: G,
    ) -> (result: Result<(), Error<D::Error>>)
        ensures
            final(self).same_host(*old(self)),
            final(self)@ == old(self)@.with_log(
                old(self)@.log.push(Exchange::IterateDir { dir: *dir, answer: result }),
            ),
            call_ensures(
                F::iterate_dir::<D, G>,
                (&volume.table(), &old(self).block_device(), dir, func),
                result,
            ),
    {
        let VolumeType::Fat(fat) = &volume.volume_type;
        self.host.iterate_dir(&fat.table, dir, func)
    }

    /// Open a file from DirEntry. This is obtained by calling iterate_dir. A file can only be
    /// opened once.
    pub fn open_dir_entry<F: FatTable>(
        &mut self,
        volume: &mut Volume<F>,
        dir_entry: DirEntry,
        mode: Mode,
    ) -> (result: Result<File, Error<D::Error>>)
        ensures
            final(self).same_host(*old(self)),
            record::extends(final(self)@.log, old(self)@.log),
            final(volume).same_but_table(*old(volume)),
            result matches Ok(file) ==> file.valid(),
            opening::entry_opened(
                final(self)@.log,
                old(self)@,
                MAX_FILES as nat,
                old(volume).idx,
                old(volume).layout().fat_type,
                dir_entry,
                mode,
            ) == Some((FileOpened { after: final(self)@, answer: result })),
            final(self).did(*old(self), old(volume).table(), final(volume).table()),
            opening::entry_leaves_table(
                old(self)@,
                MAX_FILES as nat,
                old(volume).idx,
                dir_entry,
                mode,
            ) ==> *final(volume) == *old(volume),
    {
        proof {
            Self::lemma_did_nothing(*self, volume.table());
        }
        if self.open_files.is_full() {
            return Err(Error::TooManyOpenFiles);
        }
        proof {
            use_type_invariant(&self.open_files);
        }

        // Check it's not already open
        if cluster_already_open(self.open_dirs.as_slice(), volume.idx, dir_entry.cluster) {
            return Err(Error::DirAlreadyOpen);
        }
        let place = EntryPlace::new(&dir_entry);
        if entry_already_open(self.open_files.as_slice(), volume.idx, place) {
            return Err(Error::FileAlreadyOpen);
        }
        // Files that have no cluster yet have none in common
        if dir_entry.cluster.0 >= RESERVED_ENTRIES && cluster_already_open(
            self.open_files.as_slice(),
            volume.idx,
            dir_entry.cluster,
        ) {
            return Err(Error::FileAlreadyOpen);
        }
        if dir_entry.attributes.is_directory() {
            return Err(Error::OpenedDirAsFile);
        }
        if dir_entry.attributes.is_read_only() && mode != Mode::ReadOnly {
            return Err(Error::ReadOnly);
        }
        let mode = solve_mode_variant(mode, true);
        let search_id = self.id_generator.get();
        let mut file = File {
            starting_cluster: dir_entry.cluster,
            current_cluster: (0, dir_entry.cluster),
            current_offset: 0,
            length: dir_entry.size,
            mode,
            entry: dir_entry,
            search_id,
        };
        match mode {
            Mode::ReadOnly => {},
            Mode::ReadWriteAppend => {
                // seek_from_end with 0 can't fail
                let moved = file.seek_from_end(0);
                assert(moved is Ok);
            },
            Mode::ReadWriteTruncate => {
                let VolumeType::Fat(fat) = &mut volume.volume_type;
                let fat_type = fat.get_fat_type();
                let truncated = self.host.truncate_cluster_chain(
                    &mut fat.table,
                    file.starting_cluster,
                );
                let ghost after_cut = *self;
                let ghost table = volume.table();
                proof {
                    Self::lemma_did_one(*old(self), *self, old(volume).table(), table);
                }
                assert(self@.log =~= self@.log.take(old(self)@.log.len() as int + 1));
                if let Err(error) = truncated {
                    return Err(error);
                }
                file.update_length(0);
                let stored = self.write_entry_to_disk::<F>(fat_type, &file.entry);
                proof {
                    assert(self.did(after_cut, table, table));
                    Self::lemma_did_on(
                        *old(self),
                        after_cut,
                        *self,
                        old(volume).table(),
                        table,
                        table,
                    );
                }
                assert(self@.log =~= self@.log.take(self@.log.len() as int));
                if let Err(error) = stored {
                    return Err(error);
                }
            },
            _ => {
                return Err(Error::Unsupported);
            },
        }

        // Remember this open file
        let descriptor = ClusterDescriptor::of_file(volume.idx, &file);
        match self.open_files.push(descriptor) {
            Ok(()) => Ok(file),
            Err(_) => Err(Error::TooManyOpenDirs),
        }
    }

    /// Open a file with the given full path. A file can only be opened once.
    pub fn open_file_in_dir<F: FatTable>(
        &mut self,
        volume: &mut Volume<F>,
        dir: &Directory,
        name: &str,
        mode: Mode,
    ) -> (result: Result<File, Error<D::Error>>)
        ensures
            final(self).same_host(*old(self)),
            record::extends(final(self)@.log, old(self)@.log),
            final(volume).same_but_table(*old(volume)),
            result matches Ok(file) ==> file.valid(),
            opening::file_opened(
                final(self)@.log,
                old(self)@,
                MAX_FILES as nat,
                old(volume).idx,
                old(volume).layout().fat_type,
                *dir,
                name@,
                mode,
            ) == Some((FileOpened { after: final(self)@, answer: result })),
            final(self).did(*old(self), old(volume).table(), final(volume).table()),
            opening::leaves_table(
                final(self)@.log,
                old(self)@,
                MAX_FILES as nat,
                old(volume).idx,
                *dir,
                name@,
                mode,
            ) ==> *final(volume) == *old(volume),
    {
        let VolumeType::Fat(fat) = &volume.volume_type;
        let found = self.host.find_directory_entry(&fat.table, dir, name);
        let ghost seen = *self;
        let ghost table = volume.table();
        proof {
            Self::lemma_did_one(*old(self), *self, table, table);
        }
        assert(self@.log =~= self@.log.take(old(self)@.log.len() as int + 1));
        if self.open_files.is_full() {
            return Err(Error::TooManyOpenFiles);
        }
        proof {
            use_type_invariant(&self.open_files);
        }
        match found {
            Ok(dir_entry) => {
                if cluster_already_open(
                    self.open_files.as_slice(),
                    volume.idx,
                    dir_entry.cluster,
                ) {
                    return Err(Error::FileAlreadyOpen);
                }
                let mode = solve_mode_variant(mode, true);
                if mode == Mode::ReadWriteCreate {
                    return Err(Error::FileAlreadyExists);
                }
                // By name, files are told apart by their first cluster. Those that have none yet
                // are not: while one of them is open, the others can only be created.
                let result = self.open_dir_entry(volume, dir_entry, mode);
                proof {
                    Self::lemma_did_on(
                        *old(self),
                        seen,
                        *self,
                        table,
                        table,
                        volume.table(),
                    );
                }
                assert(self@.log.take(old(self)@.log.len() as int + 1) =~= seen@.log);
                result
            },
            Err(_) => {
                let mode = solve_mode_variant(mode, false);
                if mode != Mode::ReadWriteCreate {
                    return Err(Error::FileNotFound);
                }
                let result = self.create_file(volume, dir, name);
                proof {
                    Self::lemma_did_on(
                        *old(self),
                        seen,
                        *self,
                        table,
                        table,
                        volume.table(),
                    );
                }
                assert(self@.log.take(old(self)@.log.len() as int + 1) =~= seen@.log);
                result
            },
        }
    }

    /// Creates a file and opens it, where the list is not full.
    fn create_file<F: FatTable>(
        &mut self,
        volume: &mut Volume<F>,
        dir: &Directory,
        name: &str,
    ) -> (result: Result<File, Error<D::Error>>)
        requires
            old(self)@.open_files.len() < MAX_FILES,
        ensures
            final(self).same_host(*old(self)),
            record::extends(final(self)@.log, old(self)@.log),
            final(volume).same_but_table(*old(volume)),
            opening::file_created(
                final(self)@.log,
                old(self)@,
                old(volume).idx,
                *dir,
                name@,
            ) == Some((FileOpened { after: final(self)@, answer: result })),
            final(self).did(*old(self), old(volume).table(), final(volume).table()),
            record::answered_short_name(
                final(self)@.log,
                old(self)@.log.len() as int,
                name@,
            ) matches Some(Err(_)) ==> *final(volume) == *old(volume),
    {
        let named = self.host.create_from_str::<F>(name);
        let ghost after_naming = *self;
        proof {
            Self::lemma_did_one(*old(self), *self, volume.table(), volume.table());
        }
        assert(self@.log =~= self@.log.take(old(self)@.log.len() as int + 1));
        let file_name = match named {
            Ok(file_name) => file_name,
            Err(error) => {
                return Err(Error::FilenameError(error));
            },
        };
        let att = Attributes::create_from_fat(0);
        let VolumeType::Fat(fat) = &mut volume.volume_type;
        let written = self.host.write_new_directory_entry(&mut fat.table, dir, file_name, att);
        proof {
            Self::lemma_did_one_more(
                *old(self),
                after_naming,
                *self,
                old(volume).table(),
                old(volume).table(),
                volume.table(),
            );
        }
        assert(self@.log =~= self@.log.take(old(self)@.log.len() as int + 2));
        let entry = match written {
            Ok(entry) => entry,
            Err(error) => {
                return Err(error);
            },
        };
        let search_id = self.id_generator.get();
        let file = File {
            starting_cluster: entry.cluster,
            current_cluster: (0, entry.cluster),
            current_offset: 0,
            length: entry.size,
            mode: Mode::ReadWriteCreate,
            entry,
            search_id,
        };

        // Remember this open file
        let descriptor = ClusterDescriptor::of_file(volume.idx, &file);
        match self.open_files.push(descriptor) {
            Ok(()) => Ok(file),
            Err(_) => Err(Error::TooManyOpenFiles),
        }
    }

    /// Delete a closed file with the given full path, if exists.
    pub fn delete_file_in_dir<F: FatTable>(
        &mut self,
        volume: &Volume<F>,
        dir: &Directory,
        name: &str,
    ) -> (result: Result<(), Error<D::Error>>)
        ensures
            final(self).same_but_log(*old(self)),
            record::extends(final(self)@.log, old(self)@.log),
            ({
                let deleted = opening::file_deleted(
                    final(self)@.log,
                    old(self)@,
                    volume.idx,
                    *dir,
                    name@,
                );
                &&& deleted is Some
                &&& deleted->0.next == final(self)@.log.len()
                &&& deleted->0.answer == result
            }),
            final(self).did(*old(self), volume.table(), volume.table()),
    {
        let VolumeType::Fat(fat) = &volume.volume_type;
        let found = self.host.find_directory_entry(&fat.table, dir, name);
        let ghost seen = *self;
        proof {
            Self::lemma_did_one(*old(self), *self, volume.table(), volume.table());
        }
        let dir_entry = match found {
            Ok(dir_entry) => dir_entry,
            Err(error) => {
                return Err(error);
            },
        };
        if dir_entry.attributes.is_directory() {
            return Err(Error::DeleteDirAsFile);
        }
        if cluster_already_open(self.open_files.as_slice(), volume.idx, dir_entry.cluster) {
            return Err(Error::FileIsOpen);
        }
        let place = EntryPlace::new(&dir_entry);
        if entry_already_open(self.open_files.as_slice(), volume.idx, place) {
            return Err(Error::FileIsOpen);
        }
        let deleted = self.host.delete_directory_entry(&fat.table, dir, name);
        proof {
            Self::lemma_did_one_more(
                *old(self),
                seen,
                *self,
                volume.table(),
                volume.table(),
                volume.table(),
            );
        }
        deleted
    }

    /// Read from an open file.
    pub fn read<F: FatTable>(
        &mut self,
        volume: &Volume<F>,
        file: &mut File,
        buffer: &mut [u8],
    ) -> (result: Result<usize, Error<D::Error>>)
        requires
            old(file).valid(),
        ensures
            final(self).same_but_log(*old(self)),
            record::extends(final(self)@.log, old(self)@.log),
            final(file).valid(),
            final(buffer)@.len() == old(buffer)@.len(),
            result matches Ok(count) ==> {
                let left = old(file).length - old(file).current_offset;
                &&& count == if old(buffer)@.len() <= left {
                    old(buffer)@.len() as int
                } else {
                    left
                }
                &&& final(file).current_offset == old(file).current_offset + count
            },
            ({
                let outcome = reading::read_on(
                    final(self)@.log,
                    old(self)@.log.len() as int,
                    volume.cluster_bytes(),
                    old(file).length,
                    old(buffer)@.len(),
                    reading::start_of_read(*old(file)),
                );
                &&& outcome is Some
                &&& outcome->0.next == final(self)@.log.len()
                &&& *final(file) == (File {
                    current_cluster: outcome->0.end.current_cluster,
                    current_offset: outcome->0.end.offset,
                    ..*old(file)
                })
                &&& final(buffer)@ == outcome->0.end.data + old(buffer)@.skip(
                    outcome->0.end.data.len() as int,
                )
                &&& match outcome->0.error {
                    None => result matches Ok(count) && count == outcome->0.end.data.len(),
                    Some(error) => result == Err::<usize, Error<D::Error>>(error),
                }
                &&& final(file).current_offset == old(file).current_offset
                    + outcome->0.end.data.len()
            }),
            final(self).did(*old(self), volume.table(), volume.table()),
    {
        // Calculate which file block the current offset lies within
        // While there is more to read, read the block and copy in to the buffer.
        // If we need to find the next cluster, walk the FAT.
        let mut space: usize = buffer.len();
        let mut read: usize = 0;
        let ghost wanted = buffer@.len();
        let ghost from = self@.log.len() as int;
        let ghost cluster_bytes = volume.cluster_bytes();
        let ghost length = file.length;
        let ghost first = reading::start_of_read(*file);
        let ghost mut now = first;
        assert(buffer@ =~= now.data + old(buffer)@.skip(0));
        proof {
            Self::lemma_did_nothing(*self, volume.table());
        }
        while space > 0 && !file.eof()
            invariant
                file.valid(),
                buffer@.len() == old(buffer)@.len(),
                wanted == old(buffer)@.len(),
                wanted == buffer.len(),
                space == wanted - read,
                read <= wanted,
                read == now.data.len(),
                file.current_offset == old(file).current_offset + read,
                self.same_but_log(*old(self)),
                record::extends(self@.log, old(self)@.log),
                from == old(self)@.log.len(),
                self.did(*old(self), volume.table(), volume.table()),
                cluster_bytes == volume.cluster_bytes(),
                length == old(file).length,
                first == reading::start_of_read(*old(file)),
                *file == (File {
                    current_cluster: now.current_cluster,
                    current_offset: now.offset,
                    ..*old(file)
                }),
                buffer@ == now.data + old(buffer)@.skip(read as int),
                forall|log: Seq<Exchange<D::Error>>| #[trigger]
                    record::extends(log, self@.log) ==> reading::read_on(
                        log,
                        from,
                        cluster_bytes,
                        length,
                        wanted,
                        first,
                    ) == reading::read_on(
                        log,
                        self@.log.len() as int,
                        cluster_bytes,
                        length,
                        wanted,
                        now,
                    ),
            decreases space,
        {
            let ghost before = *self;
            let ghost log_before = self@.log;
            let ghost reading = now;
            let found = self.find_data_on_disk(
                volume,
                &mut file.current_cluster,
                file.current_offset,
            );
            let ghost after_search = *self;
            let ghost log_found = self@.log;
            proof {
                Self::lemma_did_on(
                    *old(self),
                    before,
                    *self,
                    volume.table(),
                    volume.table(),
                    volume.table(),
                );
            }
            let ghost reached = reading::Reading { current_cluster: file.current_cluster, ..reading };
            let (block_idx, block_offset, block_avail) = match found {
                Ok(location) => location,
                Err(error) => {
                    assert(record::extends(self@.log, self@.log));
                    return Err(error);
                },
            };
            let answer = self.host.read_block(block_idx, "read");
            proof {
                Self::lemma_did_one_more(
                    *old(self),
                    after_search,
                    *self,
                    volume.table(),
                    volume.table(),
                    volume.table(),
                );
            }
            let block = match answer {
                Ok(block) => block,
                Err(error) => {
                    proof {
                        locate::lemma_located_stable(
                            log_found,
                            self@.log,
                            log_before.len() as int,
                            cluster_bytes,
                            reading.current_cluster,
                            reading.offset,
                        );
                        assert(record::extends(self@.log, log_before));
                    }
                    return Err(Error::DeviceError(error));
                },
            };
            let left: usize = file.left() as usize;
            let mut to_copy: usize = block_avail;
            if space < to_copy {
                to_copy = space;
            }
            if left < to_copy {
                to_copy = left;
            }
            copy_bytes(buffer, read, block.contents.as_slice(), block_offset, to_copy);
            read = read + to_copy;
            space = space - to_copy;
            let moved = file.seek_from_current(to_copy as i32);
            assert(moved is Ok);
            proof {
                now = reading::with_chunk(reached, block@, length, wanted);
                assert(to_copy == reading::chunk_len(reached, length, wanted));
                assert(buffer@ =~= now.data + old(buffer)@.skip(read as int));
                assert forall|log: Seq<Exchange<D::Error>>| #[trigger]
                    record::extends(log, self@.log) implies reading::read_on(
                    log,
                    from,
                    cluster_bytes,
                    length,
                    wanted,
                    first,
                ) == reading::read_on(
                    log,
                    self@.log.len() as int,
                    cluster_bytes,
                    length,
                    wanted,
                    now,
                ) by {
                    assert(record::extends(log, log_before));
                    locate::lemma_located_stable(
                        log_found,
                        log,
                        log_before.len() as int,
                        cluster_bytes,
                        reading.current_cluster,
                        reading.offset,
                    );
                }
            }
        }
        assert(record::extends(self@.log, self@.log));
        Ok(read)
    }

    /// Write to a open file.
    pub fn write<F: FatTable>(
        &mut self,
        volume: &mut Volume<F>,
        file: &mut File,
        buffer: &[u8],
    ) -> (result: Result<usize, Error<D::Error>>)
        requires
            old(file).valid(),
        ensures
            final(self).same_host(*old(self)),
            record::extends(final(self)@.log, old(self)@.log),
            final(volume).same_but_table(*old(volume)),
            final(file).valid(),
            result matches Ok(count) ==> {
                &&& count <= writing::fitting(buffer@.len(), old(file).current_offset)
                &&& final(file).current_offset == old(file).current_offset + count
                &&& final(file).length == old(file).length + count
            },
            ({
                let written = writing::file_write(
                    final(self)@.log,
                    old(self)@,
                    old(volume).layout(),
                    *old(file),
                    buffer@,
                );
                &&& written is Some
                &&& written->0.after == final(self)@
                &&& written->0.file == *final(file)
                &&& match written->0.answer {
                    Ok(count) => result matches Ok(bytes) && bytes == count,
                    Err(error) => result == Err::<usize, Error<D::Error>>(error),
                }
            }),
            final(self).did(*old(self), old(volume).table(), final(volume).table()),
            old(file).mode == Mode::ReadOnly ==> *final(volume) == *old(volume),
    {
        if let Err(error) = self.prepare(volume, file) {
            return Err(error);
        }
        let ghost ready = *self;
        let ghost ready_file = *file;
        let bytes_until_max: usize = (MAX_FILE_SIZE - file.current_offset) as usize;
        let bytes_to_write: usize = if buffer.len() < bytes_until_max {
            buffer.len()
        } else {
            bytes_until_max
        };
        let mut written: usize = 0;
        let ghost from = self@.log.len() as int;
        let ghost layout = old(volume).layout();
        let ghost total = bytes_to_write as nat;
        assert forall|log: Seq<Exchange<D::Error>>| #[trigger]
            record::extends(log, ready@.log) implies writing::prepared(
            log,
            old(self)@,
            *old(file),
        ) == Some(Prepared { after: ready@, file: ready_file, answer: Ok(()) }) by {
            let at = old(self)@.log.len() as int;
            if old(file).starting_cluster.0 < 2 {
                assert(log.take(at + 1) =~= ready@.log);
            }
        }
        while written < bytes_to_write
            invariant
                written <= bytes_to_write,
                bytes_to_write <= buffer@.len(),
                total == bytes_to_write,
                file.valid(),
                file.length == old(file).length + written,
                file.current_offset == old(file).current_offset + written,
                old(file).current_offset + bytes_to_write <= u32::MAX,
                volume.same_but_table(*old(volume)),
                layout == old(volume).layout(),
                self.same_but_log(ready),
                record::extends(self@.log, ready@.log),
                from == ready@.log.len(),
                ready.same_host(*old(self)),
                record::extends(ready@.log, old(self)@.log),
                record::extends(self@.log, old(self)@.log),
                self.same_host(*old(self)),
                self.did(*old(self), old(volume).table(), volume.table()),
                old(file).mode != Mode::ReadOnly,
                total == writing::fitting(buffer@.len(), ready_file.current_offset),
                forall|log: Seq<Exchange<D::Error>>| #[trigger]
                    record::extends(log, ready@.log) ==> writing::prepared(
                        log,
                        old(self)@,
                        *old(file),
                    ) == Some(Prepared { after: ready@, file: ready_file, answer: Ok(()) }),
                forall|log: Seq<Exchange<D::Error>>| #[trigger]
                    record::extends(log, self@.log) ==> writing::write_on(
                        log,
                        from,
                        layout,
                        buffer@,
                        total,
                        ready_file,
                        0,
                    ) == writing::write_on(
                        log,
                        self@.log.len() as int,
                        layout,
                        buffer@,
                        total,
                        *file,
                        written as nat,
                    ),
            decreases bytes_to_write - written,
        {
            let ghost before = *self;
            let ghost table_before = volume.table();
            let ghost log_before = self@.log;
            let ghost file_before = *file;
            let block_offset: usize = (file.current_offset % BLOCK_LEN_U32) as usize;
            let block_avail: usize = BLOCK_LEN - block_offset;
            let to_copy: usize = if block_avail < bytes_to_write - written {
                block_avail
            } else {
                bytes_to_write - written
            };
            let ghost bytes = buffer@.subrange(written as int, written + to_copy);
            let end = self.write_chunk(volume, file, buffer, written, to_copy);
            proof {
                Self::lemma_did_on(
                    *old(self),
                    before,
                    *self,
                    old(volume).table(),
                    table_before,
                    volume.table(),
                );
            }
            assert forall|log: Seq<Exchange<D::Error>>| #[trigger]
                record::extends(log, self@.log) implies record::extends(log, log_before)
                && writing::chunk_written(
                log,
                log_before.len() as int,
                layout,
                bytes,
                file_before,
            ) == Some(
                writing::ChunkOutcome { next: self@.log.len() as int, file: *file, end },
            ) by {
                writing::lemma_chunk_stable(
                    self@.log,
                    log,
                    log_before.len() as int,
                    layout,
                    bytes,
                    file_before,
                );
            }
            match end {
                ChunkEnd::Stored => {},
                ChunkEnd::NoSpace => {
                    assert(record::extends(self@.log, self@.log));
                    assert(self@.log.take(self@.log.len() as int) =~= self@.log);
                    return Ok(written);
                },
                ChunkEnd::Failed(error) => {
                    assert(record::extends(self@.log, self@.log));
                    assert(self@.log.take(self@.log.len() as int) =~= self@.log);
                    return Err(error);
                },
            }
            written = written + to_copy;
        }
        assert(record::extends(self@.log, self@.log));
        assert(self@.log.take(self@.log.len() as int) =~= self@.log);
        Ok(written)
    }

    /// Makes a file ready to be written.
    fn prepare<F: FatTable>(&mut self, volume: &mut Volume<F>, file: &mut File) -> (result: Result<
        (),
        Error<D::Error>,
    >)
        ensures
            final(self).same_host(*old(self)),
            record::extends(final(self)@.log, old(self)@.log),
            final(volume).same_but_table(*old(volume)),
            writing::prepared(final(self)@.log, old(self)@, *old(file)) == Some(
                (Prepared { after: final(self)@, file: *final(file), answer: result }),
            ),
            final(self).did(*old(self), old(volume).table(), final(volume).table()),
            old(file).mode == Mode::ReadOnly ==> *final(volume) == *old(volume),
    {
        proof {
            Self::lemma_did_nothing(*self, volume.table());
        }
        if file.mode == Mode::ReadOnly {
            return Err(Error::ReadOnly);
        }
        if file.starting_cluster.0 < RESERVED_ENTRIES {
            // file doesn't have a valid allocated cluster (possible zero-length file), allocate one
            let VolumeType::Fat(fat) = &mut volume.volume_type;
            let allocated = self.host.alloc_cluster(&mut fat.table, None, false);
            proof {
                Self::lemma_did_one(*old(self), *self, old(volume).table(), volume.table());
            }
            assert(self@.log =~= self@.log.take(old(self)@.log.len() as int + 1));
            match allocated {
                Ok(cluster) => {
                    file.starting_cluster = cluster;
                },
                Err(error) => {
                    return Err(error);
                },
            }

            // Update the cluster descriptor in our open files list
            let open_files = self.open_files.as_slice();
            if let Some(position) = cluster_position_by_id(open_files, file.search_id) {
                let mut descriptor = open_files[position];
                descriptor.cluster = file.starting_cluster;
                proof {
                    open_list::lemma_position_of(
                        self@.open_files,
                        file.search_id,
                        position as int,
                    );
                }
                self.open_files.replace(position, descriptor);
            }
            file.entry.cluster = file.starting_cluster;
        }
        if file.current_cluster.1.0 < file.starting_cluster.0 {
            // Rewind to the start
            file.current_cluster = (0, file.starting_cluster);
        }
        Ok(())
    }

    /// Writes `buffer[from..from + count]` at the position of a file, whose block it does not reach
    /// beyond.
    fn write_chunk<F: FatTable>(
        &mut self,
        volume: &mut Volume<F>,
        file: &mut File,
        buffer: &[u8],
        from: usize,
        count: usize,
    ) -> (end: ChunkEnd<D::Error>)
        requires
            old(file).valid(),
            old(file).current_offset % 512 + count <= 512,
            from + count <= buffer@.len(),
        ensures
            final(self).same_but_log(*old(self)),
            record::extends(final(self)@.log, old(self)@.log),
            final(volume).same_but_table(*old(volume)),
            final(file).valid(),
            end is Stored ==> final(file).length == old(file).length + count
                && final(file).current_offset == old(file).current_offset + count,
            end is NoSpace ==> *final(file) == *old(file),
            writing::chunk_written(
                final(self)@.log,
                old(self)@.log.len() as int,
                old(volume).layout(),
                buffer@.subrange(from as int, from + count),
                *old(file),
            ) == Some(
                (ChunkOutcome { next: final(self)@.log.len() as int, file: *final(file), end }),
            ),
            final(self).did(*old(self), old(volume).table(), final(volume).table()),
    {
        let ghost layout = old(volume).layout();
        let mut current_cluster = file.current_cluster;
        let spot = self.find_spot(volume, &mut current_cluster, file.current_offset);
        let ghost after_search = *self;
        let ghost log_found = self@.log;
        let ghost first = old(volume).table();
        let ghost between = volume.table();
        let block_idx = match spot {
            Spot::Block(block_idx) => block_idx,
            Spot::NoSpace => {
                return ChunkEnd::NoSpace;
            },
            Spot::Unknown(error) => {
                return ChunkEnd::Failed(error);
            },
        };
        let block_offset: usize = (file.current_offset % BLOCK_LEN_U32) as usize;
        let stored = self.store_block::<F>(block_idx, block_offset, buffer, from, count);
        let ghost after_store = *self;
        proof {
            assert(self.did(after_search, between, between));
            Self::lemma_did_on(*old(self), after_search, *self, first, between, between);
            writing::lemma_spot_stable(
                log_found,
                self@.log,
                old(self)@.log.len() as int,
                layout.cluster_size.bytes(),
                old(file).current_cluster,
                old(file).current_offset,
            );
        }
        if let Err(error) = stored {
            return ChunkEnd::Failed(error);
        }
        file.current_cluster = current_cluster;
        if count as u32 > MAX_FILE_SIZE - file.length {
            return ChunkEnd::Failed(Error::ConversionError);
        }
        file.update_length(file.length + count as u32);
        let moved = file.seek_from_current(count as i32);
        assert(moved is Ok);
        file.entry.attributes.set_archive(true);
        file.entry.mtime = self.host.get_timestamp();
        let ghost timed = *self;
        proof {
            Self::lemma_did_one_more(
                *old(self),
                after_store,
                *self,
                first,
                between,
                between,
            );
        }
        assert(*file == writing::file_written(
            *old(file),
            current_cluster,
            count as int,
            file.entry.mtime,
        ));
        let VolumeType::Fat(fat) = &mut volume.volume_type;
        let fat_type = fat.get_fat_type();
        let updated = self.host.update_info_sector(&mut fat.table);
        let ghost counted = *self;
        let ghost last = volume.table();
        proof {
            Self::lemma_did_one_more(*old(self), timed, *self, first, between, last);
        }
        let noted = match updated {
            Ok(()) => self.write_entry_to_disk::<F>(fat_type, &file.entry),
            Err(error) => Err(error),
        };
        proof {
            if updated is Ok {
                assert(self.did(counted, last, last));
                Self::lemma_did_on(*old(self), counted, *self, first, last, last);
            }
            writing::lemma_spot_stable(
                log_found,
                self@.log,
                old(self)@.log.len() as int,
                layout.cluster_size.bytes(),
                old(file).current_cluster,
                old(file).current_offset,
            );
        }
        match noted {
            Ok(()) => ChunkEnd::Stored,
            Err(error) => ChunkEnd::Failed(error),
        }
    }

    /// Finds the block that the bytes from position `offset` of a file on are to be written to,
    /// given a cluster of the file and how many bytes of the file come before it, and extends the
    /// file by a cluster where its chain ends before the position.
    fn find_spot<F: FatTable>(
        &mut self,
        volume: &mut Volume<F>,
        start: &mut (u32, Cluster),
        offset: u32,
    ) -> (spot: Spot<D::Error>)
        requires
            old(start).0 <= offset,
        ensures
            final(self).same_but_log(*old(self)),
            record::extends(final(self)@.log, old(self)@.log),
            final(volume).same_but_table(*old(volume)),
            final(start).0 <= offset,
            writing::spot_found(
                final(self)@.log,
                old(self)@.log.len() as int,
                old(volume).cluster_bytes(),
                *old(start),
                offset,
            ) == Some(
                (SpotFound { next: final(self)@.log.len() as int, start: *final(start), spot }),
            ),
            final(self).did(*old(self), old(volume).table(), final(volume).table()),
    {
        let found = self.find_data_on_disk(volume, start, offset);
        let ghost after_search = *self;
        let ghost log_found = self@.log;
        match found {
            Ok((block_idx, _, _)) => Spot::Block(block_idx),
            Err(Error::EndOfFile) => {
                // Extend the file
                let VolumeType::Fat(fat) = &mut volume.volume_type;
                let allocated = self.host.alloc_cluster(&mut fat.table, Some(start.1), false);
                let ghost extended = *self;
                let ghost table = volume.table();
                proof {
                    Self::lemma_did_one_more(
                        *old(self),
                        after_search,
                        *self,
                        old(volume).table(),
                        old(volume).table(),
                        table,
                    );
                    locate::lemma_located_stable(
                        log_found,
                        self@.log,
                        old(self)@.log.len() as int,
                        old(volume).cluster_bytes(),
                        *old(start),
                        offset,
                    );
                }
                if allocated.is_err() {
                    return Spot::NoSpace;
                }
                let again = self.find_data_on_disk(volume, start, offset);
                proof {
                    Self::lemma_did_on(
                        *old(self),
                        extended,
                        *self,
                        old(volume).table(),
                        table,
                        table,
                    );
                    locate::lemma_located_stable(
                        log_found,
                        self@.log,
                        old(self)@.log.len() as int,
                        old(volume).cluster_bytes(),
                        *old(start),
                        offset,
                    );
                }
                match again {
                    Ok((block_idx, _, _)) => Spot::Block(block_idx),
                    Err(_) => Spot::Unknown(Error::AllocationError),
                }
            },
            Err(error) => Spot::Unknown(error),
        }
    }

    /// Writes `buffer[from..from + count]` to a block, from byte `block_offset` of it on.
    fn store_block<F: FatTable>(
        &mut self,
        block_idx: BlockIdx,
        block_offset: usize,
        buffer: &[u8],
        from: usize,
        count: usize,
    ) -> (result: Result<(), Error<D::Error>>)
        requires
            block_offset + count <= 512,
            from + count <= buffer@.len(),
        ensures
            final(self).same_but_log(*old(self)),
            record::extends(final(self)@.log, old(self)@.log),
            writing::block_stored(
                final(self)@.log,
                old(self)@.log.len() as int,
                block_idx,
                block_offset as int,
                buffer@.subrange(from as int, from + count),
            ) == Some(
                (StepTaken { next: final(self)@.log.len() as int, answer: result }),
            ),
            forall|table: F| #[trigger] final(self).did(*old(self), table, table),
    {
        let mut block = Block::new();
        assert forall|table: F| #[trigger] self.did(*old(self), table, table) by {
            Self::lemma_did_nothing(*self, table);
        }
        if block_offset != 0 {
            // Partial block write
            let answer = self.host.read_block(block_idx, "read");
            assert forall|table: F| #[trigger] self.did(*old(self), table, table) by {
                Self::lemma_did_one(*old(self), *self, table, table);
            }
            match answer {
                Ok(read) => {
                    block = read;
                },
                Err(error) => {
                    return Err(Error::DeviceError(error));
                },
            }
        }
        copy_bytes(&mut block.contents, block_offset, buffer, from, count);
        let ghost before = *self;
        let written = self.host.write_block(block_idx, block);
        assert forall|table: F| #[trigger] self.did(*old(self), table, table) by {
            assert(before.did(*old(self), table, table));
            Self::lemma_did_one_more(*old(self), before, *self, table, table, table);
        }
        match written {
            Ok(()) => Ok(()),
            Err(error) => Err(Error::DeviceError(error)),
        }
    }

    /// Writes a Directory Entry to the disk
    fn write_entry_to_disk<F: FatTable>(&mut self, fat_type: FatType, entry: &DirEntry) -> (result:
        Result<(), Error<D::Error>>)
        ensures
            final(self).same_but_log(*old(self)),
            record::extends(final(self)@.log, old(self)@.log),
            opening::entry_stored(
                final(self)@.log,
                old(self)@.log.len() as int,
                fat_type,
                *entry,
            ) == Some(
                (EntryStored { next: final(self)@.log.len() as int, answer: result }),
            ),
            forall|table: F| #[trigger] final(self).did(*old(self), table, table),
    {
        let answer = self.host.read_block(entry.entry_block, "read");
        let ghost seen = *self;
        assert forall|table: F| #[trigger] self.did(*old(self), table, table) by {
            Self::lemma_did_one(*old(self), *self, table, table);
        }
        let mut block = match answer {
            Ok(block) => block,
            Err(error) => {
                return Err(Error::DeviceError(error));
            },
        };
        let start: usize = entry.entry_offset.get() as usize;
        let bytes = self.host.serialize::<F>(entry, fat_type);
        let ghost packed = *self;
        assert forall|table: F| #[trigger] self.did(*old(self), table, table) by {
            assert(seen.did(*old(self), table, table));
            Self::lemma_did_one_more(*old(self), seen, *self, table, table, table);
        }
        copy_bytes(&mut block.contents, start, bytes.as_slice(), 0, DIR_ENTRY_LEN);
        assert(bytes@.subrange(0, 32) =~= bytes@);
        let written = self.host.write_block(entry.entry_block, block);
        assert forall|table: F| #[trigger] self.did(*old(self), table, table) by {
            assert(packed.did(*old(self), table, table));
            Self::lemma_did_one_more(*old(self), packed, *self, table, table, table);
        }
        match written {
            Ok(()) => Ok(()),
            Err(error) => Err(Error::DeviceError(error)),
        }
    }

    /// Close a file with the given full path.
    pub fn close_file<F: FatTable>(&mut self, volume: &Volume<F>, file: File) -> (result: Result<
        (),
        Error<D::Error>,
    >)
        requires
            open_list::has_id(old(self)@.open_files, file.search_id),
        ensures
            result is Ok,
            final(self).same_host(*old(self)),
            final(self)@ == (ManagerState {
                open_files: open_list::without_id(old(self)@.open_files, file.search_id),
                ..old(self)@
            }),
    {
        // We should never be in a situation where we're attempting to close a file
        // with an ID which doesn't exist in our open files list.
        if let Some(idx_to_close) = cluster_position_by_id(
            self.open_files.as_slice(),
            file.search_id,
        ) {
            proof {
                open_list::lemma_position_of(
                    self@.open_files,
                    file.search_id,
                    idx_to_close as int,
                );
            }
            let _ = self.open_files.remove(idx_to_close);
        }
        Ok(())
    }

    /// Check if any files or folders are open.
    pub fn has_open_handles(&self) -> (answer: bool)
        ensures
            answer == (self@.open_dirs.len() > 0 || self@.open_files.len() > 0),
    {
        !(self.open_dirs.is_empty() && self.open_files.is_empty())
    }

    /// Consume self and return BlockDevice and TimeSource
    pub fn free(self) -> (parts: (D, T))
        ensures
            parts == (self.block_device(), self.timesource()),
    {
        self.host.free()
    }

    /// This function turns `desired_offset` into an appropriate block to be
    /// read, given a cluster of the file and how many bytes of the file come
    /// before it: the first one, or the last one we read, whichever is better.
    fn find_data_on_disk<F: FatTable>(
        &mut self,
        volume: &Volume<F>,
        start: &mut (u32, Cluster),
        desired_offset: u32,
    ) -> (result: Result<(BlockIdx, usize, usize), Error<D::Error>>)
        requires
            old(start).0 <= desired_offset,
        ensures
            final(self).same_but_log(*old(self)),
            record::extends(final(self)@.log, old(self)@.log),
            final(start).0 <= desired_offset,
            ({
                let found = locate::located(
                    final(self)@.log,
                    old(self)@.log.len() as int,
                    volume.cluster_bytes(),
                    *old(start),
                    desired_offset,
                );
                &&& found is Some
                &&& found->0.next == final(self)@.log.len()
                &&& found->0.start == *final(start)
                &&& match found->0.answer {
                    Ok(block_idx) => result == Ok::<_, Error<D::Error>>(
                        (
                            block_idx,
                            (desired_offset % 512) as usize,
                            (512 - desired_offset % 512) as usize,
                        ),
                    ),
                    Err(error) => result == Err::<(BlockIdx, usize, usize), _>(error),
                }
            }),
            final(self).did(*old(self), volume.table(), volume.table()),
    {
        let VolumeType::Fat(fat) = &volume.volume_type;
        let bytes_per_cluster = fat.bytes_per_cluster();
        // How many clusters forward do we need to go?
        let num_clusters: u32 = (desired_offset - start.0) / bytes_per_cluster;
        let mut block_cache = BlockCache::empty();
        let mut done: u32 = 0;
        let ghost from = self@.log.len() as int;
        let ghost cluster_bytes = volume.cluster_bytes();
        let ghost mut looked_at: Option<BlockCache> = None;
        proof {
            Self::lemma_did_nothing(*self, volume.table());
        }
        while done < num_clusters
            invariant
                done <= num_clusters,
                start.0 <= desired_offset,
                cluster_bytes == bytes_per_cluster,
                cluster_bytes == volume.cluster_bytes(),
                *fat == volume.volume_type->Fat_0,
                bytes_per_cluster > 0,
                (desired_offset - start.0) / cluster_bytes == num_clusters - done,
                self.same_but_log(*old(self)),
                record::extends(self@.log, old(self)@.log),
                from == old(self)@.log.len(),
                self.did(*old(self), volume.table(), volume.table()),
                match looked_at {
                    Some(cache) => block_cache == cache,
                    None => block_cache.is_empty(),
                },
                forall|log: Seq<Exchange<D::Error>>| #[trigger]
                    record::extends(log, self@.log) ==> locate::located(
                        log,
                        from,
                        cluster_bytes,
                        *old(start),
                        desired_offset,
                    ) == locate::located_with(
                        log,
                        self@.log.len() as int,
                        cluster_bytes,
                        *start,
                        desired_offset,
                        looked_at,
                    ),
            decreases num_clusters - done,
        {
            proof {
                locate::lemma_one_cluster_less(
                    desired_offset - start.0,
                    cluster_bytes,
                    num_clusters - done,
                );
            }
            let ghost before = *self;
            let (left, next) = self.host.next_cluster(&fat.table, start.1, block_cache);
            block_cache = left;
            assert(record::extends(self@.log, before@.log));
            proof {
                looked_at = Some(left);
                Self::lemma_did_one_more(
                    *old(self),
                    before,
                    *self,
                    volume.table(),
                    volume.table(),
                    volume.table(),
                );
            }
            match next {
                Ok(cluster) => {
                    start.1 = cluster;
                },
                Err(error) => {
                    assert(record::extends(self@.log, self@.log));
                    return Err(error);
                },
            }
            start.0 = start.0 + bytes_per_cluster;
            done = done + 1;
            assert forall|log: Seq<Exchange<D::Error>>| #[trigger]
                record::extends(log, self@.log) implies locate::located(
                log,
                from,
                cluster_bytes,
                *old(start),
                desired_offset,
            ) == locate::located_with(
                log,
                self@.log.len() as int,
                cluster_bytes,
                *start,
                desired_offset,
                looked_at,
            ) by {
                assert(record::extends(log, before@.log));
            }
        }
        proof {
            locate::lemma_one_cluster_less(desired_offset - start.0, cluster_bytes, 0);
        }
        let ghost walked = *self;
        let first_block = self.host.cluster_to_block(&fat.table, start.1);
        assert(record::extends(self@.log, walked@.log));
        proof {
            Self::lemma_did_one_more(
                *old(self),
                walked,
                *self,
                volume.table(),
                volume.table(),
                volume.table(),
            );
        }
        if (desired_offset - start.0) / 512 > u32::MAX - first_block.0 {
            return Err(Error::ConversionError);
        }
        Ok(locate::data_location(first_block, start.0, desired_offset))
    }
}

/// Transform mode variants (ReadWriteCreate_Or_Append) to simple modes ReadWriteAppend or
/// ReadWriteCreate
pub fn solve_mode_variant(mode: Mode, dir_entry_is_some: bool) -> (solved: Mode)
    ensures
        solved == opening::solved_mode(mode, dir_entry_is_some),
{
    let mut mode = mode;
    if mode == Mode::ReadWriteCreateOrAppend {
        if dir_entry_is_some {
            mode = Mode::ReadWriteAppend;
        } else {
            mode = Mode::ReadWriteCreate;
        }
    } else if mode == Mode::ReadWriteCreateOrTruncate {
        if dir_entry_is_some {
            mode = Mode::ReadWriteTruncate;
        } else {
            mode = Mode::ReadWriteCreate;
        }
    }
    mode
}

} // verus!
