//! Volumes, and the file allocation table of one.
use crate::blockdevice;
use crate::blockdevice::{Block, BlockCount, BlockDevice, BlockIdx};
use crate::error::{Error, FilenameError};
use crate::filesystem::{Attributes, Cluster, DirEntry, Directory, ShortFileName, TimeSource};
use vstd::prelude::*;

verus! {

/// The number of a volume on a device, counted from zero.
#[derive(Clone, Copy, Debug, PartialEq, Eq, Structural)]
pub struct VolumeIdx(pub usize);

/// The kinds of file allocation table.
#[derive(Clone, Copy, Debug, PartialEq, Eq, Structural)]
pub enum FatType {
    Fat16,
    Fat32,
}

/// How large the clusters of a volume are. No cluster is without blocks.
#[derive(Clone, Copy, Debug)]
pub struct ClusterSize {
    blocks: u8,
}

impl ClusterSize {
    #[verifier::type_invariant]
    spec fn not_empty(self) -> bool {
        self.blocks > 0
    }

    /// How many blocks a cluster has.
    pub closed spec fn blocks(&self) -> u8 {
        self.blocks
    }

    /// How many bytes a cluster has.
    pub open spec fn bytes(&self) -> int {
        self.blocks() * 512
    }

    /// Clusters of `blocks` blocks, unless that is none.
    pub fn new(blocks: u8) -> (result: Option<ClusterSize>)
        ensures
            result is Some <==> blocks > 0,
            result matches Some(size) ==> size.blocks() == blocks,
    {
        if blocks > 0 {
            Some(ClusterSize { blocks })
        } else {
            None
        }
    }

    /// How many bytes a cluster has.
    pub fn get_bytes(&self) -> (bytes: u32)
        ensures
            bytes == self.bytes(),
            bytes > 0,
    {
        proof {
            use_type_invariant(self);
        }
        self.blocks as u32 * 512
    }
}

/// What the volume manager itself knows of the layout of a FAT volume.
#[derive(Clone, Copy, Debug)]
pub struct FatLayout {
    pub fat_type: FatType,
    pub cluster_size: ClusterSize,
}

/// A volume with a file allocation table.
#[derive(Debug)]
pub struct FatVolume<F> {
    pub layout: FatLayout,
    pub table: F,
}

impl<F> FatVolume<F> {
    /// The number of bytes in a cluster.
    pub fn bytes_per_cluster(&self) -> (bytes: u32)
        ensures
            bytes == self.layout.cluster_size.bytes(),
            bytes > 0,
    {
        self.layout.cluster_size.get_bytes()
    }

    /// The kind of file allocation table.
    pub fn get_fat_type(&self) -> (fat_type: FatType)
        ensures
            fat_type == self.layout.fat_type,
    {
        self.layout.fat_type
    }
}

/// The kinds of volume.
#[derive(Debug)]
pub enum VolumeType<F> {
    /// A volume with a file allocation table.
    Fat(FatVolume<F>),
}

/// A volume on a device.
#[derive(Debug)]
pub struct Volume<F> {
    /// Which volume of the device it is.
    pub idx: VolumeIdx,
    /// What is on it.
    pub volume_type: VolumeType<F>,
}

impl<F> Volume<F> {
    /// The layout of the volume.
    pub open spec fn layout(&self) -> FatLayout {
        match self.volume_type {
            VolumeType::Fat(fat) => fat.layout,
        }
    }

    /// The file allocation table of the volume.
    pub open spec fn table(&self) -> F {
        match self.volume_type {
            VolumeType::Fat(fat) => fat.table,
        }
    }

    /// The number of bytes in a cluster of the volume.
    pub open spec fn cluster_bytes(&self) -> int {
        self.layout().cluster_size.bytes()
    }

    /// The two differ in no more than what the table holds.
    pub open spec fn same_but_table(&self, other: Volume<F>) -> bool {
        &&& self.idx == other.idx
        &&& self.layout() == other.layout()
    }
}

/// The block of the file allocation table that was looked at last.
#[derive(Debug)]
pub struct BlockCache {
    pub block: Block,
    pub idx: Option<BlockIdx>,
}

impl BlockCache {
    /// There is nothing in the cache.
    pub open spec fn is_empty(self) -> bool {
        self.idx is None && self.block@ == blockdevice::zero_block()
    }

    /// A cache with nothing in it.
    pub fn empty() -> (cache: Self)
        ensures
            cache.is_empty(),
    {
        BlockCache { block: Block::new(), idx: None }
    }
}

/// The file allocation table of a volume and the directory entries on it: everything that takes
/// knowledge of how they are laid out on the device.
///
/// Nothing is promised of what a table answers: the volume manager works with whatever it is
/// given, and records it. What changes a table gives the table as it is from then on.
pub trait FatTable: Sized {
    /// Reads what is needed to work with the volume of `num_blocks` blocks from `lba_start` on.
    fn parse_volume<D: BlockDevice>(
        block_device: &D,
        lba_start: BlockIdx,
        num_blocks: BlockCount,
    ) -> Result<FatVolume<Self>, Error<D::Error>>;

    /// The short file name that `name` spells.
    fn create_from_str(name: &str) -> Result<ShortFileName, FilenameError>;

    /// The bytes that stand for `entry` on a volume with that kind of table.
    fn serialize(entry: &DirEntry, fat_type: FatType) -> [u8; 32];

    /// The first block of `cluster`.
    fn cluster_to_block(&self, cluster: Cluster) -> BlockIdx;

    /// The cluster after `cluster` in its chain, or `EndOfFile` if it is the last, and the block of
    /// the table that was looked at last, given the one before.
    fn next_cluster<D: BlockDevice>(
        &self,
        block_device: &D,
        cluster: Cluster,
        block_cache: BlockCache,
    ) -> (BlockCache, Result<Cluster, Error<D::Error>>);

    /// Allocates a cluster, as the one after `prev_cluster` if that is given, and fills it with
    /// zeroes if `zero` says so.
    fn alloc_cluster<D: BlockDevice>(
        &self,
        block_device: &D,
        prev_cluster: Option<Cluster>,
        zero: bool,
    ) -> (Self, Result<Cluster, Error<D::Error>>);

    /// Frees all clusters of a chain but `cluster`, which starts it.
    fn truncate_cluster_chain<D: BlockDevice>(&self, block_device: &D, cluster: Cluster) -> (
        Self,
        Result<(), Error<D::Error>>,
    );

    /// Writes down how many clusters are free, where the volume keeps count of it.
    fn update_info_sector<D: BlockDevice>(&self, block_device: &D) -> (
        Self,
        Result<(), Error<D::Error>>,
    );

    /// The entry called `name` in `dir`.
    fn find_directory_entry<D: BlockDevice>(
        &self,
        block_device: &D,
        dir: &Directory,
        name: &str,
    ) -> Result<DirEntry, Error<D::Error>>;

    /// Calls `func` with each entry of `dir`.
    fn iterate_dir<D: BlockDevice, G: FnMut(&DirEntry)>(
        &self,
        block_device: &D,
        dir: &Directory,
        func: G,
    ) -> Result<(), Error<D::Error>>;

    /// Adds an entry with that name and those attributes to `dir`.
    fn write_new_directory_entry<D: BlockDevice, T: TimeSource>(
        &self,
        block_device: &D,
        timesource: &T,
        dir: &Directory,
        name: ShortFileName,
        attributes: Attributes,
    ) -> (Self, Result<DirEntry, Error<D::Error>>);

    /// Takes the entry called `name` out of `dir`.
    fn delete_directory_entry<D: BlockDevice>(
        &self,
        block_device: &D,
        dir: &Directory,
        name: &str,
    ) -> Result<(), Error<D::Error>>;
}

} // verus!
