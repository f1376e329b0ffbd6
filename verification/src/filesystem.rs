//! Directories, files, and what is known of them.
use crate::blockdevice::BlockIdx;
use crate::error::FileError;
use vstd::prelude::*;

verus! {

/// The largest size a file can have.
pub const MAX_FILE_SIZE: u32 = 0xFFFF_FFFF;

/// The number of clusters that are never allocated: the first cluster of a file is not below it.
pub const RESERVED_ENTRIES: u32 = 2;

/// The number that stands for the root directory of a volume, wherever it is kept.
pub const ROOT_DIR_CLUSTER: u32 = 0xFFFF_FFFC;

/// The number of bytes a directory entry takes on the device.
pub const DIR_ENTRY_LEN: usize = 32;

/// The number of a cluster.
#[derive(Clone, Copy, Debug, PartialEq, Eq, Structural)]
pub struct Cluster(pub u32);

/// What tells one open file or directory from another.
#[derive(Clone, Copy, Debug, PartialEq, Eq, Structural)]
pub struct SearchId(pub u32);

/// Hands out one `SearchId` after another, and starts anew once the numbers are used up.
#[derive(Debug)]
pub struct IdGenerator {
    next_id: u32,
}

impl IdGenerator {
    /// The number that the next `SearchId` will have.
    pub closed spec fn next(&self) -> u32 {
        self.next_id
    }

    /// A generator that starts with zero.
    pub fn new() -> (generator: Self)
        ensures
            generator.next() == 0,
    {
        IdGenerator { next_id: 0 }
    }

    /// The next `SearchId`.
    pub fn get(&mut self) -> (id: SearchId)
        ensures
            id == SearchId(old(self).next()),
            final(self).next() == following_id(old(self).next()),
    {
        let id = SearchId(self.next_id);
        self.next_id = self.next_id.wrapping_add(1);
        id
    }
}

/// The number after `id`.
pub open spec fn following_id(id: u32) -> u32 {
    if id == u32::MAX {
        0
    } else {
        (id + 1) as u32
    }
}

/// How a file is opened.
#[derive(Clone, Copy, Debug, PartialEq, Eq, Structural)]
pub enum Mode {
    /// Read an existing file.
    ReadOnly,
    /// Write at the end of an existing file.
    ReadWriteAppend,
    /// Empty an existing file, then write it.
    ReadWriteTruncate,
    /// Create a file that is not there yet.
    ReadWriteCreate,
    /// Create the file, or empty it if it is there.
    ReadWriteCreateOrTruncate,
    /// Create the file, or write at its end if it is there.
    ReadWriteCreateOrAppend,
}

/// A point in time.
#[derive(Clone, Copy, Debug, PartialEq, Eq, Structural)]
pub struct Timestamp {
    pub year_since_1970: u8,
    pub zero_indexed_month: u8,
    pub zero_indexed_day: u8,
    pub hours: u8,
    pub minutes: u8,
    pub seconds: u8,
}

/// A clock.
pub trait TimeSource {
    /// What time it is.
    fn get_timestamp(&self) -> Timestamp;
}

/// The attribute bits of a directory entry.
#[derive(Clone, Copy, Debug, PartialEq, Eq, Structural)]
pub struct Attributes(pub u8);

impl Attributes {
    /// Whether the entry may only be read.
    pub open spec fn read_only(self) -> bool {
        self.0 & 0x01 == 0x01
    }

    /// Whether the entry is a directory.
    pub open spec fn directory(self) -> bool {
        self.0 & 0x10 == 0x10
    }

    /// These attributes with the archive bit set.
    pub open spec fn archived(self) -> Attributes {
        Attributes(self.0 | 0x20)
    }

    /// The attributes that the byte of a directory entry stands for.
    pub fn create_from_fat(value: u8) -> (attributes: Attributes)
        ensures
            attributes == Attributes(value),
    {
        Attributes(value)
    }

    /// Whether the entry may only be read.
    pub fn is_read_only(self) -> (answer: bool)
        ensures
            answer == self.read_only(),
    {
        self.0 & 0x01 == 0x01
    }

    /// Whether the entry is a directory.
    pub fn is_directory(self) -> (answer: bool)
        ensures
            answer == self.directory(),
    {
        self.0 & 0x10 == 0x10
    }

    /// Sets the archive bit if `flag` says so.
    pub fn set_archive(&mut self, flag: bool)
        ensures
            *final(self) == (if flag {
                old(self).archived()
            } else {
                *old(self)
            }),
    {
        if flag {
            self.0 = self.0 | 0x20;
        }
    }
}

/// A file name of eight characters and an extension of three, filled up with spaces.
#[derive(Clone, Copy, Debug)]
pub struct ShortFileName {
    pub contents: [u8; 11],
}

/// Where in its block a directory entry starts, such that it ends in the same block.
#[derive(Clone, Copy, Debug)]
pub struct EntryOffset {
    offset: u32,
}

impl EntryOffset {
    #[verifier::type_invariant]
    spec fn within_block(self) -> bool {
        self.offset + 32 <= 512
    }

    /// The number of bytes before the entry.
    pub closed spec fn value(&self) -> u32 {
        self.offset
    }

    /// The offset, unless an entry that starts there would reach past the block.
    pub fn new(offset: u32) -> (result: Option<EntryOffset>)
        ensures
            result is Some <==> offset + 32 <= 512,
            result matches Some(entry_offset) ==> entry_offset.value() == offset,
    {
        if offset <= 480 {
            Some(EntryOffset { offset })
        } else {
            None
        }
    }

    /// The number of bytes before the entry.
    pub fn get(&self) -> (offset: u32)
        ensures
            offset == self.value(),
            offset + 32 <= 512,
    {
        proof {
            use_type_invariant(self);
        }
        self.offset
    }
}

/// An entry of a directory.
#[derive(Clone, Copy, Debug)]
pub struct DirEntry {
    /// The name of the file or directory.
    pub name: ShortFileName,
    /// When it was last changed.
    pub mtime: Timestamp,
    /// When it was made.
    pub ctime: Timestamp,
    /// What it is, and what may be done with it.
    pub attributes: Attributes,
    /// Its first cluster.
    pub cluster: Cluster,
    /// Its size in bytes.
    pub size: u32,
    /// The block that this entry is kept in.
    pub entry_block: BlockIdx,
    /// Where in that block it is kept.
    pub entry_offset: EntryOffset,
}

/// An open directory.
#[derive(Debug)]
pub struct Directory {
    /// Its first cluster.
    pub cluster: Cluster,
    /// What it is found by among the open directories.
    pub search_id: SearchId,
}

/// An open file.
#[derive(Debug)]
pub struct File {
    /// The first cluster of the file.
    pub starting_cluster: Cluster,
    /// A cluster of the file, and how many bytes of the file come before it.
    pub current_cluster: (u32, Cluster),
    /// How many bytes of the file come before the next one to be read or written.
    pub current_offset: u32,
    /// The size of the file in bytes.
    pub length: u32,
    /// How the file was opened.
    pub mode: Mode,
    /// The directory entry of the file.
    pub entry: DirEntry,
    /// What it is found by among the open files.
    pub search_id: SearchId,
}

impl File {
    /// The position lies in the file, and not before the cluster that is remembered for it.
    pub open spec fn valid(self) -> bool {
        self.current_cluster.0 <= self.current_offset <= self.length
    }

    /// The file at position `offset`. The first cluster is remembered if the one remembered so
    /// far lies further on.
    pub open spec fn moved_to(self, offset: u32) -> File {
        File {
            current_offset: offset,
            current_cluster: if offset < self.current_cluster.0 {
                (0, self.starting_cluster)
            } else {
                self.current_cluster
            },
            ..self
        }
    }

    /// The file, and its directory entry, at size `length`.
    pub open spec fn resized(self, length: u32) -> File {
        File { length, entry: DirEntry { size: length, ..self.entry }, ..self }
    }

    /// Whether the position is the end of the file.
    pub fn eof(&self) -> (answer: bool)
        ensures
            answer == (self.current_offset == self.length),
    {
        self.current_offset == self.length
    }

    /// How many bytes there are from the position to the end of the file.
    pub fn left(&self) -> (bytes: u32)
        requires
            self.valid(),
        ensures
            bytes == self.length - self.current_offset,
    {
        self.length - self.current_offset
    }

    /// Moves the position by `offset` bytes.
    pub fn seek_from_current(&mut self, offset: i32) -> (result: Result<(), FileError>)
        ensures
            ({
                let target = old(self).current_offset + offset;
                if 0 <= target <= old(self).length {
                    &&& result is Ok
                    &&& *final(self) == old(self).moved_to(target as u32)
                } else {
                    &&& result == Err::<(), FileError>(FileError::InvalidOffset)
                    &&& *final(self) == *old(self)
                }
            }),
    {
        let target: i64 = self.current_offset as i64 + offset as i64;
        if target >= 0 && target <= self.length as i64 {
            self.move_to(target as u32);
            Ok(())
        } else {
            Err(FileError::InvalidOffset)
        }
    }

    /// Moves the position to `offset` bytes before the end of the file.
    pub fn seek_from_end(&mut self, offset: u32) -> (result: Result<(), FileError>)
        ensures
            if offset <= old(self).length {
                &&& result is Ok
                &&& *final(self) == old(self).moved_to((old(self).length - offset) as u32)
            } else {
                &&& result == Err::<(), FileError>(FileError::InvalidOffset)
                &&& *final(self) == *old(self)
            },
    {
        if offset <= self.length {
            self.move_to(self.length - offset);
            Ok(())
        } else {
            Err(FileError::InvalidOffset)
        }
    }

    /// Makes `offset` the position.
    fn move_to(&mut self, offset: u32)
        ensures
            *final(self) == old(self).moved_to(offset),
    {
        self.current_offset = offset;
        if offset < self.current_cluster.0 {
            self.current_cluster = (0, self.starting_cluster);
        }
    }

    /// Makes `length` the size of the file.
    pub fn update_length(&mut self, length: u32)
        ensures
            *final(self) == old(self).resized(length),
    {
        self.length = length;
        self.entry.size = length;
    }
}

} // verus!
