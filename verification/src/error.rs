//! What can go wrong.
use vstd::prelude::*;

verus! {

/// Why a name cannot be a short file name.
#[derive(Clone, Copy, Debug, PartialEq, Eq, Structural)]
pub enum FilenameError {
    /// A character that short names may not hold.
    InvalidCharacter,
    /// There is no name at all.
    FilenameEmpty,
    /// More characters than a short name has room for.
    NameTooLong,
    /// A period where none may stand.
    MisplacedPeriod,
}

/// Why a position in a file was refused.
#[derive(Clone, Copy, Debug, PartialEq, Eq, Structural)]
pub enum FileError {
    /// The position lies before the start or past the end.
    InvalidOffset,
}

/// Why an operation on a volume failed. `E` is what the block device reports.
#[derive(Debug)]
pub enum Error<E> {
    /// The block device failed.
    DeviceError(E),
    /// The bytes on the device do not have the expected form.
    FormatError(&'static str),
    /// There is no volume of that number.
    NoSuchVolume,
    /// The name cannot be used.
    FilenameError(FilenameError),
    /// As many directories are open as can be.
    TooManyOpenDirs,
    /// As many files are open as can be.
    TooManyOpenFiles,
    /// There is no such file.
    FileNotFound,
    /// The file is open already.
    FileAlreadyOpen,
    /// The directory is open already.
    DirAlreadyOpen,
    /// The entry is not of the kind that was to be opened.
    OpenedDirAsFile,
    /// A directory was to be deleted as if it were a file.
    DeleteDirAsFile,
    /// The file is open, and so cannot be deleted.
    FileIsOpen,
    /// The operation is not supported.
    Unsupported,
    /// The cluster chain has come to its end.
    EndOfFile,
    /// A number does not fit where it is needed.
    ConversionError,
    /// The cluster chain could not be followed after it was extended.
    AllocationError,
    /// The file may not be written.
    ReadOnly,
    /// The file is there already.
    FileAlreadyExists,
}

} // verus!
