//! What opening and deleting come to.
use crate::blockdevice;
use crate::error::Error;
use crate::exchange::Exchange;
use crate::filesystem::{Attributes, Cluster, DirEntry, Directory, File, Mode, SearchId};
use crate::open_list;
use crate::record;
use crate::state::ManagerState;
use crate::volume::{FatType, VolumeIdx};
use vstd::prelude::*;

verus! {

/// What came of writing a directory entry to the device.
pub struct EntryStored<E> {
    /// Where the record of it ends.
    pub next: int,
    /// Whether it was written, or why it was not.
    pub answer: Result<(), Error<E>>,
}

/// The record from `at` on tells how `entry` was written to the device: its block was read, the
/// bytes of the entry were put in their place, and the block was written back.
pub open spec fn entry_stored<E>(
    log: Seq<Exchange<E>>,
    at: int,
    fat_type: FatType,
    entry: DirEntry,
) -> Option<EntryStored<E>> {
    match record::answered_read(log, at, entry.entry_block, "read"@) {
        None => None,
        Some(Err(error)) => Some(
            EntryStored { next: at + 1, answer: Err(Error::DeviceError(error)) },
        ),
        Some(Ok(block)) => match record::answered_serialize(log, at + 1, entry, fat_type) {
            None => None,
            Some(bytes) => match record::answered_write(
                log,
                at + 2,
                entry.entry_block,
                blockdevice::overlaid(block, entry.entry_offset.value() as int, bytes),
            ) {
                None => None,
                Some(Err(error)) => Some(
                    EntryStored { next: at + 3, answer: Err(Error::DeviceError(error)) },
                ),
                Some(Ok(())) => Some(EntryStored { next: at + 3, answer: Ok(()) }),
            },
        },
    }
}

/// What came of opening a directory.
pub struct DirOpened<E> {
    /// What the volume manager keeps track of from then on.
    pub after: ManagerState<E>,
    /// The directory, or why it was not opened.
    pub answer: Result<Directory, Error<E>>,
}

/// What opening the directory that starts with that cluster of that volume comes to: it is refused
/// where as many are open as can be, or this one is.
pub open spec fn dir_opened<E>(
    before: ManagerState<E>,
    max_dirs: nat,
    volume_idx: VolumeIdx,
    cluster: Cluster,
) -> DirOpened<E> {
    if before.open_dirs.len() >= max_dirs {
        DirOpened { after: before, answer: Err(Error::TooManyOpenDirs) }
    } else if open_list::is_open(before.open_dirs, volume_idx, cluster) {
        DirOpened { after: before, answer: Err(Error::DirAlreadyOpen) }
    } else {
        DirOpened {
            after: before.with_dir(volume_idx, cluster),
            answer: Ok(Directory { cluster, search_id: before.id() }),
        }
    }
}

/// The record `log` continues that of `before` and tells how the directory called `name` in
/// `parent_dir` was opened.
pub open spec fn named_dir_opened<E>(
    log: Seq<Exchange<E>>,
    before: ManagerState<E>,
    max_dirs: nat,
    volume_idx: VolumeIdx,
    parent_dir: Directory,
    name: Seq<char>,
) -> Option<DirOpened<E>> {
    let at = before.log.len() as int;
    if before.open_dirs.len() >= max_dirs {
        Some(DirOpened { after: before, answer: Err(Error::TooManyOpenDirs) })
    } else {
        let seen = before.with_log(log.take(at + 1));
        match record::answered_find(log, at, parent_dir, name) {
            None => None,
            Some(Err(error)) => Some(DirOpened { after: seen, answer: Err(error) }),
            Some(Ok(entry)) => if !entry.attributes.directory() {
                Some(DirOpened { after: seen, answer: Err(Error::OpenedDirAsFile) })
            } else {
                Some(dir_opened(seen, max_dirs, volume_idx, entry.cluster))
            },
        }
    }
}

/// `mode`, decided by whether the file is there where it leaves that open.
pub open spec fn solved_mode(mode: Mode, dir_entry_is_some: bool) -> Mode {
    match mode {
        Mode::ReadWriteCreateOrAppend => if dir_entry_is_some {
            Mode::ReadWriteAppend
        } else {
            Mode::ReadWriteCreate
        },
        Mode::ReadWriteCreateOrTruncate => if dir_entry_is_some {
            Mode::ReadWriteTruncate
        } else {
            Mode::ReadWriteCreate
        },
        _ => mode,
    }
}

/// Whether a file that is not there is created in that mode.
pub open spec fn creates(mode: Mode) -> bool {
    solved_mode(mode, false) == Mode::ReadWriteCreate
}

/// The file of `entry`, opened at its start.
pub open spec fn opened_file(entry: DirEntry, mode: Mode, search_id: SearchId) -> File {
    File {
        starting_cluster: entry.cluster,
        current_cluster: (0, entry.cluster),
        current_offset: 0,
        length: entry.size,
        mode,
        entry,
        search_id,
    }
}

/// What came of opening a file.
pub struct FileOpened<E> {
    /// What the volume manager keeps track of from then on.
    pub after: ManagerState<E>,
    /// The file, or why it was not opened.
    pub answer: Result<File, Error<E>>,
}

/// The file was not opened, and nothing is kept track of that was not before.
pub open spec fn refused<E>(before: ManagerState<E>, error: Error<E>) -> FileOpened<E> {
    FileOpened { after: before, answer: Err(error) }
}

/// The file was opened.
pub open spec fn granted<E>(
    before: ManagerState<E>,
    volume_idx: VolumeIdx,
    file: File,
) -> FileOpened<E> {
    FileOpened { after: before.with_file(volume_idx, file), answer: Ok(file) }
}

/// Why the file of `entry` cannot be opened in `mode` whatever is on the device, if so.
pub open spec fn refusal<E>(
    before: ManagerState<E>,
    max_files: nat,
    volume_idx: VolumeIdx,
    entry: DirEntry,
    mode: Mode,
) -> Option<Error<E>> {
    if before.open_files.len() >= max_files {
        Some(Error::TooManyOpenFiles)
    } else if open_list::is_open(before.open_dirs, volume_idx, entry.cluster) {
        Some(Error::DirAlreadyOpen)
    } else if open_list::file_is_open(before.open_files, volume_idx, entry) {
        Some(Error::FileAlreadyOpen)
    } else if entry.attributes.directory() {
        Some(Error::OpenedDirAsFile)
    } else if entry.attributes.read_only() && mode != Mode::ReadOnly {
        Some(Error::ReadOnly)
    } else {
        None
    }
}

/// The record `log` continues that of `before` and tells how the file of `entry` was opened.
pub open spec fn entry_opened<E>(
    log: Seq<Exchange<E>>,
    before: ManagerState<E>,
    max_files: nat,
    volume_idx: VolumeIdx,
    fat_type: FatType,
    entry: DirEntry,
    mode: Mode,
) -> Option<FileOpened<E>> {
    let at = before.log.len() as int;
    match refusal(before, max_files, volume_idx, entry, mode) {
        Some(error) => Some(refused(before, error)),
        None => {
            let solved = solved_mode(mode, true);
            let file = opened_file(entry, solved, before.id());
            match solved {
                Mode::ReadOnly => Some(granted(before, volume_idx, file)),
                Mode::ReadWriteAppend => Some(
                    granted(before, volume_idx, file.moved_to(file.length)),
                ),
                Mode::ReadWriteTruncate => match record::answered_truncate(
                    log,
                    at,
                    entry.cluster,
                ) {
                    None => None,
                    Some(Err(error)) => Some(
                        refused(before.with_id_used().with_log(log.take(at + 1)), error),
                    ),
                    Some(Ok(())) => {
                        let emptied = file.resized(0);
                        match entry_stored(log, at + 1, fat_type, emptied.entry) {
                            None => None,
                            Some(stored) => match stored.answer {
                                Err(error) => Some(
                                    refused(
                                        before.with_id_used().with_log(log.take(stored.next)),
                                        error,
                                    ),
                                ),
                                Ok(()) => Some(
                                    granted(
                                        before.with_log(log.take(stored.next)),
                                        volume_idx,
                                        emptied,
                                    ),
                                ),
                            },
                        }
                    },
                },
                _ => Some(refused(before.with_id_used(), Error::Unsupported)),
            }
        },
    }
}

/// The file of `entry` is opened in `mode`, or refused, without a change to the table.
pub open spec fn entry_leaves_table<E>(
    before: ManagerState<E>,
    max_files: nat,
    volume_idx: VolumeIdx,
    entry: DirEntry,
    mode: Mode,
) -> bool {
    ||| refusal(before, max_files, volume_idx, entry, mode) is Some
    ||| solved_mode(mode, true) != Mode::ReadWriteTruncate
}

/// The record `log` continues that of `before` and tells how a file called `name` was created in
/// `dir` and opened.
pub open spec fn file_created<E>(
    log: Seq<Exchange<E>>,
    before: ManagerState<E>,
    volume_idx: VolumeIdx,
    dir: Directory,
    name: Seq<char>,
) -> Option<FileOpened<E>> {
    let at = before.log.len() as int;
    match record::answered_short_name(log, at, name) {
        None => None,
        Some(Err(error)) => Some(
            refused(before.with_log(log.take(at + 1)), Error::FilenameError(error)),
        ),
        Some(Ok(short_name)) => match record::answered_new_entry(
            log,
            at + 1,
            dir,
            short_name,
            Attributes(0),
        ) {
            None => None,
            Some(Err(error)) => Some(refused(before.with_log(log.take(at + 2)), error)),
            Some(Ok(entry)) => Some(
                granted(
                    before.with_log(log.take(at + 2)),
                    volume_idx,
                    opened_file(entry, Mode::ReadWriteCreate, before.id()),
                ),
            ),
        },
    }
}

/// The record `log` continues that of `before` and tells how the file called `name` in `dir` was
/// opened.
pub open spec fn file_opened<E>(
    log: Seq<Exchange<E>>,
    before: ManagerState<E>,
    max_files: nat,
    volume_idx: VolumeIdx,
    fat_type: FatType,
    dir: Directory,
    name: Seq<char>,
    mode: Mode,
) -> Option<FileOpened<E>> {
    let at = before.log.len() as int;
    match record::answered_find(log, at, dir, name) {
        None => None,
        Some(found) => {
            let seen = before.with_log(log.take(at + 1));
            if before.open_files.len() >= max_files {
                Some(refused(seen, Error::TooManyOpenFiles))
            } else {
                match found {
                    Err(_) => if creates(mode) {
                        file_created(log, seen, volume_idx, dir, name)
                    } else {
                        Some(refused(seen, Error::FileNotFound))
                    },
                    Ok(entry) => if open_list::is_open(
                        before.open_files,
                        volume_idx,
                        entry.cluster,
                    ) {
                        Some(refused(seen, Error::FileAlreadyOpen))
                    } else if mode == Mode::ReadWriteCreate {
                        Some(refused(seen, Error::FileAlreadyExists))
                    } else {
                        entry_opened(log, seen, max_files, volume_idx, fat_type, entry, mode)
                    },
                }
            }
        },
    }
}

/// The record `log` continues that of `before` and tells that the file called `name` in `dir` was
/// opened, or refused, without a change to the table.
pub open spec fn leaves_table<E>(
    log: Seq<Exchange<E>>,
    before: ManagerState<E>,
    max_files: nat,
    volume_idx: VolumeIdx,
    dir: Directory,
    name: Seq<char>,
    mode: Mode,
) -> bool {
    let at = before.log.len() as int;
    ||| before.open_files.len() >= max_files
    ||| match record::answered_find(log, at, dir, name) {
        None => false,
        Some(Ok(entry)) => {
            ||| open_list::is_open(before.open_files, volume_idx, entry.cluster)
            ||| mode == Mode::ReadWriteCreate
            ||| entry_leaves_table(before, max_files, volume_idx, entry, mode)
        },
        Some(Err(_)) => {
            ||| !creates(mode)
            ||| record::answered_short_name(log, at + 1, name) matches Some(Err(_))
        },
    }
}

/// What came of deleting a file.
pub struct FileDeleted<E> {
    /// Where the record of it ends.
    pub next: int,
    /// Whether it was deleted, or why it was not.
    pub answer: Result<(), Error<E>>,
}

/// The record `log` continues that of `before` and tells how the file called `name` in `dir` was
/// deleted: directories and open files were not.
pub open spec fn file_deleted<E>(
    log: Seq<Exchange<E>>,
    before: ManagerState<E>,
    volume_idx: VolumeIdx,
    dir: Directory,
    name: Seq<char>,
) -> Option<FileDeleted<E>> {
    let at = before.log.len() as int;
    match record::answered_find(log, at, dir, name) {
        None => None,
        Some(Err(error)) => Some(FileDeleted { next: at + 1, answer: Err(error) }),
        Some(Ok(entry)) => if entry.attributes.directory() {
            Some(FileDeleted { next: at + 1, answer: Err(Error::DeleteDirAsFile) })
        } else if open_list::is_open(before.open_files, volume_idx, entry.cluster)
            || open_list::file_is_open(before.open_files, volume_idx, entry) {
            Some(FileDeleted { next: at + 1, answer: Err(Error::FileIsOpen) })
        } else {
            match record::answered_delete(log, at + 1, dir, name) {
                None => None,
                Some(answer) => Some(FileDeleted { next: at + 2, answer }),
            }
        },
    }
}

} // verus!
