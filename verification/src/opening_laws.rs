//! What finding, opening, closing and deleting give, said of the answers that the device and the
//! table gave.
use crate::error::Error;
use crate::exchange::Exchange;
use crate::filesystem::{Attributes, Cluster, DirEntry, Directory, File, Mode, SearchId};
use crate::mbr;
use crate::open_list;
use crate::open_list::{ClusterDescriptor, EntryPlace};
use crate::opening;
use crate::record;
use crate::state::ManagerState;
use crate::volume::{FatLayout, FatType, VolumeIdx};
use vstd::prelude::*;

verus! {

/// Something in `list` is on that volume and starts with that cluster.
pub open spec fn cluster_listed(
    list: Seq<ClusterDescriptor>,
    volume_idx: VolumeIdx,
    cluster: Cluster,
) -> bool {
    exists|i: int|
        0 <= i < list.len() && (#[trigger] list[i]).volume_idx == volume_idx && list[i].cluster
            == cluster
}

/// Something in `list` is on that volume and has its entry where `entry` is kept.
pub open spec fn entry_listed(
    list: Seq<ClusterDescriptor>,
    volume_idx: VolumeIdx,
    entry: DirEntry,
) -> bool {
    exists|i: int|
        0 <= i < list.len() && (#[trigger] list[i]).volume_idx == volume_idx && list[i].entry
            == Some(
            EntryPlace { block: entry.entry_block, offset: entry.entry_offset.value() },
        )
}

/// Bit 0 of the attributes: the entry may only be read.
pub open spec fn read_only_bit(entry: DirEntry) -> bool {
    entry.attributes.0 % 2 == 1
}

/// Bit 4 of the attributes: the entry is a directory.
pub open spec fn directory_bit(entry: DirEntry) -> bool {
    (entry.attributes.0 / 16) % 2 == 1
}

/// The lists of what is open are the same, and so is the next id.
pub open spec fn nothing_opened<E>(before: ManagerState<E>, after: ManagerState<E>) -> bool {
    &&& after.open_dirs == before.open_dirs
    &&& after.open_files == before.open_files
    &&& after.next_id == before.next_id
}

/// The id that was next is used up; the ids start anew behind the last one.
pub open spec fn id_used<E>(before: ManagerState<E>, after: ManagerState<E>) -> bool {
    after.next_id == (before.next_id + 1) % 0x1_0000_0000
}

/// `longer` is `list` with one more behind the others.
pub open spec fn one_more(
    list: Seq<ClusterDescriptor>,
    longer: Seq<ClusterDescriptor>,
    volume_idx: VolumeIdx,
    cluster: Cluster,
    search_id: SearchId,
    entry: Option<EntryPlace>,
) -> bool {
    &&& longer.len() == list.len() + 1
    &&& forall|i: int| 0 <= i < list.len() ==> #[trigger] longer[i] == list[i]
    &&& longer[list.len() as int].volume_idx == volume_idx
    &&& longer[list.len() as int].cluster == cluster
    &&& longer[list.len() as int].search_id == search_id
    &&& longer[list.len() as int].entry == entry
}

/// `dir`, which starts with that cluster of that volume, is open in addition, with the id that
/// was next.
pub open spec fn dir_added<E>(
    before: ManagerState<E>,
    after: ManagerState<E>,
    volume_idx: VolumeIdx,
    cluster: Cluster,
    dir: Directory,
) -> bool {
    &&& dir.cluster == cluster
    &&& dir.search_id.0 == before.next_id
    &&& id_used(before, after)
    &&& one_more(
        before.open_dirs,
        after.open_dirs,
        volume_idx,
        cluster,
        dir.search_id,
        None,
    )
    &&& after.open_files == before.open_files
}

/// `file` is open in addition, with the id that was next.
pub open spec fn file_added<E>(
    before: ManagerState<E>,
    after: ManagerState<E>,
    volume_idx: VolumeIdx,
    file: File,
) -> bool {
    &&& file.search_id.0 == before.next_id
    &&& id_used(before, after)
    &&& one_more(
        before.open_files,
        after.open_files,
        volume_idx,
        file.starting_cluster,
        file.search_id,
        Some(
            EntryPlace { block: file.entry.entry_block, offset: file.entry.entry_offset.value() },
        ),
    )
    &&& after.open_dirs == before.open_dirs
}

/// `after` is `before` with `bytes` from `at` on, and every other byte as it was.
pub open spec fn only_replaced(
    before: Seq<u8>,
    after: Seq<u8>,
    at: int,
    bytes: Seq<u8>,
) -> bool {
    &&& after.len() == before.len()
    &&& forall|i: int|
        0 <= i < before.len() ==> #[trigger] after[i] == if at <= i < at + bytes.len() {
            bytes[i - at]
        } else {
            before[i]
        }
}

/// The number that four bytes of `block` from `at` on stand for, the least significant first.
pub open spec fn number_at(block: Seq<u8>, at: int) -> int {
    block[at] + 256 * block[at + 1] + 65536 * block[at + 2] + 16777216 * block[at + 3]
}

/// What the attribute bits mean, and that setting the archive bit changes no other.
pub proof fn law_attribute_bits(attributes: Attributes)
    ensures
        attributes.read_only() <==> attributes.0 % 2 == 1,
        attributes.directory() <==> (attributes.0 / 16) % 2 == 1,
        attributes.archived().0 == if (attributes.0 / 32) % 2 == 1 {
            attributes.0 as int
        } else {
            attributes.0 + 32
        },
{
    let bits = attributes.0;
    assert(bits & 0x01 == 0x01 <==> bits % 2 == 1) by (bit_vector);
    assert(bits & 0x10 == 0x10 <==> (bits / 16) % 2 == 1) by (bit_vector);
    assert((bits / 32) % 2 == 1 ==> bits | 0x20 == bits) by (bit_vector);
    assert((bits / 32) % 2 != 1 ==> bits | 0x20 == bits + 32) by (bit_vector);
}

/// A volume is looked for in the Master Boot Record, which is block 0. A partition of one of the
/// four FAT types, in a record with the signature and with a valid status, is always parsed, from
/// the block and over the number of blocks that its entry gives, and what the parsing gives is
/// what is given. Anything else is refused, with the reason for it.
pub proof fn law_fat_partition_is_parsed<E>(log: Seq<Exchange<E>>, at: int, volume_idx: VolumeIdx)
    requires
        0 <= at,
        mbr::volume_found(log, at, volume_idx) is Some,
    ensures
        at < log.len(),
        ({
            let found = mbr::volume_found(log, at, volume_idx)->0;
            let p = 446 + 16 * volume_idx.0;
            &&& log[at] matches Exchange::ReadBlock { block_idx, reason, answer }
            &&& block_idx.0 == 0
            &&& reason == "read_mbr"@
            &&& match answer {
                Err(error) => found.answer == Err::<FatLayout, Error<E>>(Error::DeviceError(error))
                    && found.next == at + 1,
                Ok(block) => if block[510] != 0x55 || block[511] != 0xAA {
                    &&& found.answer == Err::<FatLayout, Error<E>>(
                        Error::FormatError("Invalid MBR signature"),
                    )
                    &&& found.next == at + 1
                } else if volume_idx.0 >= 4 {
                    &&& found.answer == Err::<FatLayout, Error<E>>(Error::NoSuchVolume)
                    &&& found.next == at + 1
                } else if block[p] != 0 && block[p] != 128 {
                    &&& found.answer == Err::<FatLayout, Error<E>>(
                        Error::FormatError("Invalid partition status"),
                    )
                    &&& found.next == at + 1
                } else if block[p + 4] != 6 && block[p + 4] != 11 && block[p + 4] != 12
                    && block[p + 4] != 14 {
                    &&& found.answer == Err::<FatLayout, Error<E>>(
                        Error::FormatError("Partition type not supported"),
                    )
                    &&& found.next == at + 1
                } else {
                    &&& found.next == at + 2
                    &&& at + 1 < log.len()
                    &&& log[at + 1] matches Exchange::ParseVolume { lba_start, num_blocks, answer }
                    &&& lba_start.0 == number_at(block, p + 8)
                    &&& num_blocks.0 == number_at(block, p + 12)
                    &&& found.answer == answer
                },
            }
        }),
{
}

/// A directory is opened unless as many are open as can be or this one is. It is the directory of
/// the cluster that was asked for, and that cluster is listed, with an id of its own.
pub proof fn law_dir_opened_is_the_one_asked_for<E>(
    before: ManagerState<E>,
    max_dirs: nat,
    volume_idx: VolumeIdx,
    cluster: Cluster,
)
    ensures
        ({
            let opened = opening::dir_opened(before, max_dirs, volume_idx, cluster);
            &&& opened.after.log == before.log
            &&& if before.open_dirs.len() >= max_dirs {
                &&& opened.answer == Err::<Directory, Error<E>>(Error::TooManyOpenDirs)
                &&& nothing_opened(before, opened.after)
            } else if cluster_listed(before.open_dirs, volume_idx, cluster) {
                &&& opened.answer == Err::<Directory, Error<E>>(Error::DirAlreadyOpen)
                &&& nothing_opened(before, opened.after)
            } else {
                &&& opened.answer matches Ok(dir)
                &&& dir_added(before, opened.after, volume_idx, cluster, dir)
            }
        }),
{
    lemma_listed(before.open_dirs, volume_idx, cluster);
}

/// What is listed by its cluster is open.
proof fn lemma_listed(list: Seq<ClusterDescriptor>, volume_idx: VolumeIdx, cluster: Cluster)
    ensures
        cluster_listed(list, volume_idx, cluster) <==> open_list::is_open(
            list,
            volume_idx,
            cluster,
        ),
{
    if cluster_listed(list, volume_idx, cluster) {
        let i = choose|i: int|
            0 <= i < list.len() && (#[trigger] list[i]).volume_idx == volume_idx && list[i].cluster
                == cluster;
        assert(list[i].starts_at(volume_idx, cluster));
    }
    if open_list::is_open(list, volume_idx, cluster) {
        let i = choose|i: int|
            0 <= i < list.len() && (#[trigger] list[i]).starts_at(volume_idx, cluster);
        assert(list[i].volume_idx == volume_idx);
    }
}

/// What is listed by its entry is open.
proof fn lemma_entry_listed(list: Seq<ClusterDescriptor>, volume_idx: VolumeIdx, entry: DirEntry)
    ensures
        entry_listed(list, volume_idx, entry) <==> open_list::has_entry(
            list,
            volume_idx,
            open_list::place_of(entry),
        ),
{
    let place = EntryPlace { block: entry.entry_block, offset: entry.entry_offset.value() };
    if entry_listed(list, volume_idx, entry) {
        let i = choose|i: int|
            0 <= i < list.len() && (#[trigger] list[i]).volume_idx == volume_idx && list[i].entry
                == Some(place);
        assert(list[i].has_entry(volume_idx, place));
    }
    if open_list::has_entry(list, volume_idx, open_list::place_of(entry)) {
        let i = choose|i: int|
            0 <= i < list.len() && (#[trigger] list[i]).has_entry(
                volume_idx,
                open_list::place_of(entry),
            );
        assert(list[i].volume_idx == volume_idx);
    }
}

/// A directory that is opened by its name is that of the entry that was found by that name: its
/// first cluster is that of the entry, and it is that cluster that is listed. Where nothing was
/// found, the reason is handed on; what is no directory is refused.
pub proof fn law_dir_opened_by_name_is_that_of_the_entry<E>(
    log: Seq<Exchange<E>>,
    before: ManagerState<E>,
    max_dirs: nat,
    volume_idx: VolumeIdx,
    parent_dir: Directory,
    name: Seq<char>,
)
    requires
        record::extends(log, before.log),
        opening::named_dir_opened(
            log,
            before,
            max_dirs,
            volume_idx,
            parent_dir,
            name,
        ) is Some,
    ensures
        ({
            let at = before.log.len() as int;
            let opened = opening::named_dir_opened(
                log,
                before,
                max_dirs,
                volume_idx,
                parent_dir,
                name,
            )->0;
            if before.open_dirs.len() >= max_dirs {
                &&& opened.answer == Err::<Directory, Error<E>>(Error::TooManyOpenDirs)
                &&& opened.after == before
            } else {
                &&& at < log.len()
                &&& opened.after.log == log.subrange(0, at + 1)
                &&& log[at] matches Exchange::FindDirectoryEntry { dir, name: asked, answer }
                &&& dir == parent_dir
                &&& asked == name
                &&& match answer {
                    Err(error) => opened.answer == Err::<Directory, Error<E>>(error) && nothing_opened(
                        before,
                        opened.after,
                    ),
                    Ok(entry) => if !directory_bit(entry) {
                        &&& opened.answer == Err::<Directory, Error<E>>(Error::OpenedDirAsFile)
                        &&& nothing_opened(before, opened.after)
                    } else if cluster_listed(before.open_dirs, volume_idx, entry.cluster) {
                        &&& opened.answer == Err::<Directory, Error<E>>(Error::DirAlreadyOpen)
                        &&& nothing_opened(before, opened.after)
                    } else {
                        &&& opened.answer matches Ok(dir)
                        &&& dir_added(before, opened.after, volume_idx, entry.cluster, dir)
                    },
                }
            }
        }),
{
    let at = before.log.len() as int;
    if let Exchange::FindDirectoryEntry { answer: Ok(entry), .. } = log[at] {
        law_attribute_bits(entry.attributes);
        lemma_listed(before.open_dirs, volume_idx, entry.cluster);
    }
}

/// Closing takes the first that has the id out of the list, and moves up those behind it.
pub proof fn law_closing_takes_out_the_first(list: Seq<ClusterDescriptor>, id: SearchId, n: int)
    requires
        0 <= n < list.len(),
        list[n].search_id == id,
        forall|i: int| 0 <= i < n ==> (#[trigger] list[i]).search_id != id,
    ensures
        open_list::has_id(list, id),
        open_list::without_id(list, id) == list.subrange(0, n) + list.subrange(
            n + 1,
            list.len() as int,
        ),
{
    assert(open_list::is_first_with_id(list, id, n));
    open_list::lemma_position_of(list, id, n);
    assert(list.remove(n) =~= list.subrange(0, n) + list.subrange(n + 1, list.len() as int));
}

/// `file` is what comes of opening `entry` at its start in `mode`, but for its position and what
/// is said of its size.
pub open spec fn opened_from(file: File, entry: DirEntry, mode: Mode) -> bool {
    &&& file.mode == mode
    &&& file.starting_cluster == entry.cluster
    &&& file.current_cluster == (0u32, entry.cluster)
    &&& file.entry.name == entry.name
    &&& file.entry.mtime == entry.mtime
    &&& file.entry.ctime == entry.ctime
    &&& file.entry.attributes == entry.attributes
    &&& file.entry.cluster == entry.cluster
    &&& file.entry.entry_block == entry.entry_block
    &&& file.entry.entry_offset == entry.entry_offset
    &&& file.entry.size == file.length
}

/// The exchanges from `at` to `end` store `entry`: its block is read, the bytes that stand for it
/// are put where it is kept, every other byte of the block stays, and the block is written. If a
/// step fails, it is the last, and its error is `answer`.
pub open spec fn entry_put<E>(
    log: Seq<Exchange<E>>,
    at: int,
    end: int,
    entry: DirEntry,
    fat_type: FatType,
    answer: Result<(), Error<E>>,
) -> bool {
    &&& at < end <= log.len()
    &&& log[at] matches Exchange::ReadBlock { block_idx, reason, answer: read }
    &&& block_idx == entry.entry_block
    &&& reason == "read"@
    &&& match read {
        Err(error) => answer == Err::<(), Error<E>>(Error::DeviceError(error)) && end == at + 1,
        Ok(old_block) => {
            &&& end == at + 3
            &&& log[at + 1] matches Exchange::Serialize {
                entry: packed,
                fat_type: kind,
                answer: bytes,
            }
            &&& packed == entry
            &&& kind == fat_type
            &&& log[at + 2] matches Exchange::WriteBlock { block_idx, block, answer: written }
            &&& block_idx == entry.entry_block
            &&& only_replaced(old_block, block, entry.entry_offset.value() as int, bytes)
            &&& match written {
                Err(error) => answer == Err::<(), Error<E>>(Error::DeviceError(error)),
                Ok(()) => answer == Ok::<(), Error<E>>(()),
            }
        },
    }
}

/// Storing a directory entry replaces the bytes of the entry, and no other byte of its block.
pub proof fn law_storing_an_entry_replaces_it_alone<E>(
    log: Seq<Exchange<E>>,
    at: int,
    fat_type: FatType,
    entry: DirEntry,
)
    requires
        0 <= at,
        opening::entry_stored(log, at, fat_type, entry) is Some,
    ensures
        ({
            let stored = opening::entry_stored(log, at, fat_type, entry)->0;
            entry_put(log, at, stored.next, entry, fat_type, stored.answer)
        }),
{
}

/// What the file of `entry` cannot be opened for, whatever the device and the table answer.
pub open spec fn entry_refused<E>(
    before: ManagerState<E>,
    max_files: nat,
    volume_idx: VolumeIdx,
    entry: DirEntry,
    mode: Mode,
    error: Error<E>,
) -> bool {
    if before.open_files.len() >= max_files {
        error is TooManyOpenFiles
    } else if cluster_listed(before.open_dirs, volume_idx, entry.cluster) {
        error is DirAlreadyOpen
    } else if entry_listed(before.open_files, volume_idx, entry) || entry.cluster.0 >= 2
        && cluster_listed(before.open_files, volume_idx, entry.cluster) {
        error is FileAlreadyOpen
    } else if directory_bit(entry) {
        error is OpenedDirAsFile
    } else {
        &&& read_only_bit(entry)
        &&& mode != Mode::ReadOnly
        &&& error is ReadOnly
    }
}

/// `answer` and `after` are what opening the file of `entry` in `mode` gives, with the exchanges
/// from `at` to the end of `log`: at its start to be read, at its end to be added to, and empty,
/// on the device too, to be written anew. In no mode is a file that is there created.
pub open spec fn entry_open<E>(
    log: Seq<Exchange<E>>,
    at: int,
    before: ManagerState<E>,
    after: ManagerState<E>,
    max_files: nat,
    volume_idx: VolumeIdx,
    fat_type: FatType,
    entry: DirEntry,
    mode: Mode,
    answer: Result<File, Error<E>>,
) -> bool {
    let end = after.log.len() as int;
    if exists|error: Error<E>|
        entry_refused(before, max_files, volume_idx, entry, mode, error) {
        &&& answer matches Err(error)
        &&& entry_refused(before, max_files, volume_idx, entry, mode, error)
        &&& nothing_opened(before, after)
        &&& end == at
    } else {
        match mode {
            Mode::ReadOnly => {
                &&& answer matches Ok(file)
                &&& opened_from(file, entry, Mode::ReadOnly)
                &&& file.current_offset == 0
                &&& file.length == entry.size
                &&& file_added(before, after, volume_idx, file)
                &&& end == at
            },
            Mode::ReadWriteAppend | Mode::ReadWriteCreateOrAppend => {
                &&& answer matches Ok(file)
                &&& opened_from(file, entry, Mode::ReadWriteAppend)
                &&& file.current_offset == entry.size
                &&& file.length == entry.size
                &&& file_added(before, after, volume_idx, file)
                &&& end == at
            },
            Mode::ReadWriteTruncate | Mode::ReadWriteCreateOrTruncate => {
                &&& at < log.len()
                &&& log[at] matches Exchange::TruncateClusterChain { cluster, answer: cut }
                &&& cluster == entry.cluster
                &&& match cut {
                    Err(error) => {
                        &&& answer == Err::<File, Error<E>>(error)
                        &&& end == at + 1
                        &&& after.open_dirs == before.open_dirs
                        &&& after.open_files == before.open_files
                        &&& id_used(before, after)
                    },
                    Ok(()) => match answer {
                        Err(error) => {
                            &&& entry_put(
                                log,
                                at + 1,
                                end,
                                DirEntry { size: 0, ..entry },
                                fat_type,
                                Err::<(), Error<E>>(error),
                            )
                            &&& after.open_dirs == before.open_dirs
                            &&& after.open_files == before.open_files
                            &&& id_used(before, after)
                        },
                        Ok(file) => {
                            &&& entry_put(
                                log,
                                at + 1,
                                end,
                                DirEntry { size: 0, ..entry },
                                fat_type,
                                Ok::<(), Error<E>>(()),
                            )
                            &&& opened_from(file, entry, Mode::ReadWriteTruncate)
                            &&& file.current_offset == 0
                            &&& file.length == 0
                            &&& file_added(before, after, volume_idx, file)
                        },
                    },
                }
            },
            Mode::ReadWriteCreate => {
                &&& answer == Err::<File, Error<E>>(Error::Unsupported)
                &&& after.open_dirs == before.open_dirs
                &&& after.open_files == before.open_files
                &&& id_used(before, after)
                &&& end == at
            },
        }
    }
}

/// What opening the file of an entry gives, for every mode and every answer.
pub proof fn law_opening_an_entry<E>(
    log: Seq<Exchange<E>>,
    before: ManagerState<E>,
    max_files: nat,
    volume_idx: VolumeIdx,
    fat_type: FatType,
    entry: DirEntry,
    mode: Mode,
)
    requires
        before.log.len() <= log.len(),
        opening::entry_opened(
            log,
            before,
            max_files,
            volume_idx,
            fat_type,
            entry,
            mode,
        ) is Some,
    ensures
        ({
            let opened = opening::entry_opened(
                log,
                before,
                max_files,
                volume_idx,
                fat_type,
                entry,
                mode,
            )->0;
            entry_open(
                log,
                before.log.len() as int,
                before,
                opened.after,
                max_files,
                volume_idx,
                fat_type,
                entry,
                mode,
                opened.answer,
            )
        }),
{
    let at = before.log.len() as int;
    law_attribute_bits(entry.attributes);
    lemma_listed(before.open_dirs, volume_idx, entry.cluster);
    lemma_listed(before.open_files, volume_idx, entry.cluster);
    lemma_entry_listed(before.open_files, volume_idx, entry);
    let refusal = opening::refusal(before, max_files, volume_idx, entry, mode);
    if let Some(error) = refusal {
        assert(entry_refused(before, max_files, volume_idx, entry, mode, error));
    } else {
        assert forall|error: Error<E>| !entry_refused(
            before,
            max_files,
            volume_idx,
            entry,
            mode,
            error,
        ) by {}
        if at < log.len() && log[at] is TruncateClusterChain {
            let emptied = DirEntry { size: 0, ..entry };
            if opening::entry_stored(log, at + 1, fat_type, emptied) is Some {
                law_storing_an_entry_replaces_it_alone(log, at + 1, fat_type, emptied);
            }
        }
    }
}

/// What opening a file by its name gives, for every mode and every answer: where nothing is found
/// by the name, it is created in each of the three modes that create, and there is no such file in
/// the others; where something is found, it is opened as its entry is, unless it is open or was to
/// be created.
pub proof fn law_opening_by_name<E>(
    log: Seq<Exchange<E>>,
    before: ManagerState<E>,
    max_files: nat,
    volume_idx: VolumeIdx,
    fat_type: FatType,
    dir: Directory,
    name: Seq<char>,
    mode: Mode,
)
    requires
        before.log.len() <= log.len(),
        opening::file_opened(
            log,
            before,
            max_files,
            volume_idx,
            fat_type,
            dir,
            name,
            mode,
        ) is Some,
    ensures
        ({
            let at = before.log.len() as int;
            let opened = opening::file_opened(
                log,
                before,
                max_files,
                volume_idx,
                fat_type,
                dir,
                name,
                mode,
            )->0;
            let end = opened.after.log.len() as int;
            &&& at < log.len()
            &&& log[at] matches Exchange::FindDirectoryEntry { dir: in_dir, name: asked, answer }
            &&& in_dir == dir
            &&& asked == name
            &&& if before.open_files.len() >= max_files {
                &&& opened.answer == Err::<File, Error<E>>(Error::TooManyOpenFiles)
                &&& nothing_opened(before, opened.after)
                &&& end == at + 1
            } else {
                match answer {
                    Ok(entry) => if cluster_listed(before.open_files, volume_idx, entry.cluster) {
                        &&& opened.answer == Err::<File, Error<E>>(Error::FileAlreadyOpen)
                        &&& nothing_opened(before, opened.after)
                        &&& end == at + 1
                    } else if mode == Mode::ReadWriteCreate {
                        &&& opened.answer == Err::<File, Error<E>>(Error::FileAlreadyExists)
                        &&& nothing_opened(before, opened.after)
                        &&& end == at + 1
                    } else {
                        entry_open(
                            log,
                            at + 1,
                            before,
                            opened.after,
                            max_files,
                            volume_idx,
                            fat_type,
                            entry,
                            mode,
                            opened.answer,
                        )
                    },
                    Err(_) => if mode == Mode::ReadOnly || mode == Mode::ReadWriteAppend || mode
                        == Mode::ReadWriteTruncate {
                        &&& opened.answer == Err::<File, Error<E>>(Error::FileNotFound)
                        &&& nothing_opened(before, opened.after)
                        &&& end == at + 1
                    } else {
                        &&& at + 1 < log.len()
                        &&& log[at + 1] matches Exchange::CreateFromStr {
                            name: spelled,
                            answer: named,
                        }
                        &&& spelled == name
                        &&& match named {
                            Err(error) => {
                                &&& opened.answer == Err::<File, Error<E>>(
                                    Error::FilenameError(error),
                                )
                                &&& nothing_opened(before, opened.after)
                                &&& end == at + 2
                            },
                            Ok(short_name) => {
                                &&& at + 2 < log.len()
                                &&& end == at + 3
                                &&& log[at + 2] matches Exchange::WriteNewDirectoryEntry {
                                    dir: into,
                                    name: given,
                                    attributes,
                                    answer: added,
                                }
                                &&& into == dir
                                &&& given == short_name
                                &&& attributes.0 == 0
                                &&& match added {
                                    Err(error) => {
                                        &&& opened.answer == Err::<File, Error<E>>(error)
                                        &&& nothing_opened(before, opened.after)
                                    },
                                    Ok(entry) => {
                                        &&& opened.answer matches Ok(file)
                                        &&& opened_from(file, entry, Mode::ReadWriteCreate)
                                        &&& file.current_offset == 0
                                        &&& file.length == entry.size
                                        &&& file_added(before, opened.after, volume_idx, file)
                                    },
                                }
                            },
                        }
                    },
                }
            }
        }),
{
    let at = before.log.len() as int;
    let seen = before.with_log(log.take(at + 1));
    if let Exchange::FindDirectoryEntry { answer: Ok(entry), .. } = log[at] {
        lemma_listed(before.open_files, volume_idx, entry.cluster);
        if before.open_files.len() < max_files && !cluster_listed(
            before.open_files,
            volume_idx,
            entry.cluster,
        ) && mode != Mode::ReadWriteCreate {
            law_opening_an_entry(log, seen, max_files, volume_idx, fat_type, entry, mode);
            let opened = opening::entry_opened(
                log,
                seen,
                max_files,
                volume_idx,
                fat_type,
                entry,
                mode,
            )->0;
            lemma_seen_is_before(
                log,
                at + 1,
                seen,
                before,
                opened.after,
                max_files,
                volume_idx,
                fat_type,
                entry,
                mode,
                opened.answer,
            );
        }
    }
}

/// What is said of opening an entry does not depend on the record before it.
proof fn lemma_seen_is_before<E>(
    log: Seq<Exchange<E>>,
    at: int,
    seen: ManagerState<E>,
    before: ManagerState<E>,
    after: ManagerState<E>,
    max_files: nat,
    volume_idx: VolumeIdx,
    fat_type: FatType,
    entry: DirEntry,
    mode: Mode,
    answer: Result<File, Error<E>>,
)
    requires
        nothing_opened(before, seen),
        entry_open(
            log,
            at,
            seen,
            after,
            max_files,
            volume_idx,
            fat_type,
            entry,
            mode,
            answer,
        ),
    ensures
        entry_open(
            log,
            at,
            before,
            after,
            max_files,
            volume_idx,
            fat_type,
            entry,
            mode,
            answer,
        ),
{
    assert forall|error: Error<E>|
        #[trigger] entry_refused(seen, max_files, volume_idx, entry, mode, error)
            == entry_refused(before, max_files, volume_idx, entry, mode, error) by {}
    if exists|error: Error<E>| entry_refused(before, max_files, volume_idx, entry, mode, error) {
        let error = choose|error: Error<E>|
            entry_refused(before, max_files, volume_idx, entry, mode, error);
        assert(entry_refused(seen, max_files, volume_idx, entry, mode, error));
    } else {
        assert forall|error: Error<E>|
            !#[trigger] entry_refused(seen, max_files, volume_idx, entry, mode, error) by {
            assert(!entry_refused(before, max_files, volume_idx, entry, mode, error));
        }
    }
}

/// A file is deleted by its name if it is there, is no directory, and is not open; then the table
/// is asked to take out its entry, and what it answers is what is given. Anything else is refused,
/// with the reason for it, and nothing is taken out.
pub proof fn law_closed_file_is_deleted<E>(
    log: Seq<Exchange<E>>,
    before: ManagerState<E>,
    volume_idx: VolumeIdx,
    dir: Directory,
    name: Seq<char>,
)
    requires
        opening::file_deleted(log, before, volume_idx, dir, name) is Some,
    ensures
        ({
            let at = before.log.len() as int;
            let deleted = opening::file_deleted(log, before, volume_idx, dir, name)->0;
            &&& at < log.len()
            &&& log[at] matches Exchange::FindDirectoryEntry { dir: in_dir, name: asked, answer }
            &&& in_dir == dir
            &&& asked == name
            &&& match answer {
                Err(error) => deleted.answer == Err::<(), Error<E>>(error) && deleted.next == at
                    + 1,
                Ok(entry) => if directory_bit(entry) {
                    &&& deleted.answer == Err::<(), Error<E>>(Error::DeleteDirAsFile)
                    &&& deleted.next == at + 1
                } else if cluster_listed(before.open_files, volume_idx, entry.cluster)
                    || entry_listed(before.open_files, volume_idx, entry) {
                    &&& deleted.answer == Err::<(), Error<E>>(Error::FileIsOpen)
                    &&& deleted.next == at + 1
                } else {
                    &&& deleted.next == at + 2
                    &&& at + 1 < log.len()
                    &&& log[at + 1] matches Exchange::DeleteDirectoryEntry {
                        dir: out_of,
                        name: taken,
                        answer: gone,
                    }
                    &&& out_of == dir
                    &&& taken == name
                    &&& deleted.answer == gone
                },
            }
        }),
{
    let at = before.log.len() as int;
    if let Exchange::FindDirectoryEntry { answer: Ok(entry), .. } = log[at] {
        law_attribute_bits(entry.attributes);
        lemma_listed(before.open_files, volume_idx, entry.cluster);
        lemma_entry_listed(before.open_files, volume_idx, entry);
    }
}

} // verus!
