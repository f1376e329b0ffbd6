//! What holds of opening and closing.
use crate::blockdevice::BlockDevice;
use crate::error::Error;
use crate::exchange;
use crate::exchange::Exchange;
use crate::filesystem::{Cluster, DirEntry, Directory, File, Mode, SearchId, TimeSource};
use crate::open_list;
use crate::open_list::ClusterDescriptor;
use crate::opening;
use crate::record;
use crate::state::ManagerState;
use crate::storage;
use crate::volume::{FatLayout, FatTable, FatType, VolumeIdx};
use crate::writing;
use vstd::prelude::*;

verus! {

/// No two in `list` are found by the same id.
pub open spec fn ids_differ(list: Seq<ClusterDescriptor>) -> bool {
    forall|i: int, j: int|
        0 <= i < j < list.len() ==> (#[trigger] list[i]).search_id != (
        #[trigger] list[j]).search_id
}

/// No two in `list` start with the same cluster of the same volume.
pub open spec fn starts_differ(list: Seq<ClusterDescriptor>) -> bool {
    forall|i: int, j: int|
        0 <= i < j < list.len() ==> !(#[trigger] list[i]).starts_at(
            (#[trigger] list[j]).volume_idx,
            list[j].cluster,
        )
}

/// No more directories are open than can be, and none is open twice.
pub open spec fn dirs_are_open_once<E>(state: ManagerState<E>, max_dirs: nat) -> bool {
    &&& state.open_dirs.len() <= max_dirs
    &&& starts_differ(state.open_dirs)
}

/// No more is open than can be, no two open files or directories have the same id, and no
/// directory is open twice.
pub open spec fn well_kept<E>(state: ManagerState<E>, max_dirs: nat, max_files: nat) -> bool {
    &&& dirs_are_open_once(state, max_dirs)
    &&& state.open_files.len() <= max_files
    &&& ids_differ(state.open_dirs)
    &&& ids_differ(state.open_files)
    &&& forall|i: int, j: int|
        0 <= i < state.open_dirs.len() && 0 <= j < state.open_files.len() ==> (
        #[trigger] state.open_dirs[i]).search_id != (#[trigger] state.open_files[j]).search_id
}

/// Nothing that is open has the id that is given out next.
pub open spec fn next_id_is_free<E>(state: ManagerState<E>) -> bool {
    &&& !open_list::has_id(state.open_dirs, state.id())
    &&& !open_list::has_id(state.open_files, state.id())
}

/// All that is open has an id below the one that is given out next.
pub open spec fn ids_are_below<E>(state: ManagerState<E>) -> bool {
    &&& forall|i: int|
        0 <= i < state.open_dirs.len() ==> (#[trigger] state.open_dirs[i]).search_id.0
            < state.next_id
    &&& forall|i: int|
        0 <= i < state.open_files.len() ==> (#[trigger] state.open_files[i]).search_id.0
            < state.next_id
}

/// The list of open files has `file`, of volume `volume_idx`.
pub open spec fn lists<E>(state: ManagerState<E>, volume_idx: VolumeIdx, file: File) -> bool {
    state.open_files.contains(open_list::file_descriptor(volume_idx, file))
}

/// At first, everything is well kept, and no id was given out.
pub proof fn law_start_is_well_kept<E>(max_dirs: nat, max_files: nat)
    ensures
        well_kept(ManagerState::<E>::initial(), max_dirs, max_files),
        ids_are_below(ManagerState::<E>::initial()),
{
}

/// Opening a directory keeps everything well kept, as long as the next id is free.
pub proof fn law_opening_a_dir_is_well_kept<E>(
    log: Seq<Exchange<E>>,
    before: ManagerState<E>,
    max_dirs: nat,
    max_files: nat,
    volume_idx: VolumeIdx,
    cluster: Cluster,
    parent_dir: Directory,
    name: Seq<char>,
)
    requires
        well_kept(before, max_dirs, max_files),
        next_id_is_free(before),
    ensures
        well_kept(
            opening::dir_opened(before, max_dirs, volume_idx, cluster).after,
            max_dirs,
            max_files,
        ),
        opening::named_dir_opened(
            log,
            before,
            max_dirs,
            volume_idx,
            parent_dir,
            name,
        ) matches Some(opened) ==> well_kept(opened.after, max_dirs, max_files),
{
    assert forall|i: int| 0 <= i < before.open_dirs.len() implies (
    #[trigger] before.open_dirs[i]).search_id != before.id() by {}
    assert forall|i: int| 0 <= i < before.open_files.len() implies (
    #[trigger] before.open_files[i]).search_id != before.id() by {}
}

/// Opening a file keeps everything well kept, as long as the next id is free.
pub proof fn law_opening_a_file_is_well_kept<E>(
    log: Seq<Exchange<E>>,
    before: ManagerState<E>,
    max_dirs: nat,
    max_files: nat,
    volume_idx: VolumeIdx,
    fat_type: FatType,
    entry: DirEntry,
    dir: Directory,
    name: Seq<char>,
    mode: Mode,
)
    requires
        well_kept(before, max_dirs, max_files),
        next_id_is_free(before),
    ensures
        opening::entry_opened(
            log,
            before,
            max_files,
            volume_idx,
            fat_type,
            entry,
            mode,
        ) matches Some(opened) ==> well_kept(opened.after, max_dirs, max_files),
        opening::file_opened(
            log,
            before,
            max_files,
            volume_idx,
            fat_type,
            dir,
            name,
            mode,
        ) matches Some(opened) ==> well_kept(opened.after, max_dirs, max_files),
{
    assert forall|i: int| 0 <= i < before.open_dirs.len() implies (
    #[trigger] before.open_dirs[i]).search_id != before.id() by {}
    assert forall|i: int| 0 <= i < before.open_files.len() implies (
    #[trigger] before.open_files[i]).search_id != before.id() by {}
}

/// Until the ids start anew, the next one is free: all that is open has an id below it, whatever
/// is opened.
pub proof fn law_next_id_is_free<E>(
    log: Seq<Exchange<E>>,
    before: ManagerState<E>,
    max_dirs: nat,
    max_files: nat,
    volume_idx: VolumeIdx,
    cluster: Cluster,
    fat_type: FatType,
    entry: DirEntry,
    dir: Directory,
    name: Seq<char>,
    mode: Mode,
)
    requires
        ids_are_below(before),
    ensures
        next_id_is_free(before),
        before.next_id < u32::MAX ==> {
            &&& ids_are_below(opening::dir_opened(before, max_dirs, volume_idx, cluster).after)
            &&& opening::named_dir_opened(
                log,
                before,
                max_dirs,
                volume_idx,
                dir,
                name,
            ) matches Some(opened) ==> ids_are_below(opened.after)
            &&& opening::entry_opened(
                log,
                before,
                max_files,
                volume_idx,
                fat_type,
                entry,
                mode,
            ) matches Some(opened) ==> ids_are_below(opened.after)
            &&& opening::file_opened(
                log,
                before,
                max_files,
                volume_idx,
                fat_type,
                dir,
                name,
                mode,
            ) matches Some(opened) ==> ids_are_below(opened.after)
        },
{
}

/// Closing keeps everything well kept, and ids below the next one.
pub proof fn law_closing_is_well_kept<E>(
    before: ManagerState<E>,
    max_dirs: nat,
    max_files: nat,
    id: SearchId,
)
    requires
        well_kept(before, max_dirs, max_files),
    ensures
        open_list::has_id(before.open_dirs, id) ==> {
            let after = ManagerState {
                open_dirs: open_list::without_id(before.open_dirs, id),
                ..before
            };
            &&& well_kept(after, max_dirs, max_files)
            &&& ids_are_below(before) ==> ids_are_below(after)
        },
        open_list::has_id(before.open_files, id) ==> {
            let after = ManagerState {
                open_files: open_list::without_id(before.open_files, id),
                ..before
            };
            &&& well_kept(after, max_dirs, max_files)
            &&& ids_are_below(before) ==> ids_are_below(after)
        },
{
    if open_list::has_id(before.open_dirs, id) {
        lemma_id_has_a_position(before.open_dirs, id);
    }
    if open_list::has_id(before.open_files, id) {
        lemma_id_has_a_position(before.open_files, id);
    }
}

/// Writing keeps everything well kept, and ids below the next one.
pub proof fn law_writing_is_well_kept<E>(
    log: Seq<Exchange<E>>,
    before: ManagerState<E>,
    max_dirs: nat,
    max_files: nat,
    layout: FatLayout,
    file: File,
    buffer: Seq<u8>,
)
    requires
        well_kept(before, max_dirs, max_files),
    ensures
        writing::file_write(log, before, layout, file, buffer) matches Some(written) ==> {
            &&& well_kept(written.after, max_dirs, max_files)
            &&& ids_are_below(before) ==> ids_are_below(written.after)
        },
{
    if open_list::has_id(before.open_files, file.search_id) {
        lemma_id_has_a_position(before.open_files, file.search_id);
    }
}

/// What is found by an id is found first somewhere.
pub proof fn lemma_id_has_a_position(list: Seq<ClusterDescriptor>, id: SearchId)
    requires
        open_list::has_id(list, id),
    ensures
        open_list::is_first_with_id(list, id, open_list::position_of(list, id)),
{
    let some = choose|i: int| 0 <= i < list.len() && (#[trigger] list[i]).search_id == id;
    lemma_some_is_first(list, id, some);
}

/// If something at or before `some` is found by an id, something is found first.
proof fn lemma_some_is_first(list: Seq<ClusterDescriptor>, id: SearchId, some: int)
    requires
        0 <= some < list.len(),
        list[some].search_id == id,
    ensures
        exists|position: int| open_list::is_first_with_id(list, id, position),
    decreases some,
{
    if !open_list::is_first_with_id(list, id, some) {
        let earlier = choose|i: int| 0 <= i < some && (#[trigger] list[i]).search_id == id;
        lemma_some_is_first(list, id, earlier);
    }
}

/// Closing takes out what is found by the id, and nothing else; the rest keeps its order.
pub proof fn law_closing_takes_out_one(list: Seq<ClusterDescriptor>, id: SearchId)
    requires
        ids_differ(list),
        open_list::has_id(list, id),
    ensures
        open_list::without_id(list, id) == list.filter(|d: ClusterDescriptor| d.search_id != id),
{
    lemma_id_has_a_position(list, id);
    let position = open_list::position_of(list, id);
    lemma_filter_takes_out_one(list, id, position);
}

/// Where one in a list is found by an id, those that are not are the others.
proof fn lemma_filter_takes_out_one(list: Seq<ClusterDescriptor>, id: SearchId, position: int)
    requires
        0 <= position < list.len(),
        list[position].search_id == id,
        forall|i: int|
            0 <= i < list.len() && i != position ==> (#[trigger] list[i]).search_id != id,
    ensures
        list.filter(|d: ClusterDescriptor| d.search_id != id) == list.remove(position),
    decreases list.len(),
{
    reveal(Seq::filter);
    let rest = list.drop_last();
    if position == list.len() - 1 {
        lemma_filter_takes_out_none(rest, id);
        assert(list.remove(position) =~= rest);
    } else {
        lemma_filter_takes_out_one(rest, id, position);
        assert(list.remove(position) =~= rest.remove(position).push(list.last()));
    }
}

/// Where none in a list is found by an id, those that are not are all.
proof fn lemma_filter_takes_out_none(list: Seq<ClusterDescriptor>, id: SearchId)
    requires
        forall|i: int| 0 <= i < list.len() ==> (#[trigger] list[i]).search_id != id,
    ensures
        list.filter(|d: ClusterDescriptor| d.search_id != id) == list,
    decreases list.len(),
{
    reveal(Seq::filter);
    if list.len() > 0 {
        lemma_filter_takes_out_none(list.drop_last(), id);
        assert(list =~= list.drop_last().push(list.last()));
    }
}

/// Closing leaves the others in the list.
pub proof fn law_closing_leaves_the_others(
    list: Seq<ClusterDescriptor>,
    other: ClusterDescriptor,
    id: SearchId,
)
    requires
        list.contains(other),
        other.search_id != id,
        open_list::has_id(list, id),
    ensures
        open_list::without_id(list, id).contains(other),
{
    let i = list.index_of(other);
    lemma_id_has_a_position(list, id);
    let position = open_list::position_of(list, id);
    let rest = open_list::without_id(list, id);
    if i < position {
        assert(rest[i] == other);
    } else {
        assert(rest[i - 1] == other);
    }
}

/// Closing a directory that was just opened leaves the directories that were open before.
pub proof fn law_closing_undoes_opening_a_dir<E>(
    log: Seq<Exchange<E>>,
    before: ManagerState<E>,
    max_dirs: nat,
    volume_idx: VolumeIdx,
    cluster: Cluster,
    parent_dir: Directory,
    name: Seq<char>,
)
    requires
        !open_list::has_id(before.open_dirs, before.id()),
    ensures
        ({
            let opened = opening::dir_opened(before, max_dirs, volume_idx, cluster);
            opened.answer matches Ok(dir) ==> {
                &&& open_list::has_id(opened.after.open_dirs, dir.search_id)
                &&& open_list::without_id(opened.after.open_dirs, dir.search_id)
                    == before.open_dirs
                &&& opened.after.open_files == before.open_files
            }
        }),
        opening::named_dir_opened(
            log,
            before,
            max_dirs,
            volume_idx,
            parent_dir,
            name,
        ) matches Some(opened) ==> (opened.answer matches Ok(dir) ==> {
            &&& open_list::has_id(opened.after.open_dirs, dir.search_id)
            &&& open_list::without_id(opened.after.open_dirs, dir.search_id) == before.open_dirs
            &&& opened.after.open_files == before.open_files
        }),
{
    lemma_newest_is_found(before.open_dirs, before.next_id);
}

/// Closing a file that was just opened leaves the files that were open before.
pub proof fn law_closing_undoes_opening_a_file<E>(
    log: Seq<Exchange<E>>,
    before: ManagerState<E>,
    max_files: nat,
    volume_idx: VolumeIdx,
    fat_type: FatType,
    entry: DirEntry,
    dir: Directory,
    name: Seq<char>,
    mode: Mode,
)
    requires
        !open_list::has_id(before.open_files, before.id()),
    ensures
        opening::entry_opened(
            log,
            before,
            max_files,
            volume_idx,
            fat_type,
            entry,
            mode,
        ) matches Some(opened) ==> (opened.answer matches Ok(file) ==> {
            &&& open_list::has_id(opened.after.open_files, file.search_id)
            &&& open_list::without_id(opened.after.open_files, file.search_id)
                == before.open_files
            &&& opened.after.open_dirs == before.open_dirs
        }),
        opening::file_opened(
            log,
            before,
            max_files,
            volume_idx,
            fat_type,
            dir,
            name,
            mode,
        ) matches Some(opened) ==> (opened.answer matches Ok(file) ==> {
            &&& open_list::has_id(opened.after.open_files, file.search_id)
            &&& open_list::without_id(opened.after.open_files, file.search_id)
                == before.open_files
            &&& opened.after.open_dirs == before.open_dirs
        }),
{
    lemma_newest_is_found(before.open_files, before.next_id);
}

/// What was added last, with an id of its own, is what is found by that id.
proof fn lemma_newest_is_found(list: Seq<ClusterDescriptor>, next_id: u32)
    requires
        !open_list::has_id(list, SearchId(next_id)),
    ensures
        forall|newest: ClusterDescriptor|
            newest.search_id == SearchId(next_id) ==> {
                &&& open_list::has_id(#[trigger] list.push(newest), SearchId(next_id))
                &&& open_list::without_id(list.push(newest), SearchId(next_id)) == list
            },
{
    assert forall|newest: ClusterDescriptor| newest.search_id == SearchId(next_id) implies {
        &&& open_list::has_id(#[trigger] list.push(newest), SearchId(next_id))
        &&& open_list::without_id(list.push(newest), SearchId(next_id)) == list
    } by {
        let longer = list.push(newest);
        let position = list.len() as int;
        assert(open_list::is_first_with_id(longer, SearchId(next_id), position));
        open_list::lemma_position_of(longer, SearchId(next_id), position);
        assert(longer.remove(position) =~= list);
    }
}

/// A directory can only be opened once: as long as it is open, it is not opened again, neither as
/// a directory nor as a file, and nothing changes.
pub proof fn law_dir_is_opened_once<E>(
    log: Seq<Exchange<E>>,
    state: ManagerState<E>,
    max_dirs: nat,
    max_files: nat,
    volume_idx: VolumeIdx,
    fat_type: FatType,
    entry: DirEntry,
    mode: Mode,
)
    requires
        open_list::is_open(state.open_dirs, volume_idx, entry.cluster),
    ensures
        ({
            let opened = opening::dir_opened(state, max_dirs, volume_idx, entry.cluster);
            &&& opened.after == state
            &&& opened.answer == Err::<Directory, Error<E>>(
                if state.open_dirs.len() >= max_dirs {
                    Error::TooManyOpenDirs
                } else {
                    Error::DirAlreadyOpen
                },
            )
        }),
        opening::entry_opened(
            log,
            state,
            max_files,
            volume_idx,
            fat_type,
            entry,
            mode,
        ) == Some(
            opening::refused(
                state,
                if state.open_files.len() >= max_files {
                    Error::TooManyOpenFiles
                } else {
                    Error::DirAlreadyOpen
                },
            ),
        ),
{
}

/// No more directories are ever open than can be, and none is open twice, whatever is opened,
/// closed or written, and whichever ids are given out.
pub proof fn law_no_dir_is_open_twice<E>(
    log: Seq<Exchange<E>>,
    before: ManagerState<E>,
    max_dirs: nat,
    max_files: nat,
    volume_idx: VolumeIdx,
    cluster: Cluster,
    layout: FatLayout,
    entry: DirEntry,
    dir: Directory,
    name: Seq<char>,
    mode: Mode,
    id: SearchId,
    file: File,
    buffer: Seq<u8>,
)
    requires
        dirs_are_open_once(before, max_dirs),
    ensures
        dirs_are_open_once(
            opening::dir_opened(before, max_dirs, volume_idx, cluster).after,
            max_dirs,
        ),
        opening::named_dir_opened(
            log,
            before,
            max_dirs,
            volume_idx,
            dir,
            name,
        ) matches Some(opened) ==> dirs_are_open_once(opened.after, max_dirs),
        opening::entry_opened(
            log,
            before,
            max_files,
            volume_idx,
            layout.fat_type,
            entry,
            mode,
        ) matches Some(opened) ==> dirs_are_open_once(opened.after, max_dirs),
        opening::file_opened(
            log,
            before,
            max_files,
            volume_idx,
            layout.fat_type,
            dir,
            name,
            mode,
        ) matches Some(opened) ==> dirs_are_open_once(opened.after, max_dirs),
        writing::file_write(log, before, layout, file, buffer) matches Some(written)
            ==> dirs_are_open_once(written.after, max_dirs),
        open_list::has_id(before.open_dirs, id) ==> dirs_are_open_once(
            ManagerState { open_dirs: open_list::without_id(before.open_dirs, id), ..before },
            max_dirs,
        ),
{
    if open_list::has_id(before.open_dirs, id) {
        lemma_id_has_a_position(before.open_dirs, id);
    }
}

/// A directory that was opened is open.
pub proof fn law_opened_dir_is_open<E>(
    log: Seq<Exchange<E>>,
    before: ManagerState<E>,
    max_dirs: nat,
    volume_idx: VolumeIdx,
    cluster: Cluster,
    parent_dir: Directory,
    name: Seq<char>,
)
    ensures
        ({
            let opened = opening::dir_opened(before, max_dirs, volume_idx, cluster);
            opened.answer matches Ok(dir) ==> open_list::is_open(
                opened.after.open_dirs,
                volume_idx,
                dir.cluster,
            )
        }),
        opening::named_dir_opened(
            log,
            before,
            max_dirs,
            volume_idx,
            parent_dir,
            name,
        ) matches Some(opened) ==> (opened.answer matches Ok(dir) ==> open_list::is_open(
            opened.after.open_dirs,
            volume_idx,
            dir.cluster,
        )),
{
    lemma_newest_is_there(before.open_dirs);
}

/// What was added to a list is in it.
proof fn lemma_newest_is_there(list: Seq<ClusterDescriptor>)
    ensures
        forall|newest: ClusterDescriptor|
            {
                &&& (#[trigger] list.push(newest)).contains(newest)
                &&& open_list::is_open(list.push(newest), newest.volume_idx, newest.cluster)
            },
{
    assert forall|newest: ClusterDescriptor|
        {
            &&& (#[trigger] list.push(newest)).contains(newest)
            &&& open_list::is_open(list.push(newest), newest.volume_idx, newest.cluster)
        } by {
        let position = list.len() as int;
        assert(list.push(newest)[position] == newest);
        assert(list.push(newest)[position].starts_at(newest.volume_idx, newest.cluster));
    }
}

/// A file can only be opened once: as long as it is open, its entry is not opened again, and it is
/// neither opened nor deleted by its name. No list changes.
pub proof fn law_file_is_opened_once<E>(
    log: Seq<Exchange<E>>,
    state: ManagerState<E>,
    max_files: nat,
    volume_idx: VolumeIdx,
    fat_type: FatType,
    entry: DirEntry,
    dir: Directory,
    name: Seq<char>,
    mode: Mode,
)
    requires
        open_list::file_is_open(state.open_files, volume_idx, entry),
        record::answered_find(log, state.log.len() as int, dir, name) == Some(
            Ok::<DirEntry, Error<E>>(entry),
        ),
    ensures
        ({
            let full = state.open_files.len() >= max_files;
            let dir_open = open_list::is_open(state.open_dirs, volume_idx, entry.cluster);
            let cluster_open = open_list::is_open(state.open_files, volume_idx, entry.cluster);
            let seen = state.with_log(log.take(state.log.len() as int + 1));
            &&& opening::entry_opened(
                log,
                state,
                max_files,
                volume_idx,
                fat_type,
                entry,
                mode,
            ) == Some(
                opening::refused(
                    state,
                    if full {
                        Error::TooManyOpenFiles
                    } else if dir_open {
                        Error::DirAlreadyOpen
                    } else {
                        Error::FileAlreadyOpen
                    },
                ),
            )
            &&& opening::file_opened(
                log,
                state,
                max_files,
                volume_idx,
                fat_type,
                dir,
                name,
                mode,
            ) == Some(
                opening::refused(
                    seen,
                    if full {
                        Error::TooManyOpenFiles
                    } else if cluster_open {
                        Error::FileAlreadyOpen
                    } else if mode == Mode::ReadWriteCreate {
                        Error::FileAlreadyExists
                    } else if dir_open {
                        Error::DirAlreadyOpen
                    } else {
                        Error::FileAlreadyOpen
                    },
                ),
            )
            &&& opening::file_deleted(log, state, volume_idx, dir, name) == Some(
                opening::FileDeleted {
                    next: state.log.len() as int + 1,
                    answer: Err::<(), Error<E>>(
                        if entry.attributes.directory() {
                            Error::DeleteDirAsFile
                        } else {
                            Error::FileIsOpen
                        },
                    ),
                },
            )
        }),
{
}

/// A file that is listed is open, and can be closed.
pub proof fn law_listed_file_is_open<E>(state: ManagerState<E>, volume_idx: VolumeIdx, file: File)
    requires
        lists(state, volume_idx, file),
    ensures
        open_list::file_is_open(state.open_files, volume_idx, file.entry),
        open_list::is_open(state.open_files, volume_idx, file.starting_cluster),
        open_list::has_id(state.open_files, file.search_id),
{
    let i = state.open_files.index_of(open_list::file_descriptor(volume_idx, file));
    assert(state.open_files[i].starts_at(volume_idx, file.starting_cluster));
    assert(state.open_files[i].has_entry(volume_idx, open_list::place_of(file.entry)));
}

/// A file without a cluster can be opened by its entry while others without one are open: they
/// are told apart by where their entries are kept.
pub proof fn law_files_without_clusters_are_told_apart<E>(
    log: Seq<Exchange<E>>,
    state: ManagerState<E>,
    max_files: nat,
    volume_idx: VolumeIdx,
    fat_type: FatType,
    entry: DirEntry,
)
    requires
        state.open_files.len() < max_files,
        entry.cluster.0 < 2,
        !entry.attributes.directory(),
        !open_list::is_open(state.open_dirs, volume_idx, entry.cluster),
        !open_list::has_entry(state.open_files, volume_idx, open_list::place_of(entry)),
    ensures
        ({
            let opened = opening::entry_opened(
                log,
                state,
                max_files,
                volume_idx,
                fat_type,
                entry,
                Mode::ReadOnly,
            );
            opened is Some && opened->0.answer is Ok
        }),
{
}

/// To open a file that is there by its name is to open its entry, with the same answer and the
/// same change to the table; it is not created anew.
pub proof fn law_opening_by_name_opens_the_entry<D: BlockDevice, T: TimeSource, F: FatTable>(
    log: Seq<Exchange<D::Error>>,
    before: ManagerState<D::Error>,
    max_files: nat,
    volume_idx: VolumeIdx,
    fat_type: FatType,
    entry: DirEntry,
    dir: Directory,
    name: Seq<char>,
    mode: Mode,
    device: D,
    clock: T,
    first: F,
    last: F,
)
    requires
        before.open_files.len() < max_files,
        record::answered_find(log, before.log.len() as int, dir, name) == Some(
            Ok::<DirEntry, Error<D::Error>>(entry),
        ),
        !open_list::is_open(before.open_files, volume_idx, entry.cluster),
        mode != Mode::ReadWriteCreate,
    ensures
        ({
            let at = before.log.len() as int;
            let seen = before.with_log(log.take(at + 1));
            let solved = opening::solved_mode(mode, true);
            let end = log.len() as int;
            &&& opening::file_opened(
                log,
                before,
                max_files,
                volume_idx,
                fat_type,
                dir,
                name,
                mode,
            ) == opening::entry_opened(
                log,
                seen,
                max_files,
                volume_idx,
                fat_type,
                entry,
                solved,
            )
            &&& exchange::happened(log, at, end, device, clock, first, last)
                ==> exchange::happened(log, at + 1, end, device, clock, first, last)
        }),
{
    let at = before.log.len() as int;
    let end = log.len() as int;
    if exchange::happened(log, at, end, device, clock, first, last) {
        exchange::lemma_first_happened(log, at, end, device, clock, first, last);
    }
}

/// A file that was opened is listed, and can be read: its position lies in the file.
pub proof fn law_opened_file_is_listed<E>(
    log: Seq<Exchange<E>>,
    before: ManagerState<E>,
    max_files: nat,
    volume_idx: VolumeIdx,
    fat_type: FatType,
    entry: DirEntry,
    dir: Directory,
    name: Seq<char>,
    mode: Mode,
)
    ensures
        opening::entry_opened(
            log,
            before,
            max_files,
            volume_idx,
            fat_type,
            entry,
            mode,
        ) matches Some(opened) ==> (opened.answer matches Ok(file) ==> lists(
            opened.after,
            volume_idx,
            file,
        ) && file.valid()),
        opening::file_opened(
            log,
            before,
            max_files,
            volume_idx,
            fat_type,
            dir,
            name,
            mode,
        ) matches Some(opened) ==> (opened.answer matches Ok(file) ==> lists(
            opened.after,
            volume_idx,
            file,
        ) && file.valid()),
{
    lemma_newest_is_there(before.open_files);
}

/// A file that is there is opened at its start to be read, at its end to be added to, and empty to
/// be written anew; a file that is created is opened at its start.
pub proof fn law_opened_file_is_at_its_place<E>(
    log: Seq<Exchange<E>>,
    before: ManagerState<E>,
    max_files: nat,
    volume_idx: VolumeIdx,
    fat_type: FatType,
    entry: DirEntry,
    dir: Directory,
    name: Seq<char>,
    mode: Mode,
)
    ensures
        opening::entry_opened(
            log,
            before,
            max_files,
            volume_idx,
            fat_type,
            entry,
            mode,
        ) matches Some(opened) ==> (opened.answer matches Ok(file) ==> {
            &&& file.mode == opening::solved_mode(mode, true)
            &&& file.starting_cluster == entry.cluster
            &&& match file.mode {
                Mode::ReadOnly => file.current_offset == 0 && file.length == entry.size,
                Mode::ReadWriteAppend => file.current_offset == file.length && file.length
                    == entry.size,
                Mode::ReadWriteTruncate => file.current_offset == 0 && file.length == 0
                    && file.entry.size == 0,
                _ => false,
            }
        }),
        opening::file_created(log, before, volume_idx, dir, name) matches Some(opened) ==> (
        opened.answer matches Ok(file) ==> file.mode == Mode::ReadWriteCreate
            && file.current_offset == 0),
{
}

/// A file stays listed while it is written, also where it is given its first cluster.
pub proof fn law_written_file_is_listed<E>(
    log: Seq<Exchange<E>>,
    before: ManagerState<E>,
    max_dirs: nat,
    max_files: nat,
    volume_idx: VolumeIdx,
    layout: FatLayout,
    file: File,
    buffer: Seq<u8>,
)
    requires
        well_kept(before, max_dirs, max_files),
        lists(before, volume_idx, file),
        file.valid(),
        record::extends(log, before.log),
    ensures
        writing::file_write(log, before, layout, file, buffer) matches Some(written) ==> lists(
            written.after,
            volume_idx,
            written.file,
        ),
{
    let descriptor = open_list::file_descriptor(volume_idx, file);
    let i = before.open_files.index_of(descriptor);
    assert(open_list::is_first_with_id(before.open_files, file.search_id, i));
    open_list::lemma_position_of(before.open_files, file.search_id, i);
    if let Some(ready) = writing::prepared(log, before, file) {
        assert(ready.after.open_files[i] == (ClusterDescriptor {
            cluster: ready.file.starting_cluster,
            ..descriptor
        }));
        if ready.answer is Ok && writing::file_write(log, before, layout, file, buffer) is Some {
            storage::lemma_write_extent(
                log,
                ready.after.log.len() as int,
                layout,
                buffer,
                writing::fitting(buffer.len(), ready.file.current_offset),
                ready.file,
                0,
            );
        }
    }
}

/// A file stays listed while others are opened and written.
pub proof fn law_file_stays_listed<E>(
    log: Seq<Exchange<E>>,
    before: ManagerState<E>,
    max_dirs: nat,
    max_files: nat,
    volume_idx: VolumeIdx,
    file: File,
    other_idx: VolumeIdx,
    layout: FatLayout,
    entry: DirEntry,
    dir: Directory,
    name: Seq<char>,
    mode: Mode,
    other: File,
    buffer: Seq<u8>,
)
    requires
        lists(before, volume_idx, file),
        other.search_id != file.search_id,
    ensures
        opening::named_dir_opened(
            log,
            before,
            max_dirs,
            other_idx,
            dir,
            name,
        ) matches Some(opened) ==> lists(opened.after, volume_idx, file),
        opening::entry_opened(
            log,
            before,
            max_files,
            other_idx,
            layout.fat_type,
            entry,
            mode,
        ) matches Some(opened) ==> lists(opened.after, volume_idx, file),
        opening::file_opened(
            log,
            before,
            max_files,
            other_idx,
            layout.fat_type,
            dir,
            name,
            mode,
        ) matches Some(opened) ==> lists(opened.after, volume_idx, file),
        writing::file_write(log, before, layout, other, buffer) matches Some(written) ==> lists(
            written.after,
            volume_idx,
            file,
        ),
{
    let descriptor = open_list::file_descriptor(volume_idx, file);
    let i = before.open_files.index_of(descriptor);
    assert forall|newest: ClusterDescriptor|
        (#[trigger] before.open_files.push(newest)).contains(descriptor) by {
        assert(before.open_files.push(newest)[i] == descriptor);
    }
    assert forall|cluster: Cluster|
        (#[trigger] open_list::with_cluster(
            before.open_files,
            other.search_id,
            cluster,
        )).contains(descriptor) by {
        if open_list::has_id(before.open_files, other.search_id) {
            lemma_id_has_a_position(before.open_files, other.search_id);
        }
        assert(open_list::with_cluster(before.open_files, other.search_id, cluster)[i]
            == descriptor);
    }
}

/// A directory stays open while others are opened and files are opened and written.
pub proof fn law_dir_stays_open<E>(
    log: Seq<Exchange<E>>,
    before: ManagerState<E>,
    max_dirs: nat,
    max_files: nat,
    volume_idx: VolumeIdx,
    cluster: Cluster,
    other_idx: VolumeIdx,
    other_cluster: Cluster,
    layout: FatLayout,
    entry: DirEntry,
    dir: Directory,
    name: Seq<char>,
    mode: Mode,
    file: File,
    buffer: Seq<u8>,
)
    requires
        open_list::is_open(before.open_dirs, volume_idx, cluster),
    ensures
        open_list::is_open(
            opening::dir_opened(before, max_dirs, other_idx, other_cluster).after.open_dirs,
            volume_idx,
            cluster,
        ),
        opening::named_dir_opened(
            log,
            before,
            max_dirs,
            other_idx,
            dir,
            name,
        ) matches Some(opened) ==> open_list::is_open(opened.after.open_dirs, volume_idx, cluster),
        opening::entry_opened(
            log,
            before,
            max_files,
            other_idx,
            layout.fat_type,
            entry,
            mode,
        ) matches Some(opened) ==> opened.after.open_dirs == before.open_dirs,
        opening::file_opened(
            log,
            before,
            max_files,
            other_idx,
            layout.fat_type,
            dir,
            name,
            mode,
        ) matches Some(opened) ==> opened.after.open_dirs == before.open_dirs,
        writing::file_write(log, before, layout, file, buffer) matches Some(written)
            ==> written.after.open_dirs == before.open_dirs,
{
    let i = choose|i: int|
        0 <= i < before.open_dirs.len() && (#[trigger] before.open_dirs[i]).starts_at(
            volume_idx,
            cluster,
        );
    assert forall|newest: ClusterDescriptor|
        open_list::is_open(#[trigger] before.open_dirs.push(newest), volume_idx, cluster) by {
        assert(before.open_dirs.push(newest)[i].starts_at(volume_idx, cluster));
    }
}

/// Where nothing is opened, nothing that is open changes.
pub proof fn law_refused_opening_changes_no_list<E>(
    log: Seq<Exchange<E>>,
    before: ManagerState<E>,
    max_dirs: nat,
    max_files: nat,
    volume_idx: VolumeIdx,
    fat_type: FatType,
    entry: DirEntry,
    dir: Directory,
    name: Seq<char>,
    mode: Mode,
)
    ensures
        opening::named_dir_opened(
            log,
            before,
            max_dirs,
            volume_idx,
            dir,
            name,
        ) matches Some(opened) ==> (opened.answer is Err ==> opened.after.open_dirs
            == before.open_dirs && opened.after.open_files == before.open_files),
        opening::entry_opened(
            log,
            before,
            max_files,
            volume_idx,
            fat_type,
            entry,
            mode,
        ) matches Some(opened) ==> (opened.answer is Err ==> opened.after.open_dirs
            == before.open_dirs && opened.after.open_files == before.open_files),
        opening::file_opened(
            log,
            before,
            max_files,
            volume_idx,
            fat_type,
            dir,
            name,
            mode,
        ) matches Some(opened) ==> (opened.answer is Err ==> opened.after.open_dirs
            == before.open_dirs && opened.after.open_files == before.open_files),
{
}

/// A mode that leaves open what is done is decided once and for all: the mode that comes of it is
/// none that leaves anything open, and creates a file just where there is none.
pub proof fn law_solved_mode_is_simple(mode: Mode, dir_entry_is_some: bool)
    ensures
        ({
            let solved = opening::solved_mode(mode, dir_entry_is_some);
            &&& solved != Mode::ReadWriteCreateOrAppend
            &&& solved != Mode::ReadWriteCreateOrTruncate
            &&& opening::solved_mode(solved, true) == solved
            &&& opening::solved_mode(solved, false) == solved
            &&& mode == Mode::ReadWriteCreateOrAppend || mode == Mode::ReadWriteCreateOrTruncate
                ==> (solved == Mode::ReadWriteCreate <==> !dir_entry_is_some)
        }),
{
}

} // verus!
