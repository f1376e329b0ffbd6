//! The lists of what is open.
use crate::blockdevice::BlockIdx;
use crate::filesystem::{Cluster, DirEntry, File, SearchId};
use crate::volume::VolumeIdx;
use vstd::prelude::*;

verus! {

/// Where a directory entry is kept.
#[derive(Clone, Copy, Debug, PartialEq, Eq, Structural)]
pub struct EntryPlace {
    /// The block that it is kept in.
    pub block: BlockIdx,
    /// Where in that block it starts.
    pub offset: u32,
}

/// Where `entry` is kept.
pub open spec fn place_of(entry: DirEntry) -> EntryPlace {
    EntryPlace { block: entry.entry_block, offset: entry.entry_offset.value() }
}

impl EntryPlace {
    /// Where `entry` is kept.
    pub fn new(entry: &DirEntry) -> (place: Self)
        ensures
            place == place_of(*entry),
    {
        EntryPlace { block: entry.entry_block, offset: entry.entry_offset.get() }
    }
}

/// A file or directory that is open.
#[derive(Clone, Copy, Debug, PartialEq, Eq)]
pub struct ClusterDescriptor {
    /// The volume it is on.
    pub volume_idx: VolumeIdx,
    /// Its first cluster.
    pub cluster: Cluster,
    /// What it is found by.
    pub search_id: SearchId,
    /// Where its entry is kept, if it is a file.
    pub entry: Option<EntryPlace>,
}

/// The descriptor of `file`, which is on volume `volume_idx`.
pub open spec fn file_descriptor(volume_idx: VolumeIdx, file: File) -> ClusterDescriptor {
    ClusterDescriptor {
        volume_idx,
        cluster: file.starting_cluster,
        search_id: file.search_id,
        entry: Some(place_of(file.entry)),
    }
}

impl ClusterDescriptor {
    /// Whether it starts with that cluster of that volume.
    pub open spec fn starts_at(self, volume_idx: VolumeIdx, cluster: Cluster) -> bool {
        self.volume_idx == volume_idx && self.cluster == cluster
    }

    /// Whether it is the file whose entry is kept at `place` of that volume.
    pub open spec fn has_entry(self, volume_idx: VolumeIdx, place: EntryPlace) -> bool {
        self.volume_idx == volume_idx && self.entry == Some(place)
    }

    /// The descriptor of a directory that starts with `cluster` of volume `volume_idx`, to be found
    /// by `search_id`.
    pub fn new(volume_idx: VolumeIdx, cluster: Cluster, search_id: SearchId) -> (descriptor: Self)
        ensures
            descriptor == (ClusterDescriptor { volume_idx, cluster, search_id, entry: None }),
    {
        ClusterDescriptor { volume_idx, cluster, search_id, entry: None }
    }

    /// The descriptor of `file`, which is on volume `volume_idx`.
    pub fn of_file(volume_idx: VolumeIdx, file: &File) -> (descriptor: Self)
        ensures
            descriptor == file_descriptor(volume_idx, *file),
    {
        ClusterDescriptor {
            volume_idx,
            cluster: file.starting_cluster,
            search_id: file.search_id,
            entry: Some(EntryPlace::new(&file.entry)),
        }
    }

    /// Whether it starts with that cluster of that volume.
    pub fn compare_volume_and_cluster(&self, volume_idx: VolumeIdx, cluster: Cluster) -> (answer:
        bool)
        ensures
            answer == self.starts_at(volume_idx, cluster),
    {
        self.volume_idx == volume_idx && self.cluster == cluster
    }

    /// Whether it is the file whose entry is kept at `place` of that volume.
    pub fn compare_entry(&self, volume_idx: VolumeIdx, place: EntryPlace) -> (answer: bool)
        ensures
            answer == self.has_entry(volume_idx, place),
    {
        match self.entry {
            Some(entry) => self.volume_idx == volume_idx && entry == place,
            None => false,
        }
    }

    /// Whether it is found by that id.
    pub fn compare_id(&self, search_id: SearchId) -> (answer: bool)
        ensures
            answer == (self.search_id == search_id),
    {
        self.search_id == search_id
    }
}

/// Something in `list` starts with that cluster of that volume.
pub open spec fn is_open(
    list: Seq<ClusterDescriptor>,
    volume_idx: VolumeIdx,
    cluster: Cluster,
) -> bool {
    exists|i: int|
        0 <= i < list.len() && (#[trigger] list[i]).starts_at(volume_idx, cluster)
}

/// The file whose entry is kept at `place` of that volume is in `list`.
pub open spec fn has_entry(
    list: Seq<ClusterDescriptor>,
    volume_idx: VolumeIdx,
    place: EntryPlace,
) -> bool {
    exists|i: int| 0 <= i < list.len() && (#[trigger] list[i]).has_entry(volume_idx, place)
}

/// The file of `entry` is in `list`: its entry is, or its first cluster if it has one.
pub open spec fn file_is_open(
    list: Seq<ClusterDescriptor>,
    volume_idx: VolumeIdx,
    entry: DirEntry,
) -> bool {
    ||| has_entry(list, volume_idx, place_of(entry))
    ||| entry.cluster.0 >= 2 && is_open(list, volume_idx, entry.cluster)
}

/// Something in `list` is found by `id`.
pub open spec fn has_id(list: Seq<ClusterDescriptor>, id: SearchId) -> bool {
    exists|i: int| 0 <= i < list.len() && (#[trigger] list[i]).search_id == id
}

/// What stands at `position` is the first in `list` that is found by `id`.
pub open spec fn is_first_with_id(
    list: Seq<ClusterDescriptor>,
    id: SearchId,
    position: int,
) -> bool {
    &&& 0 <= position < list.len()
    &&& list[position].search_id == id
    &&& forall|i: int| 0 <= i < position ==> (#[trigger] list[i]).search_id != id
}

/// Where in `list` the first that is found by `id` stands.
pub open spec fn position_of(list: Seq<ClusterDescriptor>, id: SearchId) -> int {
    choose|position: int| is_first_with_id(list, id, position)
}

/// `list` without the first that is found by `id`.
pub open spec fn without_id(list: Seq<ClusterDescriptor>, id: SearchId) -> Seq<ClusterDescriptor> {
    list.remove(position_of(list, id))
}

/// `list` with `cluster` as the first cluster of what is found by `id`, if anything is.
pub open spec fn with_cluster(
    list: Seq<ClusterDescriptor>,
    id: SearchId,
    cluster: Cluster,
) -> Seq<ClusterDescriptor> {
    if has_id(list, id) {
        let position = position_of(list, id);
        list.update(position, ClusterDescriptor { cluster, ..list[position] })
    } else {
        list
    }
}

/// There is but one first that is found by an id.
pub proof fn lemma_position_of(list: Seq<ClusterDescriptor>, id: SearchId, position: int)
    requires
        is_first_with_id(list, id, position),
    ensures
        position_of(list, id) == position,
        has_id(list, id),
{
    let chosen = position_of(list, id);
    assert(is_first_with_id(list, id, chosen));
    assert(list[position].search_id == id);
    assert(list[chosen].search_id == id);
}

/// Where in `cluster_list` the first that is found by `id_to_find` stands.
pub fn cluster_position_by_id(cluster_list: &[ClusterDescriptor], id_to_find: SearchId) -> (result:
    Option<usize>)
    ensures
        match result {
            Some(position) => is_first_with_id(cluster_list@, id_to_find, position as int),
            None => !has_id(cluster_list@, id_to_find),
        },
{
    let mut i: usize = 0;
    while i < cluster_list.len()
        invariant
            i <= cluster_list@.len(),
            forall|j: int| 0 <= j < i ==> (#[trigger] cluster_list@[j]).search_id != id_to_find,
        decreases cluster_list@.len() - i,
    {
        if cluster_list[i].compare_id(id_to_find) {
            return Some(i);
        }
        i = i + 1;
    }
    None
}

/// Whether something in `cluster_list` starts with that cluster of that volume.
pub fn cluster_already_open(
    cluster_list: &[ClusterDescriptor],
    volume_idx: VolumeIdx,
    cluster: Cluster,
) -> (answer: bool)
    ensures
        answer == is_open(cluster_list@, volume_idx, cluster),
{
    let mut i: usize = 0;
    while i < cluster_list.len()
        invariant
            i <= cluster_list@.len(),
            forall|j: int|
                0 <= j < i ==> !(#[trigger] cluster_list@[j]).starts_at(volume_idx, cluster),
        decreases cluster_list@.len() - i,
    {
        if cluster_list[i].compare_volume_and_cluster(volume_idx, cluster) {
            assert(cluster_list@[i as int].starts_at(volume_idx, cluster));
            return true;
        }
        i = i + 1;
    }
    false
}

/// Whether the file whose entry is kept at `place` of that volume is in `cluster_list`.
pub fn entry_already_open(
    cluster_list: &[ClusterDescriptor],
    volume_idx: VolumeIdx,
    place: EntryPlace,
) -> (answer: bool)
    ensures
        answer == has_entry(cluster_list@, volume_idx, place),
{
    let mut i: usize = 0;
    while i < cluster_list.len()
        invariant
            i <= cluster_list@.len(),
            forall|j: int|
                0 <= j < i ==> !(#[trigger] cluster_list@[j]).has_entry(volume_idx, place),
        decreases cluster_list@.len() - i,
    {
        if cluster_list[i].compare_entry(volume_idx, place) {
            assert(cluster_list@[i as int].has_entry(volume_idx, place));
            return true;
        }
        i = i + 1;
    }
    false
}

/// `heapless::Vec`: a vector that holds its items in place, at most `N` of them.
#[verifier::external_type_specification]
#[verifier::external_body]
#[verifier::reject_recursive_types(T)]
pub struct ExHeaplessVec<T, const N: usize>(heapless::Vec<T, N>);

/// A list of at most `N` descriptors, in the order in which they were added.
///
/// The items are kept in a `heapless::Vec`. What it holds is `descriptors`: every change goes
/// through one of the functions below that call it, each of which says what becomes of the list.
pub struct OpenList<const N: usize> {
    slots: heapless::Vec<ClusterDescriptor, N>,
    descriptors: Ghost<Seq<ClusterDescriptor>>,
}

impl<const N: usize> View for OpenList<N> {
    type V = Seq<ClusterDescriptor>;

    closed spec fn view(&self) -> Seq<ClusterDescriptor> {
        self.descriptors@
    }
}

impl<const N: usize> OpenList<N> {
    /// There are never more than `N` descriptors in the list.
    #[verifier::type_invariant]
    pub open spec fn within_capacity(self) -> bool {
        self@.len() <= N
    }

    /// Calls `heapless::Vec::new`, which makes a vector without items.
    #[verifier::external_body]
    pub(crate) fn new() -> (list: Self)
        ensures
            list@ == Seq::<ClusterDescriptor>::empty(),
    {
        OpenList { slots: heapless::Vec::new(), descriptors: Ghost(Seq::empty()) }
    }

    /// Calls `heapless::Vec::is_full`, which compares the number of items with the capacity.
    #[verifier::external_body]
    pub(crate) fn is_full(&self) -> (answer: bool)
        ensures
            answer == (self@.len() == N),
    {
        self.slots.is_full()
    }

    /// Calls `heapless::Vec::is_empty`, which tells whether there is no item.
    #[verifier::external_body]
    pub(crate) fn is_empty(&self) -> (answer: bool)
        ensures
            answer == (self@.len() == 0),
    {
        self.slots.is_empty()
    }

    /// Calls `heapless::Vec::as_slice`, which gives all items in their order.
    #[verifier::external_body]
    pub(crate) fn as_slice(&self) -> (slice: &[ClusterDescriptor])
        ensures
            slice@ == self@,
    {
        self.slots.as_slice()
    }

    /// Calls `heapless::Vec::push`, which adds the item behind the others if the capacity is not
    /// reached, and hands it back otherwise.
    #[verifier::external_body]
    pub(crate) fn push(&mut self, descriptor: ClusterDescriptor) -> (result: Result<
        (),
        ClusterDescriptor,
    >)
        ensures
            result is Ok <==> old(self)@.len() < N,
            result is Ok ==> final(self)@ == old(self)@.push(descriptor),
            result matches Err(back) ==> back == descriptor && final(self)@ == old(self)@,
    {
        self.slots.push(descriptor)
    }

    /// Calls `heapless::Vec::remove`, which takes out the item at `position` and moves up those
    /// behind it. It panics where there is no such item.
    #[verifier::external_body]
    pub(crate) fn remove(&mut self, position: usize) -> (descriptor: ClusterDescriptor)
        requires
            position < old(self)@.len(),
        ensures
            descriptor == old(self)@[position as int],
            final(self)@ == old(self)@.remove(position as int),
    {
        self.slots.remove(position)
    }

    /// Calls `heapless::Vec::deref_mut`, which gives all items in their order to be changed in
    /// place, and makes `descriptor` the one at `position`. Indexing panics where there is none.
    #[verifier::external_body]
    pub(crate) fn replace(&mut self, position: usize, descriptor: ClusterDescriptor)
        requires
            position < old(self)@.len(),
        ensures
            final(self)@ == old(self)@.update(position as int, descriptor),
    {
        self.slots[position] = descriptor;
    }
}

} // verus!
