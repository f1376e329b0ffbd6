//! What the volume manager keeps track of.
use crate::exchange::Exchange;
use crate::filesystem::{Cluster, File, SearchId};
use crate::open_list;
use crate::open_list::ClusterDescriptor;
use crate::volume::VolumeIdx;
use vstd::prelude::*;

verus! {

/// What a `VolumeManager` keeps track of.
#[verifier::ext_equal]
pub struct ManagerState<E> {
    /// The open directories, in the order in which they were opened.
    pub open_dirs: Seq<ClusterDescriptor>,
    /// The open files, in the order in which they were opened.
    pub open_files: Seq<ClusterDescriptor>,
    /// The number of the next id that is given out.
    pub next_id: u32,
    /// Every exchange with the device, the clock and the file allocation tables, in order.
    pub log: Seq<Exchange<E>>,
}

impl<E> ManagerState<E> {
    /// Nothing is open, and nothing has happened yet.
    pub open spec fn initial() -> Self {
        ManagerState {
            open_dirs: Seq::empty(),
            open_files: Seq::empty(),
            next_id: 0,
            log: Seq::empty(),
        }
    }

    /// The next id that is given out.
    pub open spec fn id(self) -> SearchId {
        SearchId(self.next_id)
    }

    /// This state once an id was given out.
    pub open spec fn with_id_used(self) -> Self {
        ManagerState { next_id: crate::filesystem::following_id(self.next_id), ..self }
    }

    /// This state with a directory open that starts with that cluster of that volume.
    pub open spec fn with_dir(self, volume_idx: VolumeIdx, cluster: Cluster) -> Self {
        ManagerState {
            open_dirs: self.open_dirs.push(
                ClusterDescriptor { volume_idx, cluster, search_id: self.id(), entry: None },
            ),
            ..self.with_id_used()
        }
    }

    /// This state with `file` of that volume open, which has the next id.
    pub open spec fn with_file(self, volume_idx: VolumeIdx, file: File) -> Self {
        ManagerState {
            open_files: self.open_files.push(open_list::file_descriptor(volume_idx, file)),
            ..self.with_id_used()
        }
    }

    /// This state with `log` as its record.
    pub open spec fn with_log(self, log: Seq<Exchange<E>>) -> Self {
        ManagerState { log, ..self }
    }
}

} // verus!
