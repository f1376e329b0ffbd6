//! Volumes, directories and files on a block device that holds FAT file systems.
pub mod basic_laws;
pub mod blockdevice;
pub mod error;
pub mod exchange;
pub mod filesystem;
pub mod handle_laws;
pub mod locate;
pub mod mbr;
pub mod open_list;
pub mod opening;
pub mod opening_laws;
pub mod reading;
pub mod record;
pub mod record_laws;
pub mod state;
pub mod storage;
pub mod storage_laws;
pub mod transfer_laws;
pub mod volume;
pub mod volume_mgr;
pub mod writing;
