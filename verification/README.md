# volume_mgr

Volumes, directories and files on a block device that holds FAT file systems, verified with
Verus. A `VolumeManager` finds the volumes that the Master Boot Record of a device gives, keeps
track of the directories and files that are open on them, and reads and writes the files.

The library does no input or output of its own and knows nothing of how a file allocation table
is laid out. It works on three traits: `BlockDevice`, `TimeSource` and `FatTable`. Nothing is
assumed of what they answer. Each call that the volume manager makes to them is put on record
together with its answer, and so is each time that the device is handed out. The contracts say
what an operation does in terms of that record, and that the calls on it were made.

- `volume_mgr`: the volume manager itself.
- `opening`, `reading`, `writing`, `locate`, `mbr`: what its operations come to.
- `state`, `exchange`, `record`: what it keeps track of, and the record.
- `open_list`: the lists of what is open.
- `blockdevice`, `filesystem`, `volume`, `error`: blocks, files, volumes and errors.
- `handle_laws`: what holds of opening and closing.
- `storage`, `storage_laws`: what holds of reading and writing on a medium that keeps what it is
  given.
