//! What holds of reading and writing.
use crate::blockdevice::BlockIdx;
use crate::error::Error;
use crate::exchange::Exchange;
use crate::filesystem::{Cluster, DirEntry, File, Mode, SearchId};
use crate::locate;
use crate::opening;
use crate::opening_laws;
use crate::reading;
use crate::reading::Reading;
use crate::record;
use crate::state::ManagerState;
use crate::storage;
use crate::storage::Medium;
use crate::volume::{BlockCache, FatLayout, FatType, VolumeIdx};
use crate::writing;
use crate::writing::Spot;
use vstd::prelude::*;

verus! {

/// The cluster that a file remembers is one of its own. A file that has no cluster yet remembers
/// none.
pub open spec fn in_step(medium: Medium, layout: FatLayout, file: File) -> bool {
    if file.starting_cluster.0 < 2 {
        file.current_cluster.1.0 < 2
    } else {
        medium.on_chain(layout, file.starting_cluster, file.current_cluster)
    }
}

/// None of the blocks that positions `from` to `to` of a file are in was written in the exchanges
/// from `begin` to `end`.
pub open spec fn left_alone<E>(
    medium: Medium,
    layout: FatLayout,
    start: Cluster,
    from: int,
    to: int,
    log: Seq<Exchange<E>>,
    begin: int,
    end: int,
) -> bool {
    forall|i: int, position: int|
        #![trigger log[i], medium.block_of(layout, start, position)]
        begin <= i < end && from <= position < to ==> match log[i] {
            Exchange::WriteBlock { block_idx, .. } => block_idx != medium.block_of(
                layout,
                start,
                position,
            ),
            _ => true,
        }
}

/// Where a block was not written, it holds what it held.
proof fn lemma_held_if_left_alone<E>(
    medium: Medium,
    log: Seq<Exchange<E>>,
    base: int,
    begin: int,
    end: int,
    block_idx: BlockIdx,
)
    requires
        base <= begin <= end,
        forall|i: int|
            begin <= i < end ==> match #[trigger] log[i] {
                Exchange::WriteBlock { block_idx: written, .. } => written != block_idx,
                _ => true,
            },
    ensures
        medium.held(log, base, end, block_idx) == medium.held(log, base, begin, block_idx),
    decreases end - begin,
{
    if begin < end {
        lemma_held_if_left_alone(medium, log, base, begin, end - 1, block_idx);
        assert(match log[end - 1] {
            Exchange::WriteBlock { block_idx: written, .. } => written != block_idx,
            _ => true,
        });
    }
}

/// A file that was just opened remembers its first cluster.
pub proof fn law_opened_file_is_in_step(
    medium: Medium,
    layout: FatLayout,
    entry: DirEntry,
    mode: Mode,
    search_id: SearchId,
)
    ensures
        in_step(medium, layout, opening::opened_file(entry, mode, search_id)),
{
    assert(medium.chain(entry.cluster, 0) == entry.cluster);
    assert(0nat * layout.cluster_size.bytes() == 0) by (nonlinear_arith);
}

/// Moving to another position, or changing the size, leaves a file with one of its own clusters.
pub proof fn law_moved_file_is_in_step(
    medium: Medium,
    layout: FatLayout,
    file: File,
    offset: u32,
    length: u32,
)
    requires
        in_step(medium, layout, file),
    ensures
        in_step(medium, layout, file.moved_to(offset)),
        in_step(medium, layout, file.resized(length)),
{
    assert(medium.chain(file.starting_cluster, 0) == file.starting_cluster);
    assert(0nat * layout.cluster_size.bytes() == 0) by (nonlinear_arith);
}

/// A file that is ready to be written has a cluster, remembers one of its own, and is otherwise
/// what it was.
proof fn lemma_ready_file<E>(
    medium: Medium,
    log: Seq<Exchange<E>>,
    before: ManagerState<E>,
    layout: FatLayout,
    file: File,
)
    requires
        file.valid(),
        in_step(medium, layout, file),
        writing::prepared(log, before, file) is Some,
        writing::prepared(log, before, file)->0.answer is Ok,
        before.log.len() <= log.len(),
        medium.faithful(
            log,
            before.log.len() as int,
            before.log.len() as int,
            writing::prepared(log, before, file)->0.after.log.len() as int,
        ),
    ensures
        ({
            let ready = writing::prepared(log, before, file)->0;
            &&& before.log.len() <= ready.after.log.len() <= log.len()
            &&& ready.file.starting_cluster.0 >= 2
            &&& medium.on_chain(layout, ready.file.starting_cluster, ready.file.current_cluster)
            &&& ready.file.valid()
            &&& ready.file.current_offset == file.current_offset
            &&& ready.file.length == file.length
            &&& ready.file.entry.entry_block == file.entry.entry_block
            &&& ready.file.entry.entry_offset == file.entry.entry_offset
            &&& storage::writes_nothing(
                log,
                before.log.len() as int,
                ready.after.log.len() as int,
            )
        }),
{
    let ready = writing::prepared(log, before, file)->0;
    let at = before.log.len() as int;
    if file.starting_cluster.0 < 2 {
        assert(medium.answers(log, at, at));
    }
    assert(medium.chain(ready.file.starting_cluster, 0) == ready.file.starting_cluster);
    assert(0nat * layout.cluster_size.bytes() == 0) by (nonlinear_arith);
}

/// What was written to a file is what is read from it afterwards: wherever the read begins, each
/// byte that it gives from a position that was written is the byte that was written there. That
/// is so as long as the medium keeps what it is given, the file has blocks of its own, and nothing
/// else was written to them in between.
pub proof fn law_written_is_read_back<E>(
    medium: Medium,
    log_written: Seq<Exchange<E>>,
    before: ManagerState<E>,
    layout: FatLayout,
    file: File,
    buffer: Seq<u8>,
    count: nat,
    log: Seq<Exchange<E>>,
    read_at: int,
    reader: File,
    wanted: nat,
)
    requires
        layout.cluster_size.blocks() > 0,
        file.valid(),
        in_step(medium, layout, file),
        record::extends(log_written, before.log),
        writing::file_write(log_written, before, layout, file, buffer) is Some,
        reader.valid(),
        in_step(medium, layout, reader),
        record::extends(log, log_written),
        log_written.len() <= read_at <= log.len(),
        reading::read_on(
            log,
            read_at,
            layout.cluster_size.bytes(),
            reader.length,
            wanted,
            reading::start_of_read(reader),
        ) is Some,
        ({
            let base = before.log.len() as int;
            let written = writing::file_write(log_written, before, layout, file, buffer)->0;
            let outcome = reading::read_on(
                log,
                read_at,
                layout.cluster_size.bytes(),
                reader.length,
                wanted,
                reading::start_of_read(reader),
            )->0;
            let first = written.file.starting_cluster;
            let from = file.current_offset as int;
            &&& written.after.log == log_written
            &&& written.answer == Ok::<nat, Error<E>>(count)
            &&& reader.starting_cluster == first
            &&& medium.faithful(log, base, base, log_written.len() as int)
            &&& medium.faithful(log, base, read_at, outcome.next)
            &&& medium.apart(layout, first, from, from + count, file.entry.entry_block)
            &&& left_alone(
                medium,
                layout,
                first,
                from,
                from + count,
                log,
                log_written.len() as int,
                read_at,
            )
        }),
    ensures
        ({
            let outcome = reading::read_on(
                log,
                read_at,
                layout.cluster_size.bytes(),
                reader.length,
                wanted,
                reading::start_of_read(reader),
            )->0;
            forall|i: int|
                0 <= i < outcome.end.data.len() && file.current_offset <= reader.current_offset + i
                    < file.current_offset + count ==> #[trigger] outcome.end.data[i]
                    == buffer[reader.current_offset + i - file.current_offset]
        }),
{
    let base = before.log.len() as int;
    let written = writing::file_write(log_written, before, layout, file, buffer)->0;
    let first = written.file.starting_cluster;
    let from = file.current_offset as int;
    let ready = writing::prepared(log_written, before, file)->0;
    let total = writing::fitting(buffer.len(), ready.file.current_offset);
    let at = ready.after.log.len() as int;
    let stored = writing::write_on(log_written, at, layout, buffer, total, ready.file, 0)->0;
    lemma_first_cluster(log_written, before, layout, file, buffer);
    storage::lemma_write_extent(log_written, at, layout, buffer, total, ready.file, 0);
    lemma_faithful_earlier(medium, log_written, log, base, base, at);
    lemma_ready_file(medium, log_written, before, layout, file);
    writing::lemma_write_stable(log_written, log, at, layout, buffer, total, ready.file, 0);
    assert(stored.next == log_written.len());
    storage::lemma_write_stores(
        medium,
        log,
        base,
        at,
        layout,
        buffer,
        total,
        ready.file,
        0,
        count,
        from,
    );
    storage::lemma_read_gives(
        medium,
        log,
        base,
        read_at,
        layout,
        first,
        reader.length,
        wanted,
        reading::start_of_read(reader),
    );
    let outcome = reading::read_on(
        log,
        read_at,
        layout.cluster_size.bytes(),
        reader.length,
        wanted,
        reading::start_of_read(reader),
    )->0;
    assert forall|i: int|
        0 <= i < outcome.end.data.len() && file.current_offset <= reader.current_offset + i
            < file.current_offset + count implies #[trigger] outcome.end.data[i]
        == buffer[reader.current_offset + i - file.current_offset] by {
        let position = reader.current_offset + i;
        let k = position - from;
        let holder = medium.block_of(layout, first, position);
        assert(medium.byte_at(log, base, stored.next, layout, first, from + (k - 0)) == buffer[k]);
        assert forall|j: int| log_written.len() <= j < read_at implies match #[trigger] log[j] {
            Exchange::WriteBlock { block_idx, .. } => block_idx != holder,
            _ => true,
        } by {}
        lemma_held_if_left_alone(
            medium,
            log,
            base,
            log_written.len() as int,
            read_at,
            holder,
        );
    }
}

/// What is true of a record is true of an earlier one.
proof fn lemma_faithful_earlier<E>(
    medium: Medium,
    earlier: Seq<Exchange<E>>,
    later: Seq<Exchange<E>>,
    base: int,
    from: int,
    to: int,
)
    requires
        0 <= base <= from,
        to <= earlier.len(),
        record::extends(later, earlier),
        medium.faithful(later, base, from, to),
    ensures
        medium.faithful(earlier, base, from, to),
{
    assert forall|i: int| from <= i < to implies #[trigger] medium.answers(earlier, base, i) by {
        assert(medium.answers(later, base, i));
        if let Exchange::ReadBlock { block_idx, .. } = earlier[i] {
            lemma_held_earlier(medium, earlier, later, base, i, block_idx);
        }
    }
}

/// What a block held does not depend on what came later.
proof fn lemma_held_earlier<E>(
    medium: Medium,
    earlier: Seq<Exchange<E>>,
    later: Seq<Exchange<E>>,
    base: int,
    upto: int,
    block_idx: BlockIdx,
)
    requires
        0 <= base,
        upto <= earlier.len(),
        record::extends(later, earlier),
    ensures
        medium.held(later, base, upto, block_idx) == medium.held(earlier, base, upto, block_idx),
    decreases upto - base,
{
    if upto > base {
        lemma_held_earlier(medium, earlier, later, base, upto - 1, block_idx);
    }
}

/// A write does not change the first cluster of a file that is ready to be written.
proof fn lemma_first_cluster<E>(
    log: Seq<Exchange<E>>,
    before: ManagerState<E>,
    layout: FatLayout,
    file: File,
    buffer: Seq<u8>,
)
    requires
        file.valid(),
        record::extends(log, before.log),
        writing::file_write(log, before, layout, file, buffer) is Some,
        writing::file_write(log, before, layout, file, buffer)->0.answer is Ok,
    ensures
        writing::prepared(log, before, file)->0.answer is Ok,
        writing::prepared(log, before, file)->0.file.starting_cluster == writing::file_write(
            log,
            before,
            layout,
            file,
            buffer,
        )->0.file.starting_cluster,
{
    let ready = writing::prepared(log, before, file)->0;
    let total = writing::fitting(buffer.len(), ready.file.current_offset);
    storage::lemma_write_extent(
        log,
        ready.after.log.len() as int,
        layout,
        buffer,
        total,
        ready.file,
        0,
    );
}

/// A write keeps what comes before the position in the file, and changes no block that is neither
/// one of those written nor that of the directory entry.
pub proof fn law_write_keeps_the_rest<E>(
    medium: Medium,
    log: Seq<Exchange<E>>,
    before: ManagerState<E>,
    layout: FatLayout,
    file: File,
    buffer: Seq<u8>,
    count: nat,
    lowest: int,
)
    requires
        layout.cluster_size.blocks() > 0,
        file.valid(),
        in_step(medium, layout, file),
        record::extends(log, before.log),
        writing::file_write(log, before, layout, file, buffer) is Some,
        0 <= lowest <= file.current_offset,
        ({
            let base = before.log.len() as int;
            let written = writing::file_write(log, before, layout, file, buffer)->0;
            let first = written.file.starting_cluster;
            &&& written.after.log == log
            &&& written.answer == Ok::<nat, Error<E>>(count)
            &&& medium.faithful(log, base, base, log.len() as int)
            &&& medium.apart(
                layout,
                first,
                lowest,
                file.current_offset + count,
                file.entry.entry_block,
            )
        }),
    ensures
        ({
            let base = before.log.len() as int;
            let end = log.len() as int;
            let written = writing::file_write(log, before, layout, file, buffer)->0;
            let first = written.file.starting_cluster;
            let from = file.current_offset as int;
            &&& forall|position: int|
                lowest <= position < from ==> #[trigger] medium.byte_at(
                    log,
                    base,
                    end,
                    layout,
                    first,
                    position,
                ) == medium.byte_at(log, base, base, layout, first, position)
            &&& forall|other: BlockIdx|
                other != file.entry.entry_block && (forall|position: int|
                    from <= position < from + count ==> #[trigger] medium.block_of(
                        layout,
                        first,
                        position,
                    ) != other) ==> #[trigger] medium.held(log, base, end, other) == medium.held(
                    log,
                    base,
                    base,
                    other,
                )
        }),
{
    let base = before.log.len() as int;
    let ready = writing::prepared(log, before, file)->0;
    let total = writing::fitting(buffer.len(), ready.file.current_offset);
    let at = ready.after.log.len() as int;
    lemma_first_cluster(log, before, layout, file, buffer);
    storage::lemma_write_extent(log, at, layout, buffer, total, ready.file, 0);
    lemma_ready_file(medium, log, before, layout, file);
    storage::lemma_write_stores(
        medium,
        log,
        base,
        at,
        layout,
        buffer,
        total,
        ready.file,
        0,
        count,
        lowest,
    );
    assert forall|other: BlockIdx| #[trigger] medium.held(log, base, at, other) == medium.held(
        log,
        base,
        base,
        other,
    ) by {
        storage::lemma_held_if_nothing_written(medium, log, base, base, at, other);
    }
}

/// A write leaves a file with one of its own clusters, or with none if it could be given none.
pub proof fn law_written_file_is_in_step<E>(
    medium: Medium,
    log: Seq<Exchange<E>>,
    before: ManagerState<E>,
    layout: FatLayout,
    file: File,
    buffer: Seq<u8>,
)
    requires
        layout.cluster_size.blocks() > 0,
        file.valid(),
        in_step(medium, layout, file),
        record::extends(log, before.log),
        writing::file_write(log, before, layout, file, buffer) is Some,
        ({
            let base = before.log.len() as int;
            let written = writing::file_write(log, before, layout, file, buffer)->0;
            medium.faithful(log, base, base, written.after.log.len() as int)
        }),
    ensures
        in_step(
            medium,
            layout,
            writing::file_write(log, before, layout, file, buffer)->0.file,
        ),
{
    let ready = writing::prepared(log, before, file)->0;
    if ready.answer is Ok {
        let total = writing::fitting(buffer.len(), ready.file.current_offset);
        let at = ready.after.log.len() as int;
        storage::lemma_write_extent(log, at, layout, buffer, total, ready.file, 0);
        lemma_ready_file(medium, log, before, layout, file);
        storage::lemma_write_on_chain(
            medium,
            log,
            before.log.len() as int,
            at,
            layout,
            buffer,
            total,
            ready.file,
            0,
        );
    }
}

/// A write moves the position on by as many bytes as it wrote, and makes the file longer by as
/// many. It writes all that fit into a file, unless no cluster could be allocated for the rest.
pub proof fn law_write_extent<E>(
    log: Seq<Exchange<E>>,
    before: ManagerState<E>,
    layout: FatLayout,
    file: File,
    buffer: Seq<u8>,
    count: nat,
)
    requires
        file.valid(),
        record::extends(log, before.log),
        writing::file_write(log, before, layout, file, buffer) is Some,
        writing::file_write(log, before, layout, file, buffer)->0.answer == Ok::<nat, Error<E>>(
            count,
        ),
    ensures
        ({
            let written = writing::file_write(log, before, layout, file, buffer)->0;
            let fitting = writing::fitting(buffer.len(), file.current_offset);
            &&& count <= fitting
            &&& written.file.current_offset == file.current_offset + count
            &&& written.file.length == file.length + count
            &&& written.file.search_id == file.search_id
            &&& written.file.mode == file.mode
            &&& count < fitting ==> (written.after.log.last() matches Exchange::AllocCluster {
                answer: Err(_),
                ..
            })
        }),
{
    let ready = writing::prepared(log, before, file)->0;
    let total = writing::fitting(buffer.len(), ready.file.current_offset);
    let at = ready.after.log.len() as int;
    storage::lemma_write_extent(log, at, layout, buffer, total, ready.file, 0);
}

/// After a write to a file whose position is its end, its position is its end.
pub proof fn law_appending_stays_at_the_end<E>(
    log: Seq<Exchange<E>>,
    before: ManagerState<E>,
    layout: FatLayout,
    file: File,
    buffer: Seq<u8>,
)
    requires
        file.valid(),
        file.current_offset == file.length,
        record::extends(log, before.log),
        writing::file_write(log, before, layout, file, buffer) is Some,
    ensures
        ({
            let written = writing::file_write(log, before, layout, file, buffer)->0;
            written.answer is Ok ==> written.file.current_offset == written.file.length
        }),
{
    let written = writing::file_write(log, before, layout, file, buffer)->0;
    if let Ok(count) = written.answer {
        law_write_extent(log, before, layout, file, buffer, count);
    }
}

/// Writing to a file that was opened to be read is refused before anything is done.
pub proof fn law_read_only_file_is_not_written<E>(
    log: Seq<Exchange<E>>,
    before: ManagerState<E>,
    layout: FatLayout,
    file: File,
    buffer: Seq<u8>,
)
    requires
        file.mode == Mode::ReadOnly,
    ensures
        writing::file_write(log, before, layout, file, buffer) == Some(
            writing::Written {
                after: before,
                file,
                answer: Err::<nat, Error<E>>(Error::ReadOnly),
            },
        ),
{
}

/// A read writes nothing.
pub proof fn law_read_writes_nothing<E>(
    log: Seq<Exchange<E>>,
    at: int,
    cluster_bytes: int,
    file: File,
    wanted: nat,
)
    requires
        0 <= at <= log.len(),
        file.valid(),
        reading::read_on(
            log,
            at,
            cluster_bytes,
            file.length,
            wanted,
            reading::start_of_read(file),
        ) is Some,
    ensures
        ({
            let outcome = reading::read_on(
                log,
                at,
                cluster_bytes,
                file.length,
                wanted,
                reading::start_of_read(file),
            )->0;
            storage::writes_nothing(log, at, outcome.next)
        }),
{
    storage::lemma_read_writes_nothing(
        log,
        at,
        cluster_bytes,
        file.length,
        wanted,
        reading::start_of_read(file),
    );
}

/// `file` after a read that came as far as `end`.
pub open spec fn file_after(file: File, end: Reading) -> File {
    File { current_cluster: end.current_cluster, current_offset: end.offset, ..file }
}

/// A read gives what the blocks of the file hold: as many bytes as are wanted or left in the file,
/// whichever is less, unless it fails. The file remembers one of its own clusters afterwards.
pub proof fn law_read_gives_what_is_held<E>(
    medium: Medium,
    log: Seq<Exchange<E>>,
    base: int,
    at: int,
    layout: FatLayout,
    file: File,
    wanted: nat,
)
    requires
        layout.cluster_size.blocks() > 0,
        0 <= base <= at <= log.len(),
        file.valid(),
        file.starting_cluster.0 >= 2 || file.current_offset == file.length,
        in_step(medium, layout, file),
        reading::read_on(
            log,
            at,
            layout.cluster_size.bytes(),
            file.length,
            wanted,
            reading::start_of_read(file),
        ) is Some,
        medium.faithful(
            log,
            base,
            at,
            reading::read_on(
                log,
                at,
                layout.cluster_size.bytes(),
                file.length,
                wanted,
                reading::start_of_read(file),
            )->0.next,
        ),
    ensures
        ({
            let outcome = reading::read_on(
                log,
                at,
                layout.cluster_size.bytes(),
                file.length,
                wanted,
                reading::start_of_read(file),
            )->0;
            let count = outcome.end.data.len();
            let left = file.length - file.current_offset;
            &&& outcome.error is None ==> count == if wanted <= left {
                wanted as int
            } else {
                left
            }
            &&& count <= wanted && count <= left
            &&& outcome.end.offset == file.current_offset + count
            &&& forall|i: int|
                0 <= i < count ==> #[trigger] outcome.end.data[i] == medium.byte_at(
                    log,
                    base,
                    at,
                    layout,
                    file.starting_cluster,
                    file.current_offset + i,
                )
            &&& in_step(medium, layout, file_after(file, outcome.end))
        }),
{
    let start = reading::start_of_read(file);
    let bytes = layout.cluster_size.bytes();
    let outcome = reading::read_on(log, at, bytes, file.length, wanted, start)->0;
    storage::lemma_faithful_blocks_are_whole(medium, log, base, at, outcome.next);
    storage::lemma_read_extent(log, at, bytes, file.length, wanted, start);
    if file.starting_cluster.0 >= 2 {
        storage::lemma_read_gives(
            medium,
            log,
            base,
            at,
            layout,
            file.starting_cluster,
            file.length,
            wanted,
            start,
        );
    }
    assert forall|i: int| 0 <= i < outcome.end.data.len() implies #[trigger] outcome.end.data[i]
        == medium.byte_at(
        log,
        base,
        at,
        layout,
        file.starting_cluster,
        file.current_offset + i,
    ) by {
        assert(start.offset + (i - start.data.len()) == file.current_offset + i);
    }
}

/// Whichever of its clusters the search for a position of a file begins with, it finds the same
/// block.
pub proof fn law_any_cluster_leads_to_the_block<E>(
    medium: Medium,
    log: Seq<Exchange<E>>,
    base: int,
    layout: FatLayout,
    first: Cluster,
    offset: u32,
    at: int,
    start: (u32, Cluster),
    other_at: int,
    other_start: (u32, Cluster),
)
    requires
        layout.cluster_size.blocks() > 0,
        0 <= at,
        0 <= other_at,
        start.0 <= offset,
        other_start.0 <= offset,
        medium.on_chain(layout, first, start),
        medium.on_chain(layout, first, other_start),
        locate::located(log, at, layout.cluster_size.bytes(), start, offset) is Some,
        locate::located(log, other_at, layout.cluster_size.bytes(), other_start, offset) is Some,
        ({
            let bytes = layout.cluster_size.bytes();
            let found = locate::located(log, at, bytes, start, offset)->0;
            let other_found = locate::located(log, other_at, bytes, other_start, offset)->0;
            &&& medium.faithful(log, base, at, found.next)
            &&& medium.faithful(log, base, other_at, other_found.next)
            &&& found.answer is Ok
            &&& other_found.answer is Ok
        }),
    ensures
        ({
            let bytes = layout.cluster_size.bytes();
            let found = locate::located(log, at, bytes, start, offset)->0;
            let other_found = locate::located(log, other_at, bytes, other_start, offset)->0;
            found.answer == other_found.answer
        }),
{
    storage::lemma_located_on_chain(medium, log, base, at, layout, first, start, offset);
    storage::lemma_located_on_chain(
        medium,
        log,
        base,
        other_at,
        layout,
        first,
        other_start,
        offset,
    );
}

/// What a table answers as long as it is not changed.
pub struct Links<E> {
    /// The cluster after each one, or why none was given.
    pub next: spec_fn(Cluster) -> Result<Cluster, Error<E>>,
    /// The first block of each cluster.
    pub first_block: spec_fn(Cluster) -> BlockIdx,
}

impl<E> Links<E> {
    /// Cluster `n` of the chain that `first` starts, counted from zero, if it gets that far.
    pub open spec fn cluster(self, first: Cluster, n: nat) -> Option<Cluster>
        decreases n,
    {
        if n == 0 {
            Some(first)
        } else {
            match self.cluster(first, (n - 1) as nat) {
                Some(cluster) => match (self.next)(cluster) {
                    Ok(next) => Some(next),
                    Err(_) => None,
                },
                None => None,
            }
        }
    }

    /// `place` is a cluster of the chain that `first` starts, with the number of bytes that come
    /// before it.
    pub open spec fn on_chain(
        self,
        cluster_bytes: int,
        first: Cluster,
        place: (u32, Cluster),
    ) -> bool {
        exists|n: nat|
            place.0 == n * cluster_bytes && #[trigger] self.cluster(first, n) == Some(place.1)
    }

    /// The last cluster that a search for position `offset` reaches from `start` on, and what it
    /// gives.
    pub open spec fn found(self, cluster_bytes: int, start: (u32, Cluster), offset: u32) -> (
        (u32, Cluster),
        Result<BlockIdx, Error<E>>,
    )
        decreases offset - start.0,
    {
        if offset - start.0 < cluster_bytes || cluster_bytes <= 0 {
            (start, locate::block_in_cluster((self.first_block)(start.1), offset - start.0))
        } else {
            match (self.next)(start.1) {
                Ok(cluster) => self.found(
                    cluster_bytes,
                    ((start.0 + cluster_bytes) as u32, cluster),
                    offset,
                ),
                Err(error) => (start, Err(error)),
            }
        }
    }

    /// The exchanges from `from` to `to` are what comes of this table.
    pub open spec fn answers(self, log: Seq<Exchange<E>>, from: int, to: int) -> bool {
        forall|i: int|
            from <= i < to ==> match #[trigger] log[i] {
                Exchange::NextCluster { cluster, answer, .. } => answer.1 == (self.next)(cluster),
                Exchange::ClusterToBlock { cluster, answer } => answer == (self.first_block)(
                    cluster,
                ),
                _ => true,
            }
    }
}

/// A search on a table that is not changed gives what the table makes of it.
proof fn lemma_located_is_found<E>(
    links: Links<E>,
    log: Seq<Exchange<E>>,
    at: int,
    cluster_bytes: int,
    start: (u32, Cluster),
    offset: u32,
    block_cache: Option<BlockCache>,
)
    requires
        0 <= at,
        0 < cluster_bytes,
        start.0 <= offset,
        ({
            let located = locate::located_with(
                log,
                at,
                cluster_bytes,
                start,
                offset,
                block_cache,
            );
            &&& located is Some
            &&& links.answers(log, at, located->0.next)
        }),
    ensures
        ({
            let located = locate::located_with(
                log,
                at,
                cluster_bytes,
                start,
                offset,
                block_cache,
            )->0;
            links.found(cluster_bytes, start, offset) == (located.start, located.answer)
        }),
    decreases offset - start.0,
{
    storage::lemma_located_with_writes_nothing(log, at, cluster_bytes, start, offset, block_cache);
    assert(match log[at] {
        Exchange::NextCluster { cluster, answer, .. } => answer.1 == (links.next)(cluster),
        Exchange::ClusterToBlock { cluster, answer } => answer == (links.first_block)(cluster),
        _ => true,
    });
    if offset - start.0 >= cluster_bytes {
        if let Exchange::NextCluster { answer: (left, Ok(cluster)), .. } = log[at] {
            lemma_located_is_found(
                links,
                log,
                at + 1,
                cluster_bytes,
                ((start.0 + cluster_bytes) as u32, cluster),
                offset,
                Some(left),
            );
        }
    }
}

/// A search from a cluster of a chain gives what a search from the first one gives.
proof fn lemma_found_from_the_first<E>(
    links: Links<E>,
    cluster_bytes: int,
    first: Cluster,
    place: (u32, Cluster),
    n: nat,
    offset: u32,
)
    requires
        0 < cluster_bytes,
        place.0 <= offset,
        place.0 == n * cluster_bytes,
        links.cluster(first, n) == Some(place.1),
    ensures
        links.found(cluster_bytes, place, offset) == links.found(
            cluster_bytes,
            (0, first),
            offset,
        ),
    decreases n,
{
    if n == 0 {
        assert(0nat * cluster_bytes == 0) by (nonlinear_arith);
    } else {
        let before = (n - 1) as nat;
        let cluster = links.cluster(first, before)->0;
        assert(before * cluster_bytes == n * cluster_bytes - cluster_bytes) by (nonlinear_arith)
            requires
                before == n - 1,
        ;
        assert(0 <= before * cluster_bytes) by (nonlinear_arith)
            requires
                0 < cluster_bytes,
                0 <= before,
        ;
        let earlier = ((before * cluster_bytes) as u32, cluster);
        lemma_found_from_the_first(links, cluster_bytes, first, earlier, before, offset);
        assert(links.found(cluster_bytes, earlier, offset) == links.found(
            cluster_bytes,
            place,
            offset,
        ));
    }
}

/// Where a search from a cluster of a chain ends.
proof fn lemma_found_on_chain<E>(
    links: Links<E>,
    cluster_bytes: int,
    first: Cluster,
    place: (u32, Cluster),
    n: nat,
    offset: u32,
)
    requires
        0 < cluster_bytes,
        place.0 <= offset,
        place.0 == n * cluster_bytes,
        links.cluster(first, n) == Some(place.1),
    ensures
        ({
            let found = links.found(cluster_bytes, place, offset);
            let k = offset as int / cluster_bytes;
            found.1 is Ok ==> found.0.0 == k * cluster_bytes && links.cluster(first, k as nat)
                == Some(found.0.1)
        }),
    decreases offset - place.0,
{
    if offset - place.0 < cluster_bytes {
        vstd::arithmetic::div_mod::lemma_fundamental_div_mod_converse(
            offset as int,
            cluster_bytes,
            n as int,
            offset - place.0,
        );
    } else if let Ok(cluster) = (links.next)(place.1) {
        let after = n + 1;
        assert(after * cluster_bytes == n * cluster_bytes + cluster_bytes) by (nonlinear_arith)
            requires
                after == n + 1,
        ;
        lemma_found_on_chain(
            links,
            cluster_bytes,
            first,
            ((place.0 + cluster_bytes) as u32, cluster),
            after,
            offset,
        );
    }
}

/// Which cluster of the file a search begins with makes no difference: on the same table, two
/// searches for the same position give the same block or fail in the same way, and end with the
/// same cluster. If they find the block, that is the cluster that holds the position.
pub proof fn law_where_a_search_begins_makes_no_difference<E>(
    links: Links<E>,
    cluster_bytes: int,
    first: Cluster,
    offset: u32,
    log: Seq<Exchange<E>>,
    at: int,
    start: (u32, Cluster),
    other_log: Seq<Exchange<E>>,
    other_at: int,
    other_start: (u32, Cluster),
)
    requires
        0 < cluster_bytes,
        0 <= at,
        0 <= other_at,
        start.0 <= offset,
        other_start.0 <= offset,
        links.on_chain(cluster_bytes, first, start),
        links.on_chain(cluster_bytes, first, other_start),
        ({
            let found = locate::located(log, at, cluster_bytes, start, offset);
            let other = locate::located(other_log, other_at, cluster_bytes, other_start, offset);
            &&& found is Some
            &&& other is Some
            &&& links.answers(log, at, found->0.next)
            &&& links.answers(other_log, other_at, other->0.next)
        }),
    ensures
        ({
            let found = locate::located(log, at, cluster_bytes, start, offset)->0;
            let other = locate::located(other_log, other_at, cluster_bytes, other_start, offset)->0;
            let k = offset as int / cluster_bytes;
            &&& found.answer == other.answer
            &&& found.start == other.start
            &&& found.answer is Ok ==> found.start.0 == k * cluster_bytes && links.cluster(
                first,
                k as nat,
            ) == Some(found.start.1)
        }),
{
    lemma_located_is_found(links, log, at, cluster_bytes, start, offset, None);
    lemma_located_is_found(
        links,
        other_log,
        other_at,
        cluster_bytes,
        other_start,
        offset,
        None,
    );
    let n = choose|n: nat|
        start.0 == n * cluster_bytes && #[trigger] links.cluster(first, n) == Some(start.1);
    let m = choose|n: nat|
        other_start.0 == n * cluster_bytes && #[trigger] links.cluster(first, n) == Some(
            other_start.1,
        );
    lemma_found_from_the_first(links, cluster_bytes, first, start, n, offset);
    lemma_found_from_the_first(links, cluster_bytes, first, other_start, m, offset);
    lemma_found_on_chain(links, cluster_bytes, first, start, n, offset);
}

/// Splitting a read changes nothing: to read some bytes and then some more gives the same bytes,
/// and leaves the file at the same position, as to read them all at once, where the blocks hold
/// the same each time.
pub proof fn law_splitting_a_read_changes_nothing<E>(
    medium: Medium,
    layout: FatLayout,
    file: File,
    log: Seq<Exchange<E>>,
    at: int,
    wanted: nat,
    then_at: int,
    wanted_then: nat,
    other_log: Seq<Exchange<E>>,
    other_at: int,
)
    requires
        layout.cluster_size.blocks() > 0,
        0 <= at <= log.len(),
        0 <= then_at <= log.len(),
        0 <= other_at <= other_log.len(),
        file.valid(),
        file.starting_cluster.0 >= 2 || file.current_offset == file.length,
        in_step(medium, layout, file),
        ({
            let bytes = layout.cluster_size.bytes();
            let length = file.length;
            let start = reading::start_of_read(file);
            let part = reading::read_on(log, at, bytes, length, wanted, start);
            let further = file_after(file, part->0.end);
            let rest = reading::read_on(
                log,
                then_at,
                bytes,
                length,
                wanted_then,
                reading::start_of_read(further),
            );
            let whole = reading::read_on(
                other_log,
                other_at,
                bytes,
                length,
                wanted + wanted_then,
                start,
            );
            &&& part is Some && part->0.error is None
            &&& rest is Some && rest->0.error is None
            &&& whole is Some && whole->0.error is None
            &&& medium.faithful(log, at, at, part->0.next)
            &&& medium.faithful(log, then_at, then_at, rest->0.next)
            &&& medium.faithful(other_log, other_at, other_at, whole->0.next)
        }),
    ensures
        ({
            let bytes = layout.cluster_size.bytes();
            let length = file.length;
            let start = reading::start_of_read(file);
            let part = reading::read_on(log, at, bytes, length, wanted, start)->0;
            let rest = reading::read_on(
                log,
                then_at,
                bytes,
                length,
                wanted_then,
                reading::start_of_read(file_after(file, part.end)),
            )->0;
            let whole = reading::read_on(
                other_log,
                other_at,
                bytes,
                length,
                wanted + wanted_then,
                start,
            )->0;
            &&& whole.end.data == part.end.data + rest.end.data
            &&& whole.end.offset == rest.end.offset
        }),
{
    let bytes = layout.cluster_size.bytes();
    let start = reading::start_of_read(file);
    let part = reading::read_on(log, at, bytes, file.length, wanted, start)->0;
    let further = file_after(file, part.end);
    let next = reading::start_of_read(further);
    let rest = reading::read_on(log, then_at, bytes, file.length, wanted_then, next)->0;
    let all = wanted + wanted_then;
    let whole = reading::read_on(other_log, other_at, bytes, file.length, all, start)->0;
    law_read_gives_what_is_held(medium, log, at, at, layout, file, wanted);
    storage::lemma_faithful_blocks_are_whole(medium, log, at, at, part.next);
    storage::lemma_read_extent(log, at, bytes, file.length, wanted, start);
    law_read_gives_what_is_held(medium, log, then_at, then_at, layout, further, wanted_then);
    law_read_gives_what_is_held(medium, other_log, other_at, other_at, layout, file, all);
    assert(whole.end.data.len() == part.end.data.len() + rest.end.data.len());
    assert forall|i: int| 0 <= i < whole.end.data.len() implies #[trigger] whole.end.data[i] == (
    part.end.data + rest.end.data)[i] by {
        let first = file.starting_cluster;
        let position = file.current_offset + i;
        let split = part.end.data.len();
        assert(whole.end.data[i] == medium.byte_at(
            other_log,
            other_at,
            other_at,
            layout,
            first,
            position,
        ));
        if i < split {
            assert(part.end.data[i] == medium.byte_at(log, at, at, layout, first, position));
        } else {
            let k = i - split;
            assert(further.current_offset + k == position);
            assert(rest.end.data[k] == medium.byte_at(
                log,
                then_at,
                then_at,
                layout,
                first,
                further.current_offset + k,
            ));
        }
    }
    assert(whole.end.data =~= part.end.data + rest.end.data);
}

/// Every directory entry that was turned into bytes in the exchanges from `from` to `to` became 32
/// bytes.
pub open spec fn whole_entries<E>(log: Seq<Exchange<E>>, from: int, to: int) -> bool {
    forall|i: int|
        from <= i < to ==> match #[trigger] log[i] {
            Exchange::Serialize { answer, .. } => answer.len() == 32,
            _ => true,
        }
}

/// What the blocks hold after the writing of a block, however it ended.
proof fn lemma_chunk_holds<E>(
    medium: Medium,
    log: Seq<Exchange<E>>,
    base: int,
    at: int,
    layout: FatLayout,
    bytes: Seq<u8>,
    file: File,
)
    requires
        0 <= base <= at,
        layout.cluster_size.blocks() > 0,
        file.current_cluster.0 <= file.current_offset,
        1 <= bytes.len(),
        file.current_offset % 512 + bytes.len() <= 512,
        file.current_offset + bytes.len() <= u32::MAX,
        file.entry.entry_offset.value() + 32 <= 512,
        medium.on_chain(layout, file.starting_cluster, file.current_cluster),
        writing::chunk_written(log, at, layout, bytes, file) is Some,
        ({
            let chunk = writing::chunk_written(log, at, layout, bytes, file)->0;
            &&& medium.faithful(log, base, at, chunk.next)
            &&& whole_entries(log, at, chunk.next)
        }),
        medium.block_of(layout, file.starting_cluster, file.current_offset as int)
            != file.entry.entry_block,
    ensures
        ({
            let chunk = writing::chunk_written(log, at, layout, bytes, file)->0;
            let target = medium.block_of(
                layout,
                file.starting_cluster,
                file.current_offset as int,
            );
            let before = medium.held(log, base, at, target);
            let after = medium.held(log, base, chunk.next, target);
            let from = file.current_offset as int % 512;
            let moved = chunk.file.current_offset - file.current_offset;
            let place = file.entry.entry_offset.value() as int;
            let old_entries = medium.held(log, base, at, file.entry.entry_block);
            let entries = medium.held(log, base, chunk.next, file.entry.entry_block);
            &&& moved == 0 || moved == bytes.len()
            &&& moved > 0 ==> forall|i: int|
                0 <= i < bytes.len() ==> #[trigger] after[from + i] == bytes[i]
            &&& moved > 0 ==> forall|i: int|
                from + bytes.len() <= i < 512 ==> #[trigger] after[i] == if from == 0 {
                    0u8
                } else {
                    before[i]
                }
            &&& forall|i: int| 0 <= i < from ==> #[trigger] after[i] == before[i]
            &&& forall|other: BlockIdx|
                other != target && other != file.entry.entry_block ==> #[trigger] medium.held(
                    log,
                    base,
                    chunk.next,
                    other,
                ) == medium.held(log, base, at, other)
            &&& chunk.end is NoSpace ==> forall|other: BlockIdx| #[trigger]
                medium.held(log, base, chunk.next, other) == medium.held(log, base, at, other)
            &&& forall|i: int|
                0 <= i < 512 && !(place <= i < place + 32) ==> #[trigger] entries[i]
                    == old_entries[i]
            &&& chunk.end is Stored ==> {
                &&& chunk.next - 2 >= at
                &&& log[chunk.next - 2] matches Exchange::Serialize { entry, answer, .. }
                &&& entry == chunk.file.entry
                &&& forall|i: int| 0 <= i < 32 ==> #[trigger] entries[place + i] == answer[i]
            }
        }),
{
    let cluster_bytes = layout.cluster_size.bytes();
    let chunk = writing::chunk_written(log, at, layout, bytes, file)->0;
    let first = file.starting_cluster;
    let target = medium.block_of(layout, first, file.current_offset as int);
    let from = file.current_offset as int % 512;
    let place = file.entry.entry_offset.value() as int;
    storage::lemma_chunk_extent(log, at, layout, bytes, file);
    storage::lemma_spot_writes_nothing(
        log,
        at,
        cluster_bytes,
        file.current_cluster,
        file.current_offset,
    );
    let found = writing::spot_found(
        log,
        at,
        cluster_bytes,
        file.current_cluster,
        file.current_offset,
    )->0;
    storage::lemma_spot_on_chain(
        medium,
        log,
        base,
        at,
        layout,
        first,
        file.current_cluster,
        file.current_offset,
    );
    assert forall|other: BlockIdx| #[trigger] medium.held(log, base, found.next, other)
        == medium.held(log, base, at, other) by {
        storage::lemma_held_if_nothing_written(medium, log, base, at, found.next, other);
    }
    if found.spot is Block {
        assert(found.spot == Spot::<E>::Block(target));
        let stored = writing::block_stored(log, found.next, target, from, bytes)->0;
        if from != 0 {
            assert(medium.answers(log, base, found.next));
            assert forall|other: BlockIdx| #[trigger] medium.held(log, base, found.next + 1, other)
                == medium.held(log, base, at, other) by {
                storage::lemma_held_if_nothing_written(
                    medium,
                    log,
                    base,
                    found.next,
                    found.next + 1,
                    other,
                );
            }
        }
        if stored.answer is Ok {
            let write_at = stored.next - 1;
            assert(log[write_at] is WriteBlock);
            assert forall|other: BlockIdx| other != target implies #[trigger] medium.held(
                log,
                base,
                stored.next,
                other,
            ) == medium.held(log, base, at, other) by {
                assert(medium.held(log, base, write_at, other) == medium.held(
                    log,
                    base,
                    at,
                    other,
                ));
            }
            if file.length + bytes.len() <= u32::MAX {
                let entry_block = file.entry.entry_block;
                if let Exchange::UpdateInfoSector { answer: Ok(()) } = log[stored.next + 1] {
                    let read_at = stored.next + 2;
                    assert forall|other: BlockIdx| #[trigger] medium.held(
                        log,
                        base,
                        read_at,
                        other,
                    ) == medium.held(log, base, stored.next, other) by {
                        storage::lemma_held_if_nothing_written(
                            medium,
                            log,
                            base,
                            stored.next,
                            read_at,
                            other,
                        );
                    }
                    if let Exchange::ReadBlock { answer: Ok(block), .. } = log[read_at] {
                        assert(medium.answers(log, base, read_at));
                        assert forall|other: BlockIdx| #[trigger] medium.held(
                            log,
                            base,
                            read_at + 2,
                            other,
                        ) == medium.held(log, base, stored.next, other) by {
                            storage::lemma_held_if_nothing_written(
                                medium,
                                log,
                                base,
                                read_at,
                                read_at + 2,
                                other,
                            );
                        }
                        assert(chunk.next == read_at + 3);
                        assert forall|other: BlockIdx| other != entry_block implies #[trigger]
                            medium.held(log, base, chunk.next, other) == medium.held(
                            log,
                            base,
                            stored.next,
                            other,
                        ) by {
                            assert(medium.held(log, base, read_at + 2, other) == medium.held(
                                log,
                                base,
                                stored.next,
                                other,
                            ));
                        }
                        assert(log[read_at + 1] is Serialize);
                        assert(medium.held(log, base, read_at + 2, entry_block) == block);
                    } else {
                        assert forall|other: BlockIdx| #[trigger] medium.held(
                            log,
                            base,
                            chunk.next,
                            other,
                        ) == medium.held(log, base, stored.next, other) by {
                            storage::lemma_held_if_nothing_written(
                                medium,
                                log,
                                base,
                                read_at,
                                chunk.next,
                                other,
                            );
                        }
                    }
                } else {
                    assert forall|other: BlockIdx| #[trigger] medium.held(
                        log,
                        base,
                        chunk.next,
                        other,
                    ) == medium.held(log, base, stored.next, other) by {
                        storage::lemma_held_if_nothing_written(
                            medium,
                            log,
                            base,
                            stored.next,
                            chunk.next,
                            other,
                        );
                    }
                }
            }
        } else {
            assert forall|other: BlockIdx| #[trigger] medium.held(log, base, chunk.next, other)
                == medium.held(log, base, at, other) by {
                assert(medium.held(log, base, chunk.next - 1, other) == medium.held(
                    log,
                    base,
                    at,
                    other,
                ));
            }
        }
    }
}

/// What the blocks hold after a write, however it ended. The blocks from `lowest` to `highest` are
/// the file's own.
proof fn lemma_write_holds<E>(
    medium: Medium,
    log: Seq<Exchange<E>>,
    base: int,
    at: int,
    layout: FatLayout,
    buffer: Seq<u8>,
    total: nat,
    file: File,
    written: nat,
    lowest: int,
    highest: int,
)
    requires
        0 <= base <= at <= log.len(),
        layout.cluster_size.blocks() > 0,
        written <= total <= buffer.len(),
        file.current_cluster.0 <= file.current_offset,
        file.current_offset + (total - written) <= u32::MAX,
        file.entry.entry_offset.value() + 32 <= 512,
        medium.on_chain(layout, file.starting_cluster, file.current_cluster),
        writing::write_on(log, at, layout, buffer, total, file, written) is Some,
        ({
            let outcome = writing::write_on(log, at, layout, buffer, total, file, written)->0;
            &&& medium.faithful(log, base, at, outcome.next)
            &&& whole_entries(log, at, outcome.next)
            &&& highest >= match outcome.answer {
                Ok(count) => file.current_offset + (count - written),
                Err(_) => file.current_offset + (total - written),
            }
        }),
        0 <= lowest <= file.current_offset <= highest,
        medium.apart(
            layout,
            file.starting_cluster,
            lowest,
            highest,
            file.entry.entry_block,
        ),
    ensures
        ({
            let outcome = writing::write_on(log, at, layout, buffer, total, file, written)->0;
            let first = file.starting_cluster;
            let position = file.current_offset as int;
            let reached = outcome.file.current_offset as int;
            let place = file.entry.entry_offset.value() as int;
            let old_entries = medium.held(log, base, at, file.entry.entry_block);
            let entries = medium.held(log, base, outcome.next, file.entry.entry_block);
            &&& position <= reached <= position + (total - written)
            &&& forall|q: int|
                position <= q < reached ==> #[trigger] medium.byte_at(
                    log,
                    base,
                    outcome.next,
                    layout,
                    first,
                    q,
                ) == buffer[written + (q - position)]
            &&& forall|q: int|
                lowest <= q < position ==> #[trigger] medium.byte_at(
                    log,
                    base,
                    outcome.next,
                    layout,
                    first,
                    q,
                ) == medium.byte_at(log, base, at, layout, first, q)
            &&& forall|other: BlockIdx|
                other != file.entry.entry_block && (forall|q: int|
                    position <= q < highest ==> #[trigger] medium.block_of(layout, first, q)
                        != other) ==> #[trigger] medium.held(log, base, outcome.next, other)
                    == medium.held(log, base, at, other)
            &&& forall|i: int|
                0 <= i < 512 && !(place <= i < place + 32) ==> #[trigger] entries[i]
                    == old_entries[i]
            &&& outcome.answer is Ok && position < reached ==> {
                &&& holds_tail(medium, log, base, at, outcome.next, layout, first, position, reached)
                &&& exists|k: int|
                    at <= k < outcome.next && #[trigger] holds_entry(
                        log,
                        k,
                        outcome.file,
                        entries,
                    )
            }
            &&& outcome.answer is Ok && position == reached ==> forall|other: BlockIdx| #[trigger]
                medium.held(log, base, outcome.next, other) == medium.held(log, base, at, other)
        }),
    decreases total - written,
{
    storage::lemma_write_extent(log, at, layout, buffer, total, file, written);
    if written < total {
        let first = file.starting_cluster;
        let position = file.current_offset as int;
        let len = writing::chunk_len(file.current_offset, total - written);
        let bytes = buffer.subrange(written as int, written + len);
        storage::lemma_chunk_extent(log, at, layout, bytes, file);
        let chunk = writing::chunk_written(log, at, layout, bytes, file)->0;
        let outcome = writing::write_on(log, at, layout, buffer, total, file, written)->0;
        let target = medium.block_of(layout, first, position);
        let entry_block = file.entry.entry_block;
        let done = (written + len) as nat;
        if chunk.end is NoSpace {
            storage::lemma_spot_writes_nothing(
                log,
                at,
                layout.cluster_size.bytes(),
                file.current_cluster,
                file.current_offset,
            );
            assert forall|other: BlockIdx| #[trigger] medium.held(log, base, chunk.next, other)
                == medium.held(log, base, at, other) by {
                storage::lemma_held_if_nothing_written(medium, log, base, at, chunk.next, other);
            }
        } else {
            if chunk.end is Stored {
                storage::lemma_write_extent(
                    log,
                    chunk.next,
                    layout,
                    buffer,
                    total,
                    chunk.file,
                    done,
                );
            }
            assert(target != entry_block);
            lemma_chunk_holds(medium, log, base, at, layout, bytes, file);
            let reached = chunk.file.current_offset as int;
            assert forall|q: int| position <= q < reached implies #[trigger] medium.byte_at(
                log,
                base,
                chunk.next,
                layout,
                first,
                q,
            ) == buffer[written + (q - position)] by {
                assert(q / 512 == position / 512);
                assert(medium.held(log, base, chunk.next, target)[position % 512 + (q - position)]
                    == bytes[q - position]);
            }
            assert forall|q: int| lowest <= q < position implies #[trigger] medium.byte_at(
                log,
                base,
                chunk.next,
                layout,
                first,
                q,
            ) == medium.byte_at(log, base, at, layout, first, q) by {
                let holder = medium.block_of(layout, first, q);
                assert(holder != entry_block);
                if q / 512 == position / 512 {
                    assert(holder == target);
                    assert(0 <= q % 512 < position % 512);
                } else {
                    assert(holder != target);
                    assert(medium.held(log, base, chunk.next, holder) == medium.held(
                        log,
                        base,
                        at,
                        holder,
                    ));
                }
            }
            assert forall|other: BlockIdx|
                other != entry_block && (forall|q: int|
                    position <= q < highest ==> #[trigger] medium.block_of(layout, first, q)
                        != other) implies #[trigger] medium.held(log, base, chunk.next, other)
                == medium.held(log, base, at, other) by {
                assert(target != other);
            }
            if chunk.end is Stored {
                storage::lemma_chunk_on_chain(medium, log, base, at, layout, bytes, file);
                lemma_write_holds(
                    medium,
                    log,
                    base,
                    chunk.next,
                    layout,
                    buffer,
                    total,
                    chunk.file,
                    done,
                    lowest,
                    highest,
                );
                let end = outcome.file.current_offset as int;
                assert forall|q: int| position <= q < end implies #[trigger] medium.byte_at(
                    log,
                    base,
                    outcome.next,
                    layout,
                    first,
                    q,
                ) == buffer[written + (q - position)] by {
                    if q < reached {
                        assert(medium.byte_at(log, base, outcome.next, layout, first, q)
                            == medium.byte_at(log, base, chunk.next, layout, first, q));
                    }
                }
                assert forall|q: int| lowest <= q < position implies #[trigger] medium.byte_at(
                    log,
                    base,
                    outcome.next,
                    layout,
                    first,
                    q,
                ) == medium.byte_at(log, base, at, layout, first, q) by {
                    assert(medium.byte_at(log, base, outcome.next, layout, first, q)
                        == medium.byte_at(log, base, chunk.next, layout, first, q));
                }
                let place = file.entry.entry_offset.value() as int;
                let entries = medium.held(log, base, outcome.next, entry_block);
                assert forall|i: int|
                    0 <= i < 512 && !(place <= i < place + 32) implies #[trigger] entries[i]
                    == medium.held(log, base, at, entry_block)[i] by {
                    assert(entries[i] == medium.held(log, base, chunk.next, entry_block)[i]);
                }
                if outcome.answer is Ok {
                    if reached < end {
                        lemma_tail(
                            medium,
                            log,
                            base,
                            at,
                            chunk.next,
                            outcome.next,
                            layout,
                            first,
                            position,
                            reached,
                            end,
                        );
                        let k = choose|k: int|
                            chunk.next <= k < outcome.next && #[trigger] holds_entry(
                                log,
                                k,
                                outcome.file,
                                entries,
                            );
                        assert(at <= k < outcome.next && holds_entry(
                            log,
                            k,
                            outcome.file,
                            entries,
                        ));
                    } else {
                        lemma_same_file(log, chunk.next, layout, buffer, total, chunk.file, done);
                        assert(holds_entry(log, chunk.next - 2, outcome.file, entries));
                        assert forall|q: int|
                            reached <= q < reached + 512 && q / 512 == (reached - 1)
                                / 512 implies #[trigger] medium.byte_at(
                            log,
                            base,
                            outcome.next,
                            layout,
                            first,
                            q,
                        ) == if position <= ((reached - 1) / 512) * 512 {
                            0u8
                        } else {
                            medium.byte_at(log, base, at, layout, first, q)
                        } by {
                            assert(q / 512 == position / 512);
                            assert(medium.block_of(layout, first, q) == target);
                            assert(position % 512 + bytes.len() <= q % 512 < 512);
                        }
                    }
                }
            }
        }
    }
}

/// The rest of the last block that was written holds zeroes if the block was written from its start,
/// and what it held if not.
pub open spec fn holds_tail<E>(
    medium: Medium,
    log: Seq<Exchange<E>>,
    base: int,
    at: int,
    end: int,
    layout: FatLayout,
    first: Cluster,
    position: int,
    reached: int,
) -> bool {
    forall|q: int|
        reached <= q < reached + 512 && q / 512 == (reached - 1) / 512 ==> #[trigger] medium.byte_at(
            log,
            base,
            end,
            layout,
            first,
            q,
        ) == if position <= ((reached - 1) / 512) * 512 {
            0u8
        } else {
            medium.byte_at(log, base, at, layout, first, q)
        }
}

/// The rest of the last block does not depend on the blocks before it.
proof fn lemma_tail<E>(
    medium: Medium,
    log: Seq<Exchange<E>>,
    base: int,
    at: int,
    middle: int,
    end: int,
    layout: FatLayout,
    first: Cluster,
    position: int,
    between: int,
    reached: int,
)
    requires
        position < between < reached,
        between % 512 == 0,
        holds_tail(medium, log, base, middle, end, layout, first, between, reached),
    ensures
        holds_tail(medium, log, base, at, end, layout, first, position, reached),
{
    assert(between <= ((reached - 1) / 512) * 512);
}

/// A write that gets no further leaves the file as it is.
proof fn lemma_same_file<E>(
    log: Seq<Exchange<E>>,
    at: int,
    layout: FatLayout,
    buffer: Seq<u8>,
    total: nat,
    file: File,
    written: nat,
)
    requires
        0 <= at <= log.len(),
        written <= total <= buffer.len(),
        file.current_cluster.0 <= file.current_offset,
        file.current_offset + (total - written) <= u32::MAX,
        writing::write_on(log, at, layout, buffer, total, file, written) is Some,
        ({
            let outcome = writing::write_on(log, at, layout, buffer, total, file, written)->0;
            outcome.answer is Ok && outcome.file.current_offset == file.current_offset
        }),
    ensures
        writing::write_on(log, at, layout, buffer, total, file, written)->0.file == file,
{
    if written < total {
        let len = writing::chunk_len(file.current_offset, total - written);
        let bytes = buffer.subrange(written as int, written + len);
        storage::lemma_chunk_extent(log, at, layout, bytes, file);
        let chunk = writing::chunk_written(log, at, layout, bytes, file)->0;
        if chunk.end is Stored {
            storage::lemma_write_extent(
                log,
                chunk.next,
                layout,
                buffer,
                total,
                chunk.file,
                (written + len) as nat,
            );
        }
    }
}

/// The bytes that stand for the entry of `file`, by the exchange at `k`, are in `entries` where the
/// entry is kept.
pub open spec fn holds_entry<E>(
    log: Seq<Exchange<E>>,
    k: int,
    file: File,
    entries: Seq<u8>,
) -> bool {
    &&& log[k] matches Exchange::Serialize { entry, answer, .. }
    &&& entry == file.entry
    &&& forall|i: int|
        0 <= i < 32 ==> #[trigger] entries[file.entry.entry_offset.value() + i] == answer[i]
}

/// After a write, whatever it gave, the blocks of the file hold the bytes that it got on by, and
/// what came before them; the block of the directory entry holds what it held, but for the 32 bytes
/// of the entry; and every block that is neither holds what it held. After a write that succeeded,
/// those 32 bytes are the ones that stand for the entry of the file as it is then, and the rest of
/// the last block holds zeroes if the block was written from its start and what it held if not.
pub proof fn law_what_is_held_after_a_write<E>(
    medium: Medium,
    log: Seq<Exchange<E>>,
    before: ManagerState<E>,
    layout: FatLayout,
    file: File,
    buffer: Seq<u8>,
    lowest: int,
    highest: int,
)
    requires
        layout.cluster_size.blocks() > 0,
        file.valid(),
        file.entry.entry_offset.value() + 32 <= 512,
        file.mode != Mode::ReadOnly,
        in_step(medium, layout, file),
        record::extends(log, before.log),
        writing::file_write(log, before, layout, file, buffer) is Some,
        0 <= lowest <= file.current_offset <= highest,
        ({
            let base = before.log.len() as int;
            let written = writing::file_write(log, before, layout, file, buffer)->0;
            &&& written.after.log == log
            &&& medium.faithful(log, base, base, log.len() as int)
            &&& whole_entries(log, base, log.len() as int)
            &&& highest >= match written.answer {
                Ok(count) => file.current_offset + count,
                Err(_) => file.current_offset + buffer.len(),
            }
            &&& medium.apart(
                layout,
                written.file.starting_cluster,
                lowest,
                highest,
                file.entry.entry_block,
            )
        }),
    ensures
        ({
            let base = before.log.len() as int;
            let end = log.len() as int;
            let written = writing::file_write(log, before, layout, file, buffer)->0;
            let first = written.file.starting_cluster;
            let position = file.current_offset as int;
            let reached = written.file.current_offset as int;
            let place = file.entry.entry_offset.value() as int;
            let old_entries = medium.held(log, base, base, file.entry.entry_block);
            let entries = medium.held(log, base, end, file.entry.entry_block);
            &&& position <= reached <= position + buffer.len()
            &&& forall|q: int|
                position <= q < reached ==> #[trigger] medium.byte_at(
                    log,
                    base,
                    end,
                    layout,
                    first,
                    q,
                ) == buffer[q - position]
            &&& forall|q: int|
                lowest <= q < position ==> #[trigger] medium.byte_at(
                    log,
                    base,
                    end,
                    layout,
                    first,
                    q,
                ) == medium.byte_at(log, base, base, layout, first, q)
            &&& forall|other: BlockIdx|
                other != file.entry.entry_block && (forall|q: int|
                    position <= q < highest ==> #[trigger] medium.block_of(layout, first, q)
                        != other) ==> #[trigger] medium.held(log, base, end, other) == medium.held(
                    log,
                    base,
                    base,
                    other,
                )
            &&& forall|i: int|
                0 <= i < 512 && !(place <= i < place + 32) ==> #[trigger] entries[i]
                    == old_entries[i]
            &&& written.answer is Ok && position < reached ==> {
                &&& holds_tail(medium, log, base, base, end, layout, first, position, reached)
                &&& exists|k: int|
                    base <= k < end && #[trigger] holds_entry(log, k, written.file, entries)
            }
        }),
{
    let base = before.log.len() as int;
    let ready = writing::prepared(log, before, file)->0;
    if ready.answer is Ok {
        let total = writing::fitting(buffer.len(), ready.file.current_offset);
        let at = ready.after.log.len() as int;
        storage::lemma_write_extent(log, at, layout, buffer, total, ready.file, 0);
        lemma_ready_file(medium, log, before, layout, file);
        lemma_write_holds(
            medium,
            log,
            base,
            at,
            layout,
            buffer,
            total,
            ready.file,
            0,
            lowest,
            highest,
        );
        assert forall|other: BlockIdx| #[trigger] medium.held(log, base, at, other)
            == medium.held(log, base, base, other) by {
            storage::lemma_held_if_nothing_written(medium, log, base, base, at, other);
        }
    } else {
        assert forall|other: BlockIdx| #[trigger] medium.held(log, base, log.len() as int, other)
            == medium.held(log, base, base, other) by {
            storage::lemma_held_if_nothing_written(
                medium,
                log,
                base,
                base,
                log.len() as int,
                other,
            );
        }
    }
}

/// After a file was opened to be written anew, the block of its directory entry holds what it held,
/// but for the 32 bytes of the entry, which are the ones that stand for the entry with size zero;
/// and every other block holds what it held.
pub proof fn law_what_is_held_after_truncating<E>(
    medium: Medium,
    log: Seq<Exchange<E>>,
    before: ManagerState<E>,
    max_files: nat,
    volume_idx: VolumeIdx,
    fat_type: FatType,
    entry: DirEntry,
    mode: Mode,
)
    requires
        mode == Mode::ReadWriteTruncate || mode == Mode::ReadWriteCreateOrTruncate,
        entry.entry_offset.value() + 32 <= 512,
        record::extends(log, before.log),
        ({
            let base = before.log.len() as int;
            let opened = opening::entry_opened(
                log,
                before,
                max_files,
                volume_idx,
                fat_type,
                entry,
                mode,
            );
            &&& opened is Some
            &&& opened->0.answer is Ok
            &&& opened->0.after.log == log
            &&& medium.faithful(log, base, base, log.len() as int)
            &&& whole_entries(log, base, log.len() as int)
        }),
    ensures
        ({
            let base = before.log.len() as int;
            let end = log.len() as int;
            let place = entry.entry_offset.value() as int;
            let file = opening::entry_opened(
                log,
                before,
                max_files,
                volume_idx,
                fat_type,
                entry,
                mode,
            )->0.answer->Ok_0;
            let old_entries = medium.held(log, base, base, entry.entry_block);
            let entries = medium.held(log, base, end, entry.entry_block);
            &&& file.entry == (DirEntry { size: 0, ..entry })
            &&& exists|k: int| base <= k < end && #[trigger] holds_entry(log, k, file, entries)
            &&& forall|i: int|
                0 <= i < 512 && !(place <= i < place + 32) ==> #[trigger] entries[i]
                    == old_entries[i]
            &&& forall|other: BlockIdx|
                other != entry.entry_block ==> #[trigger] medium.held(log, base, end, other)
                    == medium.held(log, base, base, other)
        }),
{
    let base = before.log.len() as int;
    let end = log.len() as int;
    opening_laws::law_opening_an_entry(
        log,
        before,
        max_files,
        volume_idx,
        fat_type,
        entry,
        mode,
    );
    assert(end == base + 4);
    assert(medium.answers(log, base, base + 1));
    assert(log[base + 2] is Serialize);
    assert forall|other: BlockIdx| #[trigger] medium.held(log, base, base + 1, other)
        == medium.held(log, base, base, other) by {
        storage::lemma_held_if_nothing_written(medium, log, base, base, base + 1, other);
    }
    assert forall|other: BlockIdx| #[trigger] medium.held(log, base, base + 3, other)
        == medium.held(log, base, base, other) by {
        storage::lemma_held_if_nothing_written(medium, log, base, base, base + 3, other);
    }
    assert forall|other: BlockIdx| other != entry.entry_block implies #[trigger] medium.held(
        log,
        base,
        end,
        other,
    ) == medium.held(log, base, base, other) by {
        assert(medium.held(log, base, base + 3, other) == medium.held(log, base, base, other));
    }
    let file = opening::entry_opened(
        log,
        before,
        max_files,
        volume_idx,
        fat_type,
        entry,
        mode,
    )->0.answer->Ok_0;
    assert(medium.held(log, base, base + 3, entry.entry_block) == medium.held(
        log,
        base,
        base,
        entry.entry_block,
    ));
    assert(holds_entry(log, base + 2, file, medium.held(log, base, end, entry.entry_block)));
}

} // verus!
