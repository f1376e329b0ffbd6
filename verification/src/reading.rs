//! What reading from a file gives.
use crate::error::Error;
use crate::exchange::Exchange;
use crate::filesystem::{Cluster, File};
use crate::locate;
use crate::record;
use vstd::prelude::*;

verus! {

/// How far a read has come.
pub struct Reading {
    /// The cluster that the file remembers, and how many bytes of the file come before it.
    pub current_cluster: (u32, Cluster),
    /// The position in the file.
    pub offset: u32,
    /// The bytes that were read so far.
    pub data: Seq<u8>,
}

/// A read from `file`, before the first byte.
pub open spec fn start_of_read(file: File) -> Reading {
    Reading {
        current_cluster: file.current_cluster,
        offset: file.current_offset,
        data: Seq::empty(),
    }
}

/// What came of a read.
pub struct ReadOutcome<E> {
    /// Where the record of it ends.
    pub next: int,
    /// How far it came.
    pub end: Reading,
    /// Why it came no further, if it was to.
    pub error: Option<Error<E>>,
}

/// The least of three numbers.
pub open spec fn least(a: int, b: int, c: int) -> int {
    if a <= b && a <= c {
        a
    } else if b <= c {
        b
    } else {
        c
    }
}

/// How many bytes are taken from the block of the position: as many as there are in the block,
/// are still wanted, and are left in the file.
pub open spec fn chunk_len(reading: Reading, length: u32, wanted: nat) -> int {
    least(
        512 - reading.offset % 512,
        wanted - reading.data.len(),
        length - reading.offset,
    )
}

/// The record from `at` on tells how a read of `wanted` bytes from a file of `length` bytes went
/// on: until the bytes were there or the file was at its end, each block was located and read in
/// turn.
pub open spec fn read_on<E>(
    log: Seq<Exchange<E>>,
    at: int,
    cluster_bytes: int,
    length: u32,
    wanted: nat,
    reading: Reading,
) -> Option<ReadOutcome<E>>
    decreases length - reading.offset,
{
    if reading.data.len() >= wanted || reading.offset >= length {
        Some(ReadOutcome { next: at, end: reading, error: None })
    } else {
        match locate::located(
            log,
            at,
            cluster_bytes,
            reading.current_cluster,
            reading.offset,
        ) {
            None => None,
            Some(found) => {
                let reached = Reading { current_cluster: found.start, ..reading };
                match found.answer {
                    Err(error) => Some(
                        ReadOutcome { next: found.next, end: reached, error: Some(error) },
                    ),
                    Ok(block_idx) => match record::answered_read(
                        log,
                        found.next,
                        block_idx,
                        "read"@,
                    ) {
                        None => None,
                        Some(Err(error)) => Some(
                            ReadOutcome {
                                next: found.next + 1,
                                end: reached,
                                error: Some(Error::DeviceError(error)),
                            },
                        ),
                        Some(Ok(block)) => read_on(
                            log,
                            found.next + 1,
                            cluster_bytes,
                            length,
                            wanted,
                            with_chunk(reached, block, length, wanted),
                        ),
                    },
                }
            },
        }
    }
}

/// `reading` with the bytes that it takes from `block`, the block of the position.
pub open spec fn with_chunk(reading: Reading, block: Seq<u8>, length: u32, wanted: nat) -> Reading {
    let from = reading.offset as int % 512;
    let count = chunk_len(reading, length, wanted);
    Reading {
        offset: (reading.offset + count) as u32,
        data: reading.data + block.subrange(from, from + count),
        ..reading
    }
}

} // verus!
