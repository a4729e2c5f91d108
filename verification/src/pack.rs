//! Packing a flat file into a container.

use vstd::prelude::*;
use vstd::slice::slice_subrange;
use crate::codec::{deflate_block, deflate_zlib};
use crate::error::PackError;
use crate::layout::{SectionEntry, BLOCK_LEN, HEADER_LEN, MAX_SECTIONS};
use crate::writer::{container, entry_for, fits, ChunkWriter};

verus! {

/// Number of chunks that a flat file of `flat_len` bytes is split into:
/// its bytes after the header, in blocks of `BLOCK_LEN`, the last one
/// possibly shorter.
pub open spec fn block_count(flat_len: int) -> int {
    (flat_len - HEADER_LEN + BLOCK_LEN - 1) / (BLOCK_LEN as int)
}

/// Where block `i` of a flat file starts.
pub open spec fn block_start(i: int) -> int {
    HEADER_LEN + i * BLOCK_LEN
}

/// Where block `i` of a flat file of `flat_len` bytes ends.
pub open spec fn block_end(flat_len: int, i: int) -> int {
    if block_start(i + 1) <= flat_len {
        block_start(i + 1)
    } else {
        flat_len
    }
}

/// Block `i` of a flat file.
pub open spec fn block(flat: Seq<u8>, i: int) -> Seq<u8> {
    flat.subrange(block_start(i), block_end(flat.len() as int, i))
}

/// The on-disk bytes of chunk `i`: the block itself in store mode, its
/// zlib stream otherwise.
pub open spec fn payload(flat: Seq<u8>, i: int, should_compress: bool) -> Seq<u8> {
    if should_compress {
        deflate_zlib(block(flat, i))
    } else {
        block(flat, i)
    }
}

/// The on-disk bytes of the first `n` chunks, joined.
pub open spec fn payloads(flat: Seq<u8>, n: int, should_compress: bool) -> Seq<u8>
    decreases n,
{
    if n <= 0 {
        Seq::empty()
    } else {
        payloads(flat, n - 1, should_compress) + payload(flat, n - 1, should_compress)
    }
}

/// Whether chunk `i` can be described by a table entry.
pub open spec fn addressable(flat: Seq<u8>, i: int, should_compress: bool) -> bool {
    fits(
        payloads(flat, i, should_compress).len() as int,
        payload(flat, i, should_compress).len() as int,
    )
}

/// The table entry of chunk `i`.
pub open spec fn packed_entry(flat: Seq<u8>, i: int, should_compress: bool) -> SectionEntry {
    entry_for(
        payloads(flat, i, should_compress).len() as int,
        payload(flat, i, should_compress).len() as int,
        should_compress,
    )
}

/// The entries of the first `n` chunks.
pub open spec fn packed_table(flat: Seq<u8>, n: int, should_compress: bool) -> Seq<SectionEntry> {
    Seq::new(n as nat, |i: int| packed_entry(flat, i, should_compress))
}

/// The container that a flat file packs into, or why it does not: the file
/// is shorter than a header, needs more chunks than the table holds, or
/// has a chunk that no entry can describe.
pub open spec fn packed(flat: Seq<u8>, should_compress: bool) -> Result<Seq<u8>, PackError> {
    let n = block_count(flat.len() as int);
    if flat.len() < HEADER_LEN {
        Err(PackError::Truncation)
    } else if n > MAX_SECTIONS {
        Err(PackError::CapacityExceeded)
    } else if exists|i: int| 0 <= i < n && !addressable(flat, i, should_compress) {
        Err(PackError::ChunkOutOfRange)
    } else {
        Ok(
            container(
                flat.subrange(0, HEADER_LEN as int),
                packed_table(flat, n, should_compress),
                payloads(flat, n, should_compress),
            ),
        )
    }
}

/// Packs a flat file: its header, a section table, and its remaining bytes
/// in chunks of up to `BLOCK_LEN` bytes, each compressed to a zlib stream
/// or, in store mode, kept verbatim.
pub fn pack(flat: &[u8], should_compress: bool) -> (r: Result<Vec<u8>, PackError>)
    ensures
        match r {
            Ok(c) => packed(flat@, should_compress) == Ok::<Seq<u8>, PackError>(c@),
            Err(e) => packed(flat@, should_compress) == Err::<Seq<u8>, PackError>(e),
        },
{
    let total: usize = flat.len();
    if total < HEADER_LEN {
        return Err(PackError::Truncation);
    }
    if total - HEADER_LEN > MAX_SECTIONS * BLOCK_LEN {
        return Err(PackError::CapacityExceeded);
    }
    let ghost n = block_count(total as int);
    let mut writer = ChunkWriter::new(slice_subrange(flat, 0, HEADER_LEN));
    let mut i: usize = 0;
    let mut start: usize = HEADER_LEN;
    while start < total
        invariant
            HEADER_LEN <= start <= total == flat@.len(),
            total - HEADER_LEN <= MAX_SECTIONS * BLOCK_LEN,
            n == block_count(total as int),
            0 <= i <= n <= MAX_SECTIONS,
            start == block_end(total as int, i - 1),
            start < total ==> start == block_start(i as int),
            start == total ==> i == n,
            writer.wf(),
            writer.header() == flat@.subrange(0, HEADER_LEN as int),
            writer.table() == packed_table(flat@, i as int, should_compress),
            writer.payloads() == payloads(flat@, i as int, should_compress),
            forall|j: int| 0 <= j < i ==> addressable(flat@, j, should_compress),
        decreases total - start,
    {
        let end: usize = if total - start > BLOCK_LEN {
            start + BLOCK_LEN
        } else {
            total
        };
        let raw = slice_subrange(flat, start, end);
        assert(raw@ == block(flat@, i as int));
        let appended = if should_compress {
            let stream = deflate_block(raw);
            writer.append(stream.as_slice(), true)
        } else {
            writer.append(raw, false)
        };
        match appended {
            Ok(()) => {
                proof {
                    assert(writer.table() =~= packed_table(flat@, i + 1, should_compress));
                }
            },
            Err(e) => {
                proof {
                    assert(!addressable(flat@, i as int, should_compress));
                }
                return Err(e);
            },
        }
        i = i + 1;
        start = end;
    }
    Ok(writer.finish())
}

} // verus!
