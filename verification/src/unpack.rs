//! Turning a container back into the flat file it was packed from.

use vstd::prelude::*;
use vstd::slice::slice_subrange;
use crate::codec::inflate_stream;
use crate::error::{Fault, UnpackError};
use crate::layout::{SectionEntry, HEADER_LEN};
use crate::table::{
    leading_entries, read_section_table, section_table, slot_entry, slot_present,
    terminator_ends_table,
};

verus! {

/// Whether the container holds every byte of the chunk that `e` describes.
pub open spec fn chunk_present(c: Seq<u8>, e: SectionEntry) -> bool {
    e.offset + e.len() <= c.len()
}

/// The on-disk bytes of the chunk that `e` describes.
pub open spec fn chunk_bytes(c: Seq<u8>, e: SectionEntry) -> Seq<u8> {
    c.subrange(e.offset as int, e.offset + e.len())
}

/// What a chunk's on-disk bytes stand for, given the codec's outcome on
/// them: the bytes themselves where the chunk is stored, else the outcome.
pub open spec fn resolved(e: SectionEntry, raw: Seq<u8>, inflated: Result<Seq<u8>, Seq<char>>)
    -> Result<Seq<u8>, Fault> {
    if e.size < 0 {
        Ok(raw)
    } else {
        match inflated {
            Ok(bytes) => Ok(bytes),
            Err(message) => Err(Fault::Codec(message)),
        }
    }
}

/// The flat bytes of the chunk that `e` describes, given the codec's
/// outcome on its on-disk bytes.
pub open spec fn decoded_chunk(c: Seq<u8>, e: SectionEntry, inflated: Result<Seq<u8>, Seq<char>>)
    -> Result<Seq<u8>, Fault> {
    if !chunk_present(c, e) {
        Err(Fault::Truncation)
    } else {
        resolved(e, chunk_bytes(c, e), inflated)
    }
}

/// Whether the chunk that `e` describes decodes, and to `n` flat bytes.
pub open spec fn chunk_gives(
    c: Seq<u8>,
    e: SectionEntry,
    inflated: Result<Seq<u8>, Seq<char>>,
    n: int,
) -> bool {
    decoded_chunk(c, e, inflated) matches Ok(bytes) && bytes.len() == n
}

/// The flat bytes of all chunks of `table`, joined in table order, where
/// `outcomes[i]` is the codec's outcome on the chunk of entry `i`. The
/// first chunk that fails decides the failure. Outcomes of stored chunks,
/// of chunks that are cut short and of chunks after a failure are not
/// read.
pub open spec fn decoded_chunks(
    c: Seq<u8>,
    table: Seq<SectionEntry>,
    outcomes: Seq<Result<Seq<u8>, Seq<char>>>,
) -> Result<Seq<u8>, Fault>
    decreases table.len(),
{
    if table.len() == 0 {
        Ok(Seq::empty())
    } else {
        match decoded_chunks(c, table.drop_last(), outcomes) {
            Err(fault) => Err(fault),
            Ok(head) => match decoded_chunk(c, table.last(), outcomes[table.len() - 1]) {
                Ok(bytes) => Ok(head + bytes),
                Err(fault) => Err(fault),
            },
        }
    }
}

/// The flat file that a container stands for, where `outcomes[i]` is the
/// codec's outcome on the chunk of table entry `i`: its header, then its
/// decoded chunks.
pub open spec fn unpacked_from(c: Seq<u8>, outcomes: Seq<Result<Seq<u8>, Seq<char>>>) -> Result<
    Seq<u8>,
    Fault,
> {
    if c.len() < HEADER_LEN {
        Err(Fault::Truncation)
    } else {
        match section_table(c) {
            None => Err(Fault::Truncation),
            Some(table) => match decoded_chunks(c, table, outcomes) {
                Ok(body) => Ok(c.subrange(0, HEADER_LEN as int) + body),
                Err(fault) => Err(fault),
            },
        }
    }
}

/// Whether `lengths` holds, for each entry of `table`, the number of flat
/// bytes that its chunk decodes to.
pub open spec fn lengths_agree(
    c: Seq<u8>,
    table: Seq<SectionEntry>,
    outcomes: Seq<Result<Seq<u8>, Seq<char>>>,
    lengths: Seq<usize>,
) -> bool {
    &&& lengths.len() == table.len()
    &&& forall|i: int|
        0 <= i < table.len() ==> chunk_gives(c, table[i], outcomes[i], #[trigger] lengths[i] as int)
}

/// Finds the on-disk bytes of the chunk that `entry` describes.
pub fn read_chunk<'a>(container: &'a [u8], entry: &SectionEntry) -> (r: Result<
    &'a [u8],
    UnpackError,
>)
    ensures
        match r {
            Ok(raw) => chunk_present(container@, *entry) && raw@ == chunk_bytes(
                container@,
                *entry,
            ),
            Err(e) => e@ == Fault::Truncation && !chunk_present(container@, *entry),
        },
{
    let start: u64 = entry.offset as u64;
    let end: u64 = start + entry.byte_len() as u64;
    if end > container.len() as u64 {
        return Err(UnpackError::Truncation);
    }
    Ok(slice_subrange(container, start as usize, end as usize))
}

/// Appends to `out` what the codec inflated, or reports the codec's
/// diagnostic and leaves `out` alone.
pub fn append_inflated(out: &mut Vec<u8>, outcome: Result<Vec<u8>, String>) -> (r: Result<
    (),
    UnpackError,
>)
    ensures
        match outcome {
            Ok(bytes) => r is Ok && final(out)@ == old(out)@ + bytes@,
            Err(message) => r matches Err(e) && e@ == Fault::Codec(message@) && final(out)@ == old(
                out,
            )@,
        },
{
    match outcome {
        Ok(bytes) => {
            out.extend_from_slice(bytes.as_slice());
            assert(out@ =~= old(out)@ + bytes@);
            Ok(())
        },
        Err(message) => Err(UnpackError::CodecFailure(message)),
    }
}

/// Appends to `out` the flat bytes of the chunk that `entry` describes: the
/// on-disk bytes of a stored chunk, what the codec inflates from a
/// compressed one. On failure `out` is left alone.
pub fn decode_chunk(container: &[u8], entry: &SectionEntry, out: &mut Vec<u8>) -> (r: Result<
    (),
    UnpackError,
>)
    ensures
        !chunk_present(container@, *entry) ==> (r matches Err(e) && e@ == Fault::Truncation
            && final(out)@ == old(out)@),
        chunk_present(container@, *entry) && entry.size < 0 ==> r is Ok && final(out)@ == old(
            out,
        )@ + chunk_bytes(container@, *entry),
        chunk_present(container@, *entry) && entry.size >= 0 ==> match r {
            Ok(()) => old(out)@.is_prefix_of(final(out)@),
            Err(e) => e@ is Codec && final(out)@ == old(out)@,
        },
{
    let raw = match read_chunk(container, entry) {
        Ok(raw) => raw,
        Err(e) => {
            return Err(e);
        },
    };
    if entry.size < 0 {
        out.extend_from_slice(raw);
        assert(out@ =~= old(out)@ + raw@);
        Ok(())
    } else {
        append_inflated(out, inflate_stream(raw))
    }
}

/// Unpacks a container: its header, then every chunk of its section table
/// in table order, stored chunks verbatim and compressed ones inflated.
/// Fails where the container is cut short or a compressed chunk is
/// malformed; the first chunk that fails decides. The result is what the
/// container stands for under the outcomes that the codec gave.
pub fn unpack(container: &[u8]) -> (r: Result<Vec<u8>, UnpackError>)
    ensures
        exists|outcomes: Seq<Result<Seq<u8>, Seq<char>>>|
            match r {
                Ok(flat) => #[trigger] unpacked_from(container@, outcomes) == Ok::<Seq<u8>, Fault>(
                    flat@,
                ),
                Err(e) => unpacked_from(container@, outcomes) == Err::<Seq<u8>, Fault>(e@),
            },
{
    match unpack_chunks(container) {
        Ok((flat, _)) => Ok(flat),
        Err(e) => Err(e),
    }
}

/// Unpacks a container as `unpack` does, and tells beside the flat file how
/// many flat bytes each chunk of the section table gave, in table order.
pub fn unpack_chunks(container: &[u8]) -> (r: Result<(Vec<u8>, Vec<usize>), UnpackError>)
    ensures
        exists|outcomes: Seq<Result<Seq<u8>, Seq<char>>>|
            match r {
                Ok((flat, lengths)) => {
                    &&& #[trigger] unpacked_from(container@, outcomes) == Ok::<Seq<u8>, Fault>(
                        flat@,
                    )
                    &&& section_table(container@) matches Some(table)
                    &&& lengths_agree(container@, table, outcomes, lengths@)
                },
                Err(e) => unpacked_from(container@, outcomes) == Err::<Seq<u8>, Fault>(e@),
            },
{
    if container.len() < HEADER_LEN {
        assert(unpacked_from(container@, Seq::empty()) == Err::<Seq<u8>, Fault>(
            Fault::Truncation,
        ));
        return Err(UnpackError::Truncation);
    }
    let table = match read_section_table(container) {
        Ok(table) => table,
        Err(e) => {
            assert(unpacked_from(container@, Seq::empty()) == Err::<Seq<u8>, Fault>(e@));
            return Err(e);
        },
    };
    let mut flat: Vec<u8> = Vec::new();
    let mut lengths: Vec<usize> = Vec::new();
    flat.extend_from_slice(slice_subrange(container, 0, HEADER_LEN));
    let ghost header = container@.subrange(0, HEADER_LEN as int);
    let ghost mut outcomes: Seq<Result<Seq<u8>, Seq<char>>> = Seq::empty();
    let mut i: usize = 0;
    proof {
        assert(flat@ =~= header);
        assert(table@.subrange(0, 0).len() == 0);
        assert(flat@.subrange(HEADER_LEN as int, flat@.len() as int) =~= Seq::<u8>::empty());
    }
    while i < table.len()
        invariant
            i <= table.len(),
            section_table(container@) == Some(table@),
            container@.len() >= HEADER_LEN,
            header == container@.subrange(0, HEADER_LEN as int),
            flat@.len() >= HEADER_LEN,
            flat@.subrange(0, HEADER_LEN as int) == header,
            outcomes.len() == i,
            decoded_chunks(container@, table@.subrange(0, i as int), outcomes) == Ok::<
                Seq<u8>,
                Fault,
            >(flat@.subrange(HEADER_LEN as int, flat@.len() as int)),
            lengths@.len() == i,
            forall|j: int|
                0 <= j < i ==> chunk_gives(
                    container@,
                    table@[j],
                    outcomes[j],
                    #[trigger] lengths@[j] as int,
                ),
        decreases table.len() - i,
    {
        let ghost before = flat@;
        let ghost earlier = outcomes;
        let ghost done = table@.subrange(0, i as int);
        let ghost next = table@.subrange(0, i + 1);
        let ghost entry = table@[i as int];
        let start: usize = flat.len();
        let decoded = decode_chunk(container, &table[i], &mut flat);
        proof {
            let gained = flat@.subrange(before.len() as int, flat@.len() as int);
            let outcome = outcome_behind(decoded, gained);
            outcomes = earlier.push(outcome);
            assert(next.drop_last() =~= done);
            assert(next.last() == entry);
            lemma_outcomes_read(container@, done, earlier, outcomes);
            if decoded is Ok {
                assert(flat@ =~= before + gained);
                if entry.size < 0 {
                    assert(gained =~= chunk_bytes(container@, entry));
                }
                assert(decoded_chunk(container@, entry, outcome) == Ok::<Seq<u8>, Fault>(gained));
                assert(flat@.subrange(HEADER_LEN as int, flat@.len() as int)
                    =~= before.subrange(HEADER_LEN as int, before.len() as int) + gained);
                assert(flat@.subrange(0, HEADER_LEN as int) =~= header);
            } else {
                assert(decoded_chunk(container@, entry, outcome) == Err::<Seq<u8>, Fault>(
                    decoded->Err_0@,
                ));
                lemma_failure_persists(container@, table@, outcomes, i + 1);
                assert(unpacked_from(container@, outcomes) == Err::<Seq<u8>, Fault>(
                    decoded->Err_0@,
                ));
            }
        }
        match decoded {
            Ok(()) => {},
            Err(e) => {
                return Err(e);
            },
        }
        lengths.push(flat.len() - start);
        i = i + 1;
    }
    proof {
        assert(table@.subrange(0, i as int) =~= table@);
        assert(flat@ =~= header + flat@.subrange(HEADER_LEN as int, flat@.len() as int));
        assert(unpacked_from(container@, outcomes) == Ok::<Seq<u8>, Fault>(flat@));
        assert(lengths_agree(container@, table@, outcomes, lengths@));
    }
    Ok((flat, lengths))
}

/// A codec outcome that accounts for what decoding a chunk returned and
/// appended.
spec fn outcome_behind(decoded: Result<(), UnpackError>, gained: Seq<u8>) -> Result<
    Seq<u8>,
    Seq<char>,
> {
    match decoded {
        Err(UnpackError::CodecFailure(message)) => Err(message@),
        _ => Ok(gained),
    }
}

/// Decoding reads no outcome beyond those of the table's entries.
proof fn lemma_outcomes_read(
    c: Seq<u8>,
    table: Seq<SectionEntry>,
    first: Seq<Result<Seq<u8>, Seq<char>>>,
    second: Seq<Result<Seq<u8>, Seq<char>>>,
)
    requires
        forall|i: int| 0 <= i < table.len() ==> first[i] == second[i],
    ensures
        decoded_chunks(c, table, first) == decoded_chunks(c, table, second),
    decreases table.len(),
{
    if table.len() > 0 {
        lemma_outcomes_read(c, table.drop_last(), first, second);
    }
}

/// Once a prefix of the table fails to decode, every longer prefix fails
/// with the same fault.
proof fn lemma_failure_persists(
    c: Seq<u8>,
    table: Seq<SectionEntry>,
    outcomes: Seq<Result<Seq<u8>, Seq<char>>>,
    n: int,
)
    requires
        0 <= n <= table.len(),
        decoded_chunks(c, table.subrange(0, n), outcomes) is Err,
    ensures
        decoded_chunks(c, table, outcomes) == decoded_chunks(c, table.subrange(0, n), outcomes),
    decreases table.len() - n,
{
    if n == table.len() {
        assert(table.subrange(0, n) =~= table);
    } else {
        let longer = table.subrange(0, n + 1);
        assert(longer.drop_last() =~= table.subrange(0, n));
        lemma_failure_persists(c, table, outcomes, n + 1);
    }
}

/// Stored chunks decode without the codec: whatever it would say, a table
/// of stored chunks decodes to the same bytes or fails in the same way.
proof fn lemma_stored_chunks_ignore_codec(
    c: Seq<u8>,
    table: Seq<SectionEntry>,
    first: Seq<Result<Seq<u8>, Seq<char>>>,
    second: Seq<Result<Seq<u8>, Seq<char>>>,
)
    requires
        forall|i: int| 0 <= i < table.len() ==> (#[trigger] table[i]).size < 0,
    ensures
        decoded_chunks(c, table, first) == decoded_chunks(c, table, second),
    decreases table.len(),
{
    if table.len() > 0 {
        lemma_stored_chunks_ignore_codec(c, table.drop_last(), first, second);
        assert(table.last().size < 0);
    }
}

/// A container whose table holds stored chunks only stands for the same
/// flat file, or fails in the same way, whatever the codec would say: no
/// outcome of the codec is read.
pub proof fn stored_container_ignores_codec(
    c: Seq<u8>,
    first: Seq<Result<Seq<u8>, Seq<char>>>,
    second: Seq<Result<Seq<u8>, Seq<char>>>,
)
    requires
        section_table(c) matches Some(table) ==> forall|i: int|
            0 <= i < table.len() ==> (#[trigger] table[i]).size < 0,
    ensures
        unpacked_from(c, first) == unpacked_from(c, second),
{
    if section_table(c) is Some {
        lemma_stored_chunks_ignore_codec(c, section_table(c)->Some_0, first, second);
    }
}

/// A container whose first table entry is a terminator has no chunks:
/// whatever the codec would say, it unpacks to its header alone.
pub proof fn terminator_first_yields_header(
    c: Seq<u8>,
    outcomes: Seq<Result<Seq<u8>, Seq<char>>>,
)
    requires
        slot_present(c, 0),
        slot_entry(c, 0).size == 0,
    ensures
        section_table(c) == Some(Seq::<SectionEntry>::empty()),
        unpacked_from(c, outcomes) == Ok::<Seq<u8>, Fault>(c.subrange(0, HEADER_LEN as int)),
{
    terminator_ends_table(c, 0);
    assert(leading_entries(c, 0) =~= Seq::<SectionEntry>::empty());
    assert(c.subrange(0, HEADER_LEN as int) + Seq::<u8>::empty() =~= c.subrange(
        0,
        HEADER_LEN as int,
    ));
}

} // verus!
