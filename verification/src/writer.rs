//! Building a container chunk by chunk.

use vstd::prelude::*;
use crate::error::PackError;
use crate::layout::{
    lemma_entry_round_trip, SectionEntry, ENTRY_LEN, HEADER_LEN, MAX_SECTIONS, PAYLOAD_START,
};

verus! {

/// Length of the table region between header and payloads.
pub const TABLE_LEN: usize = 8192;

/// `n` zero bytes.
pub open spec fn zeros(n: int) -> Seq<u8> {
    Seq::new(n as nat, |i: int| 0u8)
}

/// The bytes of the entries of `table`, in order.
pub open spec fn table_bytes(table: Seq<SectionEntry>) -> Seq<u8>
    decreases table.len(),
{
    if table.len() == 0 {
        Seq::empty()
    } else {
        table_bytes(table.drop_last()) + table.last().bytes()
    }
}

/// The table region of a container: the entries' bytes, zero-padded.
pub open spec fn table_region(table: Seq<SectionEntry>) -> Seq<u8> {
    table_bytes(table) + zeros(TABLE_LEN - ENTRY_LEN * table.len())
}

/// The container with the given header, section table and payload bytes.
pub open spec fn container(header: Seq<u8>, table: Seq<SectionEntry>, payloads: Seq<u8>) -> Seq<
    u8,
> {
    header + table_region(table) + payloads
}

/// Whether a chunk of `len` bytes that follows `before` payload bytes can
/// be described by an entry: it is not empty, its length fits a signed
/// 32-bit size and its offset an unsigned 32-bit number.
pub open spec fn fits(before: int, len: int) -> bool {
    0 < len <= i32::MAX && PAYLOAD_START + before <= u32::MAX
}

/// The entry of a chunk of `len` bytes that follows `before` payload bytes.
pub open spec fn entry_for(before: int, len: int, compressed: bool) -> SectionEntry {
    SectionEntry {
        size: (if compressed {
            len
        } else {
            -len
        }) as i32,
        offset: (PAYLOAD_START + before) as u32,
    }
}

/// `table_bytes` has eight bytes for each entry.
pub proof fn lemma_table_bytes_len(table: Seq<SectionEntry>)
    ensures
        table_bytes(table).len() == ENTRY_LEN * table.len(),
    decreases table.len(),
{
    if table.len() > 0 {
        lemma_table_bytes_len(table.drop_last());
    }
}

/// A container under construction: the header, the chunks appended so far
/// and their entries.
pub struct ChunkWriter {
    data: Vec<u8>,
    sections: Vec<SectionEntry>,
}

impl ChunkWriter {
    /// The writer holds a header, a zeroed table region and at most a full
    /// table of entries.
    pub closed spec fn wf(&self) -> bool {
        &&& self.data@.len() >= PAYLOAD_START
        &&& self.sections@.len() <= MAX_SECTIONS
        &&& self.data@.subrange(HEADER_LEN as int, PAYLOAD_START as int) == zeros(TABLE_LEN as int)
    }

    /// The header that the writer was made with.
    pub closed spec fn header(&self) -> Seq<u8> {
        self.data@.subrange(0, HEADER_LEN as int)
    }

    /// The entries of the chunks appended so far.
    pub closed spec fn table(&self) -> Seq<SectionEntry> {
        self.sections@
    }

    /// The on-disk bytes of the chunks appended so far, joined.
    pub closed spec fn payloads(&self) -> Seq<u8> {
        self.data@.subrange(PAYLOAD_START as int, self.data@.len() as int)
    }

    /// A writer with the given header and no chunks.
    pub fn new(header: &[u8]) -> (w: ChunkWriter)
        requires
            header@.len() == HEADER_LEN,
        ensures
            w.wf(),
            w.header() == header@,
            w.table() == Seq::<SectionEntry>::empty(),
            w.payloads() == Seq::<u8>::empty(),
    {
        let mut data: Vec<u8> = Vec::new();
        data.extend_from_slice(header);
        assert(data@ =~= header@);
        data.resize(PAYLOAD_START, 0u8);
        let w = ChunkWriter { data, sections: Vec::new() };
        proof {
            assert(w.data@.subrange(HEADER_LEN as int, PAYLOAD_START as int) =~= zeros(
                TABLE_LEN as int,
            ));
            assert(w.header() =~= header@);
            assert(w.payloads() =~= Seq::<u8>::empty());
        }
        w
    }

    /// Appends one chunk, given its on-disk bytes, and records its entry:
    /// the offset is where the chunk starts, the size its length, negated
    /// for a stored chunk. Fails and changes nothing where the table is
    /// full or the chunk does not fit an entry.
    pub fn append(&mut self, payload: &[u8], compressed: bool) -> (r: Result<(), PackError>)
        requires
            old(self).wf(),
        ensures
            final(self).wf(),
            final(self).header() == old(self).header(),
            match r {
                Ok(()) => {
                    &&& old(self).table().len() < MAX_SECTIONS
                    &&& fits(old(self).payloads().len() as int, payload@.len() as int)
                    &&& final(self).table() == old(self).table().push(
                        entry_for(
                            old(self).payloads().len() as int,
                            payload@.len() as int,
                            compressed,
                        ),
                    )
                    &&& final(self).payloads() == old(self).payloads() + payload@
                },
                Err(e) => {
                    &&& final(self).table() == old(self).table()
                    &&& final(self).payloads() == old(self).payloads()
                    &&& if old(self).table().len() >= MAX_SECTIONS {
                        e == PackError::CapacityExceeded
                    } else {
                        e == PackError::ChunkOutOfRange && !fits(
                            old(self).payloads().len() as int,
                            payload@.len() as int,
                        )
                    }
                },
            },
    {
        if self.sections.len() >= MAX_SECTIONS {
            return Err(PackError::CapacityExceeded);
        }
        let len: usize = payload.len();
        let at: usize = self.data.len();
        if len == 0 || len > 0x7fff_ffff || at > 0xffff_ffff {
            return Err(PackError::ChunkOutOfRange);
        }
        let size: i32 = if compressed {
            len as i32
        } else {
            -(len as i32)
        };
        self.data.extend_from_slice(payload);
        self.sections.push(SectionEntry { size, offset: at as u32 });
        proof {
            assert(self.data@ =~= old(self).data@ + payload@);
            assert(self.data@.subrange(HEADER_LEN as int, PAYLOAD_START as int) =~= old(
                self,
            ).data@.subrange(HEADER_LEN as int, PAYLOAD_START as int));
            assert(self.header() =~= old(self).header());
            assert(self.payloads() =~= old(self).payloads() + payload@);
        }
        Ok(())
    }

    /// Finishes the container: serializes the entries into the table region
    /// and hands out all bytes.
    pub fn finish(self) -> (out: Vec<u8>)
        requires
            self.wf(),
        ensures
            out@ == container(self.header(), self.table(), self.payloads()),
    {
        let ghost header = self.header();
        let ghost payloads = self.payloads();
        let ghost table = self.table();
        let mut data = self.data;
        let sections = self.sections;
        let mut k: usize = 0;
        proof {
            assert(table.subrange(0, 0) =~= Seq::<SectionEntry>::empty());
            assert(data@ =~= header + (table_bytes(table.subrange(0, 0)) + zeros(
                TABLE_LEN as int,
            )) + payloads);
        }
        while k < sections.len()
            invariant
                k <= sections.len() <= MAX_SECTIONS,
                sections@ == table,
                header.len() == HEADER_LEN,
                data@ == header + (table_bytes(table.subrange(0, k as int)) + zeros(
                    TABLE_LEN - ENTRY_LEN * k,
                )) + payloads,
            decreases sections.len() - k,
        {
            let ghost before = data@;
            let ghost done = table.subrange(0, k as int);
            let ghost next = table.subrange(0, k + 1);
            let at: usize = HEADER_LEN + ENTRY_LEN * k;
            proof {
                lemma_table_bytes_len(done);
                lemma_entry_round_trip(table[k as int]);
                assert(next.drop_last() =~= done);
                assert(next.last() == table[k as int]);
            }
            sections[k].write(&mut data, at);
            proof {
                assert(data@ =~= header + (table_bytes(next) + zeros(
                    TABLE_LEN - ENTRY_LEN * (k + 1),
                )) + payloads);
            }
            k = k + 1;
        }
        proof {
            assert(table.subrange(0, k as int) =~= table);
        }
        data
    }
}

} // verus!
