//! The fixed layout of a container and the 8-byte section entry.

use vstd::prelude::*;

verus! {

/// Length of the opaque header at the start of both representations.
pub const HEADER_LEN: usize = 4096;

/// Most entries a section table can hold.
pub const MAX_SECTIONS: usize = 1024;

/// Length of one serialized section entry.
pub const ENTRY_LEN: usize = 8;

/// Absolute offset of the first chunk payload: header plus table region.
pub const PAYLOAD_START: usize = 12288;

/// Most flat bytes that go into one chunk.
pub const BLOCK_LEN: usize = 262144;

/// Descriptor of one chunk: where it lies in the container and how long it
/// is there. A positive `size` marks a zlib stream of that many bytes, a
/// negative one a stored chunk of `-size` bytes, zero the end of the table.
#[derive(Clone, Copy, Debug, PartialEq, Eq, Structural)]
pub struct SectionEntry {
    pub size: i32,
    pub offset: u32,
}

/// The unsigned number that four bytes spell in little-endian order.
pub open spec fn le_value(b: Seq<u8>) -> int
    recommends
        b.len() == 4,
{
    b[0] as int + 256 * (b[1] as int) + 65536 * (b[2] as int) + 16777216 * (b[3] as int)
}

/// The four little-endian bytes of `v`, for `0 <= v < 2^32`.
pub open spec fn le_bytes(v: int) -> Seq<u8> {
    seq![
        (v % 256) as u8,
        ((v / 256) % 256) as u8,
        ((v / 65536) % 256) as u8,
        ((v / 16777216) % 256) as u8,
    ]
}

/// Two's-complement reading of an unsigned 32-bit number.
pub open spec fn as_signed(v: int) -> int {
    if v < 0x8000_0000 {
        v
    } else {
        v - 0x1_0000_0000
    }
}

/// The unsigned 32-bit number whose two's-complement reading is `v`.
pub open spec fn as_unsigned(v: int) -> int {
    if v < 0 {
        v + 0x1_0000_0000
    } else {
        v
    }
}

impl SectionEntry {
    /// On-disk length of the chunk in bytes.
    pub open spec fn len(self) -> int {
        if self.size < 0 {
            -(self.size as int)
        } else {
            self.size as int
        }
    }

    /// Whether the entry describes a chunk: a nonzero size and an offset
    /// that does not point into the header or the table.
    pub open spec fn is_live(self) -> bool {
        self.size != 0 && self.offset >= PAYLOAD_START
    }

    /// The eight bytes of the entry: size, then offset, both little-endian.
    pub open spec fn bytes(self) -> Seq<u8> {
        le_bytes(as_unsigned(self.size as int)) + le_bytes(self.offset as int)
    }

    /// The entry that eight bytes spell.
    pub open spec fn parse(b: Seq<u8>) -> SectionEntry
        recommends
            b.len() == 8,
    {
        SectionEntry {
            size: as_signed(le_value(b.subrange(0, 4))) as i32,
            offset: le_value(b.subrange(4, 8)) as u32,
        }
    }
}

/// Reads the little-endian 32-bit number at `at`.
pub fn read_le_u32(b: &[u8], at: usize) -> (v: u32)
    requires
        at + 4 <= b.len(),
    ensures
        v == le_value(b@.subrange(at as int, at + 4)),
{
    let b0: u32 = b[at] as u32;
    let b1: u32 = b[at + 1] as u32;
    let b2: u32 = b[at + 2] as u32;
    let b3: u32 = b[at + 3] as u32;
    b0 + 256 * b1 + 65536 * b2 + 16777216 * b3
}

/// Overwrites the four bytes at `at` with `v` in little-endian order.
pub fn write_le_u32(out: &mut Vec<u8>, at: usize, v: u32)
    requires
        at + 4 <= old(out).len(),
    ensures
        final(out)@ == old(out)@.subrange(0, at as int) + le_bytes(v as int) + old(out)@.subrange(
            at + 4,
            old(out)@.len() as int,
        ),
{
    out.set(at, (v % 256) as u8);
    out.set(at + 1, ((v / 256) % 256) as u8);
    out.set(at + 2, ((v / 65536) % 256) as u8);
    out.set(at + 3, ((v / 16777216) % 256) as u8);
}

impl SectionEntry {
    /// Reads the entry that the eight bytes at `at` spell.
    pub fn read(b: &[u8], at: usize) -> (e: SectionEntry)
        requires
            at + 8 <= b.len(),
        ensures
            e == SectionEntry::parse(b@.subrange(at as int, at + 8)),
    {
        let raw: u32 = read_le_u32(b, at);
        let offset: u32 = read_le_u32(b, at + 4);
        proof {
            let eight = b@.subrange(at as int, at + 8);
            assert(eight.subrange(0, 4) =~= b@.subrange(at as int, at + 4));
            assert(eight.subrange(4, 8) =~= b@.subrange(at + 4, at + 8));
        }
        let size: i32 = if raw < 0x8000_0000 {
            raw as i32
        } else {
            ((raw - 0x8000_0000) as i32) - 0x4000_0000 - 0x4000_0000
        };
        SectionEntry { size, offset }
    }

    /// Overwrites the eight bytes at `at` with the entry.
    pub fn write(&self, out: &mut Vec<u8>, at: usize)
        requires
            at + 8 <= old(out).len(),
        ensures
            final(out)@ == old(out)@.subrange(0, at as int) + self.bytes() + old(out)@.subrange(
                at + 8,
                old(out)@.len() as int,
            ),
    {
        let raw: u32 = if self.size < 0 {
            ((self.size as i64) + 0x1_0000_0000) as u32
        } else {
            self.size as u32
        };
        write_le_u32(out, at, raw);
        write_le_u32(out, at + 4, self.offset);
    }

    /// On-disk length of the chunk in bytes.
    pub fn byte_len(&self) -> (n: u32)
        ensures
            n == self.len(),
    {
        if self.size < 0 {
            (-(self.size as i64)) as u32
        } else {
            self.size as u32
        }
    }
}

/// Reading back the bytes of a 32-bit number gives the number.
pub proof fn lemma_le_round_trip(v: int)
    requires
        0 <= v < 0x1_0000_0000,
    ensures
        le_bytes(v).len() == 4,
        le_value(le_bytes(v)) == v,
{
}

/// Parsing the bytes of an entry gives the entry.
pub proof fn lemma_entry_round_trip(e: SectionEntry)
    ensures
        e.bytes().len() == 8,
        SectionEntry::parse(e.bytes()) == e,
{
    let s = as_unsigned(e.size as int);
    lemma_le_round_trip(s);
    lemma_le_round_trip(e.offset as int);
    assert(e.bytes().subrange(0, 4) =~= le_bytes(s));
    assert(e.bytes().subrange(4, 8) =~= le_bytes(e.offset as int));
}

} // verus!
