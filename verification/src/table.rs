//! The section table: the bounded directory of chunk entries that follows
//! the header.

use vstd::prelude::*;
use crate::error::{Fault, UnpackError};
use crate::layout::{SectionEntry, ENTRY_LEN, HEADER_LEN, MAX_SECTIONS, PAYLOAD_START};

verus! {

/// Whether the container holds all eight bytes of table slot `k`.
pub open spec fn slot_present(c: Seq<u8>, k: int) -> bool {
    HEADER_LEN + ENTRY_LEN * (k + 1) <= c.len()
}

/// The entry that table slot `k` of the container spells.
pub open spec fn slot_entry(c: Seq<u8>, k: int) -> SectionEntry {
    SectionEntry::parse(c.subrange(HEADER_LEN + ENTRY_LEN * k, HEADER_LEN + ENTRY_LEN * (k + 1)))
}

/// The entries read from slot `k` on: reading goes on while slots hold live
/// entries, stops without the entry at the first slot that holds none, and
/// stops in any case after the last slot. `None` where the container ends
/// inside or before a slot that would be read.
pub open spec fn scan_table(c: Seq<u8>, k: int) -> Option<Seq<SectionEntry>>
    decreases MAX_SECTIONS - k,
{
    if k < 0 || k >= MAX_SECTIONS {
        Some(Seq::empty())
    } else if !slot_present(c, k) {
        None
    } else if !slot_entry(c, k).is_live() {
        Some(Seq::empty())
    } else {
        match scan_table(c, k + 1) {
            Some(rest) => Some(seq![slot_entry(c, k)] + rest),
            None => None,
        }
    }
}

/// The section table of a container, or `None` where it is cut short.
pub open spec fn section_table(c: Seq<u8>) -> Option<Seq<SectionEntry>> {
    scan_table(c, 0)
}

/// `head` followed by what a scan gave.
spec fn prepend(head: Seq<SectionEntry>, scan: Option<Seq<SectionEntry>>) -> Option<
    Seq<SectionEntry>,
> {
    match scan {
        Some(rest) => Some(head + rest),
        None => None,
    }
}

/// Reads the section table of a container.
pub fn read_section_table(container: &[u8]) -> (r: Result<Vec<SectionEntry>, UnpackError>)
    ensures
        match r {
            Ok(table) => section_table(container@) == Some(table@) && table@.len() <= MAX_SECTIONS,
            Err(e) => e@ == Fault::Truncation && section_table(container@).is_none(),
        },
{
    let mut table: Vec<SectionEntry> = Vec::new();
    let mut k: usize = 0;
    while k < MAX_SECTIONS
        invariant
            k <= MAX_SECTIONS,
            table@.len() == k,
            section_table(container@) == prepend(table@, scan_table(container@, k as int)),
        decreases MAX_SECTIONS - k,
    {
        let at: usize = HEADER_LEN + ENTRY_LEN * k;
        if container.len() < at + ENTRY_LEN {
            return Err(UnpackError::Truncation);
        }
        let entry = SectionEntry::read(container, at);
        if entry.size == 0 || entry.offset < PAYLOAD_START as u32 {
            proof {
                assert(table@ + Seq::<SectionEntry>::empty() =~= table@);
            }
            return Ok(table);
        }
        proof {
            let rest = scan_table(container@, k + 1);
            if rest is Some {
                assert(table@ + (seq![entry] + rest.unwrap()) =~= table@.push(entry)
                    + rest.unwrap());
            }
        }
        table.push(entry);
        k = k + 1;
    }
    proof {
        assert(table@ + Seq::<SectionEntry>::empty() =~= table@);
    }
    Ok(table)
}

/// The entries of the first `n` table slots.
pub open spec fn leading_entries(c: Seq<u8>, n: int) -> Seq<SectionEntry> {
    Seq::new(n as nat, |i: int| slot_entry(c, i))
}

/// Whether slots `from..to` are all in the container and hold live entries.
pub open spec fn live_run(c: Seq<u8>, from: int, to: int) -> bool {
    forall|i: int| from <= i < to ==> slot_present(c, i) && slot_entry(c, i).is_live()
}

/// A scan that meets live entries up to slot `k` and there a slot that
/// ends the table, or the end of the table region, gives those entries.
proof fn lemma_scan_stops(c: Seq<u8>, from: int, k: int)
    requires
        0 <= from <= k <= MAX_SECTIONS,
        live_run(c, from, k),
        k < MAX_SECTIONS ==> slot_present(c, k) && !slot_entry(c, k).is_live(),
    ensures
        scan_table(c, from) == Some(leading_entries(c, k).subrange(from, k)),
    decreases k - from,
{
    if from < k {
        lemma_scan_stops(c, from + 1, k);
        assert(slot_present(c, from) && slot_entry(c, from).is_live());
        assert(seq![slot_entry(c, from)] + leading_entries(c, k).subrange(from + 1, k)
            =~= leading_entries(c, k).subrange(from, k));
    } else {
        assert(leading_entries(c, k).subrange(from, k) =~= Seq::<SectionEntry>::empty());
    }
}

/// A scan that meets live entries up to slot `k` and there the end of the
/// container gives nothing.
proof fn lemma_scan_cut(c: Seq<u8>, from: int, k: int)
    requires
        0 <= from <= k < MAX_SECTIONS,
        live_run(c, from, k),
        !slot_present(c, k),
    ensures
        scan_table(c, from).is_none(),
    decreases k - from,
{
    if from < k {
        lemma_scan_cut(c, from + 1, k);
        assert(slot_present(c, from) && slot_entry(c, from).is_live());
    }
}

/// Where the table ends. If the first `k` slots hold live entries and slot
/// `k` holds none, or there is no slot `k` because the table region is
/// full, the table is the entries of the first `k` slots: the entry of
/// slot `k` is left out and no slot after it is read.
pub proof fn table_ends(c: Seq<u8>, k: int)
    requires
        0 <= k <= MAX_SECTIONS,
        live_run(c, 0, k),
        k < MAX_SECTIONS ==> slot_present(c, k) && !slot_entry(c, k).is_live(),
    ensures
        section_table(c) == Some(leading_entries(c, k)),
{
    lemma_scan_stops(c, 0, k);
    assert(leading_entries(c, k).subrange(0, k) =~= leading_entries(c, k));
}

/// Where the table is cut short. If the first `k` slots hold live entries
/// and the container ends before the end of slot `k`, there is no table.
pub proof fn table_cut_short(c: Seq<u8>, k: int)
    requires
        0 <= k < MAX_SECTIONS,
        live_run(c, 0, k),
        !slot_present(c, k),
    ensures
        section_table(c).is_none(),
{
    lemma_scan_cut(c, 0, k);
}

/// Offset guard: an entry whose offset lies before the payload region ends
/// the table, whatever its size. The table is the entries before it, so
/// decoding stops there and does not skip ahead.
pub proof fn offset_guard_ends_table(c: Seq<u8>, k: int)
    requires
        0 <= k < MAX_SECTIONS,
        slot_present(c, k),
        slot_entry(c, k).offset < PAYLOAD_START,
        live_run(c, 0, k),
    ensures
        section_table(c) == Some(leading_entries(c, k)),
{
    table_ends(c, k);
}

/// Terminator: an entry of size zero ends the table. The table is the
/// entries before it.
pub proof fn terminator_ends_table(c: Seq<u8>, k: int)
    requires
        0 <= k < MAX_SECTIONS,
        slot_present(c, k),
        slot_entry(c, k).size == 0,
        live_run(c, 0, k),
    ensures
        section_table(c) == Some(leading_entries(c, k)),
{
    table_ends(c, k);
}

/// What a scan gives has no more entries than there are slots left, and
/// all of them are live.
proof fn lemma_scan_bounded(c: Seq<u8>, k: int)
    requires
        0 <= k <= MAX_SECTIONS,
    ensures
        scan_table(c, k) matches Some(table) ==> {
            &&& table.len() <= MAX_SECTIONS - k
            &&& forall|i: int| 0 <= i < table.len() ==> (#[trigger] table[i]).is_live()
        },
    decreases MAX_SECTIONS - k,
{
    if k < MAX_SECTIONS {
        lemma_scan_bounded(c, k + 1);
    }
}

/// A section table has at most `MAX_SECTIONS` entries, and each of them
/// describes a chunk: none is a terminator or points before the payloads.
pub proof fn table_holds_live_entries(c: Seq<u8>)
    ensures
        section_table(c) matches Some(table) ==> {
            &&& table.len() <= MAX_SECTIONS
            &&& forall|i: int| 0 <= i < table.len() ==> (#[trigger] table[i]).is_live()
        },
{
    lemma_scan_bounded(c, 0);
}

} // verus!
