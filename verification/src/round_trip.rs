//! Unpacking what was packed gives back the flat file.

use vstd::prelude::*;
use crate::error::{Fault, PackError};
use crate::layout::{
    lemma_entry_round_trip, SectionEntry, BLOCK_LEN, ENTRY_LEN, HEADER_LEN, MAX_SECTIONS,
    PAYLOAD_START,
};
use crate::pack::{
    addressable, block, block_count, block_end, block_start, packed, packed_entry, packed_table,
    payload, payloads,
};
use crate::table::{scan_table, section_table, slot_entry, slot_present};
use crate::unpack::{
    chunk_bytes, chunk_present, decoded_chunk, decoded_chunks, unpacked_from,
};
use crate::writer::{
    container, lemma_table_bytes_len, table_bytes, zeros,
};

verus! {

/// Slot `k` of the serialized entries holds the bytes of entry `k`.
proof fn lemma_table_bytes_slot(table: Seq<SectionEntry>, k: int)
    requires
        0 <= k < table.len(),
    ensures
        table_bytes(table).len() == ENTRY_LEN * table.len(),
        table_bytes(table).subrange(ENTRY_LEN * k, ENTRY_LEN * (k + 1)) == table[k].bytes(),
    decreases table.len(),
{
    let front = table.drop_last();
    lemma_table_bytes_len(table);
    lemma_table_bytes_len(front);
    lemma_entry_round_trip(table.last());
    if k == table.len() - 1 {
        assert(table_bytes(table).subrange(ENTRY_LEN * k, ENTRY_LEN * (k + 1))
            =~= table.last().bytes());
    } else {
        lemma_table_bytes_slot(front, k);
        assert(table_bytes(table).subrange(ENTRY_LEN * k, ENTRY_LEN * (k + 1)) =~= table_bytes(
            front,
        ).subrange(ENTRY_LEN * k, ENTRY_LEN * (k + 1)));
    }
}

/// The section table of a container is the table it was laid out with,
/// provided that table fits the table region and all its entries are live.
pub proof fn lemma_table_reads_back(header: Seq<u8>, table: Seq<SectionEntry>, body: Seq<u8>)
    requires
        header.len() == HEADER_LEN,
        table.len() <= MAX_SECTIONS,
        forall|i: int| 0 <= i < table.len() ==> (#[trigger] table[i]).is_live(),
    ensures
        section_table(container(header, table, body)) == Some(table),
{
    lemma_scan_reads_back(header, table, body, 0);
    assert(table.subrange(0, table.len() as int) =~= table);
}

proof fn lemma_scan_reads_back(
    header: Seq<u8>,
    table: Seq<SectionEntry>,
    body: Seq<u8>,
    k: int,
)
    requires
        header.len() == HEADER_LEN,
        table.len() <= MAX_SECTIONS,
        forall|i: int| 0 <= i < table.len() ==> (#[trigger] table[i]).is_live(),
        0 <= k <= table.len(),
    ensures
        scan_table(container(header, table, body), k) == Some(
            table.subrange(k, table.len() as int),
        ),
    decreases table.len() - k,
{
    let c = container(header, table, body);
    let n = table.len() as int;
    lemma_table_bytes_len(table);
    assert(c.len() == PAYLOAD_START + body.len());
    if k == n {
        assert(table.subrange(k, n) =~= Seq::<SectionEntry>::empty());
        if k < MAX_SECTIONS {
            let slot = c.subrange(HEADER_LEN + ENTRY_LEN * k, HEADER_LEN + ENTRY_LEN * (k + 1));
            assert(slot =~= zeros(8));
            assert(slot.subrange(0, 4) =~= zeros(4));
            assert(slot_entry(c, k).size == 0);
        }
    } else {
        lemma_scan_reads_back(header, table, body, k + 1);
        lemma_table_bytes_slot(table, k);
        lemma_entry_round_trip(table[k]);
        let slot = c.subrange(HEADER_LEN + ENTRY_LEN * k, HEADER_LEN + ENTRY_LEN * (k + 1));
        assert(slot =~= table_bytes(table).subrange(ENTRY_LEN * k, ENTRY_LEN * (k + 1)));
        assert(slot_entry(c, k) == table[k]);
        assert(slot_present(c, k));
        assert(seq![table[k]] + table.subrange(k + 1, n) =~= table.subrange(k, n));
    }
}

/// Whether `outcomes` holds, for each block of a flat file, the block
/// itself: what a codec says that inflates each stream to the block it
/// was made of.
pub open spec fn restoring(flat: Seq<u8>, outcomes: Seq<Result<Seq<u8>, Seq<char>>>) -> bool {
    &&& outcomes.len() == block_count(flat.len() as int)
    &&& forall|i: int|
        0 <= i < outcomes.len() ==> #[trigger] outcomes[i] == Ok::<Seq<u8>, Seq<char>>(
            block(flat, i),
        )
}

/// The outcomes of a codec that inflates each stream of a flat file to the
/// block it was made of.
pub open spec fn restored_blocks(flat: Seq<u8>) -> Seq<Result<Seq<u8>, Seq<char>>> {
    Seq::new(
        block_count(flat.len() as int) as nat,
        |i: int| Ok::<Seq<u8>, Seq<char>>(block(flat, i)),
    )
}

/// The flat bytes after the header that the first `i` blocks cover.
pub open spec fn covered(flat: Seq<u8>, i: int) -> Seq<u8> {
    flat.subrange(HEADER_LEN as int, block_end(flat.len() as int, i - 1))
}

/// Every block of a flat file starts inside the file, is not empty and
/// begins where the block before it ends.
proof fn lemma_block_bounds(flat_len: int, i: int)
    requires
        HEADER_LEN <= flat_len,
        0 <= i < block_count(flat_len),
    ensures
        block_end(flat_len, i - 1) == block_start(i),
        block_start(i) < block_end(flat_len, i) <= flat_len,
        block_end(flat_len, i) - block_start(i) <= BLOCK_LEN,
        i == block_count(flat_len) - 1 ==> block_end(flat_len, i) == flat_len,
{
}

/// In store mode the first `i` payloads are the flat bytes they cover.
proof fn lemma_stored_payloads(flat: Seq<u8>, i: int)
    requires
        HEADER_LEN <= flat.len(),
        0 <= i <= block_count(flat.len() as int),
    ensures
        payloads(flat, i, false) == covered(flat, i),
    decreases i,
{
    if i == 0 {
        assert(covered(flat, 0) =~= Seq::<u8>::empty());
    } else {
        lemma_stored_payloads(flat, i - 1);
        lemma_block_bounds(flat.len() as int, i - 1);
        if i - 1 > 0 {
            lemma_block_bounds(flat.len() as int, i - 2);
        }
        assert(covered(flat, i - 1) + block(flat, i - 1) =~= covered(flat, i));
    }
}

/// In store mode every chunk of a flat file that needs no more chunks than
/// the table holds can be described by an entry.
proof fn lemma_stored_addressable(flat: Seq<u8>, i: int)
    requires
        HEADER_LEN <= flat.len(),
        block_count(flat.len() as int) <= MAX_SECTIONS,
        0 <= i < block_count(flat.len() as int),
    ensures
        addressable(flat, i, false),
{
    lemma_stored_payloads(flat, i);
    lemma_block_bounds(flat.len() as int, i);
}

/// Payload `i` lies in the joined payloads right after the payloads
/// before it.
proof fn lemma_payload_position(flat: Seq<u8>, i: int, n: int, should_compress: bool)
    requires
        0 <= i < n,
    ensures
        payloads(flat, i, should_compress).len() + payload(flat, i, should_compress).len()
            <= payloads(flat, n, should_compress).len(),
        payloads(flat, n, should_compress).subrange(
            payloads(flat, i, should_compress).len() as int,
            (payloads(flat, i, should_compress).len() + payload(flat, i, should_compress).len())
                as int,
        ) == payload(flat, i, should_compress),
    decreases n,
{
    let before = payloads(flat, i, should_compress).len() as int;
    let len = payload(flat, i, should_compress).len() as int;
    let all = payloads(flat, n, should_compress);
    if i == n - 1 {
        assert(all.subrange(before, before + len) =~= payload(flat, i, should_compress));
    } else {
        lemma_payload_position(flat, i, n - 1, should_compress);
        assert(all.subrange(before, before + len) =~= payloads(
            flat,
            n - 1,
            should_compress,
        ).subrange(before, before + len));
    }
}

/// The first `i` chunks of a packed flat file decode to the flat bytes they
/// cover, in store mode always and otherwise where the codec's outcomes
/// are the blocks.
proof fn lemma_chunks_decode(
    flat: Seq<u8>,
    should_compress: bool,
    outcomes: Seq<Result<Seq<u8>, Seq<char>>>,
    i: int,
)
    requires
        HEADER_LEN <= flat.len(),
        block_count(flat.len() as int) <= MAX_SECTIONS,
        forall|j: int|
            0 <= j < block_count(flat.len() as int) ==> addressable(flat, j, should_compress),
        should_compress ==> restoring(flat, outcomes),
        0 <= i <= block_count(flat.len() as int),
    ensures
        decoded_chunks(
            container(
                flat.subrange(0, HEADER_LEN as int),
                packed_table(flat, block_count(flat.len() as int), should_compress),
                payloads(flat, block_count(flat.len() as int), should_compress),
            ),
            packed_table(flat, block_count(flat.len() as int), should_compress).subrange(0, i),
            outcomes,
        ) == Ok::<Seq<u8>, Fault>(covered(flat, i)),
    decreases i,
{
    let n = block_count(flat.len() as int);
    let header = flat.subrange(0, HEADER_LEN as int);
    let table = packed_table(flat, n, should_compress);
    let body = payloads(flat, n, should_compress);
    let c = container(header, table, body);
    if i == 0 {
        assert(table.subrange(0, 0).len() == 0);
        assert(covered(flat, 0) =~= Seq::<u8>::empty());
    } else {
        let k = i - 1;
        let e = table[k];
        let before = payloads(flat, k, should_compress).len() as int;
        let data = payload(flat, k, should_compress);
        lemma_chunks_decode(flat, should_compress, outcomes, k);
        lemma_payload_position(flat, k, n, should_compress);
        lemma_table_bytes_len(table);
        lemma_block_bounds(flat.len() as int, k);
        if k > 0 {
            lemma_block_bounds(flat.len() as int, k - 1);
        }
        assert(table.subrange(0, i).drop_last() =~= table.subrange(0, k));
        assert(table.subrange(0, i).last() == e);
        assert(addressable(flat, k, should_compress));
        assert(e == packed_entry(flat, k, should_compress));
        assert(e.offset == PAYLOAD_START + before);
        assert(e.len() == data.len());
        assert(c.len() == PAYLOAD_START + body.len());
        assert(chunk_present(c, e));
        assert(chunk_bytes(c, e) =~= body.subrange(before, before + data.len()));
        assert(chunk_bytes(c, e) == data);
        if should_compress {
            assert(outcomes[k] == Ok::<Seq<u8>, Seq<char>>(block(flat, k)));
        }
        assert(decoded_chunk(c, e, outcomes[k]) == Ok::<Seq<u8>, Fault>(block(flat, k)));
        assert(covered(flat, k) + block(flat, k) =~= covered(flat, i));
    }
}

/// A flat file that packs unpacks to itself, in store mode always and
/// otherwise where the codec's outcomes are the blocks.
proof fn lemma_round_trip(
    flat: Seq<u8>,
    should_compress: bool,
    outcomes: Seq<Result<Seq<u8>, Seq<char>>>,
)
    requires
        packed(flat, should_compress) is Ok,
        should_compress ==> restoring(flat, outcomes),
    ensures
        section_table(packed(flat, should_compress)->Ok_0) == Some(
            packed_table(flat, block_count(flat.len() as int), should_compress),
        ),
        unpacked_from(packed(flat, should_compress)->Ok_0, outcomes) == Ok::<Seq<u8>, Fault>(
            flat,
        ),
{
    let n = block_count(flat.len() as int);
    let header = flat.subrange(0, HEADER_LEN as int);
    let table = packed_table(flat, n, should_compress);
    let body = payloads(flat, n, should_compress);
    let c = container(header, table, body);
    assert(packed(flat, should_compress)->Ok_0 == c);
    assert forall|i: int| 0 <= i < table.len() implies (#[trigger] table[i]).is_live() by {
        assert(addressable(flat, i, should_compress));
    }
    lemma_table_reads_back(header, table, body);
    lemma_chunks_decode(flat, should_compress, outcomes, n);
    assert(table.subrange(0, n) =~= table);
    if n > 0 {
        lemma_block_bounds(flat.len() as int, n - 1);
    }
    assert(c.subrange(0, HEADER_LEN as int) =~= header);
    assert(header + covered(flat, n) =~= flat);
}

/// Store-mode round trip. A flat file that holds a header and needs no
/// more chunks than the table holds packs in store mode, and the container
/// unpacks to the flat file, byte for byte, whatever the codec would say:
/// every entry of the container's table has a negative size, so no outcome
/// of the codec is read.
pub proof fn store_round_trip(flat: Seq<u8>, outcomes: Seq<Result<Seq<u8>, Seq<char>>>)
    requires
        HEADER_LEN <= flat.len(),
        block_count(flat.len() as int) <= MAX_SECTIONS,
    ensures
        packed(flat, false) is Ok,
        unpacked_from(packed(flat, false)->Ok_0, outcomes) == Ok::<Seq<u8>, Fault>(flat),
        section_table(packed(flat, false)->Ok_0) matches Some(table) && forall|i: int|
            0 <= i < table.len() ==> (#[trigger] table[i]).size < 0,
{
    let n = block_count(flat.len() as int);
    assert forall|i: int| 0 <= i < n implies addressable(flat, i, false) by {
        lemma_stored_addressable(flat, i);
    }
    lemma_round_trip(flat, false, outcomes);
    let table = packed_table(flat, n, false);
    assert forall|i: int| 0 <= i < table.len() implies (#[trigger] table[i]).size < 0 by {
        assert(addressable(flat, i, false));
    }
}

/// Compressed round trip. Where a flat file packs with compression and the
/// codec inflates the stream of each of its blocks to the block, the
/// container unpacks to the flat file, byte for byte.
pub proof fn compressed_round_trip(flat: Seq<u8>, outcomes: Seq<Result<Seq<u8>, Seq<char>>>)
    requires
        restoring(flat, outcomes),
    ensures
        packed(flat, true) is Ok ==> unpacked_from(packed(flat, true)->Ok_0, outcomes) == Ok::<
            Seq<u8>,
            Fault,
        >(flat),
{
    if packed(flat, true) is Ok {
        lemma_round_trip(flat, true, outcomes);
    }
}

/// Chunk count bound. A flat file that holds a header packs in store mode
/// exactly if it needs no more chunks than the table holds; in either mode
/// packing fails for want of capacity exactly if it needs more.
pub proof fn capacity_bound(flat: Seq<u8>, should_compress: bool)
    requires
        HEADER_LEN <= flat.len(),
    ensures
        block_count(flat.len() as int) <= MAX_SECTIONS <==> flat.len() <= HEADER_LEN
            + MAX_SECTIONS * BLOCK_LEN,
        packed(flat, should_compress) == Err::<Seq<u8>, PackError>(PackError::CapacityExceeded)
            <==> block_count(flat.len() as int) > MAX_SECTIONS,
        packed(flat, false) is Ok <==> block_count(flat.len() as int) <= MAX_SECTIONS,
{
    if block_count(flat.len() as int) <= MAX_SECTIONS {
        store_round_trip(flat, Seq::empty());
    }
}

} // verus!
