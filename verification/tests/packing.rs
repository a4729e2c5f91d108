use h2cache::error::PackError;
use h2cache::layout::SectionEntry;
use h2cache::pack::pack;
use h2cache::table::read_section_table;
use h2cache::unpack::unpack;
use h2cache::writer::ChunkWriter;

fn patterned(len: usize) -> Vec<u8> {
    let mut v = Vec::with_capacity(len);
    let mut x: u32 = 0x1234_5678;
    for i in 0..len {
        x = x.wrapping_mul(1664525).wrapping_add(1013904223);
        // Runs of equal bytes between noisy stretches, so that streams shrink.
        if (i / 997) % 2 == 0 {
            v.push((x >> 24) as u8);
        } else {
            v.push((i / 4096) as u8);
        }
    }
    v
}

#[test]
fn store_round_trip() {
    for len in [4096usize, 4097, 4096 + 262143, 4096 + 262144, 4096 + 262145, 4096 + 3 * 262144 + 17] {
        let flat = patterned(len);
        let c = pack(&flat, false).unwrap();
        assert_eq!(c.len(), 12288 + (len - 4096));
        assert_eq!(unpack(&c).unwrap(), flat);
    }
}

#[test]
fn compressed_round_trip() {
    for len in [4096usize, 4097, 4096 + 262143, 4096 + 262144, 4096 + 262145, 4096 + 3 * 262144 + 17] {
        let flat = patterned(len);
        let c = pack(&flat, true).unwrap();
        assert_eq!(unpack(&c).unwrap(), flat);
    }
}

#[test]
fn store_mode_records_negative_sizes() {
    let flat = patterned(4096 + 2 * 262144 + 5);
    let c = pack(&flat, false).unwrap();
    let table = read_section_table(&c).unwrap();
    assert_eq!(
        table,
        vec![
            SectionEntry { size: -262144, offset: 12288 },
            SectionEntry { size: -262144, offset: 12288 + 262144 },
            SectionEntry { size: -5, offset: 12288 + 2 * 262144 },
        ]
    );
    assert!(table.iter().all(|e| e.size < 0));
    assert_eq!(&c[..4096], &flat[..4096]);
    assert_eq!(&c[12288..], &flat[4096..]);
    assert!(c[4096 + 24..12288].iter().all(|b| *b == 0));
}

#[test]
fn compressed_mode_records_streams() {
    let flat = patterned(4096 + 262144 + 1000);
    let c = pack(&flat, true).unwrap();
    let table = read_section_table(&c).unwrap();
    assert_eq!(table.len(), 2);
    let options = deflate::CompressionOptions::huffman_only();
    let first = deflate::deflate_bytes_zlib_conf(&flat[4096..4096 + 262144], options);
    let second = deflate::deflate_bytes_zlib_conf(&flat[4096 + 262144..], options);
    assert_ne!(&first[..], &flat[4096..4096 + 262144]);
    assert_eq!(table[0], SectionEntry { size: first.len() as i32, offset: 12288 });
    assert_eq!(
        table[1],
        SectionEntry { size: second.len() as i32, offset: 12288 + first.len() as u32 }
    );
    assert_eq!(&c[..4096], &flat[..4096]);
    assert_eq!(&c[12288..12288 + first.len()], &first[..]);
    assert_eq!(&c[12288 + first.len()..], &second[..]);
    assert_eq!(c.len(), 12288 + first.len() + second.len());
    let inflated = inflate::inflate_bytes_zlib(&c[12288..12288 + first.len()]).unwrap();
    assert_eq!(&inflated[..], &flat[4096..4096 + 262144]);
}

#[test]
fn one_stored_block_of_zeros() {
    let flat = vec![0u8; 4096 + 262144];
    let c = pack(&flat, false).unwrap();
    assert_eq!(c.len(), 274432);
    assert_eq!(
        read_section_table(&c).unwrap(),
        vec![SectionEntry { size: -262144, offset: 12288 }]
    );
    assert_eq!(&c[4096..4104], &[0x00, 0x00, 0xfc, 0xff, 0x00, 0x30, 0x00, 0x00]);
    assert!(c[4104..12288].iter().all(|b| *b == 0));
    let back = unpack(&c).unwrap();
    assert_eq!(back.len(), 266240);
    assert_eq!(back, flat);
}

#[test]
fn header_only_input() {
    let mut flat = vec![0u8; 4096];
    flat[17] = 0xee;
    for should_compress in [true, false] {
        let c = pack(&flat, should_compress).unwrap();
        assert_eq!(c.len(), 12288);
        assert_eq!(&c[..4096], &flat[..]);
        assert!(c[4096..].iter().all(|b| *b == 0));
        assert!(read_section_table(&c).unwrap().is_empty());
        let back = unpack(&c).unwrap();
        assert_eq!(back.len(), 4096);
        assert_eq!(back, flat);
    }
}

#[test]
fn short_input_is_truncation() {
    assert_eq!(pack(&[], true), Err(PackError::Truncation));
    assert_eq!(pack(&vec![1u8; 4095], false), Err(PackError::Truncation));
}

#[test]
fn full_table_of_chunks_packs() {
    let mut flat = vec![0u8; 4096 + 1024 * 262144];
    flat[4096 + 1023 * 262144] = 0x77;
    let c = pack(&flat, false).unwrap();
    assert_eq!(c.len(), 12288 + 1024 * 262144);
    let table = read_section_table(&c).unwrap();
    assert_eq!(table.len(), 1024);
    assert_eq!(
        table[1023],
        SectionEntry { size: -262144, offset: 12288 + 1023 * 262144 }
    );
    assert_eq!(c[12288 + 1023 * 262144], 0x77);
}

#[test]
fn one_chunk_too_many_is_capacity_exceeded() {
    let flat = vec![0u8; 4096 + 1024 * 262144 + 1];
    assert_eq!(pack(&flat, false), Err(PackError::CapacityExceeded));
    assert_eq!(pack(&flat, true), Err(PackError::CapacityExceeded));
}

#[test]
fn writer_lays_out_header_table_and_chunks() {
    let header = vec![0xabu8; 4096];
    let mut w = ChunkWriter::new(&header);
    assert_eq!(w.append(&[1, 2, 3], false), Ok(()));
    assert_eq!(w.append(&[4, 5], true), Ok(()));
    let c = w.finish();
    assert_eq!(c.len(), 12288 + 5);
    assert_eq!(&c[..4096], &header[..]);
    assert_eq!(
        &c[4096..4112],
        &[0xfd, 0xff, 0xff, 0xff, 0x00, 0x30, 0, 0, 2, 0, 0, 0, 0x03, 0x30, 0, 0]
    );
    assert!(c[4112..12288].iter().all(|b| *b == 0));
    assert_eq!(&c[12288..], &[1, 2, 3, 4, 5]);
}

#[test]
fn writer_refuses_empty_chunk() {
    let mut w = ChunkWriter::new(&vec![0u8; 4096]);
    assert_eq!(w.append(&[], true), Err(PackError::ChunkOutOfRange));
    assert_eq!(w.append(&[], false), Err(PackError::ChunkOutOfRange));
    assert_eq!(w.append(&[1], false), Ok(()));
    let c = w.finish();
    assert_eq!(read_section_table(&c).unwrap(), vec![SectionEntry { size: -1, offset: 12288 }]);
}

#[test]
fn writer_refuses_chunk_beyond_the_table() {
    let mut w = ChunkWriter::new(&vec![0u8; 4096]);
    for i in 0..1024u32 {
        assert_eq!(w.append(&[i as u8], false), Ok(()));
    }
    assert_eq!(w.append(&[0], false), Err(PackError::CapacityExceeded));
    assert_eq!(w.append(&[], false), Err(PackError::CapacityExceeded));
    let c = w.finish();
    assert_eq!(c.len(), 12288 + 1024);
    let table = read_section_table(&c).unwrap();
    assert_eq!(table.len(), 1024);
    assert_eq!(table[1023], SectionEntry { size: -1, offset: 12288 + 1023 });
    let flat = unpack(&c).unwrap();
    assert_eq!(flat.len(), 4096 + 1024);
    assert_eq!(flat[4096 + 1023], 255);
}

fn noise(len: usize, seed: u64) -> Vec<u8> {
    let mut x = seed | 1;
    let mut v = Vec::with_capacity(len);
    for _ in 0..len {
        x ^= x << 13;
        x ^= x >> 7;
        x ^= x << 17;
        v.push((x >> 32) as u8);
    }
    v
}

#[test]
fn repeat_across_a_window_edge_round_trips() {
    // Bytes that do not compress, with a repeat planted so that it starts
    // before the end of the second 32768-byte window of a block and ends
    // after it.
    for len in [65538usize, 65600, 70000, 98304, 131072, 262144] {
        for back in [1usize, 3, 100, 8000, 30000] {
            let mut flat = vec![0x11u8; 4096];
            let mut body = noise(len, 0x9e37_79b9_7f4a_7c15 ^ (len as u64) ^ ((back as u64) << 20));
            for k in 0..3 {
                body[65534 + k] = body[65534 - back + k];
            }
            flat.extend_from_slice(&body);
            let c = pack(&flat, true).unwrap();
            assert_eq!(unpack(&c).unwrap(), flat, "len {} back {}", len, back);
        }
    }
}

#[test]
fn long_runs_round_trip_compressed() {
    for byte in [0u8, 0x55, 0xff] {
        let mut flat = vec![byte; 4096 + 2 * 262144 + 1];
        flat[4096 + 65535] = !byte;
        let c = pack(&flat, true).unwrap();
        assert!(c.len() < flat.len());
        assert_eq!(unpack(&c).unwrap(), flat);
    }
}

#[test]
fn mixed_blocks_round_trip_compressed() {
    let mut flat = vec![7u8; 4096];
    flat.extend_from_slice(&noise(40000, 1));
    flat.extend_from_slice(&vec![0u8; 50000]);
    flat.extend_from_slice(b"abcabcabcabcabcabcabcabcabcabcabcabc");
    flat.extend_from_slice(&noise(200000, 2));
    flat.extend_from_slice(&vec![9u8; 300000]);
    let c = pack(&flat, true).unwrap();
    assert_eq!(unpack(&c).unwrap(), flat);
}
