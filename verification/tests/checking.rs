use h2cache::checked::{confirm_restored, pack_checked, same_bytes};
use h2cache::error::UnpackError;
use h2cache::pack::pack;
use h2cache::unpack::unpack;

fn sample(len: usize) -> Vec<u8> {
    let mut x: u32 = 0x0bad_5eed;
    let mut v = Vec::with_capacity(len);
    for i in 0..len {
        x = x.wrapping_mul(1103515245).wrapping_add(12345);
        if (i / 5000) % 3 == 0 {
            v.push((x >> 16) as u8);
        } else {
            v.push((i / 700) as u8);
        }
    }
    v
}

#[test]
fn same_bytes_compares_whole_strings() {
    assert!(same_bytes(&[], &[]));
    assert!(same_bytes(&[1, 2, 3], &[1, 2, 3]));
    assert!(!same_bytes(&[1, 2, 3], &[1, 2]));
    assert!(!same_bytes(&[1, 2], &[1, 2, 3]));
    assert!(!same_bytes(&[1, 2, 3], &[1, 2, 4]));
    assert!(!same_bytes(&[0, 2, 3], &[1, 2, 3]));
    assert!(!same_bytes(&[], &[0]));
}

#[test]
fn confirm_restored_follows_the_outcome() {
    let flat = vec![1u8, 2, 3];
    let container = vec![9u8, 8, 7, 6];
    assert_eq!(
        confirm_restored(&flat, container.clone(), Ok(vec![1, 2, 3])),
        Some(container.clone())
    );
    assert_eq!(confirm_restored(&flat, container.clone(), Ok(vec![1, 2])), None);
    assert_eq!(confirm_restored(&flat, container.clone(), Ok(vec![1, 2, 4])), None);
    assert_eq!(confirm_restored(&flat, container.clone(), Ok(vec![])), None);
    assert_eq!(confirm_restored(&flat, container.clone(), Err(UnpackError::Truncation)), None);
    assert_eq!(
        confirm_restored(
            &flat,
            container.clone(),
            Err(UnpackError::CodecFailure(String::from("bad")))
        ),
        None
    );
    assert_eq!(confirm_restored(&[], vec![], Ok(vec![])), Some(vec![]));
}

#[test]
fn pack_checked_gives_the_packed_container() {
    for len in [4096usize, 4097, 4096 + 70000, 4096 + 262144, 4096 + 2 * 262144 + 9] {
        let flat = sample(len);
        let c = pack_checked(&flat).unwrap();
        assert_eq!(c, pack(&flat, true).unwrap());
        assert_eq!(unpack(&c).unwrap(), flat);
    }
}

#[test]
fn pack_checked_gives_nothing_where_packing_fails() {
    assert_eq!(pack_checked(&[]), None);
    assert_eq!(pack_checked(&vec![0u8; 4095]), None);
    assert_eq!(pack_checked(&vec![0u8; 4096 + 1024 * 262144 + 1]), None);
}
