use stateless_trie::bytes::{copy_range, slice_eq};
use stateless_trie::primitives::{digest_eq, u64_from_be, U256};

#[test]
fn slices_compare_by_content() {
    assert!(slice_eq(&[], &[]));
    assert!(slice_eq(&[1, 2, 3], &[1, 2, 3]));
    assert!(!slice_eq(&[1, 2, 3], &[1, 2, 4]));
    assert!(!slice_eq(&[1, 2, 3], &[1, 2]));
    assert!(!slice_eq(&[], &[0]));
}

#[test]
fn copy_range_takes_the_bytes_between() {
    let bytes = [10u8, 11, 12, 13, 14];
    assert_eq!(copy_range(&bytes, 1, 4), vec![11, 12, 13]);
    assert_eq!(copy_range(&bytes, 0, 5), vec![10, 11, 12, 13, 14]);
    assert_eq!(copy_range(&bytes, 2, 2), Vec::<u8>::new());
}

#[test]
fn u256_from_short_slices_pads_on_the_left() {
    let five = U256::from_be_slice(&[5]);
    let mut expected = [0u8; 32];
    expected[31] = 5;
    assert_eq!(five.bytes, expected);
    assert_eq!(U256::from_be_slice(&[0, 0, 5]), five);
    assert_eq!(U256::from_be_slice(&[]), U256::zero());
}

#[test]
fn u256_from_two_bytes_is_big_endian() {
    let n = U256::from_be_slice(&[0x01, 0x02]);
    let mut expected = [0u8; 32];
    expected[30] = 1;
    expected[31] = 2;
    assert_eq!(n.to_be_bytes(), expected);
}

#[test]
fn u256_from_a_full_slice_keeps_every_byte() {
    let mut bytes = [0u8; 32];
    for (i, b) in bytes.iter_mut().enumerate() {
        *b = (i as u8) + 1;
    }
    assert_eq!(U256::from_be_slice(&bytes).to_be_bytes(), bytes);
}

#[test]
fn u256_agrees_with_alloy_primitives() {
    let bytes = [0xde, 0xad, 0xbe, 0xef, 0x01];
    let ours = U256::from_be_slice(&bytes);
    let theirs = alloy_primitives::U256::from_be_slice(&bytes);
    assert_eq!(ours.to_be_bytes(), theirs.to_be_bytes::<32>());
}

#[test]
fn u256_zero_test() {
    assert!(U256::zero().is_zero());
    assert!(U256::from_be_slice(&[0, 0]).is_zero());
    assert!(!U256::from_be_slice(&[1]).is_zero());
    let mut top = [0u8; 32];
    top[0] = 0x80;
    assert!(!U256::from_be_slice(&top).is_zero());
}

#[test]
fn u64_from_big_endian_bytes() {
    assert_eq!(u64_from_be(&[]), 0);
    assert_eq!(u64_from_be(&[7]), 7);
    assert_eq!(u64_from_be(&[0x01, 0x00]), 256);
    assert_eq!(u64_from_be(&[0x12, 0x34, 0x56]), 0x123456);
    assert_eq!(u64_from_be(&[0xff; 8]), u64::MAX);
    assert_eq!(u64_from_be(&[0, 0, 0, 0, 0, 0, 0, 9]), 9);
}

#[test]
fn digests_compare_by_content() {
    let a = [7u8; 32];
    let mut b = [7u8; 32];
    assert!(digest_eq(&a, &b));
    b[31] = 8;
    assert!(!digest_eq(&a, &b));
}
