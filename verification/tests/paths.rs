use stateless_trie::path::{read_path, to_nibbles};

#[test]
fn bytes_split_into_high_and_low_nibbles() {
    assert_eq!(to_nibbles(&[]), Vec::<u8>::new());
    assert_eq!(to_nibbles(&[0xab]), vec![0x0a, 0x0b]);
    assert_eq!(to_nibbles(&[0x01, 0xf0, 0x9c]), vec![0, 1, 0xf, 0, 9, 0xc]);
}

#[test]
fn nibbles_agree_with_alloy_trie() {
    let bytes = [0x12u8, 0x34, 0xab, 0xcd, 0x00, 0xff];
    assert_eq!(to_nibbles(&bytes), alloy_trie::Nibbles::unpack(bytes).to_vec());
}

#[test]
fn even_extension_path() {
    assert_eq!(read_path(&[0x00, 0x12, 0x34]), Some((false, vec![1, 2, 3, 4])));
    assert_eq!(read_path(&[0x00]), Some((false, vec![])));
}

#[test]
fn odd_extension_path() {
    assert_eq!(read_path(&[0x11, 0x23]), Some((false, vec![1, 2, 3])));
    assert_eq!(read_path(&[0x1f]), Some((false, vec![0xf])));
}

#[test]
fn even_leaf_path() {
    assert_eq!(read_path(&[0x20, 0xab]), Some((true, vec![0xa, 0xb])));
    assert_eq!(read_path(&[0x20]), Some((true, vec![])));
}

#[test]
fn odd_leaf_path() {
    assert_eq!(read_path(&[0x3a, 0xbc]), Some((true, vec![0xa, 0xb, 0xc])));
}

#[test]
fn paths_with_a_bad_first_byte_are_refused() {
    assert_eq!(read_path(&[]), None);
    assert_eq!(read_path(&[0x40]), None);
    assert_eq!(read_path(&[0xf0, 0x12]), None);
    // an even path must have zero in the low half of the first byte
    assert_eq!(read_path(&[0x01, 0x12]), None);
    assert_eq!(read_path(&[0x2f]), None);
}

#[test]
fn compact_paths_of_alloy_trie_read_back() {
    for len in 0..9usize {
        let nibbles: Vec<u8> = (0..len).map(|i| ((i * 7 + 3) % 16) as u8).collect();
        for leaf in [false, true] {
            let encoded = alloy_trie::nodes::encode_path_leaf(
                &alloy_trie::Nibbles::from_nibbles(&nibbles),
                leaf,
            );
            assert_eq!(read_path(&encoded), Some((leaf, nibbles.clone())));
        }
    }
}
