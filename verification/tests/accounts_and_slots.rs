use alloy_primitives::{B256, U256 as Word};
use alloy_trie::TrieAccount;
use stateless_trie::account::{decode_account, AccountRecord};
use stateless_trie::primitives::U256;
use stateless_trie::slot::decode_slot_value;

fn list_of(items: &[&[u8]]) -> Vec<u8> {
    let mut payload = Vec::new();
    for item in items {
        payload.extend_from_slice(&alloy_rlp::encode(*item));
    }
    let mut blob = Vec::new();
    alloy_rlp::Header { list: true, payload_length: payload.len() }.encode(&mut blob);
    blob.extend_from_slice(&payload);
    blob
}

#[test]
fn account_of_four_items_decodes() {
    let blob = list_of(&[&[0x07], &[0x01, 0x00], &[0x11; 32], &[0x22; 32]]);
    assert_eq!(
        decode_account(&blob),
        Some(AccountRecord {
            nonce: 7,
            balance: U256::from_be_slice(&[0x01, 0x00]),
            storage_root: [0x11; 32],
            code_hash: [0x22; 32],
        })
    );
}

#[test]
fn account_with_zero_nonce_and_balance_decodes() {
    let blob = list_of(&[&[], &[], &[0x11; 32], &[0x22; 32]]);
    assert_eq!(
        decode_account(&blob),
        Some(AccountRecord {
            nonce: 0,
            balance: U256::zero(),
            storage_root: [0x11; 32],
            code_hash: [0x22; 32],
        })
    );
}

#[test]
fn account_with_the_greatest_numbers_decodes() {
    let blob = list_of(&[&[0xff; 8], &[0xff; 32], &[0x11; 32], &[0x22; 32]]);
    assert_eq!(
        decode_account(&blob),
        Some(AccountRecord {
            nonce: u64::MAX,
            balance: U256::from_be_slice(&[0xff; 32]),
            storage_root: [0x11; 32],
            code_hash: [0x22; 32],
        })
    );
}

#[test]
fn account_of_alloy_trie_decodes() {
    let account = TrieAccount::new(
        0x1234,
        Word::from(1_000_000_007u64),
        B256::repeat_byte(0x33),
        B256::repeat_byte(0x44),
    );
    let blob = alloy_rlp::encode(&account);
    let ours = decode_account(&blob).unwrap();
    assert_eq!(ours.nonce, 0x1234);
    assert_eq!(ours.balance.to_be_bytes(), Word::from(1_000_000_007u64).to_be_bytes::<32>());
    assert_eq!(ours.storage_root, [0x33; 32]);
    assert_eq!(ours.code_hash, [0x44; 32]);
}

#[test]
fn malformed_accounts_are_refused() {
    let root = [0x11u8; 32];
    let code = [0x22u8; 32];
    // three items, five items
    assert_eq!(decode_account(&list_of(&[&[0x07], &[0x01], &root])), None);
    assert_eq!(decode_account(&list_of(&[&[0x07], &[0x01], &root, &code, &[]])), None);
    // numbers with a zero in front
    assert_eq!(decode_account(&list_of(&[&[0x00, 0x07], &[0x01], &root, &code])), None);
    assert_eq!(decode_account(&list_of(&[&[0x07], &[0x00, 0x01], &root, &code])), None);
    assert_eq!(decode_account(&list_of(&[&[0x00], &[0x01], &root, &code])), None);
    // numbers that do not fit
    assert_eq!(decode_account(&list_of(&[&[0x01; 9], &[0x01], &root, &code])), None);
    assert_eq!(decode_account(&list_of(&[&[0x07], &[0x01; 33], &root, &code])), None);
    // digests of the wrong length
    assert_eq!(decode_account(&list_of(&[&[0x07], &[0x01], &root[..31], &code])), None);
    assert_eq!(decode_account(&list_of(&[&[0x07], &[0x01], &root, &[0x22; 33]])), None);
    // no list, trailing bytes, nothing
    assert_eq!(decode_account(&alloy_rlp::encode(&root[..])), None);
    let mut trailing = list_of(&[&[0x07], &[0x01], &root, &code]);
    trailing.push(0);
    assert_eq!(decode_account(&trailing), None);
    assert_eq!(decode_account(&[]), None);
}

#[test]
fn account_with_a_list_for_an_item_is_refused() {
    let mut payload = vec![0xc1, 0x07, 0x01];
    payload.extend_from_slice(&alloy_rlp::encode(&[0x11u8; 32][..]));
    payload.extend_from_slice(&alloy_rlp::encode(&[0x22u8; 32][..]));
    let mut blob = Vec::new();
    alloy_rlp::Header { list: true, payload_length: payload.len() }.encode(&mut blob);
    blob.extend_from_slice(&payload);
    assert_eq!(decode_account(&blob), None);
}

#[test]
fn storage_values_decode() {
    assert_eq!(decode_slot_value(&[0x80]), Some(U256::zero()));
    assert_eq!(decode_slot_value(&[0x05]), Some(U256::from_be_slice(&[5])));
    assert_eq!(decode_slot_value(&[0x7f]), Some(U256::from_be_slice(&[0x7f])));
    assert_eq!(decode_slot_value(&[0x81, 0x80]), Some(U256::from_be_slice(&[0x80])));
    assert_eq!(decode_slot_value(&[0x82, 0x01, 0x00]), Some(U256::from_be_slice(&[1, 0])));
    let mut full = vec![0xa0];
    full.extend_from_slice(&[0xff; 32]);
    assert_eq!(decode_slot_value(&full), Some(U256::from_be_slice(&[0xff; 32])));
}

#[test]
fn storage_values_of_alloy_rlp_decode() {
    for n in [0u64, 1, 127, 128, 255, 256, 65535, 1 << 40, u64::MAX] {
        let blob = alloy_rlp::encode(Word::from(n));
        let ours = decode_slot_value(&blob).unwrap();
        assert_eq!(ours.to_be_bytes(), Word::from(n).to_be_bytes::<32>());
    }
}

#[test]
fn malformed_storage_values_are_refused() {
    assert_eq!(decode_slot_value(&[]), None);
    // zero is the empty string, never a zero byte
    assert_eq!(decode_slot_value(&[0x00]), None);
    assert_eq!(decode_slot_value(&[0x82, 0x00, 0x01]), None);
    assert_eq!(decode_slot_value(&[0x81, 0x05]), None);
    assert_eq!(decode_slot_value(&[0xc0]), None);
    assert_eq!(decode_slot_value(&[0x05, 0x06]), None);
    let mut long = vec![0xa1];
    long.extend_from_slice(&[0x01; 33]);
    assert_eq!(decode_slot_value(&long), None);
}
