use alloy_consensus::Header;
use alloy_primitives::{keccak256, B256, U256 as Word};
use alloy_trie::proof::ProofRetainer;
use alloy_trie::{HashBuilder, Nibbles, TrieAccount, EMPTY_ROOT_HASH, KECCAK_EMPTY};
use stateless_trie::primitives::U256;
use stateless_trie::sparse_state::{init_trie, try_init_trie, SparseState, StatelessTrie};
use stateless_trie::witness::{
    build_storage_hash_map, decode_ancestor_headers, find_state_root, get_state_root,
    latest_state_root, AncestorHeader, ExecutionWitness,
};

fn header_bytes(number: u64, state_root: u8) -> Vec<u8> {
    let header =
        Header { number, state_root: B256::repeat_byte(state_root), ..Default::default() };
    alloy_rlp::encode(&header)
}

fn witness_with_headers(headers: Vec<Vec<u8>>) -> ExecutionWitness {
    ExecutionWitness { state: vec![], codes: vec![], keys: vec![], headers }
}

fn witness_with_keys(keys: Vec<Vec<u8>>) -> ExecutionWitness {
    ExecutionWitness { state: vec![], codes: vec![], keys, headers: vec![] }
}

fn slot(n: u64) -> Vec<u8> {
    Word::from(n).to_be_bytes::<32>().to_vec()
}

fn number(n: u64) -> U256 {
    U256::from_be_slice(&n.to_be_bytes())
}

/// A trie over the given keys and values, with the nodes on the way to each
/// target.
fn trie_with_proofs(entries: &[(B256, Vec<u8>)], targets: &[B256]) -> (B256, Vec<Vec<u8>>) {
    let mut sorted: Vec<(B256, Vec<u8>)> = entries.to_vec();
    sorted.sort_by(|a, b| a.0.cmp(&b.0));
    let retainer = ProofRetainer::new(targets.iter().map(|t| Nibbles::unpack(t)).collect());
    let mut builder = HashBuilder::default().with_proof_retainer(retainer);
    for (key, value) in sorted.iter() {
        builder.add_leaf(Nibbles::unpack(key), value);
    }
    let root = builder.root();
    let nodes = builder
        .take_proof_nodes()
        .into_nodes_sorted()
        .into_iter()
        .map(|(_, node)| node.to_vec())
        .collect();
    (root, nodes)
}

/// A witness for a state of three accounts, two of them with storage, that
/// names every account and some slots of each, with headers that declare the
/// root of that state.
fn full_witness() -> ExecutionWitness {
    let addresses: [[u8; 20]; 3] = [[0xa1; 20], [0xb2; 20], [0xc3; 20]];
    let slots: [Vec<u64>; 3] = [vec![1, 2, 3], vec![], vec![7, 8]];
    let asked: [Vec<u64>; 3] = [vec![1, 3, 99], vec![5], vec![8, 7]];
    let mut nodes = vec![vec![0x80]];
    let mut keys = Vec::new();
    let mut accounts = Vec::new();
    for i in 0..3 {
        let storage: Vec<(B256, Vec<u8>)> = slots[i]
            .iter()
            .map(|s| {
                (keccak256(Word::from(*s).to_be_bytes::<32>()), alloy_rlp::encode(Word::from(s * 11)))
            })
            .collect();
        let targets: Vec<B256> =
            asked[i].iter().map(|s| keccak256(Word::from(*s).to_be_bytes::<32>())).collect();
        let storage_root = if storage.is_empty() {
            EMPTY_ROOT_HASH
        } else {
            let (root, storage_nodes) = trie_with_proofs(&storage, &targets);
            nodes.extend(storage_nodes);
            root
        };
        accounts.push((
            keccak256(addresses[i]),
            alloy_rlp::encode(TrieAccount::new(
                i as u64,
                Word::from(100 + i as u64),
                storage_root,
                KECCAK_EMPTY,
            )),
        ));
        keys.push(addresses[i].to_vec());
        for s in asked[i].iter() {
            keys.push(slot(*s));
        }
    }
    let targets: Vec<B256> = addresses.iter().map(|a| keccak256(a)).collect();
    let (state_root, state_nodes) = trie_with_proofs(&accounts, &targets);
    nodes.extend(state_nodes);
    let parent = Header { number: 41, state_root, ..Default::default() };
    let older = Header { number: 40, state_root: B256::repeat_byte(9), ..Default::default() };
    ExecutionWitness {
        state: nodes,
        codes: vec![],
        keys,
        headers: vec![alloy_rlp::encode(&parent), alloy_rlp::encode(&older)],
    }
}

#[test]
fn state_less_trie_storage_access() {
    let witness = full_witness();
    let storage = build_storage_hash_map(&witness);
    let mut trie = init_trie::<SparseState>(&witness);

    assert_eq!(storage.len(), 3);
    for i in 0..storage.len() {
        let address = storage.address(i);
        let slots = storage.get(&address).unwrap();
        for slot in slots {
            assert!(trie.account(address.clone()).is_ok());
            assert!(trie.storage(address.clone(), slot.clone()).is_ok());
        }
    }
}

#[test]
fn slots_of_the_witness_read_their_values() {
    let witness = full_witness();
    let mut trie = init_trie::<SparseState>(&witness);
    assert_eq!(trie.account([0xa1; 20]).unwrap().unwrap().balance, number(100));
    assert_eq!(trie.storage([0xa1; 20], number(1)), Ok(Some(number(11))));
    assert_eq!(trie.storage([0xa1; 20], number(3)), Ok(Some(number(33))));
    assert_eq!(trie.storage([0xa1; 20], number(99)), Ok(Some(number(0))));
    assert_eq!(trie.account([0xb2; 20]).unwrap().unwrap().nonce, 1);
    assert_eq!(trie.storage([0xb2; 20], number(5)), Ok(Some(number(0))));
    assert_eq!(trie.account([0xc3; 20]).unwrap().unwrap().balance, number(102));
    assert_eq!(trie.storage([0xc3; 20], number(7)), Ok(Some(number(77))));
    assert_eq!(trie.storage([0xc3; 20], number(8)), Ok(Some(number(88))));
}

#[test]
fn try_init_trie_builds_from_an_anchored_witness() {
    let witness = full_witness();
    let mut trie = try_init_trie::<SparseState>(&witness).unwrap();
    assert_eq!(trie.state_root(), get_state_root(&witness));
    assert!(trie.account([0xa1; 20]).unwrap().is_some());
}

#[test]
fn try_init_trie_refuses_a_witness_that_is_not_anchored() {
    // no header
    let mut witness = full_witness();
    witness.headers.clear();
    assert!(try_init_trie::<SparseState>(&witness).is_none());
    // a header that does not decode
    let mut witness = full_witness();
    witness.headers.push(vec![0xc0]);
    assert!(try_init_trie::<SparseState>(&witness).is_none());
    // a later header that declares a root of which the witness has no node
    let mut witness = full_witness();
    witness.headers.push(header_bytes(42, 0x66));
    assert!(try_init_trie::<SparseState>(&witness).is_none());
    // a blob that is no node
    let mut witness = full_witness();
    witness.state.push(vec![0x01, 0x02]);
    assert!(try_init_trie::<SparseState>(&witness).is_none());
}

#[test]
fn headers_decode_to_number_root_and_digest() {
    let first = header_bytes(7, 0x11);
    let second = header_bytes(u64::MAX, 0x22);
    let witness = witness_with_headers(vec![first.clone(), second.clone()]);
    let decoded: Vec<AncestorHeader> = decode_ancestor_headers(&witness).unwrap();
    assert_eq!(decoded.len(), 2);
    assert_eq!(decoded[0].number, 7);
    assert_eq!(decoded[0].state_root, [0x11; 32]);
    assert_eq!(decoded[0].hash, keccak256(&first).0);
    assert_eq!(decoded[1].number, u64::MAX);
    assert_eq!(decoded[1].state_root, [0x22; 32]);
    assert_eq!(decoded[1].hash, keccak256(&second).0);
    assert_ne!(decoded[0].hash, decoded[1].hash);
}

#[test]
fn a_header_that_does_not_decode_fails_them_all() {
    let witness = witness_with_headers(vec![header_bytes(7, 0x11), vec![0x01, 0x02, 0x03]]);
    assert!(decode_ancestor_headers(&witness).is_none());
    let mut trailing = header_bytes(7, 0x11);
    trailing.push(0x00);
    assert!(decode_ancestor_headers(&witness_with_headers(vec![trailing])).is_none());
    assert_eq!(decode_ancestor_headers(&witness_with_headers(vec![])).unwrap().len(), 0);
}

#[test]
fn state_root_is_that_of_the_greatest_block_number() {
    let witness = witness_with_headers(vec![
        header_bytes(10, 0x0a),
        header_bytes(12, 0x0c),
        header_bytes(11, 0x0b),
    ]);
    assert_eq!(get_state_root(&witness), [0x0c; 32]);
    assert_eq!(find_state_root(&witness), Some([0x0c; 32]));
    let single = witness_with_headers(vec![header_bytes(0, 0x01)]);
    assert_eq!(get_state_root(&single), [0x01; 32]);
}

#[test]
fn of_equal_block_numbers_the_last_gives_the_state_root() {
    let witness = witness_with_headers(vec![
        header_bytes(12, 0x01),
        header_bytes(3, 0x02),
        header_bytes(12, 0x03),
        header_bytes(5, 0x04),
    ]);
    assert_eq!(get_state_root(&witness), [0x03; 32]);
}

#[test]
fn no_state_root_without_headers_that_decode() {
    assert_eq!(find_state_root(&witness_with_headers(vec![])), None);
    assert_eq!(
        find_state_root(&witness_with_headers(vec![header_bytes(1, 1), vec![0x80]])),
        None
    );
}

#[test]
fn latest_state_root_of_decoded_headers() {
    let header = |number: u64, root: u8| AncestorHeader {
        number,
        state_root: [root; 32],
        hash: [0; 32],
    };
    assert_eq!(latest_state_root(&vec![header(1, 1)]), [1; 32]);
    assert_eq!(latest_state_root(&vec![header(1, 1), header(2, 2), header(0, 3)]), [2; 32]);
    assert_eq!(latest_state_root(&vec![header(5, 1), header(5, 2), header(5, 3)]), [3; 32]);
    assert_eq!(latest_state_root(&vec![header(9, 1), header(2, 2), header(0, 3)]), [1; 32]);
}

#[test]
fn slots_are_grouped_under_the_address_before_them() {
    let a = [0x0a; 20];
    let b = [0x0b; 20];
    let witness = witness_with_keys(vec![
        a.to_vec(),
        slot(1),
        slot(2),
        b.to_vec(),
        slot(0x0100),
    ]);
    let storage = build_storage_hash_map(&witness);
    assert_eq!(storage.len(), 2);
    assert_eq!(storage.get(&a), Some(&vec![number(1), number(2)]));
    assert_eq!(storage.get(&b), Some(&vec![number(0x0100)]));
    assert_eq!(storage.get(&[0x0c; 20]), None);
}

#[test]
fn an_address_without_slots_has_an_empty_list() {
    let a = [0x0a; 20];
    let b = [0x0b; 20];
    let witness = witness_with_keys(vec![a.to_vec(), b.to_vec(), slot(5)]);
    let storage = build_storage_hash_map(&witness);
    assert_eq!(storage.get(&a), Some(&vec![]));
    assert_eq!(storage.get(&b), Some(&vec![number(5)]));
}

#[test]
fn an_address_that_is_named_again_starts_over() {
    let a = [0x0a; 20];
    let b = [0x0b; 20];
    let witness = witness_with_keys(vec![
        a.to_vec(),
        slot(1),
        slot(2),
        b.to_vec(),
        slot(3),
        a.to_vec(),
        slot(4),
    ]);
    let storage = build_storage_hash_map(&witness);
    assert_eq!(storage.len(), 2);
    assert_eq!(storage.get(&a), Some(&vec![number(4)]));
    assert_eq!(storage.get(&b), Some(&vec![number(3)]));
    let again = witness_with_keys(vec![a.to_vec(), slot(1), a.to_vec()]);
    assert_eq!(build_storage_hash_map(&again).get(&a), Some(&vec![]));
}

#[test]
fn no_keys_give_an_empty_map() {
    let storage = build_storage_hash_map(&witness_with_keys(vec![]));
    assert_eq!(storage.len(), 0);
    assert_eq!(storage.get(&[0; 20]), None);
}

#[test]
fn slots_keep_all_of_their_32_bytes() {
    let a = [0x0a; 20];
    let key: Vec<u8> = (1..=32u8).collect();
    let witness = witness_with_keys(vec![a.to_vec(), key.clone()]);
    let storage = build_storage_hash_map(&witness);
    let slots = storage.get(&a).unwrap();
    assert_eq!(slots.len(), 1);
    assert_eq!(slots[0].to_be_bytes().to_vec(), key);
}
