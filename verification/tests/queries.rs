use alloy_primitives::{keccak256, B256, U256 as Word};
use alloy_trie::proof::ProofRetainer;
use alloy_trie::{HashBuilder, Nibbles, TrieAccount, EMPTY_ROOT_HASH, KECCAK_EMPTY};
use stateless_trie::error::{ConstructionError, VerifierError};
use stateless_trie::primitives::U256;
use stateless_trie::sparse_state::{SparseState, StatelessTrie};
use stateless_trie::witness::ExecutionWitness;

/// A trie over the given keys and values, with the nodes on the way to each
/// target.
fn trie_with_proofs(entries: &[(B256, Vec<u8>)], targets: &[B256]) -> (B256, Vec<Vec<u8>>) {
    let mut sorted: Vec<(B256, Vec<u8>)> = entries.to_vec();
    sorted.sort_by(|a, b| a.0.cmp(&b.0));
    let retainer = ProofRetainer::new(targets.iter().map(|t| Nibbles::unpack(t)).collect());
    let mut builder = HashBuilder::default().with_proof_retainer(retainer);
    for (key, value) in sorted.iter() {
        builder.add_leaf(Nibbles::unpack(key), value);
    }
    let root = builder.root();
    let nodes = builder
        .take_proof_nodes()
        .into_nodes_sorted()
        .into_iter()
        .map(|(_, node)| node.to_vec())
        .collect();
    (root, nodes)
}

fn account_bytes(nonce: u64, balance: u64, storage_root: B256) -> Vec<u8> {
    alloy_rlp::encode(TrieAccount::new(nonce, Word::from(balance), storage_root, KECCAK_EMPTY))
}

fn number(n: u64) -> U256 {
    U256::from_be_slice(&n.to_be_bytes())
}

fn slot_key(slot: u64) -> B256 {
    keccak256(Word::from(slot).to_be_bytes::<32>())
}

fn slot_value(value: u64) -> Vec<u8> {
    alloy_rlp::encode(Word::from(value))
}

fn witness_of(nodes: Vec<Vec<u8>>) -> ExecutionWitness {
    ExecutionWitness { state: nodes, codes: vec![], keys: vec![], headers: vec![] }
}

const AAA: [u8; 20] = [0xaa; 20];
const BBB: [u8; 20] = [0xbb; 20];
const CCC: [u8; 20] = [0xcc; 20];

fn two_accounts() -> Vec<(B256, Vec<u8>)> {
    vec![
        (keccak256(AAA), account_bytes(1, 5, EMPTY_ROOT_HASH)),
        (keccak256(BBB), account_bytes(2, 7, EMPTY_ROOT_HASH)),
    ]
}

fn two_account_witness(targets: &[[u8; 20]]) -> (ExecutionWitness, [u8; 32]) {
    let targets: Vec<B256> = targets.iter().map(|a| keccak256(a)).collect();
    let (root, nodes) = trie_with_proofs(&two_accounts(), &targets);
    (witness_of(nodes), root.0)
}

/// The account at `AAA` has storage with the slots 1, 2 and 3; the witness
/// holds the way to the slots in `slots`.
fn storage_witness(slots: &[u64]) -> (ExecutionWitness, [u8; 32]) {
    let storage = vec![
        (slot_key(1), slot_value(0x2a)),
        (slot_key(2), slot_value(0x0100)),
        (slot_key(3), slot_value(u64::MAX)),
    ];
    let targets: Vec<B256> = slots.iter().map(|s| slot_key(*s)).collect();
    let (storage_root, storage_nodes) = trie_with_proofs(&storage, &targets);
    let accounts = vec![
        (keccak256(AAA), account_bytes(1, 5, storage_root)),
        (keccak256(BBB), account_bytes(2, 7, EMPTY_ROOT_HASH)),
    ];
    let (root, mut nodes) =
        trie_with_proofs(&accounts, &[keccak256(AAA), keccak256(BBB), keccak256(CCC)]);
    nodes.extend(storage_nodes);
    (witness_of(nodes), root.0)
}

#[test]
fn accounts_present_and_absent_in_a_two_leaf_trie() {
    let (witness, root) = two_account_witness(&[AAA, BBB, CCC]);
    let (mut trie, _codes) = SparseState::new(&witness, root).unwrap();
    let a = trie.account(AAA).unwrap().unwrap();
    assert_eq!(a.balance, number(5));
    assert_eq!(a.nonce, 1);
    assert_eq!(a.storage_root, EMPTY_ROOT_HASH.0);
    assert_eq!(a.code_hash, KECCAK_EMPTY.0);
    let b = trie.account(BBB).unwrap().unwrap();
    assert_eq!(b.balance, number(7));
    assert_eq!(trie.account(CCC), Ok(None));
}

#[test]
fn construction_succeeds_with_the_root_node() {
    let (witness, root) = two_account_witness(&[AAA]);
    let (trie, _codes) = SparseState::new(&witness, root).unwrap();
    assert_eq!(trie.state_root(), root);
}

#[test]
fn construction_fails_without_the_root_node() {
    let (witness, root) = two_account_witness(&[AAA]);
    let other = [0x11u8; 32];
    assert!(matches!(
        SparseState::new(&witness, other),
        Err(ConstructionError::RootNotInWitness)
    ));
    // the digest of a node below the root is a root of its own, the digest of
    // no node is not
    let mut leaves_only = witness.clone();
    leaves_only.state.retain(|blob| keccak256(blob).0 != root);
    assert!(matches!(
        SparseState::new(&leaves_only, root),
        Err(ConstructionError::RootNotInWitness)
    ));
    assert!(matches!(
        SparseState::new(&witness_of(vec![]), EMPTY_ROOT_HASH.0),
        Err(ConstructionError::RootNotInWitness)
    ));
}

#[test]
fn construction_fails_on_a_malformed_node() {
    let (mut witness, root) = two_account_witness(&[AAA]);
    witness.state.push(vec![0xc3, 1, 2, 3]);
    assert!(matches!(SparseState::new(&witness, root), Err(ConstructionError::MalformedNode)));
    // a malformed node is reported before a missing root
    assert!(matches!(
        SparseState::new(&witness, [0x11u8; 32]),
        Err(ConstructionError::MalformedNode)
    ));
}

#[test]
fn construction_hands_out_the_code_of_the_witness() {
    let (mut witness, root) = two_account_witness(&[AAA]);
    let code = vec![0x60, 0x01, 0x60, 0x02, 0x01];
    witness.codes = vec![code.clone()];
    let (_trie, codes) = SparseState::new(&witness, root).unwrap();
    assert_eq!(codes.get(&keccak256(&code).0), Some(&code));
    assert_eq!(codes.get(&KECCAK_EMPTY.0), None);
}

#[test]
fn an_account_is_the_same_whatever_was_asked_before() {
    let (witness, root) = two_account_witness(&[AAA, BBB, CCC]);
    let (mut first, _codes) = SparseState::new(&witness, root).unwrap();
    let (mut second, _codes) = SparseState::new(&witness, root).unwrap();
    let alone = first.account(AAA);
    assert_eq!(second.account(CCC), Ok(None));
    assert!(second.account(BBB).is_ok());
    assert_eq!(second.storage(BBB, number(1)), Err(VerifierError::MissingWitnessData));
    assert_eq!(second.account(AAA), alone);
    assert_eq!(alone.unwrap().unwrap().balance, number(5));
}

#[test]
fn an_address_whose_absence_is_covered_has_no_account() {
    let (witness, root) = two_account_witness(&[CCC]);
    let (mut trie, _codes) = SparseState::new(&witness, root).unwrap();
    assert_eq!(trie.account(CCC), Ok(None));
}

#[test]
fn an_address_behind_an_omitted_node_is_not_answered() {
    // the witness holds the way to AAA only: the leaf of BBB is left out
    let (witness, root) = two_account_witness(&[AAA]);
    let (mut trie, _codes) = SparseState::new(&witness, root).unwrap();
    assert!(trie.account(AAA).unwrap().is_some());
    assert_eq!(trie.account(BBB), Err(VerifierError::MissingWitnessData));
    assert_ne!(trie.account(BBB), Ok(None));
}

#[test]
fn storage_before_account_is_refused() {
    let (witness, root) = storage_witness(&[1]);
    let (mut trie, _codes) = SparseState::new(&witness, root).unwrap();
    assert_eq!(trie.storage(AAA, number(1)), Err(VerifierError::AccountNotLoaded));
    assert_eq!(trie.storage(CCC, number(1)), Err(VerifierError::AccountNotLoaded));
    // asking for another account does not load this one
    assert!(trie.account(BBB).is_ok());
    assert_eq!(trie.storage(AAA, number(1)), Err(VerifierError::AccountNotLoaded));
    assert!(trie.account(AAA).is_ok());
    assert_eq!(trie.storage(AAA, number(1)), Ok(Some(number(0x2a))));
}

#[test]
fn an_account_that_was_not_answered_is_not_loaded() {
    let (witness, root) = two_account_witness(&[AAA]);
    let (mut trie, _codes) = SparseState::new(&witness, root).unwrap();
    assert_eq!(trie.account(BBB), Err(VerifierError::MissingWitnessData));
    assert_eq!(trie.storage(BBB, number(0)), Err(VerifierError::AccountNotLoaded));
}

#[test]
fn queries_give_the_same_answer_twice() {
    let (witness, root) = storage_witness(&[1, 7]);
    let (mut trie, _codes) = SparseState::new(&witness, root).unwrap();
    let first = trie.account(AAA);
    assert_eq!(trie.account(AAA), first);
    assert_eq!(trie.account(CCC), Ok(None));
    assert_eq!(trie.account(CCC), Ok(None));
    let slot = trie.storage(AAA, number(1));
    assert_eq!(slot, Ok(Some(number(0x2a))));
    assert_eq!(trie.storage(AAA, number(1)), slot);
    assert_eq!(trie.storage(AAA, number(7)), Ok(Some(number(0))));
    assert_eq!(trie.storage(AAA, number(7)), Ok(Some(number(0))));
    assert_eq!(trie.storage(BBB, number(1)), Err(VerifierError::AccountNotLoaded));
    assert_eq!(trie.storage(BBB, number(1)), Err(VerifierError::AccountNotLoaded));
    assert_eq!(trie.account(AAA), first);
}

#[test]
fn storage_of_an_account_without_storage_reads_zero() {
    // the node of the empty trie is in the witness
    let (mut witness, root) = two_account_witness(&[AAA]);
    witness.state.push(vec![0x80]);
    let (mut trie, _codes) = SparseState::new(&witness, root).unwrap();
    assert!(trie.account(AAA).unwrap().is_some());
    assert_eq!(trie.storage(AAA, number(0)), Ok(Some(number(0))));
    assert_eq!(trie.storage(AAA, number(12345)), Ok(Some(U256::zero())));
}

#[test]
fn storage_behind_a_root_that_is_not_there_is_not_answered() {
    let (witness, root) = two_account_witness(&[AAA]);
    let (mut trie, _codes) = SparseState::new(&witness, root).unwrap();
    assert!(trie.account(AAA).unwrap().is_some());
    assert_eq!(trie.storage(AAA, number(0)), Err(VerifierError::MissingWitnessData));
}

#[test]
fn storage_slots_are_read_from_the_storage_trie() {
    let (witness, root) = storage_witness(&[1, 2, 3, 4]);
    let (mut trie, _codes) = SparseState::new(&witness, root).unwrap();
    assert!(trie.account(AAA).unwrap().is_some());
    assert_eq!(trie.storage(AAA, number(1)), Ok(Some(number(0x2a))));
    assert_eq!(trie.storage(AAA, number(2)), Ok(Some(number(0x0100))));
    assert_eq!(trie.storage(AAA, number(3)), Ok(Some(number(u64::MAX))));
    // slot 4 is not set, and the witness proves it
    assert_eq!(trie.storage(AAA, number(4)), Ok(Some(number(0))));
}

#[test]
fn storage_behind_an_omitted_node_is_not_answered() {
    let (witness, root) = storage_witness(&[1]);
    let (mut trie, _codes) = SparseState::new(&witness, root).unwrap();
    assert!(trie.account(AAA).unwrap().is_some());
    assert_eq!(trie.storage(AAA, number(1)), Ok(Some(number(0x2a))));
    let left_out: Vec<u64> = [2u64, 3]
        .into_iter()
        .filter(|s| trie.storage(AAA, number(*s)) == Err(VerifierError::MissingWitnessData))
        .collect();
    // the slots 2 and 3 are set, so neither reads as zero; at least one of
    // them lies behind a node that the witness for slot 1 does not hold
    assert!(!left_out.is_empty());
    for s in [2u64, 3] {
        assert_ne!(trie.storage(AAA, number(s)), Ok(Some(number(0))));
    }
}

#[test]
fn storage_of_an_account_that_is_proven_absent_has_no_value() {
    let (witness, root) = two_account_witness(&[CCC]);
    let (mut trie, _codes) = SparseState::new(&witness, root).unwrap();
    assert_eq!(trie.account(CCC), Ok(None));
    assert_eq!(trie.storage(CCC, number(0)), Ok(None));
}

#[test]
fn a_leaf_that_holds_no_account_is_reported() {
    let accounts = vec![
        (keccak256(AAA), vec![0xc3, 0x01, 0x02, 0x03]),
        (keccak256(BBB), account_bytes(2, 7, EMPTY_ROOT_HASH)),
    ];
    let (root, nodes) = trie_with_proofs(&accounts, &[keccak256(AAA), keccak256(BBB)]);
    let (mut trie, _codes) = SparseState::new(&witness_of(nodes), root.0).unwrap();
    assert_eq!(trie.account(AAA), Err(VerifierError::AccountDecodeError));
    assert_eq!(trie.storage(AAA, number(0)), Err(VerifierError::AccountNotLoaded));
    assert!(trie.account(BBB).unwrap().is_some());
}

#[test]
fn a_leaf_that_holds_no_storage_value_is_reported() {
    let storage = vec![(slot_key(1), vec![0x82, 0x00, 0x01]), (slot_key(2), slot_value(9))];
    let (storage_root, storage_nodes) = trie_with_proofs(&storage, &[slot_key(1), slot_key(2)]);
    let accounts = vec![(keccak256(AAA), account_bytes(1, 5, storage_root))];
    let (root, mut nodes) = trie_with_proofs(&accounts, &[keccak256(AAA)]);
    nodes.extend(storage_nodes);
    let (mut trie, _codes) = SparseState::new(&witness_of(nodes), root.0).unwrap();
    assert!(trie.account(AAA).unwrap().is_some());
    assert_eq!(trie.storage(AAA, number(1)), Err(VerifierError::SlotDecodeError));
    assert_eq!(trie.storage(AAA, number(2)), Ok(Some(number(9))));
}

#[test]
fn many_accounts_are_all_found() {
    let addresses: Vec<[u8; 20]> = (0..200u32)
        .map(|i| {
            let mut a = [0u8; 20];
            a[..4].copy_from_slice(&i.to_be_bytes());
            a
        })
        .collect();
    let entries: Vec<(B256, Vec<u8>)> = addresses
        .iter()
        .enumerate()
        .map(|(i, a)| (keccak256(a), account_bytes(i as u64, 1000 + i as u64, EMPTY_ROOT_HASH)))
        .collect();
    let targets: Vec<B256> = addresses.iter().map(|a| keccak256(a)).collect();
    let (root, nodes) = trie_with_proofs(&entries, &targets);
    let (mut trie, _codes) = SparseState::new(&witness_of(nodes), root.0).unwrap();
    for (i, a) in addresses.iter().enumerate() {
        let account = trie.account(*a).unwrap().unwrap();
        assert_eq!(account.nonce, i as u64);
        assert_eq!(account.balance, number(1000 + i as u64));
    }
    let mut stranger = [0xffu8; 20];
    stranger[0] = 0x01;
    assert_eq!(trie.account(stranger), Ok(None));
}
