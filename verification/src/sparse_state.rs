//! The verifier: built once from a witness and an expected state root, then
//! asked for accounts and storage slots.
use vstd::prelude::*;
use vstd::slice::slice_to_vec;
use crate::account::{account_of, decode_account, AccountRecord, AccountView};
use crate::bytemap::ByteMap;
use crate::bytes::{be_fixed, byte_strings};
use crate::error::{ConstructionError, VerifierError};
use crate::hash::{keccak256, keccak256_digest};
use crate::node::{child_view, NodeView};
use crate::path::{to_nibbles, unpack};
use crate::primitives::{Address, Digest, U256};
use crate::slot::{decode_slot_value, slot_value_of};
use crate::store::{
    blobs_decode, bound_to_digests, digests_collide, has_digest, holds_codes_of, holds_nodes_of,
    CodeStore, NodeStore,
};
use crate::trie::{descend, lookup, Descent, Lookup};
use crate::witness::{
    declared_state_root, find_state_root, get_state_root, headers_decode, ExecutionWitness,
};

verus! {

/// What a verifier knows: the nodes of the witness under their digests, the
/// root of the state trie, and for each account that has been asked for the
/// root of its storage trie, or nothing if the account is proven absent.
pub struct StateView {
    pub nodes: Map<Seq<u8>, NodeView>,
    pub root: Seq<u8>,
    pub loaded: Map<Seq<u8>, Option<Seq<u8>>>,
}

/// The answer to an account query.
pub type AccountAnswer = Result<Option<AccountView>, VerifierError>;

/// The answer to a storage query.
pub type StorageAnswer = Result<Option<nat>, VerifierError>;

/// The path of an account in the state trie: the nibbles of the digest of its
/// address.
pub open spec fn account_key(address: Seq<u8>) -> Seq<u8> {
    unpack(keccak256_digest(address))
}

/// The path of a storage slot in a storage trie: the nibbles of the digest of
/// the slot's number, written in 32 big-endian bytes.
pub open spec fn slot_key(slot: nat) -> Seq<u8> {
    unpack(keccak256_digest(be_fixed(slot, 32)))
}

/// The answer to the query for the account at `address`, over a state trie
/// with the given nodes and root.
///
/// The record in the leaf, where the descent finds one and it decodes;
/// `AccountDecodeError` where it does not decode; no account where the
/// descent proves the address absent; and `MissingWitnessData` where the
/// descent needs a node that is not there.
pub open spec fn account_answer(
    nodes: Map<Seq<u8>, NodeView>,
    root: Seq<u8>,
    address: Seq<u8>,
) -> AccountAnswer {
    match descend(nodes, root, account_key(address)) {
        Descent::Found { value } => match account_of(value) {
            Some(account) => Ok(Some(account)),
            None => Err(VerifierError::AccountDecodeError),
        },
        Descent::AbsentProven => Ok(None),
        _ => Err(VerifierError::MissingWitnessData),
    }
}

/// What is kept of an account once it has been asked for: the root of its
/// storage trie, or nothing for an account that is proven absent.
pub open spec fn storage_root_of(account: Option<AccountView>) -> Option<Seq<u8>> {
    match account {
        Some(a) => Some(a.storage_root),
        None => None,
    }
}

/// What the verifier knows after the query for the account at `address`: an
/// answer is remembered, an error changes nothing.
pub open spec fn after_account(state: StateView, address: Seq<u8>) -> StateView {
    match account_answer(state.nodes, state.root, address) {
        Ok(account) => StateView {
            loaded: state.loaded.insert(address, storage_root_of(account)),
            ..state
        },
        Err(_) => state,
    }
}

/// The answer to the query for storage slot `slot` of the account at
/// `address`.
///
/// `AccountNotLoaded` where the account has not been asked for; no value
/// where the account is proven absent; and otherwise by descent through the
/// account's storage trie: the value in the leaf, where one is found and it
/// decodes; `SlotDecodeError` where it does not decode; zero where the slot
/// is proven absent; and `MissingWitnessData` where the descent needs a node
/// that is not there.
pub open spec fn storage_answer(state: StateView, address: Seq<u8>, slot: nat) -> StorageAnswer {
    if !state.loaded.dom().contains(address) {
        Err(VerifierError::AccountNotLoaded)
    } else {
        match state.loaded[address] {
            None => Ok(None),
            Some(storage_root) => match descend(state.nodes, storage_root, slot_key(slot)) {
                Descent::Found { value } => match slot_value_of(value) {
                    Some(v) => Ok(Some(v)),
                    None => Err(VerifierError::SlotDecodeError),
                },
                Descent::AbsentProven => Ok(Some(0)),
                _ => Err(VerifierError::MissingWitnessData),
            },
        }
    }
}

impl StateView {
    /// Whether the state is well formed: every node is kept under the digest
    /// of its serialization, and what is remembered of each account is what
    /// the query for it answers.
    pub open spec fn wf(self) -> bool {
        &&& bound_to_digests(self.nodes)
        &&& forall|a: Seq<u8>| #[trigger]
            self.loaded.dom().contains(a) ==> (account_answer(self.nodes, self.root, a) matches Ok(
                account,
            ) && self.loaded[a] == storage_root_of(account))
    }
}

/// Whether a verifier can be built from the witness: every blob of its state
/// is a trie node, and no two different blobs of its state, nor of its
/// bytecode, have the same digest.
pub open spec fn witness_valid(witness: &ExecutionWitness) -> bool {
    &&& blobs_decode(byte_strings(witness.state@))
    &&& !digests_collide(byte_strings(witness.state@))
    &&& !digests_collide(byte_strings(witness.codes@))
}

/// The views of the records of an account answer.
pub open spec fn account_answer_view(
    answer: Result<Option<AccountRecord>, VerifierError>,
) -> AccountAnswer {
    match answer {
        Ok(Some(record)) => Ok(Some(record@)),
        Ok(None) => Ok(None),
        Err(e) => Err(e),
    }
}

/// The views of the values of a storage answer.
pub open spec fn storage_answer_view(
    answer: Result<Option<U256>, VerifierError>,
) -> StorageAnswer {
    match answer {
        Ok(Some(value)) => Ok(Some(value@)),
        Ok(None) => Ok(None),
        Err(e) => Err(e),
    }
}

/// What a verifier of state reads offers: construction from a witness and an
/// expected state root, and the two queries.  Every implementation answers as
/// [`account_answer`] and [`storage_answer`] say.
pub trait StatelessTrie: Sized {
    /// What the verifier knows.
    spec fn state(&self) -> StateView;

    /// The invariant of the verifier.
    spec fn valid(&self) -> bool;

    /// What a valid verifier knows is well formed.
    proof fn lemma_state_wf(&self)
        requires
            self.valid(),
        ensures
            self.state().wf(),
    ;

    /// Builds the verifier of the state with root `expected_root` from the
    /// nodes of the witness, and the store of the witness's bytecode.
    ///
    /// Construction succeeds exactly when the witness is valid and one of its
    /// nodes has the expected root as its digest.  It fails with
    /// `MalformedNode` where a blob of the state is no trie node; else with
    /// `DigestCollision` where two different blobs have the same digest; else
    /// with `RootNotInWitness` where no node has the expected root as its
    /// digest.
    fn new(witness: &ExecutionWitness, expected_root: Digest) -> (built: Result<
        (Self, CodeStore),
        ConstructionError,
    >)
        ensures
            built is Ok <==> witness_valid(witness) && has_digest(
                byte_strings(witness.state@),
                expected_root@,
            ),
            built matches Ok(pair) ==> {
                &&& pair.0.valid()
                &&& pair.0.state().root == expected_root@
                &&& pair.0.state().loaded == Map::<Seq<u8>, Option<Seq<u8>>>::empty()
                &&& holds_nodes_of(pair.0.state().nodes, byte_strings(witness.state@))
                &&& pair.1.wf()
                &&& holds_codes_of(pair.1@, byte_strings(witness.codes@))
            },
            built matches Err(e) ==> (e == ConstructionError::MalformedNode <==> !blobs_decode(
                byte_strings(witness.state@),
            )),
            built matches Err(e) ==> (e == ConstructionError::DigestCollision <==> blobs_decode(
                byte_strings(witness.state@),
            ) && (digests_collide(byte_strings(witness.state@)) || digests_collide(
                byte_strings(witness.codes@),
            ))),
            built matches Err(e) ==> (e == ConstructionError::RootNotInWitness <==> witness_valid(
                witness,
            ) && !has_digest(byte_strings(witness.state@), expected_root@)),
    ;

    /// The account at `address`.
    ///
    /// The answer is the account's record; `None` where the witness proves
    /// that the address has no account; `MissingWitnessData` where the
    /// witness lacks a node on the way to the account; and
    /// `AccountDecodeError` where the leaf holds no account record.  An
    /// answer is remembered, so that storage of the account can be asked for
    /// afterwards; nothing else of the verifier changes.
    fn account(&mut self, address: Address) -> (answer: Result<Option<AccountRecord>, VerifierError>)
        requires
            old(self).valid(),
        ensures
            final(self).valid(),
            account_answer_view(answer) == account_answer(
                old(self).state().nodes,
                old(self).state().root,
                address@,
            ),
            final(self).state() == after_account(old(self).state(), address@),
            answer == Ok::<Option<AccountRecord>, VerifierError>(None) <==> descend(
                old(self).state().nodes,
                old(self).state().root,
                account_key(address@),
            ) is AbsentProven,
            answer == Err::<Option<AccountRecord>, VerifierError>(
                VerifierError::MissingWitnessData,
            ) <==> descend(old(self).state().nodes, old(self).state().root, account_key(address@))
                is InsufficientWitness,
    ;

    /// Storage slot `slot` of the account at `address`.
    ///
    /// The account must have been asked for before: otherwise the answer is
    /// `AccountNotLoaded`.  For an account that is proven absent the answer
    /// is `None`.  Otherwise it is the value of the slot, zero where the
    /// witness proves that the slot is not set; `MissingWitnessData` where
    /// the witness lacks a node on the way to the slot, the root of the
    /// account's storage trie included; and `SlotDecodeError` where the leaf
    /// holds no storage value.
    fn storage(&self, address: Address, slot: U256) -> (answer: Result<Option<U256>, VerifierError>)
        requires
            self.valid(),
        ensures
            storage_answer_view(answer) == storage_answer(self.state(), address@, slot@),
            answer == Err::<Option<U256>, VerifierError>(VerifierError::AccountNotLoaded)
                <==> !self.state().loaded.dom().contains(address@),
    ;
}

/// A verifier of state reads against one state root.
pub struct SparseState {
    nodes: NodeStore,
    state_root: Digest,
    loaded: ByteMap<Option<Digest>>,
}

impl View for SparseState {
    type V = StateView;

    closed spec fn view(&self) -> StateView {
        StateView {
            nodes: self.nodes@,
            root: self.state_root@,
            loaded: Map::new(
                |a: Seq<u8>| self.loaded@.dom().contains(a),
                |a: Seq<u8>| child_view(self.loaded@[a]),
            ),
        }
    }
}

impl SparseState {
    /// The invariant of the verifier.
    pub closed spec fn wf(&self) -> bool {
        &&& self.nodes.wf()
        &&& self.loaded.wf()
        &&& self@.wf()
    }

    /// What a well-formed verifier knows is well formed.
    pub proof fn lemma_view_wf(&self)
        requires
            self.wf(),
        ensures
            self@.wf(),
    {
    }

    /// The root of the state trie.
    pub fn state_root(&self) -> (root: Digest)
        ensures
            root@ == self@.root,
    {
        self.state_root
    }
}

impl StatelessTrie for SparseState {
    open spec fn state(&self) -> StateView {
        self@
    }

    open spec fn valid(&self) -> bool {
        self.wf()
    }

    proof fn lemma_state_wf(&self) {
        self.lemma_view_wf();
    }

    fn new(witness: &ExecutionWitness, expected_root: Digest) -> (built: Result<
        (SparseState, CodeStore),
        ConstructionError,
    >) {
        let nodes = match NodeStore::build(&witness.state) {
            Ok(nodes) => nodes,
            Err(e) => {
                return Err(e);
            },
        };
        let codes = match CodeStore::build(&witness.codes) {
            Ok(codes) => codes,
            Err(e) => {
                return Err(e);
            },
        };
        if nodes.resolve(&expected_root).is_none() {
            return Err(ConstructionError::RootNotInWitness);
        }
        let state = SparseState { nodes, state_root: expected_root, loaded: ByteMap::new() };
        proof {
            state.nodes.lemma_bound_to_digests();
            assert(state@.loaded =~= Map::<Seq<u8>, Option<Seq<u8>>>::empty());
        }
        Ok((state, codes))
    }

    fn account(&mut self, address: Address) -> (answer: Result<
        Option<AccountRecord>,
        VerifierError,
    >) {
        let ghost before = self@;
        proof {
            self.nodes.lemma_bound_to_digests();
            crate::trie::lemma_descent_ends(before.nodes, before.root, account_key(address@));
        }
        let digest = keccak256(address.as_slice());
        let key = to_nibbles(digest.as_slice());
        let answer = match lookup(&self.nodes, &self.state_root, key.as_slice()) {
            Lookup::Found(value) => match decode_account(value.as_slice()) {
                Some(record) => Ok(Some(record)),
                None => Err(VerifierError::AccountDecodeError),
            },
            Lookup::AbsentProven => Ok(None),
            Lookup::InsufficientWitness => Err(VerifierError::MissingWitnessData),
        };
        match answer {
            Ok(account) => {
                let kept: Option<Digest> = match account {
                    Some(record) => Some(record.storage_root),
                    None => None,
                };
                self.loaded.insert(slice_to_vec(address.as_slice()), kept);
                proof {
                    assert(child_view(kept) == storage_root_of(account_answer_view(answer)->Ok_0));
                    assert(self@.loaded =~= before.loaded.insert(address@, child_view(kept)));
                    assert(self@ == after_account(before, address@));
                    assert forall|a: Seq<u8>| #[trigger]
                        self@.loaded.dom().contains(a) implies (account_answer(
                        self@.nodes,
                        self@.root,
                        a,
                    ) matches Ok(account) && self@.loaded[a] == storage_root_of(account)) by {
                        if a != address@ {
                            assert(before.loaded.dom().contains(a));
                        }
                    }
                }
            },
            Err(_) => {},
        }
        answer
    }

    fn storage(&self, address: Address, slot: U256) -> (answer: Result<
        Option<U256>,
        VerifierError,
    >) {
        proof {
            self.nodes.lemma_bound_to_digests();
        }
        let storage_root = match self.loaded.get(address.as_slice()) {
            None => {
                return Err(VerifierError::AccountNotLoaded);
            },
            Some(None) => {
                return Ok(None);
            },
            Some(Some(root)) => root,
        };
        let bytes = slot.to_be_bytes();
        let digest = keccak256(bytes.as_slice());
        let key = to_nibbles(digest.as_slice());
        proof {
            crate::trie::lemma_descent_ends(self@.nodes, storage_root@, slot_key(slot@));
        }
        match lookup(&self.nodes, storage_root, key.as_slice()) {
            Lookup::Found(value) => match decode_slot_value(value.as_slice()) {
                Some(v) => Ok(Some(v)),
                None => Err(VerifierError::SlotDecodeError),
            },
            Lookup::AbsentProven => Ok(Some(U256::zero())),
            Lookup::InsufficientWitness => Err(VerifierError::MissingWitnessData),
        }
    }
}

/// Whether a verifier can be built from the witness against the state root
/// that its own headers declare: it has a header, its headers decode, it is
/// valid, and one of its nodes has the declared state root as its digest.
pub open spec fn witness_anchored(witness: &ExecutionWitness) -> bool {
    &&& witness.headers@.len() > 0
    &&& headers_decode(byte_strings(witness.headers@))
    &&& witness_valid(witness)
    &&& has_digest(
        byte_strings(witness.state@),
        declared_state_root(byte_strings(witness.headers@)),
    )
}

/// Whether `trie` is a verifier fresh from the witness: rooted at the state
/// root that the headers declare, over the nodes of the witness, with no
/// account asked for yet.
pub open spec fn fresh_from<T: StatelessTrie>(trie: &T, witness: &ExecutionWitness) -> bool {
    &&& trie.valid()
    &&& trie.state().root == declared_state_root(byte_strings(witness.headers@))
    &&& trie.state().loaded == Map::<Seq<u8>, Option<Seq<u8>>>::empty()
    &&& holds_nodes_of(trie.state().nodes, byte_strings(witness.state@))
}

/// The verifier of the state whose root the headers of the witness declare.
///
/// The witness must be anchored: see [`witness_anchored`].  For a witness of
/// which that is not known, there is [`try_init_trie`].
pub fn init_trie<T: StatelessTrie>(witness: &ExecutionWitness) -> (trie: T)
    requires
        witness_anchored(witness),
    ensures
        fresh_from(&trie, witness),
{
    let state_root = get_state_root(witness);
    let built = T::new(witness, state_root);
    built.unwrap().0
}

/// The verifier of the state whose root the headers of the witness declare,
/// or `None` where the witness is not anchored.
pub fn try_init_trie<T: StatelessTrie>(witness: &ExecutionWitness) -> (trie: Option<T>)
    ensures
        trie is Some <==> witness_anchored(witness),
        trie matches Some(t) ==> fresh_from(&t, witness),
{
    let state_root = match find_state_root(witness) {
        Some(root) => root,
        None => {
            return None;
        },
    };
    match T::new(witness, state_root) {
        Ok(_) => Some(init_trie(witness)),
        Err(_) => None,
    }
}

} // verus!
