//! What holds of the queries across calls: answers do not depend on what was
//! asked before, asking twice changes nothing, and storage is answered only
//! for accounts that were asked for.
use vstd::prelude::*;
use crate::account::AccountView;
use crate::error::VerifierError;
use crate::node::NodeView;
use crate::sparse_state::{
    account_answer, account_key, after_account, storage_answer, storage_root_of, StateView,
};
use crate::store::bound_to_digests;
use crate::trie::{descend, lemma_descent_ends, lemma_more_nodes_same_answer};

verus! {

/// What the verifier knows after the queries for the accounts at the
/// addresses of `history`, one after the other.
pub open spec fn after_accounts(state: StateView, history: Seq<Seq<u8>>) -> StateView
    decreases history.len(),
{
    if history.len() == 0 {
        state
    } else {
        after_account(after_accounts(state, history.drop_last()), history.last())
    }
}

/// Account queries leave the trie alone: after any of them the nodes and the
/// root are what they were, and a well-formed state is still well formed.
pub proof fn lemma_queries_keep_trie(state: StateView, history: Seq<Seq<u8>>)
    ensures
        after_accounts(state, history).nodes == state.nodes,
        after_accounts(state, history).root == state.root,
        state.wf() ==> after_accounts(state, history).wf(),
    decreases history.len(),
{
    if history.len() > 0 {
        lemma_queries_keep_trie(state, history.drop_last());
        let before = after_accounts(state, history.drop_last());
        let after = after_account(before, history.last());
        if state.wf() {
            assert forall|a: Seq<u8>| #[trigger] after.loaded.dom().contains(a) implies (
            account_answer(after.nodes, after.root, a) matches Ok(account)
                && after.loaded[a] == storage_root_of(account)) by {
                if a != history.last() {
                    assert(before.loaded.dom().contains(a));
                }
            }
        }
    }
}

/// The answer to an account query is the same whatever accounts were asked
/// for before, and in whatever order.
pub proof fn lemma_account_answer_ignores_history(
    state: StateView,
    first: Seq<Seq<u8>>,
    second: Seq<Seq<u8>>,
    address: Seq<u8>,
)
    ensures
        account_answer(
            after_accounts(state, first).nodes,
            after_accounts(state, first).root,
            address,
        ) == account_answer(
            after_accounts(state, second).nodes,
            after_accounts(state, second).root,
            address,
        ),
        account_answer(
            after_accounts(state, first).nodes,
            after_accounts(state, first).root,
            address,
        ) == account_answer(state.nodes, state.root, address),
{
    lemma_queries_keep_trie(state, first);
    lemma_queries_keep_trie(state, second);
}

/// Asking for an account a second time gives the same answer and leaves the
/// verifier as it was after the first time.
pub proof fn lemma_account_query_idempotent(state: StateView, address: Seq<u8>)
    ensures
        account_answer(
            after_account(state, address).nodes,
            after_account(state, address).root,
            address,
        ) == account_answer(state.nodes, state.root, address),
        after_account(after_account(state, address), address) == after_account(state, address),
{
    let once = after_account(state, address);
    let twice = after_account(once, address);
    assert(twice.loaded =~= once.loaded);
}

/// A storage query changes nothing, so asking twice gives the same answer;
/// and the answer for one account does not depend on queries for other
/// accounts in between.
pub proof fn lemma_storage_answer_stable(
    state: StateView,
    others: Seq<Seq<u8>>,
    address: Seq<u8>,
    slot: nat,
)
    requires
        !others.contains(address),
    ensures
        storage_answer(after_accounts(state, others), address, slot) == storage_answer(
            state,
            address,
            slot,
        ),
    decreases others.len(),
{
    if others.len() > 0 {
        assert forall|a: Seq<u8>| others.drop_last().contains(a) implies others.contains(a) by {
            let i = choose|i: int| 0 <= i < others.drop_last().len() && others.drop_last()[i] == a;
            assert(others[i] == a);
        }
        lemma_storage_answer_stable(state, others.drop_last(), address, slot);
        lemma_queries_keep_trie(state, others.drop_last());
        assert(others.last() != address) by {
            assert(others[others.len() - 1] == others.last());
        }
    }
}

/// Storage of an account that has not been asked for is not answered: as
/// long as no query was made for the account at `address`, every storage
/// query for it fails with `AccountNotLoaded`.
pub proof fn lemma_storage_needs_account(
    state: StateView,
    history: Seq<Seq<u8>>,
    address: Seq<u8>,
    slot: nat,
)
    requires
        !state.loaded.dom().contains(address),
        !history.contains(address),
    ensures
        storage_answer(after_accounts(state, history), address, slot) == Err::<
            Option<nat>,
            VerifierError,
        >(VerifierError::AccountNotLoaded),
{
    lemma_storage_answer_stable(state, history, address, slot);
}

/// Once an account has been asked for and answered, storage queries for it
/// are no longer refused as not loaded.
pub proof fn lemma_storage_after_account(state: StateView, address: Seq<u8>, slot: nat)
    requires
        account_answer(state.nodes, state.root, address) is Ok,
    ensures
        storage_answer(after_account(state, address), address, slot) != Err::<
            Option<nat>,
            VerifierError,
        >(VerifierError::AccountNotLoaded),
{
    assert(after_account(state, address).loaded.dom().contains(address));
}

/// An address whose absence the witness proves has no account, and that is
/// the only way to that answer; an address for which the witness lacks a
/// node gets `MissingWitnessData`, and that is the only way to that error.
pub proof fn lemma_absent_and_missing_differ(
    nodes: Map<Seq<u8>, NodeView>,
    root: Seq<u8>,
    address: Seq<u8>,
)
    requires
        bound_to_digests(nodes),
    ensures
        account_answer(nodes, root, address) == Ok::<Option<AccountView>, VerifierError>(None)
            <==> descend(nodes, root, account_key(address)) is AbsentProven,
        account_answer(nodes, root, address) == Err::<Option<AccountView>, VerifierError>(
            VerifierError::MissingWitnessData,
        ) <==> descend(nodes, root, account_key(address)) is InsufficientWitness,
{
    lemma_descent_ends(nodes, root, account_key(address));
}

/// An account answer other than `MissingWitnessData` stays the same when
/// the witness holds more nodes.
pub proof fn lemma_account_answer_survives_more_nodes(
    fewer: Map<Seq<u8>, NodeView>,
    more: Map<Seq<u8>, NodeView>,
    root: Seq<u8>,
    address: Seq<u8>,
)
    requires
        fewer.submap_of(more),
        bound_to_digests(fewer),
        account_answer(fewer, root, address) != Err::<Option<AccountView>, VerifierError>(
            VerifierError::MissingWitnessData,
        ),
    ensures
        account_answer(more, root, address) == account_answer(fewer, root, address),
{
    lemma_descent_ends(fewer, root, account_key(address));
    lemma_more_nodes_same_answer(fewer, more, root, account_key(address));
}

} // verus!
