//! The errors of construction and of queries.
use vstd::prelude::*;

verus! {

/// Why a verifier could not be built from a witness.
#[derive(Clone, Copy, Debug, PartialEq, Eq)]
pub enum ConstructionError {
    /// A blob of the witness is not the serialization of a trie node.
    MalformedNode,
    /// No blob of the witness has the expected root as its digest.
    RootNotInWitness,
    /// Two different blobs of the witness have the same digest.
    DigestCollision,
}

/// Why a query could not be answered.
#[derive(Clone, Copy, Debug, PartialEq, Eq)]
pub enum VerifierError {
    /// The path of the key leads to a node that the witness does not hold.
    MissingWitnessData,
    /// The leaf of the account holds bytes that are no account record.
    AccountDecodeError,
    /// Storage was asked of an account that has not been asked for before.
    AccountNotLoaded,
    /// The leaf of the slot holds bytes that are no storage value.
    SlotDecodeError,
}

} // verus!
