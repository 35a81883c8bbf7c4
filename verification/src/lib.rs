//! A stateless verifier for an Ethereum-style world state.
//!
//! Given a block's declared state root and a witness made of serialized
//! Merkle-Patricia trie nodes, the library rebuilds as much of the trie as the
//! witness covers and answers account and storage queries against it.  Every
//! answer is anchored to the root through node digests; a key that the witness
//! does not cover is reported as missing, never as absent.
//!
//! The modules, from the bytes up:
//!
//! - [`bytes`], [`primitives`], [`hash`]: byte strings as numbers, digests,
//!   addresses and 256-bit numbers, and the Keccak-256 digest;
//! - [`rlp`], [`path`]: the item encoding and the compact encoding of paths;
//! - [`node`], [`account`], [`slot`]: trie nodes, account records and storage
//!   values, each with its serialization and its decoder;
//! - [`bytemap`], [`store`]: the nodes and the bytecode of a witness, kept
//!   under their digests;
//! - [`trie`]: descent from a root along a key;
//! - [`witness`], [`storage_map`]: the witness, the state root that its
//!   headers declare, and the slots that its keys name;
//! - [`sparse_state`], [`error`]: the verifier and its errors;
//! - [`laws`]: what holds of the queries across calls.
pub mod account;
pub mod bytemap;
pub mod bytes;
pub mod error;
pub mod hash;
pub mod laws;
pub mod node;
pub mod path;
pub mod primitives;
pub mod rlp;
pub mod slot;
pub mod sparse_state;
pub mod storage_map;
pub mod store;
pub mod trie;
pub mod witness;
