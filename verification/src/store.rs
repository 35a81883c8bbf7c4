//! The nodes and the bytecode of a witness, each kept under its digest.
use vstd::prelude::*;
use vstd::slice::slice_to_vec;
use crate::bytemap::ByteMap;
use crate::bytes::{byte_strings, slice_eq};
use crate::error::ConstructionError;
use crate::hash::{keccak256, keccak256_digest};
use crate::node::{
    decode, encode_node, lemma_decoding_injective, node_eq, node_of, NodeView, TrieNode,
};
use crate::primitives::Digest;

verus! {

/// Whether every blob is the serialization of a trie node.
pub open spec fn blobs_decode(blobs: Seq<Seq<u8>>) -> bool {
    forall|i: int| 0 <= i < blobs.len() ==> (#[trigger] node_of(blobs[i])) is Some
}

/// Whether two different blobs have the same digest.
pub open spec fn digests_collide(blobs: Seq<Seq<u8>>) -> bool {
    exists|i: int, j: int|
        0 <= i < j < blobs.len() && #[trigger] keccak256_digest(blobs[i]) == #[trigger] keccak256_digest(
            blobs[j],
        ) && blobs[i] != blobs[j]
}

/// Whether some blob has `digest` as its digest.
pub open spec fn has_digest(blobs: Seq<Seq<u8>>, digest: Seq<u8>) -> bool {
    exists|i: int| 0 <= i < blobs.len() && #[trigger] keccak256_digest(blobs[i]) == digest
}

/// Whether `map` holds, under the digest of each blob, what `value` makes of
/// the blob, and nothing else.
pub open spec fn holds_under_digests<T>(
    map: Map<Seq<u8>, T>,
    blobs: Seq<Seq<u8>>,
    value: spec_fn(Seq<u8>) -> T,
) -> bool {
    &&& forall|digest: Seq<u8>| #[trigger] map.dom().contains(digest) <==> has_digest(blobs, digest)
    &&& forall|i: int|
        0 <= i < blobs.len() ==> map[#[trigger] keccak256_digest(blobs[i])] == value(blobs[i])
}

/// Whether `nodes` holds, under the digest of each blob, the node that the
/// blob decodes to, and nothing else.
pub open spec fn holds_nodes_of(nodes: Map<Seq<u8>, NodeView>, blobs: Seq<Seq<u8>>) -> bool {
    holds_under_digests(nodes, blobs, |blob: Seq<u8>| node_of(blob).unwrap())
}

/// Whether `codes` holds each blob under its digest, and nothing else.
pub open spec fn holds_codes_of(codes: Map<Seq<u8>, Seq<u8>>, blobs: Seq<Seq<u8>>) -> bool {
    holds_under_digests(codes, blobs, |blob: Seq<u8>| blob)
}

/// The decoded nodes of a witness, each under the digest of its serialization.
pub struct NodeStore {
    nodes: ByteMap<TrieNode>,
}

impl View for NodeStore {
    type V = Map<Seq<u8>, NodeView>;

    closed spec fn view(&self) -> Map<Seq<u8>, NodeView> {
        Map::new(|d: Seq<u8>| self.nodes@.dom().contains(d), |d: Seq<u8>| self.nodes@[d]@)
    }
}

/// Whether every node is well formed and is kept under the digest of its own
/// serialization.
pub open spec fn bound_to_digests(nodes: Map<Seq<u8>, NodeView>) -> bool {
    forall|d: Seq<u8>| #[trigger]
        nodes.dom().contains(d) ==> nodes[d].wf() && keccak256_digest(encode_node(nodes[d])) == d
}

impl NodeStore {
    /// The invariant of the store.
    pub closed spec fn wf(&self) -> bool {
        &&& self.nodes.wf()
        &&& bound_to_digests(self@)
    }

    /// No digest of a well-formed store leads to a node that hashes to
    /// anything else.
    pub proof fn lemma_bound_to_digests(&self)
        requires
            self.wf(),
        ensures
            bound_to_digests(self@),
    {
    }

    /// Builds the store of the nodes that `blobs` serialize.
    ///
    /// The result is `MalformedNode` where a blob is no trie node;
    /// `DigestCollision` where all are trie nodes and two different ones have
    /// the same digest; and otherwise the store that holds, under the digest
    /// of each blob, the node it decodes to.
    pub fn build(blobs: &Vec<Vec<u8>>) -> (built: Result<NodeStore, ConstructionError>)
        ensures
            match built {
                Ok(store) => {
                    &&& store.wf()
                    &&& blobs_decode(byte_strings(blobs@))
                    &&& !digests_collide(byte_strings(blobs@))
                    &&& holds_nodes_of(store@, byte_strings(blobs@))
                },
                Err(ConstructionError::MalformedNode) => !blobs_decode(byte_strings(blobs@)),
                Err(ConstructionError::DigestCollision) => blobs_decode(byte_strings(blobs@))
                    && digests_collide(byte_strings(blobs@)),
                Err(ConstructionError::RootNotInWitness) => false,
            },
    {
        let ghost all = byte_strings(blobs@);
        let ghost decoded = |blob: Seq<u8>| node_of(blob).unwrap();
        let mut store = NodeStore { nodes: ByteMap::new() };
        let mut collided = false;
        let mut i: usize = 0;
        assert(store@ =~= Map::<Seq<u8>, NodeView>::empty());
        while i < blobs.len()
            invariant
                i <= blobs@.len(),
                all == byte_strings(blobs@),
                decoded == |blob: Seq<u8>| node_of(blob).unwrap(),
                store.wf(),
                blobs_decode(all.take(i as int)),
                collided ==> digests_collide(all),
                !collided ==> !digests_collide(all.take(i as int)),
                !collided ==> holds_nodes_of(store@, all.take(i as int)),
            decreases blobs@.len() - i,
        {
            let blob = blobs[i].as_slice();
            let ghost done = all.take(i as int);
            let ghost next = all.take(i + 1);
            assert(blob@ == all[i as int]);
            assert(next.drop_last() =~= done);
            assert(next[i as int] == blob@);
            let node = match decode(blob) {
                Ok(node) => node,
                Err(_) => {
                    return Err(ConstructionError::MalformedNode);
                },
            };
            assert(blobs_decode(next)) by {
                assert forall|k: int| 0 <= k < next.len() implies (#[trigger] node_of(
                    next[k],
                )) is Some by {
                    if k < i {
                        assert(next[k] == done[k]);
                    }
                }
            }
            if !collided {
                let digest = keccak256(blob);
                let ghost before = store@;
                let known = match store.nodes.get(digest.as_slice()) {
                    Some(existing) => Some(node_eq(existing, &node)),
                    None => None,
                };
                match known {
                    Some(true) => {
                        proof {
                            assert(before.dom().contains(digest@));
                            assert(before[digest@] == node@);
                            assert(has_digest(done, digest@));
                            let j = choose|j: int|
                                0 <= j < done.len() && #[trigger] keccak256_digest(done[j])
                                    == digest@;
                            assert(next[j] == done[j]);
                            assert(decoded(done[j]) == before[digest@]);
                            assert(node_of(done[j]) is Some);
                            lemma_decoding_injective(done[j], blob@);
                            lemma_same_blob_keeps(done, next, before, decoded);
                        }
                    },
                    Some(false) => {
                        proof {
                            assert(before.dom().contains(digest@));
                            assert(before[digest@] != node@);
                            assert(has_digest(done, digest@));
                            let j = choose|j: int|
                                0 <= j < done.len() && #[trigger] keccak256_digest(done[j])
                                    == digest@;
                            assert(all[j] == done[j]);
                            assert(decoded(done[j]) == before[digest@]);
                            assert(keccak256_digest(all[j]) == keccak256_digest(all[i as int]));
                            assert(all[j] != all[i as int]);
                        }
                        collided = true;
                    },
                    None => {
                        store.nodes.insert(slice_to_vec(digest.as_slice()), node);
                        proof {
                            assert(!before.dom().contains(digest@));
                            assert(!has_digest(done, digest@));
                            assert(store@ =~= before.insert(digest@, node@));
                            assert(decoded(blob@) == node@);
                            lemma_new_blob_extends(done, next, before, store@, decoded);
                        }
                    },
                }
            }
            i += 1;
        }
        assert(all.take(i as int) =~= all);
        if collided {
            Err(ConstructionError::DigestCollision)
        } else {
            Ok(store)
        }
    }

    /// The node kept under `digest`, or `None` where the witness did not hold
    /// it.
    pub fn resolve(&self, digest: &Digest) -> (node: Option<&TrieNode>)
        requires
            self.wf(),
        ensures
            node is Some <==> self@.dom().contains(digest@),
            node matches Some(n) ==> n@ == self@[digest@] && n.wf(),
    {
        let node = self.nodes.get(digest.as_slice());
        proof {
            if node is Some {
                assert(self@.dom().contains(digest@));
            }
        }
        node
    }
}

/// A blob that is the same as an earlier one changes nothing.
proof fn lemma_same_blob_keeps<T>(
    done: Seq<Seq<u8>>,
    next: Seq<Seq<u8>>,
    map: Map<Seq<u8>, T>,
    value: spec_fn(Seq<u8>) -> T,
)
    requires
        next.len() == done.len() + 1,
        next.drop_last() == done,
        exists|j: int| 0 <= j < done.len() && done[j] == next.last(),
        !digests_collide(done),
        holds_under_digests(map, done, value),
    ensures
        !digests_collide(next),
        holds_under_digests(map, next, value),
{
    let j = choose|j: int| 0 <= j < done.len() && done[j] == next.last();
    assert forall|k: int| 0 <= k < done.len() implies next[k] == done[k] by {}
    assert forall|digest: Seq<u8>| has_digest(next, digest) <==> has_digest(done, digest) by {
        if has_digest(next, digest) {
            let k = choose|k: int|
                0 <= k < next.len() && #[trigger] keccak256_digest(next[k]) == digest;
            if k == done.len() {
                assert(keccak256_digest(done[j]) == digest);
            } else {
                assert(keccak256_digest(done[k]) == digest);
            }
        }
        if has_digest(done, digest) {
            let k = choose|k: int|
                0 <= k < done.len() && #[trigger] keccak256_digest(done[k]) == digest;
            assert(keccak256_digest(next[k]) == digest);
        }
    }
    assert forall|k: int| 0 <= k < next.len() implies map[#[trigger] keccak256_digest(next[k])]
        == value(next[k]) by {
        if k == done.len() {
            assert(map[keccak256_digest(done[j])] == value(done[j]));
        } else {
            assert(map[keccak256_digest(done[k])] == value(done[k]));
        }
    }
    if digests_collide(next) {
        let (a, b) = choose|a: int, b: int|
            0 <= a < b < next.len() && #[trigger] keccak256_digest(next[a])
                == #[trigger] keccak256_digest(next[b]) && next[a] != next[b];
        if b == done.len() {
            if a < j {
                assert(keccak256_digest(done[a]) == keccak256_digest(done[j]));
            } else if j < a {
                assert(keccak256_digest(done[j]) == keccak256_digest(done[a]));
            }
        } else {
            assert(keccak256_digest(done[a]) == keccak256_digest(done[b]));
        }
    }
}

/// A blob with a digest of its own adds one entry.
proof fn lemma_new_blob_extends<T>(
    done: Seq<Seq<u8>>,
    next: Seq<Seq<u8>>,
    before: Map<Seq<u8>, T>,
    after: Map<Seq<u8>, T>,
    value: spec_fn(Seq<u8>) -> T,
)
    requires
        next.len() == done.len() + 1,
        next.drop_last() == done,
        !has_digest(done, keccak256_digest(next.last())),
        after == before.insert(keccak256_digest(next.last()), value(next.last())),
        !digests_collide(done),
        holds_under_digests(before, done, value),
    ensures
        !digests_collide(next),
        holds_under_digests(after, next, value),
{
    let fresh = keccak256_digest(next.last());
    assert forall|k: int| 0 <= k < done.len() implies next[k] == done[k] by {}
    assert forall|digest: Seq<u8>| #[trigger] after.dom().contains(digest) <==> has_digest(
        next,
        digest,
    ) by {
        if has_digest(next, digest) {
            let k = choose|k: int|
                0 <= k < next.len() && #[trigger] keccak256_digest(next[k]) == digest;
            if k < done.len() {
                assert(keccak256_digest(done[k]) == digest);
                assert(has_digest(done, digest));
            }
        }
        if before.dom().contains(digest) {
            assert(has_digest(done, digest));
            let k = choose|k: int|
                0 <= k < done.len() && #[trigger] keccak256_digest(done[k]) == digest;
            assert(keccak256_digest(next[k]) == digest);
        }
        if digest == fresh {
            assert(keccak256_digest(next[done.len() as int]) == digest);
        }
    }
    assert forall|k: int| 0 <= k < next.len() implies after[#[trigger] keccak256_digest(next[k])]
        == value(next[k]) by {
        if k < done.len() {
            assert(keccak256_digest(done[k]) != fresh);
            assert(before[keccak256_digest(done[k])] == value(done[k]));
        }
    }
    if digests_collide(next) {
        let (a, b) = choose|a: int, b: int|
            0 <= a < b < next.len() && #[trigger] keccak256_digest(next[a])
                == #[trigger] keccak256_digest(next[b]) && next[a] != next[b];
        if b == done.len() {
            assert(keccak256_digest(done[a]) == fresh);
        } else {
            assert(keccak256_digest(done[a]) == keccak256_digest(done[b]));
        }
    }
}

/// The bytecode of a witness, each blob under its digest.
pub struct CodeStore {
    codes: ByteMap<Vec<u8>>,
}

impl View for CodeStore {
    type V = Map<Seq<u8>, Seq<u8>>;

    closed spec fn view(&self) -> Map<Seq<u8>, Seq<u8>> {
        Map::new(|d: Seq<u8>| self.codes@.dom().contains(d), |d: Seq<u8>| self.codes@[d]@)
    }
}

impl CodeStore {
    /// The invariant of the store: every blob is kept under its own digest.
    pub closed spec fn wf(&self) -> bool {
        &&& self.codes.wf()
        &&& forall|d: Seq<u8>| #[trigger] self@.dom().contains(d) ==> keccak256_digest(self@[d]) == d
    }

    /// Every blob of a well-formed store hashes to the digest it is kept
    /// under.
    pub proof fn lemma_bound_to_digests(&self)
        requires
            self.wf(),
        ensures
            forall|d: Seq<u8>| #[trigger]
                self@.dom().contains(d) ==> keccak256_digest(self@[d]) == d,
    {
    }

    /// Builds the store of the given bytecode.
    ///
    /// The result is `DigestCollision` where two different blobs have the same
    /// digest, and otherwise the store that holds each blob under its digest.
    pub fn build(blobs: &Vec<Vec<u8>>) -> (built: Result<CodeStore, ConstructionError>)
        ensures
            match built {
                Ok(store) => {
                    &&& store.wf()
                    &&& !digests_collide(byte_strings(blobs@))
                    &&& holds_codes_of(store@, byte_strings(blobs@))
                },
                Err(ConstructionError::DigestCollision) => digests_collide(byte_strings(blobs@)),
                Err(_) => false,
            },
    {
        let ghost all = byte_strings(blobs@);
        let ghost same = |blob: Seq<u8>| blob;
        let mut store = CodeStore { codes: ByteMap::new() };
        let mut i: usize = 0;
        assert(store@ =~= Map::<Seq<u8>, Seq<u8>>::empty());
        while i < blobs.len()
            invariant
                i <= blobs@.len(),
                all == byte_strings(blobs@),
                same == |blob: Seq<u8>| blob,
                store.wf(),
                !digests_collide(all.take(i as int)),
                holds_under_digests(store@, all.take(i as int), same),
            decreases blobs@.len() - i,
        {
            let blob = blobs[i].as_slice();
            let ghost done = all.take(i as int);
            let ghost next = all.take(i + 1);
            assert(blob@ == all[i as int]);
            assert(next.drop_last() =~= done);
            assert(next[i as int] == blob@);
            let digest = keccak256(blob);
            let ghost before = store@;
            let known = match store.codes.get(digest.as_slice()) {
                Some(existing) => Some(slice_eq(existing.as_slice(), blob)),
                None => None,
            };
            match known {
                Some(true) => {
                    proof {
                        assert(before.dom().contains(digest@));
                        assert(before[digest@] == blob@);
                        assert(has_digest(done, digest@));
                        let j = choose|j: int|
                            0 <= j < done.len() && #[trigger] keccak256_digest(done[j]) == digest@;
                        assert(same(done[j]) == done[j]);
                        lemma_same_blob_keeps(done, next, before, same);
                    }
                },
                Some(false) => {
                    proof {
                        assert(before.dom().contains(digest@));
                        assert(before[digest@] != blob@);
                        assert(has_digest(done, digest@));
                        let j = choose|j: int|
                            0 <= j < done.len() && #[trigger] keccak256_digest(done[j]) == digest@;
                        assert(same(done[j]) == done[j]);
                        assert(all[j] == done[j]);
                        assert(keccak256_digest(all[j]) == keccak256_digest(all[i as int]));
                        assert(all[j] != all[i as int]);
                    }
                    return Err(ConstructionError::DigestCollision);
                },
                None => {
                    store.codes.insert(slice_to_vec(digest.as_slice()), slice_to_vec(blob));
                    proof {
                        assert(!before.dom().contains(digest@));
                        assert(!has_digest(done, digest@));
                        assert(store@ =~= before.insert(digest@, blob@));
                        assert(same(blob@) == blob@);
                        lemma_new_blob_extends(done, next, before, store@, same);
                    }
                },
            }
            i += 1;
        }
        assert(all.take(i as int) =~= all);
        Ok(store)
    }

    /// The bytecode kept under `code_hash`, or `None` where the witness did
    /// not hold it.
    pub fn get(&self, code_hash: &Digest) -> (code: Option<&Vec<u8>>)
        requires
            self.wf(),
        ensures
            code is Some <==> self@.dom().contains(code_hash@),
            code matches Some(c) ==> c@ == self@[code_hash@],
    {
        self.codes.get(code_hash.as_slice())
    }
}

} // verus!
