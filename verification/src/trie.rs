//! Descent through a sparse trie: from a root digest, along the nibbles of a
//! key, over the nodes that a store holds.
use vstd::prelude::*;
use vstd::slice::{slice_subrange, slice_to_vec};
use crate::bytes::slice_eq;
use crate::node::{NodeView, TrieNode};
use crate::primitives::Digest;
use crate::store::{bound_to_digests, NodeStore};

verus! {

/// The state of a descent.
pub enum Descent {
    /// The descent stands at the node with this digest, with this much of the
    /// key left.
    AtNode { digest: Seq<u8>, key: Seq<u8> },
    /// The key is in the trie, with this value.
    Found { value: Seq<u8> },
    /// The nodes on the path show that the key is not in the trie.
    AbsentProven,
    /// The path leads to a node that the store does not hold.
    InsufficientWitness,
}

/// The outcome of a descent.
#[derive(Clone, Debug, PartialEq, Eq)]
pub enum Lookup {
    /// The key is in the trie, with this value.
    Found(Vec<u8>),
    /// The nodes on the path show that the key is not in the trie.
    AbsentProven,
    /// The path leads to a node that the store does not hold.
    InsufficientWitness,
}

impl View for Lookup {
    type V = Descent;

    open spec fn view(&self) -> Descent {
        match self {
            Lookup::Found(value) => Descent::Found { value: value@ },
            Lookup::AbsentProven => Descent::AbsentProven,
            Lookup::InsufficientWitness => Descent::InsufficientWitness,
        }
    }
}

/// One step of a descent that stands at `digest` with `key` left.
///
/// A node that the store lacks ends the descent as insufficient.  A leaf ends
/// it: the key is found if the leaf's path is all that is left of the key, and
/// proven absent otherwise.  An extension whose path the key starts with
/// leads to its child with the rest of the key; any other proves the key
/// absent.  A branch leads to the child in the slot of the key's next nibble;
/// an empty slot proves the key absent.  The empty node proves every key
/// absent.
pub open spec fn step(nodes: Map<Seq<u8>, NodeView>, digest: Seq<u8>, key: Seq<u8>) -> Descent {
    if !nodes.dom().contains(digest) {
        Descent::InsufficientWitness
    } else {
        match nodes[digest] {
            NodeView::EmptyChild => Descent::AbsentProven,
            NodeView::Leaf { path, value } => if path == key {
                Descent::Found { value }
            } else {
                Descent::AbsentProven
            },
            NodeView::Extension { path, child } => if path.is_prefix_of(key) {
                Descent::AtNode { digest: child, key: key.skip(path.len() as int) }
            } else {
                Descent::AbsentProven
            },
            NodeView::Branch { children } => if key.len() > 0 && key[0] < children.len() {
                match children[key[0] as int] {
                    Some(child) => Descent::AtNode { digest: child, key: key.skip(1) },
                    None => Descent::AbsentProven,
                }
            } else {
                Descent::AbsentProven
            },
        }
    }
}

/// The state in which a descent from `digest` with `key` ends: steps are
/// taken for as long as each one shortens what is left of the key.
pub open spec fn descend(nodes: Map<Seq<u8>, NodeView>, digest: Seq<u8>, key: Seq<u8>) -> Descent
    decreases key.len(),
{
    match step(nodes, digest, key) {
        Descent::AtNode { digest: next, key: rest } => if rest.len() < key.len() {
            descend(nodes, next, rest)
        } else {
            Descent::AtNode { digest: next, key: rest }
        },
        end => end,
    }
}

/// Over well-formed nodes every descent ends: the key is found, proven
/// absent, or the witness is insufficient.
pub proof fn lemma_descent_ends(nodes: Map<Seq<u8>, NodeView>, digest: Seq<u8>, key: Seq<u8>)
    requires
        bound_to_digests(nodes),
    ensures
        !(descend(nodes, digest, key) is AtNode),
    decreases key.len(),
{
    match step(nodes, digest, key) {
        Descent::AtNode { digest: next, key: rest } => {
            assert(nodes.dom().contains(digest));
            assert(nodes[digest].wf());
            assert(rest.len() < key.len());
            lemma_descent_ends(nodes, next, rest);
        },
        _ => {},
    }
}

/// A descent that ends with an answer over some nodes ends with the same
/// answer over any nodes that hold those and more: what a witness proves, a
/// larger witness proves too.
pub proof fn lemma_more_nodes_same_answer(
    fewer: Map<Seq<u8>, NodeView>,
    more: Map<Seq<u8>, NodeView>,
    digest: Seq<u8>,
    key: Seq<u8>,
)
    requires
        fewer.submap_of(more),
        descend(fewer, digest, key) is Found || descend(fewer, digest, key) is AbsentProven,
    ensures
        descend(more, digest, key) == descend(fewer, digest, key),
    decreases key.len(),
{
    assert(fewer.dom().contains(digest));
    assert(more.dom().contains(digest) && more[digest] == fewer[digest]);
    match step(fewer, digest, key) {
        Descent::AtNode { digest: next, key: rest } => {
            if rest.len() < key.len() {
                lemma_more_nodes_same_answer(fewer, more, next, rest);
            }
        },
        _ => {},
    }
}

fn starts_with(key: &[u8], path: &[u8]) -> (yes: bool)
    ensures
        yes == path@.is_prefix_of(key@),
{
    if path.len() > key.len() {
        return false;
    }
    let head = slice_subrange(key, 0, path.len());
    let same = slice_eq(head, path);
    proof {
        if same {
            assert(path@ =~= key@.subrange(0, path@.len() as int));
        }
        if path@.is_prefix_of(key@) {
            assert(key@.subrange(0, path@.len() as int) =~= path@);
        }
    }
    same
}

/// Descends from `root` along the nibbles of `key`.
///
/// The result is `Found` with the value of the leaf that the key leads to;
/// `AbsentProven` where the nodes on the way show that the trie has no such
/// key; and `InsufficientWitness` where the way leads to a node that the store
/// does not hold, the root included.
pub fn lookup(store: &NodeStore, root: &Digest, key: &[u8]) -> (found: Lookup)
    requires
        store.wf(),
    ensures
        found@ == descend(store@, root@, key@),
{
    let mut at: Digest = *root;
    let mut pos: usize = 0;
    proof {
        assert(key@.skip(0) =~= key@);
        store.lemma_bound_to_digests();
    }
    loop
        invariant
            store.wf(),
            bound_to_digests(store@),
            pos <= key.len(),
            descend(store@, root@, key@) == descend(store@, at@, key@.skip(pos as int)),
        decreases key.len() - pos,
    {
        let rest = slice_subrange(key, pos, key.len());
        assert(rest@ =~= key@.skip(pos as int));
        let node = match store.resolve(&at) {
            Some(node) => node,
            None => {
                return Lookup::InsufficientWitness;
            },
        };
        assert(store@[at@].wf());
        match node {
            TrieNode::EmptyChild => {
                return Lookup::AbsentProven;
            },
            TrieNode::Leaf { path, value } => {
                if slice_eq(path.as_slice(), rest) {
                    return Lookup::Found(slice_to_vec(value.as_slice()));
                } else {
                    return Lookup::AbsentProven;
                }
            },
            TrieNode::Extension { path, child } => {
                if starts_with(rest, path.as_slice()) {
                    proof {
                        assert(rest@.skip(path@.len() as int) =~= key@.skip(pos + path@.len()));
                    }
                    at = *child;
                    pos = pos + path.len();
                } else {
                    return Lookup::AbsentProven;
                }
            },
            TrieNode::Branch { children } => {
                if pos == key.len() {
                    return Lookup::AbsentProven;
                }
                let nibble = key[pos] as usize;
                assert(rest@[0] == key@[pos as int]);
                assert(store@[at@]->Branch_children.len() == children@.len());
                if nibble >= children.len() {
                    return Lookup::AbsentProven;
                }
                assert(store@[at@]->Branch_children[nibble as int] == crate::node::child_view(
                    children@[nibble as int],
                ));
                match children[nibble] {
                    Some(child) => {
                        proof {
                            assert(rest@.skip(1) =~= key@.skip(pos + 1));
                        }
                        at = child;
                        pos = pos + 1;
                    },
                    None => {
                        return Lookup::AbsentProven;
                    },
                }
            },
        }
    }
}

} // verus!
