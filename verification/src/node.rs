//! Trie nodes: their kinds, how they are serialized, and the decoder.
use vstd::prelude::*;
use crate::bytes::{copy_range, pow256, slice_eq};
use crate::path::{compact, is_nibbles, lemma_path_complete, lemma_path_sound, path_of, read_path};
use crate::primitives::{digest_eq, Digest};
use crate::rlp::{
    encode_items, encode_list, items_of, lemma_list_complete, lemma_list_sound, list_of,
    read_list, span_views, string_item, RlpItem, Span,
};

verus! {

/// A node of the trie.
#[derive(Clone, Debug, PartialEq, Eq)]
pub enum TrieNode {
    /// The node of a trie without keys.
    EmptyChild,
    /// The end of a key: the nibbles that are left of it, and its value.
    Leaf { path: Vec<u8>, value: Vec<u8> },
    /// A run of nibbles that all keys below share, and the digest of the node
    /// below.
    Extension { path: Vec<u8>, child: Digest },
    /// One slot for each nibble, with the digest of the node below or nothing.
    Branch { children: Vec<Option<Digest>> },
}

/// A trie node as a mathematical value.
pub enum NodeView {
    EmptyChild,
    Leaf { path: Seq<u8>, value: Seq<u8> },
    Extension { path: Seq<u8>, child: Seq<u8> },
    Branch { children: Seq<Option<Seq<u8>>> },
}

/// Why a blob is no trie node.
#[derive(Clone, Copy, Debug, PartialEq, Eq)]
pub enum DecodeError {
    /// The bytes are not the serialization of a trie node.
    MalformedNode,
}

/// The bytes of an optional digest.
pub open spec fn child_view(child: Option<Digest>) -> Option<Seq<u8>> {
    match child {
        Some(digest) => Some(digest@),
        None => None,
    }
}

impl View for TrieNode {
    type V = NodeView;

    open spec fn view(&self) -> NodeView {
        match self {
            TrieNode::EmptyChild => NodeView::EmptyChild,
            TrieNode::Leaf { path, value } => NodeView::Leaf { path: path@, value: value@ },
            TrieNode::Extension { path, child } => NodeView::Extension {
                path: path@,
                child: child@,
            },
            TrieNode::Branch { children } => NodeView::Branch {
                children: children@.map_values(|c: Option<Digest>| child_view(c)),
            },
        }
    }
}

impl NodeView {
    /// Whether the node is well formed: paths are made of nibbles, an
    /// extension has at least one, digests have 32 bytes, and a branch has 16
    /// slots.
    pub open spec fn wf(self) -> bool {
        match self {
            NodeView::EmptyChild => true,
            NodeView::Leaf { path, value } => is_nibbles(path),
            NodeView::Extension { path, child } => is_nibbles(path) && path.len() > 0 && child.len()
                == 32,
            NodeView::Branch { children } => children.len() == 16 && forall|i: int|
                0 <= i < 16 ==> ((#[trigger] children[i]) matches Some(digest) ==> digest.len()
                    == 32),
        }
    }
}

impl TrieNode {
    /// Whether the node is well formed.
    pub open spec fn wf(&self) -> bool {
        self@.wf()
    }
}

/// What a slot of a branch is written as: the digest, or the empty string.
pub open spec fn child_bytes(child: Option<Seq<u8>>) -> Seq<u8> {
    match child {
        Some(digest) => digest,
        None => Seq::empty(),
    }
}

/// The items that a node is serialized as: the compact path and the value or
/// child digest for a leaf or an extension; the 16 slots and an empty value
/// for a branch.
pub open spec fn node_items(node: NodeView) -> Seq<RlpItem> {
    match node {
        NodeView::EmptyChild => Seq::empty(),
        NodeView::Leaf { path, value } => seq![
            string_item(compact(path, true)),
            string_item(value),
        ],
        NodeView::Extension { path, child } => seq![
            string_item(compact(path, false)),
            string_item(child),
        ],
        NodeView::Branch { children } => Seq::new(
            17,
            |i: int|
                if i < 16 {
                    string_item(child_bytes(children[i]))
                } else {
                    string_item(Seq::empty())
                },
        ),
    }
}

/// The serialization of a node: the empty string for the empty node, and the
/// list of its items for any other.
pub open spec fn encode_node(node: NodeView) -> Seq<u8> {
    match node {
        NodeView::EmptyChild => seq![0x80u8],
        _ => encode_list(encode_items(node_items(node))),
    }
}

/// Whether an item can stand in a slot of a branch.
pub open spec fn is_slot(item: RlpItem) -> bool {
    !item.list && (item.payload.len() == 0 || item.payload.len() == 32)
}

/// The slot that an item stands for.
pub open spec fn slot_of(item: RlpItem) -> Option<Seq<u8>> {
    if item.payload.len() == 0 {
        None
    } else {
        Some(item.payload)
    }
}

/// The node that is serialized as the given items, if there is one.
pub open spec fn node_from_items(items: Seq<RlpItem>) -> Option<NodeView> {
    if items.len() == 2 {
        if items[0].list || items[1].list {
            None
        } else {
            match path_of(items[0].payload) {
                Some(p) => if p.leaf {
                    Some(NodeView::Leaf { path: p.nibbles, value: items[1].payload })
                } else if p.nibbles.len() > 0 && items[1].payload.len() == 32 {
                    Some(NodeView::Extension { path: p.nibbles, child: items[1].payload })
                } else {
                    None
                },
                None => None,
            }
        }
    } else if items.len() == 17 {
        if (forall|i: int| 0 <= i < 16 ==> is_slot(#[trigger] items[i])) && items[16]
            == string_item(Seq::empty()) {
            Some(NodeView::Branch { children: Seq::new(16, |i: int| slot_of(items[i])) })
        } else {
            None
        }
    } else {
        None
    }
}

/// The node that `bytes` is the serialization of, if it is one.
pub open spec fn node_of(bytes: Seq<u8>) -> Option<NodeView> {
    if bytes == seq![0x80u8] {
        Some(NodeView::EmptyChild)
    } else {
        match list_of(bytes) {
            Some(items) => node_from_items(items),
            None => None,
        }
    }
}

/// Items that make a node are the items of that node, and the node is well
/// formed.
pub proof fn lemma_items_make_node(items: Seq<RlpItem>)
    requires
        node_from_items(items) is Some,
    ensures
        node_from_items(items).unwrap().wf(),
        node_from_items(items).unwrap() != NodeView::EmptyChild,
        node_items(node_from_items(items).unwrap()) == items,
{
    let node = node_from_items(items).unwrap();
    if items.len() == 2 {
        lemma_path_sound(items[0].payload);
        assert(node_items(node) =~= items);
    } else {
        assert(node_items(node) =~= items) by {
            assert forall|i: int| 0 <= i < 17 implies node_items(node)[i] == items[i] by {
                if i < 16 {
                    assert(is_slot(items[i]));
                    assert(child_bytes(slot_of(items[i])) =~= items[i].payload);
                }
            }
        }
        assert(node.wf()) by {
            let children = node->Branch_children;
            assert forall|i: int| 0 <= i < 16 implies ((#[trigger] children[i]) matches Some(
                digest,
            ) ==> digest.len() == 32) by {
                assert(is_slot(items[i]));
            }
        }
    }
}

/// The items of a well-formed node make that node.
pub proof fn lemma_node_from_its_items(node: NodeView)
    requires
        node.wf(),
        node != NodeView::EmptyChild,
    ensures
        node_from_items(node_items(node)) == Some(node),
{
    let items = node_items(node);
    match node {
        NodeView::EmptyChild => {},
        NodeView::Leaf { path, value } => {
            lemma_path_complete(path, true);
        },
        NodeView::Extension { path, child } => {
            lemma_path_complete(path, false);
        },
        NodeView::Branch { children } => {
            assert forall|i: int| 0 <= i < 16 implies is_slot(#[trigger] items[i]) by {
                assert(children[i] matches Some(digest) ==> digest.len() == 32);
            }
            let back = Seq::new(16, |i: int| slot_of(items[i]));
            assert(back =~= children) by {
                assert forall|i: int| 0 <= i < 16 implies back[i] == children[i] by {
                    assert(children[i] matches Some(digest) ==> digest.len() == 32);
                }
            }
        },
    }
}

/// A blob that decodes is the serialization of the node it decodes to, and
/// that node is well formed.
pub proof fn lemma_decoded_node_encodes(bytes: Seq<u8>)
    requires
        node_of(bytes) is Some,
    ensures
        node_of(bytes).unwrap().wf(),
        encode_node(node_of(bytes).unwrap()) == bytes,
{
    if bytes != seq![0x80u8] {
        lemma_list_sound(bytes);
        lemma_items_make_node(list_of(bytes).unwrap());
    }
}

/// The serialization of a well-formed node decodes to that node.
pub proof fn lemma_encoded_node_decodes(node: NodeView)
    requires
        node.wf(),
        encode_node(node).len() < pow256(8),
    ensures
        node_of(encode_node(node)) == Some(node),
{
    if node != NodeView::EmptyChild {
        lemma_list_complete(node_items(node));
        lemma_node_from_its_items(node);
    }
}

/// Two blobs that decode to the same node are the same blob.
pub proof fn lemma_decoding_injective(a: Seq<u8>, b: Seq<u8>)
    requires
        node_of(a) is Some,
        node_of(a) == node_of(b),
    ensures
        a == b,
{
    lemma_decoded_node_encodes(a);
    lemma_decoded_node_encodes(b);
}

fn digest_from_range(bytes: &[u8], start: usize) -> (digest: Digest)
    requires
        start + 32 <= bytes.len(),
    ensures
        digest@ == bytes@.subrange(start as int, start + 32),
{
    let mut digest = [0u8; 32];
    let mut i: usize = 0;
    while i < 32
        invariant
            i <= 32,
            start + 32 <= bytes.len(),
            forall|j: int| 0 <= j < i ==> digest@[j] == bytes@[start + j],
        decreases 32 - i,
    {
        digest[i] = bytes[start + i];
        i += 1;
    }
    assert(digest@ =~= bytes@.subrange(start as int, start + 32));
    digest
}

fn decode_short(bytes: &[u8], spans: &Vec<Span>) -> (node: Option<TrieNode>)
    requires
        spans@.len() == 2,
        forall|i: int| 0 <= i < 2 ==> (#[trigger] spans@[i]).start <= spans@[i].end <= bytes.len(),
    ensures
        node is Some <==> node_from_items(items_of(bytes@, span_views(spans@))) is Some,
        node matches Some(n) ==> node_from_items(items_of(bytes@, span_views(spans@))) == Some(n@),
{
    let first = spans[0];
    let second = spans[1];
    let ghost items = items_of(bytes@, span_views(spans@));
    assert(items[0] == first@.item(bytes@));
    assert(items[1] == second@.item(bytes@));
    if first.list || second.list {
        return None;
    }
    let encoded = vstd::slice::slice_subrange(bytes, first.start, first.end);
    match read_path(encoded) {
        Some((leaf, path)) => {
            if leaf {
                let value = copy_range(bytes, second.start, second.end);
                Some(TrieNode::Leaf { path, value })
            } else if path.len() > 0 && second.end - second.start == 32 {
                let child = digest_from_range(bytes, second.start);
                Some(TrieNode::Extension { path, child })
            } else {
                None
            }
        },
        None => None,
    }
}

fn decode_branch(bytes: &[u8], spans: &Vec<Span>) -> (node: Option<TrieNode>)
    requires
        spans@.len() == 17,
        forall|i: int| 0 <= i < 17 ==> (#[trigger] spans@[i]).start <= spans@[i].end <= bytes.len(),
    ensures
        node is Some <==> node_from_items(items_of(bytes@, span_views(spans@))) is Some,
        node matches Some(n) ==> node_from_items(items_of(bytes@, span_views(spans@))) == Some(n@),
{
    let ghost items = items_of(bytes@, span_views(spans@));
    let mut children: Vec<Option<Digest>> = Vec::with_capacity(16);
    let mut i: usize = 0;
    while i < 16
        invariant
            i <= 16,
            spans@.len() == 17,
            forall|k: int| 0 <= k < 17 ==> (#[trigger] spans@[k]).start <= spans@[k].end <= bytes.len(),
            items == items_of(bytes@, span_views(spans@)),
            children@.len() == i,
            forall|k: int| 0 <= k < i ==> is_slot(#[trigger] items[k]),
            forall|k: int| 0 <= k < i ==> child_view(#[trigger] children@[k]) == slot_of(items[k]),
        decreases 16 - i,
    {
        let span = spans[i];
        assert(items[i as int] == span@.item(bytes@));
        if span.list {
            assert(!is_slot(items[i as int]));
            return None;
        }
        let len = span.end - span.start;
        if len == 0 {
            children.push(None);
        } else if len == 32 {
            children.push(Some(digest_from_range(bytes, span.start)));
        } else {
            assert(!is_slot(items[i as int]));
            return None;
        }
        i += 1;
    }
    let last = spans[16];
    assert(items[16] == last@.item(bytes@));
    if last.list || last.end != last.start {
        assert(items[16].list == last.list);
        assert(items[16].payload.len() == last.end - last.start);
        return None;
    }
    assert(items[16].payload =~= Seq::<u8>::empty());
    let node = TrieNode::Branch { children };
    proof {
        let expected = Seq::new(16, |k: int| slot_of(items[k]));
        assert(node@->Branch_children =~= expected);
    }
    Some(node)
}

fn decode_inner(bytes: &[u8]) -> (node: Option<TrieNode>)
    ensures
        node is Some <==> node_of(bytes@) is Some,
        node matches Some(n) ==> node_of(bytes@) == Some(n@),
{
    if bytes.len() == 1 && bytes[0] == 0x80 {
        assert(bytes@ =~= seq![0x80u8]);
        return Some(TrieNode::EmptyChild);
    }
    assert(bytes@ != seq![0x80u8]) by {
        if bytes@ == seq![0x80u8] {
            assert(bytes@.len() == 1);
            assert(bytes@[0] == 0x80u8);
        }
    }
    let spans = match read_list(bytes) {
        Some(spans) => spans,
        None => {
            return None;
        },
    };
    if spans.len() == 2 {
        decode_short(bytes, &spans)
    } else if spans.len() == 17 {
        decode_branch(bytes, &spans)
    } else {
        None
    }
}

/// Decodes one serialized trie node.
///
/// The kind of node is told by the shape of the bytes: a list of two items is
/// a leaf or an extension, by the flag in its compact path, and a list of 17
/// items is a branch.  The result is the one well-formed node whose
/// serialization is `bytes`, and `MalformedNode` where there is none.
pub fn decode(bytes: &[u8]) -> (decoded: Result<TrieNode, DecodeError>)
    ensures
        decoded matches Ok(node) ==> node.wf() && encode_node(node@) == bytes@,
        decoded matches Err(e) ==> e == DecodeError::MalformedNode && forall|n: NodeView|
            n.wf() ==> #[trigger] encode_node(n) != bytes@,
        decoded matches Ok(node) ==> node_of(bytes@) == Some(node@),
        decoded is Err ==> node_of(bytes@) is None,
{
    let size = bytes.len();
    proof {
        reveal_with_fuel(pow256, 9);
        assert(bytes@.len() == size);
        assert(pow256(8) == 0x1_0000_0000_0000_0000);
    }
    match decode_inner(bytes) {
        Some(node) => {
            proof {
                lemma_decoded_node_encodes(bytes@);
            }
            Ok(node)
        },
        None => {
            proof {
                assert forall|n: NodeView| n.wf() implies #[trigger] encode_node(n) != bytes@ by {
                    if encode_node(n) == bytes@ {
                        lemma_encoded_node_decodes(n);
                    }
                }
            }
            Err(DecodeError::MalformedNode)
        },
    }
}

/// Whether two optional digests are the same.
fn child_eq(a: &Option<Digest>, b: &Option<Digest>) -> (same: bool)
    ensures
        same == (child_view(*a) == child_view(*b)),
{
    match (a, b) {
        (Some(x), Some(y)) => digest_eq(x, y),
        (None, None) => true,
        _ => false,
    }
}

/// Whether two nodes are the same node.
pub fn node_eq(a: &TrieNode, b: &TrieNode) -> (same: bool)
    ensures
        same == (a@ == b@),
{
    match (a, b) {
        (TrieNode::EmptyChild, TrieNode::EmptyChild) => true,
        (TrieNode::Leaf { path: p, value: v }, TrieNode::Leaf { path: q, value: w }) => {
            slice_eq(p.as_slice(), q.as_slice()) && slice_eq(v.as_slice(), w.as_slice())
        },
        (
            TrieNode::Extension { path: p, child: c },
            TrieNode::Extension { path: q, child: d },
        ) => { slice_eq(p.as_slice(), q.as_slice()) && digest_eq(c, d) },
        (TrieNode::Branch { children: c }, TrieNode::Branch { children: d }) => {
            let ghost left = c@.map_values(|x: Option<Digest>| child_view(x));
            let ghost right = d@.map_values(|x: Option<Digest>| child_view(x));
            assert(a@ == NodeView::Branch { children: left });
            assert(b@ == NodeView::Branch { children: right });
            if c.len() != d.len() {
                assert(left.len() != right.len());
                return false;
            }
            let mut i: usize = 0;
            while i < c.len()
                invariant
                    i <= c@.len(),
                    c@.len() == d@.len(),
                    left == c@.map_values(|x: Option<Digest>| child_view(x)),
                    right == d@.map_values(|x: Option<Digest>| child_view(x)),
                    a@ == (NodeView::Branch { children: left }),
                    b@ == (NodeView::Branch { children: right }),
                    forall|k: int| 0 <= k < i ==> child_view(c@[k]) == child_view(d@[k]),
                decreases c@.len() - i,
            {
                if !child_eq(&c[i], &d[i]) {
                    assert(left[i as int] != right[i as int]);
                    return false;
                }
                i += 1;
            }
            assert(left =~= right);
            true
        },
        _ => false,
    }
}

} // verus!
