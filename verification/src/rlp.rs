//! Recursive-length-prefix items: how they are written, and a reader for them.
//!
//! An item is a byte string or a list.  It is written as a prefix that tells
//! its kind and the length of its payload, followed by the payload; a string
//! of one byte below `0x80` is written as that byte alone.  Lengths are
//! written in the shortest form, so every item has exactly one encoding.
use vstd::prelude::*;
use vstd::slice::slice_subrange;
use crate::bytes::{
    be_minimal, be_value, lemma_be_minimal_canonical, lemma_be_minimal_len,
    lemma_be_minimal_value, lemma_be_value_minimal, pow256,
};
use crate::primitives::u64_from_be;

verus! {

/// An item: its kind and its payload.
pub struct RlpItem {
    pub list: bool,
    pub payload: Seq<u8>,
}

/// The prefix of an item of the given kind whose payload has `len` bytes.
pub open spec fn encode_prefix(list: bool, len: nat) -> Seq<u8> {
    let base: nat = if list {
        0xc0
    } else {
        0x80
    };
    if len < 56 {
        seq![(base + len) as u8]
    } else {
        seq![(base + 55 + be_minimal(len).len()) as u8] + be_minimal(len)
    }
}

/// The encoding of one item.
pub open spec fn encode_item(item: RlpItem) -> Seq<u8> {
    if !item.list && item.payload.len() == 1 && item.payload[0] < 0x80 {
        item.payload
    } else {
        encode_prefix(item.list, item.payload.len()) + item.payload
    }
}

/// The encoding of a byte string.
pub open spec fn encode_string(s: Seq<u8>) -> Seq<u8> {
    encode_item(RlpItem { list: false, payload: s })
}

/// The encoding of a list whose items, encoded one after the other, are
/// `payload`.
pub open spec fn encode_list(payload: Seq<u8>) -> Seq<u8> {
    encode_item(RlpItem { list: true, payload })
}

/// A byte string as an item.
pub open spec fn string_item(payload: Seq<u8>) -> RlpItem {
    RlpItem { list: false, payload }
}

/// The encodings of several items, one after the other.
pub open spec fn encode_items(items: Seq<RlpItem>) -> Seq<u8>
    decreases items.len(),
{
    if items.len() == 0 {
        Seq::empty()
    } else {
        encode_item(items[0]) + encode_items(items.skip(1))
    }
}

/// Whether the payload of every item is short enough for its length to be
/// written in eight bytes.
pub open spec fn items_fit(items: Seq<RlpItem>) -> bool {
    forall|i: int| 0 <= i < items.len() ==> (#[trigger] items[i]).payload.len() < pow256(8)
}

/// Where an item lies in a buffer: its kind, and the range of its payload.
#[derive(Clone, Copy, Debug, PartialEq, Eq)]
pub struct Span {
    pub list: bool,
    pub start: usize,
    pub end: usize,
}

/// A [`Span`] with unbounded positions.
pub struct SpanView {
    pub list: bool,
    pub start: int,
    pub end: int,
}

impl View for Span {
    type V = SpanView;

    open spec fn view(&self) -> SpanView {
        SpanView { list: self.list, start: self.start as int, end: self.end as int }
    }
}

impl SpanView {
    /// The item that the span marks in `s`.
    pub open spec fn item(self, s: Seq<u8>) -> RlpItem {
        RlpItem { list: self.list, payload: s.subrange(self.start, self.end) }
    }
}

/// The views of an optional span.
pub open spec fn span_view(span: Option<Span>) -> Option<SpanView> {
    match span {
        Some(sp) => Some(sp@),
        None => None,
    }
}

/// The items that spans mark in `s`.
pub open spec fn items_of(s: Seq<u8>, spans: Seq<SpanView>) -> Seq<RlpItem> {
    spans.map_values(|sp: SpanView| sp.item(s))
}

/// The views of spans.
pub open spec fn span_views(spans: Seq<Span>) -> Seq<SpanView> {
    spans.map_values(|sp: Span| sp@)
}

/// The item with a one-byte prefix that starts at `pos`.
pub open spec fn short_item_at(s: Seq<u8>, pos: int, list: bool, len: int) -> Option<SpanView> {
    if pos + 1 + len > s.len() {
        None
    } else if !list && len == 1 && s[pos + 1] < 0x80 {
        None
    } else {
        Some(SpanView { list, start: pos + 1, end: pos + 1 + len })
    }
}

/// The item that starts at `pos` with a prefix that holds the length in
/// `width` bytes.
pub open spec fn long_item_at(s: Seq<u8>, pos: int, list: bool, width: int) -> Option<SpanView> {
    if pos + 1 + width > s.len() {
        None
    } else {
        let digits = s.subrange(pos + 1, pos + 1 + width);
        let len = be_value(digits);
        if digits[0] == 0 || len < 56 || pos + 1 + width + len > s.len() {
            None
        } else {
            Some(SpanView { list, start: pos + 1 + width, end: pos + 1 + width + len })
        }
    }
}

/// The item whose encoding starts at `pos`, if one does.
pub open spec fn item_at(s: Seq<u8>, pos: int) -> Option<SpanView> {
    if pos < 0 || pos >= s.len() {
        None
    } else {
        let b = s[pos];
        if b < 0x80 {
            Some(SpanView { list: false, start: pos, end: pos + 1 })
        } else if b < 0xb8 {
            short_item_at(s, pos, false, b - 0x80)
        } else if b < 0xc0 {
            long_item_at(s, pos, false, b - 0xb7)
        } else if b < 0xf8 {
            short_item_at(s, pos, true, b - 0xc0)
        } else {
            long_item_at(s, pos, true, b - 0xf7)
        }
    }
}

/// The items whose encodings fill `s` from `pos` up to `end`, if the range is
/// made of encodings.
pub open spec fn items_at(s: Seq<u8>, pos: int, end: int) -> Option<Seq<SpanView>>
    decreases end - pos,
{
    if pos >= end {
        if pos == end {
            Some(Seq::empty())
        } else {
            None
        }
    } else {
        match item_at(s, pos) {
            Some(first) => if first.end <= pos || first.end > end {
                None
            } else {
                match items_at(s, first.end, end) {
                    Some(rest) => Some(seq![first] + rest),
                    None => None,
                }
            },
            None => None,
        }
    }
}

/// An item that the reader finds is the one that the bytes from its start to
/// its end encode.
pub proof fn lemma_item_sound(s: Seq<u8>, pos: int)
    requires
        item_at(s, pos) is Some,
    ensures
        ({
            let span = item_at(s, pos).unwrap();
            &&& 0 <= pos <= span.start <= span.end <= s.len()
            &&& pos < span.end
            &&& s.subrange(pos, span.end) == encode_item(span.item(s))
            &&& span.item(s).payload.len() < pow256(8)
        }),
{
    let span = item_at(s, pos).unwrap();
    let b = s[pos];
    let payload = s.subrange(span.start, span.end);
    reveal_with_fuel(pow256, 9);
    if b < 0x80 {
        assert(s.subrange(pos, span.end) =~= payload);
    } else if b < 0xb8 || (0xc0 <= b < 0xf8) {
        let len = payload.len();
        assert(s.subrange(pos, span.end) =~= encode_prefix(span.list, len) + payload);
        if !span.list && len == 1 {
            assert(payload[0] == s[pos + 1]);
        }
    } else {
        let width: int = if b < 0xc0 {
            b - 0xb7
        } else {
            b - 0xf7
        };
        let digits = s.subrange(pos + 1, pos + 1 + width);
        let len = be_value(digits);
        lemma_be_value_minimal(digits);
        crate::bytes::lemma_be_value_bound(digits);
        crate::bytes::lemma_pow256_monotonic(digits.len(), 8);
        assert(payload.len() == len);
        assert(s.subrange(pos, span.end) =~= (seq![b] + digits) + payload);
        assert(encode_prefix(span.list, len) =~= seq![b] + digits);
    }
}

/// Where the encoding of an item stands at `pos`, the reader finds that item.
pub proof fn lemma_item_complete(s: Seq<u8>, pos: int, item: RlpItem)
    requires
        0 <= pos,
        pos + encode_item(item).len() <= s.len(),
        s.subrange(pos, pos + encode_item(item).len()) == encode_item(item),
        item.payload.len() < pow256(8),
    ensures
        item_at(s, pos) == Some(
            SpanView {
                list: item.list,
                start: pos + encode_item(item).len() - item.payload.len(),
                end: pos + encode_item(item).len(),
            },
        ),
        item_at(s, pos).unwrap().item(s) == item,
{
    let e = encode_item(item);
    let len = item.payload.len();
    let found = item_at(s, pos);
    reveal_with_fuel(pow256, 9);
    assert(e.len() > 0);
    assert(s[pos] == s.subrange(pos, pos + e.len())[0]);
    if !item.list && len == 1 && item.payload[0] < 0x80 {
        assert(s.subrange(pos, pos + 1) =~= item.payload);
    } else if len < 56 {
        assert(e[0] == s[pos]);
        if len >= 1 {
            assert(s[pos + 1] == s.subrange(pos, pos + e.len())[1]);
            assert(e[1] == item.payload[0]);
        }
        assert(s.subrange(pos + 1, pos + 1 + len) =~= item.payload) by {
            assert forall|i: int| 0 <= i < len implies s.subrange(pos + 1, pos + 1 + len)[i]
                == item.payload[i] by {
                assert(s[pos + 1 + i] == s.subrange(pos, pos + e.len())[1 + i]);
            }
        }
    } else {
        let digits = be_minimal(len);
        let width = digits.len() as int;
        lemma_be_minimal_len(len, 8);
        lemma_be_minimal_canonical(len);
        lemma_be_minimal_value(len);
        assert(1 <= width <= 8);
        assert(e[0] == s[pos]);
        assert(s.subrange(pos + 1, pos + 1 + width) =~= digits) by {
            assert forall|i: int| 0 <= i < width implies s.subrange(pos + 1, pos + 1 + width)[i]
                == digits[i] by {
                assert(s[pos + 1 + i] == s.subrange(pos, pos + e.len())[1 + i]);
            }
        }
        assert(s.subrange(pos + 1 + width, pos + 1 + width + len) =~= item.payload) by {
            assert forall|i: int| 0 <= i < len implies s.subrange(
                pos + 1 + width,
                pos + 1 + width + len,
            )[i] == item.payload[i] by {
                assert(s[pos + 1 + width + i] == s.subrange(pos, pos + e.len())[1 + width + i]);
            }
        }
    }
}

/// Items that the reader finds in a range are the ones that the bytes of the
/// range encode.
pub proof fn lemma_items_sound(s: Seq<u8>, pos: int, end: int)
    requires
        0 <= pos,
        end <= s.len(),
        items_at(s, pos, end) is Some,
    ensures
        pos <= end,
        s.subrange(pos, end) == encode_items(items_of(s, items_at(s, pos, end).unwrap())),
        items_fit(items_of(s, items_at(s, pos, end).unwrap())),
    decreases end - pos,
{
    let spans = items_at(s, pos, end).unwrap();
    let items = items_of(s, spans);
    if pos == end {
        assert(s.subrange(pos, end) =~= Seq::<u8>::empty());
    } else {
        let first = item_at(s, pos).unwrap();
        let rest = items_at(s, first.end, end).unwrap();
        lemma_item_sound(s, pos);
        lemma_items_sound(s, first.end, end);
        assert(spans =~= seq![first] + rest);
        assert(items.skip(1) =~= items_of(s, rest));
        assert(items[0] == first.item(s));
        assert(s.subrange(pos, end) =~= s.subrange(pos, first.end) + s.subrange(first.end, end));
        assert forall|i: int| 0 <= i < items.len() implies (#[trigger] items[i]).payload.len()
            < pow256(8) by {
            if i > 0 {
                assert(items[i] == items_of(s, rest)[i - 1]);
            }
        }
    }
}

/// Where the encodings of items fill a range, the reader finds those items.
pub proof fn lemma_items_complete(s: Seq<u8>, pos: int, end: int, items: Seq<RlpItem>)
    requires
        0 <= pos <= end <= s.len(),
        s.subrange(pos, end) == encode_items(items),
        items_fit(items),
    ensures
        items_at(s, pos, end) is Some,
        items_of(s, items_at(s, pos, end).unwrap()) == items,
    decreases items.len(),
{
    if items.len() == 0 {
        assert(s.subrange(pos, end).len() == 0);
        assert(items_of(s, items_at(s, pos, end).unwrap()) =~= items);
    } else {
        let e = encode_item(items[0]);
        let tail = encode_items(items.skip(1));
        assert(s.subrange(pos, end).len() == e.len() + tail.len());
        assert(s.subrange(pos, pos + e.len()) =~= e) by {
            assert forall|i: int| 0 <= i < e.len() implies s.subrange(pos, pos + e.len())[i]
                == e[i] by {
                assert(s.subrange(pos, end)[i] == (e + tail)[i]);
            }
        }
        assert(s.subrange(pos + e.len(), end) =~= tail) by {
            assert forall|i: int| 0 <= i < tail.len() implies s.subrange(pos + e.len(), end)[i]
                == tail[i] by {
                assert(s.subrange(pos, end)[e.len() + i] == (e + tail)[e.len() + i]);
            }
        }
        assert(e.len() > 0);
        lemma_item_complete(s, pos, items[0]);
        assert(items_fit(items.skip(1))) by {
            assert forall|i: int| 0 <= i < items.skip(1).len() implies (#[trigger] items.skip(
                1,
            )[i]).payload.len() < pow256(8) by {
                assert(items.skip(1)[i] == items[i + 1]);
            }
        }
        lemma_items_complete(s, pos + e.len(), end, items.skip(1));
        let first = item_at(s, pos).unwrap();
        let rest = items_at(s, first.end, end).unwrap();
        assert(items_at(s, pos, end).unwrap() =~= seq![first] + rest);
        assert(items_of(s, items_at(s, pos, end).unwrap()) =~= items) by {
            let got = items_of(s, items_at(s, pos, end).unwrap());
            assert forall|i: int| 0 <= i < items.len() implies got[i] == items[i] by {
                if i > 0 {
                    assert(got[i] == items_of(s, rest)[i - 1]);
                    assert(items.skip(1)[i - 1] == items[i]);
                }
            }
        }
    }
}

/// Whether the encoding of `item` stands in `s` at `pos`.
pub open spec fn encoded_at(s: Seq<u8>, pos: int, item: RlpItem) -> bool {
    &&& 0 <= pos
    &&& pos + encode_item(item).len() <= s.len()
    &&& s.subrange(pos, pos + encode_item(item).len()) == encode_item(item)
}

/// At most one item has its encoding at a given place: no encoding is the
/// beginning of another.
pub proof fn lemma_item_unique(s: Seq<u8>, pos: int, a: RlpItem, b: RlpItem)
    requires
        s.len() < pow256(8),
        encoded_at(s, pos, a),
        encoded_at(s, pos, b),
    ensures
        a == b,
{
    lemma_item_complete(s, pos, a);
    lemma_item_complete(s, pos, b);
}

/// The items of the list that `bytes` is the encoding of, if it is one.
pub open spec fn list_of(bytes: Seq<u8>) -> Option<Seq<RlpItem>> {
    match item_at(bytes, 0) {
        Some(outer) => if outer.list && outer.end == bytes.len() {
            match items_at(bytes, outer.start, outer.end) {
                Some(spans) => Some(items_of(bytes, spans)),
                None => None,
            }
        } else {
            None
        },
        None => None,
    }
}

/// The encodings of several items are at least as long as the payload of each.
pub proof fn lemma_items_len(items: Seq<RlpItem>, i: int)
    requires
        0 <= i < items.len(),
    ensures
        items[i].payload.len() <= encode_items(items).len(),
    decreases items.len(),
{
    if i > 0 {
        lemma_items_len(items.skip(1), i - 1);
    }
}

/// Bytes that read as a list are the encoding of the list of the items read.
pub proof fn lemma_list_sound(bytes: Seq<u8>)
    requires
        list_of(bytes) is Some,
    ensures
        bytes == encode_list(encode_items(list_of(bytes).unwrap())),
        bytes.len() > 0,
        bytes[0] >= 0xc0,
{
    let outer = item_at(bytes, 0).unwrap();
    lemma_item_sound(bytes, 0);
    lemma_items_sound(bytes, outer.start, outer.end);
    assert(bytes.subrange(0, outer.end) =~= bytes);
}

/// The encoding of a list of items reads as those items.
pub proof fn lemma_list_complete(items: Seq<RlpItem>)
    requires
        encode_list(encode_items(items)).len() < pow256(8),
    ensures
        list_of(encode_list(encode_items(items))) == Some(items),
        encode_list(encode_items(items))[0] >= 0xc0,
{
    let payload = encode_items(items);
    let outer = RlpItem { list: true, payload };
    let bytes = encode_item(outer);
    lemma_be_minimal_len(payload.len(), 8);
    assert(bytes[0] >= 0xc0);
    assert(bytes.subrange(0, bytes.len() as int) =~= bytes);
    lemma_item_complete(bytes, 0, outer);
    let span = item_at(bytes, 0).unwrap();
    assert(bytes.subrange(span.start, span.end) == payload);
    assert(items_fit(items)) by {
        assert forall|i: int| 0 <= i < items.len() implies (#[trigger] items[i]).payload.len()
            < pow256(8) by {
            lemma_items_len(items, i);
        }
    }
    lemma_items_complete(bytes, span.start, span.end, items);
}

/// The string that `bytes` is the encoding of, if it is one.
pub open spec fn string_of(bytes: Seq<u8>) -> Option<Seq<u8>> {
    match item_at(bytes, 0) {
        Some(span) => if !span.list && span.end == bytes.len() {
            Some(bytes.subrange(span.start, span.end))
        } else {
            None
        },
        None => None,
    }
}

/// Bytes that read as a string are the encoding of the string read.
pub proof fn lemma_string_sound(bytes: Seq<u8>)
    requires
        string_of(bytes) is Some,
    ensures
        bytes == encode_string(string_of(bytes).unwrap()),
{
    let span = item_at(bytes, 0).unwrap();
    lemma_item_sound(bytes, 0);
    assert(bytes.subrange(0, span.end) =~= bytes);
}

/// The encoding of a string reads as that string.
pub proof fn lemma_string_complete(s: Seq<u8>)
    requires
        s.len() < pow256(8),
    ensures
        string_of(encode_string(s)) == Some(s),
{
    let bytes = encode_string(s);
    assert(bytes.subrange(0, bytes.len() as int) =~= bytes);
    lemma_item_complete(bytes, 0, string_item(s));
}

fn read_short(bytes: &[u8], pos: usize, list: bool, len: usize) -> (span: Option<Span>)
    requires
        pos < bytes.len(),
        len < 56,
    ensures
        span_view(span) == short_item_at(bytes@, pos as int, list, len as int),
{
    if len > bytes.len() - pos - 1 {
        None
    } else if !list && len == 1 && bytes[pos + 1] < 0x80 {
        None
    } else {
        Some(Span { list, start: pos + 1, end: pos + 1 + len })
    }
}

fn read_long(bytes: &[u8], pos: usize, list: bool, width: usize) -> (span: Option<Span>)
    requires
        pos < bytes.len(),
        1 <= width <= 8,
    ensures
        span_view(span) == long_item_at(bytes@, pos as int, list, width as int),
{
    if width > bytes.len() - pos - 1 {
        return None;
    }
    let digits = slice_subrange(bytes, pos + 1, pos + 1 + width);
    if digits[0] == 0 {
        return None;
    }
    let len: u64 = u64_from_be(digits);
    if len < 56 {
        return None;
    }
    let room: usize = bytes.len() - pos - 1 - width;
    if len > room as u64 {
        return None;
    }
    Some(Span { list, start: pos + 1 + width, end: pos + 1 + width + len as usize })
}

fn read_item_at(bytes: &[u8], pos: usize) -> (span: Option<Span>)
    ensures
        span_view(span) == item_at(bytes@, pos as int),
{
    if pos >= bytes.len() {
        return None;
    }
    let b = bytes[pos];
    if b < 0x80 {
        Some(Span { list: false, start: pos, end: pos + 1 })
    } else if b < 0xb8 {
        read_short(bytes, pos, false, (b - 0x80) as usize)
    } else if b < 0xc0 {
        read_long(bytes, pos, false, (b - 0xb7) as usize)
    } else if b < 0xf8 {
        read_short(bytes, pos, true, (b - 0xc0) as usize)
    } else {
        read_long(bytes, pos, true, (b - 0xf7) as usize)
    }
}

/// Reads the item whose encoding starts at `pos`.
///
/// The result is the span of the one item whose encoding stands in `bytes`
/// at `pos`, and `None` where no item has its encoding there.
pub fn read_item(bytes: &[u8], pos: usize) -> (span: Option<Span>)
    ensures
        span matches Some(sp) ==> {
            &&& pos <= sp.start <= sp.end <= bytes.len()
            &&& pos < sp.end
            &&& encoded_at(bytes@, pos as int, sp@.item(bytes@))
            &&& sp.end == pos + encode_item(sp@.item(bytes@)).len()
        },
        span is None ==> forall|item: RlpItem| !#[trigger] encoded_at(bytes@, pos as int, item),
        span_view(span) == item_at(bytes@, pos as int),
{
    let size = bytes.len();
    let span = read_item_at(bytes, pos);
    proof {
        reveal_with_fuel(pow256, 9);
        assert(bytes@.len() == size);
        if span is Some {
            lemma_item_sound(bytes@, pos as int);
        } else {
            assert forall|item: RlpItem| !#[trigger] encoded_at(bytes@, pos as int, item) by {
                if encoded_at(bytes@, pos as int, item) {
                    lemma_item_complete(bytes@, pos as int, item);
                }
            }
        }
    }
    span
}

fn read_items_at(bytes: &[u8], pos: usize, end: usize) -> (spans: Option<Vec<Span>>)
    requires
        end <= bytes.len(),
    ensures
        spans is Some <==> items_at(bytes@, pos as int, end as int) is Some,
        spans matches Some(v) ==> span_views(v@) == items_at(bytes@, pos as int, end as int).unwrap(),
        spans matches Some(v) ==> forall|i: int|
            0 <= i < v@.len() ==> pos <= (#[trigger] v@[i]).start <= v@[i].end <= end,
{
    let mut out: Vec<Span> = Vec::new();
    let mut at: usize = pos;
    while at < end
        invariant
            end <= bytes.len(),
            pos <= at,
            forall|i: int| 0 <= i < out@.len() ==> pos <= (#[trigger] out@[i]).start <= out@[i].end <= end,
            items_at(bytes@, pos as int, end as int) == (match items_at(
                bytes@,
                at as int,
                end as int,
            ) {
                Some(rest) => Some(span_views(out@) + rest),
                None => None,
            }),
        decreases end - at,
    {
        match read_item(bytes, at) {
            Some(span) => {
                if span.end > end {
                    return None;
                }
                proof {
                    let rest = items_at(bytes@, span.end as int, end as int);
                    if rest is Some {
                        assert(span_views(out@.push(span)) + rest.unwrap() =~= span_views(out@) + (
                        seq![span@] + rest.unwrap()));
                    }
                }
                out.push(span);
                at = span.end;
            },
            None => {
                return None;
            },
        }
    }
    if at > end {
        return None;
    }
    proof {
        assert(span_views(out@) + Seq::<SpanView>::empty() =~= span_views(out@));
    }
    Some(out)
}

/// Reads the items whose encodings fill `bytes` from `pos` up to `end`.
///
/// The result holds the spans of the items whose encodings, one after the
/// other, are the bytes of the range, and is `None` where the range is not
/// made of encodings of items.
pub fn read_items(bytes: &[u8], pos: usize, end: usize) -> (spans: Option<Vec<Span>>)
    requires
        end <= bytes.len(),
    ensures
        spans matches Some(v) ==> {
            &&& pos <= end
            &&& bytes@.subrange(pos as int, end as int) == encode_items(
                items_of(bytes@, span_views(v@)),
            )
            &&& forall|i: int|
                0 <= i < v@.len() ==> pos <= (#[trigger] v@[i]).start <= v@[i].end <= end
        },
        spans is None ==> pos > end || forall|items: Seq<RlpItem>|
            bytes@.subrange(pos as int, end as int) != #[trigger] encode_items(items),
        spans is Some <==> items_at(bytes@, pos as int, end as int) is Some,
        spans matches Some(v) ==> span_views(v@) == items_at(bytes@, pos as int, end as int).unwrap(),
{
    let size = bytes.len();
    let spans = read_items_at(bytes, pos, end);
    proof {
        reveal_with_fuel(pow256, 9);
        assert(bytes@.len() == size);
        if spans is Some {
            lemma_items_sound(bytes@, pos as int, end as int);
        } else if pos <= end {
            assert forall|items: Seq<RlpItem>|
                bytes@.subrange(pos as int, end as int) != #[trigger] encode_items(items) by {
                if bytes@.subrange(pos as int, end as int) == encode_items(items) {
                    assert(items_fit(items)) by {
                        assert forall|i: int| 0 <= i < items.len() implies (
                        #[trigger] items[i]).payload.len() < pow256(8) by {
                            lemma_items_len(items, i);
                        }
                    }
                    lemma_items_complete(bytes@, pos as int, end as int, items);
                }
            }
        }
    }
    spans
}

/// Reads `bytes` as the encoding of one list and returns the spans of its
/// items.  The result is `None` where `bytes` is not the encoding of a list.
pub fn read_list(bytes: &[u8]) -> (spans: Option<Vec<Span>>)
    ensures
        spans matches Some(v) ==> {
            &&& bytes@ == encode_list(encode_items(items_of(bytes@, span_views(v@))))
            &&& forall|i: int|
                0 <= i < v@.len() ==> (#[trigger] v@[i]).start <= v@[i].end <= bytes.len()
        },
        spans is None ==> forall|items: Seq<RlpItem>|
            bytes@ != #[trigger] encode_list(encode_items(items)),
        spans is Some <==> list_of(bytes@) is Some,
        spans matches Some(v) ==> list_of(bytes@) == Some(items_of(bytes@, span_views(v@))),
{
    let size = bytes.len();
    let spans = match read_item(bytes, 0) {
        Some(outer) => if outer.list && outer.end == bytes.len() {
            read_items(bytes, outer.start, outer.end)
        } else {
            None
        },
        None => None,
    };
    proof {
        reveal_with_fuel(pow256, 9);
        assert(bytes@.len() == size);
        if spans is Some {
            lemma_list_sound(bytes@);
        } else {
            assert forall|items: Seq<RlpItem>|
                bytes@ != #[trigger] encode_list(encode_items(items)) by {
                if bytes@ == encode_list(encode_items(items)) {
                    lemma_list_complete(items);
                }
            }
        }
    }
    spans
}

/// Reads `bytes` as the encoding of one string and returns the span of its
/// payload.  The result is `None` where `bytes` is not the encoding of a
/// string.
pub fn read_string(bytes: &[u8]) -> (span: Option<Span>)
    ensures
        span matches Some(sp) ==> sp.start <= sp.end <= bytes.len() && bytes@ == encode_string(
            bytes@.subrange(sp.start as int, sp.end as int),
        ),
        span is None ==> forall|s: Seq<u8>| bytes@ != #[trigger] encode_string(s),
        span is Some <==> string_of(bytes@) is Some,
        span matches Some(sp) ==> string_of(bytes@) == Some(
            bytes@.subrange(sp.start as int, sp.end as int),
        ),
{
    let size = bytes.len();
    let span = match read_item(bytes, 0) {
        Some(span) => if !span.list && span.end == bytes.len() {
            Some(span)
        } else {
            None
        },
        None => None,
    };
    proof {
        reveal_with_fuel(pow256, 9);
        assert(bytes@.len() == size);
        if span is Some {
            lemma_string_sound(bytes@);
        } else {
            assert forall|s: Seq<u8>| bytes@ != #[trigger] encode_string(s) by {
                if bytes@ == encode_string(s) {
                    assert(s.len() <= encode_string(s).len());
                    lemma_string_complete(s);
                }
            }
        }
    }
    span
}

} // verus!
