//! Paths through the trie: sequences of nibbles, and their compact encoding.
use vstd::prelude::*;

verus! {

/// Whether every element of `path` is a nibble, a value below 16.
pub open spec fn is_nibbles(path: Seq<u8>) -> bool {
    forall|i: int| 0 <= i < path.len() ==> path[i] < 16
}

/// The nibbles of a byte string: two for each byte, the high one first.
pub open spec fn unpack(bytes: Seq<u8>) -> Seq<u8> {
    Seq::new(
        2 * bytes.len(),
        |i: int|
            if i % 2 == 0 {
                bytes[i / 2] / 16
            } else {
                bytes[i / 2] % 16
            },
    )
}

/// The bytes that an even number of nibbles make, two nibbles to a byte.
pub open spec fn pack(nibbles: Seq<u8>) -> Seq<u8> {
    Seq::new(nibbles.len() / 2, |i: int| (nibbles[2 * i] * 16 + nibbles[2 * i + 1]) as u8)
}

/// The compact encoding of a path.  The high nibble of the first byte tells
/// whether the path ends in a leaf (2) and whether its length is odd (1); an
/// odd path has its first nibble in the low half of that byte, an even one
/// has zero there.  The other nibbles follow, two to a byte.
pub open spec fn compact(path: Seq<u8>, leaf: bool) -> Seq<u8> {
    let flag: int = if leaf {
        2
    } else {
        0
    };
    if path.len() % 2 == 0 {
        seq![(16 * flag) as u8] + pack(path)
    } else {
        seq![(16 * (flag + 1) + path[0]) as u8] + pack(path.skip(1))
    }
}

/// A path and the kind of node it ends in.
pub struct PathView {
    pub leaf: bool,
    pub nibbles: Seq<u8>,
}

/// The path that `encoded` is the compact encoding of, if it is one.
pub open spec fn path_of(encoded: Seq<u8>) -> Option<PathView> {
    if encoded.len() == 0 {
        None
    } else {
        let kind = encoded[0] / 16;
        let low = encoded[0] % 16;
        let rest = unpack(encoded.skip(1));
        if kind >= 4 {
            None
        } else if kind % 2 == 1 {
            Some(PathView { leaf: kind >= 2, nibbles: seq![low] + rest })
        } else if low != 0 {
            None
        } else {
            Some(PathView { leaf: kind >= 2, nibbles: rest })
        }
    }
}

/// Packing the nibbles of a byte string gives the byte string back.
pub proof fn lemma_pack_unpack(bytes: Seq<u8>)
    ensures
        is_nibbles(unpack(bytes)),
        unpack(bytes).len() == 2 * bytes.len(),
        pack(unpack(bytes)) == bytes,
{
    let nibbles = unpack(bytes);
    assert forall|i: int| 0 <= i < bytes.len() implies pack(nibbles)[i] == bytes[i] by {
        assert(nibbles[2 * i] == bytes[i] / 16);
        assert(nibbles[2 * i + 1] == bytes[i] % 16);
    }
    assert(pack(nibbles) =~= bytes);
}

/// Unpacking the bytes that an even number of nibbles make gives the nibbles
/// back.
pub proof fn lemma_unpack_pack(nibbles: Seq<u8>)
    requires
        is_nibbles(nibbles),
        nibbles.len() % 2 == 0,
    ensures
        unpack(pack(nibbles)) == nibbles,
{
    let bytes = pack(nibbles);
    assert forall|i: int| 0 <= i < nibbles.len() implies unpack(bytes)[i] == nibbles[i] by {
        let k = i / 2;
        assert(bytes[k] == (nibbles[2 * k] * 16 + nibbles[2 * k + 1]) as u8);
        assert(nibbles[2 * k] < 16 && nibbles[2 * k + 1] < 16);
    }
    assert(unpack(bytes) =~= nibbles);
}

/// A path that is read from a compact encoding is made of nibbles, and the
/// bytes are its compact encoding.
pub proof fn lemma_path_sound(encoded: Seq<u8>)
    requires
        path_of(encoded) is Some,
    ensures
        is_nibbles(path_of(encoded).unwrap().nibbles),
        compact(path_of(encoded).unwrap().nibbles, path_of(encoded).unwrap().leaf) == encoded,
{
    let path = path_of(encoded).unwrap();
    let rest = encoded.skip(1);
    lemma_pack_unpack(rest);
    if path.nibbles.len() % 2 == 1 {
        assert(path.nibbles.skip(1) =~= unpack(rest));
    }
    assert(compact(path.nibbles, path.leaf) =~= encoded);
}

/// The compact encoding of a path reads back as that path.
pub proof fn lemma_path_complete(nibbles: Seq<u8>, leaf: bool)
    requires
        is_nibbles(nibbles),
    ensures
        path_of(compact(nibbles, leaf)) == Some(PathView { leaf, nibbles }),
{
    let encoded = compact(nibbles, leaf);
    if nibbles.len() % 2 == 0 {
        assert(encoded.skip(1) =~= pack(nibbles));
        lemma_unpack_pack(nibbles);
    } else {
        assert(encoded.skip(1) =~= pack(nibbles.skip(1)));
        lemma_unpack_pack(nibbles.skip(1));
        assert(nibbles[0] < 16);
        assert(seq![nibbles[0]] + nibbles.skip(1) =~= nibbles);
    }
}

/// The nibbles of `bytes`: two for each byte, the high one first.
pub fn to_nibbles(bytes: &[u8]) -> (nibbles: Vec<u8>)
    ensures
        nibbles@ == unpack(bytes@),
{
    let mut nibbles: Vec<u8> = Vec::new();
    let mut i: usize = 0;
    while i < bytes.len()
        invariant
            i <= bytes.len(),
            nibbles@ == unpack(bytes@.take(i as int)),
        decreases bytes.len() - i,
    {
        nibbles.push(bytes[i] / 16);
        nibbles.push(bytes[i] % 16);
        i += 1;
        assert(nibbles@ =~= unpack(bytes@.take(i as int)));
    }
    assert(bytes@.take(i as int) =~= bytes@);
    nibbles
}

fn read_path_of(encoded: &[u8]) -> (path: Option<(bool, Vec<u8>)>)
    ensures
        path is Some <==> path_of(encoded@) is Some,
        path matches Some(p) ==> path_of(encoded@) == Some(PathView { leaf: p.0, nibbles: p.1@ }),
{
    if encoded.len() == 0 {
        return None;
    }
    let kind = encoded[0] / 16;
    let low = encoded[0] % 16;
    if kind >= 4 {
        return None;
    }
    let mut nibbles: Vec<u8> = Vec::new();
    if kind % 2 == 1 {
        nibbles.push(low);
    } else if low != 0 {
        return None;
    }
    let ghost head = nibbles@;
    let ghost rest = encoded@.skip(1);
    let mut i: usize = 1;
    while i < encoded.len()
        invariant
            1 <= i <= encoded.len(),
            rest == encoded@.skip(1),
            nibbles@ == head + unpack(rest.take(i - 1)),
        decreases encoded.len() - i,
    {
        nibbles.push(encoded[i] / 16);
        nibbles.push(encoded[i] % 16);
        i += 1;
        assert(nibbles@ =~= head + unpack(rest.take(i - 1)));
    }
    assert(rest.take(i - 1) =~= rest);
    assert(nibbles@ =~= head + unpack(rest));
    assert(Seq::<u8>::empty() + unpack(rest) =~= unpack(rest));
    Some((kind >= 2, nibbles))
}

/// Reads a compact encoding: whether the path ends in a leaf, and its nibbles.
///
/// The result is the one path of nibbles whose compact encoding is `encoded`,
/// and `None` where there is none.
pub fn read_path(encoded: &[u8]) -> (path: Option<(bool, Vec<u8>)>)
    ensures
        path matches Some(p) ==> is_nibbles(p.1@) && compact(p.1@, p.0) == encoded@,
        path is None ==> forall|nibbles: Seq<u8>, leaf: bool|
            is_nibbles(nibbles) ==> #[trigger] compact(nibbles, leaf) != encoded@,
        path is Some <==> path_of(encoded@) is Some,
        path matches Some(p) ==> path_of(encoded@) == Some(PathView { leaf: p.0, nibbles: p.1@ }),
{
    let path = read_path_of(encoded);
    proof {
        if path is Some {
            lemma_path_sound(encoded@);
        } else {
            assert forall|nibbles: Seq<u8>, leaf: bool| is_nibbles(nibbles) implies #[trigger] compact(
                nibbles,
                leaf,
            ) != encoded@ by {
                lemma_path_complete(nibbles, leaf);
            }
        }
    }
    path
}

} // verus!
