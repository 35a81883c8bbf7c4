//! Storage values, as the leaves of a storage trie hold them.
use vstd::prelude::*;
use crate::bytes::{
    be_minimal, be_value, is_minimal, lemma_be_minimal_canonical, lemma_be_minimal_len,
    lemma_be_minimal_value, lemma_be_value_bound, lemma_be_value_minimal, lemma_pow256_monotonic,
    pow256,
};
use crate::primitives::U256;
use crate::rlp::{
    encode_string, lemma_string_complete, lemma_string_sound, read_string, string_of,
};

verus! {

/// The serialization of a storage value: the string of its shortest
/// big-endian form.
pub open spec fn encode_slot_value(value: nat) -> Seq<u8> {
    encode_string(be_minimal(value))
}

/// The storage value that `bytes` is the serialization of, if it is one.
pub open spec fn slot_value_of(bytes: Seq<u8>) -> Option<nat> {
    match string_of(bytes) {
        Some(s) => if is_minimal(s) && s.len() <= 32 {
            Some(be_value(s))
        } else {
            None
        },
        None => None,
    }
}

/// Bytes that decode to a storage value are the serialization of that value,
/// and the value fits 256 bits.
pub proof fn lemma_decoded_slot_encodes(bytes: Seq<u8>)
    requires
        slot_value_of(bytes) is Some,
    ensures
        slot_value_of(bytes).unwrap() < pow256(32),
        encode_slot_value(slot_value_of(bytes).unwrap()) == bytes,
{
    let s = string_of(bytes).unwrap();
    lemma_string_sound(bytes);
    lemma_be_value_minimal(s);
    lemma_be_value_bound(s);
    lemma_pow256_monotonic(s.len(), 32);
}

/// The serialization of a storage value that fits 256 bits decodes to that
/// value.
pub proof fn lemma_encoded_slot_decodes(value: nat)
    requires
        value < pow256(32),
    ensures
        slot_value_of(encode_slot_value(value)) == Some(value),
{
    lemma_be_minimal_len(value, 32);
    lemma_be_minimal_canonical(value);
    lemma_be_minimal_value(value);
    reveal_with_fuel(pow256, 9);
    lemma_string_complete(be_minimal(value));
}

/// Decodes the payload of a leaf of a storage trie into a storage value.
///
/// The result is the one value below `2^256` whose serialization is `bytes`,
/// and `None` where there is none.
pub fn decode_slot_value(bytes: &[u8]) -> (value: Option<U256>)
    ensures
        value matches Some(v) ==> encode_slot_value(v@) == bytes@,
        value is None ==> forall|v: nat|
            v < pow256(32) ==> #[trigger] encode_slot_value(v) != bytes@,
        value matches Some(v) ==> slot_value_of(bytes@) == Some(v@),
        value is None ==> slot_value_of(bytes@) is None,
{
    let value = match read_string(bytes) {
        Some(span) => {
            let len = span.end - span.start;
            if len > 32 {
                None
            } else if len > 0 && bytes[span.start] == 0 {
                assert(bytes@.subrange(span.start as int, span.end as int)[0] == 0);
                None
            } else {
                if len > 0 {
                    assert(bytes@.subrange(span.start as int, span.end as int)[0]
                        == bytes@[span.start as int]);
                }
                Some(U256::from_be_slice(vstd::slice::slice_subrange(bytes, span.start, span.end)))
            }
        },
        None => None,
    };
    proof {
        if value is Some {
            lemma_decoded_slot_encodes(bytes@);
        } else {
            assert forall|v: nat| v < pow256(32) implies #[trigger] encode_slot_value(v)
                != bytes@ by {
                if encode_slot_value(v) == bytes@ {
                    lemma_encoded_slot_decodes(v);
                }
            }
        }
    }
    value
}

} // verus!
