//! The fixed-size values of the state model: digests, addresses and 256-bit
//! numbers.
use vstd::prelude::*;
use crate::bytes::{
    be_fixed, be_value, lemma_be_fixed_of_value, lemma_be_value_bound,
    lemma_be_value_leading_zeros, lemma_be_value_lower_bound, lemma_be_value_zeros,
    lemma_pow256_monotonic, lemma_pow256_positive, pow256, slice_eq,
};

verus! {

/// A 32-byte content digest.
pub type Digest = [u8; 32];

/// A 20-byte account address.
pub type Address = [u8; 20];

/// An unsigned 256-bit number, held as its 32 big-endian bytes.
#[derive(Clone, Copy, Debug, PartialEq, Eq)]
pub struct U256 {
    pub bytes: [u8; 32],
}

impl View for U256 {
    type V = nat;

    open spec fn view(&self) -> nat {
        be_value(self.bytes@)
    }
}

impl U256 {
    /// Zero.
    pub fn zero() -> (z: U256)
        ensures
            z@ == 0,
    {
        let z = U256 { bytes: [0u8; 32] };
        proof {
            lemma_be_value_zeros(z.bytes@);
        }
        z
    }

    /// The number that `bytes` denotes when read big-endian.
    pub fn from_be_slice(bytes: &[u8]) -> (n: U256)
        requires
            bytes.len() <= 32,
        ensures
            n@ == be_value(bytes@),
    {
        let mut be = [0u8; 32];
        let len = bytes.len();
        let pad: usize = 32 - len;
        let mut i: usize = 0;
        while i < len
            invariant
                i <= len,
                len == bytes.len(),
                pad + len == 32,
                forall|j: int| 0 <= j < pad ==> be@[j] == 0,
                forall|j: int| 0 <= j < i ==> be@[pad + j] == bytes@[j],
            decreases len - i,
        {
            be[pad + i] = bytes[i];
            i += 1;
        }
        proof {
            let zeros = Seq::new(pad as nat, |j: int| 0u8);
            assert(be@ =~= zeros + bytes@);
            lemma_be_value_leading_zeros(zeros, bytes@);
        }
        U256 { bytes: be }
    }

    /// The 32 big-endian bytes of the number.
    pub fn to_be_bytes(&self) -> (out: [u8; 32])
        ensures
            out@ == be_fixed(self@, 32),
    {
        proof {
            lemma_be_fixed_of_value(self.bytes@);
        }
        self.bytes
    }

    /// Whether the number is zero.
    pub fn is_zero(&self) -> (z: bool)
        ensures
            z == (self@ == 0),
    {
        let mut i: usize = 0;
        while i < 32
            invariant
                i <= 32,
                forall|j: int| 0 <= j < i ==> self.bytes@[j] == 0,
            decreases 32 - i,
        {
            if self.bytes[i] != 0 {
                proof {
                    let zeros = self.bytes@.subrange(0, i as int);
                    let rest = self.bytes@.subrange(i as int, 32);
                    assert(self.bytes@ =~= zeros + rest);
                    lemma_be_value_leading_zeros(zeros, rest);
                    lemma_be_value_lower_bound(rest);
                    lemma_pow256_positive((rest.len() - 1) as nat);
                }
                return false;
            }
            i += 1;
        }
        proof {
            lemma_be_value_zeros(self.bytes@);
        }
        true
    }
}

/// Two 256-bit numbers are the same value exactly when they denote the same
/// number.
pub proof fn lemma_u256_view_injective(a: U256, b: U256)
    ensures
        a@ == b@ <==> a == b,
{
    lemma_be_fixed_of_value(a.bytes@);
    lemma_be_fixed_of_value(b.bytes@);
    if a@ == b@ {
        assert(a.bytes@ == b.bytes@);
        assert(a.bytes =~= b.bytes);
    }
}

/// Whether two digests are the same.
pub fn digest_eq(a: &Digest, b: &Digest) -> (same: bool)
    ensures
        same == (a@ == b@),
{
    slice_eq(a.as_slice(), b.as_slice())
}

/// The number that at most eight bytes denote when read big-endian.
pub fn u64_from_be(bytes: &[u8]) -> (n: u64)
    requires
        bytes.len() <= 8,
    ensures
        n == be_value(bytes@),
{
    let mut acc: u64 = 0;
    let mut i: usize = 0;
    while i < bytes.len()
        invariant
            i <= bytes.len() <= 8,
            acc == be_value(bytes@.take(i as int)),
        decreases bytes.len() - i,
    {
        proof {
            let head = bytes@.take(i as int);
            lemma_be_value_bound(head);
            lemma_pow256_monotonic(head.len(), 7);
            reveal_with_fuel(pow256, 8);
            assert(pow256(7) == 0x100_0000_0000_0000);
            assert(bytes@.take(i + 1).drop_last() =~= head);
        }
        acc = acc * 256 + bytes[i] as u64;
        i += 1;
    }
    assert(bytes@.take(i as int) =~= bytes@);
    acc
}

} // verus!
