//! Byte strings as numbers, and a few executable helpers on byte slices.
use vstd::prelude::*;

verus! {

/// The number that `s` denotes when it is read big-endian.
pub open spec fn be_value(s: Seq<u8>) -> nat
    decreases s.len(),
{
    if s.len() == 0 {
        0
    } else {
        be_value(s.drop_last()) * 256 + s.last() as nat
    }
}

/// The shortest big-endian byte string that denotes `n`: it is empty for zero
/// and starts with a byte other than zero otherwise.
pub open spec fn be_minimal(n: nat) -> Seq<u8>
    decreases n,
{
    if n == 0 {
        Seq::empty()
    } else {
        be_minimal(n / 256).push((n % 256) as u8)
    }
}

/// The big-endian byte string of exactly `len` bytes that denotes `n` modulo
/// `256^len`.
pub open spec fn be_fixed(n: nat, len: nat) -> Seq<u8>
    decreases len,
{
    if len == 0 {
        Seq::empty()
    } else {
        be_fixed(n / 256, (len - 1) as nat).push((n % 256) as u8)
    }
}

/// Whether a byte string has no zero byte in front, so that it is the
/// shortest string of the number it denotes.
pub open spec fn is_minimal(s: Seq<u8>) -> bool {
    s.len() == 0 || s[0] != 0
}

/// `256^k`.
pub open spec fn pow256(k: nat) -> nat
    decreases k,
{
    if k == 0 {
        1
    } else {
        256 * pow256((k - 1) as nat)
    }
}

/// A byte string of `len` bytes denotes a number below `256^len`.
pub proof fn lemma_be_value_bound(s: Seq<u8>)
    ensures
        be_value(s) < pow256(s.len()),
    decreases s.len(),
{
    if s.len() > 0 {
        lemma_be_value_bound(s.drop_last());
    }
}

/// Appending one byte shifts the number by one byte and adds the new one.
pub proof fn lemma_be_value_push(s: Seq<u8>, b: u8)
    ensures
        be_value(s.push(b)) == be_value(s) * 256 + b as nat,
{
    assert(s.push(b).drop_last() =~= s);
}

/// Zero bytes in front do not change the number.
pub proof fn lemma_be_value_leading_zeros(zeros: Seq<u8>, s: Seq<u8>)
    requires
        forall|i: int| 0 <= i < zeros.len() ==> zeros[i] == 0,
    ensures
        be_value(zeros + s) == be_value(s),
    decreases s.len(),
{
    if s.len() == 0 {
        assert(zeros + s =~= zeros);
        lemma_be_value_zeros(zeros);
    } else {
        assert((zeros + s).drop_last() =~= zeros + s.drop_last());
        lemma_be_value_leading_zeros(zeros, s.drop_last());
    }
}

/// A string of zero bytes denotes zero.
pub proof fn lemma_be_value_zeros(zeros: Seq<u8>)
    requires
        forall|i: int| 0 <= i < zeros.len() ==> zeros[i] == 0,
    ensures
        be_value(zeros) == 0,
    decreases zeros.len(),
{
    if zeros.len() > 0 {
        lemma_be_value_zeros(zeros.drop_last());
    }
}

/// A string whose first byte is not zero denotes at least `256^(len - 1)`.
pub proof fn lemma_be_value_lower_bound(s: Seq<u8>)
    requires
        s.len() > 0,
        s[0] != 0,
    ensures
        be_value(s) >= pow256((s.len() - 1) as nat),
    decreases s.len(),
{
    if s.len() == 1 {
        assert(s.drop_last().len() == 0);
        assert(be_value(s.drop_last()) == 0);
    } else {
        lemma_be_value_lower_bound(s.drop_last());
    }
}

/// The shortest string of a number denotes that number.
pub proof fn lemma_be_minimal_value(n: nat)
    ensures
        be_value(be_minimal(n)) == n,
    decreases n,
{
    if n != 0 {
        lemma_be_minimal_value(n / 256);
        lemma_be_value_push(be_minimal(n / 256), (n % 256) as u8);
    }
}

/// The shortest string of a number other than zero starts with a byte other
/// than zero.
pub proof fn lemma_be_minimal_canonical(n: nat)
    ensures
        n == 0 <==> be_minimal(n).len() == 0,
        n > 0 ==> be_minimal(n)[0] != 0,
    decreases n,
{
    if n != 0 {
        lemma_be_minimal_canonical(n / 256);
        if n / 256 == 0 {
            assert(be_minimal(n / 256).len() == 0);
            assert(be_minimal(n)[0] == (n % 256) as u8);
        } else {
            assert(be_minimal(n)[0] == be_minimal(n / 256)[0]);
        }
    }
}

/// A string without a leading zero byte is the shortest string of the number
/// it denotes.
pub proof fn lemma_be_value_minimal(s: Seq<u8>)
    requires
        s.len() > 0 ==> s[0] != 0,
    ensures
        be_minimal(be_value(s)) == s,
    decreases s.len(),
{
    if s.len() > 0 {
        let v = be_value(s);
        let head = s.drop_last();
        assert(v / 256 == be_value(head));
        assert(v % 256 == s.last() as nat);
        if head.len() > 0 {
            lemma_be_value_lower_bound(s);
            lemma_pow256_positive((s.len() - 1) as nat);
            lemma_be_value_minimal(head);
        } else {
            assert(be_value(head) == 0);
            assert(v == s[0] as nat);
            assert(be_minimal(v / 256).len() == 0);
        }
        assert(be_minimal(v) =~= s);
    }
}

/// `256^k` is positive.
pub proof fn lemma_pow256_positive(k: nat)
    ensures
        pow256(k) >= 1,
    decreases k,
{
    if k > 0 {
        lemma_pow256_positive((k - 1) as nat);
    }
}

/// `256^k` grows with `k`.
pub proof fn lemma_pow256_monotonic(j: nat, k: nat)
    requires
        j <= k,
    ensures
        pow256(j) <= pow256(k),
    decreases k,
{
    if j < k {
        lemma_pow256_monotonic(j, (k - 1) as nat);
        lemma_pow256_positive((k - 1) as nat);
    }
}

/// The shortest string of `n` has at most `k` bytes exactly when `n` is below
/// `256^k`.
pub proof fn lemma_be_minimal_len(n: nat, k: nat)
    ensures
        be_minimal(n).len() <= k <==> n < pow256(k),
    decreases n,
{
    lemma_pow256_positive(k);
    if n != 0 {
        if k == 0 {
        } else {
            lemma_be_minimal_len(n / 256, (k - 1) as nat);
        }
    }
}

/// A string is the fixed-width string of the number it denotes.
pub proof fn lemma_be_fixed_of_value(s: Seq<u8>)
    ensures
        be_fixed(be_value(s), s.len()) == s,
    decreases s.len(),
{
    if s.len() > 0 {
        let v = be_value(s);
        assert(v / 256 == be_value(s.drop_last()));
        assert(v % 256 == s.last() as nat);
        lemma_be_fixed_of_value(s.drop_last());
        assert(be_fixed(v, s.len()) =~= s);
    }
}

/// The byte strings that a sequence of byte vectors holds.
pub open spec fn byte_strings(blobs: Seq<Vec<u8>>) -> Seq<Seq<u8>> {
    blobs.map_values(|blob: Vec<u8>| blob@)
}

/// Whether two byte slices hold the same bytes.
pub fn slice_eq(a: &[u8], b: &[u8]) -> (same: bool)
    ensures
        same == (a@ == b@),
{
    if a.len() != b.len() {
        return false;
    }
    let mut i: usize = 0;
    while i < a.len()
        invariant
            i <= a.len(),
            a.len() == b.len(),
            forall|j: int| 0 <= j < i ==> a@[j] == b@[j],
        decreases a.len() - i,
    {
        if a[i] != b[i] {
            return false;
        }
        i += 1;
    }
    assert(a@ =~= b@);
    true
}

/// A copy of the bytes of `bytes` from `start` up to `end`.
pub fn copy_range(bytes: &[u8], start: usize, end: usize) -> (out: Vec<u8>)
    requires
        start <= end <= bytes.len(),
    ensures
        out@ == bytes@.subrange(start as int, end as int),
{
    let mut out: Vec<u8> = Vec::with_capacity(end - start);
    let mut i: usize = start;
    while i < end
        invariant
            start <= i <= end <= bytes.len(),
            out@ == bytes@.subrange(start as int, i as int),
        decreases end - i,
    {
        out.push(bytes[i]);
        i += 1;
        assert(out@ =~= bytes@.subrange(start as int, i as int));
    }
    out
}

} // verus!
