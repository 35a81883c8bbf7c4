//! A map from byte strings to values, held in buckets chosen by the first two
//! bytes of the key.
use vstd::prelude::*;
use crate::bytes::slice_eq;

verus! {

/// The number of buckets of a [`ByteMap`].
pub const BUCKETS: usize = 65536;

/// The bucket in which a key is kept.
pub open spec fn bucket_of(key: Seq<u8>) -> int {
    if key.len() >= 2 {
        key[0] as int * 256 + key[1] as int
    } else if key.len() == 1 {
        key[0] as int
    } else {
        0
    }
}

struct Entry<V> {
    key: Vec<u8>,
    value: V,
}

/// A finite map keyed by byte strings.
pub struct ByteMap<V> {
    buckets: Vec<Vec<Entry<V>>>,
}

fn bucket_index(key: &[u8]) -> (b: usize)
    ensures
        b == bucket_of(key@),
        b < BUCKETS,
{
    if key.len() >= 2 {
        (key[0] as usize) * 256 + (key[1] as usize)
    } else if key.len() == 1 {
        key[0] as usize
    } else {
        0
    }
}

impl<V> View for ByteMap<V> {
    type V = Map<Seq<u8>, V>;

    closed spec fn view(&self) -> Map<Seq<u8>, V> {
        Map::new(
            |k: Seq<u8>| exists|j: int| self.holds_at(k, j),
            |k: Seq<u8>| self.buckets@[bucket_of(k)]@[choose|j: int| self.holds_at(k, j)].value,
        )
    }
}

impl<V> ByteMap<V> {
    /// Whether position `j` of the key's bucket holds the key.
    spec fn holds_at(&self, key: Seq<u8>, j: int) -> bool {
        &&& 0 <= j < self.buckets@[bucket_of(key)]@.len()
        &&& self.buckets@[bucket_of(key)]@[j].key@ == key
    }

    /// The invariant of the map: every key lies in its own bucket, and no key
    /// occurs twice.
    pub closed spec fn wf(&self) -> bool {
        &&& self.buckets@.len() == BUCKETS
        &&& forall|b: int, j: int|
            0 <= b < BUCKETS && 0 <= j < self.buckets@[b]@.len() ==> bucket_of(
                #[trigger] self.buckets@[b]@[j].key@,
            ) == b
        &&& forall|b: int, i: int, j: int|
            0 <= b < BUCKETS && 0 <= i < j < self.buckets@[b]@.len()
                ==> #[trigger] self.buckets@[b]@[i].key@ != #[trigger] self.buckets@[b]@[j].key@
    }

    proof fn lemma_present(&self, key: Seq<u8>, j: int)
        requires
            self.wf(),
            self.holds_at(key, j),
        ensures
            self@.dom().contains(key),
            self@[key] == self.buckets@[bucket_of(key)]@[j].value,
    {
        let c = choose|c: int| self.holds_at(key, c);
        assert(0 <= bucket_of(key) < BUCKETS);
        if c < j {
            assert(self.buckets@[bucket_of(key)]@[c].key@ != self.buckets@[bucket_of(key)]@[j].key@);
        } else if j < c {
            assert(self.buckets@[bucket_of(key)]@[j].key@ != self.buckets@[bucket_of(key)]@[c].key@);
        }
    }

    proof fn lemma_absent(&self, key: Seq<u8>)
        requires
            forall|j: int| !self.holds_at(key, j),
        ensures
            !self@.dom().contains(key),
    {
    }

    /// The empty map.
    pub fn new() -> (m: ByteMap<V>)
        ensures
            m.wf(),
            m@ == Map::<Seq<u8>, V>::empty(),
    {
        let mut buckets: Vec<Vec<Entry<V>>> = Vec::with_capacity(BUCKETS);
        let mut i: usize = 0;
        while i < BUCKETS
            invariant
                i <= BUCKETS,
                buckets@.len() == i,
                forall|b: int| 0 <= b < i ==> (#[trigger] buckets@[b])@.len() == 0,
            decreases BUCKETS - i,
        {
            buckets.push(Vec::new());
            i += 1;
        }
        let m = ByteMap { buckets };
        proof {
            assert forall|k: Seq<u8>| !m@.dom().contains(k) by {
                assert(0 <= bucket_of(k) < BUCKETS);
                m.lemma_absent(k);
            }
            assert(m@ =~= Map::<Seq<u8>, V>::empty());
        }
        m
    }

    /// The position of `key` in bucket `b`, if the bucket holds it.
    fn position(&self, b: usize, key: &[u8]) -> (p: Option<usize>)
        requires
            self.wf(),
            b == bucket_of(key@),
        ensures
            match p {
                Some(j) => self.holds_at(key@, j as int),
                None => forall|j: int| !self.holds_at(key@, j),
            },
    {
        let bucket = &self.buckets[b];
        let mut j: usize = 0;
        while j < bucket.len()
            invariant
                j <= bucket@.len(),
                bucket == self.buckets@[b as int],
                b == bucket_of(key@),
                forall|i: int| 0 <= i < j ==> bucket@[i].key@ != key@,
            decreases bucket@.len() - j,
        {
            if slice_eq(bucket[j].key.as_slice(), key) {
                return Some(j);
            }
            j += 1;
        }
        None
    }

    /// The value kept under `key`, if there is one.
    pub fn get(&self, key: &[u8]) -> (found: Option<&V>)
        requires
            self.wf(),
        ensures
            found == (if self@.dom().contains(key@) {
                Some(&self@[key@])
            } else {
                None
            }),
    {
        let b = bucket_index(key);
        match self.position(b, key) {
            Some(j) => {
                proof {
                    self.lemma_present(key@, j as int);
                }
                Some(&self.buckets[b][j].value)
            },
            None => {
                proof {
                    self.lemma_absent(key@);
                }
                None
            },
        }
    }

    /// Whether a value is kept under `key`.
    pub fn contains_key(&self, key: &[u8]) -> (present: bool)
        requires
            self.wf(),
        ensures
            present == self@.dom().contains(key@),
    {
        self.get(key).is_some()
    }

    /// Keeps `value` under `key`, in place of any value kept there before.
    pub fn insert(&mut self, key: Vec<u8>, value: V)
        requires
            old(self).wf(),
        ensures
            final(self).wf(),
            final(self)@ == old(self)@.insert(key@, value),
    {
        let b = bucket_index(key.as_slice());
        let ghost before = *self;
        match self.position(b, key.as_slice()) {
            Some(j) => {
                self.buckets[b][j].value = value;
                proof {
                    assert forall|k: Seq<u8>, i: int| self.holds_at(k, i) <==> before.holds_at(k, i) by {
                        assert(0 <= bucket_of(k) < BUCKETS);
                    }
                    assert(self.wf());
                    assert forall|k: Seq<u8>| #[trigger] self@.dom().contains(k) <==> before@.insert(key@, value).dom().contains(k) by {
                        if before@.dom().contains(k) {
                            let i = choose|i: int| before.holds_at(k, i);
                            assert(self.holds_at(k, i));
                        }
                        if k == key@ {
                            assert(self.holds_at(k, j as int));
                        }
                        if self@.dom().contains(k) {
                            let i = choose|i: int| self.holds_at(k, i);
                            assert(before.holds_at(k, i));
                        }
                    }
                    assert forall|k: Seq<u8>| self@.dom().contains(k) implies #[trigger] self@[k] == before@.insert(key@, value)[k] by {
                        let i = choose|i: int| self.holds_at(k, i);
                        self.lemma_present(k, i);
                        assert(before.holds_at(k, i));
                        before.lemma_present(k, i);
                        assert(0 <= bucket_of(k) < BUCKETS);
                        if k == key@ {
                            self.lemma_present(k, j as int);
                        }
                    }
                    assert(self@ =~= before@.insert(key@, value));
                }
            },
            None => {
                let ghost at = self.buckets@[b as int]@.len() as int;
                let ghost entry_key = key@;
                self.buckets[b].push(Entry { key, value });
                proof {
                    assert forall|k: Seq<u8>, i: int| before.holds_at(k, i) implies self.holds_at(k, i) by {
                        assert(0 <= bucket_of(k) < BUCKETS);
                    }
                    assert forall|k: Seq<u8>, i: int| self.holds_at(k, i) implies (before.holds_at(k, i) || (k == entry_key && i == at)) by {
                        assert(0 <= bucket_of(k) < BUCKETS);
                    }
                    assert(self.holds_at(entry_key, at));
                    assert(self.wf()) by {
                        assert forall|c: int, i: int|
                            0 <= c < BUCKETS && 0 <= i < self.buckets@[c]@.len() implies bucket_of(
                                #[trigger] self.buckets@[c]@[i].key@,
                            ) == c by {
                            if c == b && i == at {
                            } else {
                                assert(self.buckets@[c]@[i] == before.buckets@[c]@[i]);
                            }
                        }
                        assert forall|c: int, i: int, j: int|
                            0 <= c < BUCKETS && 0 <= i < j < self.buckets@[c]@.len()
                                implies #[trigger] self.buckets@[c]@[i].key@ != #[trigger] self.buckets@[c]@[j].key@ by {
                            if c == b && j == at {
                                assert(!before.holds_at(entry_key, i));
                            } else {
                                assert(self.buckets@[c]@[i] == before.buckets@[c]@[i]);
                                assert(self.buckets@[c]@[j] == before.buckets@[c]@[j]);
                            }
                        }
                    }
                    assert forall|k: Seq<u8>| #[trigger] self@.dom().contains(k) <==> before@.insert(entry_key, value).dom().contains(k) by {
                        if before@.dom().contains(k) {
                            let i = choose|i: int| before.holds_at(k, i);
                            assert(self.holds_at(k, i));
                        }
                        if self@.dom().contains(k) {
                            let i = choose|i: int| self.holds_at(k, i);
                            assert(before.holds_at(k, i) || k == entry_key);
                        }
                    }
                    assert forall|k: Seq<u8>| self@.dom().contains(k) implies #[trigger] self@[k] == before@.insert(entry_key, value)[k] by {
                        let i = choose|i: int| self.holds_at(k, i);
                        self.lemma_present(k, i);
                        assert(0 <= bucket_of(k) < BUCKETS);
                        if k == entry_key {
                            self.lemma_present(k, at);
                        } else {
                            assert(before.holds_at(k, i));
                            before.lemma_present(k, i);
                        }
                    }
                    assert(self@ =~= before@.insert(entry_key, value));
                }
            },
        }
    }
}

} // verus!
