//! The storage slots that a witness names, grouped by account.
use vstd::prelude::*;
use vstd::slice::slice_to_vec;
use crate::bytemap::ByteMap;
use crate::primitives::{Address, U256};

verus! {

/// The numbers that a sequence of 256-bit values denotes.
pub open spec fn slot_values(slots: Seq<U256>) -> Seq<nat> {
    slots.map_values(|slot: U256| slot@)
}

/// A map from account addresses to the storage slots named for each.
pub struct StorageMap {
    slots: ByteMap<Vec<U256>>,
    order: Vec<Address>,
}

impl View for StorageMap {
    type V = Map<Seq<u8>, Seq<nat>>;

    closed spec fn view(&self) -> Map<Seq<u8>, Seq<nat>> {
        Map::new(
            |a: Seq<u8>| self.slots@.dom().contains(a),
            |a: Seq<u8>| slot_values(self.slots@[a]@),
        )
    }
}

impl StorageMap {
    /// The addresses of the map, each once, in the order in which they first
    /// came in.
    pub closed spec fn addresses(&self) -> Seq<Seq<u8>> {
        Seq::new(self.order@.len(), |i: int| self.order@[i]@)
    }

    /// The invariant of the map: its list of addresses holds exactly the keys
    /// of the map, each once.
    pub closed spec fn wf(&self) -> bool {
        &&& self.slots.wf()
        &&& forall|i: int, j: int|
            0 <= i < j < self.order@.len() ==> self.order@[i]@ != self.order@[j]@
        &&& forall|i: int|
            0 <= i < self.order@.len() ==> self.slots@.dom().contains(#[trigger] self.order@[i]@)
        &&& forall|a: Seq<u8>| #[trigger]
            self.slots@.dom().contains(a) ==> exists|i: int|
                0 <= i < self.order@.len() && #[trigger] self.order@[i]@ == a
    }

    /// The list of addresses names every key of the map once, and nothing
    /// else; every key is 20 bytes long.
    pub proof fn lemma_addresses(&self)
        requires
            self.wf(),
        ensures
            self.addresses().no_duplicates(),
            forall|a: Seq<u8>| self.addresses().contains(a) <==> self@.dom().contains(a),
            forall|a: Seq<u8>| self@.dom().contains(a) ==> a.len() == 20,
    {
        let addrs = self.addresses();
        assert forall|a: Seq<u8>| addrs.contains(a) <==> self@.dom().contains(a) by {
            if addrs.contains(a) {
                let i = choose|i: int| 0 <= i < addrs.len() && addrs[i] == a;
                assert(self.slots@.dom().contains(self.order@[i]@));
            }
            if self@.dom().contains(a) {
                assert(self.slots@.dom().contains(a));
                let i = choose|i: int| 0 <= i < self.order@.len() && #[trigger] self.order@[i]@ == a;
                assert(addrs[i] == a);
            }
        }
        assert forall|a: Seq<u8>| self@.dom().contains(a) implies a.len() == 20 by {
            assert(self.slots@.dom().contains(a));
            let i = choose|i: int| 0 <= i < self.order@.len() && #[trigger] self.order@[i]@ == a;
        }
    }

    /// The empty map.
    pub fn new() -> (m: StorageMap)
        ensures
            m.wf(),
            m@ == Map::<Seq<u8>, Seq<nat>>::empty(),
    {
        let m = StorageMap { slots: ByteMap::new(), order: Vec::new() };
        assert(m@ =~= Map::<Seq<u8>, Seq<nat>>::empty());
        m
    }

    /// Keeps `slots` under `address`, in place of any slots kept there before.
    pub fn insert(&mut self, address: Address, slots: Vec<U256>)
        requires
            old(self).wf(),
        ensures
            final(self).wf(),
            final(self)@ == old(self)@.insert(address@, slot_values(slots@)),
    {
        let ghost before = *self;
        let ghost values = slot_values(slots@);
        let known = self.slots.contains_key(address.as_slice());
        self.slots.insert(slice_to_vec(address.as_slice()), slots);
        if !known {
            self.order.push(address);
        }
        proof {
            assert forall|a: Seq<u8>| #[trigger]
                self.slots@.dom().contains(a) implies exists|i: int|
                0 <= i < self.order@.len() && #[trigger] self.order@[i]@ == a by {
                if a == address@ && !known {
                    assert(self.order@[self.order@.len() - 1]@ == a);
                } else {
                    assert(before.slots@.dom().contains(a));
                    let i = choose|i: int|
                        0 <= i < before.order@.len() && #[trigger] before.order@[i]@ == a;
                    assert(self.order@[i]@ == a);
                }
            }
            assert(self@ =~= before@.insert(address@, values));
        }
    }

    /// The number of accounts in the map.
    pub fn len(&self) -> (n: usize)
        requires
            self.wf(),
        ensures
            n == self.addresses().len(),
    {
        self.order.len()
    }

    /// The address at position `i` of the list of addresses.
    pub fn address(&self, i: usize) -> (a: Address)
        requires
            self.wf(),
            i < self.addresses().len(),
        ensures
            a@ == self.addresses()[i as int],
            self@.dom().contains(a@),
    {
        self.order[i]
    }

    /// The slots kept under `address`, if the map holds the address.
    pub fn get(&self, address: &Address) -> (found: Option<&Vec<U256>>)
        requires
            self.wf(),
        ensures
            found is Some <==> self@.dom().contains(address@),
            found is Some ==> slot_values(found->0@) == self@[address@],
    {
        self.slots.get(address.as_slice())
    }
}

} // verus!
