//! The execution witness, the state root that its ancestor headers declare,
//! and the storage slots that its keys name.
use vstd::prelude::*;
use crate::bytes::{be_value, byte_strings};
use crate::hash::{keccak256, keccak256_digest};
use crate::primitives::{Address, Digest, U256};
use crate::storage_map::{slot_values, StorageMap};

verus! {

/// The data from which a block's state reads are verified without the full
/// state: serialized trie nodes, contract bytecode, the keys that the block
/// touches and the serialized headers of its ancestors.
#[derive(Clone, Debug, Default)]
pub struct ExecutionWitness {
    /// Serialized trie nodes, in no particular order.
    pub state: Vec<Vec<u8>>,
    /// Contract bytecode.
    pub codes: Vec<Vec<u8>>,
    /// Account addresses (20 bytes), each followed by the storage slots
    /// (32 bytes) that are read of that account.
    pub keys: Vec<Vec<u8>>,
    /// Serialized headers of ancestor blocks.
    pub headers: Vec<Vec<u8>>,
}

/// What a serialized block header holds that state-root resolution needs, with
/// the digest of its bytes.
#[derive(Clone, Copy, Debug)]
pub struct AncestorHeader {
    /// The block number.
    pub number: u64,
    /// The root of the state trie after the block.
    pub state_root: Digest,
    /// The digest of the serialized header.
    pub hash: Digest,
}

/// The block number and state root of a serialized block header, or `None`
/// where the bytes are no block header.
pub uninterp spec fn header_fields(bytes: Seq<u8>) -> Option<(u64, Seq<u8>)>;

/// Calls `alloy_rlp::decode_exact` for `alloy_consensus::Header`.  The contract
/// names what the call computes from `bytes`: whether they decode, and if so
/// the `number` and `state_root` fields of the header.
#[verifier::external_body]
fn read_header_fields(bytes: &[u8]) -> (fields: Option<(u64, Digest)>)
    ensures
        fields is Some <==> header_fields(bytes@) is Some,
        fields matches Some(f) ==> header_fields(bytes@) == Some((f.0, f.1@)),
{
    match alloy_rlp::decode_exact::<alloy_consensus::Header>(bytes) {
        Ok(header) => Some((header.number, header.state_root.0)),
        Err(_) => None,
    }
}

/// The block number of a serialized header that decodes.
pub open spec fn header_number(bytes: Seq<u8>) -> u64 {
    header_fields(bytes).unwrap().0
}

/// The state root of a serialized header that decodes.
pub open spec fn header_state_root(bytes: Seq<u8>) -> Seq<u8> {
    header_fields(bytes).unwrap().1
}

/// Whether every one of the serialized headers decodes.
pub open spec fn headers_decode(headers: Seq<Seq<u8>>) -> bool {
    forall|i: int| 0 <= i < headers.len() ==> (#[trigger] header_fields(headers[i])) is Some
}

/// Whether position `i` holds the latest of the block numbers: the greatest
/// one, and of several equal ones the last.
pub open spec fn is_latest(numbers: Seq<u64>, i: int) -> bool {
    &&& 0 <= i < numbers.len()
    &&& forall|j: int| 0 <= j < numbers.len() ==> numbers[j] <= numbers[i]
    &&& forall|j: int| i < j < numbers.len() ==> numbers[j] < numbers[i]
}

/// The position of the latest block number.
pub open spec fn latest_index(numbers: Seq<u64>) -> int {
    choose|i: int| is_latest(numbers, i)
}

/// At most one position holds the latest block number, so it is the one that
/// `latest_index` names.
pub proof fn lemma_latest_unique(numbers: Seq<u64>, i: int)
    requires
        is_latest(numbers, i),
    ensures
        latest_index(numbers) == i,
{
    let c = latest_index(numbers);
    if c < i {
        assert(numbers[i] < numbers[c]);
    } else if i < c {
        assert(numbers[c] < numbers[i]);
    }
}

/// The block numbers of headers.
pub open spec fn numbers_of(headers: Seq<AncestorHeader>) -> Seq<u64> {
    headers.map_values(|h: AncestorHeader| h.number)
}

/// The block numbers of serialized headers that decode.
pub open spec fn header_numbers(headers: Seq<Seq<u8>>) -> Seq<u64> {
    headers.map_values(|bytes: Seq<u8>| header_number(bytes))
}

/// The state root that serialized ancestor headers declare: that of the header
/// with the latest block number.
pub open spec fn declared_state_root(headers: Seq<Seq<u8>>) -> Seq<u8> {
    header_state_root(headers[latest_index(header_numbers(headers))])
}

/// Whether `decoded` holds, position by position, the fields and the digest of
/// the serialized headers.
pub open spec fn headers_match(headers: Seq<Seq<u8>>, decoded: Seq<AncestorHeader>) -> bool {
    &&& decoded.len() == headers.len()
    &&& forall|i: int|
        0 <= i < headers.len() ==> {
            &&& header_fields(#[trigger] headers[i]) == Some(
                (decoded[i].number, decoded[i].state_root@),
            )
            &&& decoded[i].hash@ == keccak256_digest(headers[i])
        }
}

/// Decodes every ancestor header of the witness and takes the digest of each.
/// The result is `None` exactly when one of them does not decode.
pub fn decode_ancestor_headers(witness: &ExecutionWitness) -> (decoded: Option<Vec<AncestorHeader>>)
    ensures
        decoded is Some <==> headers_decode(byte_strings(witness.headers@)),
        decoded matches Some(hs) ==> headers_match(byte_strings(witness.headers@), hs@),
{
    let ghost headers = byte_strings(witness.headers@);
    let mut out: Vec<AncestorHeader> = Vec::with_capacity(witness.headers.len());
    let mut i: usize = 0;
    while i < witness.headers.len()
        invariant
            i <= witness.headers@.len(),
            headers == byte_strings(witness.headers@),
            headers_decode(headers.take(i as int)),
            headers_match(headers.take(i as int), out@),
        decreases witness.headers@.len() - i,
    {
        let bytes = witness.headers[i].as_slice();
        assert(bytes@ == headers[i as int]);
        match read_header_fields(bytes) {
            Some(fields) => {
                let hash = keccak256(bytes);
                out.push(AncestorHeader { number: fields.0, state_root: fields.1, hash });
            },
            None => {
                return None;
            },
        }
        i += 1;
    }
    assert(headers.take(i as int) =~= headers);
    Some(out)
}

/// The state root of the header with the latest block number: the greatest
/// one, and of several equal ones the last in the list.
pub fn latest_state_root(headers: &Vec<AncestorHeader>) -> (root: Digest)
    requires
        headers.len() > 0,
    ensures
        is_latest(numbers_of(headers@), latest_index(numbers_of(headers@))),
        root == headers@[latest_index(numbers_of(headers@))].state_root,
{
    let ghost numbers = numbers_of(headers@);
    let mut best: usize = 0;
    let mut i: usize = 1;
    while i < headers.len()
        invariant
            1 <= i <= headers@.len(),
            numbers == numbers_of(headers@),
            is_latest(numbers.take(i as int), best as int),
        decreases headers@.len() - i,
    {
        if headers[i].number >= headers[best].number {
            best = i;
        }
        i += 1;
    }
    proof {
        assert(numbers.take(i as int) =~= numbers);
        lemma_latest_unique(numbers, best as int);
    }
    headers[best].state_root
}

/// The state root that the ancestor headers of the witness declare.
///
/// The headers must decode, and there must be at least one: a block without a
/// parent has no state to verify against.
pub fn get_state_root(witness: &ExecutionWitness) -> (root: Digest)
    requires
        witness.headers@.len() > 0,
        headers_decode(byte_strings(witness.headers@)),
    ensures
        root@ == declared_state_root(byte_strings(witness.headers@)),
{
    let decoded = decode_ancestor_headers(witness);
    let headers = decoded.unwrap();
    let root = latest_state_root(&headers);
    proof {
        let raw = byte_strings(witness.headers@);
        assert forall|i: int| 0 <= i < raw.len() implies numbers_of(headers@)[i] == header_numbers(
            raw,
        )[i] by {
            assert(header_fields(raw[i]) is Some);
        }
        assert(numbers_of(headers@) =~= header_numbers(raw));
        let latest = latest_index(header_numbers(raw));
        assert(header_fields(raw[latest]) is Some);
    }
    root
}

/// The state root that the ancestor headers of the witness declare, or `None`
/// where the witness has no header or one of them does not decode.
pub fn find_state_root(witness: &ExecutionWitness) -> (root: Option<Digest>)
    ensures
        root is Some <==> witness.headers@.len() > 0 && headers_decode(
            byte_strings(witness.headers@),
        ),
        root matches Some(r) ==> r@ == declared_state_root(byte_strings(witness.headers@)),
{
    if witness.headers.len() == 0 {
        return None;
    }
    match decode_ancestor_headers(witness) {
        Some(_) => Some(get_state_root(witness)),
        None => None,
    }
}

/// Whether the keys of a witness can be grouped by account: each key is an
/// address (20 bytes) or a storage slot (32 bytes), and the first one is an
/// address.
pub open spec fn keys_grouped(keys: Seq<Seq<u8>>) -> bool {
    &&& forall|i: int| 0 <= i < keys.len() ==> (#[trigger] keys[i]).len() == 20 || keys[i].len() == 32
    &&& keys.len() > 0 ==> keys[0].len() == 20
}

/// The numbers of the storage slots that stand in a row from position `from`
/// on, up to the next address or the end of the keys.
pub open spec fn slot_run(keys: Seq<Seq<u8>>, from: int) -> Seq<nat>
    decreases keys.len() - from,
{
    if 0 <= from < keys.len() && keys[from].len() == 32 {
        seq![be_value(keys[from])] + slot_run(keys, from + 1)
    } else {
        Seq::empty()
    }
}

/// Whether position `i` holds an address that no later position holds.
pub open spec fn is_last_mention(keys: Seq<Seq<u8>>, i: int) -> bool {
    &&& 0 <= i < keys.len()
    &&& keys[i].len() == 20
    &&& forall|j: int| i < j < keys.len() ==> keys[j] != keys[i]
}

/// Whether `map` groups the storage slots of `keys` by account: it holds
/// exactly the addresses among the keys, and under each the slots that follow
/// the last mention of that address.
pub open spec fn groups_slots(keys: Seq<Seq<u8>>, map: Map<Seq<u8>, Seq<nat>>) -> bool {
    &&& forall|a: Seq<u8>| #[trigger] map.dom().contains(a) <==> a.len() == 20 && keys.contains(a)
    &&& forall|i: int| #[trigger]
        is_last_mention(keys, i) ==> map[keys[i]] == slot_run(keys, i + 1)
}

fn address_from_slice(bytes: &[u8]) -> (address: Address)
    requires
        bytes.len() == 20,
    ensures
        address@ == bytes@,
{
    let mut address = [0u8; 20];
    let mut i: usize = 0;
    while i < 20
        invariant
            i <= 20,
            bytes.len() == 20,
            forall|j: int| 0 <= j < i ==> address@[j] == bytes@[j],
        decreases 20 - i,
    {
        address[i] = bytes[i];
        i += 1;
    }
    assert(address@ =~= bytes@);
    address
}

/// The storage slots that the keys of the witness name, grouped by account.
///
/// An address starts a group, and the slots up to the next address belong to
/// it.  An address that is named again starts over with no slots.
pub fn build_storage_hash_map(witness: &ExecutionWitness) -> (storage: StorageMap)
    requires
        keys_grouped(byte_strings(witness.keys@)),
    ensures
        storage.wf(),
        groups_slots(byte_strings(witness.keys@), storage@),
{
    let ghost keys = byte_strings(witness.keys@);
    let count = witness.keys.len();
    let mut storage = StorageMap::new();
    let mut i: usize = 0;
    while i < count
        invariant
            i <= count,
            count == witness.keys@.len(),
            keys == byte_strings(witness.keys@),
            keys_grouped(keys),
            i < count ==> keys[i as int].len() == 20,
            storage.wf(),
            forall|a: Seq<u8>| #[trigger]
                storage@.dom().contains(a) <==> a.len() == 20 && keys.take(i as int).contains(a),
            forall|j: int| #[trigger]
                is_last_mention(keys.take(i as int), j) ==> storage@[keys[j]] == slot_run(
                    keys,
                    j + 1,
                ),
        decreases count - i,
    {
        let address = address_from_slice(witness.keys[i].as_slice());
        let mut slots: Vec<U256> = Vec::new();
        let mut j: usize = i + 1;
        while j < count && witness.keys[j].len() == 32
            invariant
                i < j <= count,
                count == witness.keys@.len(),
                keys == byte_strings(witness.keys@),
                forall|k: int| i < k < j ==> keys[k].len() == 32,
                slot_run(keys, i + 1) == slot_values(slots@) + slot_run(keys, j as int),
            decreases count - j,
        {
            let slot = U256::from_be_slice(witness.keys[j].as_slice());
            proof {
                assert(keys[j as int] == witness.keys@[j as int]@);
                assert(slot_values(slots@.push(slot)) =~= slot_values(slots@).push(slot@));
                assert(slot_values(slots@).push(slot@) + slot_run(keys, j + 1) =~= slot_values(
                    slots@,
                ) + (seq![be_value(keys[j as int])] + slot_run(keys, j + 1)));
            }
            slots.push(slot);
            j += 1;
        }
        let ghost before = storage@;
        let ghost values = slot_values(slots@);
        storage.insert(address, slots);
        proof {
            assert(keys[i as int] == witness.keys@[i as int]@);
            assert(values == slot_run(keys, i + 1));
            let old_keys = keys.take(i as int);
            let new_keys = keys.take(j as int);
            assert(new_keys[i as int] == address@);
            assert forall|a: Seq<u8>| #[trigger]
                storage@.dom().contains(a) <==> a.len() == 20 && new_keys.contains(a) by {
                if a.len() == 20 && new_keys.contains(a) {
                    let k = choose|k: int| 0 <= k < new_keys.len() && new_keys[k] == a;
                    if k < i {
                        assert(old_keys[k] == a);
                    }
                }
                if before.dom().contains(a) {
                    let k = choose|k: int| 0 <= k < old_keys.len() && old_keys[k] == a;
                    assert(new_keys[k] == a);
                }
            }
            assert forall|k: int| #[trigger] is_last_mention(new_keys, k) implies storage@[keys[k]]
                == slot_run(keys, k + 1) by {
                if k < i {
                    assert(new_keys[i as int] != new_keys[k]);
                    assert forall|m: int| k < m < old_keys.len() implies old_keys[m] != old_keys[k] by {
                        assert(new_keys[m] != new_keys[k]);
                    }
                    assert(is_last_mention(old_keys, k));
                }
            }
        }
        i = j;
    }
    proof {
        assert(keys.take(i as int) =~= keys);
    }
    storage
}

} // verus!
