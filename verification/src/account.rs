//! Account records, as the leaves of the state trie hold them.
use vstd::prelude::*;
use crate::bytes::{
    be_minimal, be_value, is_minimal, lemma_be_minimal_canonical, lemma_be_minimal_len,
    lemma_be_minimal_value, lemma_be_value_bound, lemma_be_value_minimal, lemma_pow256_monotonic,
    pow256,
};
use crate::primitives::{u64_from_be, Digest, U256};
use crate::rlp::{
    encode_items, encode_list, items_of, lemma_list_complete, lemma_list_sound, list_of,
    read_list, span_views, string_item, RlpItem, Span,
};

verus! {

/// The state of one account.
#[derive(Clone, Copy, Debug, PartialEq, Eq)]
pub struct AccountRecord {
    /// The number of transactions sent from the account.
    pub nonce: u64,
    /// The balance of the account.
    pub balance: U256,
    /// The root of the account's storage trie.
    pub storage_root: Digest,
    /// The digest of the account's code.
    pub code_hash: Digest,
}

/// An account record as a mathematical value.
pub struct AccountView {
    pub nonce: nat,
    pub balance: nat,
    pub storage_root: Seq<u8>,
    pub code_hash: Seq<u8>,
}

impl View for AccountRecord {
    type V = AccountView;

    open spec fn view(&self) -> AccountView {
        AccountView {
            nonce: self.nonce as nat,
            balance: self.balance@,
            storage_root: self.storage_root@,
            code_hash: self.code_hash@,
        }
    }
}

impl AccountView {
    /// Whether the record is well formed: the nonce fits 64 bits, the balance
    /// 256 bits, and both digests have 32 bytes.
    pub open spec fn wf(self) -> bool {
        &&& self.nonce < pow256(8)
        &&& self.balance < pow256(32)
        &&& self.storage_root.len() == 32
        &&& self.code_hash.len() == 32
    }
}

impl AccountRecord {
    /// Every record is well formed as a mathematical value.
    pub proof fn lemma_view_wf(&self)
        ensures
            self@.wf(),
    {
        lemma_be_value_bound(self.balance.bytes@);
        reveal_with_fuel(pow256, 9);
    }
}

/// The items that an account record is serialized as: nonce and balance in
/// their shortest big-endian form, then the storage root and the code digest.
pub open spec fn account_items(account: AccountView) -> Seq<RlpItem> {
    seq![
        string_item(be_minimal(account.nonce)),
        string_item(be_minimal(account.balance)),
        string_item(account.storage_root),
        string_item(account.code_hash),
    ]
}

/// The serialization of an account record: the list of its items.
pub open spec fn encode_account(account: AccountView) -> Seq<u8> {
    encode_list(encode_items(account_items(account)))
}

/// The account record that is serialized as the given items, if there is one.
pub open spec fn account_from_items(items: Seq<RlpItem>) -> Option<AccountView> {
    if items.len() == 4 && !items[0].list && !items[1].list && !items[2].list && !items[3].list
        && is_minimal(items[0].payload) && items[0].payload.len() <= 8 && is_minimal(
        items[1].payload,
    ) && items[1].payload.len() <= 32 && items[2].payload.len() == 32 && items[3].payload.len()
        == 32 {
        Some(
            AccountView {
                nonce: be_value(items[0].payload),
                balance: be_value(items[1].payload),
                storage_root: items[2].payload,
                code_hash: items[3].payload,
            },
        )
    } else {
        None
    }
}

/// The account record that `bytes` is the serialization of, if it is one.
pub open spec fn account_of(bytes: Seq<u8>) -> Option<AccountView> {
    match list_of(bytes) {
        Some(items) => account_from_items(items),
        None => None,
    }
}

/// Bytes that decode to an account record are the serialization of that
/// record, and the record is well formed.
pub proof fn lemma_decoded_account_encodes(bytes: Seq<u8>)
    requires
        account_of(bytes) is Some,
    ensures
        account_of(bytes).unwrap().wf(),
        encode_account(account_of(bytes).unwrap()) == bytes,
{
    let items = list_of(bytes).unwrap();
    let account = account_of(bytes).unwrap();
    lemma_list_sound(bytes);
    lemma_be_value_minimal(items[0].payload);
    lemma_be_value_minimal(items[1].payload);
    lemma_be_value_bound(items[0].payload);
    lemma_be_value_bound(items[1].payload);
    lemma_pow256_monotonic(items[0].payload.len(), 8);
    lemma_pow256_monotonic(items[1].payload.len(), 32);
    assert(account_items(account) =~= items);
}

/// The serialization of a well-formed account record decodes to that record.
pub proof fn lemma_encoded_account_decodes(account: AccountView)
    requires
        account.wf(),
        encode_account(account).len() < pow256(8),
    ensures
        account_of(encode_account(account)) == Some(account),
{
    lemma_list_complete(account_items(account));
    lemma_be_minimal_canonical(account.nonce);
    lemma_be_minimal_canonical(account.balance);
    lemma_be_minimal_len(account.nonce, 8);
    lemma_be_minimal_len(account.balance, 32);
    lemma_be_minimal_value(account.nonce);
    lemma_be_minimal_value(account.balance);
}

fn digest_at(bytes: &[u8], span: &Span) -> (digest: Digest)
    requires
        span.start + 32 == span.end,
        span.end <= bytes.len(),
    ensures
        digest@ == bytes@.subrange(span.start as int, span.end as int),
{
    let mut digest = [0u8; 32];
    let mut i: usize = 0;
    while i < 32
        invariant
            i <= 32,
            span.start + 32 == span.end,
            span.end <= bytes.len(),
            forall|j: int| 0 <= j < i ==> digest@[j] == bytes@[span.start + j],
        decreases 32 - i,
    {
        digest[i] = bytes[span.start + i];
        i += 1;
    }
    assert(digest@ =~= bytes@.subrange(span.start as int, span.end as int));
    digest
}

/// Whether the payload of `span` is a number in its shortest form of at most
/// `limit` bytes.
fn is_short_number(bytes: &[u8], span: &Span, limit: usize) -> (ok: bool)
    requires
        span.start <= span.end <= bytes.len(),
    ensures
        ok == (!span.list && is_minimal(bytes@.subrange(span.start as int, span.end as int))
            && span.end - span.start <= limit),
{
    if span.list || span.end - span.start > limit {
        return false;
    }
    if span.end > span.start {
        assert(bytes@.subrange(span.start as int, span.end as int)[0] == bytes@[span.start as int]);
        bytes[span.start] != 0
    } else {
        true
    }
}

fn decode_account_inner(bytes: &[u8]) -> (account: Option<AccountRecord>)
    ensures
        account is Some <==> account_of(bytes@) is Some,
        account matches Some(a) ==> account_of(bytes@) == Some(a@),
{
    let spans = match read_list(bytes) {
        Some(spans) => spans,
        None => {
            return None;
        },
    };
    if spans.len() != 4 {
        return None;
    }
    let ghost items = items_of(bytes@, span_views(spans@));
    let nonce = spans[0];
    let balance = spans[1];
    let storage_root = spans[2];
    let code_hash = spans[3];
    assert(items[0] == nonce@.item(bytes@));
    assert(items[1] == balance@.item(bytes@));
    assert(items[2] == storage_root@.item(bytes@));
    assert(items[3] == code_hash@.item(bytes@));
    if !is_short_number(bytes, &nonce, 8) || !is_short_number(bytes, &balance, 32) {
        return None;
    }
    if storage_root.list || storage_root.end - storage_root.start != 32 {
        return None;
    }
    if code_hash.list || code_hash.end - code_hash.start != 32 {
        return None;
    }
    Some(
        AccountRecord {
            nonce: u64_from_be(vstd::slice::slice_subrange(bytes, nonce.start, nonce.end)),
            balance: U256::from_be_slice(
                vstd::slice::slice_subrange(bytes, balance.start, balance.end),
            ),
            storage_root: digest_at(bytes, &storage_root),
            code_hash: digest_at(bytes, &code_hash),
        },
    )
}

/// Decodes the payload of a leaf of the state trie into an account record.
///
/// The result is the one account record whose serialization is `bytes`, and
/// `None` where there is none.
pub fn decode_account(bytes: &[u8]) -> (account: Option<AccountRecord>)
    ensures
        account matches Some(a) ==> encode_account(a@) == bytes@,
        account is None ==> forall|a: AccountView|
            a.wf() ==> #[trigger] encode_account(a) != bytes@,
        account matches Some(a) ==> account_of(bytes@) == Some(a@),
        account is None ==> account_of(bytes@) is None,
{
    let size = bytes.len();
    proof {
        reveal_with_fuel(pow256, 9);
        assert(bytes@.len() == size);
        assert(pow256(8) == 0x1_0000_0000_0000_0000);
    }
    let account = decode_account_inner(bytes);
    proof {
        if account is Some {
            lemma_decoded_account_encodes(bytes@);
        } else {
            assert forall|a: AccountView| a.wf() implies #[trigger] encode_account(a) != bytes@ by {
                if encode_account(a) == bytes@ {
                    lemma_encoded_account_decodes(a);
                }
            }
        }
    }
    account
}

} // verus!
