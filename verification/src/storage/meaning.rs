//! What is meant by a key that is there, by the keys that a request asks for, and by a message
//! that tells what is known of a key.

use crate::bytes::{lex_le, lex_lt};
use crate::storage::apply::{after_delete, after_deletes, after_put};
use crate::storage::key_value::{decoded_kv, law_key_value_roundtrip, KeyValueView};
use crate::storage::range::{covers, law_range_names_keys, resolved_range};
use crate::storage::state::{empty_store, KeyStateView, StoreView};
use vstd::prelude::*;

verus! {

/// Whether a key is there: it is known, and no deletion is.
pub open spec fn there(keys: Map<Seq<u8>, KeyStateView>, k: Seq<u8>) -> bool {
    keys.contains_key(k) && keys[k].delete_revision == 0
}

/// Whether a request with a key and a range end asks for a key.
pub open spec fn asked_for(key: Seq<u8>, range_end: Seq<u8>, k: Seq<u8>) -> bool {
    if range_end.len() == 0 {
        k == key
    } else if range_end == seq![0u8] {
        lex_le(key, k)
    } else if range_end == key.push(0) {
        key.is_prefix_of(k)
    } else {
        lex_le(key, k) && lex_lt(k, range_end)
    }
}

/// The keys stand in their order, each once.
pub open spec fn ascending(ks: Seq<Seq<u8>>) -> bool {
    forall|i: int, j: int|
        #![trigger ks[i], ks[j]]
        0 <= i < j < ks.len() ==> lex_lt(ks[i], ks[j])
}

/// What a message has to say of a key.
pub open spec fn told_of(key: Seq<u8>, ks: KeyStateView) -> KeyValueView {
    KeyValueView {
        key,
        create_revision: ks.create_revision as i64,
        mod_revision: ks.mod_revision as i64,
        version: ks.version,
        value: ks.value,
        lease: ks.lease,
    }
}

/// The message that is held of each key says what is known of the key.
pub open spec fn messages_true(keys: Map<Seq<u8>, KeyStateView>) -> bool {
    forall|k: Seq<u8>| #[trigger]
        keys.contains_key(k) ==> decoded_kv(keys[k].kv_bytes) == Some(told_of(k, keys[k]))
}

/// The keys that a bound covers are those that the request asks for.
pub proof fn lemma_asked_for(key: Seq<u8>, range_end: Seq<u8>)
    ensures
        forall|k: Seq<u8>| #[trigger]
            covers(resolved_range(key, range_end), k) == asked_for(key, range_end, k),
{
    assert forall|k: Seq<u8>| #[trigger]
        covers(resolved_range(key, range_end), k) == asked_for(key, range_end, k) by {
        law_range_names_keys(key, range_end, k);
    }
}

/// The messages that a store holds of its keys are true from its beginning, and a put or a
/// deletion keeps them so.
pub proof fn law_messages_are_true(
    s: StoreView,
    key: Seq<u8>,
    value: Seq<u8>,
    lease: i64,
    rev: u64,
)
    requires
        messages_true(s.keys),
    ensures
        messages_true(empty_store().keys),
        key.len() < 0x1_0000_0000 && value.len() < 0x1_0000_0000 ==> messages_true(
            after_put(s, key, value, lease, rev, None).keys,
        ),
        messages_true(after_delete(s, key, rev).keys),
{
    if key.len() < 0x1_0000_0000 && value.len() < 0x1_0000_0000 {
        let t = after_put(s, key, value, lease, rev, None);
        let ks = t.keys[key];
        law_key_value_roundtrip(
            key,
            value,
            ks.create_revision as i64,
            rev as i64,
            ks.version,
            lease,
        );
        assert forall|k: Seq<u8>| #[trigger] t.keys.contains_key(k) implies decoded_kv(
            t.keys[k].kv_bytes,
        ) == Some(told_of(k, t.keys[k])) by {
            if k != key {
                assert(s.keys.contains_key(k));
            }
        }
    }
    let t = after_delete(s, key, rev);
    assert forall|k: Seq<u8>| #[trigger] t.keys.contains_key(k) implies decoded_kv(
        t.keys[k].kv_bytes,
    ) == Some(told_of(k, t.keys[k])) by {
        assert(s.keys.contains_key(k));
    }
}

/// What a key is shown as is what its message says, under the key; where there is no message, what
/// is known of the key. Where the message is true the two are the same.
pub proof fn law_key_is_shown_as_known(key: Seq<u8>, ks: KeyStateView)
    ensures
        ks.key_value(key).key == key,
        ks.kv_bytes.len() == 0 ==> ks.key_value(key) == told_of(key, ks),
        decoded_kv(ks.kv_bytes) == Some(told_of(key, ks)) ==> ks.key_value(key) == told_of(key, ks),
        ks.kv_bytes.len() > 0 ==> (decoded_kv(ks.kv_bytes) matches Some(kv) ==> ks.key_value(key)
            == (KeyValueView { key, ..kv })),
        decoded_kv(ks.kv_bytes) is None ==> ks.key_value(key) == told_of(key, ks),
{
}

/// Several deletions keep the messages true too.
pub proof fn lemma_deletes_keep_messages(s: StoreView, keys: Seq<Seq<u8>>, rev: u64)
    requires
        messages_true(s.keys),
    ensures
        messages_true(after_deletes(s, keys, rev).keys),
    decreases keys.len(),
{
    if keys.len() > 0 {
        lemma_deletes_keep_messages(s, keys.drop_last(), rev);
        law_messages_are_true(
            after_deletes(s, keys.drop_last(), rev),
            keys.last(),
            Seq::empty(),
            0,
            rev,
        );
    }
}

} // verus!
