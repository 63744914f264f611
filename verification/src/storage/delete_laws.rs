//! What a deletion promises: which keys it deletes, and what it answers.

use crate::bytes::lex_lt;
use crate::sorted_map::{
    lemma_listed_keys, lemma_listing_exists, lemma_picked_finite, listed_keys, listing, picked,
};
use crate::storage::apply::{after_deletes, known};
use crate::storage::durability::{delete_fits, lemma_record_contents};
use crate::storage::key_value::{decoded_kv, KeyValueView};
use crate::storage::laws::{counted, law_delete_keeps_count, lemma_after_deletes};
use crate::storage::meaning::{
    ascending, asked_for, lemma_asked_for, lemma_deletes_keep_messages, messages_true, there,
    told_of,
};
use crate::storage::messages::{DeleteRangeRequestView, DeleteRangeResponseView};
use crate::storage::range::resolved_range;
use crate::storage::state::{KeyStateView, StoreView};
use crate::storage::store::{
    delete_answer, delete_flags, delete_record, keys_under_lease, living_in, living_under,
    pending_delete, revision_taken,
};
use vstd::prelude::*;

verus! {

/// What the deletion of some keys has to do to a store. Each key is known still, as it was, and
/// to have been deleted at the next revision. Nothing else changes but the revision, the count of
/// the keys, and what goes out to watchers.
pub open spec fn keys_are_deleted(s: StoreView, t: StoreView, ks: Seq<Seq<u8>>) -> bool {
    &&& forall|k: Seq<u8>| #[trigger] t.keys.contains_key(k) == s.keys.contains_key(k)
    &&& forall|k: Seq<u8>|
        s.keys.contains_key(k) ==> #[trigger] t.keys[k] == if ks.contains(k) {
            KeyStateView { delete_revision: s.next_rev, ..s.keys[k] }
        } else {
            s.keys[k]
        }
    &&& t.next_rev == s.next_rev + 1
    &&& t.leases == s.leases
    &&& t.watchers == s.watchers
    &&& t.compact_rev == s.compact_rev
    &&& t.next_lease_id == s.next_lease_id
    &&& t.watcher_count == s.watcher_count
    &&& t.lease_count == s.lease_count
    &&& counted(s) ==> counted(t)
    &&& messages_true(s.keys) ==> messages_true(t.keys)
}

/// What a deletion has to do to a store, and what it has to answer, where the keys that it deletes
/// are the given ones, in their order: how many they are, and, if that was asked for, the message
/// of each as it was.
pub open spec fn deletion_does(
    s: StoreView,
    req: DeleteRangeRequestView,
    t: StoreView,
    resp: DeleteRangeResponseView,
    ks: Seq<Seq<u8>>,
) -> bool {
    &&& ascending(ks)
    &&& forall|k: Seq<u8>| #[trigger]
        ks.contains(k) <==> asked_for(req.key, req.range_end, k) && there(s.keys, k)
    &&& keys_are_deleted(s, t, ks)
    &&& resp.header.revision == s.next_rev as i64
    &&& resp.deleted == ks.len() as i64
    &&& !req.prev_kv ==> resp.prev_kvs.len() == 0
    &&& req.prev_kv ==> resp.prev_kvs.len() == ks.len()
    &&& forall|i: int|
        req.prev_kv && 0 <= i < ks.len() ==> #[trigger] resp.prev_kvs[i] == s.keys[ks[i]].kv_bytes
    &&& forall|i: int|
        req.prev_kv && messages_true(s.keys) && 0 <= i < ks.len() ==> decoded_kv(
            #[trigger] resp.prev_kvs[i],
        ) == Some(told_of(ks[i], s.keys[ks[i]]))
}

/// A deletion, once it has been logged, deletes the keys that its request asks for and that are
/// there, and answers what it deleted. Gives those keys, in their order.
pub proof fn law_deletion_does_what_is_asked(s: StoreView, req: DeleteRangeRequestView) -> (ks: Seq<
    Seq<u8>,
>)
    requires
        s.keys.dom().finite(),
        0 < s.next_rev < u64::MAX,
    ensures
        ({
            let p = pending_delete(s, req);
            let t = after_deletes(revision_taken(s), p.keys, p.rev);
            ks == p.keys && deletion_does(s, req, t, delete_answer(t, p), ks)
        }),
{
    let p = pending_delete(s, req);
    let bound = resolved_range(req.key, req.range_end);
    let m = picked(s.keys, living_in(bound));
    let ks = p.keys;
    lemma_picked_finite(s.keys, living_in(bound));
    lemma_listed_ascend(m);
    lemma_asked_for(req.key, req.range_end);
    assert forall|k: Seq<u8>| #[trigger] ks.contains(k) <==> asked_for(req.key, req.range_end, k)
        && there(s.keys, k) by {
        assert(ks.contains(k) == m.contains_key(k));
    }
    lemma_keys_are_deleted(s, ks);
    let resp = delete_answer(after_deletes(revision_taken(s), p.keys, p.rev), p);
    assert forall|i: int|
        req.prev_kv && messages_true(s.keys) && 0 <= i < ks.len() implies decoded_kv(
        #[trigger] resp.prev_kvs[i],
    ) == Some(told_of(ks[i], s.keys[ks[i]])) by {
        assert(ks.contains(ks[i]));
        assert(s.keys.contains_key(ks[i]));
    }
    ks
}

/// What is logged of a deletion tells of it in full: one record for each key that is deleted, in
/// their order, which deletes it at the revision of the deletion; its message says what was known
/// of the key, under that revision.
pub proof fn law_deletion_is_logged(s: StoreView, req: DeleteRangeRequestView, i: int)
    requires
        s.keys.dom().finite(),
        0 < s.next_rev < u64::MAX,
        0 <= i < pending_delete(s, req).keys.len(),
        ({
            let k = pending_delete(s, req).keys[i];
            delete_fits(k, s.keys[k], s.next_rev)
        }),
    ensures
        ({
            let p = pending_delete(s, req);
            let k = p.keys[i];
            let rec = p.records[i];
            &&& p.records.len() == p.keys.len()
            &&& rec.valid()
            &&& rec.key() == Some(k)
            &&& rec.revision() == s.next_rev
            &&& rec.flags & 0x01 != 0
            &&& (rec.flags & 0x04 != 0) == (s.keys[k].lease != 0)
            &&& decoded_kv(rec.kv_bytes) == Some(
                (KeyValueView { mod_revision: s.next_rev as i64, ..told_of(k, s.keys[k]) }),
            )
        }),
{
    let p = pending_delete(s, req);
    let k = p.keys[i];
    let ks = s.keys[k];
    assert(p.records[i] == delete_record(k, ks, s.next_rev));
    lemma_record_contents(
        delete_flags(ks.lease),
        k,
        ks.value,
        ks.create_revision as i64,
        s.next_rev,
        ks.version,
        ks.lease,
    );
    assert((0x01u8 | 0x04u8) & 0x01u8 != 0 && (0x01u8 | 0x04u8) & 0x04u8 != 0) by (bit_vector);
    assert((0x01u8 | 0u8) & 0x01u8 != 0 && (0x01u8 | 0u8) & 0x04u8 == 0) by (bit_vector);
}

/// When a lease ends, the keys that are there under it are deleted, in their order, and no others.
pub proof fn law_lease_takes_its_keys(s: StoreView, id: i64) -> (ks: Seq<Seq<u8>>)
    requires
        s.keys.dom().finite(),
        0 < s.next_rev < u64::MAX,
    ensures
        ks == keys_under_lease(s.keys, id),
        ascending(ks),
        forall|k: Seq<u8>| #[trigger]
            ks.contains(k) <==> there(s.keys, k) && s.keys[k].lease == id,
        keys_are_deleted(s, after_deletes(revision_taken(s), ks, s.next_rev), ks),
{
    let m = picked(s.keys, living_under(id));
    let ks = keys_under_lease(s.keys, id);
    lemma_picked_finite(s.keys, living_under(id));
    lemma_listed_ascend(m);
    assert forall|k: Seq<u8>| #[trigger] ks.contains(k) <==> there(s.keys, k) && s.keys[k].lease
        == id by {
        assert(ks.contains(k) == m.contains_key(k));
    }
    lemma_keys_are_deleted(s, ks);
    ks
}

/// The keys of a map are listed in their order.
proof fn lemma_listed_ascend<T>(m: Map<Seq<u8>, T>)
    requires
        m.dom().finite(),
    ensures
        ascending(listed_keys(m)),
        forall|k: Seq<u8>| #[trigger] listed_keys(m).contains(k) == m.contains_key(k),
{
    lemma_listing_exists(m);
    lemma_listed_keys(m);
    let es = listing(m);
    let ks = listed_keys(m);
    assert forall|i: int, j: int|
        #![trigger ks[i], ks[j]]
        0 <= i < j < ks.len() implies lex_lt(ks[i], ks[j]) by {
        assert(ks[i] == es[i].0 && ks[j] == es[j].0);
    }
}

/// The deletion of keys that are there.
proof fn lemma_keys_are_deleted(s: StoreView, ks: Seq<Seq<u8>>)
    requires
        s.keys.dom().finite(),
        0 < s.next_rev < u64::MAX,
        forall|k: Seq<u8>| #[trigger] ks.contains(k) ==> there(s.keys, k),
    ensures
        keys_are_deleted(s, after_deletes(revision_taken(s), ks, s.next_rev), ks),
{
    let u = revision_taken(s);
    let t = after_deletes(u, ks, s.next_rev);
    assert forall|k: Seq<u8>| #[trigger] t.keys.contains_key(k) == s.keys.contains_key(k) by {
        lemma_after_deletes(u, ks, s.next_rev, k);
        assert(known(t.keys, k) is Some == known(s.keys, k) is Some);
    }
    assert forall|k: Seq<u8>| s.keys.contains_key(k) implies #[trigger] t.keys[k] == if ks.contains(
        k,
    ) {
        KeyStateView { delete_revision: s.next_rev, ..s.keys[k] }
    } else {
        s.keys[k]
    } by {
        lemma_after_deletes(u, ks, s.next_rev, k);
        assert(t.keys.contains_key(k));
        assert(known(t.keys, k) == Some(t.keys[k]));
    }
    lemma_after_deletes(u, ks, s.next_rev, Seq::empty());
    lemma_deletes_leave(u, ks, s.next_rev);
    if counted(s) {
        lemma_deletes_keep_count(u, ks, s.next_rev);
    }
    if messages_true(s.keys) {
        lemma_deletes_keep_messages(u, ks, s.next_rev);
    }
}

/// What deletions do not change.
proof fn lemma_deletes_leave(s: StoreView, ks: Seq<Seq<u8>>, rev: u64)
    ensures
        ({
            let t = after_deletes(s, ks, rev);
            &&& t.next_lease_id == s.next_lease_id
            &&& t.watcher_count == s.watcher_count
            &&& t.lease_count == s.lease_count
        }),
    decreases ks.len(),
{
    if ks.len() > 0 {
        lemma_deletes_leave(s, ks.drop_last(), rev);
    }
}

/// Deletions keep the counter right.
proof fn lemma_deletes_keep_count(s: StoreView, ks: Seq<Seq<u8>>, rev: u64)
    requires
        counted(s),
        rev != 0,
    ensures
        counted(after_deletes(s, ks, rev)),
    decreases ks.len(),
{
    if ks.len() > 0 {
        lemma_deletes_keep_count(s, ks.drop_last(), rev);
        law_delete_keeps_count(after_deletes(s, ks.drop_last(), rev), ks.last(), rev);
    }
}

} // verus!
