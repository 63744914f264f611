//! What a put promises: what it leaves of its key, what it answers, and when it is refused.

use crate::bytes::{lemma_lex_irreflexive, lex_lt};
use crate::storage::apply::{after_put, known, put_entry};
use crate::storage::durability::{lemma_record_contents, put_fits};
use crate::storage::key_value::decoded_kv;
use crate::storage::meaning::{law_messages_are_true, messages_true, there, told_of};
use crate::storage::messages::{PutRequestView, PutResponseView, RangeRequestView, StoreError};
use crate::storage::query::{found_now, response_of};
use crate::storage::query_laws::law_query_finds_what_is_there;
use crate::storage::state::StoreView;
use crate::storage::store::{pending_put, put_answer, put_flags, put_refusal, revision_taken};
use vstd::prelude::*;

verus! {

/// What a put has to do to a store, and what it has to answer. The key is there, with the value
/// and the lease of the request, or with those that it had where the request is to ignore its own;
/// at the next revision; created by the put if it was not there, else as it was, one version on.
/// Nothing else changes but the revision, the count of the keys, and what goes out to watchers.
pub open spec fn put_does(
    s: StoreView,
    req: PutRequestView,
    t: StoreView,
    resp: PutResponseView,
) -> bool {
    let k = req.key;
    let was = s.keys[k];
    let now = t.keys[k];
    &&& there(t.keys, k)
    &&& !req.ignore_value ==> now.value == req.value
    &&& req.ignore_value ==> there(s.keys, k) && now.value == was.value
    &&& !req.ignore_lease ==> now.lease == req.lease
    &&& req.ignore_lease ==> there(s.keys, k) && now.lease == was.lease
    &&& now.mod_revision == s.next_rev
    &&& there(s.keys, k) ==> now.create_revision == was.create_revision
    &&& there(s.keys, k) && was.version < i64::MAX ==> now.version == was.version + 1
    &&& !there(s.keys, k) ==> now.create_revision == s.next_rev && now.version == 1
    &&& forall|other: Seq<u8>|
        other != k ==> #[trigger] t.keys.contains_key(other) == s.keys.contains_key(other) && (
        s.keys.contains_key(other) ==> t.keys[other] == s.keys[other])
    &&& t.next_rev == s.next_rev + 1
    &&& t.key_count == (if there(s.keys, k) {
        s.key_count as int
    } else {
        s.key_count + 1
    })
    &&& t.leases == s.leases
    &&& t.watchers == s.watchers
    &&& t.compact_rev == s.compact_rev
    &&& t.next_lease_id == s.next_lease_id
    &&& t.watcher_count == s.watcher_count
    &&& t.lease_count == s.lease_count
    &&& resp.header.revision == s.next_rev as i64
    &&& req.prev_kv && there(s.keys, k) ==> resp.prev_kv == was.kv_bytes
    &&& !(req.prev_kv && there(s.keys, k)) ==> resp.prev_kv.len() == 0
    &&& messages_true(s.keys) && k.len() < 0x1_0000_0000 && now.value.len() < 0x1_0000_0000 ==> {
        &&& messages_true(t.keys)
        &&& decoded_kv(now.kv_bytes) == Some(told_of(k, now))
        &&& req.prev_kv && there(s.keys, k) ==> decoded_kv(resp.prev_kv) == Some(told_of(k, was))
    }
}

/// A put that is not refused, once it has been logged, does what its request says.
#[verifier::rlimit(30)]
pub proof fn law_put_does_what_is_asked(s: StoreView, req: PutRequestView)
    requires
        put_refusal(s, req) is None,
        s.next_rev < u64::MAX,
        s.key_count < u64::MAX,
    ensures
        ({
            let p = pending_put(s, req);
            let u = revision_taken(s);
            put_does(
                s,
                req,
                after_put(u, p.key, p.value, p.lease, p.rev, None),
                put_answer(u, p),
            )
        }),
{
    let p = pending_put(s, req);
    let u = revision_taken(s);
    let t = after_put(u, p.key, p.value, p.lease, p.rev, None);
    assert(t.keys.contains_key(req.key));
    if messages_true(s.keys) {
        law_messages_are_true(u, p.key, p.value, p.lease, p.rev);
        if s.keys.contains_key(req.key) {
            assert(decoded_kv(s.keys[req.key].kv_bytes) == Some(
                told_of(req.key, s.keys[req.key]),
            ));
        }
    }
    assert forall|other: Seq<u8>| other != req.key implies #[trigger] t.keys.contains_key(other)
        == s.keys.contains_key(other) && (s.keys.contains_key(other) ==> t.keys[other]
        == s.keys[other]) by {
        assert(known(t.keys, other) == known(s.keys, other));
    }
}

/// A put is refused if and only if it is to keep the value or the lease of a key that is not
/// there, or the lease that the key is to have is not: none, zero, is always to be had.
pub proof fn law_put_is_refused(s: StoreView, req: PutRequestView)
    ensures
        (req.ignore_value || req.ignore_lease) && !there(s.keys, req.key) ==> put_refusal(s, req)
            == Some(StoreError::KeyNotFound),
        !req.ignore_value && !req.ignore_lease ==> put_refusal(s, req) == (if req.lease != 0
            && !s.leases.contains_key(req.lease) {
            Some(StoreError::LeaseNotFound)
        } else {
            None
        }),
        req.ignore_value && !req.ignore_lease && there(s.keys, req.key) ==> put_refusal(s, req)
            == (if req.lease != 0 && !s.leases.contains_key(req.lease) {
            Some(StoreError::LeaseNotFound)
        } else {
            None
        }),
        req.ignore_lease && there(s.keys, req.key) ==> put_refusal(s, req) == (if s.keys[
            req.key
        ].lease != 0 && !s.leases.contains_key(s.keys[req.key].lease) {
            Some(StoreError::LeaseNotFound)
        } else {
            None
        }),
{
}

/// What is logged of a put tells of it in full: the record does not delete, is about the key and at
/// the revision of the put, and its message says what the store knows of the key after the put. Its
/// flags say whether the put creates the key, and whether the key is under a lease.
pub proof fn law_put_is_logged(s: StoreView, req: PutRequestView)
    requires
        put_refusal(s, req) is None,
        s.next_rev < u64::MAX,
        s.key_count < u64::MAX,
        ({
            let p = pending_put(s, req);
            put_fits(s.keys, p.key, p.value, p.lease, p.rev)
        }),
    ensures
        ({
            let p = pending_put(s, req);
            let t = after_put(revision_taken(s), p.key, p.value, p.lease, p.rev, None);
            let rec = p.record;
            &&& rec.valid()
            &&& rec.key() == Some(req.key)
            &&& rec.revision() == s.next_rev
            &&& decoded_kv(rec.kv_bytes) == Some(told_of(req.key, t.keys[req.key]))
            &&& rec.flags & 0x01 == 0
            &&& (rec.flags & 0x02 != 0) == !there(s.keys, req.key)
            &&& (rec.flags & 0x04 != 0) == (t.keys[req.key].lease != 0)
        }),
{
    let p = pending_put(s, req);
    let create = !there(s.keys, req.key);
    let entry = put_entry(known(s.keys, p.key), p.key, p.value, p.lease, p.rev, None);
    let flags = put_flags(create, p.lease);
    lemma_record_contents(
        flags,
        p.key,
        p.value,
        entry.create_revision as i64,
        p.rev,
        entry.version,
        p.lease,
    );
    lemma_flag_bits();
}

proof fn lemma_flag_bits()
    ensures
        forall|a: bool, l: i64|
            #![trigger put_flags(a, l)]
            {
                &&& put_flags(a, l) & 0x01 == 0
                &&& (put_flags(a, l) & 0x02 != 0) == a
                &&& (put_flags(a, l) & 0x04 != 0) == (l != 0)
            },
{
    assert((0x02u8 | 0x04u8) & 0x01u8 == 0 && (0x02u8 | 0x04u8) & 0x02u8 != 0 && (0x02u8 | 0x04u8)
        & 0x04u8 != 0) by (bit_vector);
    assert((0x02u8 | 0u8) & 0x01u8 == 0 && (0x02u8 | 0u8) & 0x02u8 != 0 && (0x02u8 | 0u8) & 0x04u8
        == 0) by (bit_vector);
    assert((0u8 | 0x04u8) & 0x01u8 == 0 && (0u8 | 0x04u8) & 0x02u8 == 0 && (0u8 | 0x04u8) & 0x04u8
        != 0) by (bit_vector);
    assert((0u8 | 0u8) & 0x01u8 == 0 && (0u8 | 0u8) & 0x02u8 == 0 && (0u8 | 0u8) & 0x04u8
        == 0) by (bit_vector);
}

/// What was put is what is got: a query for the key after the put finds that key alone, and its
/// message says the value, the lease and the revision of the put.
pub proof fn law_put_then_get(s: StoreView, req: PutRequestView, get: RangeRequestView)
    requires
        put_refusal(s, req) is None,
        s.next_rev < u64::MAX,
        s.key_count < u64::MAX,
        s.keys.dom().finite(),
        messages_true(s.keys),
        req.key.len() < 0x1_0000_0000,
        req.value.len() < 0x1_0000_0000,
        !req.ignore_value,
        !req.ignore_lease,
        get.key == req.key,
        get.range_end.len() == 0,
        !get.keys_only,
        !get.count_only,
        get.min_mod_revision <= 0,
        get.max_mod_revision <= 0,
        get.min_create_revision <= 0,
        get.max_create_revision <= 0,
    ensures
        ({
            let p = pending_put(s, req);
            let t = after_put(revision_taken(s), p.key, p.value, p.lease, p.rev, None);
            let got = response_of(found_now(t.keys, get), get, t.revision() as i64);
            &&& got.header.revision == s.next_rev as i64
            &&& got.count == 1
            &&& !got.more
            &&& got.kvs.len() == 1
            &&& decoded_kv(got.kvs[0]) matches Some(kv) && kv.key == req.key && kv.value
                == req.value && kv.lease == req.lease && kv.mod_revision == s.next_rev as i64
        }),
{
    law_put_does_what_is_asked(s, req);
    let p = pending_put(s, req);
    let t = after_put(revision_taken(s), p.key, p.value, p.lease, p.rev, None);
    let ks = law_query_finds_what_is_there(t.keys, get, t.revision() as i64);
    assert(ks.contains(req.key));
    let i = choose|i: int| 0 <= i < ks.len() && ks[i] == req.key;
    if ks.len() > 1 {
        let j = if i == 0 {
            1int
        } else {
            0int
        };
        assert(ks.contains(ks[j]));
        assert(ks[j] == req.key);
        lemma_lex_irreflexive(req.key);
        if i < j {
            assert(lex_lt(ks[i], ks[j]));
        } else {
            assert(lex_lt(ks[j], ks[i]));
        }
    }
}

} // verus!
