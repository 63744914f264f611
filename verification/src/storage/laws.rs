//! What the operations of the store promise together.

use crate::bytes::lex_lt;
use crate::sorted_map::{
    lemma_listed_keys, lemma_listing, lemma_listing_exists, lemma_map_of_contains,
    lemma_map_of_find, lemma_map_of_index, lemma_picked_finite, listing, map_of, picked, sorted,
};
use crate::storage::apply::{after_delete, after_deletes, after_put, known, next_version, put_entry};
use crate::storage::key_value::{decoded_kv, law_key_value_roundtrip, KeyValueView};
use crate::storage::lease::{
    expired_ids, granted_id, lease_ended, lease_granted, next_id, CLOCK_LIMIT,
};
use crate::storage::leases::ascending_list;
use crate::storage::messages::{
    DeleteRangeRequestView, LeaseGrantRequest, PutRequestView, RangeRequestView, StoreError,
};
use crate::storage::query::{found_now, passes, range_refusal};
use crate::storage::range::{covers, resolved_range};
use crate::storage::recovery::{
    content_hash, hashed_bytes, lease_in_use, living, living_keys, opened,
};
use crate::storage::state::{KeyStateView, StoreView};
use crate::storage::store::{
    compact_refusal, compacted, delete_answer, keys_under_lease, lease_missing, living_in,
    living_under, pending_delete, revision_taken,
};
use crate::storage::wal::KvWalRecordView;
use vstd::prelude::*;

verus! {

// ── Puts ──────────────────────────────────────────────────────────

/// A key that was put is found by every query that asks for it and whose bounds its revisions
/// pass, with what was put.
pub proof fn law_put_is_found(
    s: StoreView,
    key: Seq<u8>,
    value: Seq<u8>,
    lease: i64,
    rev: u64,
    req: RangeRequestView,
)
    requires
        key.len() < 0x1_0000_0000,
        value.len() < 0x1_0000_0000,
        covers(resolved_range(req.key, req.range_end), key),
        passes(req, put_entry(known(s.keys, key), key, value, lease, rev, None)),
        !req.keys_only,
    ensures
        ({
            let found = found_now(after_put(s, key, value, lease, rev, None).keys, req);
            let entry = put_entry(known(s.keys, key), key, value, lease, rev, None);
            &&& found.contains_key(key)
            &&& decoded_kv(found[key]) == Some(
                (KeyValueView {
                    key,
                    create_revision: entry.create_revision as i64,
                    mod_revision: rev as i64,
                    version: entry.version,
                    value,
                    lease,
                }),
            )
        }),
{
    let entry = put_entry(known(s.keys, key), key, value, lease, rev, None);
    law_key_value_roundtrip(
        key,
        value,
        entry.create_revision as i64,
        rev as i64,
        entry.version,
        lease,
    );
}

/// A put changes nothing of other keys.
pub proof fn law_put_leaves_others(
    s: StoreView,
    key: Seq<u8>,
    value: Seq<u8>,
    lease: i64,
    rev: u64,
    kv_bytes: Option<Seq<u8>>,
    other: Seq<u8>,
)
    requires
        other != key,
    ensures
        known(after_put(s, key, value, lease, rev, kv_bytes).keys, other) == known(s.keys, other),
{
}

/// The life of a key: a put creates it, with version one; a put of a key that is alive keeps its
/// creation and counts its version up; a put after a deletion creates it anew, and the key is
/// known from then on to have been deleted and created again.
pub proof fn law_life_of_a_key(
    s: StoreView,
    key: Seq<u8>,
    value: Seq<u8>,
    lease: i64,
    rev: u64,
)
    ensures
        ({
            let t = after_put(s, key, value, lease, rev, None);
            &&& t.living(key) is Some
            &&& t.keys[key].value == value
            &&& t.keys[key].lease == lease
            &&& t.keys[key].mod_revision == rev
            &&& s.living(key) is None ==> t.keys[key].create_revision == rev
                && t.keys[key].version == 1
            &&& s.living(key) matches Some(before) ==> t.keys[key].create_revision
                == before.create_revision && t.keys[key].version == next_version(before.version)
            &&& t.keys[key].rebirth == (s.keys.contains_key(key) && (s.keys[key].rebirth
                || !s.keys[key].alive()))
        }),
{
}

/// Each change gets a revision of its own, greater than all before it, until the revisions have
/// run out.
pub proof fn law_revisions_increase(s: StoreView)
    requires
        s.next_rev < u64::MAX,
    ensures
        revision_taken(s).next_rev > s.next_rev,
        revision_taken(s).revision() == s.next_rev,
        s.next_rev > 0 ==> revision_taken(s).revision() > s.revision(),
{
}

// ── Deletions ─────────────────────────────────────────────────────

/// What deletions do to one key, and that they do nothing but that to keys.
pub proof fn lemma_after_deletes(s: StoreView, keys: Seq<Seq<u8>>, rev: u64, k: Seq<u8>)
    requires
        rev != 0,
    ensures
        ({
            let t = after_deletes(s, keys, rev);
            &&& known(t.keys, k) == if keys.contains(k) && s.living(k) is Some {
                Some((KeyStateView { delete_revision: rev, ..s.keys[k] }))
            } else {
                known(s.keys, k)
            }
            &&& t.leases == s.leases
            &&& t.watchers == s.watchers
            &&& t.next_rev == s.next_rev
            &&& t.compact_rev == s.compact_rev
        }),
    decreases keys.len(),
{
    if keys.len() > 0 {
        let front = keys.drop_last();
        lemma_after_deletes(s, front, rev, k);
        lemma_after_deletes(s, front, rev, keys.last());
        if keys.contains(k) && k != keys.last() {
            let i = choose|i: int| 0 <= i < keys.len() && keys[i] == k;
            assert(front[i] == k);
        }
        if front.contains(k) {
            let i = choose|i: int| 0 <= i < front.len() && front[i] == k;
            assert(keys[i] == k);
        }
        assert(keys[keys.len() - 1] == keys.last());
    }
}

/// A range deletion deletes the keys of its range that are alive, and changes nothing of the
/// others; no query finds a deleted key.
pub proof fn law_deletion_deletes_its_range(
    s: StoreView,
    req: DeleteRangeRequestView,
    k: Seq<u8>,
    query: RangeRequestView,
)
    requires
        s.keys.dom().finite(),
        s.next_rev != 0,
    ensures
        ({
            let p = pending_delete(s, req);
            let t = after_deletes(revision_taken(s), p.keys, p.rev);
            let bound = resolved_range(req.key, req.range_end);
            &&& covers(bound, k) ==> t.living(k) is None && !found_now(
                t.keys,
                query,
            ).contains_key(k)
            &&& !covers(bound, k) ==> known(t.keys, k) == known(s.keys, k)
            &&& p.keys.contains(k) == (covers(bound, k) && s.living(k) is Some)
            &&& p.keys.no_duplicates()
        }),
{
    let bound = resolved_range(req.key, req.range_end);
    let m = picked(s.keys, living_in(bound));
    lemma_picked_finite(s.keys, living_in(bound));
    lemma_listed_keys(m);
    let p = pending_delete(s, req);
    assert(p.keys.contains(k) == m.contains_key(k));
    lemma_after_deletes(revision_taken(s), p.keys, p.rev, k);
}

/// The same deletion a second time deletes nothing: no key, and it logs nothing.
pub proof fn law_second_deletion_deletes_nothing(s: StoreView, req: DeleteRangeRequestView)
    requires
        s.keys.dom().finite(),
        s.next_rev != 0,
    ensures
        ({
            let p = pending_delete(s, req);
            let t = after_deletes(revision_taken(s), p.keys, p.rev);
            let again = pending_delete(t, req);
            &&& again.keys.len() == 0
            &&& again.records.len() == 0
            &&& delete_answer(t, again).deleted == 0
            &&& after_deletes(revision_taken(t), again.keys, again.rev) == revision_taken(t)
        }),
{
    let p = pending_delete(s, req);
    let t = after_deletes(revision_taken(s), p.keys, p.rev);
    let bound = resolved_range(req.key, req.range_end);
    let f = living_in(bound);
    lemma_deletes_finite(revision_taken(s), p.keys, p.rev);
    lemma_picked_finite(t.keys, f);
    lemma_listed_keys(picked(t.keys, f));
    let again = pending_delete(t, req);
    if again.keys.len() > 0 {
        let k = again.keys[0];
        assert(again.keys.contains(k));
        assert(picked(t.keys, f).contains_key(k));
        law_deletion_deletes_its_range(s, req, k, arbitrary());
        assert(false);
    }
}

/// Deletions leave the keys finitely many.
pub proof fn lemma_deletes_finite(s: StoreView, keys: Seq<Seq<u8>>, rev: u64)
    requires
        s.keys.dom().finite(),
    ensures
        after_deletes(s, keys, rev).keys.dom().finite(),
    decreases keys.len(),
{
    if keys.len() > 0 {
        lemma_deletes_finite(s, keys.drop_last(), rev);
    }
}

// ── Counting ──────────────────────────────────────────────────────

/// The counter of the keys says how many are alive.
pub open spec fn counted(s: StoreView) -> bool {
    &&& s.keys.dom().finite()
    &&& s.key_count == living_keys(s.keys).len()
}

/// A put keeps the counter right.
pub proof fn law_put_keeps_count(
    s: StoreView,
    key: Seq<u8>,
    value: Seq<u8>,
    lease: i64,
    rev: u64,
    kv_bytes: Option<Seq<u8>>,
)
    requires
        counted(s),
        s.key_count < u64::MAX,
    ensures
        counted(after_put(s, key, value, lease, rev, kv_bytes)),
{
    let t = after_put(s, key, value, lease, rev, kv_bytes);
    lemma_picked_finite(s.keys, living());
    assert(living_keys(t.keys) =~= living_keys(s.keys).insert(key, t.keys[key]));
}

/// A deletion keeps the counter right.
pub proof fn law_delete_keeps_count(s: StoreView, key: Seq<u8>, rev: u64)
    requires
        counted(s),
        rev != 0,
    ensures
        counted(after_delete(s, key, rev)),
{
    let t = after_delete(s, key, rev);
    lemma_picked_finite(s.keys, living());
    if s.living(key) is Some {
        assert(living_keys(t.keys) =~= living_keys(s.keys).remove(key));
    }
}

// ── Compactions ───────────────────────────────────────────────────

/// A compaction gives up the revisions before it and nothing else: queries of those revisions
/// are refused, those of its own revision and later ones up to now are not, and what is found
/// now stays.
pub proof fn law_compaction_gives_up_the_past(s: StoreView, revision: i64, req: RangeRequestView)
    requires
        revision > 0,
        compact_refusal(s, revision) is None,
    ensures
        ({
            let t = compacted(s, revision);
            &&& 0 < req.revision < revision ==> range_refusal(t, req) == Some(
                StoreError::CompactedRevision,
            )
            &&& revision <= req.revision <= s.revision() ==> range_refusal(t, req) is None
            &&& req.revision <= 0 ==> range_refusal(t, req) is None
            &&& found_now(t.keys, req) == found_now(s.keys, req)
            &&& compact_refusal(t, revision) == Some(StoreError::CompactCompacted)
            &&& t == (StoreView { compact_rev: revision as u64, ..s })
        }),
{
}

/// A compaction is refused if and only if its revision has not come yet, or has been given up
/// already. A negative one counts as not yet come.
pub proof fn law_compaction_is_refused(s: StoreView, revision: i64)
    requires
        0 < s.next_rev <= 0x8000_0000_0000_0000,
    ensures
        revision < 0 || revision >= s.next_rev ==> compact_refusal(s, revision) == Some(
            StoreError::CompactFuture,
        ),
        0 <= revision < s.next_rev && revision <= s.compact_rev ==> compact_refusal(s, revision)
            == Some(StoreError::CompactCompacted),
        0 <= revision < s.next_rev && revision > s.compact_rev ==> compact_refusal(
            s,
            revision,
        ) is None,
{
    if revision < 0 {
        assert(revision as u64 >= 0x8000_0000_0000_0000) by (bit_vector)
            requires
                revision < 0,
        ;
    }
}

// ── Leases ────────────────────────────────────────────────────────

/// When a lease ends, its keys that are alive are deleted and no others are changed; a put that
/// names the lease is refused from then on.
pub proof fn law_end_of_lease_deletes_its_keys(s: StoreView, id: i64, k: Seq<u8>)
    requires
        s.keys.dom().finite(),
        s.next_rev != 0,
    ensures
        ({
            let ended = lease_ended(s, id);
            let doomed = keys_under_lease(ended.keys, id);
            let t = after_deletes(revision_taken(ended), doomed, ended.next_rev);
            &&& !t.leases.contains_key(id)
            &&& t.living(k) matches Some(ks) ==> ks.lease != id
            &&& doomed.contains(k) == (s.living(k) is Some && s.keys[k].lease == id)
            &&& !doomed.contains(k) ==> known(t.keys, k) == known(s.keys, k)
            &&& doomed.len() == 0 ==> t.keys == s.keys
        }),
{
    let ended = lease_ended(s, id);
    let doomed = keys_under_lease(ended.keys, id);
    let m = picked(ended.keys, living_under(id));
    lemma_picked_finite(ended.keys, living_under(id));
    lemma_listed_keys(m);
    assert(doomed.contains(k) == m.contains_key(k));
    lemma_after_deletes(revision_taken(ended), doomed, ended.next_rev, k);
}

/// A store in which a lease has ended and its keys, if it had any that were alive, have been
/// deleted and logged.
pub open spec fn lease_over(s: StoreView, id: i64) -> StoreView {
    let ended = lease_ended(s, id);
    let doomed = keys_under_lease(ended.keys, id);
    if doomed.len() == 0 {
        ended
    } else {
        after_deletes(revision_taken(ended), doomed, ended.next_rev)
    }
}

/// A store in which several leases have ended, one after the other.
pub open spec fn leases_over(s: StoreView, ids: Seq<i64>) -> StoreView
    decreases ids.len(),
{
    if ids.len() == 0 {
        s
    } else {
        lease_over(leases_over(s, ids.drop_last()), ids.last())
    }
}

/// What the end of several leases does to the leases and to one key.
proof fn lemma_leases_over(s: StoreView, ids: Seq<i64>, id: i64, k: Seq<u8>)
    requires
        s.keys.dom().finite(),
        0 < s.next_rev,
        s.next_rev + ids.len() <= u64::MAX,
    ensures
        ({
            let t = leases_over(s, ids);
            &&& t.keys.dom().finite()
            &&& s.next_rev <= t.next_rev <= s.next_rev + ids.len()
            &&& t.leases.contains_key(id) == (s.leases.contains_key(id) && !ids.contains(id))
            &&& t.leases.contains_key(id) ==> t.leases[id] == s.leases[id]
            &&& (s.living(k) matches Some(ks) && ids.contains(ks.lease)) ==> t.living(k) is None
            &&& !(s.living(k) matches Some(ks) && ids.contains(ks.lease)) ==> known(t.keys, k)
                == known(s.keys, k)
        }),
    decreases ids.len(),
{
    if ids.len() > 0 {
        let front = ids.drop_last();
        let last = ids.last();
        lemma_leases_over(s, front, id, k);
        let r = leases_over(s, front);
        assert(ids[ids.len() - 1] == last);
        assert forall|x: i64| #[trigger] ids.contains(x) == (front.contains(x) || x == last) by {
            if ids.contains(x) {
                let i = choose|i: int| 0 <= i < ids.len() && ids[i] == x;
                if i < front.len() {
                    assert(front[i] == x);
                }
            }
            if front.contains(x) {
                let i = choose|i: int| 0 <= i < front.len() && front[i] == x;
                assert(ids[i] == x);
            }
        }
        law_end_of_lease_deletes_its_keys(r, last, k);
        let ended = lease_ended(r, last);
        let doomed = keys_under_lease(ended.keys, last);
        lemma_deletes_finite(revision_taken(ended), doomed, ended.next_rev);
        lemma_after_deletes(revision_taken(ended), doomed, ended.next_rev, k);
        if doomed.len() == 0 {
            assert(!doomed.contains(k));
        }
    }
}

/// When the leases that have run out are ended, those are gone and no others; the keys that were
/// alive under one of them are deleted, and nothing else is changed of any key; and no lease is
/// left that has run out.
pub proof fn law_expired_leases_are_over(
    s: StoreView,
    ids: Seq<i64>,
    now: u128,
    id: i64,
    k: Seq<u8>,
)
    requires
        s.keys.dom().finite(),
        0 < s.next_rev,
        s.next_rev + ids.len() <= u64::MAX,
        ascending_list(ids, expired_ids(s, now)),
    ensures
        ({
            let t = leases_over(s, ids);
            let doomed = s.living(k) matches Some(ks) && expired_ids(s, now).contains(ks.lease);
            &&& t.leases.contains_key(id) == (s.leases.contains_key(id)
                && s.leases[id].expires_at > now)
            &&& t.leases.contains_key(id) ==> t.leases[id] == s.leases[id]
            &&& expired_ids(t, now) == Set::<i64>::empty()
            &&& doomed ==> t.living(k) is None
            &&& !doomed ==> known(t.keys, k) == known(s.keys, k)
        }),
{
    let t = leases_over(s, ids);
    lemma_leases_over(s, ids, id, k);
    assert(expired_ids(s, now).contains(id) == ids.contains(id));
    if let Some(ks) = s.living(k) {
        assert(expired_ids(s, now).contains(ks.lease) == ids.contains(ks.lease));
    }
    assert forall|x: i64| !#[trigger] expired_ids(t, now).contains(x) by {
        lemma_leases_over(s, ids, x, k);
        assert(expired_ids(s, now).contains(x) == ids.contains(x));
    }
    assert(expired_ids(t, now) =~= Set::<i64>::empty());
}

/// A lease that was granted can be named by a put; one that is not there cannot.
pub proof fn law_granted_lease_can_be_named(
    s: StoreView,
    grant: LeaseGrantRequest,
    now: u128,
    req: PutRequestView,
)
    requires
        req.lease != 0,
        !req.ignore_lease,
    ensures
        req.lease == granted_id(s, grant) ==> !lease_missing(lease_granted(s, grant, now), req),
        lease_missing(lease_ended(s, req.lease), req),
{
}

/// A lease lasts as long as it was granted for, and no longer.
pub proof fn law_lease_lasts(s: StoreView, grant: LeaseGrantRequest, now: u128, later: u128)
    requires
        grant.ttl >= 0,
        now < CLOCK_LIMIT,
    ensures
        expired_ids(lease_granted(s, grant, now), later).contains(granted_id(s, grant)) == (later
            >= now + grant.ttl * 1_000_000_000),
{
}

/// Leases survive a restart: a lease that a living key names is there again, for an hour, so
/// that a put may name it; and the next id for a lease is of none that is in use, unless the ids
/// have run out.
pub proof fn law_leases_survive_restart(
    recs: Seq<KvWalRecordView>,
    compact_rev: u64,
    next_lease_id: i64,
    now: u128,
    s: StoreView,
    k: Seq<u8>,
)
    requires
        opened(recs, compact_rev, next_lease_id, now, s),
        s.living(k) is Some,
        s.keys[k].lease != 0,
    ensures
        s.leases.contains_key(s.keys[k].lease),
        s.leases[s.keys[k].lease].ttl == 3600,
        s.keys[k].lease > 0 && !s.leases.contains_key(i64::MAX) ==> !s.leases.contains_key(
            s.next_lease_id,
        ) && s.next_lease_id > s.keys[k].lease,
{
    assert(s.keys.contains_key(k));
    assert(lease_in_use(s.keys, s.keys[k].lease));
    if s.keys[k].lease < 0 || s.leases.contains_key(i64::MAX) {
        return;
    }
    let max = choose|max: i64|
        {
            &&& #[trigger] lease_in_use(s.keys, max)
            &&& max > 0
            &&& s.next_lease_id == next_id(max)
            &&& forall|id: i64| #[trigger] lease_in_use(s.keys, id) ==> id <= max
        };
    assert(lease_in_use(s.keys, max));
    assert(s.leases.contains_key(max));
    if s.leases.contains_key(s.next_lease_id) {
        assert(lease_in_use(s.keys, s.next_lease_id));
    }
}

// ── The hash ──────────────────────────────────────────────────────

/// What is hashed of entries depends on their keys and values alone.
proof fn lemma_hashed_bytes(a: Seq<(Seq<u8>, KeyStateView)>, b: Seq<(Seq<u8>, KeyStateView)>)
    requires
        a.len() == b.len(),
        forall|i: int|
            0 <= i < a.len() ==> (#[trigger] a[i]).0 == b[i].0 && a[i].1.value == b[i].1.value,
    ensures
        hashed_bytes(a) == hashed_bytes(b),
    decreases a.len(),
{
    if a.len() > 0 {
        let a1 = a.drop_last();
        let b1 = b.drop_last();
        assert forall|i: int| 0 <= i < a1.len() implies (#[trigger] a1[i]).0 == b1[i].0
            && a1[i].1.value == b1[i].1.value by {
            assert(a1[i] == a[i]);
        }
        lemma_hashed_bytes(a1, b1);
        assert(a[a.len() - 1] == a.last());
    }
}

/// The hash speaks of the keys that are alive and of their values alone: stores that hold the
/// same have the same hash, by whatever changes they came to it.
pub proof fn law_hash_of_content(
    a: Map<Seq<u8>, KeyStateView>,
    b: Map<Seq<u8>, KeyStateView>,
)
    requires
        a.dom().finite(),
        b.dom().finite(),
        forall|k: Seq<u8>|
            #![trigger a.contains_key(k)]
            #![trigger b.contains_key(k)]
            {
                &&& (a.contains_key(k) && a[k].alive()) == (b.contains_key(k) && b[k].alive())
                &&& a.contains_key(k) && a[k].alive() ==> a[k].value == b[k].value
            },
    ensures
        content_hash(a) == content_hash(b),
{
    let la = living_keys(a);
    let lb = living_keys(b);
    lemma_picked_finite(a, living());
    lemma_picked_finite(b, living());
    lemma_listing_exists(la);
    let es = listing(la);
    let fs = es.map_values(|e: (Seq<u8>, KeyStateView)| (e.0, lb[e.0]));
    assert(sorted(fs)) by {
        assert forall|i: int, j: int|
            #![trigger fs[i], fs[j]]
            0 <= i < j < fs.len() implies lex_lt(fs[i].0, fs[j].0) by {
            assert(fs[i].0 == es[i].0 && fs[j].0 == es[j].0);
        }
    }
    assert(map_of(fs) =~= lb) by {
        assert forall|k: Seq<u8>|
            #![trigger map_of(fs).contains_key(k)]
            #![trigger lb.contains_key(k)]
            map_of(fs).contains_key(k) == lb.contains_key(k) && (lb.contains_key(k) ==> map_of(
                fs,
            )[k] == lb[k]) by {
            lemma_map_of_contains(fs, k);
            lemma_map_of_contains(es, k);
            assert(a.contains_key(k) || !a.contains_key(k));
            if map_of(fs).contains_key(k) {
                let i = lemma_map_of_find(fs, k);
                assert(es[i].0 == k);
                assert(la.contains_key(k));
            }
            if lb.contains_key(k) {
                assert(la.contains_key(k));
                let i = lemma_map_of_find(es, k);
                assert(fs[i].0 == k);
                lemma_map_of_index(fs, i);
            }
        }
    }
    lemma_listing(fs);
    assert forall|i: int| 0 <= i < es.len() implies (#[trigger] es[i]).0 == fs[i].0
        && es[i].1.value == fs[i].1.value by {
        lemma_map_of_index(es, i);
        assert(la.contains_key(es[i].0));
        assert(a.contains_key(es[i].0));
    }
    lemma_hashed_bytes(es, fs);
}

} // verus!
