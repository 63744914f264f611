//! What opening a log, and the hash of a store, promise.

use crate::bytes::lex_lt;
use crate::sorted_map::{
    lemma_listing_exists, lemma_map_of_contains, lemma_map_of_find, lemma_map_of_index,
    lemma_picked_finite, listed_keys, listing,
};
use crate::storage::apply::{after_record, next_version};
use crate::storage::fixed::lemma_pow256_values;
use crate::storage::frames::{lemma_read_frame, read_frames};
use crate::storage::key_value::decoded_kv;
use crate::storage::lease::next_id;
use crate::storage::leases::LeaseState;
use crate::storage::meaning::{ascending, there};
use crate::storage::recovery::{
    content_hash, framed, hashed_bytes, highest_revision, lease_in_use, living, living_keys, opened,
    replayed, xxh3_digest,
};
use crate::storage::state::{empty_store, KeyStateView, StoreView};
use crate::storage::wal::KvWalRecordView;
use vstd::prelude::*;

verus! {

// ── Opening a log ─────────────────────────────────────────────────

/// What a record does when it is replayed. One that deletes marks its key, if it is there, with its
/// revision. Another puts its key, with the value and the lease of its message and at its revision;
/// where the key is there it keeps its creation and goes on by a version, else it has those that
/// the message tells. Other keys stay.
pub proof fn law_record_is_replayed(s: StoreView, rec: KvWalRecordView, other: Seq<u8>)
    requires
        rec.key() is Some,
        rec.flags & 0x01 == 0 ==> decoded_kv(rec.kv_bytes) is Some && decoded_kv(
            rec.kv_bytes,
        )->0.key == rec.key()->0,
    ensures
        ({
            let k = rec.key()->0;
            let t = after_record(s, rec);
            let was = s.keys[k];
            let now = t.keys[k];
            &&& other != k ==> t.keys.contains_key(other) == s.keys.contains_key(other) && (
            s.keys.contains_key(other) ==> t.keys[other] == s.keys[other])
            &&& rec.flags & 0x01 != 0 && !there(s.keys, k) ==> t == s
            &&& rec.flags & 0x01 != 0 && there(s.keys, k) ==> t.keys.contains_key(k) && now == (
            KeyStateView { delete_revision: rec.revision(), ..was })
            &&& rec.flags & 0x01 == 0 ==> {
                let kv = decoded_kv(rec.kv_bytes)->0;
                &&& there(t.keys, k)
                &&& now.value == kv.value
                &&& now.lease == kv.lease
                &&& now.mod_revision == rec.revision()
                &&& now.kv_bytes == rec.kv_bytes
                &&& there(s.keys, k) ==> now.create_revision == was.create_revision && now.version
                    == next_version(was.version)
                &&& !there(s.keys, k) ==> now.create_revision == kv.create_revision as u64
                    && now.version == kv.version
                &&& now.rebirth == (s.keys.contains_key(k) && (was.rebirth || was.delete_revision
                    != 0))
            }
        }),
{
}

/// A record that does not delete, and whose message cannot be read, does nothing when it is
/// replayed.
pub proof fn law_unreadable_record_does_nothing(s: StoreView, rec: KvWalRecordView)
    requires
        rec.flags & 0x01 == 0,
        decoded_kv(rec.kv_bytes) is None,
    ensures
        after_record(s, rec) == s,
{
}

/// Records of revisions that have been given up do nothing when a log is replayed.
pub proof fn law_given_up_records_are_left_out(s: StoreView, recs: Seq<KvWalRecordView>)
    ensures
        replayed(s, recs) == replayed(
            s,
            recs.filter(|r: KvWalRecordView| r.revision() > s.compact_rev),
        ),
    decreases recs.len(),
{
    reveal(Seq::filter);
    let p = |r: KvWalRecordView| r.revision() > s.compact_rev;
    if recs.len() > 0 {
        law_given_up_records_are_left_out(s, recs.drop_last());
        let front = recs.drop_last().filter(p);
        if p(recs.last()) {
            assert(recs.filter(p) =~= front.push(recs.last()));
            assert(front.push(recs.last()).drop_last() =~= front);
        }
    } else {
        assert(recs.filter(p) =~= recs);
    }
}

proof fn lemma_highest(recs: Seq<KvWalRecordView>, compact_rev: u64)
    ensures
        forall|i: int|
            0 <= i < recs.len() && (#[trigger] recs[i]).revision() > compact_rev
                ==> recs[i].revision() <= highest_revision(recs, compact_rev),
        highest_revision(recs, compact_rev) == 0 || exists|i: int|
            0 <= i < recs.len() && (#[trigger] recs[i]).revision() > compact_rev
                && recs[i].revision() == highest_revision(recs, compact_rev),
    decreases recs.len(),
{
    if recs.len() > 0 {
        let front = recs.drop_last();
        lemma_highest(front, compact_rev);
        assert(recs[recs.len() - 1] == recs.last());
        assert forall|i: int|
            0 <= i < recs.len() && (#[trigger] recs[i]).revision()
                > compact_rev implies recs[i].revision() <= highest_revision(recs, compact_rev) by {
            if i < front.len() {
                assert(front[i] == recs[i]);
            }
        }
        let h = highest_revision(front, compact_rev);
        if h != 0 && highest_revision(recs, compact_rev) == h {
            let i = choose|i: int|
                0 <= i < front.len() && (#[trigger] front[i]).revision() > compact_rev
                    && front[i].revision() == h;
            assert(recs[i] == front[i]);
        }
    }
}

proof fn lemma_replay_tells_nobody(s: StoreView, recs: Seq<KvWalRecordView>)
    requires
        s.watchers.len() == 0,
        s.keys.dom().finite(),
    ensures
        replayed(s, recs).outbox == s.outbox,
        replayed(s, recs).watchers == s.watchers,
        replayed(s, recs).compact_rev == s.compact_rev,
        replayed(s, recs).keys.dom().finite(),
    decreases recs.len(),
{
    if recs.len() > 0 {
        lemma_replay_tells_nobody(s, recs.drop_last());
        let t = replayed(s, recs.drop_last());
        assert(t.outbox + Seq::empty() =~= t.outbox);
    }
}

/// A store that is opened from a log goes on behind it: its next revision is greater than all of
/// the log that have not been given up, by one than the greatest. It has nobody to tell, and has
/// told nobody. It counts the keys that are there. It has a lease, for an hour from now, for each
/// that a key which is there is under, and no others. The next id for a lease is one past the
/// greatest of those, and the one that was given where none of them is positive.
pub proof fn law_opened_store_goes_on(
    recs: Seq<KvWalRecordView>,
    compact_rev: u64,
    next_lease_id: i64,
    now: u128,
    s: StoreView,
)
    requires
        opened(recs, compact_rev, next_lease_id, now, s),
        now < 0x8000_0000_0000_0000_0000_0000_0000_0000,
        forall|i: int| 0 <= i < recs.len() ==> (#[trigger] recs[i]).revision() < u64::MAX,
    ensures
        forall|i: int|
            0 <= i < recs.len() && (#[trigger] recs[i]).revision() > compact_rev
                ==> recs[i].revision() < s.next_rev,
        s.next_rev == 1 || exists|i: int|
            0 <= i < recs.len() && (#[trigger] recs[i]).revision() > compact_rev
                && recs[i].revision() + 1 == s.next_rev,
        s.compact_rev == compact_rev,
        s.watchers.len() == 0,
        s.watcher_count == 0,
        s.outbox.len() == 0,
        s.key_count == s.keys.dom().filter(|k: Seq<u8>| there(s.keys, k)).len() as u64,
        forall|id: i64| #[trigger]
            s.leases.contains_key(id) <==> id != 0 && exists|k: Seq<u8>| #[trigger]
                s.keys.contains_key(k) && s.keys[k].delete_revision == 0 && s.keys[k].lease == id,
        forall|id: i64| #[trigger]
            s.leases.contains_key(id) ==> s.leases[id] == (LeaseState {
                id,
                ttl: 3600,
                expires_at: (now + 3600 * 1_000_000_000) as u128,
                key_count: 0,
            }),
        s.lease_count == s.leases.len() as u64,
        (forall|id: i64| s.leases.contains_key(id) ==> id < 0) ==> s.next_lease_id == next_lease_id,
        (exists|id: i64| s.leases.contains_key(id) && id > 0) && !s.leases.contains_key(i64::MAX)
            ==> s.leases.contains_key((s.next_lease_id - 1) as i64) && forall|id: i64| #[trigger]
            s.leases.contains_key(id) ==> id < s.next_lease_id,
{
    let base = StoreView { compact_rev, next_lease_id, ..empty_store() };
    lemma_highest(recs, compact_rev);
    lemma_replay_tells_nobody(base, recs);
    let h = highest_revision(recs, compact_rev);
    if h != 0 {
        let i = choose|i: int|
            0 <= i < recs.len() && (#[trigger] recs[i]).revision() > compact_rev
                && recs[i].revision() == h;
        assert(recs[i].revision() + 1 == s.next_rev);
    }
    let r = replayed(base, recs);
    assert forall|id: i64| #[trigger] s.leases.contains_key(id) == lease_in_use(r.keys, id) by {}
    if exists|id: i64| s.leases.contains_key(id) && id > 0 {
        let id = choose|id: i64| s.leases.contains_key(id) && id > 0;
        assert(lease_in_use(r.keys, id));
        let max = choose|max: i64|
            {
                &&& #[trigger] lease_in_use(r.keys, max)
                &&& max > 0
                &&& s.next_lease_id == next_id(max)
                &&& forall|id: i64| #[trigger] lease_in_use(r.keys, id) ==> id <= max
            };
        assert(s.leases.contains_key(max));
    } else {
        assert forall|id: i64| #[trigger] lease_in_use(r.keys, id) implies id <= 0 by {
            assert(s.leases.contains_key(id));
        }
    }
    assert(living_keys(s.keys).dom() =~= s.keys.dom().filter(|k: Seq<u8>| there(s.keys, k)));
    assert forall|id: i64| #[trigger] s.leases.contains_key(id) <==> id != 0 && exists|k: Seq<u8>|
     #[trigger]
        s.keys.contains_key(k) && s.keys[k].delete_revision == 0 && s.keys[k].lease == id by {
        assert(s.leases.contains_key(id) == lease_in_use(s.keys, id));
        if lease_in_use(s.keys, id) {
            let k = choose|k: Seq<u8>| #[trigger]
                s.keys.contains_key(k) && s.keys[k].alive() && s.keys[k].lease == id;
            assert(s.keys.contains_key(k) && s.keys[k].delete_revision == 0);
        }
        if exists|k: Seq<u8>| #[trigger]
            s.keys.contains_key(k) && s.keys[k].delete_revision == 0 && s.keys[k].lease == id {
            let k = choose|k: Seq<u8>| #[trigger]
                s.keys.contains_key(k) && s.keys[k].delete_revision == 0 && s.keys[k].lease == id;
            assert(s.keys.contains_key(k) && s.keys[k].alive());
        }
    }
}

// ── The keys that are there, in their order ───────────────────────

/// The keys that are there, in their order, with what is known of them.
pub proof fn lemma_living_listed(keys: Map<Seq<u8>, KeyStateView>) -> (ks: Seq<Seq<u8>>)
    requires
        keys.dom().finite(),
    ensures
        ascending(ks),
        forall|k: Seq<u8>| #[trigger] ks.contains(k) <==> there(keys, k),
        ks.len() == listing(living_keys(keys)).len(),
        forall|i: int|
            0 <= i < ks.len() ==> (#[trigger] listing(living_keys(keys))[i]) == (
                ks[i],
                keys[ks[i]],
            ),
{
    let m = living_keys(keys);
    lemma_picked_finite(keys, living());
    lemma_listing_exists(m);
    let es = listing(m);
    let ks = listed_keys(m);
    assert forall|i: int, j: int|
        #![trigger ks[i], ks[j]]
        0 <= i < j < ks.len() implies lex_lt(ks[i], ks[j]) by {
        assert(ks[i] == es[i].0 && ks[j] == es[j].0);
    }
    assert forall|k: Seq<u8>| #[trigger] ks.contains(k) <==> there(keys, k) by {
        lemma_map_of_contains(es, k);
        if ks.contains(k) {
            let i = choose|i: int| 0 <= i < ks.len() && ks[i] == k;
            assert(es[i].0 == k);
            assert(m.contains_key(k));
        }
        if there(keys, k) {
            assert(m.contains_key(k));
            let i = lemma_map_of_find(es, k);
            assert(ks[i] == k);
        }
    }
    assert forall|i: int| 0 <= i < ks.len() implies (#[trigger] es[i]) == (ks[i], keys[ks[i]]) by {
        lemma_map_of_index(es, i);
        assert(ks[i] == es[i].0);
        assert(m.contains_key(ks[i]));
    }
    ks
}

// ── The hash ──────────────────────────────────────────────────────

/// What is hashed of entries begins with the first of them.
proof fn lemma_hashed_front(es: Seq<(Seq<u8>, KeyStateView)>)
    requires
        es.len() > 0,
    ensures
        hashed_bytes(es) == framed(es[0].0) + framed(es[0].1.value) + hashed_bytes(es.skip(1)),
    decreases es.len(),
{
    let front = es.drop_last();
    if front.len() == 0 {
        assert(hashed_bytes(front) =~= Seq::empty());
        assert(hashed_bytes(es.skip(1)) =~= Seq::empty());
        assert(hashed_bytes(es) =~= framed(es[0].0) + framed(es[0].1.value) + hashed_bytes(
            es.skip(1),
        ));
    } else {
        lemma_hashed_front(front);
        assert(es.skip(1).drop_last() =~= front.skip(1));
        assert(hashed_bytes(es) =~= framed(es[0].0) + framed(es[0].1.value) + hashed_bytes(
            es.skip(1),
        ));
    }
}

/// Two byte strings behind their lengths are the first two that are read.
proof fn lemma_two_frames(a: Seq<u8>, b: Seq<u8>, tail: Seq<u8>)
    requires
        a.len() <= u64::MAX,
        b.len() <= u64::MAX,
    ensures
        read_frames(framed(a) + framed(b) + tail, 8) == seq![a, b] + read_frames(tail, 8),
{
    lemma_pow256_values();
    lemma_read_frame(a, framed(b) + tail, 8);
    lemma_read_frame(b, tail, 8);
    assert(framed(a) + (framed(b) + tail) =~= framed(a) + framed(b) + tail);
    assert(seq![a] + (seq![b] + read_frames(tail, 8)) =~= seq![a, b] + read_frames(tail, 8));
}

proof fn lemma_hashed_frames(es: Seq<(Seq<u8>, KeyStateView)>)
    requires
        forall|i: int|
            0 <= i < es.len() ==> (#[trigger] es[i]).0.len() <= u64::MAX && es[i].1.value.len()
                <= u64::MAX,
    ensures
        ({
            let fs = read_frames(hashed_bytes(es), 8);
            &&& fs.len() == 2 * es.len()
            &&& forall|i: int|
                0 <= i < es.len() ==> fs[2 * i] == (#[trigger] es[i]).0 && fs[2 * i + 1]
                    == es[i].1.value
        }),
    decreases es.len(),
{
    if es.len() > 0 {
        let rest = es.skip(1);
        lemma_hashed_front(es);
        assert forall|i: int| 0 <= i < rest.len() implies (#[trigger] rest[i]).0.len() <= u64::MAX
            && rest[i].1.value.len() <= u64::MAX by {
            assert(rest[i] == es[i + 1]);
        }
        lemma_hashed_frames(rest);
        let tail = hashed_bytes(rest);
        let fs = read_frames(hashed_bytes(es), 8);
        let gs = read_frames(tail, 8);
        assert(fs == seq![es[0].0, es[0].1.value] + gs) by {
            lemma_two_frames(es[0].0, es[0].1.value, tail);
        }
        assert forall|i: int| 0 <= i < es.len() implies fs[2 * i] == (#[trigger] es[i]).0 && fs[2
            * i + 1] == es[i].1.value by {
            if i > 0 {
                assert(rest[i - 1] == es[i]);
                assert(fs[2 * i] == gs[2 * (i - 1)]);
                assert(fs[2 * i + 1] == gs[2 * (i - 1) + 1]);
            }
        }
    } else {
        assert(read_frames(hashed_bytes(es), 8) =~= Seq::empty());
    }
}

/// What is hashed of a store tells its content: read length by length, it is each key that is
/// there and its value, in the order of the keys, and nothing else. Gives the bytes that are hashed
/// and the keys.
pub proof fn law_hash_is_of_the_content(keys: Map<Seq<u8>, KeyStateView>) -> (r: (
    Seq<u8>,
    Seq<Seq<u8>>,
))
    requires
        keys.dom().finite(),
        forall|k: Seq<u8>| #[trigger]
            keys.contains_key(k) ==> k.len() <= u64::MAX && keys[k].value.len() <= u64::MAX,
    ensures
        content_hash(keys) == xxh3_digest(r.0),
        ascending(r.1),
        forall|k: Seq<u8>| #[trigger] r.1.contains(k) <==> there(keys, k),
        ({
            let fs = read_frames(r.0, 8);
            &&& fs.len() == 2 * r.1.len()
            &&& forall|i: int|
                0 <= i < r.1.len() ==> fs[2 * i] == #[trigger] r.1[i] && fs[2 * i + 1]
                    == keys[r.1[i]].value
        }),
{
    let es = listing(living_keys(keys));
    let ks = lemma_living_listed(keys);
    assert forall|i: int| 0 <= i < es.len() implies (#[trigger] es[i]).0.len() <= u64::MAX
        && es[i].1.value.len() <= u64::MAX by {
        assert(ks.contains(ks[i]));
        assert(keys.contains_key(ks[i]));
    }
    lemma_hashed_frames(es);
    let fs = read_frames(hashed_bytes(es), 8);
    assert forall|i: int| 0 <= i < ks.len() implies fs[2 * i] == #[trigger] ks[i] && fs[2 * i + 1]
        == keys[ks[i]].value by {
        assert(es[i] == (ks[i], keys[ks[i]]));
    }
    (hashed_bytes(es), ks)
}

} // verus!
