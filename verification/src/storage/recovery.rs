//! From the log to memory and back: replaying a log, and writing one that holds only what is
//! alive.

use crate::bytes::push_bytes;
use crate::sorted_map::{
    lemma_map_of_find, lemma_map_of_index, lemma_picked, lemma_picked_step, listing, map_of, picked,
    picked_entries, sorted,
};
use crate::storage::apply::{after_record, apply_record};
use crate::storage::fixed::{le_bytes, push_le};
use crate::storage::lease::{expiry_of, next_id, CLOCK_LIMIT, NANOS};
use crate::storage::leases::LeaseState;
use crate::storage::log::{log_bytes, record_views, scan_kv_collect, scan_records, serialize_batch};
use crate::storage::state::{counted_up, empty_store, KeyStateView, StoreState, StoreView};
use crate::storage::store::Store;
use crate::storage::wal::{new_record, KvWalRecord, KvWalRecordView, HAS_LEASE};
use vstd::prelude::*;

verus! {

// ── Replaying a log ───────────────────────────────────────────────

/// A store after the records of a log, those left out that belong to revisions given up.
pub open spec fn replayed(s: StoreView, recs: Seq<KvWalRecordView>) -> StoreView
    decreases recs.len(),
{
    if recs.len() == 0 {
        s
    } else {
        let t = replayed(s, recs.drop_last());
        if recs.last().revision() <= s.compact_rev {
            t
        } else {
            after_record(t, recs.last())
        }
    }
}

/// The highest revision of the records, those left out that belong to revisions given up; zero
/// if there are no others.
pub open spec fn highest_revision(recs: Seq<KvWalRecordView>, compact_rev: u64) -> u64
    decreases recs.len(),
{
    if recs.len() == 0 {
        0
    } else {
        let h = highest_revision(recs.drop_last(), compact_rev);
        let rev = recs.last().revision();
        if rev > compact_rev && rev > h {
            rev
        } else {
            h
        }
    }
}

/// Whether a key that is alive is attached to a lease.
pub open spec fn lease_in_use(keys: Map<Seq<u8>, KeyStateView>, id: i64) -> bool {
    id != 0 && exists|k: Seq<u8>| #[trigger]
        keys.contains_key(k) && keys[k].alive() && keys[k].lease == id
}

/// The seconds for which a lease is restored. Its owner will renew it.
pub const RESTORED_TTL: i64 = 3600;

/// A lease as it is restored.
pub open spec fn restored_lease(id: i64, now: u128) -> LeaseState {
    LeaseState { id, ttl: RESTORED_TTL, expires_at: expiry_of(now, RESTORED_TTL), key_count: 0 }
}

/// The leases that are restored: those in use.
pub open spec fn restored_leases(
    keys: Map<Seq<u8>, KeyStateView>,
    now: u128,
) -> Map<i64, LeaseState> {
    Map::new(|id: i64| lease_in_use(keys, id), |id: i64| restored_lease(id, now))
}

/// The next id for a lease is past those in use, where one of them is positive.
pub open spec fn restored_next_id(
    keys: Map<Seq<u8>, KeyStateView>,
    before: i64,
    after: i64,
) -> bool {
    if exists|id: i64| #[trigger] lease_in_use(keys, id) && id > 0 {
        exists|max: i64|
            {
                &&& #[trigger] lease_in_use(keys, max)
                &&& max > 0
                &&& after == next_id(max)
                &&& forall|id: i64| #[trigger] lease_in_use(keys, id) ==> id <= max
            }
    } else {
        after == before
    }
}

/// Picks the keys that are alive.
pub open spec fn living() -> spec_fn(Seq<u8>, KeyStateView) -> Option<KeyStateView> {
    |k: Seq<u8>, ks: KeyStateView|
        if ks.alive() {
            Some(ks)
        } else {
            None
        }
}

/// The keys that are alive.
pub open spec fn living_keys(keys: Map<Seq<u8>, KeyStateView>) -> Map<Seq<u8>, KeyStateView> {
    picked(keys, living())
}

/// Whether a store is what opening a log gives.
pub open spec fn opened(
    recs: Seq<KvWalRecordView>,
    compact_rev: u64,
    next_lease_id: i64,
    now: u128,
    s: StoreView,
) -> bool {
    let r = replayed(StoreView { compact_rev, next_lease_id, ..empty_store() }, recs);
    &&& s == StoreView {
        leases: restored_leases(r.keys, now),
        next_rev: counted_up(highest_revision(recs, compact_rev)),
        next_lease_id: s.next_lease_id,
        key_count: living_keys(r.keys).len() as u64,
        watcher_count: 0,
        lease_count: restored_leases(r.keys, now).len() as u64,
        ..r
    }
    &&& restored_next_id(r.keys, next_lease_id, s.next_lease_id)
}

// ── Writing a compact log ─────────────────────────────────────────

/// The record that stands for a key in a compact log.
pub open spec fn snapshot_record(key: Seq<u8>, ks: KeyStateView) -> KvWalRecordView {
    new_record(
        if ks.lease != 0 {
            HAS_LEASE
        } else {
            0
        },
        key,
        ks.value,
        ks.create_revision as i64,
        ks.mod_revision as i64,
        ks.version,
        ks.lease,
    )
}

/// The records of entries.
pub open spec fn snapshot_of(es: Seq<(Seq<u8>, KeyStateView)>) -> Seq<KvWalRecordView> {
    es.map_values(|e: (Seq<u8>, KeyStateView)| snapshot_record(e.0, e.1))
}

/// The records of a compact log: one for each key that is alive, in the order of the keys.
pub open spec fn snapshot(keys: Map<Seq<u8>, KeyStateView>) -> Seq<KvWalRecordView> {
    snapshot_of(listing(living_keys(keys)))
}

/// A log larger than this is compacted.
pub const COMPACTION_SIZE: u64 = 67_108_864;

/// Whether a log is to be compacted.
pub fn needs_compaction(size: u64) -> (r: bool)
    ensures
        r == (size > 64 * 1024 * 1024),
{
    size > COMPACTION_SIZE
}

/// A compact log: the records of what was alive, then what was logged since.
pub fn compacted_wal(records: &Vec<KvWalRecord>, tail: &[u8]) -> (r: Vec<u8>)
    ensures
        r@ == log_bytes(record_views(records@)) + tail@,
{
    let mut out = serialize_batch(records);
    push_bytes(&mut out, tail);
    out
}

/// How many records a log holds.
pub fn count_wal_records(wal: &[u8]) -> (r: usize)
    ensures
        r == scan_records(wal@).len(),
{
    let records = scan_kv_collect(wal);
    assert(record_views(records@).len() == records@.len());
    records.len()
}

// ── The hash of what is alive ─────────────────────────────────────

/// The XXH3 hash of bytes, of 64 bits, with no seed.
pub uninterp spec fn xxh3_digest(data: Seq<u8>) -> u64;

/// Calls `xxhash_rust::xxh3::Xxh3`: a hasher without a seed, fed with the bytes. The result is a
/// function of the bytes alone and goes by the name `xxh3_digest`.
#[verifier::external_body]
fn xxh3(data: &[u8]) -> (r: u64)
    ensures
        r == xxh3_digest(data@),
{
    let mut hasher = xxhash_rust::xxh3::Xxh3::new();
    hasher.update(data);
    hasher.digest()
}

/// A byte string behind its length in eight bytes.
pub open spec fn framed(s: Seq<u8>) -> Seq<u8> {
    le_bytes(s.len(), 8) + s
}

/// What is hashed of entries: each key and value behind their lengths.
pub open spec fn hashed_bytes(es: Seq<(Seq<u8>, KeyStateView)>) -> Seq<u8>
    decreases es.len(),
{
    if es.len() == 0 {
        Seq::empty()
    } else {
        hashed_bytes(es.drop_last()) + framed(es.last().0) + framed(es.last().1.value)
    }
}

/// The hash of the keys and values that are alive.
pub open spec fn content_hash(keys: Map<Seq<u8>, KeyStateView>) -> u64 {
    xxh3_digest(hashed_bytes(listing(living_keys(keys))))
}

fn push_framed(buf: &mut Vec<u8>, s: &[u8])
    ensures
        final(buf)@ == old(buf)@ + framed(s@),
{
    let ghost before = buf@;
    push_le(buf, s.len() as u64, 8);
    push_bytes(buf, s);
    assert(buf@ =~= before + framed(s@));
}

impl StoreState {
    /// How many keys are alive.
    fn count_living(&self) -> (n: u64)
        requires
            self.wf(),
        ensures
            n == living_keys(self@.keys).len() as u64,
    {
        let ghost es = self.keys.entries();
        let ghost f = living();
        proof {
            self.keys.lemma_wf();
            assert(es.take(0) =~= Seq::empty());
        }
        let len: usize = self.keys.len();
        let mut n: usize = 0;
        let mut i: usize = 0;
        while i < len
            invariant
                self.wf(),
                es == self.keys.entries(),
                f == living(),
                i <= len == es.len(),
                n <= i,
                n == picked_entries(es.take(i as int), f).len(),
            decreases len - i,
        {
            proof {
                lemma_picked_step(es, i as int, f);
            }
            if self.keys.val_at(i).is_alive() {
                n = n + 1;
            }
            i = i + 1;
        }
        proof {
            assert(es.take(i as int) =~= es);
            lemma_picked(es, f);
        }
        n as u64
    }

    /// Restores a lease for each that is in use.
    fn restore_leases(&mut self, now: u128)
        requires
            old(self).wf(),
            old(self)@.leases == Map::<i64, LeaseState>::empty(),
            now < CLOCK_LIMIT,
        ensures
            final(self).wf(),
            final(self)@ == (StoreView {
                leases: restored_leases(old(self)@.keys, now),
                next_lease_id: final(self)@.next_lease_id,
                ..old(self)@
            }),
            restored_next_id(
                old(self)@.keys,
                old(self)@.next_lease_id,
                final(self)@.next_lease_id,
            ),
    {
        let ghost s = self@;
        let ghost es = self.keys.entries();
        proof {
            self.keys.lemma_wf();
        }
        let n: usize = self.keys.len();
        let expires_at: u128 = now + RESTORED_TTL as u128 * NANOS;
        let mut max_id: i64 = 0;
        let mut i: usize = 0;
        while i < n
            invariant
                self.wf(),
                es == self.keys.entries(),
                self@.keys == s.keys,
                sorted(es),
                i <= n == es.len(),
                expires_at == expiry_of(now, RESTORED_TTL),
                self@ == (StoreView { leases: self@.leases, ..s }),
                forall|id: i64| #[trigger]
                    self@.leases.contains_key(id) <==> used_before(es, i as int, id),
                forall|id: i64| #[trigger]
                    self@.leases.contains_key(id) ==> self@.leases[id] == restored_lease(id, now),
                max_id >= 0,
                max_id > 0 ==> used_before(es, i as int, max_id),
                forall|id: i64| #[trigger]
                    used_before(es, i as int, id) ==> id <= max_id || id <= 0,
            decreases n - i,
        {
            let ks = self.keys.val_at(i);
            let ghost before = self@.leases;
            let ghost at = i as int;
            proof {
                assert forall|id: i64| #[trigger] used_before(es, at + 1, id) <==> (used_before(
                    es,
                    at,
                    id,
                ) || (id != 0 && es[at].1.alive() && es[at].1.lease == id)) by {
                    if used_before(es, at, id) {
                        let j = choose|j: int|
                            0 <= j < at && (#[trigger] es[j]).1.alive() && es[j].1.lease == id;
                        assert(es[j].1.alive());
                    }
                }
            }
            if ks.is_alive() && ks.lease != 0 {
                let id: i64 = ks.lease;
                if id > max_id {
                    max_id = id;
                }
                let restored = LeaseState { id, ttl: RESTORED_TTL, expires_at, key_count: 0 };
                let _ = self.leases.insert(id, restored);
            }
            i = i + 1;
        }
        if max_id > 0 {
            self.next_lease_id = max_id.wrapping_add(1);
        }
        proof {
            assert forall|id: i64| #[trigger] used_before(es, n as int, id) <==> lease_in_use(
                s.keys,
                id,
            ) by {
                lemma_used(es, id);
            }
            assert(self@.leases =~= restored_leases(s.keys, now));
            if max_id > 0 {
                assert(used_before(es, n as int, max_id));
                assert(lease_in_use(s.keys, max_id));
                assert forall|id: i64| #[trigger] lease_in_use(s.keys, id) implies id <= max_id by {
                    assert(used_before(es, n as int, id));
                }
            } else {
                assert forall|id: i64| #[trigger] lease_in_use(s.keys, id) implies id <= 0 by {
                    assert(used_before(es, n as int, id));
                }
            }
        }
    }

    /// The records of a compact log: one for each key that is alive, in the order of the keys.
    pub fn snapshot_records(&self) -> (r: Vec<KvWalRecord>)
        requires
            self.wf(),
        ensures
            record_views(r@) == snapshot(self@.keys),
    {
        let ghost es = self.keys.entries();
        let ghost f = living();
        let mut records: Vec<KvWalRecord> = Vec::new();
        let n: usize = self.keys.len();
        let mut i: usize = 0;
        proof {
            self.keys.lemma_wf();
            assert(es.take(0) =~= Seq::empty());
            assert(record_views(records@) =~= snapshot_of(picked_entries(es.take(0), f)));
        }
        while i < n
            invariant
                self.wf(),
                es == self.keys.entries(),
                f == living(),
                i <= n == es.len(),
                record_views(records@) == snapshot_of(picked_entries(es.take(i as int), f)),
            decreases n - i,
        {
            let k = self.keys.key_at(i);
            let ks = self.keys.val_at(i);
            let ghost before = records@;
            proof {
                lemma_picked_step(es, i as int, f);
            }
            if ks.is_alive() {
                let flags: u8 = if ks.lease != 0 {
                    HAS_LEASE
                } else {
                    0
                };
                let rec = KvWalRecord::new(
                    flags,
                    k,
                    &ks.value,
                    ks.create_revision as i64,
                    ks.mod_revision as i64,
                    ks.version,
                    ks.lease,
                );
                records.push(rec);
                assert(record_views(records@) =~= record_views(before).push(rec@));
                assert(record_views(records@) =~= snapshot_of(picked_entries(es.take(i + 1), f)));
            }
            i = i + 1;
        }
        proof {
            assert(es.take(i as int) =~= es);
            lemma_picked(es, f);
        }
        records
    }
}

/// Whether one of the first entries is alive and attached to a lease.
spec fn used_before(es: Seq<(Seq<u8>, KeyStateView)>, n: int, id: i64) -> bool {
    id != 0 && exists|j: int|
        0 <= j < n && (#[trigger] es[j]).1.alive() && es[j].1.lease == id
}

proof fn lemma_used(es: Seq<(Seq<u8>, KeyStateView)>, id: i64)
    requires
        sorted(es),
    ensures
        used_before(es, es.len() as int, id) <==> lease_in_use(
            map_of(es),
            id,
        ),
{
    let m = map_of(es);
    if used_before(es, es.len() as int, id) {
        let j = choose|j: int|
            0 <= j < es.len() && (#[trigger] es[j]).1.alive() && es[j].1.lease == id;
        lemma_map_of_index(es, j);
        assert(m.contains_key(es[j].0));
    }
    if lease_in_use(m, id) {
        let k = choose|k: Seq<u8>| #[trigger]
            m.contains_key(k) && m[k].alive() && m[k].lease == id;
        let j = lemma_map_of_find(es, k);
        assert(es[j].1.alive());
    }
}

/// Replaying leaves the leases, the watchers and the counters other than that of the keys.
proof fn lemma_replay_keeps(s: StoreView, recs: Seq<KvWalRecordView>)
    ensures
        ({
            let r = replayed(s, recs);
            r == StoreView { keys: r.keys, key_count: r.key_count, outbox: r.outbox, ..s }
        }),
    decreases recs.len(),
{
    if recs.len() > 0 {
        lemma_replay_keeps(s, recs.drop_last());
    }
}

impl Store {
    /// Rebuilds the store from the contents of a log. The revisions up to `compact_rev` are
    /// given up; leases in use are restored.
    pub fn open(wal: &[u8], compact_rev: u64, next_lease_id: i64, now: u128) -> (r: Store)
        requires
            now < CLOCK_LIMIT,
        ensures
            r.wf(),
            opened(scan_records(wal@), compact_rev, next_lease_id, now, r@),
    {
        let records = scan_kv_collect(wal);
        let ghost recs = record_views(records@);
        let mut state = StoreState::new();
        state.compact_rev = compact_rev;
        state.next_lease_id = next_lease_id;
        let ghost base = state@;
        assert(base =~= StoreView { compact_rev, next_lease_id, ..empty_store() });
        let mut max_rev: u64 = 0;
        let mut i: usize = 0;
        assert(recs.take(0) =~= Seq::empty());
        while i < records.len()
            invariant
                i <= records@.len(),
                recs == record_views(records@),
                base.compact_rev == compact_rev,
                state.wf(),
                state@ == replayed(base, recs.take(i as int)),
                max_rev == highest_revision(recs.take(i as int), compact_rev),
            decreases records@.len() - i,
        {
            let rec = &records[i];
            proof {
                assert(recs.take(i + 1).drop_last() =~= recs.take(i as int));
                assert(recs.take(i + 1).last() == rec@);
            }
            let rev: u64 = rec.revision();
            if rev > compact_rev {
                apply_record(&mut state, rec);
                if rev > max_rev {
                    max_rev = rev;
                }
            }
            i = i + 1;
        }
        proof {
            assert(recs.take(i as int) =~= recs);
            lemma_replay_keeps(base, recs);
        }
        let ghost r = state@;
        state.next_rev = max_rev.wrapping_add(1);
        state.key_count = state.count_living();
        state.watcher_count = 0;
        state.restore_leases(now);
        state.lease_count = state.leases.len() as u64;
        let store = Store { state };
        assert(opened(recs, compact_rev, next_lease_id, now, store@));
        store
    }

    /// The hash of the keys and values that are alive.
    pub fn store_hash(&self) -> (r: u64)
        requires
            self.wf(),
        ensures
            r == content_hash(self@.keys),
    {
        let ghost es = self.state.keys.entries();
        let ghost f = living();
        let mut buf: Vec<u8> = Vec::new();
        let n: usize = self.state.keys.len();
        let mut i: usize = 0;
        proof {
            self.state.keys.lemma_wf();
            assert(es.take(0) =~= Seq::empty());
            assert(buf@ =~= hashed_bytes(picked_entries(es.take(0), f)));
        }
        while i < n
            invariant
                self.wf(),
                es == self.state.keys.entries(),
                f == living(),
                i <= n == es.len(),
                buf@ == hashed_bytes(picked_entries(es.take(i as int), f)),
            decreases n - i,
        {
            let ks = self.state.keys.val_at(i);
            proof {
                lemma_picked_step(es, i as int, f);
            }
            if ks.is_alive() {
                let ghost before = picked_entries(es.take(i as int), f);
                push_framed(&mut buf, self.state.keys.key_at(i));
                push_framed(&mut buf, &ks.value);
                assert(before.push(es[i as int]).drop_last() =~= before);
            }
            i = i + 1;
        }
        proof {
            assert(es.take(i as int) =~= es);
            lemma_picked(es, f);
        }
        xxh3(&buf)
    }
}

} // verus!
