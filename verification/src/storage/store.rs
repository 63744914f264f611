//! The store: puts, deletions and compactions.
//!
//! A change is made in two steps. The first gives what has to be logged; once that has been
//! tried, the second makes the change, or reports that it could not be logged.

use crate::bytes::copy_bytes;
use crate::sorted_map::{
    lemma_listing_exists, lemma_map_of_index, lemma_picked, lemma_picked_none, lemma_picked_step,
    listed_keys, listing, picked, picked_entries,
};
use crate::storage::apply::{after_deletes, after_put, byte_strings, known, put_entry};
use crate::storage::log::{log_bytes, record_views, serialize_batch};
use crate::storage::messages::{
    CompactionRequest, CompactionResponse, DeleteRangeRequest, DeleteRangeRequestView,
    DeleteRangeResponse, DeleteRangeResponseView, PutRequest, PutRequestView, PutResponse,
    PutResponseView, RangeRequest, RangeResponse, StoreError,
};
use crate::storage::query::{
    found_now, keys_in, range_refusal, response_of, scan_found, scan_of, target_of, HistoricalScan,
    RangeStep, WalRead,
};
use crate::storage::range::{
    cover_span, covers, is_scan_ordered, resolve_range, resolved_range, scan_ordered, RangeBound,
    RangeBoundView,
};
use crate::storage::state::{
    counted_up, current_revision, next_revision, KeyStateView, StoreState, StoreView,
};
use crate::storage::wal::{new_record, KvWalRecord, KvWalRecordView, DELETED, HAS_LEASE, IS_CREATE};
use vstd::prelude::*;

verus! {

/// The store.
#[derive(Debug)]
pub struct Store {
    pub state: StoreState,
}

impl View for Store {
    type V = StoreView;

    open spec fn view(&self) -> StoreView {
        self.state@
    }
}

// ── Puts ──────────────────────────────────────────────────────────

/// Whether a put is to keep the value or the lease of a key that is not alive.
pub open spec fn key_missing(s: StoreView, req: PutRequestView) -> bool {
    (req.ignore_value || req.ignore_lease) && s.living(req.key) is None
}

/// The value that a put is to leave: the one given, or the one that the key has.
pub open spec fn value_to_put(s: StoreView, req: PutRequestView) -> Seq<u8> {
    match s.living(req.key) {
        Some(ks) if req.ignore_value => ks.value,
        _ => req.value,
    }
}

/// The lease that a put is to leave: the one given, or the one that the key has.
pub open spec fn lease_to_put(s: StoreView, req: PutRequestView) -> i64 {
    match s.living(req.key) {
        Some(ks) if req.ignore_lease => ks.lease,
        _ => req.lease,
    }
}

/// The flags of the record of a put.
pub open spec fn put_flags(is_create: bool, lease: i64) -> u8 {
    (if is_create {
        IS_CREATE
    } else {
        0u8
    }) | (if lease != 0 {
        HAS_LEASE
    } else {
        0u8
    })
}

/// The record of a put.
pub open spec fn put_record(
    s: StoreView,
    key: Seq<u8>,
    value: Seq<u8>,
    lease: i64,
    rev: u64,
) -> KvWalRecordView {
    let entry = put_entry(known(s.keys, key), key, value, lease, rev, None);
    new_record(
        put_flags(s.living(key) is None, lease),
        key,
        value,
        entry.create_revision as i64,
        rev as i64,
        entry.version,
        lease,
    )
}

/// A put that has yet to be logged.
#[verifier::ext_equal]
pub struct PendingPutView {
    pub key: Seq<u8>,
    pub value: Seq<u8>,
    pub lease: i64,
    pub rev: u64,
    pub prev_kv: bool,
    pub record: KvWalRecordView,
}

/// A put that has yet to be logged.
#[derive(Debug)]
pub struct PendingPut {
    pub key: Vec<u8>,
    pub value: Vec<u8>,
    pub lease: i64,
    pub rev: u64,
    pub prev_kv: bool,
    pub record: KvWalRecord,
}

impl View for PendingPut {
    type V = PendingPutView;

    open spec fn view(&self) -> PendingPutView {
        PendingPutView {
            key: self.key@,
            value: self.value@,
            lease: self.lease,
            rev: self.rev,
            prev_kv: self.prev_kv,
            record: self.record@,
        }
    }
}

impl PendingPut {
    /// What has to be appended to the log.
    pub fn log_bytes(&self) -> (r: Vec<u8>)
        ensures
            r@ == self@.record.bytes(),
    {
        self.record.serialize()
    }
}

/// A store of which one revision has been given out.
pub open spec fn revision_taken(s: StoreView) -> StoreView {
    StoreView { next_rev: counted_up(s.next_rev), ..s }
}

/// What a put comes to, unless it is refused.
pub open spec fn pending_put(s: StoreView, req: PutRequestView) -> PendingPutView {
    let value = value_to_put(s, req);
    let lease = lease_to_put(s, req);
    PendingPutView {
        key: req.key,
        value,
        lease,
        rev: s.next_rev,
        prev_kv: req.prev_kv,
        record: put_record(s, req.key, value, lease, s.next_rev),
    }
}

/// Whether a put names a lease that is not there.
pub open spec fn lease_missing(s: StoreView, req: PutRequestView) -> bool {
    lease_to_put(s, req) != 0 && !s.leases.contains_key(lease_to_put(s, req))
}

/// Why a put is refused, if it is: the key whose value or lease it is to keep is not alive, or its
/// lease is not there.
pub open spec fn put_refusal(s: StoreView, req: PutRequestView) -> Option<StoreError> {
    if key_missing(s, req) {
        Some(StoreError::KeyNotFound)
    } else if lease_missing(s, req) {
        Some(StoreError::LeaseNotFound)
    } else {
        None
    }
}

/// The answer to a put.
pub open spec fn put_answer(s: StoreView, p: PendingPutView) -> PutResponseView {
    PutResponseView {
        header: s.header(),
        prev_kv: match s.living(p.key) {
            Some(ks) if p.prev_kv => ks.kv_bytes,
            _ => Seq::empty(),
        },
    }
}

// ── Deletions ─────────────────────────────────────────────────────

/// The flags of the record of a deletion.
pub open spec fn delete_flags(lease: i64) -> u8 {
    DELETED | (if lease != 0 {
        HAS_LEASE
    } else {
        0u8
    })
}

/// The record of a deletion: what was known of the key, under the revision of the deletion.
pub open spec fn delete_record(key: Seq<u8>, ks: KeyStateView, rev: u64) -> KvWalRecordView {
    new_record(
        delete_flags(ks.lease),
        key,
        ks.value,
        ks.create_revision as i64,
        rev as i64,
        ks.version,
        ks.lease,
    )
}

/// A deletion that has yet to be logged.
#[verifier::ext_equal]
pub struct PendingDeleteView {
    pub keys: Seq<Seq<u8>>,
    pub rev: u64,
    pub prev_kv: bool,
    pub records: Seq<KvWalRecordView>,
    pub prevs: Seq<Seq<u8>>,
}

/// A deletion that has yet to be logged.
#[derive(Debug)]
pub struct PendingDelete {
    pub keys: Vec<Vec<u8>>,
    pub rev: u64,
    pub prev_kv: bool,
    pub records: Vec<KvWalRecord>,
    pub prevs: Vec<Vec<u8>>,
}

impl View for PendingDelete {
    type V = PendingDeleteView;

    open spec fn view(&self) -> PendingDeleteView {
        PendingDeleteView {
            keys: byte_strings(self.keys@),
            rev: self.rev,
            prev_kv: self.prev_kv,
            records: record_views(self.records@),
            prevs: byte_strings(self.prevs@),
        }
    }
}

impl PendingDelete {
    /// What has to be appended to the log.
    pub fn log_bytes(&self) -> (r: Vec<u8>)
        ensures
            r@ == log_bytes(self@.records),
    {
        serialize_batch(&self.records)
    }
}

/// The deletion of some keys, all of them alive.
pub open spec fn deletion(
    m: Map<Seq<u8>, KeyStateView>,
    keys: Seq<Seq<u8>>,
    rev: u64,
    prev_kv: bool,
) -> PendingDeleteView {
    PendingDeleteView {
        keys,
        rev,
        prev_kv,
        records: keys.map_values(|k: Seq<u8>| delete_record(k, m[k], rev)),
        prevs: keys.map_values(|k: Seq<u8>| m[k].kv_bytes),
    }
}

/// Picks the keys of a bound that are alive.
pub open spec fn living_in(bound: RangeBoundView) -> spec_fn(Seq<u8>, KeyStateView) -> Option<()> {
    |k: Seq<u8>, ks: KeyStateView|
        if covers(bound, k) && ks.alive() {
            Some(())
        } else {
            None
        }
}

/// Picks the keys of a lease that are alive.
pub open spec fn living_under(lease: i64) -> spec_fn(Seq<u8>, KeyStateView) -> Option<()> {
    |k: Seq<u8>, ks: KeyStateView|
        if ks.lease == lease && ks.alive() {
            Some(())
        } else {
            None
        }
}

/// The keys of a bound that are alive, in their order.
pub open spec fn keys_in_bound(
    m: Map<Seq<u8>, KeyStateView>,
    bound: RangeBoundView,
) -> Seq<Seq<u8>> {
    listed_keys(picked(m, living_in(bound)))
}

/// The keys of a lease that are alive, in their order.
pub open spec fn keys_under_lease(m: Map<Seq<u8>, KeyStateView>, lease: i64) -> Seq<Seq<u8>> {
    listed_keys(picked(m, living_under(lease)))
}

/// What a deletion comes to.
pub open spec fn pending_delete(s: StoreView, req: DeleteRangeRequestView) -> PendingDeleteView {
    deletion(
        s.keys,
        keys_in_bound(s.keys, resolved_range(req.key, req.range_end)),
        s.next_rev,
        req.prev_kv,
    )
}

/// The answer to a deletion.
pub open spec fn delete_answer(s: StoreView, p: PendingDeleteView) -> DeleteRangeResponseView {
    DeleteRangeResponseView {
        header: s.header(),
        deleted: p.keys.len() as i64,
        prev_kvs: if p.prev_kv {
            p.prevs
        } else {
            Seq::empty()
        },
    }
}

// ── Compactions ───────────────────────────────────────────────────

/// Why a compaction is refused, if it is.
pub open spec fn compact_refusal(s: StoreView, revision: i64) -> Option<StoreError> {
    if revision as u64 > s.revision() {
        Some(StoreError::CompactFuture)
    } else if revision as u64 <= s.compact_rev {
        Some(StoreError::CompactCompacted)
    } else {
        None
    }
}

/// A store that has given up the revisions before one.
pub open spec fn compacted(s: StoreView, revision: i64) -> StoreView {
    StoreView { compact_rev: revision as u64, ..s }
}

/// What picking by a rule that asks for life gives: keys that are there and alive.
pub proof fn lemma_picked_are_living(
    m: Map<Seq<u8>, KeyStateView>,
    f: spec_fn(Seq<u8>, KeyStateView) -> Option<()>,
)
    requires
        m.dom().finite(),
        forall|k: Seq<u8>, ks: KeyStateView| #[trigger] f(k, ks) is Some ==> ks.alive(),
    ensures
        forall|i: int|
            0 <= i < listed_keys(picked(m, f)).len() ==> m.contains_key(
                #[trigger] listed_keys(picked(m, f))[i],
            ) && m[listed_keys(picked(m, f))[i]].alive() && f(
                listed_keys(picked(m, f))[i],
                m[listed_keys(picked(m, f))[i]],
            ) is Some,
{
    lemma_listing_exists(m);
    lemma_picked(listing(m), f);
    let ps = listing(picked(m, f));
    assert forall|i: int| 0 <= i < ps.len() implies m.contains_key(
        #[trigger] listed_keys(picked(m, f))[i],
    ) && m[listed_keys(picked(m, f))[i]].alive() && f(
        listed_keys(picked(m, f))[i],
        m[listed_keys(picked(m, f))[i]],
    ) is Some by {
        lemma_map_of_index(ps, i);
        assert(listed_keys(picked(m, f))[i] == ps[i].0);
    }
}

impl StoreState {
    /// The deletion of some keys, all of them alive.
    fn begin_deletion(&self, keys: Vec<Vec<u8>>, rev: u64, prev_kv: bool) -> (r: PendingDelete)
        requires
            self.wf(),
            forall|i: int|
                0 <= i < keys@.len() ==> self@.living((#[trigger] keys@[i])@) is Some,
        ensures
            r@ == deletion(self@.keys, byte_strings(keys@), rev, prev_kv),
    {
        let mut records: Vec<KvWalRecord> = Vec::new();
        let mut prevs: Vec<Vec<u8>> = Vec::new();
        let ghost ks = byte_strings(keys@);
        let ghost m = self@.keys;
        let mut i: usize = 0;
        while i < keys.len()
            invariant
                self.wf(),
                m == self@.keys,
                ks == byte_strings(keys@),
                i <= keys@.len(),
                forall|i: int|
                    0 <= i < keys@.len() ==> self@.living((#[trigger] keys@[i])@) is Some,
                records@.len() == i,
                prevs@.len() == i,
                forall|j: int|
                    0 <= j < i ==> (#[trigger] records@[j])@ == delete_record(
                        ks[j],
                        m[ks[j]],
                        rev,
                    ),
                forall|j: int| 0 <= j < i ==> (#[trigger] prevs@[j])@ == m[ks[j]].kv_bytes,
            decreases keys@.len() - i,
        {
            let key = &keys[i];
            assert(ks[i as int] == key@);
            if let Some(p) = self.living(key) {
                let mut flags: u8 = DELETED;
                if p.lease != 0 {
                    flags = flags | HAS_LEASE;
                }
                assert(flags == delete_flags(p.lease)) by {
                    assert(0x01u8 | 0u8 == 0x01u8) by (bit_vector);
                }
                records.push(
                    KvWalRecord::new(
                        flags,
                        key,
                        &p.value,
                        p.create_revision as i64,
                        rev as i64,
                        p.version,
                        p.lease,
                    ),
                );
                prevs.push(copy_bytes(&p.kv_bytes));
            }
            i = i + 1;
        }
        let pending = PendingDelete { keys, rev, prev_kv, records, prevs };
        assert(pending@ =~= deletion(m, ks, rev, prev_kv));
        pending
    }

    /// The keys of a bound that are alive, in their order.
    fn collect_in_bound(&self, bound: &RangeBound) -> (r: Vec<Vec<u8>>)
        requires
            self.wf(),
            scan_ordered(bound@),
        ensures
            byte_strings(r@) == keys_in_bound(self@.keys, bound@),
            forall|i: int| 0 <= i < r@.len() ==> self@.living((#[trigger] r@[i])@) is Some,
    {
        let ghost es = self.keys.entries();
        let ghost f = living_in(bound@);
        let mut out: Vec<Vec<u8>> = Vec::new();
        proof {
            self.keys.lemma_wf();
            lemma_picked(es, f);
            lemma_picked_are_living(self@.keys, f);
        }
        let (lo, hi) = cover_span(&self.keys, bound);
        proof {
            assert(es.take(lo as int).take(0) =~= Seq::empty());
            assert forall|j: int| 0 <= j < lo implies f(
                (#[trigger] es.take(lo as int)[j]).0,
                es.take(lo as int)[j].1,
            ) is None by {
                assert(es.take(lo as int)[j] == es[j]);
                assert(!covers(bound@, es[j].0));
            }
            lemma_picked_none(es.take(lo as int), 0, f);
            assert(byte_strings(out@) =~= keys_in(picked_entries(es.take(lo as int), f)));
        }
        let mut i: usize = lo;
        while i < hi
            invariant
                self.wf(),
                lo <= i <= hi <= es.len(),
                es == self.keys.entries(),
                f == living_in(bound@),
                forall|j: int|
                    0 <= j < es.len() ==> (lo <= j < hi <==> covers(
                        bound@,
                        #[trigger] es[j].0,
                    )),
                byte_strings(out@) == keys_in(picked_entries(es.take(i as int), f)),
            decreases hi - i,
        {
            let ghost before = out@;
            proof {
                lemma_picked_step(es, i as int, f);
                assert(covers(bound@, es[i as int].0));
            }
            if self.keys.val_at(i).is_alive() {
                let k = copy_bytes(self.keys.key_at(i));
                out.push(k);
                assert(byte_strings(out@) =~= byte_strings(before).push(k@));
                assert(byte_strings(out@) =~= keys_in(picked_entries(es.take(i + 1), f)));
            }
            i = i + 1;
        }
        proof {
            assert forall|j: int| hi <= j < es.len() implies f(
                (#[trigger] es[j]).0,
                es[j].1,
            ) is None by {
                assert(!covers(bound@, es[j].0));
            }
            lemma_picked_none(es, hi as int, f);
            assert(byte_strings(out@) =~= keys_in_bound(self@.keys, bound@));
        }
        proof {
            assert forall|i: int| 0 <= i < out@.len() implies self@.living(
                (#[trigger] out@[i])@,
            ) is Some by {
                assert(byte_strings(out@)[i] == out@[i]@);
                assert(keys_in_bound(self@.keys, bound@)[i] == out@[i]@);
            }
        }
        out
    }

    /// The keys of a lease that are alive, in their order.
    pub fn keys_of_lease(&self, id: i64) -> (r: Vec<Vec<u8>>)
        requires
            self.wf(),
        ensures
            byte_strings(r@) == keys_under_lease(self@.keys, id),
            forall|i: int| 0 <= i < r@.len() ==> self@.living((#[trigger] r@[i])@) is Some,
    {
        let ghost es = self.keys.entries();
        let ghost f = living_under(id);
        let mut out: Vec<Vec<u8>> = Vec::new();
        let n: usize = self.keys.len();
        let mut i: usize = 0;
        proof {
            self.keys.lemma_wf();
            assert(es.take(0) =~= Seq::empty());
            assert(byte_strings(out@) =~= keys_in(picked_entries(es.take(0), f)));
        }
        while i < n
            invariant
                self.wf(),
                es == self.keys.entries(),
                i <= n == es.len(),
                f == living_under(id),
                byte_strings(out@) == keys_in(picked_entries(es.take(i as int), f)),
            decreases n - i,
        {
            let ghost before = out@;
            let ks = self.keys.val_at(i);
            proof {
                lemma_picked_step(es, i as int, f);
            }
            if ks.lease == id && ks.is_alive() {
                let k = copy_bytes(self.keys.key_at(i));
                out.push(k);
                assert(byte_strings(out@) =~= byte_strings(before).push(k@));
                assert(byte_strings(out@) =~= keys_in(picked_entries(es.take(i + 1), f)));
            }
            i = i + 1;
        }
        proof {
            assert(es.take(i as int) =~= es);
            lemma_picked(es, f);
            lemma_picked_are_living(self@.keys, f);
            assert(byte_strings(out@) =~= keys_under_lease(self@.keys, id));
            assert forall|i: int| 0 <= i < out@.len() implies self@.living(
                (#[trigger] out@[i])@,
            ) is Some by {
                assert(byte_strings(out@)[i] == out@[i]@);
                assert(keys_under_lease(self@.keys, id)[i] == out@[i]@);
            }
        }
        out
    }

    /// Begins to delete the keys of a lease. Gives nothing, and takes no revision, if it has
    /// none that are alive.
    pub fn delete_keys_for_lease(&mut self, id: i64) -> (r: Option<PendingDelete>)
        requires
            old(self).wf(),
        ensures
            final(self).wf(),
            ({
                let s = old(self)@;
                let doomed = keys_under_lease(s.keys, id);
                match r {
                    None => doomed.len() == 0 && final(self)@ == s,
                    Some(p) => doomed.len() > 0 && final(self)@ == revision_taken(s) && p@
                        == deletion(s.keys, doomed, s.next_rev, false),
                }
            }),
    {
        let keys = self.keys_of_lease(id);
        assert(byte_strings(keys@).len() == keys@.len());
        if keys.len() == 0 {
            return None;
        }
        let rev: u64 = next_revision(&mut self.next_rev);
        Some(self.begin_deletion(keys, rev, false))
    }
}

impl Store {
    /// What it holds is in order.
    pub open spec fn wf(&self) -> bool {
        self.state.wf()
    }

    /// The revision up to which revisions have been given up.
    pub fn compact_rev(&self) -> (r: u64)
        ensures
            r == self@.compact_rev,
    {
        self.state.compact_rev
    }

    /// Whether a query can be carried out or is refused: its scan does not end before it begins.
    pub fn range_ready(&self, req: &RangeRequest) -> (r: bool)
        ensures
            r == (range_refusal(self@, req@) is None ==> scan_ordered(
                resolved_range(req.key@, req.range_end@),
            )),
    {
        let target_rev: u64 = if req.revision > 0 {
            req.revision as u64
        } else {
            0
        };
        target_rev > current_revision(self.state.next_rev) || (target_rev > 0 && target_rev
            < self.state.compact_rev) || is_scan_ordered(&resolve_range(&req.key, &req.range_end))
    }

    /// Whether a deletion can be carried out: its scan does not end before it begins.
    pub fn delete_ready(&self, req: &DeleteRangeRequest) -> (r: bool)
        ensures
            r == scan_ordered(resolved_range(req.key@, req.range_end@)),
    {
        is_scan_ordered(&resolve_range(&req.key, &req.range_end))
    }

    /// Asks for keys. What cannot be told from memory waits for the log to be read.
    pub fn range(&self, req: &RangeRequest) -> (r: Result<RangeStep, StoreError>)
        requires
            self.wf(),
            range_refusal(self@, req@) is None ==> scan_ordered(
                resolved_range(req.key@, req.range_end@),
            ),
        ensures
            match r {
                Err(e) => range_refusal(self@, req@) == Some(e),
                Ok(RangeStep::Done(resp)) => range_refusal(self@, req@) is None && resp@ == (
                if target_of(req@) == 0 {
                    response_of(found_now(self@.keys, req@), req@, self@.revision() as i64)
                } else {
                    response_of(
                        scan_of(self@.keys, req@, target_of(req@)).direct,
                        req@,
                        target_of(req@) as i64,
                    )
                }) && (target_of(req@) > 0 ==> scan_of(
                    self@.keys,
                    req@,
                    target_of(req@),
                ).stale.len() == 0),
                Ok(RangeStep::NeedWal(scan)) => range_refusal(self@, req@) is None && target_of(
                    req@,
                ) > 0 && scan@ == scan_of(self@.keys, req@, target_of(req@)) && scan@.stale.len()
                    > 0 && scan.direct.wf(),
            },
    {
        let target_rev: u64 = if req.revision > 0 {
            req.revision as u64
        } else {
            0
        };
        if target_rev > current_revision(self.state.next_rev) {
            return Err(StoreError::FutureRevision);
        }
        if target_rev > 0 && target_rev < self.state.compact_rev {
            return Err(StoreError::CompactedRevision);
        }
        if target_rev > 0 {
            return Ok(self.state.range_historical(req, target_rev));
        }
        Ok(RangeStep::Done(self.state.range_now(req)))
    }

    /// Answers a query of an earlier revision with what was read of the log.
    pub fn finish_range(&self, scan: HistoricalScan, wal: WalRead) -> (r: Result<
        RangeResponse,
        StoreError,
    >)
        requires
            self.wf(),
            scan.direct.wf(),
        ensures
            match r {
                Ok(resp) => !(wal is Failed) && resp@ == response_of(
                    scan_found(scan@, wal.records(), self@.keys),
                    scan@.req,
                    scan.target_rev as i64,
                ),
                Err(e) => wal is Failed && e == StoreError::WalScanFailed(wal->Failed_0),
            },
    {
        self.state.finish_range(scan, wal)
    }

    /// Begins a put. It takes a revision even if it is refused.
    pub fn put(&mut self, req: PutRequest) -> (r: Result<PendingPut, StoreError>)
        requires
            old(self).wf(),
        ensures
            final(self).wf(),
            final(self)@ == revision_taken(old(self)@),
            match r {
                Err(e) => put_refusal(old(self)@, req@) == Some(e),
                Ok(p) => put_refusal(old(self)@, req@) is None && p@ == pending_put(
                    old(self)@,
                    req@,
                ),
            },
    {
        let ghost s = self@;
        let rev: u64 = next_revision(&mut self.state.next_rev);
        let key = req.key;
        let (value, lease): (Vec<u8>, i64) = match self.state.living(&key) {
            Some(ks) => (
                if req.ignore_value {
                    copy_bytes(&ks.value)
                } else {
                    req.value
                },
                if req.ignore_lease {
                    ks.lease
                } else {
                    req.lease
                },
            ),
            None => {
                if req.ignore_value || req.ignore_lease {
                    return Err(StoreError::KeyNotFound);
                }
                (req.value, req.lease)
            },
        };
        assert(value@ =~= value_to_put(s, req@));
        if lease != 0 && !self.state.leases.contains_key(&lease) {
            return Err(StoreError::LeaseNotFound);
        }
        let mut flags: u8 = 0;
        let (create_revision, version): (u64, i64) = match self.state.living(&key) {
            Some(ks) => (ks.create_revision, ks.version.wrapping_add(1)),
            None => {
                flags = IS_CREATE;
                (rev, 1)
            },
        };
        let ghost created = flags;
        if lease != 0 {
            flags = flags | HAS_LEASE;
        }
        assert(flags == put_flags(s.living(key@) is None, lease)) by {
            assert(created | 0u8 == created) by (bit_vector);
        }
        let record = KvWalRecord::new(
            flags,
            &key,
            &value,
            create_revision as i64,
            rev as i64,
            version,
            lease,
        );
        let pending = PendingPut { key, value, lease, rev, prev_kv: req.prev_kv, record };
        assert(pending@ =~= pending_put(s, req@));
        Ok(pending)
    }

    /// Makes a put that has been logged. Reports one that could not be.
    pub fn finish_put(&mut self, pending: PendingPut, logged: bool) -> (r: Result<
        PutResponse,
        StoreError,
    >)
        requires
            old(self).wf(),
        ensures
            final(self).wf(),
            match r {
                Err(e) => !logged && e == StoreError::WalWriteFailed && final(self)@ == old(self)@,
                Ok(resp) => logged && final(self)@ == after_put(
                    old(self)@,
                    pending@.key,
                    pending@.value,
                    pending.lease,
                    pending.rev,
                    None,
                ) && resp@ == put_answer(old(self)@, pending@),
            },
    {
        if !logged {
            return Err(StoreError::WalWriteFailed);
        }
        let ghost p = pending@;
        let ghost s = self@;
        let want_prev = pending.prev_kv;
        let prev = self.state.apply(
            pending.key,
            pending.value,
            pending.lease,
            pending.rev,
            None,
        );
        let header = self.state.header();
        let prev_kv: Vec<u8> = match prev {
            Some(ks) => if want_prev {
                ks.kv_bytes
            } else {
                Vec::new()
            },
            None => Vec::new(),
        };
        let resp = PutResponse { header, prev_kv };
        assert(resp@ =~= put_answer(s, p));
        Ok(resp)
    }

    /// Begins a deletion. It takes a revision.
    pub fn delete_range(&mut self, req: DeleteRangeRequest) -> (r: PendingDelete)
        requires
            old(self).wf(),
            scan_ordered(resolved_range(req.key@, req.range_end@)),
        ensures
            final(self).wf(),
            final(self)@ == revision_taken(old(self)@),
            r@ == pending_delete(old(self)@, req@),
    {
        let rev: u64 = next_revision(&mut self.state.next_rev);
        let bound = resolve_range(&req.key, &req.range_end);
        let keys = self.state.collect_in_bound(&bound);
        self.state.begin_deletion(keys, rev, req.prev_kv)
    }

    /// Makes a deletion that has been logged. Reports one that could not be.
    pub fn finish_delete_range(&mut self, pending: PendingDelete, logged: bool) -> (r: Result<
        DeleteRangeResponse,
        StoreError,
    >)
        requires
            old(self).wf(),
        ensures
            final(self).wf(),
            match r {
                Err(e) => !logged && e == StoreError::WalWriteFailed && final(self)@ == old(self)@,
                Ok(resp) => logged && final(self)@ == after_deletes(
                    old(self)@,
                    pending@.keys,
                    pending.rev,
                ) && resp@ == delete_answer(final(self)@, pending@),
            },
    {
        if !logged {
            return Err(StoreError::WalWriteFailed);
        }
        let ghost p = pending@;
        self.state.apply_deletes(&pending.keys, pending.rev);
        let prev_kvs = if pending.prev_kv {
            pending.prevs
        } else {
            Vec::new()
        };
        let resp = DeleteRangeResponse {
            header: self.state.header(),
            deleted: pending.keys.len() as i64,
            prev_kvs,
        };
        assert(resp@ =~= delete_answer(self@, p));
        Ok(resp)
    }

    /// Gives up the revisions before one. The keys as they are now stay.
    pub fn compact(&mut self, req: CompactionRequest) -> (r: Result<
        CompactionResponse,
        StoreError,
    >)
        requires
            old(self).wf(),
        ensures
            final(self).wf(),
            match r {
                Err(e) => compact_refusal(old(self)@, req.revision) == Some(e) && final(self)@
                    == old(self)@,
                Ok(resp) => compact_refusal(old(self)@, req.revision) is None && final(self)@
                    == compacted(old(self)@, req.revision) && resp.header == old(self)@.header(),
            },
    {
        let rev: u64 = req.revision as u64;
        if rev > current_revision(self.state.next_rev) {
            return Err(StoreError::CompactFuture);
        }
        if rev <= self.state.compact_rev {
            return Err(StoreError::CompactCompacted);
        }
        self.state.compact_rev = rev;
        Ok(CompactionResponse { header: self.state.header() })
    }
}

} // verus!
