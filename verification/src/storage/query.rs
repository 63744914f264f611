//! Range queries: of the keys as they are now, and of the keys at an earlier revision.

use crate::bytes::copy_bytes;
use crate::sorted_map::{
    lemma_map_of_contains, lemma_map_of_index, lemma_picked, lemma_picked_none, lemma_picked_step,
    listed_keys, listed_values, map_of, picked, picked_entries, sorted, SortedMap,
};
use crate::storage::apply::byte_strings;
use crate::storage::log::{record_views, scan_kv_collect, scan_records};
use crate::storage::messages::{
    RangeRequest, RangeRequestView, RangeResponse, RangeResponseView, StoreError,
};
use crate::storage::range::{
    cover_span, covers, matches_range, resolve_range, resolved_range, scan_ordered, scan_span,
    scanned,
};
use crate::storage::state::{
    current_revision, header_at, make_header, KeyState, KeyStateView, StoreState, StoreView,
};
use crate::storage::wal::{encode_kv, kv_message, KvWalRecord, KvWalRecordView};
use vstd::prelude::*;

verus! {

// ── What a query finds now ────────────────────────────────────────

/// Whether the revisions of a key lie within the bounds that a request sets; zero sets none.
pub open spec fn passes(req: RangeRequestView, ks: KeyStateView) -> bool {
    &&& req.min_mod_revision > 0 ==> ks.mod_revision as i64 >= req.min_mod_revision
    &&& req.max_mod_revision > 0 ==> ks.mod_revision as i64 <= req.max_mod_revision
    &&& req.min_create_revision > 0 ==> ks.create_revision as i64 >= req.min_create_revision
    &&& req.max_create_revision > 0 ==> ks.create_revision as i64 <= req.max_create_revision
}

/// The message by which a key is shown: its own, or one that holds the key alone.
pub open spec fn shown(key: Seq<u8>, kv_bytes: Seq<u8>, keys_only: bool) -> Seq<u8> {
    if keys_only {
        kv_message(key, Seq::empty(), 0, 0, 0, 0)
    } else {
        kv_bytes
    }
}

/// What a request finds of a key now: its message, if it is asked for, is alive, and its
/// revisions pass.
pub open spec fn finds_now(req: RangeRequestView) -> spec_fn(Seq<u8>, KeyStateView) -> Option<
    Seq<u8>,
> {
    |k: Seq<u8>, ks: KeyStateView|
        if covers(resolved_range(req.key, req.range_end), k) && ks.alive() && passes(req, ks) {
            Some(shown(k, ks.kv_bytes, req.keys_only))
        } else {
            None
        }
}

/// All that a request finds now.
pub open spec fn found_now(
    keys: Map<Seq<u8>, KeyStateView>,
    req: RangeRequestView,
) -> Map<Seq<u8>, Seq<u8>> {
    picked(keys, finds_now(req))
}

/// The response that shows messages: their number in all, and, unless only that was asked for,
/// as many of the first as the limit allows; zero allows all.
pub open spec fn paged(
    all: Seq<Seq<u8>>,
    req: RangeRequestView,
    revision: i64,
) -> RangeResponseView {
    let cut = req.limit > 0 && all.len() > req.limit;
    RangeResponseView {
        header: header_at(revision),
        kvs: if req.count_only {
            Seq::empty()
        } else if cut {
            all.take(req.limit as int)
        } else {
            all
        },
        more: cut && !req.count_only,
        count: all.len() as i64,
    }
}

/// The response that shows what was found, in the order of the keys.
pub open spec fn response_of(
    found: Map<Seq<u8>, Seq<u8>>,
    req: RangeRequestView,
    revision: i64,
) -> RangeResponseView {
    paged(listed_values(found), req, revision)
}

// ── What a query finds at an earlier revision ─────────────────────

/// What memory tells of a key at an earlier revision: that the bounds of the request on revisions
/// leave it out, that it was not there, that it was there as it is last known, or that the log has
/// to be asked.
#[derive(Debug, Clone, Copy, PartialEq, Eq, Structural)]
pub enum Trace {
    LeftOut,
    Absent,
    Direct,
    Stale,
}

/// What memory tells of a key at a revision. The bounds of the request are held against what a key
/// that is alive is now. A key that was created later existed then only in an earlier lifetime; one
/// that was deleted by then was not there; one that has been changed since had another value.
pub open spec fn traced(ks: KeyStateView, req: RangeRequestView, rev: u64) -> Trace {
    if ks.alive() && !passes(req, ks) {
        Trace::LeftOut
    } else if ks.create_revision > rev {
        if ks.rebirth {
            Trace::Stale
        } else {
            Trace::Absent
        }
    } else if !ks.alive() && ks.delete_revision <= rev {
        Trace::Absent
    } else if ks.mod_revision <= rev {
        Trace::Direct
    } else {
        Trace::Stale
    }
}

/// What a request finds of a key in memory at a revision.
pub open spec fn finds_direct(req: RangeRequestView, rev: u64) -> spec_fn(
    Seq<u8>,
    KeyStateView,
) -> Option<Seq<u8>> {
    |k: Seq<u8>, ks: KeyStateView|
        if scanned(resolved_range(req.key, req.range_end), k) && traced(ks, req, rev)
            == Trace::Direct {
            Some(shown(k, ks.kv_bytes, req.keys_only))
        } else {
            None
        }
}

/// The keys for which the log has to be asked.
pub open spec fn finds_stale(req: RangeRequestView, rev: u64) -> spec_fn(
    Seq<u8>,
    KeyStateView,
) -> Option<()> {
    |k: Seq<u8>, ks: KeyStateView|
        if scanned(resolved_range(req.key, req.range_end), k) && traced(ks, req, rev)
            == Trace::Stale {
            Some(())
        } else {
            None
        }
}

/// The keys that the bounds of the request on revisions leave out.
pub open spec fn finds_left_out(req: RangeRequestView, rev: u64) -> spec_fn(
    Seq<u8>,
    KeyStateView,
) -> Option<()> {
    |k: Seq<u8>, ks: KeyStateView|
        if scanned(resolved_range(req.key, req.range_end), k) && traced(ks, req, rev)
            == Trace::LeftOut {
            Some(())
        } else {
            None
        }
}

/// The messages of the keys of a bound after one more record, if it is not later than a
/// revision.
pub open spec fn log_step(
    m: Map<Seq<u8>, Seq<u8>>,
    rec: KvWalRecordView,
    key: Seq<u8>,
    range_end: Seq<u8>,
    rev: u64,
) -> Map<Seq<u8>, Seq<u8>> {
    match rec.key() {
        None => m,
        Some(k) => if !covers(resolved_range(key, range_end), k) || rec.revision() > rev {
            m
        } else if rec.deletes() {
            m.remove(k)
        } else {
            m.insert(k, rec.kv_bytes)
        },
    }
}

/// The messages of the keys of a bound that records leave alive at a revision.
pub open spec fn log_state(
    recs: Seq<KvWalRecordView>,
    key: Seq<u8>,
    range_end: Seq<u8>,
    rev: u64,
) -> Map<Seq<u8>, Seq<u8>>
    decreases recs.len(),
{
    if recs.len() == 0 {
        Map::empty()
    } else {
        log_step(log_state(recs.drop_last(), key, range_end, rev), recs.last(), key, range_end, rev)
    }
}

/// Where the log says nothing of a key that memory knows to have been there, the key is shown as
/// it is now: alive still, and not created since.
pub open spec fn shown_as_now(ks: Option<KeyStateView>, rev: u64) -> bool {
    ks is Some && ks->0.alive() && ks->0.create_revision <= rev
}

/// What was found in memory and in the log together.
pub open spec fn merged(
    direct: Map<Seq<u8>, Seq<u8>>,
    stale: Set<Seq<u8>>,
    logged: Map<Seq<u8>, Seq<u8>>,
    now: Map<Seq<u8>, KeyStateView>,
    rev: u64,
    keys_only: bool,
) -> Map<Seq<u8>, Seq<u8>> {
    Map::new(
        |k: Seq<u8>|
            direct.contains_key(k) || logged.contains_key(k)
                || (stale.contains(k) && now.contains_key(k)
                && shown_as_now(Some(now[k]), rev)),
        |k: Seq<u8>|
            if direct.contains_key(k) {
                direct[k]
            } else if logged.contains_key(k) {
                shown(k, logged[k], keys_only)
            } else {
                shown(k, now[k].kv_bytes, keys_only)
            },
    )
}

/// What was read of the log.
#[derive(Debug)]
pub enum WalRead {
    /// Its contents.
    Contents(Vec<u8>),
    /// There is no log: it is being replaced.
    Missing,
    /// It could not be read, for the given reason.
    Failed(String),
}

impl WalRead {
    /// The records that the log holds.
    pub open spec fn records(&self) -> Seq<KvWalRecordView> {
        match self {
            WalRead::Contents(bytes) => scan_records(bytes@),
            _ => Seq::empty(),
        }
    }
}

/// How far a query of an earlier revision has come.
#[verifier::ext_equal]
pub struct HistoricalScanView {
    pub req: RangeRequestView,
    pub target_rev: u64,
    pub direct: Map<Seq<u8>, Seq<u8>>,
    pub stale: Seq<Seq<u8>>,
    pub left_out: Seq<Seq<u8>>,
}

/// A query of an earlier revision for which the log has to be read: what was found in memory,
/// the keys that the log has to be asked for, and those that the query leaves out.
#[derive(Debug)]
pub struct HistoricalScan {
    pub req: RangeRequest,
    pub target_rev: u64,
    pub direct: SortedMap<Vec<u8>>,
    pub stale: Vec<Vec<u8>>,
    pub left_out: Vec<Vec<u8>>,
}

impl View for HistoricalScan {
    type V = HistoricalScanView;

    open spec fn view(&self) -> HistoricalScanView {
        HistoricalScanView {
            req: self.req@,
            target_rev: self.target_rev,
            direct: self.direct@,
            stale: byte_strings(self.stale@),
            left_out: byte_strings(self.left_out@),
        }
    }
}

/// What a query of an earlier revision finds in memory.
pub open spec fn scan_of(
    keys: Map<Seq<u8>, KeyStateView>,
    req: RangeRequestView,
    rev: u64,
) -> HistoricalScanView {
    HistoricalScanView {
        req,
        target_rev: rev,
        direct: picked(keys, finds_direct(req, rev)),
        stale: listed_keys(picked(keys, finds_stale(req, rev))),
        left_out: listed_keys(picked(keys, finds_left_out(req, rev))),
    }
}

/// What the query finds once the log has been read. What it leaves out, it does not take from the
/// log either.
pub open spec fn scan_found(
    scan: HistoricalScanView,
    recs: Seq<KvWalRecordView>,
    now: Map<Seq<u8>, KeyStateView>,
) -> Map<Seq<u8>, Seq<u8>> {
    merged(
        scan.direct,
        scan.stale.to_set(),
        log_state(recs, scan.req.key, scan.req.range_end, scan.target_rev).remove_keys(
            scan.left_out.to_set(),
        ),
        now,
        scan.target_rev,
        scan.req.keys_only,
    )
}

/// The revision that a request is about; zero if it is about now.
pub open spec fn target_of(req: RangeRequestView) -> u64 {
    if req.revision > 0 {
        req.revision as u64
    } else {
        0
    }
}

/// Why a range request is refused, if it is.
pub open spec fn range_refusal(s: StoreView, req: RangeRequestView) -> Option<StoreError> {
    if target_of(req) > s.revision() {
        Some(StoreError::FutureRevision)
    } else if target_of(req) > 0 && target_of(req) < s.compact_rev {
        Some(StoreError::CompactedRevision)
    } else {
        None
    }
}

/// How a range request goes on.
#[derive(Debug)]
pub enum RangeStep {
    /// It is answered.
    Done(RangeResponse),
    /// The log has to be read.
    NeedWal(HistoricalScan),
}

// ── Code ──────────────────────────────────────────────────────────

/// Whether the revisions of a key pass.
fn filter_passes(req: &RangeRequest, ks: &KeyState) -> (r: bool)
    ensures
        r == passes(req@, ks@),
{
    let mod_revision: i64 = ks.mod_revision as i64;
    let create_revision: i64 = ks.create_revision as i64;
    !(req.min_mod_revision > 0 && mod_revision < req.min_mod_revision) && !(req.max_mod_revision
        > 0 && mod_revision > req.max_mod_revision) && !(req.min_create_revision > 0
        && create_revision < req.min_create_revision) && !(req.max_create_revision > 0
        && create_revision > req.max_create_revision)
}

/// The message by which a key is shown.
fn show(key: &[u8], kv_bytes: &[u8], keys_only: bool) -> (r: Vec<u8>)
    ensures
        r@ == shown(key@, kv_bytes@, keys_only),
{
    if keys_only {
        let none: Vec<u8> = Vec::new();
        assert(none@ =~= Seq::empty());
        let (message, _, _) = encode_kv(key, &none, 0, 0, 0, 0);
        message
    } else {
        copy_bytes(kv_bytes)
    }
}

/// What memory tells of a key at a revision.
fn trace(ks: &KeyState, req: &RangeRequest, rev: u64) -> (r: Trace)
    ensures
        r == traced(ks@, req@, rev),
{
    if ks.is_alive() && !filter_passes(req, ks) {
        Trace::LeftOut
    } else if ks.create_revision > rev {
        if ks.rebirth {
            Trace::Stale
        } else {
            Trace::Absent
        }
    } else if !ks.is_alive() && ks.delete_revision <= rev {
        Trace::Absent
    } else if ks.mod_revision <= rev {
        Trace::Direct
    } else {
        Trace::Stale
    }
}

/// The response that shows messages.
fn page(all: Vec<Vec<u8>>, req: &RangeRequest, revision: i64) -> (r: RangeResponse)
    ensures
        r@ == paged(byte_strings(all@), req@, revision),
{
    let count: i64 = all.len() as i64;
    let ghost shown_all = byte_strings(all@);
    if req.count_only {
        let kvs: Vec<Vec<u8>> = Vec::new();
        assert(byte_strings(kvs@) =~= Seq::empty());
        return RangeResponse { header: make_header(revision), kvs, more: false, count };
    }
    let mut kvs = all;
    let mut more = false;
    if req.limit > 0 && kvs.len() as u64 > req.limit as u64 {
        kvs.truncate(req.limit as usize);
        assert(byte_strings(kvs@) =~= shown_all.take(req.limit as int));
        more = true;
    }
    RangeResponse { header: make_header(revision), kvs, more, count }
}

/// The values of a map in the order of its keys.
fn values_of(m: &SortedMap<Vec<u8>>) -> (r: Vec<Vec<u8>>)
    requires
        m.wf(),
    ensures
        byte_strings(r@) == listed_values(m@),
{
    proof {
        m.lemma_wf();
    }
    let ghost es = m.entries();
    let mut out: Vec<Vec<u8>> = Vec::new();
    let n: usize = m.len();
    let mut i: usize = 0;
    while i < n
        invariant
            m.wf(),
            es == m.entries(),
            i <= n == es.len(),
            out@.len() == i,
            forall|j: int| 0 <= j < i ==> (#[trigger] out@[j])@ == es[j].1,
        decreases n - i,
    {
        out.push(copy_bytes(m.val_at(i)));
        i = i + 1;
    }
    assert(byte_strings(out@) =~= listed_values(m@));
    out
}

/// Scans the log up to a revision. Gives the messages of the keys of a bound that are alive then.
pub fn scan_wal_range(wal: &[u8], key: &[u8], range_end: &[u8], up_to_rev: u64) -> (r: SortedMap<
    Vec<u8>,
>)
    ensures
        r.wf(),
        r@ == log_state(scan_records(wal@), key@, range_end@, up_to_rev),
{
    let bound = resolve_range(key, range_end);
    let records = scan_kv_collect(wal);
    let ghost recs = record_views(records@);
    let mut state: SortedMap<Vec<u8>> = SortedMap::new();
    let mut i: usize = 0;
    assert(recs.take(0) =~= Seq::empty());
    while i < records.len()
        invariant
            i <= records@.len(),
            recs == record_views(records@),
            bound@ == resolved_range(key@, range_end@),
            state.wf(),
            state@ == log_state(recs.take(i as int), key@, range_end@, up_to_rev),
        decreases records@.len() - i,
    {
        let rec: &KvWalRecord = &records[i];
        proof {
            assert(recs.take(i + 1).drop_last() =~= recs.take(i as int));
            assert(recs.take(i + 1).last() == rec@);
        }
        let rev: u64 = rec.revision();
        if let Some(rec_key) = rec.key() {
            if matches_range(bound.to_ref(), rec_key) && rev <= up_to_rev {
                if rec.deletes() {
                    state.remove(rec_key);
                } else {
                    state.insert(copy_bytes(rec_key), copy_bytes(&rec.kv_bytes));
                }
            }
        }
        i = i + 1;
    }
    assert(recs.take(i as int) =~= recs);
    state
}

/// Removes keys.
fn remove_all(m: &mut SortedMap<Vec<u8>>, keys: &Vec<Vec<u8>>)
    requires
        old(m).wf(),
    ensures
        final(m).wf(),
        final(m)@ == old(m)@.remove_keys(byte_strings(keys@).to_set()),
{
    let ghost whole = m@;
    let ghost ks = byte_strings(keys@);
    let mut i: usize = 0;
    assert(m@ =~= whole.remove_keys(ks.take(0).to_set()));
    while i < keys.len()
        invariant
            i <= keys@.len(),
            ks == byte_strings(keys@),
            m.wf(),
            m@ == whole.remove_keys(ks.take(i as int).to_set()),
        decreases keys@.len() - i,
    {
        m.remove(&keys[i]);
        proof {
            assert(ks.take(i + 1) =~= ks.take(i as int).push(ks[i as int]));
            ks.take(i as int).lemma_push_to_set_commute(ks[i as int]);
            assert(m@ =~= whole.remove_keys(ks.take(i + 1).to_set()));
        }
        i = i + 1;
    }
    assert(ks.take(i as int) =~= ks);
}

impl StoreState {
    /// The keys as they are now.
    pub fn range_now(&self, req: &RangeRequest) -> (r: RangeResponse)
        requires
            self.wf(),
            scan_ordered(resolved_range(req.key@, req.range_end@)),
        ensures
            r@ == response_of(found_now(self@.keys, req@), req@, self@.revision() as i64),
    {
        let bound = resolve_range(&req.key, &req.range_end);
        let (lo, hi) = cover_span(&self.keys, &bound);
        let ghost es = self.keys.entries();
        let ghost f = finds_now(req@);
        proof {
            self.keys.lemma_wf();
            assert(es.take(lo as int).take(0) =~= Seq::empty());
            assert forall|j: int| 0 <= j < lo implies f(
                (#[trigger] es.take(lo as int)[j]).0,
                es.take(lo as int)[j].1,
            ) is None by {
                assert(es.take(lo as int)[j] == es[j]);
                assert(!covers(bound@, es[j].0));
            }
            lemma_picked_none(es.take(lo as int), 0, f);
        }
        let mut kvs: Vec<Vec<u8>> = Vec::new();
        let mut i: usize = lo;
        assert(byte_strings(kvs@) =~= values_in(picked_entries(es.take(lo as int), f)));
        while i < hi
            invariant
                self.wf(),
                lo <= i <= hi <= es.len(),
                es == self.keys.entries(),
                f == finds_now(req@),
                bound@ == resolved_range(req.key@, req.range_end@),
                forall|j: int|
                    0 <= j < es.len() ==> (lo <= j < hi <==> covers(bound@, #[trigger] es[j].0)),
                byte_strings(kvs@) == values_in(picked_entries(es.take(i as int), f)),
            decreases hi - i,
        {
            let k = self.keys.key_at(i);
            let ks = self.keys.val_at(i);
            proof {
                lemma_picked_step(es, i as int, f);
                assert(covers(bound@, es[i as int].0));
            }
            let ghost before = kvs@;
            if ks.is_alive() && filter_passes(req, ks) {
                let kv = show(k, &ks.kv_bytes, req.keys_only);
                kvs.push(kv);
                proof {
                    assert(f(es[i as int].0, es[i as int].1) == Some(kv@));
                    assert(byte_strings(kvs@) =~= byte_strings(before).push(kv@));
                    assert(byte_strings(kvs@) =~= values_in(picked_entries(es.take(i + 1), f)));
                }
            }
            i = i + 1;
        }
        proof {
            assert forall|j: int| hi <= j < es.len() implies f(
                (#[trigger] es[j]).0,
                es[j].1,
            ) is None by {
                assert(!covers(bound@, es[j].0));
            }
            lemma_picked_none(es, hi as int, f);
            lemma_picked(es, f);
            assert(byte_strings(kvs@) =~= listed_values(found_now(self@.keys, req@)));
        }
        page(kvs, req, current_revision(self.next_rev) as i64)
    }

    /// What memory tells of the keys at an earlier revision.
    pub fn range_historical(&self, req: &RangeRequest, target_rev: u64) -> (r: RangeStep)
        requires
            self.wf(),
            scan_ordered(resolved_range(req.key@, req.range_end@)),
        ensures
            ({
                let scan = scan_of(self@.keys, req@, target_rev);
                match r {
                    RangeStep::Done(resp) => scan.stale.len() == 0 && resp@ == response_of(
                        scan.direct,
                        req@,
                        target_rev as i64,
                    ),
                    RangeStep::NeedWal(pending) => scan.stale.len() > 0 && pending@ == scan
                        && pending.direct.wf(),
                }
            }),
    {
        let bound = resolve_range(&req.key, &req.range_end);
        let (lo, hi) = scan_span(&self.keys, &bound);
        let ghost es = self.keys.entries();
        let ghost f = finds_direct(req@, target_rev);
        let ghost g = finds_stale(req@, target_rev);
        let ghost h = finds_left_out(req@, target_rev);
        proof {
            self.keys.lemma_wf();
            assert(es.take(lo as int).take(0) =~= Seq::empty());
            assert forall|j: int| 0 <= j < lo implies f(
                (#[trigger] es.take(lo as int)[j]).0,
                es.take(lo as int)[j].1,
            ) is None && g(es.take(lo as int)[j].0, es.take(lo as int)[j].1) is None && h(
                es.take(lo as int)[j].0,
                es.take(lo as int)[j].1,
            ) is None by {
                assert(es.take(lo as int)[j] == es[j]);
                assert(!scanned(bound@, es[j].0));
            }
            lemma_picked_none(es.take(lo as int), 0, f);
            lemma_picked_none(es.take(lo as int), 0, g);
            lemma_picked_none(es.take(lo as int), 0, h);
        }
        let mut direct: SortedMap<Vec<u8>> = SortedMap::new();
        let mut stale: Vec<Vec<u8>> = Vec::new();
        let mut left_out: Vec<Vec<u8>> = Vec::new();
        let mut i: usize = lo;
        assert(byte_strings(stale@) =~= keys_in(picked_entries(es.take(lo as int), g)));
        assert(byte_strings(left_out@) =~= keys_in(picked_entries(es.take(lo as int), h)));
        while i < hi
            invariant
                self.wf(),
                lo <= i <= hi <= es.len(),
                es == self.keys.entries(),
                f == finds_direct(req@, target_rev),
                g == finds_stale(req@, target_rev),
                h == finds_left_out(req@, target_rev),
                bound@ == resolved_range(req.key@, req.range_end@),
                forall|j: int|
                    0 <= j < es.len() ==> (lo <= j < hi <==> scanned(bound@, #[trigger] es[j].0)),
                direct.wf(),
                direct@ == map_of(picked_entries(es.take(i as int), f)),
                byte_strings(stale@) == keys_in(picked_entries(es.take(i as int), g)),
                byte_strings(left_out@) == keys_in(picked_entries(es.take(i as int), h)),
            decreases hi - i,
        {
            let k = self.keys.key_at(i);
            let ks = self.keys.val_at(i);
            proof {
                lemma_picked_step(es, i as int, f);
                lemma_picked_step(es, i as int, g);
                lemma_picked_step(es, i as int, h);
                assert(scanned(bound@, es[i as int].0));
            }
            let ghost before = stale@;
            let ghost out_before = left_out@;
            let ghost ds = picked_entries(es.take(i as int), f);
            match trace(ks, req, target_rev) {
                Trace::LeftOut => {
                    left_out.push(copy_bytes(k));
                    proof {
                        assert(byte_strings(left_out@) =~= byte_strings(out_before).push(k@));
                        assert(byte_strings(left_out@) =~= keys_in(
                            picked_entries(es.take(i + 1), h),
                        ));
                    }
                },
                Trace::Absent => {},
                Trace::Direct => {
                    let kv = show(k, &ks.kv_bytes, req.keys_only);
                    direct.insert(copy_bytes(k), kv);
                    proof {
                        assert(f(es[i as int].0, es[i as int].1) == Some(kv@));
                        assert(ds.push((es[i as int].0, kv@)).drop_last() =~= ds);
                    }
                },
                Trace::Stale => {
                    stale.push(copy_bytes(k));
                    proof {
                        assert(byte_strings(stale@) =~= byte_strings(before).push(k@));
                        assert(byte_strings(stale@) =~= keys_in(
                            picked_entries(es.take(i + 1), g),
                        ));
                    }
                },
            }
            i = i + 1;
        }
        proof {
            assert forall|j: int| hi <= j < es.len() implies f(
                (#[trigger] es[j]).0,
                es[j].1,
            ) is None
                && g(es[j].0, es[j].1) is None && h(es[j].0, es[j].1) is None by {
                assert(!scanned(bound@, es[j].0));
            }
            lemma_picked_none(es, hi as int, f);
            lemma_picked_none(es, hi as int, g);
            lemma_picked_none(es, hi as int, h);
            lemma_picked(es, f);
            lemma_picked(es, g);
            lemma_picked(es, h);
            assert(byte_strings(stale@) =~= scan_of(self@.keys, req@, target_rev).stale);
            assert(byte_strings(left_out@) =~= scan_of(self@.keys, req@, target_rev).left_out);
        }
        if stale.len() == 0 {
            return RangeStep::Done(page(values_of(&direct), req, target_rev as i64));
        }
        RangeStep::NeedWal(
            HistoricalScan { req: req.clone(), target_rev, direct, stale, left_out },
        )
    }

    /// Answers a query of an earlier revision with what was read of the log.
    pub fn finish_range(&self, scan: HistoricalScan, wal: WalRead) -> (r: Result<
        RangeResponse,
        StoreError,
    >)
        requires
            self.wf(),
            scan.direct.wf(),
        ensures
            match r {
                Ok(resp) => !(wal is Failed) && resp@ == response_of(
                    scan_found(scan@, wal.records(), self@.keys),
                    scan@.req,
                    scan.target_rev as i64,
                ),
                Err(e) => wal is Failed && e == StoreError::WalScanFailed(wal->Failed_0),
            },
    {
        let mut logged: SortedMap<Vec<u8>> = match wal {
            WalRead::Failed(reason) => {
                return Err(StoreError::WalScanFailed(reason));
            },
            WalRead::Missing => SortedMap::new(),
            WalRead::Contents(bytes) => scan_wal_range(
                &bytes,
                &scan.req.key,
                &scan.req.range_end,
                scan.target_rev,
            ),
        };
        remove_all(&mut logged, &scan.left_out);
        let ghost view = scan@;
        let merged_map = self.merge_found(&scan, &logged);
        assert(merged_map@ =~= scan_found(view, wal.records(), self@.keys));
        Ok(page(values_of(&merged_map), &scan.req, scan.target_rev as i64))
    }

    /// Merges what was found in memory with what the log says.
    fn merge_found(&self, scan: &HistoricalScan, logged: &SortedMap<Vec<u8>>) -> (r: SortedMap<
        Vec<u8>,
    >)
        requires
            self.wf(),
            scan.direct.wf(),
            logged.wf(),
        ensures
            r.wf(),
            r@ == merged(
                scan.direct@,
                scan@.stale.to_set(),
                logged@,
                self@.keys,
                scan.target_rev,
                scan.req.keys_only,
            ),
    {
        let ghost d = scan.direct@;
        let ghost w = logged@;
        let ghost now = self@.keys;
        let ghost rev = scan.target_rev;
        let keys_only = scan.req.keys_only;
        let mut found: SortedMap<Vec<u8>> = SortedMap::new();

        // What is as memory has it.
        let n: usize = scan.direct.len();
        let mut i: usize = 0;
        let ghost ds = scan.direct.entries();
        proof {
            scan.direct.lemma_wf();
            assert(ds.take(0) =~= Seq::empty());
        }
        while i < n
            invariant
                scan.direct.wf(),
                ds == scan.direct.entries(),
                i <= n == ds.len(),
                found.wf(),
                found@ == map_of(ds.take(i as int)),
            decreases n - i,
        {
            found.insert(copy_bytes(scan.direct.key_at(i)), copy_bytes(scan.direct.val_at(i)));
            proof {
                assert(ds.take(i + 1).drop_last() =~= ds.take(i as int));
            }
            i = i + 1;
        }
        assert(ds.take(i as int) =~= ds);

        // What the log was asked for.
        let ghost st = scan@.stale;
        let mut i: usize = 0;
        assert(st.take(0) =~= Seq::empty());
        assert(found@ =~= partly_merged(d, st.take(0).to_set(), w, now, rev, keys_only));
        while i < scan.stale.len()
            invariant
                self.wf(),
                logged.wf(),
                w == logged@,
                now == self@.keys,
                rev == scan.target_rev,
                st == byte_strings(scan.stale@),
                i <= scan.stale@.len(),
                found.wf(),
                found@ == partly_merged(d, st.take(i as int).to_set(), w, now, rev, keys_only),
            decreases scan.stale@.len() - i,
        {
            let key = &scan.stale[i];
            let ghost before = found@;
            proof {
                assert(st.take(i + 1) =~= st.take(i as int).push(key@));
                st.take(i as int).lemma_push_to_set_commute(key@);
            }
            if !found.contains_key(key) {
                if let Some(kv) = logged.get(key) {
                    found.insert(copy_bytes(key), show(key, kv, keys_only));
                } else if let Some(ks) = self.keys.get(key) {
                    if ks.is_alive() && ks.create_revision <= scan.target_rev {
                        found.insert(copy_bytes(key), show(key, &ks.kv_bytes, keys_only));
                    }
                }
            }
            i = i + 1;
            assert(found@ =~= partly_merged(d, st.take(i as int).to_set(), w, now, rev, keys_only));
        }
        assert(st.take(i as int) =~= st);

        // What only the log knows.
        let n: usize = logged.len();
        let mut i: usize = 0;
        let ghost ws = logged.entries();
        let ghost base = found@;
        proof {
            logged.lemma_wf();
        }
        while i < n
            invariant
                logged.wf(),
                w == logged@,
                ws == logged.entries(),
                sorted(ws),
                w == map_of(ws),
                i <= n == ws.len(),
                base == partly_merged(d, st.to_set(), w, now, rev, keys_only),
                found.wf(),
                forall|k: Seq<u8>| #[trigger]
                    found@.contains_key(k) <==> base.contains_key(k) || exists|j: int|
                        0 <= j < i && (#[trigger] ws[j]).0 == k,
                forall|k: Seq<u8>|
                    #![trigger found@[k]]
                    found@.contains_key(k) ==> found@[k] == if base.contains_key(k) {
                        base[k]
                    } else {
                        shown(k, w[k], keys_only)
                    },
            decreases n - i,
        {
            let key = logged.key_at(i);
            proof {
                lemma_map_of_index(ws, i as int);
            }
            if !found.contains_key(key) {
                found.insert(copy_bytes(key), show(key, logged.val_at(i), keys_only));
            }
            i = i + 1;
        }
        proof {
            let m = merged(d, st.to_set(), w, now, rev, keys_only);
            assert forall|k: Seq<u8>| #[trigger] w.contains_key(k) <==> exists|j: int|
                0 <= j < ws.len() && (#[trigger] ws[j]).0 == k by {
                lemma_map_of_contains(ws, k);
            }
            assert(found@ =~= m);
        }
        found
    }
}

/// What has been merged when only some of the keys that the log has to be asked for have been
/// looked at, and nothing else of the log.
spec fn partly_merged(
    direct: Map<Seq<u8>, Seq<u8>>,
    stale: Set<Seq<u8>>,
    logged: Map<Seq<u8>, Seq<u8>>,
    now: Map<Seq<u8>, KeyStateView>,
    rev: u64,
    keys_only: bool,
) -> Map<Seq<u8>, Seq<u8>> {
    merged(direct, stale, logged.restrict(stale), now, rev, keys_only)
}

/// The second components of entries.
pub open spec fn values_in<X>(es: Seq<(Seq<u8>, X)>) -> Seq<X> {
    es.map_values(|e: (Seq<u8>, X)| e.1)
}

/// The first components of entries.
pub open spec fn keys_in<X>(es: Seq<(Seq<u8>, X)>) -> Seq<Seq<u8>> {
    es.map_values(|e: (Seq<u8>, X)| e.0)
}

} // verus!
