//! What a query of an earlier revision promises: to find what a query at that time found.

use crate::sorted_map::{lemma_listed_keys, lemma_picked_finite, listed_keys, picked};
use crate::storage::apply::{after_delete, after_put, after_record, known, put_entry};
use crate::storage::durability::{
    delete_fits, law_delete_is_replayed, law_put_is_replayed, lemma_flags, lemma_record_contents,
    lemma_record_on_keys, put_fits,
};
use crate::storage::key_value::decoded_kv;
use crate::storage::messages::RangeRequestView;
use crate::storage::query::{
    finds_left_out, finds_stale, found_now, log_state, passes, response_of, scan_found, scan_of,
    traced, Trace,
};
use crate::storage::query_laws::{law_query_finds_what_is_there, query_answers};
use crate::storage::range::{
    covers, law_point_scan, law_scan_misses_nothing, resolved_range, scanned,
};
use crate::storage::recovery::replayed;
use crate::storage::state::{empty_store, KeyStateView, StoreView};
use crate::storage::store::{delete_flags, delete_record, put_flags, put_record};
use crate::storage::wal::KvWalRecordView;
use vstd::prelude::*;

verus! {

/// A record that a store writes: its key can be read, of a put also in its message, its revision
/// is not zero, and its key was not created later.
pub open spec fn sound_record(rec: KvWalRecordView) -> bool {
    &&& rec.revision() > 0
    &&& rec.key() is Some
    &&& !rec.deletes() ==> {
        &&& decoded_kv(rec.kv_bytes) is Some
        &&& decoded_kv(rec.kv_bytes)->0.key == rec.key()->0
        &&& decoded_kv(rec.kv_bytes)->0.create_revision as u64 <= rec.revision()
    }
}

/// A record that puts a key which is not alive tells that it creates it.
pub open spec fn begins_lifetime(
    keys: Map<Seq<u8>, KeyStateView>,
    rec: KvWalRecordView,
) -> bool {
    !rec.deletes() && !(known(keys, rec.key()->0) matches Some(ks) && ks.alive())
        ==> decoded_kv(rec.kv_bytes)->0.create_revision as u64 == rec.revision()
}

/// The records of a history that is told from a revision on: each one that a store writes; those
/// up to the revision stand before the later ones; and of the later ones each that puts a key
/// which is not alive creates it. Of the earlier ones this need not be so: they may be those of a
/// compact log.
pub open spec fn sound_history(recs: Seq<KvWalRecordView>, rev: u64) -> bool {
    &&& forall|i: int| 0 <= i < recs.len() ==> sound_record(#[trigger] recs[i])
    &&& forall|i: int, j: int|
        #![trigger recs[i], recs[j]]
        0 <= i < j < recs.len() && recs[j].revision() <= rev ==> recs[i].revision() <= rev
    &&& forall|i: int|
        0 <= i < recs.len() && recs[i].revision() > rev ==> begins_lifetime(
            keys_of(recs.take(i)),
            #[trigger] recs[i],
        )
}

/// The records up to a revision.
pub open spec fn up_to(recs: Seq<KvWalRecordView>, rev: u64) -> Seq<KvWalRecordView>
    decreases recs.len(),
{
    if recs.len() == 0 || recs.last().revision() <= rev {
        recs
    } else {
        up_to(recs.drop_last(), rev)
    }
}

/// The keys that a history leaves.
pub open spec fn keys_of(recs: Seq<KvWalRecordView>) -> Map<Seq<u8>, KeyStateView> {
    replayed(empty_store(), recs).keys
}

/// How what is known of a key may have come from what was known at an earlier revision.
pub open spec fn came_from(a: Option<KeyStateView>, e: Option<KeyStateView>, rev: u64) -> bool {
    match (a, e) {
        (None, None) => true,
        (None, Some(now)) => now.create_revision > rev,
        (Some(_), None) => false,
        (Some(was), Some(now)) => {
            ||| now == was
            ||| now.create_revision > rev && now.rebirth
            ||| {
                // The same lifetime.
                &&& was.alive()
                &&& now.create_revision == was.create_revision
                &&& now.alive() || now.delete_revision > rev
                &&& now.mod_revision > rev || now.mod_revision == was.mod_revision && now.kv_bytes
                    == was.kv_bytes
            }
        },
    }
}

/// At a revision nothing has happened later than it.
pub open spec fn settled(a: Option<KeyStateView>, rev: u64) -> bool {
    a matches Some(ks) ==> ks.create_revision <= rev && ks.mod_revision <= rev
        && ks.delete_revision <= rev
}

/// A record that a store writes changes its own key alone.
proof fn lemma_step_keys(s: StoreView, rec: KvWalRecordView, k: Seq<u8>)
    requires
        sound_record(rec),
    ensures
        ({
            let key = rec.key()->0;
            let before = known(s.keys, key);
            let after = known(after_record(s, rec).keys, k);
            after == if k != key {
                known(s.keys, k)
            } else if rec.deletes() {
                match before {
                    Some(b) if b.alive() => Some(
                        (KeyStateView { delete_revision: rec.revision(), ..b }),
                    ),
                    _ => before,
                }
            } else {
                let kv = decoded_kv(rec.kv_bytes)->0;
                Some(
                    put_entry(
                        before,
                        key,
                        kv.value,
                        kv.lease,
                        rec.revision(),
                        Some(rec.kv_bytes),
                    ),
                )
            }
        }),
{
}

proof fn lemma_sound_front(recs: Seq<KvWalRecordView>, rev: u64)
    requires
        sound_history(recs, rev),
        recs.len() > 0,
    ensures
        sound_history(recs.drop_last(), rev),
        sound_record(recs.last()),
        recs.last().revision() > rev ==> begins_lifetime(keys_of(recs.drop_last()), recs.last()),
        recs.last().revision() <= rev && recs.len() > 1 ==> recs.drop_last().last().revision()
            <= rev,
{
    let front = recs.drop_last();
    assert(recs[recs.len() - 1] == recs.last());
    assert(recs.take(recs.len() - 1) =~= front);
    if recs.len() > 1 {
        assert(front.last() == recs[recs.len() - 2]);
    }
    assert forall|i: int| 0 <= i < front.len() implies sound_record(#[trigger] front[i]) by {
        assert(front[i] == recs[i]);
    }
    assert forall|i: int, j: int|
        #![trigger front[i], front[j]]
        0 <= i < j < front.len() && front[j].revision() <= rev implies front[i].revision()
        <= rev by {
        assert(front[i] == recs[i] && front[j] == recs[j]);
    }
    assert forall|i: int| 0 <= i < front.len() && front[i].revision() > rev implies begins_lifetime(
        keys_of(front.take(i)),
        #[trigger] front[i],
    ) by {
        assert(front[i] == recs[i]);
        assert(front.take(i) =~= recs.take(i));
    }
}

/// The keys of a history whose records are all up to a revision are settled.
proof fn lemma_settled(recs: Seq<KvWalRecordView>, rev: u64, k: Seq<u8>)
    requires
        sound_history(recs, rev),
        recs.len() > 0 ==> recs.last().revision() <= rev,
    ensures
        settled(known(keys_of(recs), k), rev),
    decreases recs.len(),
{
    if recs.len() > 0 {
        lemma_sound_front(recs, rev);
        let front = recs.drop_last();
        lemma_settled(front, rev, k);
        lemma_compact_rev(front);
        lemma_step_keys(replayed(empty_store(), front), recs.last(), k);
    }
}

/// Replaying leaves the revision that is given up.
proof fn lemma_compact_rev(recs: Seq<KvWalRecordView>)
    ensures
        replayed(empty_store(), recs).compact_rev == 0,
    decreases recs.len(),
{
    if recs.len() > 0 {
        lemma_compact_rev(recs.drop_last());
    }
}

/// What is known of a key now has come from what was known at a revision; the log says of the
/// revision what was known then.
proof fn lemma_history(
    recs: Seq<KvWalRecordView>,
    rev: u64,
    key: Seq<u8>,
    range_end: Seq<u8>,
    k: Seq<u8>,
)
    requires
        sound_history(recs, rev),
    ensures
        ({
            let was = known(keys_of(up_to(recs, rev)), k);
            let now = known(keys_of(recs), k);
            let logged = log_state(recs, key, range_end, rev);
            &&& settled(was, rev)
            &&& came_from(was, now, rev)
            &&& logged.contains_key(k) == (covers(resolved_range(key, range_end), k) && was is Some
                && was->0.alive())
            &&& logged.contains_key(k) ==> logged[k] == was->0.kv_bytes
        }),
    decreases recs.len(),
{
    if recs.len() > 0 {
        let front = recs.drop_last();
        let rec = recs.last();
        lemma_sound_front(recs, rev);
        lemma_history(front, rev, key, range_end, k);
        let s = replayed(empty_store(), front);
        lemma_compact_rev(front);
        lemma_step_keys(s, rec, k);
        if rec.revision() <= rev {
            lemma_settled(recs, rev, k);
            assert(up_to(front, rev) == front);
        }
    }
}

/// A request that sets no bounds on revisions.
pub open spec fn no_filters(req: RangeRequestView) -> bool {
    &&& req.min_mod_revision <= 0
    &&& req.max_mod_revision <= 0
    &&& req.min_create_revision <= 0
    &&& req.max_create_revision <= 0
}

/// What memory and the log tell of one key is what was known at the revision.
proof fn lemma_traced(
    recs: Seq<KvWalRecordView>,
    req: RangeRequestView,
    rev: u64,
    k: Seq<u8>,
)
    requires
        sound_history(recs, rev),
        no_filters(req),
    ensures
        ({
            let was = known(keys_of(up_to(recs, rev)), k);
            let now = known(keys_of(recs), k);
            let logged = log_state(recs, req.key, req.range_end, rev);
            let alive = was is Some && was->0.alive();
            &&& now is None ==> !alive
            &&& now matches Some(ks) ==> {
                &&& traced(ks, req, rev) == Trace::Direct ==> alive && ks.kv_bytes
                    == was->0.kv_bytes
                &&& traced(ks, req, rev) == Trace::Absent ==> !alive
                &&& traced(ks, req, rev) == Trace::Stale && ks.create_revision <= rev ==> alive
            }
            &&& logged.contains_key(k) == (covers(resolved_range(req.key, req.range_end), k)
                && alive)
            &&& logged.contains_key(k) ==> logged[k] == was->0.kv_bytes
        }),
{
    lemma_history(recs, rev, req.key, req.range_end, k);
}

/// The keys of a history are finitely many.
pub proof fn lemma_keys_finite(recs: Seq<KvWalRecordView>)
    ensures
        keys_of(recs).dom().finite(),
    decreases recs.len(),
{
    if recs.len() > 0 {
        lemma_keys_finite(recs.drop_last());
    }
}

/// The keys that the log has to be asked for are those that memory cannot tell of.
proof fn lemma_stale(
    keys: Map<Seq<u8>, KeyStateView>,
    req: RangeRequestView,
    rev: u64,
    k: Seq<u8>,
)
    requires
        keys.dom().finite(),
    ensures
        ({
            let stale = scan_of(keys, req, rev).stale;
            stale.to_set().contains(k) == (keys.contains_key(k) && scanned(
                resolved_range(req.key, req.range_end),
                k,
            ) && traced(keys[k], req, rev) == Trace::Stale)
        }),
{
    let g = finds_stale(req, rev);
    let m = picked(keys, g);
    lemma_picked_finite(keys, g);
    lemma_listed_keys(m);
    assert(listed_keys(m).contains(k) == m.contains_key(k));
}

/// The keys that a query leaves out are those that are alive and whose revisions do not pass.
proof fn lemma_left_out(
    keys: Map<Seq<u8>, KeyStateView>,
    req: RangeRequestView,
    rev: u64,
    k: Seq<u8>,
)
    requires
        keys.dom().finite(),
    ensures
        scan_of(keys, req, rev).left_out.to_set().contains(k) == (left_out(keys, req).contains(k)
            && scanned(resolved_range(req.key, req.range_end), k)),
{
    let h = finds_left_out(req, rev);
    let m = picked(keys, h);
    lemma_picked_finite(keys, h);
    lemma_listed_keys(m);
    assert(listed_keys(m).contains(k) == m.contains_key(k));
}

/// A request without the bounds on revisions that it sets.
pub open spec fn without_bounds(req: RangeRequestView) -> RangeRequestView {
    RangeRequestView {
        min_mod_revision: 0,
        max_mod_revision: 0,
        min_create_revision: 0,
        max_create_revision: 0,
        ..req
    }
}

/// The keys that the bounds of a request on revisions leave out: those that are alive and whose
/// revisions do not pass.
pub open spec fn left_out(keys: Map<Seq<u8>, KeyStateView>, req: RangeRequestView) -> Set<Seq<u8>> {
    Set::new(|k: Seq<u8>| keys.contains_key(k) && keys[k].alive() && !passes(req, keys[k]))
}

/// A query of an earlier revision for keys of a range, a prefix, from a key on or for all finds
/// what a query at that revision found, without the keys that its bounds on revisions leave out. These
/// are held against the revisions that the keys have now, whether memory alone answers or the log
/// is read.
pub proof fn law_bounded_query_of_the_past(
    recs: Seq<KvWalRecordView>,
    req: RangeRequestView,
    rev: u64,
)
    requires
        sound_history(recs, rev),
        !(resolved_range(req.key, req.range_end) is Point),
    ensures
        ({
            let keys = keys_of(recs);
            let scan = scan_of(keys, req, rev);
            let then_found = found_now(keys_of(up_to(recs, rev)), without_bounds(req));
            let kept = then_found.remove_keys(left_out(keys, req));
            &&& scan.stale.len() == 0 ==> scan.direct == kept
            &&& scan_found(scan, recs, keys) == kept
        }),
{
    let keys = keys_of(recs);
    let scan = scan_of(keys, req, rev);
    let then_found = found_now(keys_of(up_to(recs, rev)), without_bounds(req));
    let found = scan_found(scan, recs, keys);
    let kept = then_found.remove_keys(left_out(keys, req));
    assert forall|k: Seq<u8>|
        #![trigger kept.contains_key(k)]
        #![trigger found.contains_key(k)]
        found.contains_key(k) == kept.contains_key(k) && (found.contains_key(k) ==> found[k]
            == kept[k]) by {
        lemma_found(recs, req, rev, k);
        law_scan_misses_nothing(resolved_range(req.key, req.range_end), k);
    }
    assert(found =~= kept);
    if scan.stale.len() == 0 {
        assert forall|k: Seq<u8>|
            #![trigger kept.contains_key(k)]
            #![trigger scan.direct.contains_key(k)]
            scan.direct.contains_key(k) == kept.contains_key(k) && (scan.direct.contains_key(k)
                ==> scan.direct[k] == kept[k]) by {
            lemma_found(recs, req, rev, k);
            law_scan_misses_nothing(resolved_range(req.key, req.range_end), k);
        }
        assert(scan.direct =~= kept);
    }
}

/// What is found of a key that a bound names, and of one that a scan does not come by.
proof fn lemma_found(
    recs: Seq<KvWalRecordView>,
    req: RangeRequestView,
    rev: u64,
    k: Seq<u8>,
)
    requires
        sound_history(recs, rev),
        covers(resolved_range(req.key, req.range_end), k) || !scanned(
            resolved_range(req.key, req.range_end),
            k,
        ),
    ensures
        ({
            let keys = keys_of(recs);
            let scan = scan_of(keys, req, rev);
            let then_found = found_now(keys_of(up_to(recs, rev)), without_bounds(req));
            let found = scan_found(scan, recs, keys);
            let kept = then_found.remove_keys(left_out(keys, req));
            &&& found.contains_key(k) == kept.contains_key(k)
            &&& found.contains_key(k) ==> found[k] == then_found[k]
            &&& scan.stale.len() == 0 ==> scan.direct.contains_key(k) == kept.contains_key(k)
            &&& scan.direct.contains_key(k) ==> scan.direct[k] == then_found[k]
        }),
{
    lemma_keys_finite(recs);
    law_scan_misses_nothing(resolved_range(req.key, req.range_end), k);
    lemma_stale(keys_of(recs), req, rev, k);
    lemma_left_out(keys_of(recs), req, rev, k);
    lemma_traced(recs, without_bounds(req), rev, k);
}

/// A query of an earlier revision for keys of a range, a prefix, from a key on or for all, which
/// sets no bounds on revisions, finds what a query at that revision found: from memory alone where
/// no key has changed since, and with the log where some have.
pub proof fn law_query_of_the_past(recs: Seq<KvWalRecordView>, req: RangeRequestView, rev: u64)
    requires
        sound_history(recs, rev),
        no_filters(req),
        !(resolved_range(req.key, req.range_end) is Point),
    ensures
        ({
            let keys = keys_of(recs);
            let scan = scan_of(keys, req, rev);
            let then_found = found_now(keys_of(up_to(recs, rev)), req);
            &&& scan.stale.len() == 0 ==> scan.direct == then_found
            &&& scan_found(scan, recs, keys) == then_found
        }),
{
    law_bounded_query_of_the_past(recs, req, rev);
    let was = keys_of(up_to(recs, rev));
    let then_found = found_now(was, req);
    assert(found_now(was, without_bounds(req)) =~= then_found);
    assert(then_found.remove_keys(left_out(keys_of(recs), req)) =~= then_found);
}

/// A query of an earlier revision for one key, whichever it is, finds the key as a query at that
/// revision found it, unless its bounds on revisions leave the key out. Beside it, it finds only
/// keys that begin with it.
pub proof fn law_query_of_the_past_for_a_key(
    recs: Seq<KvWalRecordView>,
    req: RangeRequestView,
    rev: u64,
    other: Seq<u8>,
)
    requires
        sound_history(recs, rev),
        resolved_range(req.key, req.range_end) is Point,
    ensures
        ({
            let keys = keys_of(recs);
            let k = req.key;
            let scan = scan_of(keys, req, rev);
            let then_found = found_now(keys_of(up_to(recs, rev)), without_bounds(req));
            let found = scan_found(scan, recs, keys);
            let kept = then_found.remove_keys(left_out(keys, req));
            &&& found.contains_key(k) == kept.contains_key(k)
            &&& found.contains_key(k) ==> found[k] == then_found[k]
            &&& scan.stale.len() == 0 ==> scan.direct.contains_key(k) == kept.contains_key(k)
            &&& scan.direct.contains_key(k) ==> scan.direct[k] == then_found[k]
            &&& found.contains_key(other) || scan.direct.contains_key(other)
                ==> k.is_prefix_of(other)
        }),
{
    lemma_found(recs, req, rev, req.key);
    lemma_keys_finite(recs);
    lemma_stale(keys_of(recs), req, rev, other);
    lemma_traced(recs, without_bounds(req), rev, other);
    law_point_scan(req.key, other);
    assert(req.key.is_prefix_of(req.key)) by {
        assert(req.key =~= req.key.subrange(0, req.key.len() as int));
    }
}

/// A query of an earlier revision for keys of a range, a prefix, from a key on or for all, which
/// sets no bounds on revisions, is answered, with the log or from memory alone, as a query at that
/// revision was answered: it counts the keys that were there then and that it asks for, and shows
/// the first of them, in their order, as they were, at the revision that it is about. Gives those
/// keys.
pub proof fn law_past_is_answered_as_it_was(
    recs: Seq<KvWalRecordView>,
    req: RangeRequestView,
    rev: u64,
) -> (ks: Seq<Seq<u8>>)
    requires
        sound_history(recs, rev),
        no_filters(req),
        !(resolved_range(req.key, req.range_end) is Point),
    ensures
        ({
            let scan = scan_of(keys_of(recs), req, rev);
            let was = keys_of(up_to(recs, rev));
            let found = if scan.stale.len() == 0 {
                scan.direct
            } else {
                scan_found(scan, recs, keys_of(recs))
            };
            query_answers(was, req, rev as i64, response_of(found, req, rev as i64), ks)
        }),
{
    law_query_of_the_past(recs, req, rev);
    lemma_keys_finite(up_to(recs, rev));
    law_query_finds_what_is_there(keys_of(up_to(recs, rev)), req, rev as i64)
}

/// A log that is about a key only later than a revision says nothing of it at that revision.
proof fn lemma_log_says_nothing(
    recs: Seq<KvWalRecordView>,
    key: Seq<u8>,
    range_end: Seq<u8>,
    rev: u64,
    k: Seq<u8>,
)
    requires
        forall|i: int|
            0 <= i < recs.len() && (#[trigger] recs[i]).key() == Some(k) ==> recs[i].revision()
                > rev,
    ensures
        !log_state(recs, key, range_end, rev).contains_key(k),
    decreases recs.len(),
{
    if recs.len() > 0 {
        let front = recs.drop_last();
        assert(recs[recs.len() - 1] == recs.last());
        assert forall|i: int|
            0 <= i < front.len() && (#[trigger] front[i]).key() == Some(
                k,
            ) implies front[i].revision() > rev by {
            assert(front[i] == recs[i]);
        }
        lemma_log_says_nothing(front, key, range_end, rev, k);
    }
}

/// Where the log says nothing of a key at an earlier revision, because it has been compacted since
/// or is being replaced, a query of that revision shows what memory tells of the key: where it was
/// there as it is last known, that, and where it has changed since, but is there and was created by
/// then, what it is now; unless the query leaves it out.
pub proof fn law_query_of_the_past_falls_back(
    keys: Map<Seq<u8>, KeyStateView>,
    recs: Seq<KvWalRecordView>,
    req: RangeRequestView,
    rev: u64,
    k: Seq<u8>,
)
    requires
        keys.dom().finite(),
        !(resolved_range(req.key, req.range_end) is Point),
        forall|i: int|
            0 <= i < recs.len() && (#[trigger] recs[i]).key() == Some(k) ==> recs[i].revision()
                > rev,
    ensures
        ({
            let found = scan_found(scan_of(keys, req, rev), recs, keys);
            let ks = keys[k];
            let named = covers(resolved_range(req.key, req.range_end), k);
            let out = ks.delete_revision == 0 && !passes(req, ks);
            let by_then = ks.create_revision <= rev;
            let kept = ks.mod_revision <= rev && (ks.delete_revision == 0 || ks.delete_revision
                > rev);
            &&& found.contains_key(k) == (keys.contains_key(k) && named && !out && by_then && (kept
                || ks.delete_revision == 0))
            &&& found.contains_key(k) && !req.keys_only ==> found[k] == ks.kv_bytes
        }),
{
    lemma_log_says_nothing(recs, req.key, req.range_end, rev, k);
    lemma_stale(keys, req, rev, k);
    lemma_left_out(keys, req, rev, k);
    law_scan_misses_nothing(resolved_range(req.key, req.range_end), k);
}

/// A history stays one when a record that a store writes is put behind it.
proof fn lemma_history_extended(recs: Seq<KvWalRecordView>, rec: KvWalRecordView, rev: u64)
    requires
        sound_history(recs, rev),
        sound_record(rec),
        begins_lifetime(keys_of(recs), rec),
        forall|i: int| 0 <= i < recs.len() ==> (#[trigger] recs[i]).revision() <= rec.revision(),
    ensures
        sound_history(recs.push(rec), rev),
{
    let more = recs.push(rec);
    assert(more.take(recs.len() as int) =~= recs);
    assert forall|i: int| 0 <= i < more.len() implies sound_record(#[trigger] more[i]) by {
        if i < recs.len() {
            assert(more[i] == recs[i]);
        }
    }
    assert forall|i: int, j: int|
        #![trigger more[i], more[j]]
        0 <= i < j < more.len() && more[j].revision() <= rev implies more[i].revision() <= rev by {
        assert(more[i] == recs[i]);
        if j < recs.len() {
            assert(more[j] == recs[j]);
        }
    }
    assert forall|i: int| 0 <= i < more.len() && more[i].revision() > rev implies begins_lifetime(
        keys_of(more.take(i)),
        #[trigger] more[i],
    ) by {
        if i < recs.len() {
            assert(more[i] == recs[i]);
            assert(more.take(i) =~= recs.take(i));
        }
    }
}

/// What a store logs of a put keeps its log a history, told from any revision on, and the history
/// leaves the keys that the store has after the put.
pub proof fn law_put_extends_history(
    recs: Seq<KvWalRecordView>,
    rev: u64,
    s: StoreView,
    key: Seq<u8>,
    value: Seq<u8>,
    lease: i64,
    put_rev: u64,
)
    requires
        sound_history(recs, rev),
        s.keys == keys_of(recs),
        0 < put_rev,
        forall|i: int| 0 <= i < recs.len() ==> (#[trigger] recs[i]).revision() <= put_rev,
        put_fits(s.keys, key, value, lease, put_rev),
    ensures
        ({
            let more = recs.push(put_record(s, key, value, lease, put_rev));
            &&& sound_history(more, rev)
            &&& keys_of(more) == after_put(s, key, value, lease, put_rev, None).keys
        }),
{
    let rec = put_record(s, key, value, lease, put_rev);
    let entry = put_entry(known(s.keys, key), key, value, lease, put_rev, None);
    let create = entry.create_revision;
    assert((create as i64) as u64 == create) by (bit_vector);
    lemma_flags(s.living(key) is None, lease);
    lemma_record_contents(
        put_flags(s.living(key) is None, lease),
        key,
        value,
        create as i64,
        put_rev,
        entry.version,
        lease,
    );
    assert(recs.len() > 0 ==> recs.last() == recs[recs.len() - 1]);
    lemma_settled(recs, put_rev, key);
    lemma_history_extended(recs, rec, rev);
    law_put_is_replayed(s, key, value, lease, put_rev);
    lemma_compact_rev(recs);
    assert(recs.push(rec).drop_last() =~= recs);
    lemma_record_on_keys(replayed(empty_store(), recs), s, rec);
}

/// What a store logs of the deletion of a key that is alive keeps its log a history too.
pub proof fn law_delete_extends_history(
    recs: Seq<KvWalRecordView>,
    rev: u64,
    s: StoreView,
    key: Seq<u8>,
    delete_rev: u64,
)
    requires
        sound_history(recs, rev),
        s.keys == keys_of(recs),
        0 < delete_rev,
        forall|i: int| 0 <= i < recs.len() ==> (#[trigger] recs[i]).revision() <= delete_rev,
        s.living(key) is Some,
        delete_fits(key, s.keys[key], delete_rev),
    ensures
        ({
            let more = recs.push(delete_record(key, s.keys[key], delete_rev));
            &&& sound_history(more, rev)
            &&& keys_of(more) == after_delete(s, key, delete_rev).keys
        }),
{
    let ks = s.keys[key];
    let rec = delete_record(key, ks, delete_rev);
    lemma_flags(true, ks.lease);
    lemma_record_contents(
        delete_flags(ks.lease),
        key,
        ks.value,
        ks.create_revision as i64,
        delete_rev,
        ks.version,
        ks.lease,
    );
    lemma_history_extended(recs, rec, rev);
    law_delete_is_replayed(s, key, ks, delete_rev);
    lemma_compact_rev(recs);
    assert(recs.push(rec).drop_last() =~= recs);
    lemma_record_on_keys(replayed(empty_store(), recs), s, rec);
}

} // verus!
