//! What the log promises: that replaying it gives back what was held in memory.

use crate::bytes::{lemma_lex_irreflexive, lex_lt};
use crate::sorted_map::{
    lemma_listing_exists, lemma_map_of_find, lemma_map_of_index, lemma_picked, listing, map_of,
    sorted,
};
use crate::storage::apply::{
    after_delete, after_deletes, after_put, after_record, keys_after_put, known, put_entry,
};
use crate::storage::key_value::{decoded_kv, law_key_value_roundtrip, KeyValueView};
use crate::storage::log::{
    all_valid, law_new_record, law_scan_of_log, lemma_kv_message_len, log_bytes, record_fits,
    scan_records,
};
use crate::storage::messages::PutRequestView;
use crate::storage::recovery::{
    living, living_keys, opened, replayed, snapshot, snapshot_of, snapshot_record,
};
use crate::storage::state::{empty_store, KeyStateView, StoreView};
use crate::storage::store::{
    delete_flags, delete_record, deletion, pending_put, put_flags, put_record, revision_taken,
};
use crate::storage::wal::{
    kv_message, new_record, parse_record, KvWalRecordView, DELETED, HAS_LEASE,
};
use vstd::prelude::*;

verus! {

/// The flags say what they were made to say.
pub proof fn lemma_flags(is_create: bool, lease: i64)
    ensures
        put_flags(is_create, lease) & DELETED == 0,
        delete_flags(lease) & DELETED != 0,
        HAS_LEASE & DELETED == 0,
        0u8 & DELETED == 0,
{
    assert((0x02u8 | 0x04u8) & 0x01u8 == 0) by (bit_vector);
    assert((0x02u8 | 0u8) & 0x01u8 == 0) by (bit_vector);
    assert((0u8 | 0x04u8) & 0x01u8 == 0) by (bit_vector);
    assert((0u8 | 0u8) & 0x01u8 == 0) by (bit_vector);
    assert((0x01u8 | 0x04u8) & 0x01u8 != 0) by (bit_vector);
    assert((0x01u8 | 0u8) & 0x01u8 != 0) by (bit_vector);
    assert(0x04u8 & 0x01u8 == 0) by (bit_vector);
    assert(0u8 & 0x01u8 == 0) by (bit_vector);
}

/// What a reader finds in the record of a change.
pub proof fn lemma_record_contents(
    flags: u8,
    key: Seq<u8>,
    value: Seq<u8>,
    create_revision: i64,
    rev: u64,
    version: i64,
    lease: i64,
)
    requires
        record_fits(key, value, create_revision, rev as i64, version, lease),
    ensures
        ({
            let rec = new_record(flags, key, value, create_revision, rev as i64, version, lease);
            &&& rec.valid()
            &&& rec.flags == flags
            &&& rec.key() == Some(key)
            &&& rec.revision() == rev
            &&& decoded_kv(rec.kv_bytes) == Some(
                (KeyValueView {
                    key,
                    create_revision,
                    mod_revision: rev as i64,
                    version,
                    value,
                    lease,
                }),
            )
        }),
{
    law_new_record(flags, key, value, create_revision, rev as i64, version, lease);
    lemma_kv_message_len(key, value, create_revision, rev as i64, version, lease);
    lemma_value_in_message(key, value, create_revision, rev as i64, version, lease);
    law_key_value_roundtrip(key, value, create_revision, rev as i64, version, lease);
    assert((rev as i64) as u64 == rev) by (bit_vector);
}

/// A message is at least as long as its value.
proof fn lemma_value_in_message(
    key: Seq<u8>,
    value: Seq<u8>,
    create_revision: i64,
    mod_revision: i64,
    version: i64,
    lease: i64,
)
    ensures
        key.len() + value.len() <= kv_message(
            key,
            value,
            create_revision,
            mod_revision,
            version,
            lease,
        ).len(),
{
    reveal(kv_message);
    lemma_kv_message_len(key, value, create_revision, mod_revision, version, lease);
}

/// Whether the record of a put fits into the log's format.
pub open spec fn put_fits(
    keys: Map<Seq<u8>, KeyStateView>,
    key: Seq<u8>,
    value: Seq<u8>,
    lease: i64,
    rev: u64,
) -> bool {
    let entry = put_entry(known(keys, key), key, value, lease, rev, None);
    record_fits(key, value, entry.create_revision as i64, rev as i64, entry.version, lease)
}

/// Replaying the record of a put does in memory what the put did.
pub proof fn law_put_is_replayed(
    s: StoreView,
    key: Seq<u8>,
    value: Seq<u8>,
    lease: i64,
    rev: u64,
)
    requires
        put_fits(s.keys, key, value, lease, rev),
    ensures
        after_record(s, put_record(s, key, value, lease, rev)) == after_put(
            s,
            key,
            value,
            lease,
            rev,
            None,
        ),
        put_record(s, key, value, lease, rev).revision() == rev,
        put_record(s, key, value, lease, rev).valid(),
{
    let entry = put_entry(known(s.keys, key), key, value, lease, rev, None);
    let flags = put_flags(s.living(key) is None, lease);
    lemma_flags(s.living(key) is None, lease);
    lemma_record_contents(
        flags,
        key,
        value,
        entry.create_revision as i64,
        rev,
        entry.version,
        lease,
    );
    let rec = put_record(s, key, value, lease, rev);
    let again = put_entry(known(s.keys, key), key, value, lease, rev, Some(rec.kv_bytes));
    assert((rev as i64) as u64 == rev) by (bit_vector);
    assert(again =~= entry);
    assert(keys_after_put(s.keys, key, value, lease, rev, Some(rec.kv_bytes)) =~= keys_after_put(
        s.keys,
        key,
        value,
        lease,
        rev,
        None,
    ));
}

/// Whether the record of a deletion fits into the log's format.
pub open spec fn delete_fits(key: Seq<u8>, ks: KeyStateView, rev: u64) -> bool {
    record_fits(key, ks.value, ks.create_revision as i64, rev as i64, ks.version, ks.lease)
}

/// Replaying the record of a deletion does in memory what the deletion did.
pub proof fn law_delete_is_replayed(s: StoreView, key: Seq<u8>, ks: KeyStateView, rev: u64)
    requires
        delete_fits(key, ks, rev),
    ensures
        after_record(s, delete_record(key, ks, rev)) == after_delete(s, key, rev),
        delete_record(key, ks, rev).revision() == rev,
        delete_record(key, ks, rev).valid(),
{
    lemma_flags(true, ks.lease);
    lemma_record_contents(
        delete_flags(ks.lease),
        key,
        ks.value,
        ks.create_revision as i64,
        rev,
        ks.version,
        ks.lease,
    );
}

/// A store after records, none of which is left out.
pub open spec fn after_records(s: StoreView, recs: Seq<KvWalRecordView>) -> StoreView
    decreases recs.len(),
{
    if recs.len() == 0 {
        s
    } else {
        after_record(after_records(s, recs.drop_last()), recs.last())
    }
}

/// Replaying the records of a deletion of several keys does in memory what the deletion did.
pub proof fn law_deletion_is_replayed(
    s: StoreView,
    m: Map<Seq<u8>, KeyStateView>,
    keys: Seq<Seq<u8>>,
    rev: u64,
    prev_kv: bool,
)
    requires
        forall|i: int| 0 <= i < keys.len() ==> delete_fits(#[trigger] keys[i], m[keys[i]], rev),
    ensures
        after_records(s, deletion(m, keys, rev, prev_kv).records) == after_deletes(s, keys, rev),
    decreases keys.len(),
{
    let recs = deletion(m, keys, rev, prev_kv).records;
    if keys.len() > 0 {
        let front = keys.drop_last();
        assert forall|i: int| 0 <= i < front.len() implies delete_fits(
            #[trigger] front[i],
            m[front[i]],
            rev,
        ) by {
            assert(front[i] == keys[i]);
        }
        law_deletion_is_replayed(s, m, front, rev, prev_kv);
        assert(recs.drop_last() =~= deletion(m, front, rev, prev_kv).records);
        assert(keys[keys.len() - 1] == keys.last());
        law_delete_is_replayed(after_deletes(s, front, rev), keys.last(), m[keys.last()], rev);
    }
}

/// What a record does to the keys depends on the keys alone.
pub proof fn lemma_record_on_keys(s: StoreView, t: StoreView, rec: KvWalRecordView)
    requires
        s.keys == t.keys,
    ensures
        after_record(s, rec).keys == after_record(t, rec).keys,
{
}

/// What records do to the keys depends on the keys alone.
pub proof fn lemma_records_on_keys(s: StoreView, t: StoreView, recs: Seq<KvWalRecordView>)
    requires
        s.keys == t.keys,
    ensures
        after_records(s, recs).keys == after_records(t, recs).keys,
    decreases recs.len(),
{
    if recs.len() > 0 {
        lemma_records_on_keys(s, t, recs.drop_last());
        lemma_record_on_keys(
            after_records(s, recs.drop_last()),
            after_records(t, recs.drop_last()),
            recs.last(),
        );
    }
}

/// The store that a log is replayed into when it is opened.
pub open spec fn fresh(compact_rev: u64, next_lease_id: i64) -> StoreView {
    StoreView { compact_rev, next_lease_id, ..empty_store() }
}

/// Replaying more records, all of them later than what was given up, is replaying the first and
/// then the others.
pub proof fn lemma_replayed_append(
    s: StoreView,
    recs: Seq<KvWalRecordView>,
    more: Seq<KvWalRecordView>,
)
    requires
        forall|i: int| 0 <= i < more.len() ==> (#[trigger] more[i]).revision() > s.compact_rev,
    ensures
        replayed(s, recs + more) == after_records(replayed(s, recs), more),
    decreases more.len(),
{
    if more.len() == 0 {
        assert(recs + more =~= recs);
    } else {
        let front = more.drop_last();
        assert((recs + more).drop_last() =~= recs + front);
        assert forall|i: int| 0 <= i < front.len() implies (#[trigger] front[i]).revision()
            > s.compact_rev by {
            assert(front[i] == more[i]);
        }
        lemma_replayed_append(s, recs, front);
        assert(more[more.len() - 1] == more.last());
        assert((recs + more).last() == more.last());
    }
}

/// A put that has been logged survives a restart: a store that is opened from the log, with the
/// record of the put behind the records that were there, knows of the keys what the store knew
/// after the put.
pub proof fn law_put_survives_restart(
    s: StoreView,
    recs: Seq<KvWalRecordView>,
    req: PutRequestView,
    compact_rev: u64,
    next_lease_id: i64,
    now: u128,
    reopened: StoreView,
)
    requires
        all_valid(recs),
        s.keys == replayed(fresh(compact_rev, next_lease_id), recs).keys,
        s.next_rev > compact_rev,
        ({
            let p = pending_put(s, req);
            &&& put_fits(s.keys, p.key, p.value, p.lease, p.rev)
            &&& opened(
                scan_records(log_bytes(recs) + p.record.bytes()),
                compact_rev,
                next_lease_id,
                now,
                reopened,
            )
        }),
    ensures
        ({
            let p = pending_put(s, req);
            reopened.keys == after_put(
                revision_taken(s),
                p.key,
                p.value,
                p.lease,
                p.rev,
                None,
            ).keys
        }),
{
    let p = pending_put(s, req);
    let base = fresh(compact_rev, next_lease_id);
    law_put_is_replayed(s, p.key, p.value, p.lease, p.rev);
    lemma_scan_of_appended(recs, seq![p.record]);
    lemma_replayed_append(base, recs, seq![p.record]);
    let r = replayed(base, recs);
    assert(seq![p.record].drop_last() =~= Seq::empty());
    assert(after_records(r, seq![p.record].drop_last()) == r);
    assert(after_records(r, seq![p.record]) == after_record(r, p.record));
    lemma_record_on_keys(r, s, p.record);
}

/// A log with more records behind it scans as all of them.
proof fn lemma_scan_of_appended(recs: Seq<KvWalRecordView>, more: Seq<KvWalRecordView>)
    requires
        all_valid(recs),
        all_valid(more),
    ensures
        scan_records(log_bytes(recs) + log_bytes(more)) == recs + more,
        more.len() == 1 ==> log_bytes(more) == more[0].bytes(),
{
    law_scan_of_log(recs, log_bytes(more));
    law_scan_of_log(more, Seq::empty());
    assert(log_bytes(more) + Seq::<u8>::empty() =~= log_bytes(more));
    assert(scan_records(Seq::empty()) =~= Seq::empty()) by {
        reveal(parse_record);
    }
    assert(more + Seq::<KvWalRecordView>::empty() =~= more);
    if more.len() == 1 {
        assert(log_bytes(more.skip(1)) =~= Seq::empty());
        assert(log_bytes(more) =~= more[0].bytes());
    }
}

/// A deletion that has been logged survives a restart.
pub proof fn law_deletion_survives_restart(
    s: StoreView,
    recs: Seq<KvWalRecordView>,
    keys: Seq<Seq<u8>>,
    rev: u64,
    prev_kv: bool,
    compact_rev: u64,
    next_lease_id: i64,
    now: u128,
    reopened: StoreView,
)
    requires
        all_valid(recs),
        s.keys == replayed(fresh(compact_rev, next_lease_id), recs).keys,
        rev > compact_rev,
        forall|i: int|
            0 <= i < keys.len() ==> delete_fits(#[trigger] keys[i], s.keys[keys[i]], rev),
        opened(
            scan_records(
                log_bytes(recs) + log_bytes(deletion(s.keys, keys, rev, prev_kv).records),
            ),
            compact_rev,
            next_lease_id,
            now,
            reopened,
        ),
    ensures
        reopened.keys == after_deletes(s, keys, rev).keys,
{
    let more = deletion(s.keys, keys, rev, prev_kv).records;
    let base = fresh(compact_rev, next_lease_id);
    assert forall|i: int| 0 <= i < more.len() implies (#[trigger] more[i]).valid()
        && more[i].revision() == rev by {
        assert(delete_fits(keys[i], s.keys[keys[i]], rev));
        law_delete_is_replayed(s, keys[i], s.keys[keys[i]], rev);
    }
    lemma_scan_of_appended(recs, more);
    lemma_replayed_append(base, recs, more);
    law_deletion_is_replayed(s, s.keys, keys, rev, prev_kv);
    lemma_records_on_keys(replayed(base, recs), s, more);
}

// ── Compaction of the log ─────────────────────────────────────────

/// What is known of a key that was read from a compact log: what was known before, save that its
/// earlier lifetimes are forgotten.
pub open spec fn resumed(key: Seq<u8>, ks: KeyStateView) -> KeyStateView {
    KeyStateView { rebirth: false, kv_bytes: ks.message(key), ..ks }
}

/// The record of a key that is alive fits into the log's format.
pub open spec fn snapshot_fits(key: Seq<u8>, ks: KeyStateView) -> bool {
    record_fits(
        key,
        ks.value,
        ks.create_revision as i64,
        ks.mod_revision as i64,
        ks.version,
        ks.lease,
    )
}

/// The keys that a compact log of sorted entries gives.
proof fn lemma_snapshot_replayed(base: StoreView, es: Seq<(Seq<u8>, KeyStateView)>)
    requires
        sorted(es),
        base.keys == Map::<Seq<u8>, KeyStateView>::empty(),
        forall|i: int|
            0 <= i < es.len() ==> snapshot_fits((#[trigger] es[i]).0, es[i].1) && es[i].1.alive()
                && es[i].1.mod_revision > base.compact_rev,
    ensures
        all_valid(snapshot_of(es)),
        ({
            let keys = replayed(base, snapshot_of(es)).keys;
            &&& keys.dom() == map_of(es).dom()
            &&& forall|k: Seq<u8>| #[trigger]
                keys.contains_key(k) ==> keys[k] == resumed(k, map_of(es)[k])
        }),
    decreases es.len(),
{
    let recs = snapshot_of(es);
    if es.len() == 0 {
        assert(replayed(base, recs).keys.dom() =~= map_of(es).dom());
    } else {
        let front = es.drop_last();
        let (k, ks) = es.last();
        assert(sorted(front));
        assert forall|i: int| 0 <= i < front.len() implies snapshot_fits(
            (#[trigger] front[i]).0,
            front[i].1,
        ) && front[i].1.alive() && front[i].1.mod_revision > base.compact_rev by {
            assert(front[i] == es[i]);
        }
        lemma_snapshot_replayed(base, front);
        assert(recs.drop_last() =~= snapshot_of(front));
        assert(es[es.len() - 1] == es.last());
        let rec = snapshot_record(k, ks);
        lemma_flags(true, ks.lease);
        lemma_record_contents(
            if ks.lease != 0 {
                HAS_LEASE
            } else {
                0
            },
            k,
            ks.value,
            ks.create_revision as i64,
            ks.mod_revision,
            ks.version,
            ks.lease,
        );
        let r = replayed(base, recs.drop_last());
        assert(!map_of(front).contains_key(k)) by {
            if map_of(front).contains_key(k) {
                let i = lemma_map_of_find(front, k);
                assert(lex_lt(es[i].0, es[es.len() - 1].0));
                lemma_lex_irreflexive(k);
            }
        }
        assert(!r.keys.contains_key(k));
        let keys = replayed(base, recs).keys;
        let create = ks.create_revision;
        assert((create as i64) as u64 == create) by (bit_vector);
        assert(keys[k] =~= resumed(k, ks));
        assert(keys.dom() =~= map_of(es).dom());
        assert forall|q: Seq<u8>| #[trigger] keys.contains_key(q) implies keys[q] == resumed(
            q,
            map_of(es)[q],
        ) by {
            if q != k {
                assert(r.keys.contains_key(q));
            }
        }
        assert forall|i: int| 0 <= i < recs.len() implies (#[trigger] recs[i]).valid() by {
            if i < recs.len() - 1 {
                assert(recs[i] == snapshot_of(front)[i]);
            } else {
                assert(recs[i] == rec);
            }
        }
    }
}

/// Compacting the log loses nothing that is alive: a store that is opened from the compact log
/// holds the same keys, with the same values, creation revisions, revisions, versions and leases,
/// and no others. That a key had earlier lifetimes is forgotten, as the log no longer tells of
/// them.
pub proof fn law_compaction_preserves(
    keys: Map<Seq<u8>, KeyStateView>,
    compact_rev: u64,
    next_lease_id: i64,
    now: u128,
    reopened: StoreView,
)
    requires
        keys.dom().finite(),
        forall|k: Seq<u8>| #[trigger]
            keys.contains_key(k) && keys[k].alive() ==> snapshot_fits(k, keys[k])
                && keys[k].mod_revision > compact_rev,
        opened(
            scan_records(log_bytes(snapshot(keys))),
            compact_rev,
            next_lease_id,
            now,
            reopened,
        ),
    ensures
        forall|k: Seq<u8>| #[trigger]
            reopened.keys.contains_key(k) <==> keys.contains_key(k) && keys[k].alive(),
        forall|k: Seq<u8>|
            keys.contains_key(k) && keys[k].alive() ==> #[trigger] reopened.keys[k] == resumed(
                k,
                keys[k],
            ),
        forall|k: Seq<u8>|
            keys.contains_key(k) && keys[k].alive() ==> {
                let now = #[trigger] reopened.keys[k];
                &&& now.value == keys[k].value
                &&& now.create_revision == keys[k].create_revision
                &&& now.mod_revision == keys[k].mod_revision
                &&& now.version == keys[k].version
                &&& now.lease == keys[k].lease
            },
{
    lemma_listing_exists(keys);
    lemma_picked(listing(keys), living());
    let m = living_keys(keys);
    let es = listing(m);
    let base = fresh(compact_rev, next_lease_id);
    assert forall|i: int| 0 <= i < es.len() implies snapshot_fits((#[trigger] es[i]).0, es[i].1)
        && es[i].1.alive() && es[i].1.mod_revision > compact_rev by {
        lemma_map_of_index(es, i);
        assert(m.contains_key(es[i].0));
        assert(keys.contains_key(es[i].0));
    }
    lemma_snapshot_replayed(base, es);
    let recs = snapshot(keys);
    law_scan_of_log(recs, Seq::empty());
    assert(log_bytes(recs) + Seq::<u8>::empty() =~= log_bytes(recs));
    assert(scan_records(Seq::empty()) =~= Seq::empty()) by {
        reveal(parse_record);
    }
    assert(recs + Seq::<KvWalRecordView>::empty() =~= recs);
    let r = replayed(base, recs).keys;
    assert forall|k: Seq<u8>| #[trigger] r.contains_key(k) <==> keys.contains_key(k)
        && keys[k].alive() by {
        assert(r.dom().contains(k) == m.dom().contains(k));
    }
    assert forall|k: Seq<u8>| keys.contains_key(k) && keys[k].alive() implies #[trigger] r[k]
        == resumed(k, keys[k]) by {
        assert(r.contains_key(k));
    }
}

/// What a compact log says of a key that is alive: one record, which does not delete and does not
/// claim to create the key, about the key and at its revision, whose message says what is known of
/// the key; and it is flagged if the key is under a lease.
pub proof fn law_compact_log_tells_each_key(key: Seq<u8>, ks: KeyStateView)
    requires
        snapshot_fits(key, ks),
    ensures
        ({
            let rec = snapshot_record(key, ks);
            &&& rec.valid()
            &&& rec.key() == Some(key)
            &&& rec.revision() == ks.mod_revision
            &&& rec.flags & 0x01 == 0
            &&& rec.flags & 0x02 == 0
            &&& (rec.flags & 0x04 != 0) == (ks.lease != 0)
            &&& decoded_kv(rec.kv_bytes) == Some(
                (KeyValueView {
                    key,
                    create_revision: ks.create_revision as i64,
                    mod_revision: ks.mod_revision as i64,
                    version: ks.version,
                    value: ks.value,
                    lease: ks.lease,
                }),
            )
        }),
{
    let flags = if ks.lease != 0 {
        HAS_LEASE
    } else {
        0
    };
    lemma_record_contents(
        flags,
        key,
        ks.value,
        ks.create_revision as i64,
        ks.mod_revision,
        ks.version,
        ks.lease,
    );
    assert(0x04u8 & 0x01u8 == 0 && 0x04u8 & 0x02u8 == 0 && 0x04u8 & 0x04u8 != 0) by (bit_vector);
    assert(0u8 & 0x01u8 == 0 && 0u8 & 0x02u8 == 0 && 0u8 & 0x04u8 == 0) by (bit_vector);
}

/// Two stores hold the same: the same keys are alive, with the same values, creation revisions,
/// revisions, versions and leases.
pub open spec fn hold_the_same(
    a: Map<Seq<u8>, KeyStateView>,
    b: Map<Seq<u8>, KeyStateView>,
) -> bool {
    forall|k: Seq<u8>|
        #![trigger a.contains_key(k)]
        #![trigger b.contains_key(k)]
        {
            &&& (a.contains_key(k) && a[k].alive()) == (b.contains_key(k) && b[k].alive())
            &&& a.contains_key(k) && a[k].alive() ==> {
                &&& a[k].value == b[k].value
                &&& a[k].create_revision == b[k].create_revision
                &&& a[k].mod_revision == b[k].mod_revision
                &&& a[k].version == b[k].version
                &&& a[k].lease == b[k].lease
            }
        }
}

/// The same record keeps two stores holding the same.
proof fn lemma_record_alike(s: StoreView, t: StoreView, rec: KvWalRecordView)
    requires
        hold_the_same(s.keys, t.keys),
    ensures
        hold_the_same(after_record(s, rec).keys, after_record(t, rec).keys),
{
    let key = if rec.deletes() {
        match rec.key() {
            Some(k) => k,
            None => Seq::empty(),
        }
    } else {
        match decoded_kv(rec.kv_bytes) {
            Some(kv) => kv.key,
            None => Seq::empty(),
        }
    };
    let a = after_record(s, rec).keys;
    let b = after_record(t, rec).keys;
    assert(s.keys.contains_key(key) || !s.keys.contains_key(key));
    assert forall|k: Seq<u8>|
        #![trigger a.contains_key(k)]
        #![trigger b.contains_key(k)]
        {
            &&& (a.contains_key(k) && a[k].alive()) == (b.contains_key(k) && b[k].alive())
            &&& a.contains_key(k) && a[k].alive() ==> {
                &&& a[k].value == b[k].value
                &&& a[k].create_revision == b[k].create_revision
                &&& a[k].mod_revision == b[k].mod_revision
                &&& a[k].version == b[k].version
                &&& a[k].lease == b[k].lease
            }
        } by {
        assert(s.keys.contains_key(k) || !s.keys.contains_key(k));
        assert(t.keys.contains_key(k) || !t.keys.contains_key(k));
    }
}

/// The same records keep two stores holding the same.
proof fn lemma_records_alike(s: StoreView, t: StoreView, recs: Seq<KvWalRecordView>)
    requires
        hold_the_same(s.keys, t.keys),
    ensures
        hold_the_same(after_records(s, recs).keys, after_records(t, recs).keys),
    decreases recs.len(),
{
    if recs.len() > 0 {
        lemma_records_alike(s, t, recs.drop_last());
        lemma_record_alike(
            after_records(s, recs.drop_last()),
            after_records(t, recs.drop_last()),
            recs.last(),
        );
    }
}

/// Changes that are logged while the log is being compacted are not lost: a store that is opened
/// from the compact log with them behind it holds what the store holds that went on.
pub proof fn law_compaction_keeps_tail(
    s: StoreView,
    tail: Seq<KvWalRecordView>,
    compact_rev: u64,
    next_lease_id: i64,
    now: u128,
    reopened: StoreView,
)
    requires
        s.keys.dom().finite(),
        forall|k: Seq<u8>| #[trigger]
            s.keys.contains_key(k) && s.keys[k].alive() ==> snapshot_fits(k, s.keys[k])
                && s.keys[k].mod_revision > compact_rev,
        all_valid(tail),
        forall|i: int| 0 <= i < tail.len() ==> (#[trigger] tail[i]).revision() > compact_rev,
        opened(
            scan_records(log_bytes(snapshot(s.keys)) + log_bytes(tail)),
            compact_rev,
            next_lease_id,
            now,
            reopened,
        ),
    ensures
        hold_the_same(reopened.keys, after_records(s, tail).keys),
{
    lemma_listing_exists(s.keys);
    lemma_picked(listing(s.keys), living());
    let m = living_keys(s.keys);
    let es = listing(m);
    let base = fresh(compact_rev, next_lease_id);
    assert forall|i: int| 0 <= i < es.len() implies snapshot_fits((#[trigger] es[i]).0, es[i].1)
        && es[i].1.alive() && es[i].1.mod_revision > compact_rev by {
        lemma_map_of_index(es, i);
        assert(m.contains_key(es[i].0));
        assert(s.keys.contains_key(es[i].0));
    }
    lemma_snapshot_replayed(base, es);
    let recs = snapshot(s.keys);
    lemma_scan_of_appended(recs, tail);
    lemma_replayed_append(base, recs, tail);
    let r = replayed(base, recs);
    assert(hold_the_same(r.keys, s.keys)) by {
        assert forall|k: Seq<u8>|
            #![trigger r.keys.contains_key(k)]
            #![trigger s.keys.contains_key(k)]
            {
                &&& (r.keys.contains_key(k) && r.keys[k].alive()) == (s.keys.contains_key(k)
                    && s.keys[k].alive())
                &&& r.keys.contains_key(k) && r.keys[k].alive() ==> {
                    &&& r.keys[k].value == s.keys[k].value
                    &&& r.keys[k].create_revision == s.keys[k].create_revision
                    &&& r.keys[k].mod_revision == s.keys[k].mod_revision
                    &&& r.keys[k].version == s.keys[k].version
                    &&& r.keys[k].lease == s.keys[k].lease
                }
            } by {
            assert(r.keys.dom().contains(k) == m.dom().contains(k));
        }
    }
    lemma_records_alike(r, s, tail);
}

} // verus!
