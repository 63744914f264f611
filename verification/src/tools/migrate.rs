//! From the older format of the log to the newer one.

use crate::bytes::copy_bytes;
use crate::sorted_map::SortedMap;
use crate::storage::apply::{after_record, next_version};
use crate::storage::durability::{lemma_flags, lemma_record_contents};
use crate::storage::key_value::decoded_kv;
use crate::storage::legacy::{legacy_views, WalRecord, WalRecordView};
use crate::storage::log::{
    all_valid, law_scan_of_log, log_bytes, record_fits, record_views, scan_records,
};
use crate::storage::recovery::replayed;
use crate::storage::state::{empty_store, StoreView};
use crate::storage::store::{delete_flags, put_flags};
use crate::storage::wal::{
    new_record, parse_record, KvWalRecord, KvWalRecordView, DELETED, HAS_LEASE, IS_CREATE,
};
use crate::tools::rebuild::rebuilt;
use vstd::prelude::*;

verus! {

/// What a migration knows of a key.
#[verifier::ext_equal]
pub struct MigratedKeyView {
    pub create_revision: u64,
    pub version: i64,
    pub value: Seq<u8>,
    pub lease: i64,
}

/// What a migration knows of a key.
#[derive(Debug)]
pub struct MigratedKey {
    pub create_revision: u64,
    pub version: i64,
    pub value: Vec<u8>,
    pub lease: i64,
}

impl View for MigratedKey {
    type V = MigratedKeyView;

    open spec fn view(&self) -> MigratedKeyView {
        MigratedKeyView {
            create_revision: self.create_revision,
            version: self.version,
            value: self.value@,
            lease: self.lease,
        }
    }
}

/// The lease of a record of the older format; zero if it has none.
pub open spec fn old_lease(rec: WalRecordView) -> i64 {
    if rec.flags & HAS_LEASE != 0 && rec.lease_id is Some {
        rec.lease_id->0
    } else {
        0
    }
}

/// What is known of a key after a record that writes it.
pub open spec fn written(before: Option<MigratedKeyView>, rec: WalRecordView) -> MigratedKeyView {
    MigratedKeyView {
        create_revision: match before {
            Some(b) => b.create_revision,
            None => rec.revision,
        },
        version: match before {
            Some(b) => next_version(b.version),
            None => 1,
        },
        value: rec.value,
        lease: old_lease(rec),
    }
}

/// What a map knows of a key.
pub open spec fn known_of(m: Map<Seq<u8>, MigratedKeyView>, key: Seq<u8>) -> Option<
    MigratedKeyView,
> {
    if m.contains_key(key) {
        Some(m[key])
    } else {
        None
    }
}

/// The keys after a record of the older format.
pub open spec fn migrated_keys_step(
    m: Map<Seq<u8>, MigratedKeyView>,
    rec: WalRecordView,
) -> Map<Seq<u8>, MigratedKeyView> {
    if rec.flags & DELETED != 0 {
        m.remove(rec.key)
    } else {
        m.insert(rec.key, written(known_of(m, rec.key), rec))
    }
}

/// The record of the newer format for one of the older, given what is known of the keys.
pub open spec fn migrated_record(
    m: Map<Seq<u8>, MigratedKeyView>,
    rec: WalRecordView,
) -> KvWalRecordView {
    if rec.flags & DELETED != 0 {
        match known_of(m, rec.key) {
            Some(k) => new_record(
                delete_flags(k.lease),
                rec.key,
                k.value,
                k.create_revision as i64,
                rec.revision as i64,
                k.version,
                k.lease,
            ),
            None => new_record(
                DELETED,
                rec.key,
                Seq::empty(),
                0,
                rec.revision as i64,
                0,
                0,
            ),
        }
    } else {
        let k = written(known_of(m, rec.key), rec);
        new_record(
            put_flags(true, k.lease),
            rec.key,
            k.value,
            k.create_revision as i64,
            rec.revision as i64,
            k.version,
            k.lease,
        )
    }
}

/// The keys after records of the older format.
pub open spec fn migrated_keys(recs: Seq<WalRecordView>) -> Map<Seq<u8>, MigratedKeyView>
    decreases recs.len(),
{
    if recs.len() == 0 {
        Map::empty()
    } else {
        migrated_keys_step(migrated_keys(recs.drop_last()), recs.last())
    }
}

/// The records of the newer format for those of the older.
pub open spec fn migrated(recs: Seq<WalRecordView>) -> Seq<KvWalRecordView>
    decreases recs.len(),
{
    if recs.len() == 0 {
        Seq::empty()
    } else {
        migrated(recs.drop_last()).push(
            migrated_record(migrated_keys(recs.drop_last()), recs.last()),
        )
    }
}

/// The records of the newer format for those of the older.
pub fn migrate(records: &Vec<WalRecord>) -> (r: Vec<KvWalRecord>)
    ensures
        record_views(r@) == migrated(legacy_views(records@)),
{
    let ghost recs = legacy_views(records@);
    let mut out: Vec<KvWalRecord> = Vec::new();
    let mut state: SortedMap<MigratedKey> = SortedMap::new();
    let mut i: usize = 0;
    proof {
        assert(recs.take(0) =~= Seq::empty());
        assert(record_views(out@) =~= Seq::empty());
    }
    while i < records.len()
        invariant
            i <= records@.len(),
            recs == legacy_views(records@),
            state.wf(),
            state@ == migrated_keys(recs.take(i as int)),
            record_views(out@) == migrated(recs.take(i as int)),
        decreases records@.len() - i,
    {
        let rec = &records[i];
        let ghost m = state@;
        let ghost before = out@;
        proof {
            assert(recs.take(i + 1).drop_last() =~= recs.take(i as int));
            assert(recs.take(i + 1).last() == rec@);
        }
        let kv: KvWalRecord;
        if rec.flags & DELETED != 0 {
            kv = deleted_record(rec, &state);
            state.remove(&rec.key);
        } else {
            let lease: i64 = lease_of(rec);
            let (create_revision, version): (u64, i64) = match state.get(&rec.key) {
                Some(k) => (k.create_revision, k.version.wrapping_add(1)),
                None => (rec.revision, 1),
            };
            let mut flags: u8 = IS_CREATE;
            if lease != 0 {
                flags = flags | HAS_LEASE;
            }
            assert(flags == put_flags(true, lease)) by {
                assert(0x02u8 | 0u8 == 0x02u8) by (bit_vector);
            }
            kv = KvWalRecord::new(
                flags,
                &rec.key,
                &rec.value,
                create_revision as i64,
                rec.revision as i64,
                version,
                lease,
            );
            let entry = MigratedKey {
                create_revision,
                version,
                value: copy_bytes(&rec.value),
                lease,
            };
            assert(entry@ =~= written(known_of(m, rec@.key), rec@));
            state.insert(copy_bytes(&rec.key), entry);
        }
        out.push(kv);
        assert(record_views(out@) =~= record_views(before).push(kv@));
        i = i + 1;
    }
    assert(recs.take(i as int) =~= recs);
    out
}

/// The lease of a record of the older format; zero if it has none.
fn lease_of(rec: &WalRecord) -> (r: i64)
    ensures
        r == old_lease(rec@),
{
    if rec.flags & HAS_LEASE != 0 {
        match rec.lease_id {
            Some(id) => id,
            None => 0,
        }
    } else {
        0
    }
}

/// The record of the newer format for one of the older that deletes its key.
fn deleted_record(rec: &WalRecord, state: &SortedMap<MigratedKey>) -> (r: KvWalRecord)
    requires
        state.wf(),
        rec.flags & DELETED != 0,
    ensures
        r@ == migrated_record(state@, rec@),
{
    match state.get(&rec.key) {
        Some(k) => {
            let mut flags: u8 = DELETED;
            if k.lease != 0 {
                flags = flags | HAS_LEASE;
            }
            assert(flags == delete_flags(k.lease)) by {
                assert(0x01u8 | 0u8 == 0x01u8) by (bit_vector);
            }
            KvWalRecord::new(
                flags,
                &rec.key,
                &k.value,
                k.create_revision as i64,
                rec.revision as i64,
                k.version,
                k.lease,
            )
        },
        None => {
            let none: Vec<u8> = Vec::new();
            assert(none@ =~= Seq::empty());
            KvWalRecord::new(DELETED, &rec.key, &none, 0, rec.revision as i64, 0, 0)
        },
    }
}

/// Whether the record of the newer format for one of the older fits into that format.
pub open spec fn migrated_fits(m: Map<Seq<u8>, MigratedKeyView>, rec: WalRecordView) -> bool {
    if rec.flags & DELETED != 0 {
        match known_of(m, rec.key) {
            Some(k) => record_fits(
                rec.key,
                k.value,
                k.create_revision as i64,
                rec.revision as i64,
                k.version,
                k.lease,
            ),
            None => record_fits(rec.key, Seq::empty(), 0, rec.revision as i64, 0, 0),
        }
    } else {
        let k = written(known_of(m, rec.key), rec);
        record_fits(
            rec.key,
            k.value,
            k.create_revision as i64,
            rec.revision as i64,
            k.version,
            k.lease,
        )
    }
}

/// Whether records of the older format have revisions and fit into the newer format.
pub open spec fn migration_fits(recs: Seq<WalRecordView>) -> bool
    decreases recs.len(),
{
    recs.len() > 0 ==> migration_fits(recs.drop_last()) && recs.last().revision > 0
        && migrated_fits(migrated_keys(recs.drop_last()), recs.last())
}

/// What a store knows of a key after a migrated log.
pub open spec fn migration_kept(
    s: StoreView,
    m: Map<Seq<u8>, MigratedKeyView>,
    recs: Seq<WalRecordView>,
    k: Seq<u8>,
) -> bool {
    &&& (s.living(k) is Some) == m.contains_key(k)
    &&& rebuilt(recs).contains_key(k) == m.contains_key(k)
    &&& m.contains_key(k) ==> {
        &&& s.keys[k].value == m[k].value
        &&& s.keys[k].lease == m[k].lease
        &&& s.keys[k].create_revision == m[k].create_revision
        &&& s.keys[k].version == m[k].version
        &&& s.keys[k].value == rebuilt(recs)[k].value
        &&& s.keys[k].mod_revision == rebuilt(recs)[k].mod_revision
    }
}

/// What a reader finds in a migrated record.
proof fn lemma_migrated_record(m: Map<Seq<u8>, MigratedKeyView>, rec: WalRecordView)
    requires
        migrated_fits(m, rec),
    ensures
        ({
            let r = migrated_record(m, rec);
            &&& r.valid()
            &&& r.revision() == rec.revision
            &&& r.key() == Some(rec.key)
            &&& r.deletes() == (rec.flags & DELETED != 0)
            &&& !r.deletes() ==> {
                let kv = decoded_kv(r.kv_bytes);
                &&& kv is Some
                &&& kv->0.key == rec.key
                &&& kv->0.value == rec.value
                &&& kv->0.lease == old_lease(rec)
                &&& kv->0.create_revision as u64 == written(
                    known_of(m, rec.key),
                    rec,
                ).create_revision
                &&& kv->0.version == written(known_of(m, rec.key), rec).version
            }
        }),
{
    if rec.flags & DELETED != 0 {
        match known_of(m, rec.key) {
            Some(k) => {
                lemma_flags(true, k.lease);
                lemma_record_contents(
                    delete_flags(k.lease),
                    rec.key,
                    k.value,
                    k.create_revision as i64,
                    rec.revision,
                    k.version,
                    k.lease,
                );
            },
            None => {
                assert(0x01u8 & 0x01u8 != 0) by (bit_vector);
                lemma_record_contents(DELETED, rec.key, Seq::empty(), 0, rec.revision, 0, 0);
            },
        }
    } else {
        let k = written(known_of(m, rec.key), rec);
        let create = k.create_revision;
        assert((create as i64) as u64 == create) by (bit_vector);
        lemma_flags(true, k.lease);
        lemma_record_contents(
            put_flags(true, k.lease),
            rec.key,
            k.value,
            k.create_revision as i64,
            rec.revision,
            k.version,
            k.lease,
        );
    }
}

/// Replaying a migrated log gives what the log of the older format leaves alive.
proof fn lemma_migration(recs: Seq<WalRecordView>, k: Seq<u8>)
    requires
        migration_fits(recs),
    ensures
        all_valid(migrated(recs)),
        migration_kept(
            replayed(empty_store(), migrated(recs)),
            migrated_keys(recs),
            recs,
            k,
        ),
    decreases recs.len(),
{
    if recs.len() > 0 {
        let front = recs.drop_last();
        let rec = recs.last();
        lemma_migration(front, k);
        lemma_migration(front, rec.key);
        lemma_migrated_record(migrated_keys(front), rec);
        let r = migrated_record(migrated_keys(front), rec);
        assert(migrated(recs).drop_last() =~= migrated(front));
        assert(migrated(recs).last() == r);
        let s = replayed(empty_store(), migrated(front));
        assert(replayed(empty_store(), migrated(recs)) == after_record(s, r));
        assert forall|i: int| 0 <= i < migrated(recs).len() implies (#[trigger] migrated(
            recs,
        )[i]).valid() by {
            if i < migrated(front).len() {
                assert(migrated(recs)[i] == migrated(front)[i]);
            }
        }
    }
}

/// A migration loses nothing: the log of the newer format scans as the migrated records, and a
/// store that replays it holds the keys that the log of the older format leaves alive, with the
/// same values, last written at the same revisions, under their leases.
pub proof fn law_migration_keeps_keys(recs: Seq<WalRecordView>, k: Seq<u8>)
    requires
        migration_fits(recs),
    ensures
        scan_records(log_bytes(migrated(recs))) == migrated(recs),
        migration_kept(
            replayed(empty_store(), migrated(recs)),
            migrated_keys(recs),
            recs,
            k,
        ),
{
    lemma_migration(recs, k);
    law_scan_of_log(migrated(recs), Seq::empty());
    assert(log_bytes(migrated(recs)) + Seq::<u8>::empty() =~= log_bytes(migrated(recs)));
    assert(scan_records(Seq::empty()) =~= Seq::empty()) by {
        reveal(parse_record);
    }
    assert(migrated(recs) + Seq::<KvWalRecordView>::empty() =~= migrated(recs));
}

} // verus!
