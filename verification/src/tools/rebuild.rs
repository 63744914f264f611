//! What a log of the older format leaves alive, and a clean log of it.

use crate::bytes::{copy_bytes, push_bytes};
use crate::sorted_map::{
    lemma_listing_exists, lemma_map_of_index, lemma_picked, lemma_picked_step, listed_keys, listing,
    map_of, picked, picked_entries, SortedMap,
};
use crate::storage::apply::byte_strings;
use crate::storage::legacy::{
    law_legacy_log_reads_back, legacy_log, legacy_views, parse_legacy, read_legacy, WalRecord,
    WalRecordView,
};
use crate::storage::query::keys_in;
use crate::storage::state::{count_up, counted_up};
use crate::storage::wal::{DELETED, IS_CREATE};
use vstd::prelude::*;

verus! {

/// What is known of a key.
#[verifier::ext_equal]
pub struct OldKeyStateView {
    pub value: Seq<u8>,
    pub create_revision: u64,
    pub mod_revision: u64,
    pub version: u64,
}

/// What is known of a key.
#[derive(Debug)]
pub struct OldKeyState {
    pub value: Vec<u8>,
    pub create_revision: u64,
    pub mod_revision: u64,
    pub version: u64,
}

impl View for OldKeyState {
    type V = OldKeyStateView;

    open spec fn view(&self) -> OldKeyStateView {
        OldKeyStateView {
            value: self.value@,
            create_revision: self.create_revision,
            mod_revision: self.mod_revision,
            version: self.version,
        }
    }
}

/// What is known of a key after a record that writes it.
pub open spec fn rewritten(before: Option<OldKeyStateView>, rec: WalRecordView) -> OldKeyStateView {
    OldKeyStateView {
        value: rec.value,
        create_revision: if before is None || rec.flags & IS_CREATE != 0 {
            rec.revision
        } else {
            before->0.create_revision
        },
        mod_revision: rec.revision,
        version: match before {
            Some(b) => counted_up(b.version),
            None => 1,
        },
    }
}

/// The keys after a record.
pub open spec fn rebuilt_step(
    m: Map<Seq<u8>, OldKeyStateView>,
    rec: WalRecordView,
) -> Map<Seq<u8>, OldKeyStateView> {
    if rec.flags & DELETED != 0 {
        m.remove(rec.key)
    } else {
        let before = if m.contains_key(rec.key) {
            Some(m[rec.key])
        } else {
            None
        };
        m.insert(rec.key, rewritten(before, rec))
    }
}

/// The keys that records leave alive.
pub open spec fn rebuilt(recs: Seq<WalRecordView>) -> Map<Seq<u8>, OldKeyStateView>
    decreases recs.len(),
{
    if recs.len() == 0 {
        Map::empty()
    } else {
        rebuilt_step(rebuilt(recs.drop_last()), recs.last())
    }
}

/// The highest revision of records; zero if there are none.
pub open spec fn last_revision(recs: Seq<WalRecordView>) -> u64
    decreases recs.len(),
{
    if recs.len() == 0 {
        0
    } else {
        let h = last_revision(recs.drop_last());
        if recs.last().revision > h {
            recs.last().revision
        } else {
            h
        }
    }
}

/// What records leave alive, and their highest revision.
#[derive(Debug)]
pub struct Rebuilt {
    pub keys: SortedMap<OldKeyState>,
    pub max_revision: u64,
}

/// Rebuilds what records leave alive.
pub fn reconstruct_state(records: &Vec<WalRecord>) -> (r: Rebuilt)
    ensures
        r.keys.wf(),
        r.keys@ == rebuilt(legacy_views(records@)),
        r.max_revision == last_revision(legacy_views(records@)),
{
    let ghost recs = legacy_views(records@);
    let mut keys: SortedMap<OldKeyState> = SortedMap::new();
    let mut max_revision: u64 = 0;
    let mut i: usize = 0;
    assert(recs.take(0) =~= Seq::empty());
    while i < records.len()
        invariant
            i <= records@.len(),
            recs == legacy_views(records@),
            keys.wf(),
            keys@ == rebuilt(recs.take(i as int)),
            max_revision == last_revision(recs.take(i as int)),
        decreases records@.len() - i,
    {
        let rec = &records[i];
        proof {
            assert(recs.take(i + 1).drop_last() =~= recs.take(i as int));
            assert(recs.take(i + 1).last() == rec@);
        }
        if rec.revision > max_revision {
            max_revision = rec.revision;
        }
        if rec.flags & DELETED != 0 {
            keys.remove(&rec.key);
        } else {
            let (mut create_revision, mut version): (u64, u64) = match keys.get(&rec.key) {
                Some(ks) => (ks.create_revision, ks.version),
                None => (rec.revision, 0),
            };
            if rec.flags & IS_CREATE != 0 {
                create_revision = rec.revision;
            }
            count_up(&mut version);
            let entry = OldKeyState {
                value: copy_bytes(&rec.value),
                create_revision,
                mod_revision: rec.revision,
                version,
            };
            keys.insert(copy_bytes(&rec.key), entry);
        }
        i = i + 1;
    }
    assert(recs.take(i as int) =~= recs);
    Rebuilt { keys, max_revision }
}

/// The revision at which a compaction once lost keys.
pub const LOSSY_COMPACTION: u64 = 8000;

/// Picks the keys that a compaction at a revision would have lost: created and last written
/// before it.
pub open spec fn older_than(rev: u64) -> spec_fn(Seq<u8>, OldKeyStateView) -> Option<()> {
    |k: Seq<u8>, ks: OldKeyStateView|
        if ks.mod_revision < rev && ks.create_revision < rev {
            Some(())
        } else {
            None
        }
}

/// The keys that a compaction at a revision would have lost, in their order.
pub fn lost_keys(keys: &SortedMap<OldKeyState>, rev: u64) -> (r: Vec<Vec<u8>>)
    requires
        keys.wf(),
    ensures
        byte_strings(r@) == listed_keys(picked(keys@, older_than(rev))),
{
    let ghost es = keys.entries();
    let ghost f = older_than(rev);
    let n: usize = keys.len();
    let mut out: Vec<Vec<u8>> = Vec::new();
    let mut i: usize = 0;
    proof {
        keys.lemma_wf();
        assert(es.take(0) =~= Seq::empty());
        assert(byte_strings(out@) =~= keys_in(picked_entries(es.take(0), f)));
    }
    while i < n
        invariant
            keys.wf(),
            es == keys.entries(),
            f == older_than(rev),
            i <= n == es.len(),
            byte_strings(out@) == keys_in(picked_entries(es.take(i as int), f)),
        decreases n - i,
    {
        let ks = keys.val_at(i);
        let ghost before = out@;
        proof {
            lemma_picked_step(es, i as int, f);
        }
        if ks.mod_revision < rev && ks.create_revision < rev {
            let k = copy_bytes(keys.key_at(i));
            out.push(k);
            assert(byte_strings(out@) =~= byte_strings(before).push(k@));
            assert(byte_strings(out@) =~= keys_in(picked_entries(es.take(i + 1), f)));
        }
        i = i + 1;
    }
    proof {
        assert(es.take(i as int) =~= es);
        lemma_picked(es, f);
        assert(byte_strings(out@) =~= listed_keys(picked(keys@, f)));
    }
    out
}

/// The record by which a key is recovered.
pub open spec fn recovery_record(key: Seq<u8>, ks: OldKeyStateView) -> WalRecordView {
    WalRecordView {
        revision: ks.mod_revision,
        key,
        value: ks.value,
        flags: IS_CREATE,
        lease_id: None,
    }
}

/// The records by which entries are recovered.
pub open spec fn recovery_of(es: Seq<(Seq<u8>, OldKeyStateView)>) -> Seq<WalRecordView> {
    es.map_values(|e: (Seq<u8>, OldKeyStateView)| recovery_record(e.0, e.1))
}

/// A clean log: one record for each key, in the order of the keys.
pub fn write_wal(keys: &SortedMap<OldKeyState>) -> (r: Vec<u8>)
    requires
        keys.wf(),
    ensures
        r@ == legacy_log(recovery_of(listing(keys@))),
{
    let ghost es = keys.entries();
    let n: usize = keys.len();
    let mut buf: Vec<u8> = Vec::new();
    let mut i: usize = 0;
    let ghost recs = recovery_of(es);
    proof {
        keys.lemma_wf();
        assert(recs.take(0) =~= Seq::empty());
    }
    while i < n
        invariant
            keys.wf(),
            es == keys.entries(),
            recs == recovery_of(es),
            i <= n == es.len(),
            buf@ == legacy_log(recs.take(i as int)),
        decreases n - i,
    {
        let ks = keys.val_at(i);
        let rec = WalRecord {
            revision: ks.mod_revision,
            key: copy_bytes(keys.key_at(i)),
            value: copy_bytes(&ks.value),
            flags: IS_CREATE,
            lease_id: None,
        };
        proof {
            assert(rec@ =~= recs[i as int]);
            assert(recs.take(i + 1).drop_last() =~= recs.take(i as int));
        }
        let data = rec.serialize();
        push_bytes(&mut buf, &data);
        i = i + 1;
    }
    assert(recs.take(i as int) =~= recs);
    buf
}

/// What the records by which entries are recovered leave alive.
proof fn lemma_recovered(es: Seq<(Seq<u8>, OldKeyStateView)>, k: Seq<u8>)
    ensures
        ({
            let m = rebuilt(recovery_of(es));
            &&& m.contains_key(k) == map_of(es).contains_key(k)
            &&& m.contains_key(k) ==> m[k].value == map_of(es)[k].value && m[k].mod_revision
                == map_of(es)[k].mod_revision && m[k].create_revision == m[k].mod_revision
        }),
    decreases es.len(),
{
    assert(0x02u8 & 0x01u8 == 0) by (bit_vector);
    assert(0x02u8 & 0x02u8 != 0) by (bit_vector);
    if es.len() > 0 {
        lemma_recovered(es.drop_last(), k);
        assert(recovery_of(es).drop_last() =~= recovery_of(es.drop_last()));
    }
}

/// A clean log reads back: its records are those it was written from, and they leave the same
/// keys alive, with the same values, last written at the same revisions.
pub proof fn law_clean_log_reads_back(m: Map<Seq<u8>, OldKeyStateView>, k: Seq<u8>)
    requires
        m.dom().finite(),
        forall|k: Seq<u8>| #[trigger]
            m.contains_key(k) ==> k.len() < 0x1_0000_0000 && m[k].value.len() < 0x1_0000_0000,
    ensures
        ({
            let recs = read_legacy(legacy_log(recovery_of(listing(m))));
            let again = rebuilt(recs);
            &&& recs == recovery_of(listing(m))
            &&& again.contains_key(k) == m.contains_key(k)
            &&& m.contains_key(k) ==> again[k].value == m[k].value && again[k].mod_revision
                == m[k].mod_revision
        }),
{
    lemma_listing_exists(m);
    let es = listing(m);
    let recs = recovery_of(es);
    assert(0x02u8 & 0x04u8 == 0) by (bit_vector);
    assert forall|i: int| 0 <= i < recs.len() implies (#[trigger] recs[i]).valid() by {
        lemma_map_of_index(es, i);
        assert(m.contains_key(es[i].0));
    }
    law_legacy_log_reads_back(recs, Seq::empty());
    assert(legacy_log(recs) + Seq::<u8>::empty() =~= legacy_log(recs));
    assert(read_legacy(Seq::empty()) =~= Seq::empty()) by {
        reveal(parse_legacy);
    }
    assert(recs + Seq::<WalRecordView>::empty() =~= recs);
    lemma_recovered(es, k);
}

} // verus!
