//! Looking into a log: what kinds of keys it holds, and whether it is sound.

use crate::bytes::{copy_bytes, starts_with};
use crate::sorted_map::{lemma_map_of_find, lemma_map_of_index, listed_keys, SortedMap};
use crate::storage::apply::next_version;
use crate::storage::log::{law_record_roundtrip, record_views, scan_kv_collect, scan_records};
use crate::storage::state::counted_up;
use crate::storage::wal::{KvWalRecord, KvWalRecordView, IS_CREATE};
use vstd::prelude::*;
use vstd::slice::slice_subrange;
use vstd::string::StringSliceAdditionalSpecFns;
use vstd::utf8::encode_utf8;

verus! {

// ── Categories ────────────────────────────────────────────────────

/// Whether a key begins with a text.
pub open spec fn key_begins(key: Seq<u8>, text: &str) -> bool {
    text.spec_bytes().is_prefix_of(key)
}

/// Whether a key begins with a text.
fn begins(key: &[u8], text: &str) -> (r: bool)
    ensures
        r == key_begins(key@, text),
{
    starts_with(key, text.as_bytes())
}

/// The kind of object that a key stands for.
pub open spec fn category_of(key: Seq<u8>) -> Seq<char> {
    if key_begins(key, "/bootstrap/") {
        "bootstrap"@
    } else if key_begins(key, "/registry/namespaces/") {
        "namespace"@
    } else if key_begins(key, "/registry/pods/") {
        "pod"@
    } else if key_begins(key, "/registry/deployments/") {
        "deployment"@
    } else if key_begins(key, "/registry/statefulsets/") {
        "statefulset"@
    } else if key_begins(key, "/registry/daemonsets/") {
        "daemonset"@
    } else if key_begins(key, "/registry/services/endpoints/") {
        "endpoint"@
    } else if key_begins(key, "/registry/services/specs/") {
        "service"@
    } else if key_begins(key, "/registry/configmaps/") {
        "configmap"@
    } else if key_begins(key, "/registry/secrets/") {
        "secret"@
    } else if key_begins(key, "/registry/serviceaccounts/") {
        "serviceaccount"@
    } else if key_begins(key, "/registry/persistentvolumeclaims/") {
        "pvc"@
    } else if key_begins(key, "/registry/persistentvolumes/") {
        "pv"@
    } else if key_begins(key, "/registry/nodes/") || key_begins(key, "/registry/minions/") {
        "node"@
    } else if key_begins(key, "/registry/leases/") {
        "lease"@
    } else if key_begins(key, "/registry/events/") {
        "event"@
    } else if key_begins(key, "/registry/rbac/") {
        "rbac"@
    } else if key_begins(key, "/registry/clusterroles/") {
        "clusterrole"@
    } else if key_begins(key, "/registry/roles/") {
        "role"@
    } else if key_begins(key, "/registry/rolebindings/") {
        "rolebinding"@
    } else if key_begins(key, "/registry/clusterrolebindings/") {
        "clusterrolebinding"@
    } else if key_begins(key, "/registry/cronjobs/") {
        "cronjob"@
    } else if key_begins(key, "/registry/apiextensions.k8s.io/") {
        "crd"@
    } else if key_begins(key, "/registry/masterleases/") {
        "masterlease"@
    } else if key_begins(key, "/registry/peerserverleases/") {
        "peerserverlease"@
    } else if key_begins(key, "/registry/ranges/") {
        "range"@
    } else if key_begins(key, "/registry/") {
        "other_registry"@
    } else {
        "other"@
    }
}

/// The kind of object that a key stands for.
pub fn category(key: &[u8]) -> (r: &'static str)
    ensures
        r@ == category_of(key@),
{
    if begins(key, "/bootstrap/") {
        "bootstrap"
    } else if begins(key, "/registry/namespaces/") {
        "namespace"
    } else if begins(key, "/registry/pods/") {
        "pod"
    } else if begins(key, "/registry/deployments/") {
        "deployment"
    } else if begins(key, "/registry/statefulsets/") {
        "statefulset"
    } else if begins(key, "/registry/daemonsets/") {
        "daemonset"
    } else if begins(key, "/registry/services/endpoints/") {
        "endpoint"
    } else if begins(key, "/registry/services/specs/") {
        "service"
    } else if begins(key, "/registry/configmaps/") {
        "configmap"
    } else if begins(key, "/registry/secrets/") {
        "secret"
    } else if begins(key, "/registry/serviceaccounts/") {
        "serviceaccount"
    } else if begins(key, "/registry/persistentvolumeclaims/") {
        "pvc"
    } else if begins(key, "/registry/persistentvolumes/") {
        "pv"
    } else if begins(key, "/registry/nodes/") || begins(key, "/registry/minions/") {
        "node"
    } else if begins(key, "/registry/leases/") {
        "lease"
    } else if begins(key, "/registry/events/") {
        "event"
    } else if begins(key, "/registry/rbac/") {
        "rbac"
    } else if begins(key, "/registry/clusterroles/") {
        "clusterrole"
    } else if begins(key, "/registry/roles/") {
        "role"
    } else if begins(key, "/registry/rolebindings/") {
        "rolebinding"
    } else if begins(key, "/registry/clusterrolebindings/") {
        "clusterrolebinding"
    } else if begins(key, "/registry/cronjobs/") {
        "cronjob"
    } else if begins(key, "/registry/apiextensions.k8s.io/") {
        "crd"
    } else if begins(key, "/registry/masterleases/") {
        "masterlease"
    } else if begins(key, "/registry/peerserverleases/") {
        "peerserverlease"
    } else if begins(key, "/registry/ranges/") {
        "range"
    } else if begins(key, "/registry/") {
        "other_registry"
    } else {
        "other"
    }
}

/// The name of a kind of object, in bytes.
pub open spec fn category_bytes(key: Seq<u8>) -> Seq<u8> {
    encode_utf8(category_of(key))
}

/// How many of some keys there are of each kind.
pub open spec fn counted(keys: Seq<Seq<u8>>) -> Map<Seq<u8>, u64>
    decreases keys.len(),
{
    if keys.len() == 0 {
        Map::empty()
    } else {
        let m = counted(keys.drop_last());
        let c = category_bytes(keys.last());
        m.insert(
            c,
            if m.contains_key(c) {
                counted_up(m[c])
            } else {
                1
            },
        )
    }
}

/// How many keys there are of each kind, under the names of the kinds.
pub fn category_counts<V: View>(keys: &SortedMap<V>) -> (r: SortedMap<u64>)
    requires
        keys.wf(),
    ensures
        r.wf(),
        r@ == counted(listed_keys(keys@)),
{
    let n: usize = keys.len();
    let ghost es = keys.entries();
    let ghost ks = listed_keys(keys@);
    proof {
        keys.lemma_wf();
        assert(ks.take(0) =~= Seq::empty());
    }
    let mut counts: SortedMap<u64> = SortedMap::new();
    let mut i: usize = 0;
    while i < n
        invariant
            keys.wf(),
            es == keys.entries(),
            ks == es.map_values(|e: (Seq<u8>, V::V)| e.0),
            i <= n == es.len(),
            counts.wf(),
            counts@ == counted(ks.take(i as int)),
        decreases n - i,
    {
        proof {
            assert(ks.take(i + 1).drop_last() =~= ks.take(i as int));
            assert(ks.take(i + 1).last() == es[i as int].0);
        }
        let name = category(keys.key_at(i));
        let bytes = copy_bytes(name.as_bytes());
        let count: u64 = match counts.get(&bytes) {
            Some(c) => c.wrapping_add(1),
            None => 1,
        };
        counts.insert(bytes, count);
        i = i + 1;
    }
    assert(ks.take(i as int) =~= ks);
    counts
}

/// Whether some key begins with a text.
pub fn any_begins<V: View>(keys: &SortedMap<V>, text: &str) -> (r: bool)
    requires
        keys.wf(),
    ensures
        r == exists|k: Seq<u8>| #[trigger] keys@.contains_key(k) && key_begins(k, text),
{
    let n: usize = keys.len();
    let ghost es = keys.entries();
    proof {
        keys.lemma_wf();
    }
    let mut i: usize = 0;
    while i < n
        invariant
            keys.wf(),
            es == keys.entries(),
            i <= n == es.len(),
            forall|j: int| 0 <= j < i ==> !key_begins((#[trigger] es[j]).0, text),
        decreases n - i,
    {
        if begins(keys.key_at(i), text) {
            proof {
                keys.lemma_wf();
                lemma_map_of_index(es, i as int);
                assert(keys@.contains_key(es[i as int].0));
            }
            return true;
        }
        i = i + 1;
    }
    proof {
        assert forall|k: Seq<u8>| #[trigger] keys@.contains_key(k) implies !key_begins(
            k,
            text,
        ) by {
            let j = lemma_map_of_find(es, k);
            assert(es[j].0 == k);
        }
    }
    false
}

// ── The name in a namespace ───────────────────────────────────────

/// Where a pattern first occurs.
pub open spec fn first_place(s: Seq<u8>, pattern: Seq<u8>) -> Option<nat>
    decreases s.len(),
{
    if pattern.is_prefix_of(s) {
        Some(0)
    } else if s.len() == 0 {
        None
    } else {
        match first_place(s.skip(1), pattern) {
            Some(i) => Some(i + 1),
            None => None,
        }
    }
}

/// The bytes before the first double quote.
pub open spec fn up_to_quote(s: Seq<u8>) -> Seq<u8>
    decreases s.len(),
{
    if s.len() == 0 || s[0] == 0x22 {
        Seq::empty()
    } else {
        seq![s[0]] + up_to_quote(s.skip(1))
    }
}

/// The text that begins a name in JSON.
pub open spec fn name_pattern() -> Seq<u8> {
    seq![0x22u8, 0x6e, 0x61, 0x6d, 0x65, 0x22, 0x3a, 0x22]
}

/// The first name that a JSON text gives, if any: what stands between `"name":"` and the next
/// double quote.
pub open spec fn first_name(s: Seq<u8>) -> Option<Seq<u8>> {
    match first_place(s, name_pattern()) {
        Some(i) => Some(up_to_quote(s.skip((i + 8) as int))),
        None => None,
    }
}

/// The first name that a JSON text gives, if any.
pub fn namespace_name(value: &[u8]) -> (r: Option<Vec<u8>>)
    ensures
        match r {
            Some(name) => first_name(value@) == Some(name@),
            None => first_name(value@) is None,
        },
{
    let n: usize = value.len();
    let pattern: [u8; 8] = [0x22, 0x6e, 0x61, 0x6d, 0x65, 0x22, 0x3a, 0x22];
    assert(pattern@ =~= name_pattern());
    let mut i: usize = 0;
    assert(value@.skip(0) =~= value@);
    while i < n && !starts_with(slice_subrange(value, i, n), &pattern)
        invariant
            i <= n == value@.len(),
            pattern@ == name_pattern(),
            match first_place(value@.skip(i as int), name_pattern()) {
                Some(j) => first_place(value@, name_pattern()) == Some((i + j) as nat),
                None => first_place(value@, name_pattern()) is None,
            },
        decreases n - i,
    {
        proof {
            assert(value@.subrange(i as int, n as int) =~= value@.skip(i as int));
            assert(value@.skip(i as int).skip(1) =~= value@.skip(i + 1));
        }
        i = i + 1;
    }
    proof {
        assert(value@.subrange(i as int, n as int) =~= value@.skip(i as int));
    }
    if i >= n {
        return None;
    }
    let start: usize = i + 8;
    let mut name: Vec<u8> = Vec::new();
    let mut j: usize = start;
    let ghost found = up_to_quote(value@.skip(start as int));
    assert(name@ + found =~= found);
    while j < n && value[j] != 0x22
        invariant
            start <= j <= n == value@.len(),
            name@ + up_to_quote(value@.skip(j as int)) == found,
        decreases n - j,
    {
        proof {
            let rest = value@.skip(j as int);
            assert(rest.skip(1) =~= value@.skip(j + 1));
            assert(name@ + (seq![value@[j as int]] + up_to_quote(rest.skip(1))) =~= name@.push(
                value@[j as int],
            ) + up_to_quote(value@.skip(j + 1)));
        }
        name.push(value[j]);
        j = j + 1;
    }
    assert(name@ + Seq::<u8>::empty() =~= name@);
    Some(name)
}

// ── Whether a log is sound ────────────────────────────────────────

/// What an inspection knows of a key.
#[derive(Debug, Clone, Copy, PartialEq, Eq, Structural)]
pub struct KeyRevisions {
    pub create_revision: i64,
    pub mod_revision: i64,
    pub version: i64,
}

impl View for KeyRevisions {
    type V = KeyRevisions;

    open spec fn view(&self) -> KeyRevisions {
        *self
    }
}

/// What an inspection of records finds.
#[verifier::ext_equal]
pub struct InspectionView {
    pub keys: Map<Seq<u8>, KeyRevisions>,
    pub kv_errors: nat,
    pub max_revision: i64,
}

/// An inspection after one more record: of records whose key cannot be read it counts the
/// number, of others it follows the keys.
pub open spec fn inspected_step(v: InspectionView, rec: KvWalRecordView) -> InspectionView {
    match (rec.key(), rec.mod_revision()) {
        (Some(k), Some(rev)) => InspectionView {
            keys: if rec.deletes() {
                v.keys.remove(k)
            } else {
                v.keys.insert(
                    k,
                    KeyRevisions {
                        create_revision: if !v.keys.contains_key(k) || rec.flags & IS_CREATE != 0 {
                            rev
                        } else {
                            v.keys[k].create_revision
                        },
                        mod_revision: rev,
                        version: if v.keys.contains_key(k) {
                            next_version(v.keys[k].version)
                        } else {
                            1
                        },
                    },
                )
            },
            kv_errors: v.kv_errors,
            max_revision: if rev > v.max_revision {
                rev
            } else {
                v.max_revision
            },
        },
        _ => InspectionView { kv_errors: v.kv_errors + 1, ..v },
    }
}

/// What an inspection of records finds.
pub open spec fn inspected(recs: Seq<KvWalRecordView>) -> InspectionView
    decreases recs.len(),
{
    if recs.len() == 0 {
        InspectionView { keys: Map::empty(), kv_errors: 0, max_revision: 0 }
    } else {
        inspected_step(inspected(recs.drop_last()), recs.last())
    }
}

/// What an inspection of a log found.
#[derive(Debug)]
pub struct Inspection {
    pub keys: SortedMap<KeyRevisions>,
    pub total: usize,
    pub crc_errors: u64,
    pub kv_errors: u64,
    pub max_revision: i64,
}

/// Inspects a log: reads every record again, and follows the keys. A record that was read once
/// is read again without error.
pub fn inspect(wal: &[u8]) -> (r: Inspection)
    ensures
        r.keys.wf(),
        r.total == scan_records(wal@).len(),
        r.crc_errors == 0,
        ({
            let v = inspected(scan_records(wal@));
            &&& r.keys@ == v.keys
            &&& r.kv_errors == v.kv_errors
            &&& r.max_revision == v.max_revision
        }),
{
    let records = scan_kv_collect(wal);
    let ghost recs = record_views(records@);
    let total: usize = records.len();
    assert(recs.len() == total);
    let mut keys: SortedMap<KeyRevisions> = SortedMap::new();
    let mut crc_errors: u64 = 0;
    let mut kv_errors: u64 = 0;
    let mut max_revision: i64 = 0;
    let mut i: usize = 0;
    assert(recs.take(0) =~= Seq::empty());
    while i < total
        invariant
            recs == record_views(records@),
            i <= total == records@.len(),
            forall|j: int| 0 <= j < records@.len() ==> (#[trigger] records@[j])@.valid(),
            keys.wf(),
            crc_errors == 0,
            kv_errors <= i,
            keys@ == inspected(recs.take(i as int)).keys,
            kv_errors == inspected(recs.take(i as int)).kv_errors,
            max_revision == inspected(recs.take(i as int)).max_revision,
        decreases total - i,
    {
        let rec = &records[i];
        proof {
            assert(recs.take(i + 1).drop_last() =~= recs.take(i as int));
            assert(recs.take(i + 1).last() == rec@);
            law_record_roundtrip(rec@, Seq::empty());
            assert(rec@.bytes() + Seq::<u8>::empty() =~= rec@.bytes());
        }
        let data = rec.serialize();
        if KvWalRecord::deserialize(&data).is_err() {
            crc_errors = crc_errors + 1;
        }
        match (rec.key(), rec.mod_revision()) {
            (Some(k), Some(rev)) => {
                if rev > max_revision {
                    max_revision = rev;
                }
                if rec.deletes() {
                    keys.remove(k);
                } else {
                    let (mut create_revision, version): (i64, i64) = match keys.get(k) {
                        Some(ks) => (ks.create_revision, ks.version.wrapping_add(1)),
                        None => (rev, 1),
                    };
                    if rec.flags & IS_CREATE != 0 {
                        create_revision = rev;
                    }
                    keys.insert(
                        copy_bytes(k),
                        KeyRevisions { create_revision, mod_revision: rev, version },
                    );
                }
            },
            _ => {
                kv_errors = kv_errors + 1;
            },
        }
        i = i + 1;
    }
    assert(recs.take(i as int) =~= recs);
    Inspection { keys, total, crc_errors, kv_errors, max_revision }
}

} // verus!
