#![allow(dead_code, unused_mut, unused_must_use)]

use rudurru::storage::key_value::KeyValue;
use rudurru::storage::recovery::{compacted_wal, count_wal_records, needs_compaction};
use rudurru::storage::wal::{KvWalRecord, HAS_LEASE, IS_CREATE};
use rudurru::storage::messages::{
    DeleteRangeRequest, DeleteRangeResponse, PutRequest, PutResponse, RangeRequest, RangeResponse,
    StoreError,
};
use rudurru::storage::query::{RangeStep, WalRead};
use rudurru::storage::{current_revision, Store};

#[derive(Default)]
struct Put {
    key: Vec<u8>,
    value: Vec<u8>,
    lease: i64,
    prev_kv: bool,
    ignore_value: bool,
    ignore_lease: bool,
}

#[derive(Default)]
struct Delete {
    key: Vec<u8>,
    range_end: Vec<u8>,
    prev_kv: bool,
}

#[derive(Default)]
struct Range {
    key: Vec<u8>,
    range_end: Vec<u8>,
    limit: i64,
    revision: i64,
    keys_only: bool,
    count_only: bool,
    min_mod_revision: i64,
    max_mod_revision: i64,
    min_create_revision: i64,
    max_create_revision: i64,
}

/// A store whose log is kept in memory.
struct Db {
    store: Store,
    wal: Vec<u8>,
}

impl Db {
    fn new() -> Db {
        Db { store: Store::open(&[], 0, 1, 0), wal: Vec::new() }
    }

    fn reopen(&self) -> Db {
        let s = &self.store.state;
        Db {
            store: Store::open(&self.wal, s.compact_rev, s.next_lease_id, 0),
            wal: self.wal.clone(),
        }
    }

    fn revision(&self) -> u64 {
        current_revision(self.store.state.next_rev)
    }

    fn give_up(&mut self, rev: u64) {
        self.store.state.compact_rev = rev;
    }

    fn put(&mut self, p: Put) -> Result<PutResponse, StoreError> {
        let pending = self.store.put(PutRequest {
            key: p.key,
            value: p.value,
            lease: p.lease,
            prev_kv: p.prev_kv,
            ignore_value: p.ignore_value,
            ignore_lease: p.ignore_lease,
        })?;
        self.wal.extend(pending.log_bytes());
        self.store.finish_put(pending, true)
    }

    fn delete_range(&mut self, d: Delete) -> Result<DeleteRangeResponse, StoreError> {
        let pending = self.store.delete_range(DeleteRangeRequest {
            key: d.key,
            range_end: d.range_end,
            prev_kv: d.prev_kv,
        });
        self.wal.extend(pending.log_bytes());
        self.store.finish_delete_range(pending, true)
    }

    fn range(&self, r: Range) -> Result<RangeResponse, StoreError> {
        let req = RangeRequest {
            key: r.key,
            range_end: r.range_end,
            limit: r.limit,
            revision: r.revision,
            keys_only: r.keys_only,
            count_only: r.count_only,
            min_mod_revision: r.min_mod_revision,
            max_mod_revision: r.max_mod_revision,
            min_create_revision: r.min_create_revision,
            max_create_revision: r.max_create_revision,
        };
        match self.store.range(&req)? {
            RangeStep::Done(resp) => Ok(resp),
            RangeStep::NeedWal(scan) => {
                self.store.finish_range(scan, WalRead::Contents(self.wal.clone()))
            }
        }
    }

    fn compact_wal(&mut self) -> Result<(), StoreError> {
        let records = self.store.state.snapshot_records();
        self.wal = compacted_wal(&records, &[]);
        Ok(())
    }
}

#[test]
fn test_compact_basic() {
    let mut store = Db::new();

    // Create stale records by updating keys multiple times
    for i in 0u64..5 {
        store
            .put(Put {
                key: b"k1".to_vec(),
                value: format!("v{i}").into_bytes(),
                ..Default::default()
            });
    }
    store
        .put(Put {
            key: b"k2".to_vec(),
            value: b"v".to_vec(),
            ..Default::default()
        });

    let size_before = store.wal.len();
    store.compact_wal().unwrap();
    let size_after = store.wal.len();

    // 5 stale records for k1 + 1 for k2 = 6 before; 2 after
    assert!(
        size_after < size_before,
        "WAL should shrink: {size_after} >= {size_before}"
    );
    assert!(size_after > 0, "WAL should not be empty");

    let resp = store
        .range(Range {
            key: b"".to_vec(),
            range_end: vec![0],
            ..Default::default()
        })
        .unwrap();
    assert_eq!(resp.count, 2, "keys preserved after compaction");
}

#[test]
fn test_compact_empty_store() {
    let mut store = Db::new();

    store.compact_wal().unwrap();
    // Empty store → 0 snapshot records + 0 tail = 0-byte WAL (valid)

    let resp = store
        .range(Range {
            key: b"".to_vec(),
            range_end: vec![0],
            ..Default::default()
        })
        .unwrap();
    assert_eq!(resp.count, 0, "no keys in empty store");
}

#[test]
fn test_compact_with_deletes() {
    let mut store = Db::new();

    store
        .put(Put {
            key: b"k1".to_vec(),
            value: b"v1".to_vec(),
            ..Default::default()
        });
    store
        .put(Put {
            key: b"k2".to_vec(),
            value: b"v2".to_vec(),
            ..Default::default()
        });

    store
        .delete_range(Delete {
            key: b"k1".to_vec(),
            ..Default::default()
        });

    store.compact_wal().unwrap();

    let resp = store
        .range(Range {
            key: b"".to_vec(),
            range_end: vec![0],
            ..Default::default()
        })
        .unwrap();
    assert_eq!(resp.count, 1, "only k2 after compact");
}

#[test]
fn test_compact_restart_recovery() {
    let mut store = Db::new();

    // Write, compact, write more
    store
        .put(Put {
            key: b"k1".to_vec(),
            value: b"v1".to_vec(),
            ..Default::default()
        });
    store
        .put(Put {
            key: b"k2".to_vec(),
            value: b"v2".to_vec(),
            ..Default::default()
        });

    store.compact_wal().unwrap();

    store
        .put(Put {
            key: b"k3".to_vec(),
            value: b"v3".to_vec(),
            ..Default::default()
        });

    let final_rev = store.revision();

    // Reopen from the compacted WAL
    let store2 = store.reopen();

    let resp = store2
        .range(Range {
            key: b"".to_vec(),
            range_end: vec![0],
            ..Default::default()
        })
        .unwrap();
    assert_eq!(resp.count, 3, "all 3 keys after restart from compacted WAL");
    assert_eq!(
        store2.revision(),
        final_rev,
        "revision matches after restart"
    );
}

#[test]
fn test_compact_tail_preserves_concurrent_writes() {
    let mut store = Db::new();

    // Seed some data
    for i in 0u64..10 {
        store
            .put(Put {
                key: format!("k{i}").into_bytes(),
                value: b"v".to_vec(),
                ..Default::default()
            });
    }

    // A write between the snapshot and the end of the compaction
    let records = store.store.state.snapshot_records();
    let size = store.wal.len();
    store
        .put(Put {
            key: b"concurrent".to_vec(),
            value: b"c".to_vec(),
            ..Default::default()
        });
    let tail = store.wal[size..].to_vec();
    assert_eq!(count_wal_records(&tail), 1);
    store.wal = compacted_wal(&records, &tail);

    // Verify concurrent write is visible
    let resp = store
        .range(Range {
            key: b"concurrent".to_vec(),
            ..Default::default()
        })
        .unwrap();
    assert_eq!(resp.count, 1, "concurrent write preserved after compact");

    // Restart and verify
    let store2 = store.reopen();
    let resp2 = store2
        .range(Range {
            key: b"".to_vec(),
            range_end: vec![0],
            ..Default::default()
        })
        .unwrap();
    assert_eq!(resp2.count, 11, "all 11 keys after restart");
}

fn make_lease_put_record(key: &[u8], rev: u64, lease: i64) -> KvWalRecord {
    let flags = IS_CREATE | HAS_LEASE;
    KvWalRecord::new(flags, key, b"v", rev as i64, rev as i64, 1, lease)
}

fn make_plain_put_record(key: &[u8], rev: u64) -> KvWalRecord {
    KvWalRecord::new(IS_CREATE, key, b"v", rev as i64, rev as i64, 1, 0)
}

fn rebuild_from(records: &[KvWalRecord]) -> Store {
    let mut wal = Vec::new();
    for r in records {
        wal.extend(r.serialize());
    }
    Store::open(&wal, 0, 1, 0)
}

#[test]
fn test_leases_restored_after_open() {
    let store = rebuild_from(&[make_lease_put_record(b"/registry/test/leased", 10, 42)]);
    let state = &store.state;

    assert!(state.leases.contains_key(&42), "LeaseState should exist for restored lease 42");

    let ks = state.keys.get(b"/registry/test/leased").unwrap();
    assert!(ks.is_alive(), "key should be alive");
    assert_eq!(ks.lease, 42, "key should reference lease 42");

    let next_after = state.next_lease_id;
    assert!(next_after > 42, "next lease id ({}) should be beyond restored lease 42", next_after);
}

#[test]
fn test_leases_restored_multiple_ids() {
    let store = rebuild_from(&[
        make_lease_put_record(b"/registry/a", 10, 42),
        make_lease_put_record(b"/registry/b", 20, 99),
    ]);
    let state = &store.state;

    assert_eq!(state.leases.len(), 2, "both leases should be restored");
    assert!(state.leases.contains_key(&42), "lease 42 restored");
    assert!(state.leases.contains_key(&99), "lease 99 restored");

    let next_after = state.next_lease_id;
    assert!(next_after > 99, "next lease id ({}) > max restored(99)", next_after);
}

#[test]
fn test_no_leases_no_restore() {
    let store = rebuild_from(&[make_plain_put_record(b"/registry/nolease", 10)]);
    let state = &store.state;

    assert_eq!(state.leases.len(), 0, "no leases should be restored when none exist");

    let next_after = state.next_lease_id;
    assert_eq!(next_after, 1, "next lease id should stay at 1 when no leases restored");
}

#[test]
fn test_next_lease_id_bumps_past_restored_max() {
    let store = rebuild_from(&[
        make_lease_put_record(b"/registry/a", 10, 5),
        make_lease_put_record(b"/registry/b", 20, 99),
        make_lease_put_record(b"/registry/c", 30, 42),
    ]);

    let next_id = store.state.next_lease_id;
    assert_eq!(next_id, 100, "next lease id should be max(5,99,42)+1 = 100, got {next_id}");
}

#[test]
fn a_restored_lease_lasts_an_hour() {
    let mut wal = make_lease_put_record(b"k", 10, 42).serialize();
    wal.extend(make_lease_put_record(b"l", 11, 42).serialize());
    let store = Store::open(&wal, 0, 1, 500);
    let ls = store.state.leases.get(&42).unwrap();
    assert_eq!(ls.ttl, 3600);
    assert_eq!(ls.expires_at, 500 + 3_600_000_000_000);
    assert_eq!(store.state.lease_count, 1);
    assert_eq!(store.state.key_count, 2);
    assert_eq!(store.state.next_rev, 12);
}

#[test]
fn opening_passes_over_what_was_given_up() {
    let mut wal = make_plain_put_record(b"old", 5).serialize();
    wal.extend(make_plain_put_record(b"new", 6).serialize());
    let store = Store::open(&wal, 5, 1, 0);
    assert!(store.state.keys.get(b"old").is_none());
    assert!(store.state.keys.get(b"new").is_some());
    assert_eq!(store.state.next_rev, 7);
    let store = Store::open(&wal, 6, 1, 0);
    assert_eq!(store.state.next_rev, 1);
    assert_eq!(store.state.key_count, 0);
}

#[test]
fn puts_and_deletions_survive_a_restart() {
    let mut store = Db::new();
    for i in 0..6 {
        store.put(Put { key: vec![b'a' + i % 3], value: vec![i], ..Default::default() }).unwrap();
    }
    store.delete_range(Delete { key: b"b".to_vec(), ..Default::default() }).unwrap();
    store.put(Put { key: b"b".to_vec(), value: b"again".to_vec(), ..Default::default() }).unwrap();
    store.delete_range(Delete { key: b"c".to_vec(), ..Default::default() }).unwrap();
    let again = store.reopen();
    assert_eq!(again.revision(), store.revision());
    assert_eq!(again.store.state.keys.len(), store.store.state.keys.len());
    for i in 0..store.store.state.keys.len() {
        let a = store.store.state.keys.val_at(i);
        let b = again.store.state.keys.val_at(i);
        assert_eq!(store.store.state.keys.key_at(i), again.store.state.keys.key_at(i));
        assert_eq!(a.value, b.value);
        assert_eq!(a.mod_revision, b.mod_revision);
        assert_eq!(a.create_revision, b.create_revision);
        assert_eq!(a.version, b.version);
        assert_eq!(a.delete_revision, b.delete_revision);
        assert_eq!(a.rebirth, b.rebirth);
        assert_eq!(a.kv_bytes, b.kv_bytes);
    }
    assert_eq!(store.store.state.key_count, 2);
    assert_eq!(again.store.state.key_count, 2);
}

#[test]
fn a_compacted_log_keeps_values_revisions_and_versions() {
    let mut store = Db::new();
    store.put(Put { key: b"k".to_vec(), value: b"v1".to_vec(), ..Default::default() }).unwrap();
    store.put(Put { key: b"k".to_vec(), value: b"v2".to_vec(), ..Default::default() }).unwrap();
    let hash = store.store.store_hash();
    store.compact_wal().unwrap();
    let again = store.reopen();
    let ks = again.store.state.keys.get(b"k").unwrap();
    assert_eq!(ks.value, b"v2");
    assert_eq!(ks.mod_revision, 2);
    assert_eq!(ks.create_revision, 1);
    assert_eq!(ks.version, 2);
    assert_eq!(again.revision(), 2);
    let kv = KeyValue::decode(&ks.kv_bytes).unwrap();
    assert_eq!(kv.create_revision, 1);
    assert_eq!(kv.version, 2);
    assert_eq!(again.store.store_hash(), hash);
}

#[test]
fn a_log_is_compacted_once_it_is_larger() {
    assert!(!needs_compaction(64 * 1024 * 1024 - 1));
    assert!(!needs_compaction(64 * 1024 * 1024));
    assert!(needs_compaction(64 * 1024 * 1024 + 1));
}

#[test]
fn the_hash_is_that_of_the_living_keys_and_values() {
    let mut store = Db::new();
    store.put(Put { key: b"k1".to_vec(), value: b"v".to_vec(), ..Default::default() }).unwrap();
    store.put(Put { key: b"k2".to_vec(), value: b"".to_vec(), ..Default::default() }).unwrap();
    store.put(Put { key: b"gone".to_vec(), value: b"x".to_vec(), ..Default::default() }).unwrap();
    store.delete_range(Delete { key: b"gone".to_vec(), ..Default::default() }).unwrap();
    let mut bytes = Vec::new();
    for s in [&b"k1"[..], b"v", b"k2", b""] {
        bytes.extend_from_slice(&(s.len() as u64).to_le_bytes());
        bytes.extend_from_slice(s);
    }
    assert_eq!(store.store.store_hash(), xxhash_rust::xxh3::xxh3_64(&bytes));

    let mut other = Db::new();
    other.put(Put { key: b"k2".to_vec(), value: b"".to_vec(), ..Default::default() }).unwrap();
    other.put(Put { key: b"k1".to_vec(), value: b"x".to_vec(), ..Default::default() }).unwrap();
    assert_ne!(other.store.store_hash(), store.store.store_hash());
    other.put(Put { key: b"k1".to_vec(), value: b"v".to_vec(), ..Default::default() }).unwrap();
    assert_eq!(other.store.store_hash(), store.store.store_hash());
}
