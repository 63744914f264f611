#![allow(dead_code, unused_mut, unused_must_use)]

use rudurru::storage::key_value::KeyValue;
use rudurru::storage::messages::{
    DeleteRangeRequest, DeleteRangeResponse, PutRequest, PutResponse, RangeRequest, RangeResponse,
    StoreError,
};
use rudurru::storage::query::{RangeStep, WalRead};
use rudurru::storage::recovery::compacted_wal;
use rudurru::storage::{current_revision, Store};

#[derive(Default)]
struct Put {
    key: Vec<u8>,
    value: Vec<u8>,
    lease: i64,
    prev_kv: bool,
    ignore_value: bool,
    ignore_lease: bool,
}

#[derive(Default)]
struct Delete {
    key: Vec<u8>,
    range_end: Vec<u8>,
    prev_kv: bool,
}

#[derive(Default)]
struct Range {
    key: Vec<u8>,
    range_end: Vec<u8>,
    limit: i64,
    revision: i64,
    keys_only: bool,
    count_only: bool,
    min_mod_revision: i64,
    max_mod_revision: i64,
    min_create_revision: i64,
    max_create_revision: i64,
}

/// A store whose log is kept in memory.
struct Db {
    store: Store,
    wal: Vec<u8>,
}

impl Db {
    fn new() -> Db {
        Db { store: Store::open(&[], 0, 1, 0), wal: Vec::new() }
    }

    fn reopen(&self) -> Db {
        let s = &self.store.state;
        Db {
            store: Store::open(&self.wal, s.compact_rev, s.next_lease_id, 0),
            wal: self.wal.clone(),
        }
    }

    fn revision(&self) -> u64 {
        current_revision(self.store.state.next_rev)
    }

    fn give_up(&mut self, rev: u64) {
        self.store.state.compact_rev = rev;
    }

    fn put(&mut self, p: Put) -> Result<PutResponse, StoreError> {
        let pending = self.store.put(PutRequest {
            key: p.key,
            value: p.value,
            lease: p.lease,
            prev_kv: p.prev_kv,
            ignore_value: p.ignore_value,
            ignore_lease: p.ignore_lease,
        })?;
        self.wal.extend(pending.log_bytes());
        self.store.finish_put(pending, true)
    }

    fn delete_range(&mut self, d: Delete) -> Result<DeleteRangeResponse, StoreError> {
        let pending = self.store.delete_range(DeleteRangeRequest {
            key: d.key,
            range_end: d.range_end,
            prev_kv: d.prev_kv,
        });
        self.wal.extend(pending.log_bytes());
        self.store.finish_delete_range(pending, true)
    }

    fn range(&self, r: Range) -> Result<RangeResponse, StoreError> {
        let req = RangeRequest {
            key: r.key,
            range_end: r.range_end,
            limit: r.limit,
            revision: r.revision,
            keys_only: r.keys_only,
            count_only: r.count_only,
            min_mod_revision: r.min_mod_revision,
            max_mod_revision: r.max_mod_revision,
            min_create_revision: r.min_create_revision,
            max_create_revision: r.max_create_revision,
        };
        match self.store.range(&req)? {
            RangeStep::Done(resp) => Ok(resp),
            RangeStep::NeedWal(scan) => {
                self.store.finish_range(scan, WalRead::Contents(self.wal.clone()))
            }
        }
    }

    fn compact_wal(&mut self) -> Result<(), StoreError> {
        let records = self.store.state.snapshot_records();
        self.wal = compacted_wal(&records, &[]);
        Ok(())
    }
}

fn all_req() -> Range {
    Range {
        key: b"".to_vec(),
        range_end: vec![0],
        ..Default::default()
    }
}

#[test]
fn test_historical_compacted_revision_error() {
    let mut store = Db::new();

    // Need data so current_rev is ahead of the compacted revision
    store
        .put(Put {
            key: b"k".to_vec(),
            value: b"v".to_vec(),
            ..Default::default()
        });
    store
        .put(Put {
            key: b"k2".to_vec(),
            value: b"v2".to_vec(),
            ..Default::default()
        });
    let create_rev = store.revision(); // rev 2
    // Compact at rev 2 — rev 1 is now below COMPACT_REV
    store.give_up(create_rev);

    let err = store
        .range(Range {
            key: b"k".to_vec(),
            revision: 1,
            ..Default::default()
        })
        .unwrap_err();
    assert!(
        err.message().contains("compacted"),
        "should be compacted error: {}",
        err.message()
    );

    // Non-compacted revision should still work
    let ok = store
        .range(Range {
            key: b"k".to_vec(),
            revision: create_rev as i64,
            ..Default::default()
        })
        .unwrap();
    assert_eq!(ok.count, 2, "both keys exist at non-compacted rev");
}

#[test]
fn test_historical_future_revision_error() {
    let mut store = Db::new();

    let err = store
        .range(Range {
            key: b"k".to_vec(),
            revision: 999_999_999,
            ..Default::default()
        })
        .unwrap_err();
    assert!(
        err.message().contains("future"),
        "should be future revision error: {}",
        err.message()
    );
}

#[test]
fn test_historical_zero_revision_returns_current() {
    let mut store = Db::new();

    store
        .put(Put {
            key: b"k1".to_vec(),
            value: b"v1".to_vec(),
            ..Default::default()
        });

    let resp = store.range(all_req()).unwrap();
    assert_eq!(resp.count, 1, "revision=0 returns current state");
}

#[test]
fn test_historical_all_keys_current_skip_wal() {
    let mut store = Db::new();

    store
        .put(Put {
            key: b"k1".to_vec(),
            value: b"v1".to_vec(),
            ..Default::default()
        });
    let rev1 = store.revision();

    store
        .put(Put {
            key: b"k2".to_vec(),
            value: b"v2".to_vec(),
            ..Default::default()
        });
    let rev2 = store.revision();

    // Query at rev2: both keys have mod_revision == rev2, so mod_rev <= target_rev
    let resp = store
        .range(Range {
            key: b"".to_vec(),
            range_end: vec![0],
            revision: rev2 as i64,
            ..Default::default()
        })
        .unwrap();
    assert_eq!(resp.count, 2, "both keys at rev2");

    // Query at rev1: only k1 exists (k2 doesn't exist yet)
    let resp = store
        .range(Range {
            key: b"".to_vec(),
            range_end: vec![0],
            revision: rev1 as i64,
            ..Default::default()
        })
        .unwrap();
    assert_eq!(resp.count, 1, "only k1 at rev1");
}

#[test]
fn test_historical_some_keys_stale() {
    let mut store = Db::new();

    store
        .put(Put {
            key: b"k1".to_vec(),
            value: b"v1".to_vec(),
            ..Default::default()
        });
    let rev1 = store.revision();

    // k2 is created after rev1 — should not appear in query at rev1
    store
        .put(Put {
            key: b"k2".to_vec(),
            value: b"v2".to_vec(),
            ..Default::default()
        });

    // Query at rev1: k1 exists, k2 doesn't (create_rev > rev1)
    let resp = store
        .range(Range {
            key: b"".to_vec(),
            range_end: vec![0],
            revision: rev1 as i64,
            ..Default::default()
        })
        .unwrap();
    assert_eq!(resp.count, 1, "only k1 at rev1");
    assert_eq!(resp.kvs.len(), 1, "one kv at rev1");
}

#[test]
fn test_historical_value_at_revision() {
    let mut store = Db::new();

    // Create k1 at rev1
    store
        .put(Put {
            key: b"k1".to_vec(),
            value: b"old_value".to_vec(),
            ..Default::default()
        });
    let create_rev = store.revision();

    // Update k1 at some later revision
    store
        .put(Put {
            key: b"k1".to_vec(),
            value: b"new_value".to_vec(),
            ..Default::default()
        });

    // Query at the create revision: should see old_value
    let resp = store
        .range(Range {
            key: b"k1".to_vec(),
            revision: create_rev as i64,
            ..Default::default()
        })
        .unwrap();
    assert_eq!(resp.count, 1, "k1 exists at create_rev");
    if let Some(kv_bytes) = resp.kvs.first() {
        let kv = KeyValue::decode(&kv_bytes[..]).unwrap();
        assert_eq!(
            kv.value, b"old_value",
            "value at create_rev should be old_value"
        );
    }
}

#[test]
fn test_historical_after_delete() {
    let mut store = Db::new();

    store
        .put(Put {
            key: b"k1".to_vec(),
            value: b"v1".to_vec(),
            ..Default::default()
        });

    store
        .delete_range(Delete {
            key: b"k1".to_vec(),
            ..Default::default()
        });

    // Query after delete: k1 should not appear
    let later_rev = store.revision();
    let resp = store
        .range(Range {
            key: b"k1".to_vec(),
            revision: later_rev as i64,
            ..Default::default()
        })
        .unwrap();
    assert_eq!(resp.count, 0, "k1 deleted by later_rev");
}

#[test]
fn test_historical_before_delete() {
    let mut store = Db::new();

    store
        .put(Put {
            key: b"k1".to_vec(),
            value: b"v1".to_vec(),
            ..Default::default()
        });
    let create_rev = store.revision();

    store
        .put(Put {
            key: b"k2".to_vec(),
            value: b"v2".to_vec(),
            ..Default::default()
        });

    // Delete k1
    store
        .delete_range(Delete {
            key: b"k1".to_vec(),
            ..Default::default()
        });

    // Query at create_rev: k1 should exist (it was created before the
    // delete, which happened later). k2 should NOT be present because
    // k2's create_rev > create_rev.
    let resp = store
        .range(Range {
            key: b"".to_vec(),
            range_end: vec![0],
            revision: create_rev as i64,
            ..Default::default()
        })
        .unwrap();
    assert_eq!(resp.count, 1, "only k1 at create_rev");
}

#[test]
fn test_historical_after_create() {
    let mut store = Db::new();

    store
        .put(Put {
            key: b"k1".to_vec(),
            value: b"v1".to_vec(),
            ..Default::default()
        });

    store
        .put(Put {
            key: b"k2".to_vec(),
            value: b"v2".to_vec(),
            ..Default::default()
        });
    let later_rev = store.revision();

    // Put another one, query at the point before it existed
    store
        .put(Put {
            key: b"k3".to_vec(),
            value: b"v3".to_vec(),
            ..Default::default()
        });

    let resp = store
        .range(Range {
            key: b"".to_vec(),
            range_end: vec![0],
            revision: later_rev as i64,
            ..Default::default()
        })
        .unwrap();
    assert_eq!(resp.count, 2, "only k1,k2 at later_rev (k3 not yet created)");
}

#[test]
fn test_historical_keys_only() {
    let mut store = Db::new();

    store
        .put(Put {
            key: b"k1".to_vec(),
            value: b"v1".to_vec(),
            ..Default::default()
        });
    store
        .put(Put {
            key: b"k2".to_vec(),
            value: b"v2".to_vec(),
            ..Default::default()
        });
    let rev = store.revision();

    store
        .put(Put {
            key: b"k3".to_vec(),
            value: b"v3".to_vec(),
            ..Default::default()
        });

    let resp = store
        .range(Range {
            key: b"".to_vec(),
            range_end: vec![0],
            revision: rev as i64,
            keys_only: true,
            ..Default::default()
        })
        .unwrap();
    assert_eq!(resp.count, 2, "keys_only returns 2 keys at rev");
}

#[test]
fn test_historical_count_only() {
    let mut store = Db::new();

    store
        .put(Put {
            key: b"k1".to_vec(),
            value: b"v1".to_vec(),
            ..Default::default()
        });
    let rev = store.revision();

    store
        .put(Put {
            key: b"k2".to_vec(),
            value: b"v2".to_vec(),
            ..Default::default()
        });

    let resp = store
        .range(Range {
            key: b"".to_vec(),
            range_end: vec![0],
            revision: rev as i64,
            count_only: true,
            ..Default::default()
        })
        .unwrap();
    assert_eq!(resp.count, 1, "count_only returns 1 at rev");
    assert!(resp.kvs.is_empty(), "count_only should have empty kvs");
}

#[test]
fn test_historical_limit() {
    let mut store = Db::new();

    store
        .put(Put {
            key: b"k1".to_vec(),
            value: b"v1".to_vec(),
            ..Default::default()
        });
    store
        .put(Put {
            key: b"k2".to_vec(),
            value: b"v2".to_vec(),
            ..Default::default()
        });
    let rev = store.revision();

    let resp = store
        .range(Range {
            key: b"".to_vec(),
            range_end: vec![0],
            revision: rev as i64,
            limit: 1,
            ..Default::default()
        })
        .unwrap();
    assert_eq!(resp.count, 2, "count is total, limit is 1");
    assert_eq!(resp.kvs.len(), 1, "limited to 1 kv");
    assert!(resp.more, "should have more items");
}

#[test]
fn test_historical_point_lookup() {
    let mut store = Db::new();

    store
        .put(Put {
            key: b"k1".to_vec(),
            value: b"v1".to_vec(),
            ..Default::default()
        });
    store
        .put(Put {
            key: b"k2".to_vec(),
            value: b"v2".to_vec(),
            ..Default::default()
        });
    let rev = store.revision();

    // Point lookup for a key that exists at rev
    let resp = store
        .range(Range {
            key: b"k1".to_vec(),
            revision: rev as i64,
            ..Default::default()
        })
        .unwrap();
    assert_eq!(resp.count, 1, "point lookup finds k1 at rev");

    // Point lookup for a key that doesn't exist yet at rev
    store
        .put(Put {
            key: b"k3".to_vec(),
            value: b"v3".to_vec(),
            ..Default::default()
        });

    let resp = store
        .range(Range {
            key: b"k3".to_vec(),
            revision: rev as i64,
            ..Default::default()
        })
        .unwrap();
    assert_eq!(resp.count, 0, "k3 doesn't exist at rev");
}

#[test]
fn test_historical_prefix_range() {
    let mut store = Db::new();

    store
        .put(Put {
            key: b"/a/x".to_vec(),
            value: b"v1".to_vec(),
            ..Default::default()
        });
    store
        .put(Put {
            key: b"/a/y".to_vec(),
            value: b"v2".to_vec(),
            ..Default::default()
        });
    store
        .put(Put {
            key: b"/b/z".to_vec(),
            value: b"v3".to_vec(),
            ..Default::default()
        });
    let rev = store.revision();

    // Create another key under /a/ after rev
    store
        .put(Put {
            key: b"/a/w".to_vec(),
            value: b"v4".to_vec(),
            ..Default::default()
        });

    // Prefix scan at rev: should get 2 keys under /a/
    let resp = store
        .range(Range {
            key: b"/a/".to_vec(),
            range_end: b"/a/\0".to_vec(),
            revision: rev as i64,
            ..Default::default()
        })
        .unwrap();
    assert_eq!(resp.count, 2, "2 keys under /a/ at rev");
}

#[test]
fn test_historical_after_compaction() {
    let mut store = Db::new();

    // Write some keys
    for i in 0u64..5 {
        store
            .put(Put {
                key: format!("k{i}").into_bytes(),
                value: b"v".to_vec(),
                ..Default::default()
            });
    }
    let pre_compact_rev = store.revision();

    // Compact WAL and set compact revision
    store.compact_wal().unwrap();
    store.give_up(pre_compact_rev);

    // Now revision 1 is below COMPACT_REV → should error
    let err = store
        .range(Range {
            key: b"k0".to_vec(),
            revision: 1,
            ..Default::default()
        })
        .unwrap_err();
    assert!(
        err.message().contains("compacted"),
        "revision 1 should be compacted: {}",
        err.message()
    );

    // Query at pre_compact_rev: should still work (>= COMPACT_REV)
    let compact_rev_val = store.store.compact_rev();
    assert!(
        pre_compact_rev >= compact_rev_val,
        "pre_compact_rev={} >= COMPACT_REV={}",
        pre_compact_rev,
        compact_rev_val
    );
    let resp = store
        .range(Range {
            key: b"".to_vec(),
            range_end: vec![0],
            revision: pre_compact_rev as i64,
            ..Default::default()
        })
        .unwrap();
    assert_eq!(resp.count, 5, "all 5 keys at pre_compact_rev");
}

#[test]
fn test_historical_key_modified_after_target() {
    let mut store = Db::new();

    // Create k1
    store
        .put(Put {
            key: b"k1".to_vec(),
            value: b"original".to_vec(),
            ..Default::default()
        });
    let target_rev = store.revision();

    // Modify k1 multiple times after target_rev
    for i in 0u64..5 {
        store
            .put(Put {
                key: b"k1".to_vec(),
                value: format!("updated_{i}").into_bytes(),
                ..Default::default()
            });
    }

    // Query at target_rev: should see "original", not any updated value
    let resp = store
        .range(Range {
            key: b"k1".to_vec(),
            revision: target_rev as i64,
            ..Default::default()
        })
        .unwrap();
    assert_eq!(resp.count, 1, "k1 exists at target_rev");
    if let Some(kv_bytes) = resp.kvs.first() {
        let kv = KeyValue::decode(&kv_bytes[..]).unwrap();
        assert_eq!(
            kv.value, b"original",
            "should see original value, not updated"
        );
    }
}

#[test]
fn test_historical_range_bounds() {
    let mut store = Db::new();

    store
        .put(Put {
            key: b"a".to_vec(),
            value: b"v_a".to_vec(),
            ..Default::default()
        });
    store
        .put(Put {
            key: b"b".to_vec(),
            value: b"v_b".to_vec(),
            ..Default::default()
        });
    store
        .put(Put {
            key: b"c".to_vec(),
            value: b"v_c".to_vec(),
            ..Default::default()
        });
    let rev = store.revision();

    // Range from b to d (exclusive): should get b and c
    let resp = store
        .range(Range {
            key: b"b".to_vec(),
            range_end: b"d".to_vec(),
            revision: rev as i64,
            ..Default::default()
        })
        .unwrap();
    assert_eq!(resp.count, 2, "range [b, d) gives 2 keys at rev");

    // Key created after rev shouldn't appear in range
    store
        .put(Put {
            key: b"bb".to_vec(),
            value: b"v_bb".to_vec(),
            ..Default::default()
        });

    let resp = store
        .range(Range {
            key: b"b".to_vec(),
            range_end: b"c\x00".to_vec(),
            revision: rev as i64,
            ..Default::default()
        })
        .unwrap();
    assert_eq!(resp.count, 2, "range [b, d) gives 2 keys (b, c) at rev — bb created later");
}

#[test]
fn test_historical_delete_recreate() {
    let mut store = Db::new();

    // First lifetime: create k1
    store
        .put(Put {
            key: b"k1".to_vec(),
            value: b"first_life".to_vec(),
            ..Default::default()
        });
    let first_rev = store.revision();

    // Delete k1
    store
        .delete_range(Delete {
            key: b"k1".to_vec(),
            ..Default::default()
        });

    // Second lifetime: recreate k1
    store
        .put(Put {
            key: b"k1".to_vec(),
            value: b"second_life".to_vec(),
            ..Default::default()
        });

    // Query at first_rev: should see "first_life" from the first lifetime
    let resp = store
        .range(Range {
            key: b"k1".to_vec(),
            revision: first_rev as i64,
            ..Default::default()
        })
        .unwrap();
    assert_eq!(resp.count, 1, "k1 exists at first_rev (first lifetime)");
    if let Some(kv_bytes) = resp.kvs.first() {
        let kv = KeyValue::decode(&kv_bytes[..]).unwrap();
        assert_eq!(
            kv.value, b"first_life",
            "value at first_rev should be from first lifetime"
        );
    }

    // Query at current revision: should see "second_life"
    let current = store.revision();
    let resp = store
        .range(Range {
            key: b"k1".to_vec(),
            revision: current as i64,
            ..Default::default()
        })
        .unwrap();
    assert_eq!(resp.count, 1, "k1 exists at current (second lifetime)");
    if let Some(kv_bytes) = resp.kvs.first() {
        let kv = KeyValue::decode(&kv_bytes[..]).unwrap();
        assert_eq!(
            kv.value, b"second_life",
            "current value should be from second lifetime"
        );
    }
}

#[test]
fn test_historical_delete_at_exact_delete_revision() {
    let mut store = Db::new();

    store
        .put(Put {
            key: b"k1".to_vec(),
            value: b"v1".to_vec(),
            ..Default::default()
        });

    store
        .delete_range(Delete {
            key: b"k1".to_vec(),
            ..Default::default()
        });
    let del_rev = store.revision();

    // Query exactly at delete revision: key should NOT be included
    // (deleted at this rev, not before it)
    let resp = store
        .range(Range {
            key: b"k1".to_vec(),
            revision: del_rev as i64,
            ..Default::default()
        })
        .unwrap();
    assert_eq!(resp.count, 0, "k1 deleted at del_rev should not appear");

    // Query one before delete revision: key should exist
    let resp = store
        .range(Range {
            key: b"k1".to_vec(),
            revision: del_rev as i64 - 1,
            ..Default::default()
        })
        .unwrap();
    assert_eq!(resp.count, 1, "k1 exists one rev before delete");
}

#[test]
fn test_historical_many_stale_keys_with_limit() {
    let mut store = Db::new();

    // Create 5 keys
    for i in 0u64..5 {
        store
            .put(Put {
                key: format!("k{i}").into_bytes(),
                value: b"original".to_vec(),
                ..Default::default()
            });
    }
    let target_rev = store.revision();

    // Update all 5 keys after target_rev — all become stale
    for i in 0u64..5 {
        store
            .put(Put {
                key: format!("k{i}").into_bytes(),
                value: format!("updated_{i}").into_bytes(),
                ..Default::default()
            });
    }

    // Query with limit=2 at target_rev: all keys stale, should return 2
    let resp = store
        .range(Range {
            key: b"".to_vec(),
            range_end: vec![0],
            revision: target_rev as i64,
            limit: 2,
            ..Default::default()
        })
        .unwrap();
    assert_eq!(resp.count, 5, "count is total (5)");
    assert_eq!(resp.kvs.len(), 2, "only 2 kvs returned");
    assert!(resp.more, "more flag should be true");
    if let Some(kv_bytes) = resp.kvs.first() {
        let kv = KeyValue::decode(&kv_bytes[..]).unwrap();
        assert_eq!(
            kv.value, b"original",
            "stale key should have original value"
        );
    }
}

#[test]
fn test_historical_rebirth_forces_wal() {
    let mut store = Db::new();

    // First lifetime
    store
        .put(Put {
            key: b"k1".to_vec(),
            value: b"first".to_vec(),
            ..Default::default()
        });
    let first_rev = store.revision();

    // Delete
    store
        .delete_range(Delete {
            key: b"k1".to_vec(),
            ..Default::default()
        });

    // Recreate (second lifetime, new create_revision)
    store
        .put(Put {
            key: b"k1".to_vec(),
            value: b"second".to_vec(),
            ..Default::default()
        });

    // Query at first_rev: BTreeMap has rebirth=true, create_rev > first_rev
    // → forces WAL scan to find "first" value from prior lifetime
    let resp = store
        .range(Range {
            key: b"k1".to_vec(),
            revision: first_rev as i64,
            ..Default::default()
        })
        .unwrap();
    assert_eq!(resp.count, 1, "k1 exists at first_rev (rebirth path)");
    if let Some(kv_bytes) = resp.kvs.first() {
        let kv = KeyValue::decode(&kv_bytes[..]).unwrap();
        assert_eq!(
            kv.value, b"first",
            "rebirth WAL path should return first lifetime value"
        );
    }
}

#[test]
fn test_historical_min_mod_revision() {
    let mut store = Db::new();
    store.put(Put{key:b"a".to_vec(),value:b"v1".to_vec(),..Default::default()}).unwrap();
    store.put(Put{key:b"b".to_vec(),value:b"v2".to_vec(),..Default::default()}).unwrap();
    let rev = store.revision();
    store.put(Put{key:b"a".to_vec(),value:b"v1_upd".to_vec(),..Default::default()}).unwrap();

    // Current-state: min_mod_revision filters current mod_revision
    let resp = store.range(Range{
        key: b"".to_vec(), range_end: vec![0],
        min_mod_revision: (rev + 1) as i64,
        ..Default::default()
    }).unwrap();
    assert_eq!(resp.count, 1, "min_mod_revision filters to 1 key (a updated)");
}

#[test]
fn test_historical_max_mod_revision() {
    let mut store = Db::new();
    store.put(Put{key:b"a".to_vec(),value:b"v1".to_vec(),..Default::default()}).unwrap();
    let rev1 = store.revision();
    store.put(Put{key:b"b".to_vec(),value:b"v2".to_vec(),..Default::default()}).unwrap();

    let resp = store.range(Range{
        key: b"".to_vec(), range_end: vec![0],
        max_mod_revision: rev1 as i64,
        ..Default::default()
    }).unwrap();
    assert_eq!(resp.count, 1, "max_mod_revision=rev1 gives 1 key (a)");
}

#[test]
fn test_historical_min_create_revision() {
    let mut store = Db::new();
    store.put(Put{key:b"a".to_vec(),value:b"v1".to_vec(),..Default::default()}).unwrap();
    store.put(Put{key:b"b".to_vec(),value:b"v2".to_vec(),..Default::default()}).unwrap();
    let rev_b = store.revision();

    let resp = store.range(Range{
        key: b"".to_vec(), range_end: vec![0],
        min_create_revision: rev_b as i64,
        ..Default::default()
    }).unwrap();
    assert_eq!(resp.count, 1, "min_create_revision gives 1 key (b)");
}

#[test]
fn test_historical_max_create_revision() {
    let mut store = Db::new();
    store.put(Put{key:b"a".to_vec(),value:b"v1".to_vec(),..Default::default()}).unwrap();
    let rev_a = store.revision();
    store.put(Put{key:b"b".to_vec(),value:b"v2".to_vec(),..Default::default()}).unwrap();

    let resp = store.range(Range{
        key: b"".to_vec(), range_end: vec![0],
        max_create_revision: rev_a as i64,
        ..Default::default()
    }).unwrap();
    assert_eq!(resp.count, 1, "max_create_revision gives 1 key (a)");
}

#[test]
fn test_historical_kv_metadata() {
    let mut store = Db::new();
    store.put(Put{key:b"k1".to_vec(),value:b"v1".to_vec(),..Default::default()}).unwrap();
    let create_rev = store.revision();
    store.put(Put{key:b"k1".to_vec(),value:b"v2".to_vec(),..Default::default()}).unwrap();

    // Historical: metadata should reflect state at create_rev
    let resp = store.range(Range{
        key: b"k1".to_vec(), revision: create_rev as i64,
        ..Default::default()
    }).unwrap();
    let kv = KeyValue::decode(&resp.kvs[0][..]).unwrap();
    assert_eq!(kv.value, b"v1");
    assert_eq!(kv.create_revision, create_rev as i64);
    assert_eq!(kv.mod_revision, create_rev as i64);
    assert_eq!(kv.version, 1);

    // Current: metadata reflects latest state
    let resp = store.range(Range{
        key: b"k1".to_vec(), ..Default::default()
    }).unwrap();
    let kv = KeyValue::decode(&resp.kvs[0][..]).unwrap();
    assert_eq!(kv.value, b"v2");
    assert_eq!(kv.create_revision, create_rev as i64);
    assert_eq!(kv.mod_revision, create_rev as i64 + 1);
    assert_eq!(kv.version, 2);
}

#[test]
fn test_historical_from_key_query() {
    let mut store = Db::new();
    store.put(Put{key:b"a".to_vec(),value:b"va".to_vec(),..Default::default()}).unwrap();
    store.put(Put{key:b"b".to_vec(),value:b"vb".to_vec(),..Default::default()}).unwrap();
    store.put(Put{key:b"c".to_vec(),value:b"vc".to_vec(),..Default::default()}).unwrap();
    let rev = store.revision();

    // From-key: all keys >= "b"
    let resp = store.range(Range{
        key: b"b".to_vec(), range_end: vec![0], revision: rev as i64,
        ..Default::default()
    }).unwrap();
    assert_eq!(resp.count, 2, "from-key gives 2 keys (b, c)");
}

#[test]
fn test_historical_non_existent_key() {
    let mut store = Db::new();
    store.put(Put{key:b"existing".to_vec(),value:b"v".to_vec(),..Default::default()}).unwrap();
    let rev = store.revision();

    let resp = store.range(Range{
        key: b"nonexistent".to_vec(), revision: rev as i64,
        ..Default::default()
    }).unwrap();
    assert_eq!(resp.count, 0);
    assert!(resp.kvs.is_empty());
}

#[test]
fn test_historical_non_existent_prefix() {
    let mut store = Db::new();
    store.put(Put{key:b"/real/k1".to_vec(),value:b"v1".to_vec(),..Default::default()}).unwrap();
    let rev = store.revision();

    let resp = store.range(Range{
        key: b"/fake/".to_vec(), range_end: b"/fake0".to_vec(), revision: rev as i64,
        ..Default::default()
    }).unwrap();
    assert_eq!(resp.count, 0, "non-existent prefix returns 0");
}

#[test]
fn test_historical_exact_create_revision() {
    let mut store = Db::new();
    store.put(Put{key:b"k1".to_vec(),value:b"v1".to_vec(),..Default::default()}).unwrap();
    let create_rev = store.revision();

    let resp = store.range(Range{
        key: b"k1".to_vec(), revision: create_rev as i64,
        ..Default::default()
    }).unwrap();
    assert_eq!(resp.count, 1, "key exists at create revision");
    let kv = KeyValue::decode(&resp.kvs[0][..]).unwrap();
    assert_eq!(kv.value, b"v1");
    assert_eq!(kv.create_revision, create_rev as i64);
}

#[test]
fn test_historical_more_flag_limit_zero() {
    let mut store = Db::new();
    store.put(Put{key:b"k1".to_vec(),value:b"v1".to_vec(),..Default::default()}).unwrap();
    store.put(Put{key:b"k2".to_vec(),value:b"v2".to_vec(),..Default::default()}).unwrap();

    let resp = store.range(Range{
        key: b"".to_vec(), range_end: vec![0],
        revision: store.revision() as i64, limit: 0,
        ..Default::default()
    }).unwrap();
    assert_eq!(resp.count, 2);
    assert!(!resp.more, "more=false when limit=0");
}

#[test]
fn test_current_state_min_max_mod_revision() {
    let mut store = Db::new();
    store.put(Put{key:b"k1".to_vec(),value:b"v1".to_vec(),..Default::default()}).unwrap();
    store.put(Put{key:b"k2".to_vec(),value:b"v2".to_vec(),..Default::default()}).unwrap();
    let rev = store.revision();
    store.put(Put{key:b"k1".to_vec(),value:b"v1_upd".to_vec(),..Default::default()}).unwrap();

    let resp = store.range(Range{
        key: b"".to_vec(), range_end: vec![0],
        min_mod_revision: (rev + 1) as i64,
        ..Default::default()
    }).unwrap();
    assert_eq!(resp.count, 1, "min_mod_revision: only k1");

    let resp = store.range(Range{
        key: b"".to_vec(), range_end: vec![0],
        max_mod_revision: rev as i64,
        ..Default::default()
    }).unwrap();
    assert_eq!(resp.count, 1, "max_mod_revision: only k2");
}

#[test]
fn test_current_state_min_max_create_revision() {
    let mut store = Db::new();
    store.put(Put{key:b"k1".to_vec(),value:b"v1".to_vec(),..Default::default()}).unwrap();
    store.put(Put{key:b"k2".to_vec(),value:b"v2".to_vec(),..Default::default()}).unwrap();
    let rev_k2 = store.revision();

    let resp = store.range(Range{
        key: b"".to_vec(), range_end: vec![0],
        min_create_revision: rev_k2 as i64,
        ..Default::default()
    }).unwrap();
    assert_eq!(resp.count, 1, "min_create_revision: only k2");

    let resp = store.range(Range{
        key: b"".to_vec(), range_end: vec![0],
        max_create_revision: rev_k2 as i64 - 1,
        ..Default::default()
    }).unwrap();
    assert_eq!(resp.count, 1, "max_create_revision: only k1");
}

fn put(store: &mut Db, key: &str, value: &str) -> u64 {
    store.put(Put { key: key.into(), value: value.into(), ..Default::default() }).unwrap();
    store.revision()
}

fn delete(store: &mut Db, key: &str) -> u64 {
    store.delete_range(Delete { key: key.into(), ..Default::default() }).unwrap();
    store.revision()
}

/// The keys and values that a query of all keys finds.
fn contents(store: &Db, revision: u64) -> Vec<(Vec<u8>, Vec<u8>)> {
    let resp = store.range(Range { revision: revision as i64, ..all_req() }).unwrap();
    assert_eq!(resp.count as usize, resp.kvs.len());
    let kvs = resp.kvs.iter().map(|kv| KeyValue::decode(kv).unwrap());
    kvs.map(|kv| (kv.key, kv.value)).collect()
}

#[test]
fn a_query_of_the_past_finds_what_was_found_then() {
    let mut store = Db::new();
    let mut then_found = vec![contents(&store, 0)];
    let changes = [
        ("a", Some("1")),
        ("b", Some("1")),
        ("a", Some("2")),
        ("b", None),
        ("c", Some("1")),
        ("b", Some("2")),
        ("a", None),
        ("b", Some("3")),
        ("a", Some("3")),
        ("a", None),
        ("c", Some("2")),
        ("b", None),
    ];
    for (key, value) in changes {
        match value {
            Some(v) => put(&mut store, key, v),
            None => delete(&mut store, key),
        };
        then_found.push(contents(&store, 0));
    }
    for rev in 1..then_found.len() {
        assert_eq!(contents(&store, rev as u64), then_found[rev], "revision {rev}");
    }
    let again = store.reopen();
    for rev in 1..then_found.len() {
        assert_eq!(contents(&again, rev as u64), then_found[rev], "revision {rev}, reopened");
    }
}

#[test]
fn a_key_stays_known_to_have_been_created_again() {
    let mut store = Db::new();
    let first = put(&mut store, "k", "first");
    delete(&mut store, "k");
    put(&mut store, "k", "second");
    put(&mut store, "k", "third");
    assert!(store.store.state.keys.get(b"k").unwrap().rebirth);
    assert_eq!(contents(&store, first), vec![(b"k".to_vec(), b"first".to_vec())]);
    delete(&mut store, "k");
    assert_eq!(contents(&store, first), vec![(b"k".to_vec(), b"first".to_vec())]);
}

#[test]
fn a_log_without_the_past_shows_what_is_alive_since() {
    let mut store = Db::new();
    let first = put(&mut store, "k", "v1");
    put(&mut store, "k", "v2");
    store.compact_wal().unwrap();
    assert_eq!(contents(&store, first), vec![(b"k".to_vec(), b"v2".to_vec())]);
}

#[test]
fn a_log_that_cannot_be_read_is_reported() {
    let mut store = Db::new();
    let first = put(&mut store, "k", "v1");
    put(&mut store, "k", "v2");
    let mut req = RangeRequest::new(b"k".to_vec(), vec![]);
    req.revision = first as i64;
    let scan = match store.store.range(&req).unwrap() {
        RangeStep::NeedWal(scan) => scan,
        RangeStep::Done(_) => panic!("the log is needed"),
    };
    let err = store.store.finish_range(scan, WalRead::Failed("gone".to_string())).unwrap_err();
    assert_eq!(err.message(), "wal scan failed: gone");
    let scan = match store.store.range(&req).unwrap() {
        RangeStep::NeedWal(scan) => scan,
        RangeStep::Done(_) => panic!("the log is needed"),
    };
    let resp = store.store.finish_range(scan, WalRead::Missing).unwrap();
    assert_eq!(KeyValue::decode(&resp.kvs[0]).unwrap().value, b"v2");
}

#[test]
fn keys_come_in_their_order_with_the_revision_of_the_query() {
    let mut store = Db::new();
    put(&mut store, "b", "1");
    put(&mut store, "a", "1");
    let rev = put(&mut store, "c", "1");
    put(&mut store, "d", "1");
    let resp = store.range(Range { revision: rev as i64, ..all_req() }).unwrap();
    assert_eq!(resp.header.revision, rev as i64);
    let keys: Vec<Vec<u8>> =
        resp.kvs.iter().map(|kv| KeyValue::decode(kv).unwrap().key).collect();
    assert_eq!(keys, vec![b"a".to_vec(), b"b".to_vec(), b"c".to_vec()]);
    assert_eq!(store.range(all_req()).unwrap().header.revision, rev as i64 + 1);
}

#[test]
fn bounds_on_revisions_hold_for_what_is_alive_now() {
    let mut store = Db::new();
    let rev = put(&mut store, "a", "1");
    put(&mut store, "a", "2");
    let req = Range { revision: rev as i64, max_mod_revision: rev as i64, ..all_req() };
    assert_eq!(store.range(req).unwrap().count, 0);
    delete(&mut store, "a");
    let req = Range { revision: rev as i64, max_mod_revision: rev as i64, ..all_req() };
    assert_eq!(store.range(req).unwrap().count, 1);
}

#[test]
fn a_query_of_the_past_for_one_key_finds_it_as_it_was() {
    for key in [&b""[..], b"k", b"k\xff", b"\xff\xff"] {
        let mut store = Db::new();
        for value in ["1", "2", "3"] {
            let put = Put { key: key.to_vec(), value: value.into(), ..Default::default() };
            store.put(put).unwrap();
        }
        let req = Range { key: key.to_vec(), revision: 2, ..Default::default() };
        let resp = store.range(req).unwrap();
        assert_eq!(resp.count, 1);
        let kv = KeyValue::decode(&resp.kvs[0]).unwrap();
        assert_eq!(kv.key, key);
        assert_eq!(kv.value, b"2");
    }
}

#[test]
fn a_query_of_a_compacted_log_falls_back_on_what_is_known() {
    let mut store = Db::new();
    for value in ["1", "2"] {
        let put = Put { key: b"k".to_vec(), value: value.into(), ..Default::default() };
        store.put(put).unwrap();
    }
    let records = store.store.state.snapshot_records();
    store.wal = compacted_wal(&records, &[]);
    let again = store.reopen();
    let req = Range { key: b"k".to_vec(), revision: 1, ..Default::default() };
    let resp = again.range(req).unwrap();
    assert_eq!(resp.count, 1);
    assert_eq!(KeyValue::decode(&resp.kvs[0]).unwrap().value, b"2");
}

#[test]
fn bounds_on_revisions_go_by_the_revisions_of_now() {
    let mut store = Db::new();
    for key in ["a", "b"] {
        let put = Put { key: key.into(), value: b"1".to_vec(), ..Default::default() };
        store.put(put).unwrap();
    }
    let bounded = || Range {
        key: b"a".to_vec(),
        range_end: b"z".to_vec(),
        revision: 2,
        min_mod_revision: 2,
        ..Default::default()
    };
    // From memory alone.
    assert_eq!(store.range(bounded()).unwrap().count, 1);
    // With the log: what the bounds leave out is not taken from it.
    store.put(Put { key: b"b".to_vec(), value: b"2".to_vec(), ..Default::default() }).unwrap();
    let resp = store.range(bounded()).unwrap();
    assert_eq!(resp.count, 1);
    let kv = KeyValue::decode(&resp.kvs[0]).unwrap();
    assert_eq!((kv.key, kv.value), (b"b".to_vec(), b"1".to_vec()));
}
