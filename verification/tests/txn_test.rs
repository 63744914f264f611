#![allow(dead_code)]

use rudurru::storage::compare::{Compare, TargetUnion};
use rudurru::storage::key_value::KeyValue;
use rudurru::storage::messages::{LeaseGrantRequest, RequestOp, ResponseOp, TxnRequest, TxnResponse};
use rudurru::storage::txn::TxnStep;
use rudurru::tools::kine::{create_if_absent, is_taken_over};
use rudurru::storage::messages::{
    DeleteRangeRequest, DeleteRangeResponse, PutRequest, PutResponse, RangeRequest, RangeResponse,
    StoreError,
};
use rudurru::storage::query::{RangeStep, WalRead};
use rudurru::storage::{current_revision, Store};

#[derive(Default)]
struct Put {
    key: Vec<u8>,
    value: Vec<u8>,
    lease: i64,
    prev_kv: bool,
    ignore_value: bool,
    ignore_lease: bool,
}

#[derive(Default)]
struct Delete {
    key: Vec<u8>,
    range_end: Vec<u8>,
    prev_kv: bool,
}

#[derive(Default)]
struct Range {
    key: Vec<u8>,
    range_end: Vec<u8>,
    limit: i64,
    revision: i64,
    keys_only: bool,
    count_only: bool,
    min_mod_revision: i64,
    max_mod_revision: i64,
    min_create_revision: i64,
    max_create_revision: i64,
}

/// A store whose log is kept in memory.
struct Db {
    store: Store,
    wal: Vec<u8>,
}

impl Db {
    fn new() -> Db {
        Db { store: Store::open(&[], 0, 1, 0), wal: Vec::new() }
    }

    fn reopen(&self) -> Db {
        let s = &self.store.state;
        Db {
            store: Store::open(&self.wal, s.compact_rev, s.next_lease_id, 0),
            wal: self.wal.clone(),
        }
    }

    fn revision(&self) -> u64 {
        current_revision(self.store.state.next_rev)
    }

    fn give_up(&mut self, rev: u64) {
        self.store.state.compact_rev = rev;
    }

    fn put(&mut self, p: Put) -> Result<PutResponse, StoreError> {
        let pending = self.store.put(PutRequest {
            key: p.key,
            value: p.value,
            lease: p.lease,
            prev_kv: p.prev_kv,
            ignore_value: p.ignore_value,
            ignore_lease: p.ignore_lease,
        })?;
        self.wal.extend(pending.log_bytes());
        self.store.finish_put(pending, true)
    }

    fn delete_range(&mut self, d: Delete) -> Result<DeleteRangeResponse, StoreError> {
        let pending = self.store.delete_range(DeleteRangeRequest {
            key: d.key,
            range_end: d.range_end,
            prev_kv: d.prev_kv,
        });
        self.wal.extend(pending.log_bytes());
        self.store.finish_delete_range(pending, true)
    }

    fn range(&self, r: Range) -> Result<RangeResponse, StoreError> {
        let req = RangeRequest {
            key: r.key,
            range_end: r.range_end,
            limit: r.limit,
            revision: r.revision,
            keys_only: r.keys_only,
            count_only: r.count_only,
            min_mod_revision: r.min_mod_revision,
            max_mod_revision: r.max_mod_revision,
            min_create_revision: r.min_create_revision,
            max_create_revision: r.max_create_revision,
        };
        match self.store.range(&req)? {
            RangeStep::Done(resp) => Ok(resp),
            RangeStep::NeedWal(scan) => {
                self.store.finish_range(scan, WalRead::Contents(self.wal.clone()))
            }
        }
    }

    fn set(&mut self, key: &str, value: &str) -> i64 {
        let resp = self
            .put(Put { key: key.into(), value: value.into(), ..Default::default() })
            .unwrap();
        resp.header.revision
    }

    fn get(&self, key: &str) -> RangeResponse {
        self.range(Range { key: key.into(), ..Default::default() }).unwrap()
    }

    fn list(&self, prefix: &str) -> RangeResponse {
        self.range(Range {
            key: prefix.into(),
            range_end: end_of(prefix.as_bytes()),
            ..Default::default()
        })
        .unwrap()
    }

    fn txn(&mut self, req: TxnRequest) -> Result<TxnResponse, StoreError> {
        let mut run = self.store.txn(req);
        loop {
            assert!(run.ready(&self.store));
            match run.step(&mut self.store) {
                TxnStep::Answered => {}
                TxnStep::Put(pending) => {
                    self.wal.extend(pending.log_bytes());
                    run.put_logged(&mut self.store, pending, true)?;
                }
                TxnStep::Delete(pending) => {
                    self.wal.extend(pending.log_bytes());
                    run.delete_logged(&mut self.store, pending, true)?;
                }
                TxnStep::Scan(scan) => {
                    run.scan_read(&self.store, scan, WalRead::Contents(self.wal.clone()))?;
                }
                TxnStep::Refused(e) => return Err(e),
                TxnStep::Done(resp) => return Ok(resp),
            }
        }
    }
}

/// The end of the range of the keys that begin with a prefix.
fn end_of(prefix: &[u8]) -> Vec<u8> {
    let mut end = prefix.to_vec();
    while let Some(last) = end.pop() {
        if last != 0xFF {
            end.push(last + 1);
            return end;
        }
    }
    vec![0]
}

fn kv(resp: &RangeResponse, i: usize) -> KeyValue {
    KeyValue::decode(&resp.kvs[i]).unwrap()
}

const EQUAL: i32 = 0;
const GREATER: i32 = 1;
const LESS: i32 = 2;
const NOT_EQUAL: i32 = 3;

fn compare(key: &str, result: i32, target_union: TargetUnion) -> Compare {
    let target = match target_union {
        TargetUnion::Version(_) => 0,
        TargetUnion::CreateRevision(_) => 1,
        TargetUnion::ModRevision(_) => 2,
        TargetUnion::Value(_) => 3,
        TargetUnion::Lease(_) => 4,
    };
    Compare {
        key: key.into(),
        range_end: vec![],
        result,
        target,
        target_union: Some(target_union),
    }
}

fn value(v: &str) -> TargetUnion {
    TargetUnion::Value(v.into())
}

fn put_op(key: &str, v: &str) -> RequestOp {
    RequestOp::Put(PutRequest::new(key.into(), v.into()))
}

fn when(compare: Vec<Compare>, success: Vec<RequestOp>) -> TxnRequest {
    TxnRequest { compare, success, failure: vec![] }
}

#[test]
fn test_txn_compare_value_greater() {
    let mut client = Db::new();
    let key = "txn/val_gt";
    client.set(key, "bbb");

    // VALUE > "aaa" should succeed
    let resp = client
        .txn(when(vec![compare(key, GREATER, value("aaa"))], vec![put_op(key, "gt_ok")]))
        .unwrap();
    assert!(resp.succeeded, "value GREATER should succeed");

    // VALUE > "zzz" should fail
    let resp2 = client
        .txn(when(vec![compare(key, GREATER, value("zzz"))], vec![put_op(key, "gt_fail")]))
        .unwrap();
    assert!(!resp2.succeeded, "value GREATER should fail when not greater");
}

#[test]
fn test_txn_compare_value_less() {
    let mut client = Db::new();
    let key = "txn/val_lt";
    client.set(key, "mmm");

    // VALUE < "zzz" should succeed
    let resp = client
        .txn(when(vec![compare(key, LESS, value("zzz"))], vec![put_op(key, "lt_ok")]))
        .unwrap();
    assert!(resp.succeeded, "value LESS should succeed");

    // VALUE < "aaa" should fail
    let resp2 = client
        .txn(when(vec![compare(key, LESS, value("aaa"))], vec![put_op(key, "lt_fail")]))
        .unwrap();
    assert!(!resp2.succeeded, "value LESS should fail when not less");
}

#[test]
fn test_txn_compare_lease() {
    let mut client = Db::new();
    let key = "txn/lease_cmp";
    let lease_id = client.store.lease_grant(LeaseGrantRequest { ttl: 60, id: 0 }, 0).id;
    client
        .put(Put {
            key: key.into(),
            value: b"lease_val".to_vec(),
            lease: lease_id,
            ..Default::default()
        })
        .unwrap();

    // Compare LEASE == lease_id should succeed
    let resp = client
        .txn(when(
            vec![compare(key, EQUAL, TargetUnion::Lease(lease_id))],
            vec![put_op(key, "lease_matched")],
        ))
        .unwrap();
    assert!(resp.succeeded, "lease EQUAL should succeed");
    assert_eq!(kv(&client.get(key), 0).value, b"lease_matched");
}

#[test]
fn test_txn_with_range() {
    let mut client = Db::new();
    client.set("txn/range/1/a", "1");
    client.set("txn/range/1/b", "2");

    // Txn: compare that key doesn't exist, then range all keys
    let req = RangeRequest::new(b"txn/range/1/".to_vec(), end_of(b"txn/range/1/"));
    let resp = client
        .txn(when(
            vec![compare("txn/range/1/c", EQUAL, TargetUnion::Version(0))],
            vec![RequestOp::Range(req)],
        ))
        .unwrap();
    assert!(resp.succeeded);
    assert_eq!(resp.responses.len(), 1);
    match &resp.responses[0] {
        ResponseOp::Range(r) => {
            assert_eq!(r.count, 2, "txn range should return 2 keys");
            assert_eq!(kv(r, 0).key, b"txn/range/1/a");
            assert_eq!(kv(r, 1).key, b"txn/range/1/b");
        }
        _ => panic!("expected Range response"),
    }
}

#[test]
fn test_txn_nested() {
    let mut client = Db::new();
    client.set("txn/nested1", "outer");
    let mod_rev = kv(&client.get("txn/nested1"), 0).mod_revision;

    let resp = client
        .txn(when(
            vec![compare("txn/nested1", EQUAL, TargetUnion::ModRevision(mod_rev))],
            vec![RequestOp::Txn],
        ))
        .unwrap();
    assert!(resp.succeeded, "outer txn should succeed");
    assert!(matches!(resp.responses[0], ResponseOp::Txn { succeeded: true }));
    assert_eq!(client.get("txn/nested2").count, 0, "inner txn ops are not executed");
}

#[test]
fn test_txn_compare_version_greater() {
    let mut client = Db::new();
    let key = "txn/ver_gt";
    client.set(key, "v1");
    client.set(key, "v2");

    let resp = client
        .txn(when(
            vec![compare(key, GREATER, TargetUnion::Version(1))],
            vec![put_op(key, "gt_ok")],
        ))
        .unwrap();
    assert!(resp.succeeded, "version GREATER than 1 should succeed");
}

#[test]
fn test_txn_compare_mod_greater() {
    let mut client = Db::new();
    let key = "txn/mod_gt";
    let rev1 = client.set(key, "a");
    client.set(key, "b");

    let resp = client
        .txn(when(
            vec![compare(key, GREATER, TargetUnion::ModRevision(rev1))],
            vec![put_op("dummy_mod_gt", "ok")],
        ))
        .unwrap();
    assert!(resp.succeeded, "mod_revision GREATER should succeed");

    let key2 = "txn/mod_gt2";
    client.set(key2, "a");
    let rev2b = client.set(key2, "b");
    let resp2 = client
        .txn(when(
            vec![compare(key2, GREATER, TargetUnion::ModRevision(rev2b))],
            vec![put_op(key2, "mod_gt_fail")],
        ))
        .unwrap();
    assert!(!resp2.succeeded, "mod_revision GREATER than current should fail");
}

#[test]
fn test_create_if_not_exists() {
    let mut client = Db::new();
    let key = "txn/create";
    let create = |v: &str| {
        when(vec![compare(key, EQUAL, TargetUnion::ModRevision(0))], vec![put_op(key, v)])
    };
    assert!(client.txn(create("first")).unwrap().succeeded, "first create should succeed");
    assert!(!client.txn(create("second")).unwrap().succeeded, "second create should fail");
    assert_eq!(kv(&client.get(key), 0).value, b"first");
}

#[test]
fn test_update_if_match() {
    let mut client = Db::new();
    let key = "txn/update";
    client.set(key, "original");
    let mod_rev = kv(&client.get(key), 0).mod_revision;
    let update = |v: &str| {
        when(vec![compare(key, EQUAL, TargetUnion::ModRevision(mod_rev))], vec![put_op(key, v)])
    };
    assert!(client.txn(update("updated")).unwrap().succeeded, "update with correct mod_rev");
    assert_eq!(kv(&client.get(key), 0).value, b"updated");
    assert!(!client.txn(update("stale")).unwrap().succeeded, "update with stale mod_rev");
}

#[test]
fn test_delete_if_match() {
    let mut client = Db::new();
    let key = "txn/delete";
    client.set(key, "todelete");
    let mod_rev = kv(&client.get(key), 0).mod_revision;
    let resp = client
        .txn(when(
            vec![compare(key, EQUAL, TargetUnion::ModRevision(mod_rev))],
            vec![RequestOp::DeleteRange(DeleteRangeRequest::new(key.into(), vec![]))],
        ))
        .unwrap();
    assert!(resp.succeeded, "delete with correct mod_rev");
    assert_eq!(client.get(key).count, 0);
}

#[test]
fn test_transaction_cas() {
    let mut client = Db::new();
    let key = "txn/cas";
    client.set(key, "initial");

    let resp = client
        .txn(TxnRequest {
            compare: vec![compare(key, EQUAL, value("initial"))],
            success: vec![put_op(key, "updated")],
            failure: vec![put_op(key, "failed")],
        })
        .unwrap();
    assert!(resp.succeeded);
    assert_eq!(kv(&client.get(key), 0).value, b"updated");

    let resp2 = client
        .txn(TxnRequest {
            compare: vec![compare(key, EQUAL, value("initial"))],
            success: vec![put_op(key, "should_not_happen")],
            failure: vec![put_op(key, "fallback")],
        })
        .unwrap();
    assert!(!resp2.succeeded);
    assert_eq!(kv(&client.get(key), 0).value, b"fallback");
}

#[test]
fn test_transaction_multi_cond() {
    let mut client = Db::new();
    let (k1, k2) = ("txn/multi_a", "txn/multi_b");
    client.set(k1, "x");
    client.set(k2, "y");
    let rev1 = kv(&client.get(k1), 0).mod_revision;
    let rev2 = kv(&client.get(k2), 0).mod_revision;

    let resp = client
        .txn(when(
            vec![
                compare(k1, EQUAL, TargetUnion::ModRevision(rev1)),
                compare(k2, EQUAL, TargetUnion::ModRevision(rev2)),
            ],
            vec![put_op(k1, "updated_x"), put_op(k2, "updated_y")],
        ))
        .unwrap();
    assert!(resp.succeeded);
    assert_eq!(kv(&client.get(k1), 0).value, b"updated_x");
}

#[test]
fn test_txn_compare_value_equal() {
    let mut client = Db::new();
    let key = "txn/val_eq";
    client.set(key, "match_me");
    let resp = client
        .txn(when(vec![compare(key, EQUAL, value("match_me"))], vec![put_op(key, "matched")]))
        .unwrap();
    assert!(resp.succeeded, "value equal should succeed");
    assert_eq!(kv(&client.get(key), 0).value, b"matched");
}

#[test]
fn test_txn_compare_value_not_equal() {
    let mut client = Db::new();
    let key = "txn/val_neq";
    client.set(key, "original");
    let resp = client
        .txn(when(vec![compare(key, NOT_EQUAL, value("wrong"))], vec![put_op(key, "diff")]))
        .unwrap();
    assert!(resp.succeeded, "value not-equal should succeed");
    assert_eq!(kv(&client.get(key), 0).value, b"diff");
}

#[test]
fn test_txn_compare_version() {
    let mut client = Db::new();
    let key = "txn/ver";
    let resp = client
        .txn(when(vec![compare(key, EQUAL, TargetUnion::Version(0))], vec![put_op(key, "v1")]))
        .unwrap();
    assert!(resp.succeeded, "version==0 should succeed for new key");
    let resp2 = client
        .txn(when(vec![compare(key, EQUAL, TargetUnion::Version(1))], vec![put_op(key, "v2")]))
        .unwrap();
    assert!(resp2.succeeded, "version==1 should succeed after first put");
}

#[test]
fn test_txn_compare_create_revision() {
    let mut client = Db::new();
    let key = "txn/cr";
    client.set(key, "first");
    let create_rev = kv(&client.get(key), 0).create_revision;
    let check = |rev: i64, v: &str| {
        when(vec![compare(key, EQUAL, TargetUnion::CreateRevision(rev))], vec![put_op(key, v)])
    };
    assert!(
        client.txn(check(create_rev, "checked")).unwrap().succeeded,
        "create_revision match should succeed"
    );
    assert!(
        !client.txn(check(create_rev + 999, "wrong")).unwrap().succeeded,
        "wrong create_revision should fail"
    );
}

#[test]
fn test_concurrent_create_txn() {
    let mut client = Db::new();
    let n = 10;
    for i in 0..n {
        let key = format!("concurrent/txn/1/item_{i}");
        client
            .txn(when(
                vec![compare(&key, EQUAL, TargetUnion::ModRevision(0))],
                vec![put_op(&key, "created")],
            ))
            .unwrap();
    }
    assert_eq!(client.list("concurrent/txn/1/").count as usize, n);
}

#[test]
fn operations_see_those_before_them_and_are_answered_in_order() {
    let mut client = Db::new();
    let first = client.set("k", "old");
    let mut past = RangeRequest::new(b"k".to_vec(), vec![]);
    past.revision = first;
    let resp = client
        .txn(TxnRequest {
            compare: vec![],
            success: vec![
                put_op("k", "new"),
                RequestOp::Range(RangeRequest::new(b"k".to_vec(), vec![])),
                RequestOp::Range(past),
                RequestOp::Nothing,
                RequestOp::DeleteRange(DeleteRangeRequest::new(b"k".to_vec(), vec![])),
            ],
            failure: vec![],
        })
        .unwrap();
    assert!(resp.succeeded);
    assert_eq!(resp.header.revision, 3);
    assert_eq!(resp.responses.len(), 4);
    assert!(matches!(&resp.responses[0], ResponseOp::Put(p) if p.header.revision == 2));
    assert!(matches!(&resp.responses[1], ResponseOp::Range(r) if kv(r, 0).value == b"new"));
    assert!(matches!(&resp.responses[2], ResponseOp::Range(r) if kv(r, 0).value == b"old"));
    assert!(matches!(&resp.responses[3], ResponseOp::DeleteRange(d) if d.deleted == 1));
}

#[test]
fn an_error_ends_a_transaction_and_what_was_done_stays() {
    let mut client = Db::new();
    let mut late = PutRequest::new(b"b".to_vec(), b"2".to_vec());
    late.lease = 77;
    let err = client
        .txn(when(vec![], vec![put_op("a", "1"), RequestOp::Put(late), put_op("c", "3")]))
        .unwrap_err();
    assert_eq!(err.message(), "etcdserver: lease not found");
    assert_eq!(client.get("a").count, 1);
    assert_eq!(client.get("c").count, 0);

    let mut future = RangeRequest::new(b"a".to_vec(), vec![]);
    future.revision = 100;
    let err = client.txn(when(vec![], vec![RequestOp::Range(future)])).unwrap_err();
    assert_eq!(err.message(), "etcdserver: mvcc: required revision is a future revision");
}

#[test]
fn scans_that_end_before_they_begin_are_not_ready() {
    let mut client = Db::new();
    let backwards = RangeRequest::new(b"c".to_vec(), b"a".to_vec());
    let run = client.store.txn(when(vec![], vec![RequestOp::Range(backwards)]));
    assert!(!run.ready(&client.store));
    let backwards = DeleteRangeRequest::new(b"c".to_vec(), b"a".to_vec());
    let run = client.store.txn(when(vec![], vec![RequestOp::DeleteRange(backwards)]));
    assert!(!run.ready(&client.store));
    let point = DeleteRangeRequest::new(b"c\xFF".to_vec(), vec![]);
    let run = client.store.txn(when(vec![], vec![RequestOp::DeleteRange(point)]));
    assert!(run.ready(&client.store));
    client.set("k", "v");
}

#[test]
fn taking_keys_over_spares_those_that_are_there() {
    let mut client = Db::new();
    client.set("there", "own");
    assert!(!client.txn(create_if_absent(b"there", b"foreign")).unwrap().succeeded);
    assert!(client.txn(create_if_absent(b"new", b"foreign")).unwrap().succeeded);
    assert!(!client.txn(create_if_absent(b"new", b"again")).unwrap().succeeded);
    assert_eq!(kv(&client.get("there"), 0).value, b"own");
    assert_eq!(kv(&client.get("new"), 0).value, b"foreign");
    assert!(is_taken_over(b"name", b"value"));
    assert!(!is_taken_over(b"", b"value"));
    assert!(!is_taken_over(b"name", b""));
}

#[test]
fn of_two_that_saw_the_same_revision_one_writes() {
    let mut client = Db::new();
    let seen = client.set("k", "0");
    let swap = |rev: i64, v: &str| {
        when(vec![compare("k", EQUAL, TargetUnion::ModRevision(rev))], vec![put_op("k", v)])
    };
    assert!(client.txn(swap(seen, "first")).unwrap().succeeded);
    assert!(!client.txn(swap(seen, "second")).unwrap().succeeded);
    assert_eq!(kv(&client.get("k"), 0).value, b"first");
    let now = kv(&client.get("k"), 0).mod_revision;
    assert!(client.txn(swap(now, "third")).unwrap().succeeded);
    assert_eq!(kv(&client.get("k"), 0).value, b"third");
}
