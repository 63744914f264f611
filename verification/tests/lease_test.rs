#![allow(dead_code)]

use rudurru::storage::key_value::KeyValue;
use rudurru::storage::lease::RevokeStep;
use rudurru::storage::messages::{
    Code, LeaseGrantRequest, LeaseRevokeRequest, LeaseTimeToLiveRequest,
};
use rudurru::storage::messages::{
    DeleteRangeRequest, DeleteRangeResponse, PutRequest, PutResponse, RangeRequest, RangeResponse,
    StoreError,
};
use rudurru::storage::query::{RangeStep, WalRead};
use rudurru::storage::{current_revision, Store};

#[derive(Default)]
struct Put {
    key: Vec<u8>,
    value: Vec<u8>,
    lease: i64,
    prev_kv: bool,
    ignore_value: bool,
    ignore_lease: bool,
}

#[derive(Default)]
struct Delete {
    key: Vec<u8>,
    range_end: Vec<u8>,
    prev_kv: bool,
}

#[derive(Default)]
struct Range {
    key: Vec<u8>,
    range_end: Vec<u8>,
    limit: i64,
    revision: i64,
    keys_only: bool,
    count_only: bool,
    min_mod_revision: i64,
    max_mod_revision: i64,
    min_create_revision: i64,
    max_create_revision: i64,
}

/// A store whose log is kept in memory.
struct Db {
    store: Store,
    wal: Vec<u8>,
}

impl Db {
    fn new() -> Db {
        Db { store: Store::open(&[], 0, 1, 0), wal: Vec::new() }
    }

    fn reopen(&self) -> Db {
        let s = &self.store.state;
        Db {
            store: Store::open(&self.wal, s.compact_rev, s.next_lease_id, 0),
            wal: self.wal.clone(),
        }
    }

    fn revision(&self) -> u64 {
        current_revision(self.store.state.next_rev)
    }

    fn give_up(&mut self, rev: u64) {
        self.store.state.compact_rev = rev;
    }

    fn put(&mut self, p: Put) -> Result<PutResponse, StoreError> {
        let pending = self.store.put(PutRequest {
            key: p.key,
            value: p.value,
            lease: p.lease,
            prev_kv: p.prev_kv,
            ignore_value: p.ignore_value,
            ignore_lease: p.ignore_lease,
        })?;
        self.wal.extend(pending.log_bytes());
        self.store.finish_put(pending, true)
    }

    fn delete_range(&mut self, d: Delete) -> Result<DeleteRangeResponse, StoreError> {
        let pending = self.store.delete_range(DeleteRangeRequest {
            key: d.key,
            range_end: d.range_end,
            prev_kv: d.prev_kv,
        });
        self.wal.extend(pending.log_bytes());
        self.store.finish_delete_range(pending, true)
    }

    fn range(&self, r: Range) -> Result<RangeResponse, StoreError> {
        let req = RangeRequest {
            key: r.key,
            range_end: r.range_end,
            limit: r.limit,
            revision: r.revision,
            keys_only: r.keys_only,
            count_only: r.count_only,
            min_mod_revision: r.min_mod_revision,
            max_mod_revision: r.max_mod_revision,
            min_create_revision: r.min_create_revision,
            max_create_revision: r.max_create_revision,
        };
        match self.store.range(&req)? {
            RangeStep::Done(resp) => Ok(resp),
            RangeStep::NeedWal(scan) => {
                self.store.finish_range(scan, WalRead::Contents(self.wal.clone()))
            }
        }
    }

    fn set(&mut self, key: &str, value: &str) -> i64 {
        let resp = self
            .put(Put { key: key.into(), value: value.into(), ..Default::default() })
            .unwrap();
        resp.header.revision
    }

    fn get(&self, key: &str) -> RangeResponse {
        self.range(Range { key: key.into(), ..Default::default() }).unwrap()
    }

    fn list(&self, prefix: &str) -> RangeResponse {
        self.range(Range {
            key: prefix.into(),
            range_end: end_of(prefix.as_bytes()),
            ..Default::default()
        })
        .unwrap()
    }

    fn grant(&mut self, ttl: i64, id: i64, now: u128) -> i64 {
        let resp = self.store.lease_grant(LeaseGrantRequest { ttl, id }, now);
        assert_eq!(resp.ttl, ttl);
        resp.id
    }

    fn attach(&mut self, key: &str, value: &str, lease: i64) {
        self.put(Put { key: key.into(), value: value.into(), lease, ..Default::default() })
            .unwrap();
    }

    fn revoke(&mut self, id: i64) {
        if let RevokeStep::Delete(pending) = self.store.lease_revoke(LeaseRevokeRequest { id }) {
            self.wal.extend(pending.log_bytes());
            self.store.finish_lease_delete(pending, true).unwrap();
        }
    }

    fn expire(&mut self, now: u128) -> Vec<i64> {
        let ids = self.store.expired_leases(now);
        for &id in &ids {
            if let Some(pending) = self.store.expire_lease(id) {
                self.wal.extend(pending.log_bytes());
                self.store.finish_lease_delete(pending, true).unwrap();
            }
        }
        ids
    }
}

/// The end of the range of the keys that begin with a prefix.
fn end_of(prefix: &[u8]) -> Vec<u8> {
    let mut end = prefix.to_vec();
    while let Some(last) = end.pop() {
        if last != 0xFF {
            end.push(last + 1);
            return end;
        }
    }
    vec![0]
}

fn kv(resp: &RangeResponse, i: usize) -> KeyValue {
    KeyValue::decode(&resp.kvs[i]).unwrap()
}

const SECOND: u128 = 1_000_000_000;

#[test]
fn test_lease_grant_revoke() {
    let mut client = Db::new();
    let lease_id = client.grant(60, 0, 0);
    assert!(lease_id > 0);
    client.revoke(lease_id);
    assert!(client.store.lease_leases().leases.is_empty());
}

#[test]
fn test_lease_with_key_expiry() {
    let mut client = Db::new();
    let id = client.grant(3, 0, 0);
    client.attach("lease/expiry", "lease_bound", id);
    assert_eq!(client.get("lease/expiry").count, 1);

    assert_eq!(client.expire(2 * SECOND), vec![]);
    assert_eq!(client.get("lease/expiry").count, 1);
    assert_eq!(client.expire(5 * SECOND), vec![id]);
    assert_eq!(client.get("lease/expiry").count, 0);
}

#[test]
fn test_lease_keepalive() {
    let mut client = Db::new();
    let id = client.grant(3, 0, 0);
    let resp = client.store.lease_keep_alive(id, 2 * SECOND).unwrap();
    assert_eq!(resp.id, id);
    assert!(resp.ttl > 0);
    assert_eq!(client.expire(4 * SECOND), vec![]);
    assert_eq!(client.expire(5 * SECOND), vec![id]);
    let err = client.store.lease_keep_alive(id, 5 * SECOND).unwrap_err();
    assert_eq!(err.code(), Code::NotFound);
    assert_eq!(err.message(), "etcdserver: lease not found");
}

#[test]
fn test_lease_ttl() {
    let mut client = Db::new();
    let id = client.grant(120, 0, 0);
    let ttl_resp =
        client.store.lease_time_to_live(LeaseTimeToLiveRequest { id, keys: false }, 0);
    assert_eq!(ttl_resp.id, id);
    assert_eq!(ttl_resp.granted_ttl, 120);
    assert_eq!(ttl_resp.ttl, 120);
    let later = client
        .store
        .lease_time_to_live(LeaseTimeToLiveRequest { id, keys: false }, 30 * SECOND + 1);
    assert_eq!(later.ttl, 89);
    let over =
        client.store.lease_time_to_live(LeaseTimeToLiveRequest { id, keys: false }, 500 * SECOND);
    assert_eq!(over.ttl, 0);
}

#[test]
fn test_lease_list() {
    let mut client = Db::new();
    let g1 = client.grant(60, 0, 0);
    let g2 = client.grant(60, 0, 0);
    let ids = client.store.lease_leases().leases;
    assert!(ids.contains(&g1));
    assert!(ids.contains(&g2));
}

#[test]
fn test_lease_grant_with_id() {
    let mut client = Db::new();
    let desired_id: i64 = 12345;
    let id = client.grant(60, desired_id, 0);
    assert_eq!(id, desired_id, "lease ID should match requested ID");
    client.revoke(desired_id);
    assert_eq!(client.grant(60, 0, 0), 1);
}

#[test]
fn test_lease_revoke_cascade() {
    let mut client = Db::new();
    let id = client.grant(60, 0, 0);
    client.attach("lease/cascade1", "attached1", id);
    client.attach("lease/cascade2", "attached2", id);
    client.set("lease/free", "stays");
    assert_eq!(client.get("lease/cascade1").count, 1, "key1 should exist before revoke");
    assert_eq!(client.get("lease/cascade2").count, 1, "key2 should exist before revoke");

    client.revoke(id);
    assert_eq!(client.get("lease/cascade1").count, 0, "key1 should be deleted after lease revoke");
    assert_eq!(client.get("lease/cascade2").count, 0, "key2 should be deleted after lease revoke");
    assert_eq!(client.get("lease/free").count, 1);
    assert_eq!(client.revision(), 4);
    let again = client.reopen();
    assert_eq!(again.get("lease/cascade1").count, 0);
}

#[test]
fn test_lease_ttl_with_keys() {
    let mut client = Db::new();
    let id = client.grant(60, 0, 0);
    client.attach("lease/ttl_keys", "lease_key", id);
    let ttl_resp = client.store.lease_time_to_live(LeaseTimeToLiveRequest { id, keys: true }, 0);
    assert_eq!(ttl_resp.id, id);
    assert_eq!(ttl_resp.granted_ttl, 60);
    assert!(!ttl_resp.keys.is_empty(), "attached keys should be returned");
    assert!(
        ttl_resp.keys.iter().any(|k| k.as_slice() == b"lease/ttl_keys"),
        "our key should be in attached keys"
    );
}

#[test]
fn a_lease_that_is_not_there_has_no_time() {
    let client = Db::new();
    let resp = client.store.lease_time_to_live(LeaseTimeToLiveRequest { id: 7, keys: true }, 0);
    assert_eq!(resp.id, 7);
    assert_eq!(resp.ttl, -1);
    assert_eq!(resp.granted_ttl, -1);
    assert!(resp.keys.is_empty());
}

#[test]
fn the_wait_is_until_the_first_lease_runs_out() {
    let mut client = Db::new();
    assert_eq!(client.store.expiry_wait(0), None);
    client.grant(10, 0, 0);
    client.grant(3, 0, SECOND);
    assert_eq!(client.store.expiry_wait(2 * SECOND), Some(2 * SECOND));
    assert_eq!(client.store.expiry_wait(4 * SECOND), Some(0));
    assert_eq!(client.store.expiry_wait(9 * SECOND), Some(0));
    assert_eq!(client.expire(4 * SECOND), vec![2]);
    assert_eq!(client.store.expiry_wait(4 * SECOND), Some(6 * SECOND));
}

#[test]
fn the_end_of_a_lease_without_keys_takes_no_revision() {
    let mut client = Db::new();
    client.set("k", "v");
    let id = client.grant(60, 0, 0);
    assert_eq!(client.store.state.lease_count, 1);
    client.revoke(id);
    assert_eq!(client.revision(), 1);
    assert_eq!(client.store.state.lease_count, 0);
}

#[test]
fn keys_of_a_lease_stay_if_their_end_cannot_be_logged() {
    let mut client = Db::new();
    let id = client.grant(60, 0, 0);
    client.attach("k", "v", id);
    let pending = match client.store.lease_revoke(LeaseRevokeRequest { id }) {
        RevokeStep::Delete(pending) => pending,
        RevokeStep::Done(_) => panic!("the lease has a key"),
    };
    let err = client.store.finish_lease_delete(pending, false).unwrap_err();
    assert_eq!(err.code(), Code::Internal);
    assert_eq!(err.message(), "WAL write failed during lease key deletion");
    assert_eq!(client.get("k").count, 1);
    assert!(client.store.lease_leases().leases.is_empty());
}

#[test]
fn a_put_under_another_lease_leaves_the_first() {
    let mut client = Db::new();
    let a = client.grant(60, 0, 0);
    let b = client.grant(60, 0, 0);
    client.attach("k", "v", a);
    client.attach("k", "v", b);
    client.revoke(a);
    assert_eq!(client.get("k").count, 1);
    client.revoke(b);
    assert_eq!(client.get("k").count, 0);
}

#[test]
fn all_leases_that_have_run_out_end_at_once_and_no_others() {
    let mut client = Db::new();
    let second: u128 = 1_000_000_000;
    for (id, ttl) in [(1, 5), (2, 10), (3, 5)] {
        client.grant(ttl, id, 0);
        client.attach(&format!("k{id}"), "v", id);
    }
    client.set("free", "v");
    assert_eq!(client.expire(5 * second), vec![1, 3]);
    assert_eq!(client.get("k1").count, 0);
    assert_eq!(client.get("k3").count, 0);
    assert_eq!(client.get("k2").count, 1);
    assert_eq!(client.get("free").count, 1);
    assert_eq!(client.store.lease_leases().leases, vec![2]);
    assert!(client.store.expired_leases(5 * second).is_empty());
    assert_eq!(client.store.expiry_wait(5 * second), Some(5 * second));
}
