#![allow(dead_code)]

use rudurru::storage::key_value::KeyValue;
use rudurru::storage::messages::{Code, CompactionRequest};
use rudurru::storage::messages::{
    DeleteRangeRequest, DeleteRangeResponse, PutRequest, PutResponse, RangeRequest, RangeResponse,
    StoreError,
};
use rudurru::storage::query::{RangeStep, WalRead};
use rudurru::storage::{current_revision, Store};

#[derive(Default)]
struct Put {
    key: Vec<u8>,
    value: Vec<u8>,
    lease: i64,
    prev_kv: bool,
    ignore_value: bool,
    ignore_lease: bool,
}

#[derive(Default)]
struct Delete {
    key: Vec<u8>,
    range_end: Vec<u8>,
    prev_kv: bool,
}

#[derive(Default)]
struct Range {
    key: Vec<u8>,
    range_end: Vec<u8>,
    limit: i64,
    revision: i64,
    keys_only: bool,
    count_only: bool,
    min_mod_revision: i64,
    max_mod_revision: i64,
    min_create_revision: i64,
    max_create_revision: i64,
}

/// A store whose log is kept in memory.
struct Db {
    store: Store,
    wal: Vec<u8>,
}

impl Db {
    fn new() -> Db {
        Db { store: Store::open(&[], 0, 1, 0), wal: Vec::new() }
    }

    fn reopen(&self) -> Db {
        let s = &self.store.state;
        Db {
            store: Store::open(&self.wal, s.compact_rev, s.next_lease_id, 0),
            wal: self.wal.clone(),
        }
    }

    fn revision(&self) -> u64 {
        current_revision(self.store.state.next_rev)
    }

    fn give_up(&mut self, rev: u64) {
        self.store.state.compact_rev = rev;
    }

    fn put(&mut self, p: Put) -> Result<PutResponse, StoreError> {
        let pending = self.store.put(PutRequest {
            key: p.key,
            value: p.value,
            lease: p.lease,
            prev_kv: p.prev_kv,
            ignore_value: p.ignore_value,
            ignore_lease: p.ignore_lease,
        })?;
        self.wal.extend(pending.log_bytes());
        self.store.finish_put(pending, true)
    }

    fn delete_range(&mut self, d: Delete) -> Result<DeleteRangeResponse, StoreError> {
        let pending = self.store.delete_range(DeleteRangeRequest {
            key: d.key,
            range_end: d.range_end,
            prev_kv: d.prev_kv,
        });
        self.wal.extend(pending.log_bytes());
        self.store.finish_delete_range(pending, true)
    }

    fn range(&self, r: Range) -> Result<RangeResponse, StoreError> {
        let req = RangeRequest {
            key: r.key,
            range_end: r.range_end,
            limit: r.limit,
            revision: r.revision,
            keys_only: r.keys_only,
            count_only: r.count_only,
            min_mod_revision: r.min_mod_revision,
            max_mod_revision: r.max_mod_revision,
            min_create_revision: r.min_create_revision,
            max_create_revision: r.max_create_revision,
        };
        match self.store.range(&req)? {
            RangeStep::Done(resp) => Ok(resp),
            RangeStep::NeedWal(scan) => {
                self.store.finish_range(scan, WalRead::Contents(self.wal.clone()))
            }
        }
    }

    fn set(&mut self, key: &str, value: &str) -> i64 {
        let resp = self
            .put(Put { key: key.into(), value: value.into(), ..Default::default() })
            .unwrap();
        resp.header.revision
    }

    fn get(&self, key: &str) -> RangeResponse {
        self.range(Range { key: key.into(), ..Default::default() }).unwrap()
    }

    fn list(&self, prefix: &str) -> RangeResponse {
        self.range(Range {
            key: prefix.into(),
            range_end: end_of(prefix.as_bytes()),
            ..Default::default()
        })
        .unwrap()
    }
}

/// The end of the range of the keys that begin with a prefix.
fn end_of(prefix: &[u8]) -> Vec<u8> {
    let mut end = prefix.to_vec();
    while let Some(last) = end.pop() {
        if last != 0xFF {
            end.push(last + 1);
            return end;
        }
    }
    vec![0]
}

fn kv(resp: &RangeResponse, i: usize) -> KeyValue {
    KeyValue::decode(&resp.kvs[i]).unwrap()
}

#[test]
fn test_put_prev_kv() {
    let mut client = Db::new();
    client.set("kv/put_prev", "first");

    let resp = client
        .put(Put {
            key: b"kv/put_prev".to_vec(),
            value: b"second".to_vec(),
            prev_kv: true,
            ..Default::default()
        })
        .unwrap();
    let prev = KeyValue::decode(&resp.prev_kv).expect("prev_key should be present");
    assert_eq!(prev.value, b"first");

    // First put on a key should return no prev_key
    let resp2 = client
        .put(Put {
            key: b"kv/put_prev2".to_vec(),
            value: b"sole".to_vec(),
            prev_kv: true,
            ..Default::default()
        })
        .unwrap();
    assert!(resp2.prev_kv.is_empty(), "no prev_key on first put");
}

#[test]
fn test_delete_prev_kv() {
    let mut client = Db::new();
    client.set("del_prev/1/a", "A");
    client.set("del_prev/1/b", "B");

    let resp = client
        .delete_range(Delete {
            key: b"del_prev/1/".to_vec(),
            range_end: end_of(b"del_prev/1/"),
            prev_kv: true,
        })
        .unwrap();
    assert_eq!(resp.deleted, 2);
    let prevs = resp.prev_kvs;
    assert_eq!(prevs.len(), 2);
    assert_eq!(KeyValue::decode(&prevs[0]).unwrap().value, b"A");
    assert_eq!(KeyValue::decode(&prevs[1]).unwrap().value, b"B");
}

#[test]
fn test_range_count_only() {
    let mut client = Db::new();
    for i in 0..5 {
        client.set(&format!("count_only/1/k{i}"), "val");
    }

    let resp = client
        .range(Range {
            key: b"count_only/1/".to_vec(),
            range_end: end_of(b"count_only/1/"),
            count_only: true,
            ..Default::default()
        })
        .unwrap();
    assert_eq!(resp.count, 5);
    assert!(resp.kvs.is_empty(), "count_only should return no kvs");
}

#[test]
fn test_put_and_get() {
    let mut client = Db::new();
    client.set("kv/put_get", "hello world");

    let get_resp = client.get("kv/put_get");
    assert_eq!(get_resp.count, 1);
    assert_eq!(kv(&get_resp, 0).key, b"kv/put_get");
    assert_eq!(kv(&get_resp, 0).value, b"hello world");
}

#[test]
fn test_get_missing_key() {
    let client = Db::new();
    let resp = client.get("kv/missing");
    assert_eq!(resp.count, 0);
    assert!(resp.kvs.is_empty());
}

#[test]
fn test_list_with_prefix() {
    let mut client = Db::new();
    for i in 0..5 {
        client.set(&format!("list/1/item_{i}"), "val");
    }
    assert_eq!(client.list("list/1/").count, 5);
}

#[test]
fn test_range_with_range_end() {
    let mut client = Db::new();
    for i in 0..3 {
        client.set(&format!("rangeend/1/z{i}"), "val");
    }
    let resp = client
        .range(Range {
            key: b"rangeend/1/z1".to_vec(),
            range_end: b"rangeend/1/z999".to_vec(),
            ..Default::default()
        })
        .unwrap();
    assert_eq!(resp.kvs.len(), 2);
}

#[test]
fn test_delete_range() {
    let mut client = Db::new();
    for i in 0..5 {
        client.set(&format!("delete/1/k{i}"), "val");
    }
    let resp = client
        .delete_range(Delete {
            key: b"delete/1/".to_vec(),
            range_end: end_of(b"delete/1/"),
            ..Default::default()
        })
        .unwrap();
    assert_eq!(resp.deleted, 5);
    assert_eq!(client.list("delete/1/").count, 0);
}

#[test]
fn test_get_with_limit() {
    let mut client = Db::new();
    for i in 0..10 {
        client.set(&format!("limit/1/n{i}"), "val");
    }
    let resp = client
        .range(Range {
            key: b"limit/1/".to_vec(),
            range_end: end_of(b"limit/1/"),
            limit: 5,
            ..Default::default()
        })
        .unwrap();
    assert_eq!(resp.kvs.len(), 5);
    assert!(resp.more);
}

#[test]
fn test_get_keys_only() {
    let mut client = Db::new();
    client.set("kv/keys_only", "some_value");
    let resp = client
        .range(Range { key: b"kv/keys_only".to_vec(), keys_only: true, ..Default::default() })
        .unwrap();
    assert_eq!(kv(&resp, 0).key, b"kv/keys_only");
    assert!(kv(&resp, 0).value.is_empty());
}

#[test]
fn test_compaction() {
    let mut client = Db::new();
    for _ in 1..=3 {
        client.set("kv/compact", "v");
    }
    let rev = client.get("kv/compact").header.revision;
    let compact_rev = rev - 1;
    client
        .store
        .compact(CompactionRequest { revision: compact_rev, physical: false })
        .unwrap();
    let old_resp = client
        .range(Range { key: b"kv/compact".to_vec(), revision: compact_rev, ..Default::default() })
        .unwrap();
    assert_eq!(old_resp.count, 1);
}

#[test]
fn test_mod_revision_increments() {
    let mut client = Db::new();
    let mod1 = client.set("kv/mod_rev", "a");
    let mod2 = client.set("kv/mod_rev", "b");
    assert!(mod2 > mod1);
    assert_eq!(kv(&client.get("kv/mod_rev"), 0).version, 2);
}

#[test]
fn test_point_vs_from_key_range() {
    let mut client = Db::new();
    client.set("aaa_pfk/1/a", "1");
    client.set("aaa_pfk/1/b", "2");
    client.set("aaa_pfk/1/c", "3");

    let point = client.get("aaa_pfk/1/b");
    assert_eq!(point.count, 1, "point lookup should return exactly 1 key");

    let from = client
        .range(Range {
            key: b"aaa_pfk/1/b".to_vec(),
            range_end: vec![0],
            ..Default::default()
        })
        .unwrap();
    assert!(
        from.count >= 2,
        "from-key should return at least 2 keys (b, c), got {}",
        from.count
    );
    assert_eq!(kv(&from, 0).key, b"aaa_pfk/1/b");
    assert_eq!(kv(&from, 1).key, b"aaa_pfk/1/c");
}

#[test]
fn test_all_keys_range() {
    let mut client = Db::new();
    client.set("bbb_allk/1/x", "1");
    client.set("bbb_allk/1/y", "2");
    let all = client
        .range(Range { key: vec![], range_end: vec![0], ..Default::default() })
        .unwrap();
    assert!(
        all.count >= 2,
        "all-keys should return at least our 2 keys, got {}",
        all.count
    );
}

#[test]
fn test_prefix_with_ff_boundary() {
    let mut client = Db::new();
    let mut key_a = b"ccc_ffb/1/".to_vec();
    key_a.push(0xFF);
    let mut key_b = b"ccc_ffb/1/".to_vec();
    key_b.extend_from_slice(&[0xFF, 0xFF]);
    client.put(Put { key: key_a.clone(), value: b"1".to_vec(), ..Default::default() }).unwrap();
    client.put(Put { key: key_b, value: b"2".to_vec(), ..Default::default() }).unwrap();

    let range_end = end_of(&key_a);
    let resp = client.range(Range { key: key_a, range_end, ..Default::default() }).unwrap();
    assert_eq!(resp.count, 2, "should match keys with 0xFF prefix");
}

#[test]
fn test_delete_from_key() {
    let mut client = Db::new();
    client.set("~~~_del/1/a", "1");
    client.set("~~~_del/1/b", "2");
    client.set("~~~_del/1/c", "3");

    let del = client
        .delete_range(Delete {
            key: b"~~~_del/1/b".to_vec(),
            range_end: vec![0],
            ..Default::default()
        })
        .unwrap();
    assert_eq!(del.deleted, 2, "should delete b and c");

    let remaining = client.list("~~~_del/1/");
    assert_eq!(remaining.count, 1, "only a should remain");
    assert_eq!(kv(&remaining, 0).key, b"~~~_del/1/a");
}

#[test]
fn test_range_with_start_equals_end() {
    let mut client = Db::new();
    client.set("ddd_seq/1/m", "1");
    client.set("ddd_seq/1/n", "2");
    let resp = client
        .range(Range {
            key: b"ddd_seq/1/m".to_vec(),
            range_end: b"ddd_seq/1/m".to_vec(),
            ..Default::default()
        })
        .unwrap();
    assert_eq!(resp.count, 0, "empty range should return 0 keys");
}

#[test]
fn test_put_delete_put_create_revision() {
    let mut client = Db::new();
    let rev1 = client.set("kv/pdp_cr", "v1");

    let get1 = client.get("kv/pdp_cr");
    assert_eq!(kv(&get1, 0).create_revision, rev1);
    assert_eq!(kv(&get1, 0).mod_revision, rev1);
    assert_eq!(kv(&get1, 0).version, 1);

    client
        .delete_range(Delete { key: b"kv/pdp_cr".to_vec(), ..Default::default() })
        .unwrap();

    let rev2 = client.set("kv/pdp_cr", "v2");
    assert!(rev2 > rev1);

    let get2 = client.get("kv/pdp_cr");
    assert_eq!(kv(&get2, 0).create_revision, rev2);
    assert_eq!(kv(&get2, 0).mod_revision, rev2);
    assert_eq!(kv(&get2, 0).version, 1);
}

#[test]
fn test_put_update_keeps_create_revision() {
    let mut client = Db::new();
    client.set("kv/upd_cr", "a");
    let create_rev = kv(&client.get("kv/upd_cr"), 0).create_revision;

    client.set("kv/upd_cr", "b");
    let get = client.get("kv/upd_cr");
    assert_eq!(kv(&get, 0).create_revision, create_rev, "create_revision unchanged on update");
    assert!(kv(&get, 0).mod_revision > create_rev, "mod_revision increases on update");
    assert_eq!(kv(&get, 0).version, 2, "version increments on update");
}

#[test]
fn test_concurrent_puts() {
    let mut client = Db::new();
    let n = 20;
    for i in 0..n {
        client.set(&format!("concurrent/puts/1/task_{i}"), &format!("val_{i}"));
    }
    assert_eq!(client.list("concurrent/puts/1/").count as usize, n);
}

#[test]
fn puts_can_keep_the_value_or_the_lease() {
    let mut client = Db::new();
    client.set("k", "v");
    client
        .put(Put { key: b"k".to_vec(), ignore_value: true, ..Default::default() })
        .unwrap();
    assert_eq!(kv(&client.get("k"), 0).value, b"v");
    assert_eq!(kv(&client.get("k"), 0).version, 2);
    client
        .put(Put {
            key: b"k".to_vec(),
            value: b"w".to_vec(),
            lease: 5,
            ignore_lease: true,
            ..Default::default()
        })
        .unwrap();
    assert_eq!(kv(&client.get("k"), 0).lease, 0);
}

#[test]
fn test_put_ignore_value_on_missing_key_should_error() {
    let mut client = Db::new();
    let err = client
        .put(Put { key: b"k".to_vec(), ignore_value: true, ..Default::default() })
        .unwrap_err();
    assert_eq!(err.message(), "key not found");
    assert_eq!(err.code(), Code::NotFound);
    assert_eq!(client.get("k").count, 0);
    assert_eq!(client.store.state.key_count, 0);

    // A deleted key is missing too.
    client.set("k", "v");
    client.delete_range(Delete { key: b"k".to_vec(), ..Default::default() }).unwrap();
    let err = client
        .put(Put { key: b"k".to_vec(), ignore_value: true, ..Default::default() })
        .unwrap_err();
    assert_eq!(err.message(), "key not found");
    assert_eq!(client.get("k").count, 0);
}

#[test]
fn test_put_ignore_lease_on_missing_key_should_error() {
    let mut client = Db::new();
    let err = client
        .put(Put {
            key: b"k".to_vec(),
            value: b"v".to_vec(),
            lease: 9,
            ignore_lease: true,
            ..Default::default()
        })
        .unwrap_err();
    assert_eq!(err.message(), "key not found");
    assert_eq!(client.get("k").count, 0);
}

#[test]
fn a_lookup_of_one_key_gives_that_key_alone() {
    let mut client = Db::new();
    client.set("k", "1");
    client.set("k2", "2");
    assert_eq!(client.get("k").count, 1);
    assert_eq!(kv(&client.get("k"), 0).key, b"k");
    assert_eq!(client.get("k2").count, 1);
    assert_eq!(client.get("").count, 0);
    for key in [&b""[..], b"k\xff", b"\xff\xff"] {
        client.put(Put { key: key.to_vec(), value: b"v".to_vec(), ..Default::default() }).unwrap();
        let now = client.revision() as i64;
        for revision in [0, now] {
            let req = Range { key: key.to_vec(), revision, ..Default::default() };
            let resp = client.range(req).unwrap();
            assert_eq!(resp.count, 1);
            assert_eq!(kv(&resp, 0).key, key);
        }
    }
}

#[test]
fn a_put_under_a_missing_lease_is_refused_and_takes_a_revision() {
    let mut client = Db::new();
    let err = client
        .put(Put { key: b"k".to_vec(), lease: 9, ..Default::default() })
        .unwrap_err();
    assert_eq!(err.code(), Code::NotFound);
    assert_eq!(err.message(), "etcdserver: lease not found");
    assert_eq!(client.revision(), 1);
    assert_eq!(client.set("k", "v"), 2);
}

#[test]
fn what_cannot_be_logged_does_not_happen() {
    let mut client = Db::new();
    client.set("k", "v");
    let pending = client.store.put(PutRequest::new(b"k".to_vec(), b"w".to_vec())).unwrap();
    let err = client.store.finish_put(pending, false).unwrap_err();
    assert_eq!(err.code(), Code::Internal);
    assert_eq!(err.message(), "etcdserver: wal write failed");
    assert_eq!(kv(&client.get("k"), 0).value, b"v");

    let pending = client.store.delete_range(DeleteRangeRequest::new(b"k".to_vec(), vec![]));
    assert!(client.store.finish_delete_range(pending, false).is_err());
    assert_eq!(client.get("k").count, 1);
    assert_eq!(client.revision(), 3);
}

#[test]
fn a_deletion_of_one_key_spares_those_that_begin_with_it() {
    let mut client = Db::new();
    client.set("k", "1");
    client.set("k2", "2");
    assert_eq!(client.get("k").count, 1);
    let resp =
        client.delete_range(Delete { key: b"k".to_vec(), ..Default::default() }).unwrap();
    assert_eq!(resp.deleted, 1);
    assert_eq!(resp.header.revision, 3);
    assert_eq!(client.get("k").count, 0);
    assert_eq!(client.get("k2").count, 1);
    let resp =
        client.delete_range(Delete { key: b"k".to_vec(), ..Default::default() }).unwrap();
    assert_eq!(resp.deleted, 0);
    assert_eq!(client.revision(), 4);
}

#[test]
fn compactions_have_their_limits() {
    let mut client = Db::new();
    client.set("k", "1");
    client.set("k", "2");
    let compact = |client: &mut Db, revision: i64| {
        client.store.compact(CompactionRequest { revision, physical: true })
    };
    let err = compact(&mut client, 3).unwrap_err();
    assert_eq!(err.code(), Code::OutOfRange);
    assert_eq!(err.message(), "etcdserver: mvcc: required revision is a future revision");
    assert_eq!(compact(&mut client, 2).unwrap().header.revision, 2);
    let err = compact(&mut client, 2).unwrap_err();
    assert_eq!(err.code(), Code::OutOfRange);
    assert_eq!(err.message(), "etcdserver: mvcc: required revision has been compacted");
    assert!(compact(&mut client, 0).is_err());
    assert!(compact(&mut client, -1).is_err());
    assert_eq!(client.get("k").count, 1);
    let req = |revision| Range { key: b"k".to_vec(), revision, ..Default::default() };
    let err = client.range(req(1)).unwrap_err();
    assert_eq!(err.code(), Code::Unavailable);
    assert_eq!(client.range(req(3)).unwrap_err().code(), Code::Unavailable);
}

#[test]
fn the_counter_counts_what_is_alive() {
    let mut client = Db::new();
    client.set("a", "1");
    client.set("b", "1");
    client.set("a", "2");
    assert_eq!(client.store.state.key_count, 2);
    client.delete_range(Delete { key: b"a".to_vec(), ..Default::default() }).unwrap();
    client.delete_range(Delete { key: b"a".to_vec(), ..Default::default() }).unwrap();
    assert_eq!(client.store.state.key_count, 1);
    client.set("a", "3");
    assert_eq!(client.store.state.key_count, 2);
}

#[test]
fn a_key_is_shown_from_its_message_or_its_fields() {
    let mut client = Db::new();
    client.set("k", "v");
    let mut ks = client.store.state.keys.get(b"k").unwrap().clone();
    let shown = ks.to_key_value(b"other");
    assert_eq!(shown.key, b"other");
    assert_eq!(shown.value, b"v");
    assert_eq!(shown.version, 1);
    ks.kv_bytes = vec![];
    ks.version = 9;
    let shown = ks.to_key_value(b"k");
    assert_eq!(shown.value, b"v");
    assert_eq!(shown.version, 9);
    assert_eq!(shown.create_revision, 1);
}

fn range_of(key: &[u8], range_end: &[u8], revision: i64) -> RangeRequest {
    RangeRequest {
        key: key.to_vec(),
        range_end: range_end.to_vec(),
        limit: 0,
        revision,
        keys_only: false,
        count_only: false,
        min_mod_revision: 0,
        max_mod_revision: 0,
        min_create_revision: 0,
        max_create_revision: 0,
    }
}

#[test]
fn a_scan_must_not_end_before_it_begins() {
    let mut client = Db::new();
    client.set("a", "1");
    assert!(client.store.range_ready(&range_of(b"a", b"b", 0)));
    assert!(client.store.range_ready(&range_of(b"a", b"", 0)));
    assert!(!client.store.range_ready(&range_of(b"b", b"a", 0)));
    // a query that is refused needs no scan
    assert!(client.store.range_ready(&range_of(b"b", b"a", 9)));
    assert!(client.store.range_ready(&range_of(b"k\xff", b"", 0)));

    let deletion = |key: &[u8], range_end: &[u8]| DeleteRangeRequest {
        key: key.to_vec(),
        range_end: range_end.to_vec(),
        prev_kv: false,
    };
    assert!(client.store.delete_ready(&deletion(b"a", b"b")));
    assert!(client.store.delete_ready(&deletion(b"k\xff", b"")));
    assert!(!client.store.delete_ready(&deletion(b"b", b"a")));
}

#[test]
fn the_same_deletion_again_deletes_nothing() {
    let mut client = Db::new();
    for key in ["d/a", "d/b", "e"] {
        client.set(key, "v");
    }
    let deletion = || Delete { key: b"d/".to_vec(), range_end: b"d0".to_vec(), prev_kv: true };
    assert_eq!(client.delete_range(deletion()).unwrap().deleted, 2);
    let logged = client.wal.len();
    let again = client.delete_range(deletion()).unwrap();
    assert_eq!(again.deleted, 0);
    assert!(again.prev_kvs.is_empty());
    assert_eq!(client.wal.len(), logged);
    assert_eq!(client.get("e").count, 1);
}
