use rudurru::server::auth::Auth;
use rudurru::server::cluster::{change_refusal, member_list};
use rudurru::server::maintenance::{
    alarm, defragment, hash, hash_kv, snapshot, snapshot_chunks, status, CHUNK_SIZE,
};
use rudurru::storage::messages::{DeleteRangeRequest, PutRequest};
use rudurru::storage::Store;

fn put(store: &mut Store, key: &str, value: &[u8]) {
    let pending = store.put(PutRequest::new(key.into(), value.to_vec())).unwrap();
    store.finish_put(pending, true).unwrap();
}

fn delete(store: &mut Store, key: &str) {
    let pending = store.delete_range(DeleteRangeRequest::new(key.into(), vec![]));
    store.finish_delete_range(pending, true).unwrap();
}

fn new_store() -> Store {
    Store::open(&[], 0, 1, 0)
}

#[test]
fn test_status() {
    let store = new_store();
    let status = status(&store, 100);
    assert!(!status.version.is_empty());
    assert!(status.db_size > 0);
}

#[test]
fn test_status_full() {
    let mut store = new_store();
    put(&mut store, "k", b"v");
    let status = status(&store, 100);
    assert!(!status.version.is_empty(), "version should not be empty");
    assert!(status.db_size > 0, "db_size should be > 0");
    assert!(status.leader > 0, "leader should be set");
    assert!(status.raft_index > 0, "raft_index should be > 0");
    assert_eq!(status.version, "3.5.0");
    assert_eq!(status.db_size, 100);
    assert_eq!(status.db_size_in_use, 100);
    assert_eq!(status.raft_applied_index, 1);
    assert!(status.errors.is_empty());
}

#[test]
fn test_hash_kv() {
    let mut store = new_store();
    put(&mut store, "hashkv_a", b"data_a");
    put(&mut store, "hashkv_b", b"data_b");

    let resp = hash_kv(&store);
    assert!(resp.hash != 0, "hash_kv should return a non-zero hash");
    assert_eq!(resp.header.revision, 2);
    assert!(resp.compact_revision >= 0, "compact_version should be >= 0");

    put(&mut store, "hashkv_c", b"data_c");
    let resp2 = hash_kv(&store);
    assert_ne!(resp.hash, resp2.hash, "hash should differ with more keys");
}

#[test]
fn test_member_list() {
    let resp = member_list(&new_store());
    assert!(!resp.members.is_empty());
    assert_eq!(resp.members[0].id, 1);
    assert_eq!(resp.members[0].name, "rudurru");
    assert_eq!(resp.members[0].peer_urls, vec!["http://localhost:2380".to_string()]);
    assert_eq!(resp.members[0].client_urls, vec!["http://localhost:2379".to_string()]);
    assert_eq!(resp.header.cluster_id, 1);
}

#[test]
fn test_hash() {
    let mut store = new_store();
    let hash1 = hash(&store);
    assert!(hash1.hash != 0);

    put(&mut store, "hash_test", b"data");
    let hash2 = hash(&store);
    assert_ne!(hash1.hash, hash2.hash, "hash should change after write");

    delete(&mut store, "hash_test");
    assert_eq!(hash(&store).hash, hash1.hash);
    assert_eq!(hash2.hash, (store_hash_of(&[("hash_test", "data")]) & 0xFFFF_FFFF) as u32);
}

fn store_hash_of(entries: &[(&str, &str)]) -> u64 {
    let mut bytes = Vec::new();
    for (k, v) in entries {
        for s in [k, v] {
            bytes.extend_from_slice(&(s.len() as u64).to_le_bytes());
            bytes.extend_from_slice(s.as_bytes());
        }
    }
    xxhash_rust::xxh3::xxh3_64(&bytes)
}

#[test]
fn test_snapshot() {
    let mut store = new_store();
    put(&mut store, "k", b"v");
    let chunks = snapshot_chunks(&snapshot(&store));
    let total_bytes: usize = chunks.iter().map(|c| c.blob.len()).sum();
    assert!(total_bytes > 0, "snapshot should contain data");
}

#[test]
fn a_snapshot_has_its_exact_bytes() {
    let mut store = new_store();
    put(&mut store, "a", b"xyz");
    put(&mut store, "b", b"");
    put(&mut store, "gone", b"x");
    delete(&mut store, "gone");
    let mut expected = 4u64.to_le_bytes().to_vec();
    expected.extend_from_slice(&3u32.to_le_bytes());
    expected.extend_from_slice(b"\x01\0\0\0a\x03\0\0\0xyz\x01\0\0\0b\0\0\0\0");
    assert_eq!(snapshot(&store), expected);
}

#[test]
fn the_pieces_of_a_snapshot_are_the_snapshot() {
    for len in [0, 1, CHUNK_SIZE, CHUNK_SIZE + 1, 3 * CHUNK_SIZE - 5] {
        let blob: Vec<u8> = (0..len).map(|i| (i % 251) as u8).collect();
        let chunks = snapshot_chunks(&blob);
        assert_eq!(chunks.len(), len.div_ceil(CHUNK_SIZE));
        let mut joined = Vec::new();
        for (i, c) in chunks.iter().enumerate() {
            assert!(c.blob.len() <= CHUNK_SIZE && !c.blob.is_empty());
            assert!(c.blob.len() == CHUNK_SIZE || i + 1 == chunks.len());
            joined.extend_from_slice(&c.blob);
            assert_eq!(c.remaining_bytes as usize, len - joined.len());
        }
        assert_eq!(joined, blob);
    }
}

#[test]
fn what_is_not_there_is_refused() {
    assert_eq!(Auth.refusal(), "not implemented");
    assert_eq!(change_refusal(), "single-node cluster");
}

#[test]
fn test_alarm_get() {
    let mut store = new_store();
    put(&mut store, "k", b"v");
    let resp = alarm(&store);
    assert_eq!(resp.header.revision, 1, "alarm response should have header");
    assert!(resp.alarms.is_empty(), "no alarms should be active");
}

#[test]
fn test_defragment() {
    let resp = defragment();
    assert!(resp.header.is_none());
}
