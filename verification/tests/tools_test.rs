use rudurru::sorted_map::SortedMap;
use rudurru::storage::legacy::{read_old_records, scan_wal};
use rudurru::storage::log::serialize_batch;
use rudurru::storage::wal::{
    KvWalRecord, WalError, WalRecord, DELETED, HAS_LEASE, IS_CREATE,
};
use rudurru::storage::Store;
use rudurru::text::decimal;
use rudurru::tools::inspect::{any_begins, category, category_counts, inspect, namespace_name};
use rudurru::tools::memory::read_proc_mem;
use rudurru::tools::migrate::migrate;
use rudurru::tools::rebuild::{lost_keys, reconstruct_state, write_wal, LOSSY_COMPACTION};

fn old_rec(revision: u64, key: &str, value: &str, flags: u8, lease_id: Option<i64>) -> WalRecord {
    WalRecord { revision, key: key.into(), value: value.into(), flags, lease_id }
}

fn old_log(records: &[WalRecord]) -> Vec<u8> {
    records.iter().flat_map(|r| r.serialize()).collect()
}

#[test]
fn old_records_are_read_up_to_the_first_that_cannot_be() {
    let mut log = old_log(&[
        old_rec(1, "a", "1", IS_CREATE, None),
        old_rec(2, "b", "2", IS_CREATE | HAS_LEASE, Some(5)),
    ]);
    let (records, error) = read_old_records(&log);
    assert_eq!(records.len(), 2);
    assert_eq!(records[1].lease_id, Some(5));
    assert!(error.is_none());
    let good = log.len();
    log.extend_from_slice(b"junk that is no record at all");
    let (records, error) = read_old_records(&log);
    assert_eq!(records.len(), 2);
    assert_eq!(error, Some((good, WalError::BadMagic)));
}

#[test]
fn a_damaged_old_log_is_scanned() {
    let a = old_rec(1, "a", "1", IS_CREATE, None).serialize();
    let b = old_rec(2, "b", "2", IS_CREATE, None).serialize();
    let mut log = b"xx".to_vec();
    log.extend_from_slice(&a);
    let mut broken = b.clone();
    broken[24] ^= 1;
    log.extend_from_slice(&broken);
    log.extend_from_slice(&b);
    log.extend_from_slice(&a[..10]);
    for look_again in [true, false] {
        let scan = scan_wal(&log, look_again);
        assert_eq!(scan.records.len(), 2);
        assert_eq!(scan.records[1].key, b"b");
        assert_eq!(scan.crc_errors, if look_again { 1 } else { 0 });
        assert_eq!(scan.trailing, 10);
    }
}

#[test]
fn a_torn_old_record_ends_the_scan() {
    let a = old_rec(1, "key", "value", HAS_LEASE, Some(3)).serialize();
    let scan = scan_wal(&a[..30], true);
    assert!(scan.records.is_empty());
    assert_eq!(scan.trailing, 7);
    let scan = scan_wal(&a[..35], true);
    assert!(scan.records.is_empty());
    assert_eq!(scan.trailing, 4);
}

#[test]
fn a_migration_keeps_values_revisions_and_leases() {
    let records = vec![
        old_rec(1, "a", "1", IS_CREATE, None),
        old_rec(2, "b", "1", IS_CREATE | HAS_LEASE, Some(9)),
        old_rec(3, "a", "2", 0, None),
        old_rec(4, "c", "1", IS_CREATE, None),
        old_rec(5, "c", "", DELETED, None),
        old_rec(6, "never", "", DELETED, None),
    ];
    let migrated = migrate(&records);
    assert_eq!(migrated.len(), 6);
    let store = Store::open(&serialize_batch(&migrated), 0, 1, 0);
    let state = &store.state;
    assert_eq!(state.key_count, 2);
    let a = state.keys.get(b"a").unwrap();
    assert_eq!((&a.value[..], a.mod_revision, a.create_revision, a.version), (&b"2"[..], 3, 1, 2));
    let b = state.keys.get(b"b").unwrap();
    assert_eq!(b.lease, 9);
    assert!(state.leases.contains_key(&9));
    assert!(!state.keys.get(b"c").unwrap().is_alive());
    assert_eq!(state.next_rev, 7);
    assert_eq!(migrated[2].flags, IS_CREATE);
    assert_eq!(migrated[4].flags, DELETED);
}

#[test]
fn a_clean_log_reads_back() {
    let records = vec![
        old_rec(1, "b", "1", IS_CREATE, None),
        old_rec(2, "a", "1", IS_CREATE, None),
        old_rec(3, "b", "2", 0, None),
        old_rec(4, "c", "1", IS_CREATE, None),
        old_rec(5, "c", "", DELETED, None),
    ];
    let rebuilt = reconstruct_state(&records);
    assert_eq!(rebuilt.max_revision, 5);
    assert_eq!(rebuilt.keys.len(), 2);
    let b = rebuilt.keys.get(b"b").unwrap();
    assert_eq!((b.create_revision, b.mod_revision, b.version), (1, 3, 2));

    let (again, error) = read_old_records(&write_wal(&rebuilt.keys));
    assert!(error.is_none());
    assert_eq!(again.len(), 2);
    assert_eq!(again[0].key, b"a");
    assert_eq!(again[1].value, b"2");
    assert_eq!(again[1].revision, 3);
    assert_eq!(again[1].flags, IS_CREATE);
    let twice = reconstruct_state(&again);
    assert_eq!(twice.keys.get(b"b").unwrap().value, b"2");
    assert_eq!(twice.keys.get(b"b").unwrap().mod_revision, 3);
}

#[test]
fn keys_older_than_the_lossy_compaction_are_named() {
    let records = vec![
        old_rec(10, "old", "1", IS_CREATE, None),
        old_rec(20, "written", "1", IS_CREATE, None),
        old_rec(8000, "new", "1", IS_CREATE, None),
        old_rec(9000, "written", "2", 0, None),
    ];
    let rebuilt = reconstruct_state(&records);
    assert_eq!(LOSSY_COMPACTION, 8000);
    assert_eq!(lost_keys(&rebuilt.keys, LOSSY_COMPACTION), vec![b"old".to_vec()]);
}

#[test]
fn keys_have_their_categories() {
    let cases = [
        ("/bootstrap/x", "bootstrap"),
        ("/registry/namespaces/default", "namespace"),
        ("/registry/pods/a/b", "pod"),
        ("/registry/services/endpoints/a", "endpoint"),
        ("/registry/services/specs/a", "service"),
        ("/registry/minions/n1", "node"),
        ("/registry/nodes/n1", "node"),
        ("/registry/persistentvolumeclaims/x", "pvc"),
        ("/registry/persistentvolumes/x", "pv"),
        ("/registry/apiextensions.k8s.io/x", "crd"),
        ("/registry/ranges/x", "range"),
        ("/registry/unknown", "other_registry"),
        ("else", "other"),
        ("", "other"),
    ];
    for (key, name) in cases {
        assert_eq!(category(key.as_bytes()), name, "{key}");
    }
    let mut keys: SortedMap<u64> = SortedMap::new();
    for key in ["/registry/pods/a", "/registry/pods/b", "zzz"] {
        keys.insert(key.into(), 0);
    }
    let counts = category_counts(&keys);
    assert_eq!(counts.get(b"pod"), Some(&2));
    assert_eq!(counts.get(b"other"), Some(&1));
    assert_eq!(counts.len(), 2);
    assert!(any_begins(&keys, "/registry/pods/"));
    assert!(!any_begins(&keys, "/bootstrap/"));
}

#[test]
fn a_namespace_gives_its_name() {
    let json = br#"{"kind":"Namespace","metadata":{"name":"default","uid":"x"}}"#;
    assert_eq!(namespace_name(json), Some(b"default".to_vec()));
    assert_eq!(namespace_name(br#"{"name": "spaced"}"#), None);
    assert_eq!(namespace_name(br#""name":"open"#), Some(b"open".to_vec()));
    assert_eq!(namespace_name(b""), None);
}

#[test]
fn a_log_is_inspected() {
    let wal = serialize_batch(&vec![
        KvWalRecord::new(IS_CREATE, b"a", b"1", 1, 1, 1, 0),
        KvWalRecord::new(0, b"a", b"2", 1, 2, 2, 0),
        KvWalRecord::new(IS_CREATE, b"b", b"1", 3, 3, 1, 0),
        KvWalRecord::new(DELETED, b"b", b"1", 3, 4, 1, 0),
    ]);
    let found = inspect(&wal);
    assert_eq!(found.total, 4);
    assert_eq!(found.crc_errors, 0);
    assert_eq!(found.kv_errors, 0);
    assert_eq!(found.max_revision, 4);
    assert_eq!(found.keys.len(), 1);
    let a = found.keys.get(b"a").unwrap();
    assert_eq!((a.create_revision, a.mod_revision, a.version), (1, 2, 2));
}

#[test]
fn a_key_that_cannot_be_read_is_counted() {
    let mut rec = KvWalRecord::new(IS_CREATE, b"a", b"1", 1, 1, 1, 0);
    // The length of the key goes past the end of the message.
    rec.kv_bytes[1] = 0xFF;
    let mut bytes = rec.serialize();
    let end = bytes.len() - 4;
    let crc = rudurru::storage::wal::crc32c(&bytes[..end]);
    bytes[end..].copy_from_slice(&crc.to_le_bytes());
    let found = inspect(&bytes);
    assert_eq!(found.total, 1);
    assert_eq!(found.kv_errors, 1);
    assert_eq!(found.keys.len(), 0);
}

#[test]
fn the_memory_of_the_process_is_read() {
    let text = "Name:\trudurru\nVmPeak:\t  20480 kB\nVmSize:\t   10240 kB\nVmRSS:\t    512 kB\n";
    let mem = read_proc_mem(Some(text));
    assert_eq!((mem.rss, mem.vsize, mem.peak), (512, 10240, 20480));
    let mem = read_proc_mem(Some("VmRSS: many kB\nVmSize: 99999999999999999999 kB"));
    assert_eq!((mem.rss, mem.vsize, mem.peak), (0, 0, 0));
    let mem = read_proc_mem(Some("VmPeak:+7"));
    assert_eq!(mem.peak, 7);
    let mem = read_proc_mem(Some("VmPeak: 7 kB kB\r\nVmRSS:8\r\n VmSize: 9 kB\r\n"));
    assert_eq!((mem.rss, mem.vsize, mem.peak), (8, 0, 7));
    let mem = read_proc_mem(None);
    assert_eq!((mem.rss, mem.vsize, mem.peak), (0, 0, 0));
}

#[test]
fn any_white_space_round_a_number_is_trimmed() {
    let spaces: Vec<char> = ('\0'..=char::MAX).filter(|c| c.is_whitespace()).collect();
    assert_eq!(spaces.len(), 25);
    for c in spaces {
        if c == '\n' {
            continue;
        }
        let mem = read_proc_mem(Some(&format!("VmRSS:{c}12 kB{c}")));
        assert_eq!(mem.rss, 12);
    }
    // Not white space.
    for c in ['\u{200b}', '\u{180e}', '\u{feff}', '\u{1c}', 'x'] {
        assert_eq!(read_proc_mem(Some(&format!("VmRSS:{c}12 kB"))).rss, 0);
    }
    // Digits of other scripts are no number.
    assert_eq!(read_proc_mem(Some("VmRSS: \u{0661}\u{0662} kB")).rss, 0);
}

#[test]
fn numbers_are_written_in_decimal() {
    assert_eq!(decimal(0), "0");
    assert_eq!(decimal(907), "907");
    assert_eq!(decimal(u64::MAX), "18446744073709551615");
}

#[test]
fn a_sorted_map_keeps_its_keys_in_order() {
    let mut m: SortedMap<u64> = SortedMap::new();
    for (i, key) in ["b", "a", "c", "a"].iter().enumerate() {
        m.insert(key.as_bytes().to_vec(), i as u64);
    }
    assert_eq!(m.len(), 3);
    assert_eq!(m.key_at(0), b"a");
    assert_eq!(m.get(b"a"), Some(&3));
    assert_eq!(m.lower_bound(b"aa"), 1);
    m.remove(b"b");
    m.remove(b"x");
    assert!(!m.contains_key(b"b"));
    assert_eq!(m.key_at(1), b"c");
}
