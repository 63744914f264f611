use rudurru::storage::compare::{
    cmp_bytes, cmp_i64, eval_compares, result_from_i32, target_from_i32, Compare, CompareResult,
    CompareTarget, TargetUnion,
};
use rudurru::storage::wal::{KvWalRecord, DELETED, HAS_LEASE, IS_CREATE};
use rudurru::storage::{apply_record, eval_compare, StoreState};

fn make_compare(key: &[u8], target: i32, result_val: i32, target_val: i64) -> Compare {
    let target_union = match target {
        0 => Some(TargetUnion::Version(target_val)),
        1 => Some(TargetUnion::CreateRevision(target_val)),
        2 => Some(TargetUnion::ModRevision(target_val)),
        3 => Some(TargetUnion::Value(vec![])),
        4 => Some(TargetUnion::Lease(target_val)),
        _ => None,
    };
    Compare { key: key.to_vec(), range_end: vec![], result: result_val, target, target_union }
}

fn fresh_state(records: Vec<KvWalRecord>) -> StoreState {
    let mut state = StoreState::new();
    let mut max_rev = 0u64;
    for rec in &records {
        let rev = rec.mod_revision().unwrap_or(0) as u64;
        apply_record(&mut state, rec);
        max_rev = max_rev.max(rev);
    }
    state.next_rev = max_rev + 1;
    state
}

fn make_put_record(key: &[u8], value: &[u8], rev: u64, lease: i64) -> KvWalRecord {
    let flags = IS_CREATE | if lease != 0 { HAS_LEASE } else { 0 };
    KvWalRecord::new(flags, key, value, rev as i64, rev as i64, 1, lease)
}

fn make_delete_record(key: &[u8], rev: u64) -> KvWalRecord {
    KvWalRecord::new(DELETED, key, b"", rev as i64, rev as i64, 1, 0)
}

#[test]
fn test_eval_compare_alive_key_matches() {
    let state = fresh_state(vec![
        make_put_record(b"/registry/test/key", b"value1", 1, 0),
    ]);

    let cmp = make_compare(b"/registry/test/key", 2, 0, 1);
    assert!(eval_compare(&state, &cmp), "alive key should match its mod_revision");

    let cmp = make_compare(b"/registry/test/key", 0, 0, 1);
    assert!(eval_compare(&state, &cmp), "alive key should match its version");

    let cmp = make_compare(b"/registry/test/key", 0, 3, 2);
    assert!(eval_compare(&state, &cmp), "alive key version != 2 should match");
}

#[test]
fn test_eval_compare_tombstone_does_not_match() {
    let state = fresh_state(vec![
        make_put_record(b"/registry/test/key", b"value1", 1, 0),
        make_delete_record(b"/registry/test/key", 2),
    ]);

    let cmp = make_compare(b"/registry/test/key", 2, 0, 1);
    assert!(!eval_compare(&state, &cmp), "tombstoned key should NOT match its old mod_revision");
}

#[test]
fn test_eval_compare_tombstone_all_targets() {
    let state = fresh_state(vec![
        make_put_record(b"/registry/test/key", b"value1", 1, 42),
        make_delete_record(b"/registry/test/key", 2),
    ]);

    let cmp = make_compare(b"/registry/test/key", 0, 0, 1);
    assert!(!eval_compare(&state, &cmp), "tombstone: version compare should be false");

    let cmp = make_compare(b"/registry/test/key", 1, 0, 1);
    assert!(!eval_compare(&state, &cmp), "tombstone: create_rev compare should be false");

    let cmp = make_compare(b"/registry/test/key", 2, 0, 1);
    assert!(!eval_compare(&state, &cmp), "tombstone: mod_rev compare should be false");

    let mut cmp = make_compare(b"/registry/test/key", 3, 0, 0);
    cmp.target_union = Some(TargetUnion::Value(b"value1".to_vec()));
    assert!(!eval_compare(&state, &cmp), "tombstone: value compare should be false");

    let cmp = make_compare(b"/registry/test/key", 4, 0, 42);
    assert!(!eval_compare(&state, &cmp), "tombstone: lease compare should be false");
}

#[test]
fn test_eval_compare_missing_key_does_not_match() {
    let state = fresh_state(vec![]);

    // A key that never existed behaves the same as a tombstone.
    let cmp = make_compare(b"/registry/nonexistent", 2, 0, 1);
    assert!(!eval_compare(&state, &cmp), "missing key should not match mod_revision == 1");
}

#[test]
fn test_eval_compare_recreated_key_matches() {
    let state = fresh_state(vec![
        make_put_record(b"/registry/test/key", b"v1", 1, 0),
        make_delete_record(b"/registry/test/key", 2),
        make_put_record(b"/registry/test/key", b"v2", 3, 0),
    ]);

    let cmp = make_compare(b"/registry/test/key", 2, 0, 3);
    assert!(eval_compare(&state, &cmp), "recreated key should match its new mod_revision");

    let cmp = make_compare(b"/registry/test/key", 2, 0, 1);
    assert!(!eval_compare(&state, &cmp), "recreated key should NOT match old mod_revision");
}

#[test]
fn numbers_name_results_and_targets() {
    assert_eq!(result_from_i32(0), CompareResult::Equal);
    assert_eq!(result_from_i32(1), CompareResult::Greater);
    assert_eq!(result_from_i32(2), CompareResult::Less);
    assert_eq!(result_from_i32(3), CompareResult::NotEqual);
    assert_eq!(result_from_i32(17), CompareResult::Equal);
    assert_eq!(target_from_i32(0), CompareTarget::Version);
    assert_eq!(target_from_i32(1), CompareTarget::Create);
    assert_eq!(target_from_i32(2), CompareTarget::Mod);
    assert_eq!(target_from_i32(3), CompareTarget::Value);
    assert_eq!(target_from_i32(4), CompareTarget::Lease);
    assert_eq!(target_from_i32(-1), CompareTarget::Version);
}

#[test]
fn of_equal_greater_and_less_one_holds() {
    for (a, b) in [(1, 1), (1, 2), (2, 1), (i64::MIN, i64::MAX)] {
        let held = [CompareResult::Equal, CompareResult::Greater, CompareResult::Less]
            .into_iter()
            .filter(|r| cmp_i64(*r, a, b))
            .count();
        assert_eq!(held, 1);
        assert_eq!(
            cmp_i64(CompareResult::NotEqual, a, b),
            !cmp_i64(CompareResult::Equal, a, b)
        );
    }
    for (a, b) in [(&b"a"[..], &b"a"[..]), (b"a", b"ab"), (b"b", b"ab"), (b"", b"\0")] {
        let held = [CompareResult::Equal, CompareResult::Greater, CompareResult::Less]
            .into_iter()
            .filter(|r| cmp_bytes(*r, a, b))
            .count();
        assert_eq!(held, 1);
    }
    assert!(cmp_bytes(CompareResult::Greater, b"b", b"ab"));
    assert!(cmp_bytes(CompareResult::Less, b"a", b"ab"));
}

#[test]
fn version_zero_means_that_a_key_is_absent() {
    let state = fresh_state(vec![
        make_put_record(b"alive", b"v", 1, 0),
        make_put_record(b"gone", b"v", 2, 0),
        make_delete_record(b"gone", 3),
    ]);
    assert!(!eval_compare(&state, &make_compare(b"alive", 0, 0, 0)));
    assert!(eval_compare(&state, &make_compare(b"gone", 0, 0, 0)));
    assert!(eval_compare(&state, &make_compare(b"never", 0, 0, 0)));
}

#[test]
fn all_conditions_have_to_hold() {
    let state = fresh_state(vec![make_put_record(b"k", b"v", 1, 7)]);
    let lease = make_compare(b"k", 4, 0, 7);
    let missing = make_compare(b"x", 0, 0, 0);
    assert!(eval_compares(&state, &vec![]));
    assert!(eval_compares(&state, &vec![lease, missing]));
    let created = make_compare(b"k", 1, 0, 1);
    let wrong = make_compare(b"k", 1, 1, 1);
    assert!(!eval_compares(&state, &vec![created, wrong]));
}

#[test]
fn a_target_of_another_kind_counts_as_zero() {
    let state = fresh_state(vec![make_put_record(b"k", b"v", 1, 0)]);
    let mut cmp = make_compare(b"k", 0, 1, 0);
    cmp.target_union = Some(TargetUnion::Lease(99));
    assert!(eval_compare(&state, &cmp));
    cmp.target_union = None;
    assert!(eval_compare(&state, &cmp));
}
