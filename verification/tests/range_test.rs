use rudurru::storage::range::{
    btree_bounds, is_scan_ordered, matches_range, resolve_range, RangeBound, RangeBoundRef,
};

#[test]
fn test_resolve_range_prefix_0xff_does_not_wrap() {
    let key = b"abc\xFF";
    let range_end = b"abc\x00";
    let bound = resolve_range(key, range_end);
    assert!(
        !matches!(bound, RangeBound::Prefix(_)),
        "expected Range, got Prefix for key ending in 0xFF: {bound:?}"
    );
}

#[test]
fn test_resolve_range_prefix_normal() {
    let key = b"abc";
    let range_end = b"abd";
    let bound = resolve_range(key, range_end);
    assert!(matches!(bound, RangeBound::Prefix(_)), "expected Prefix, got {bound:?}");
}

#[test]
fn test_resolve_range_prefix_0xff_suffix() {
    let key = b"abc\xFF";
    let range_end = b"abc\xFF\x00";
    let bound = resolve_range(key, range_end);
    assert!(matches!(bound, RangeBound::Prefix(_)), "expected Prefix via \\0 suffix, got {bound:?}");
}

#[test]
fn every_kind_of_bound_has_its_keys() {
    assert!(matches!(resolve_range(b"k", b""), RangeBound::Point(k) if k == b"k"));
    assert!(matches!(resolve_range(b"", b"\0"), RangeBound::All));
    assert!(matches!(resolve_range(b"k", b"\0"), RangeBound::From(k) if k == b"k"));
    assert!(matches!(resolve_range(b"a", b"c"), RangeBound::Range(s, e) if s == b"a" && e == b"c"));
    assert!(matches!(resolve_range(b"", b"a"), RangeBound::Range(s, e) if s.is_empty() && e == b"a"));

    assert!(matches_range(RangeBoundRef::All, b""));
    assert!(matches_range(RangeBoundRef::Point(b"k"), b"k"));
    assert!(!matches_range(RangeBoundRef::Point(b"k"), b"k2"));
    assert!(matches_range(RangeBoundRef::From(b"k"), b"k"));
    assert!(matches_range(RangeBoundRef::From(b"k"), b"z"));
    assert!(!matches_range(RangeBoundRef::From(b"k"), b"a"));
    assert!(matches_range(RangeBoundRef::Prefix(b"/a/"), b"/a/x"));
    assert!(!matches_range(RangeBoundRef::Prefix(b"/a/"), b"/a"));
    assert!(matches_range(RangeBoundRef::Range(b"a", b"c"), b"bb"));
    assert!(matches_range(RangeBoundRef::Range(b"a", b"c"), b"a"));
    assert!(!matches_range(RangeBoundRef::Range(b"a", b"c"), b"c"));
}

#[test]
fn scans_begin_and_end_where_they_should() {
    assert_eq!(btree_bounds(RangeBoundRef::All), (None, None));
    assert_eq!(
        btree_bounds(RangeBoundRef::Point(b"ab")),
        (Some(b"ab".to_vec()), Some(b"ac".to_vec()))
    );
    assert_eq!(
        btree_bounds(RangeBoundRef::Point(b"a\xFF")),
        (Some(b"a\xFF".to_vec()), Some(b"a\xFF\0".to_vec()))
    );
    assert_eq!(btree_bounds(RangeBoundRef::Point(b"")), (Some(vec![]), Some(vec![0])));
    assert_eq!(btree_bounds(RangeBoundRef::From(b"k")), (Some(b"k".to_vec()), None));
    assert_eq!(btree_bounds(RangeBoundRef::Prefix(b"p")), (Some(b"p".to_vec()), None));
    assert_eq!(
        btree_bounds(RangeBoundRef::Range(b"a", b"c")),
        (Some(b"a".to_vec()), Some(b"c".to_vec()))
    );
}

#[test]
fn scans_that_end_before_they_begin_are_known() {
    assert!(is_scan_ordered(&resolve_range(b"a", b"c")));
    assert!(is_scan_ordered(&resolve_range(b"a", b"a")));
    assert!(!is_scan_ordered(&resolve_range(b"c", b"a")));
    assert!(is_scan_ordered(&resolve_range(b"k", b"")));
    assert!(is_scan_ordered(&resolve_range(b"k\xFF", b"")));
    assert!(is_scan_ordered(&resolve_range(b"", b"")));
    assert!(is_scan_ordered(&resolve_range(b"", b"\0")));
}

#[test]
fn a_prefix_is_the_interval_up_to_its_successor() {
    for key in [&b"abc"[..], b"abcd", b"abc\xFF", b"abd", b"ab", b"abb\xFF"] {
        assert_eq!(
            matches_range(RangeBoundRef::Prefix(b"abc"), key),
            matches_range(RangeBoundRef::Range(b"abc", b"abd"), key),
        );
    }
}
