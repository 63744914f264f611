//! Which keys a request is about.

use crate::bytes::{
    bytes_eq, bytes_lt, copy_bytes, lemma_lex_asymmetric, lemma_lex_common_prefix,
    lemma_lex_irreflexive, lemma_lex_prefix_block, lemma_lex_prefix_le, lemma_lex_total,
    lemma_lex_transitive, lex_le, lex_lt, starts_with,
};
use crate::sorted_map::SortedMap;
use vstd::prelude::*;
use vstd::slice::slice_subrange;

verus! {

/// What a range bound says.
#[verifier::ext_equal]
pub enum RangeBoundView {
    All,
    Point(Seq<u8>),
    From(Seq<u8>),
    Prefix(Seq<u8>),
    Range(Seq<u8>, Seq<u8>),
}

/// The keys that a request names: all of them, one, those from a key on, those with a prefix,
/// or those from a key on and before another.
#[derive(Debug)]
pub enum RangeBound {
    All,
    Point(Vec<u8>),
    From(Vec<u8>),
    Prefix(Vec<u8>),
    Range(Vec<u8>, Vec<u8>),
}

impl View for RangeBound {
    type V = RangeBoundView;

    open spec fn view(&self) -> RangeBoundView {
        match self {
            RangeBound::All => RangeBoundView::All,
            RangeBound::Point(k) => RangeBoundView::Point(k@),
            RangeBound::From(k) => RangeBoundView::From(k@),
            RangeBound::Prefix(p) => RangeBoundView::Prefix(p@),
            RangeBound::Range(s, e) => RangeBoundView::Range(s@, e@),
        }
    }
}

/// A range bound whose keys are held elsewhere.
pub enum RangeBoundRef<'a> {
    All,
    Point(&'a [u8]),
    From(&'a [u8]),
    Prefix(&'a [u8]),
    Range(&'a [u8], &'a [u8]),
}

impl<'a> View for RangeBoundRef<'a> {
    type V = RangeBoundView;

    open spec fn view(&self) -> RangeBoundView {
        match self {
            RangeBoundRef::All => RangeBoundView::All,
            RangeBoundRef::Point(k) => RangeBoundView::Point(k@),
            RangeBoundRef::From(k) => RangeBoundView::From(k@),
            RangeBoundRef::Prefix(p) => RangeBoundView::Prefix(p@),
            RangeBoundRef::Range(s, e) => RangeBoundView::Range(s@, e@),
        }
    }
}

impl RangeBound {
    /// The bound with its keys borrowed.
    pub fn to_ref(&self) -> (r: RangeBoundRef<'_>)
        ensures
            r@ == self@,
    {
        match self {
            RangeBound::All => RangeBoundRef::All,
            RangeBound::Point(k) => RangeBoundRef::Point(k.as_slice()),
            RangeBound::From(k) => RangeBoundRef::From(k.as_slice()),
            RangeBound::Prefix(p) => RangeBoundRef::Prefix(p.as_slice()),
            RangeBound::Range(s, e) => RangeBoundRef::Range(s.as_slice(), e.as_slice()),
        }
    }
}

impl Clone for RangeBound {
    fn clone(&self) -> (r: Self)
        ensures
            r@ == self@,
    {
        match self {
            RangeBound::All => RangeBound::All,
            RangeBound::Point(k) => RangeBound::Point(copy_bytes(k)),
            RangeBound::From(k) => RangeBound::From(copy_bytes(k)),
            RangeBound::Prefix(p) => RangeBound::Prefix(copy_bytes(p)),
            RangeBound::Range(s, e) => RangeBound::Range(copy_bytes(s), copy_bytes(e)),
        }
    }
}

/// The bytes with the last one incremented.
pub open spec fn successor(key: Seq<u8>) -> Seq<u8> {
    key.drop_last().push((key.last() + 1) as u8)
}

/// The keys that a key and a range end stand for. No range end: that key alone. A zero byte:
/// every key, or every key from that one on. The key with its last byte incremented, or with a
/// zero byte appended: the keys that begin with it. Otherwise those from the key up to the
/// range end.
pub open spec fn resolved_range(key: Seq<u8>, range_end: Seq<u8>) -> RangeBoundView {
    if range_end.len() == 0 {
        RangeBoundView::Point(key)
    } else if range_end == seq![0u8] {
        if key.len() == 0 {
            RangeBoundView::All
        } else {
            RangeBoundView::From(key)
        }
    } else if key.len() > 0 && key.last() != 0xFF && range_end == successor(key) {
        RangeBoundView::Prefix(key)
    } else if range_end == key.push(0) {
        RangeBoundView::Prefix(key)
    } else {
        RangeBoundView::Range(key, range_end)
    }
}

/// The keys that a request's key and range end stand for.
pub fn resolve_range(key: &[u8], range_end: &[u8]) -> (r: RangeBound)
    ensures
        r@ == resolved_range(key@, range_end@),
{
    let n: usize = key.len();
    let m: usize = range_end.len();
    if m == 0 {
        return RangeBound::Point(copy_bytes(key));
    }
    if m == 1 && range_end[0] == 0 {
        assert(range_end@ =~= seq![0u8]);
        return if n == 0 {
            RangeBound::All
        } else {
            RangeBound::From(copy_bytes(key))
        };
    }
    // The key with its last byte incremented. A last byte of 0xFF would wrap to zero, which is
    // not an increment.
    if m == n {
        let same = bytes_eq(slice_subrange(range_end, 0, m - 1), slice_subrange(key, 0, n - 1));
        let last: u8 = key[n - 1];
        proof {
            assert(key@.subrange(0, n - 1) =~= key@.drop_last());
            if same && last != 0xFF && range_end@[m - 1] == (last + 1) as u8 {
                assert(range_end@ =~= successor(key@));
            }
            if last != 0xFF && range_end@ == successor(key@) {
                assert(range_end@.subrange(0, m - 1) =~= key@.subrange(0, n - 1));
            }
        }
        if same && last != 0xFF && range_end[m - 1] == last + 1 {
            return RangeBound::Prefix(copy_bytes(key));
        }
    } else if m - 1 == n {
        let same = bytes_eq(slice_subrange(range_end, 0, n), key);
        proof {
            if same && range_end@[n as int] == 0 {
                assert(range_end@ =~= key@.push(0));
            }
            if range_end@ == key@.push(0) {
                assert(range_end@.subrange(0, n as int) =~= key@);
            }
        }
        if same && range_end[n] == 0 {
            return RangeBound::Prefix(copy_bytes(key));
        }
    }
    RangeBound::Range(copy_bytes(key), copy_bytes(range_end))
}

/// Whether a key is one of those that a bound names.
pub open spec fn covers(bound: RangeBoundView, key: Seq<u8>) -> bool {
    match bound {
        RangeBoundView::All => true,
        RangeBoundView::Point(k) => key == k,
        RangeBoundView::From(k) => lex_le(k, key),
        RangeBoundView::Prefix(p) => p.is_prefix_of(key),
        RangeBoundView::Range(s, e) => lex_le(s, key) && lex_lt(key, e),
    }
}

/// Whether a key is one of those that a bound names.
pub fn matches_range(bound: RangeBoundRef<'_>, key: &[u8]) -> (r: bool)
    ensures
        r == covers(bound@, key@),
{
    match bound {
        RangeBoundRef::All => true,
        RangeBoundRef::Point(k) => bytes_eq(key, k),
        RangeBoundRef::From(k) => {
            proof {
                lemma_not_lt(key@, k@);
            }
            !bytes_lt(key, k)
        },
        RangeBoundRef::Prefix(p) => starts_with(key, p),
        RangeBoundRef::Range(start, end) => {
            proof {
                lemma_not_lt(key@, start@);
            }
            !bytes_lt(key, start) && bytes_lt(key, end)
        },
    }
}

/// Not coming before is coming after or being the same.
pub proof fn lemma_not_lt(a: Seq<u8>, b: Seq<u8>)
    ensures
        !lex_lt(a, b) <==> lex_le(b, a),
{
    lemma_lex_total(a, b);
    lemma_lex_irreflexive(a);
    if lex_lt(a, b) && lex_lt(b, a) {
        lemma_lex_asymmetric(a, b);
    }
}

// ── Where a scan begins and ends ──────────────────────────────────

/// Where a scan for one key ends: at the key with its last byte incremented; where it has none
/// that can be, at the key with a zero byte behind it, which is the next there can be.
pub open spec fn point_end(key: Seq<u8>) -> Seq<u8> {
    if key.len() > 0 && key.last() != 0xFF {
        successor(key)
    } else {
        key.push(0)
    }
}

/// Where a scan for a bound begins; nothing if at the first key.
pub open spec fn scan_start(bound: RangeBoundView) -> Option<Seq<u8>> {
    match bound {
        RangeBoundView::All => None,
        RangeBoundView::Point(k) => Some(k),
        RangeBoundView::From(k) => Some(k),
        RangeBoundView::Prefix(p) => Some(p),
        RangeBoundView::Range(s, _) => Some(s),
    }
}

/// The key before which a scan for a bound ends; nothing if none is known beforehand.
pub open spec fn scan_end(bound: RangeBoundView) -> Option<Seq<u8>> {
    match bound {
        RangeBoundView::All => None,
        RangeBoundView::Point(k) => Some(point_end(k)),
        RangeBoundView::From(_) => None,
        RangeBoundView::Prefix(_) => None,
        RangeBoundView::Range(_, e) => Some(e),
    }
}

/// The scan does not end before it begins.
pub open spec fn scan_ordered(bound: RangeBoundView) -> bool {
    bound matches RangeBoundView::Range(s, e) ==> lex_le(s, e)
}

/// Whether a key lies between where a scan for a bound begins and where it ends.
pub open spec fn between(bound: RangeBoundView, key: Seq<u8>) -> bool {
    &&& (scan_start(bound) matches Some(s) ==> lex_le(s, key))
    &&& (scan_end(bound) matches Some(e) ==> lex_lt(key, e))
}

/// Whether a scan for a bound comes by a key. For one key it also comes by keys that begin with
/// it.
pub open spec fn scanned(bound: RangeBoundView, key: Seq<u8>) -> bool {
    between(bound, key) && (bound matches RangeBoundView::Prefix(p) ==> p.is_prefix_of(key))
}

/// Where a scan for a bound begins and ends.
pub fn btree_bounds(bound: RangeBoundRef<'_>) -> (r: (Option<Vec<u8>>, Option<Vec<u8>>))
    ensures
        match r.0 {
            Some(s) => scan_start(bound@) == Some(s@),
            None => scan_start(bound@) is None,
        },
        match r.1 {
            Some(e) => scan_end(bound@) == Some(e@),
            None => scan_end(bound@) is None,
        },
{
    match bound {
        RangeBoundRef::All => (None, None),
        RangeBoundRef::Point(k) => {
            let mut end = copy_bytes(k);
            let n: usize = end.len();
            if n > 0 && end[n - 1] != 0xFF {
                let last: u8 = end[n - 1];
                end.set(n - 1, last + 1);
                assert(end@ =~= successor(k@));
            } else {
                end.push(0);
            }
            (Some(copy_bytes(k)), Some(end))
        },
        RangeBoundRef::From(k) => (Some(copy_bytes(k)), None),
        RangeBoundRef::Prefix(p) => (Some(copy_bytes(p)), None),
        RangeBoundRef::Range(start, end) => (Some(copy_bytes(start)), Some(copy_bytes(end))),
    }
}

/// Whether a scan for a bound does not end before it begins. It does for a range whose end comes
/// before its start.
pub fn is_scan_ordered(bound: &RangeBound) -> (r: bool)
    ensures
        r == scan_ordered(bound@),
{
    match bound {
        RangeBound::Range(s, e) => {
            proof {
                lemma_not_lt(e@, s@);
            }
            !bytes_lt(e, s)
        },
        _ => true,
    }
}

/// The places of the keys that a scan for a bound comes by: those from the first number up to
/// the second.
pub fn scan_span<V: View>(keys: &SortedMap<V>, bound: &RangeBound) -> (r: (usize, usize))
    requires
        keys.wf(),
        scan_ordered(bound@),
    ensures
        r.0 <= r.1 <= keys.entries().len(),
        forall|j: int|
            0 <= j < keys.entries().len() ==> (r.0 <= j < r.1 <==> scanned(
                bound@,
                #[trigger] keys.entries()[j].0,
            )),
{
    let n: usize = keys.len();
    let ghost es = keys.entries();
    proof {
        keys.lemma_wf();
    }
    let (start, end) = btree_bounds(bound.to_ref());
    let lo: usize = match &start {
        Some(s) => keys.lower_bound(s),
        None => 0,
    };
    let hi: usize = match &end {
        Some(e) => keys.lower_bound(e),
        None => n,
    };
    proof {
        assert forall|j: int| 0 <= j < es.len() && start is Some implies ((#[trigger] lex_le(
            start->0@,
            es[j].0,
        )) <==> lo <= j) by {
            lemma_not_lt(es[j].0, start->0@);
            assert(j < lo ==> lex_lt(es[j].0, start->0@));
            assert(lo <= j ==> lex_le(start->0@, es[j].0));
        }
        assert forall|j: int| 0 <= j < es.len() && end is Some implies ((#[trigger] lex_lt(
            es[j].0,
            end->0@,
        )) <==> j < hi) by {
            lemma_not_lt(es[j].0, end->0@);
            assert(j < hi ==> lex_lt(es[j].0, end->0@));
            assert(hi <= j ==> lex_le(end->0@, es[j].0));
        }
    }
    if let RangeBound::Prefix(p) = bound {
        let mut i: usize = lo;
        while i < n && starts_with(keys.key_at(i), p)
            invariant
                keys.wf(),
                es == keys.entries(),
                n == es.len(),
                lo <= i <= n,
                forall|j: int| lo <= j < i ==> p@.is_prefix_of(#[trigger] es[j].0),
            decreases n - i,
        {
            i = i + 1;
        }
        proof {
            assert forall|j: int| 0 <= j < es.len() implies (lo <= j < i <==> scanned(
                bound@,
                #[trigger] es[j].0,
            )) by {
                if j >= i && i < n && p@.is_prefix_of(es[j].0) {
                    // Keys with the prefix stand together.
                    if j > i {
                        assert(lex_lt(es[i as int].0, es[j].0));
                        assert(lex_le(p@, es[i as int].0));
                        lemma_lex_prefix_block(p@, es[i as int].0, es[j].0);
                    }
                }
                if p@.is_prefix_of(es[j].0) {
                    lemma_lex_prefix_le(p@, es[j].0);
                }
            }
        }
        return (lo, i);
    }
    proof {
        if let RangeBoundView::Point(k) = bound@ {
            law_scan_misses_nothing(bound@, k);
        }
        if start is Some && end is Some && lo > hi {
            // A key at `hi` would come after the end and before the start.
            let k = es[hi as int].0;
            assert(lex_lt(k, start->0@));
            assert(lex_le(end->0@, k));
            if start->0@ != end->0@ {
                lemma_lex_transitive(k, start->0@, end->0@);
            }
            lemma_not_lt(k, end->0@);
        }
    }
    (lo, hi)
}

/// The places of the keys that a bound names: those from the first number up to the second.
pub fn cover_span<V: View>(keys: &SortedMap<V>, bound: &RangeBound) -> (r: (usize, usize))
    requires
        keys.wf(),
        scan_ordered(bound@),
    ensures
        r.0 <= r.1 <= keys.entries().len(),
        forall|j: int|
            0 <= j < keys.entries().len() ==> (r.0 <= j < r.1 <==> covers(
                bound@,
                #[trigger] keys.entries()[j].0,
            )),
{
    let ghost es = keys.entries();
    proof {
        keys.lemma_wf();
    }
    if let RangeBound::Point(k) = bound {
        let lo: usize = keys.lower_bound(k);
        let there = lo < keys.len() && bytes_eq(keys.key_at(lo), k);
        proof {
            assert forall|j: int| 0 <= j < es.len() && #[trigger] es[j].0 == k@ implies there && j
                == lo by {
                lemma_lex_irreflexive(k@);
                if j > lo {
                    assert(lex_lt(es[lo as int].0, es[j].0));
                    assert(lex_le(k@, es[lo as int].0));
                    lemma_not_lt(es[lo as int].0, k@);
                }
            }
        }
        return if there {
            (lo, lo + 1)
        } else {
            (lo, lo)
        };
    }
    let r = scan_span(keys, bound);
    proof {
        assert forall|j: int| 0 <= j < es.len() implies (r.0 <= j < r.1 <==> covers(
            bound@,
            #[trigger] es[j].0,
        )) by {
            law_scan_misses_nothing(bound@, es[j].0);
        }
    }
    r
}

// ── What the bounds promise ───────────────────────────────────────

/// A scan misses no key that the bound names, and comes by no others, unless the bound names one
/// key.
pub proof fn law_scan_misses_nothing(bound: RangeBoundView, key: Seq<u8>)
    ensures
        covers(bound, key) ==> scanned(bound, key),
        !(bound is Point) ==> scanned(bound, key) == covers(bound, key),
{
    match bound {
        RangeBoundView::Prefix(p) => {
            if p.is_prefix_of(key) {
                lemma_lex_prefix_le(p, key);
            }
        },
        RangeBoundView::Point(k) => {
            law_point_scan(k, key);
            assert(k.is_prefix_of(k)) by {
                assert(k =~= k.subrange(0, k.len() as int));
            }
        },
        _ => {},
    }
}

/// A scan for one key comes by the key itself; beside it, unless it is empty or ends in 0xFF, by
/// the keys that begin with it, and by no others.
pub proof fn law_point_scan(k: Seq<u8>, key: Seq<u8>)
    ensures
        scanned(RangeBoundView::Point(k), key) == if k.len() > 0 && k.last() != 0xFF {
            k.is_prefix_of(key)
        } else {
            key == k
        },
{
    if k.len() > 0 && k.last() != 0xFF {
        law_prefix_is_interval(k, key);
    } else {
        lemma_next_key(k, key);
    }
}

/// The keys that a key and a range end name: without a range end that key alone; with a zero
/// byte for it those from the key on; else those from the key on and before the range end, save
/// that the key with a zero byte behind it stands for the keys that begin with the key.
pub proof fn law_range_names_keys(key: Seq<u8>, range_end: Seq<u8>, k: Seq<u8>)
    ensures
        covers(resolved_range(key, range_end), k) == if range_end.len() == 0 {
            k == key
        } else if range_end == seq![0u8] {
            lex_le(key, k)
        } else if range_end == key.push(0) {
            key.is_prefix_of(k)
        } else {
            lex_le(key, k) && lex_lt(k, range_end)
        },
{
    if range_end.len() > 0 {
        if range_end == seq![0u8] {
            if key.len() == 0 && k.len() == 0 {
                assert(key =~= k);
            }
        } else if key.len() > 0 && key.last() != 0xFF && range_end == successor(key) {
            law_prefix_is_interval(key, k);
            assert(successor(key).len() == key.len());
            assert(key.push(0).len() == key.len() + 1);
        }
    }
}

/// A scan ends before it begins only where a range end is given that comes before the key, and does
/// not stand for all keys from the key on.
pub proof fn law_scan_is_ordered(key: Seq<u8>, range_end: Seq<u8>)
    ensures
        !scan_ordered(resolved_range(key, range_end)) <==> range_end.len() > 0 && range_end
            != seq![0u8] && lex_lt(range_end, key),
{
    lemma_not_lt(range_end, key);
    if range_end.len() > 0 && range_end != seq![0u8] {
        if key.len() > 0 && key.last() != 0xFF && range_end == successor(key) {
            let p = key.drop_last();
            assert(key =~= p + seq![key.last()]);
            assert(range_end =~= p + seq![(key.last() + 1) as u8]);
            lemma_lex_common_prefix(p, seq![key.last()], seq![(key.last() + 1) as u8]);
            assert(lex_lt(key, range_end));
        } else if range_end == key.push(0) {
            lemma_next_key(key, key);
            assert(lex_lt(key, range_end));
        }
    }
}

/// The next key there can be is the key with a zero byte behind it.
pub proof fn lemma_next_key(k: Seq<u8>, key: Seq<u8>)
    ensures
        lex_le(k, key) && lex_lt(key, k.push(0)) <==> key == k,
{
    let e = k.push(0);
    assert(e =~= k + seq![0u8]);
    assert(k =~= k + Seq::<u8>::empty());
    lemma_lex_common_prefix(k, Seq::empty(), seq![0u8]);
    if lex_lt(k, key) && lex_lt(key, e) {
        assert(k.is_prefix_of(e)) by {
            assert(k =~= e.subrange(0, k.len() as int));
        }
        lemma_lex_prefix_block(k, key, e);
        let rest = key.skip(k.len() as int);
        assert(key =~= k + rest) by {
            assert(k =~= key.subrange(0, k.len() as int));
        }
        lemma_lex_common_prefix(k, rest, seq![0u8]);
        assert(seq![0u8].skip(1) =~= Seq::empty());
        assert(!lex_lt(rest.skip(1), Seq::empty()));
        assert(rest.len() == 0);
        assert(key =~= k);
        lemma_lex_irreflexive(k);
    }
}

/// The keys that begin with a key are those from it on and before the key with its last byte
/// incremented.
pub proof fn law_prefix_is_interval(k: Seq<u8>, key: Seq<u8>)
    requires
        k.len() > 0,
        k.last() != 0xFF,
    ensures
        k.is_prefix_of(key) <==> lex_le(k, key) && lex_lt(key, successor(k)),
    decreases k.len(),
{
    let e = successor(k);
    if k.is_prefix_of(key) {
        lemma_lex_prefix_le(k, key);
        let p = k.drop_last();
        assert(e =~= p + seq![(k.last() + 1) as u8]);
        assert(key =~= p + key.skip(p.len() as int));
        assert(key.skip(p.len() as int)[0] == k.last());
        lemma_lex_common_prefix(p, key.skip(p.len() as int), seq![(k.last() + 1) as u8]);
        assert(lex_lt(key, e));
    } else if lex_le(k, key) && lex_lt(key, e) {
        assert(k != key) by {
            assert(k.subrange(0, k.len() as int) =~= k);
        }
        if k.len() == 1 {
            assert(key.len() > 0);
            if key[0] == k[0] {
                assert(k =~= key.subrange(0, 1));
                assert(false);
            } else {
                assert(e[0] == k[0] + 1);
                assert(lex_lt(k, key));
                assert(key[0] > k[0]);
                assert(e.skip(1).len() == 0);
                assert(!lex_lt(key.skip(1), e.skip(1)));
                assert(false);
            }
        } else {
            assert(key.len() > 0);
            assert(e[0] == k[0]);
            assert(key[0] == k[0]);
            assert(k.skip(1).drop_last() =~= k.drop_last().skip(1));
            assert(successor(k.skip(1)) =~= e.skip(1));
            assert(lex_le(k.skip(1), key.skip(1)));
            law_prefix_is_interval(k.skip(1), key.skip(1));
            assert(k =~= key.subrange(0, k.len() as int)) by {
                assert(k.skip(1) =~= key.skip(1).subrange(0, k.skip(1).len() as int));
                assert forall|i: int| 0 <= i < k.len() implies k[i] == key[i] by {
                    if i > 0 {
                        assert(k.skip(1)[i - 1] == key.skip(1).subrange(0, k.skip(1).len() as int)[i
                            - 1]);
                    }
                }
            }
            assert(false);
        }
    }
}

} // verus!
