//! The conditions of a transaction.

use crate::bytes::{
    bytes_eq, bytes_lt, lemma_lex_asymmetric, lemma_lex_irreflexive, lemma_lex_total, lex_lt,
};
use crate::storage::state::{KeyState, KeyStateView, StoreState, StoreView};
use vstd::prelude::*;

verus! {

/// How two values have to compare.
#[derive(Debug, Clone, Copy, PartialEq, Eq, Structural)]
pub enum CompareResult {
    Equal,
    Greater,
    Less,
    NotEqual,
}

/// What is compared of a key.
#[derive(Debug, Clone, Copy, PartialEq, Eq, Structural)]
pub enum CompareTarget {
    Version,
    Create,
    Mod,
    Value,
    Lease,
}

/// What a key is compared with.
#[verifier::ext_equal]
pub enum TargetUnionView {
    Version(i64),
    CreateRevision(i64),
    ModRevision(i64),
    Value(Seq<u8>),
    Lease(i64),
}

/// What a key is compared with.
#[derive(Debug)]
pub enum TargetUnion {
    Version(i64),
    CreateRevision(i64),
    ModRevision(i64),
    Value(Vec<u8>),
    Lease(i64),
}

impl View for TargetUnion {
    type V = TargetUnionView;

    open spec fn view(&self) -> TargetUnionView {
        match self {
            TargetUnion::Version(v) => TargetUnionView::Version(*v),
            TargetUnion::CreateRevision(v) => TargetUnionView::CreateRevision(*v),
            TargetUnion::ModRevision(v) => TargetUnionView::ModRevision(*v),
            TargetUnion::Value(v) => TargetUnionView::Value(v@),
            TargetUnion::Lease(v) => TargetUnionView::Lease(*v),
        }
    }
}

/// What a condition says.
#[verifier::ext_equal]
pub struct CompareView {
    pub key: Seq<u8>,
    pub range_end: Seq<u8>,
    pub result: i32,
    pub target: i32,
    pub target_union: Option<TargetUnionView>,
}

/// A condition on one key. The range end is not looked at.
#[derive(Debug)]
pub struct Compare {
    pub key: Vec<u8>,
    pub range_end: Vec<u8>,
    pub result: i32,
    pub target: i32,
    pub target_union: Option<TargetUnion>,
}

impl View for Compare {
    type V = CompareView;

    open spec fn view(&self) -> CompareView {
        CompareView {
            key: self.key@,
            range_end: self.range_end@,
            result: self.result,
            target: self.target,
            target_union: match self.target_union {
                Some(u) => Some(u@),
                None => None,
            },
        }
    }
}

/// The comparison that a number names; equality for a number that names none.
pub open spec fn result_named(v: i32) -> CompareResult {
    if v == 1 {
        CompareResult::Greater
    } else if v == 2 {
        CompareResult::Less
    } else if v == 3 {
        CompareResult::NotEqual
    } else {
        CompareResult::Equal
    }
}

/// The comparison that a number names; equality for a number that names none.
pub fn result_from_i32(v: i32) -> (r: CompareResult)
    ensures
        r == result_named(v),
{
    match v {
        0 => CompareResult::Equal,
        1 => CompareResult::Greater,
        2 => CompareResult::Less,
        3 => CompareResult::NotEqual,
        _ => CompareResult::Equal,
    }
}

/// What a number says is compared; the version for a number that says nothing.
pub open spec fn target_named(v: i32) -> CompareTarget {
    if v == 1 {
        CompareTarget::Create
    } else if v == 2 {
        CompareTarget::Mod
    } else if v == 3 {
        CompareTarget::Value
    } else if v == 4 {
        CompareTarget::Lease
    } else {
        CompareTarget::Version
    }
}

/// What a number says is compared; the version for a number that says nothing.
pub fn target_from_i32(v: i32) -> (r: CompareTarget)
    ensures
        r == target_named(v),
{
    match v {
        0 => CompareTarget::Version,
        1 => CompareTarget::Create,
        2 => CompareTarget::Mod,
        3 => CompareTarget::Value,
        4 => CompareTarget::Lease,
        _ => CompareTarget::Version,
    }
}

/// Whether two numbers compare as they have to.
pub open spec fn numbers_compare(result: CompareResult, actual: i64, expected: i64) -> bool {
    match result {
        CompareResult::Equal => actual == expected,
        CompareResult::Greater => actual > expected,
        CompareResult::Less => actual < expected,
        CompareResult::NotEqual => actual != expected,
    }
}

/// Whether two byte strings compare as they have to, in their lexicographic order.
pub open spec fn strings_compare(
    result: CompareResult,
    actual: Seq<u8>,
    expected: Seq<u8>,
) -> bool {
    match result {
        CompareResult::Equal => actual == expected,
        CompareResult::Greater => lex_lt(expected, actual),
        CompareResult::Less => lex_lt(actual, expected),
        CompareResult::NotEqual => actual != expected,
    }
}

/// Whether two numbers compare as they have to.
pub fn cmp_i64(result: CompareResult, actual: i64, expected: i64) -> (r: bool)
    ensures
        r == numbers_compare(result, actual, expected),
{
    match result {
        CompareResult::Equal => actual == expected,
        CompareResult::Greater => actual > expected,
        CompareResult::Less => actual < expected,
        CompareResult::NotEqual => actual != expected,
    }
}

/// Whether two byte strings compare as they have to.
pub fn cmp_bytes(result: CompareResult, actual: &[u8], expected: &[u8]) -> (r: bool)
    ensures
        r == strings_compare(result, actual@, expected@),
{
    match result {
        CompareResult::Equal => bytes_eq(actual, expected),
        CompareResult::Greater => bytes_lt(expected, actual),
        CompareResult::Less => bytes_lt(actual, expected),
        CompareResult::NotEqual => !bytes_eq(actual, expected),
    }
}

/// The number that is compared of a key that is alive; zero of one that is not.
pub open spec fn actual_number(ks: Option<KeyStateView>, target: CompareTarget) -> i64 {
    match ks {
        None => 0,
        Some(k) => match target {
            CompareTarget::Version => k.version,
            CompareTarget::Create => k.create_revision as i64,
            CompareTarget::Mod => k.mod_revision as i64,
            CompareTarget::Lease => k.lease,
            CompareTarget::Value => 0,
        },
    }
}

/// The number that it is compared with: the one given for what is compared, else zero.
pub open spec fn expected_number(u: Option<TargetUnionView>, target: CompareTarget) -> i64 {
    match (target, u) {
        (CompareTarget::Version, Some(TargetUnionView::Version(v))) => v,
        (CompareTarget::Create, Some(TargetUnionView::CreateRevision(v))) => v,
        (CompareTarget::Mod, Some(TargetUnionView::ModRevision(v))) => v,
        (CompareTarget::Lease, Some(TargetUnionView::Lease(v))) => v,
        _ => 0,
    }
}

/// Whether a condition holds of what is known of its key, if the key is alive.
pub open spec fn condition_holds(ks: Option<KeyStateView>, c: CompareView) -> bool {
    let result = result_named(c.result);
    let target = target_named(c.target);
    if target == CompareTarget::Value {
        strings_compare(
            result,
            match ks {
                Some(k) => k.value,
                None => Seq::empty(),
            },
            match c.target_union {
                Some(TargetUnionView::Value(v)) => v,
                _ => Seq::empty(),
            },
        )
    } else {
        numbers_compare(
            result,
            actual_number(ks, target),
            expected_number(c.target_union, target),
        )
    }
}

/// Whether a condition holds in a store. A deleted key counts as one that is not there.
pub open spec fn compare_holds(s: StoreView, c: CompareView) -> bool {
    condition_holds(s.living(c.key), c)
}

/// Whether all conditions hold in a store.
pub open spec fn all_hold(s: StoreView, cs: Seq<CompareView>) -> bool {
    forall|i: int| 0 <= i < cs.len() ==> compare_holds(s, #[trigger] cs[i])
}

/// The views of conditions.
pub open spec fn compare_views(cs: Seq<Compare>) -> Seq<CompareView> {
    cs.map_values(|c: Compare| c@)
}

fn actual_of(ks: Option<&KeyState>, target: CompareTarget) -> (r: i64)
    ensures
        r == actual_number(
            match ks {
                Some(k) => Some(k@),
                None => None,
            },
            target,
        ),
{
    match ks {
        None => 0,
        Some(k) => match target {
            CompareTarget::Version => k.version,
            CompareTarget::Create => k.create_revision as i64,
            CompareTarget::Mod => k.mod_revision as i64,
            CompareTarget::Lease => k.lease,
            CompareTarget::Value => 0,
        },
    }
}

fn expected_of(u: &Option<TargetUnion>, target: CompareTarget) -> (r: i64)
    ensures
        r == expected_number(
            match u {
                Some(t) => Some(t@),
                None => None,
            },
            target,
        ),
{
    match (target, u) {
        (CompareTarget::Version, Some(TargetUnion::Version(v))) => *v,
        (CompareTarget::Create, Some(TargetUnion::CreateRevision(v))) => *v,
        (CompareTarget::Mod, Some(TargetUnion::ModRevision(v))) => *v,
        (CompareTarget::Lease, Some(TargetUnion::Lease(v))) => *v,
        _ => 0,
    }
}

/// Whether a condition holds.
pub fn eval_compare(state: &StoreState, compare: &Compare) -> (r: bool)
    requires
        state.wf(),
    ensures
        r == compare_holds(state@, compare@),
{
    let alive = state.living(&compare.key);
    let result = result_from_i32(compare.result);
    let target = target_from_i32(compare.target);
    if target == CompareTarget::Value {
        let none: Vec<u8> = Vec::new();
        assert(none@ =~= Seq::empty());
        let actual: &[u8] = match alive {
            Some(ks) => ks.value.as_slice(),
            None => none.as_slice(),
        };
        let expected: &[u8] = match &compare.target_union {
            Some(TargetUnion::Value(v)) => v.as_slice(),
            _ => none.as_slice(),
        };
        cmp_bytes(result, actual, expected)
    } else {
        let actual: i64 = actual_of(alive, target);
        let expected: i64 = expected_of(&compare.target_union, target);
        cmp_i64(result, actual, expected)
    }
}

/// Whether all conditions hold.
pub fn eval_compares(state: &StoreState, compares: &Vec<Compare>) -> (r: bool)
    requires
        state.wf(),
    ensures
        r == all_hold(state@, compare_views(compares@)),
{
    let mut i: usize = 0;
    while i < compares.len()
        invariant
            i <= compares@.len(),
            state.wf(),
            forall|j: int|
                0 <= j < i ==> compare_holds(state@, #[trigger] compare_views(compares@)[j]),
        decreases compares@.len() - i,
    {
        if !eval_compare(state, &compares[i]) {
            assert(!compare_holds(state@, compare_views(compares@)[i as int]));
            return false;
        }
        assert(compare_views(compares@)[i as int] == compares@[i as int]@);
        i = i + 1;
    }
    true
}

// ── What conditions promise ───────────────────────────────────────

/// A deleted key compares as one that was never there.
pub proof fn law_deleted_compares_as_missing(s: StoreView, t: StoreView, c: CompareView)
    requires
        s.keys.contains_key(c.key),
        !s.keys[c.key].alive(),
        !t.keys.contains_key(c.key),
    ensures
        compare_holds(s, c) == compare_holds(t, c),
{
}

/// The condition with another comparison.
pub open spec fn with_result(c: CompareView, result: i32) -> CompareView {
    CompareView { result, ..c }
}

/// Of equal, greater and less exactly one holds; not equal holds where equal does not.
pub proof fn law_comparisons_are_total(s: StoreView, c: CompareView)
    ensures
        ({
            let equal = compare_holds(s, with_result(c, 0));
            let greater = compare_holds(s, with_result(c, 1));
            let less = compare_holds(s, with_result(c, 2));
            let not_equal = compare_holds(s, with_result(c, 3));
            &&& not_equal == !equal
            &&& equal || greater || less
            &&& !(equal && greater)
            &&& !(equal && less)
            &&& !(greater && less)
        }),
{
    let actual = match s.living(c.key) {
        Some(k) => k.value,
        None => Seq::empty(),
    };
    let expected = match c.target_union {
        Some(TargetUnionView::Value(v)) => v,
        _ => Seq::empty(),
    };
    lemma_lex_total(actual, expected);
    lemma_lex_irreflexive(actual);
    if lex_lt(actual, expected) {
        lemma_lex_asymmetric(actual, expected);
    }
    if lex_lt(expected, actual) {
        lemma_lex_asymmetric(expected, actual);
    }
}

/// A condition on the version, the creation revision, the revision or the lease of a key is about
/// that field of the key as it is, and about zero where the key is not there: equal, greater, less
/// or not equal to the number given for it.
pub proof fn law_condition_on_a_number(s: StoreView, c: CompareView, v: i64)
    requires
        c.target == 0 || c.target == 1 || c.target == 2 || c.target == 4,
        c.target == 0 ==> c.target_union == Some(TargetUnionView::Version(v)),
        c.target == 1 ==> c.target_union == Some(TargetUnionView::CreateRevision(v)),
        c.target == 2 ==> c.target_union == Some(TargetUnionView::ModRevision(v)),
        c.target == 4 ==> c.target_union == Some(TargetUnionView::Lease(v)),
    ensures
        ({
            let there = s.keys.contains_key(c.key) && s.keys[c.key].delete_revision == 0;
            let ks = s.keys[c.key];
            let holds = compare_holds(s, c);
            &&& there && c.target == 0 ==> {
                &&& c.result == 0 ==> holds == (ks.version == v)
                &&& c.result == 1 ==> holds == (ks.version > v)
                &&& c.result == 2 ==> holds == (ks.version < v)
                &&& c.result == 3 ==> holds == (ks.version != v)
            }
            &&& there && c.target == 1 ==> {
                &&& c.result == 0 ==> holds == (ks.create_revision as i64 == v)
                &&& c.result == 1 ==> holds == (ks.create_revision as i64 > v)
                &&& c.result == 2 ==> holds == ((ks.create_revision as i64) < v)
                &&& c.result == 3 ==> holds == (ks.create_revision as i64 != v)
            }
            &&& there && c.target == 2 ==> {
                &&& c.result == 0 ==> holds == (ks.mod_revision as i64 == v)
                &&& c.result == 1 ==> holds == (ks.mod_revision as i64 > v)
                &&& c.result == 2 ==> holds == ((ks.mod_revision as i64) < v)
                &&& c.result == 3 ==> holds == (ks.mod_revision as i64 != v)
            }
            &&& there && c.target == 4 ==> {
                &&& c.result == 0 ==> holds == (ks.lease == v)
                &&& c.result == 1 ==> holds == (ks.lease > v)
                &&& c.result == 2 ==> holds == (ks.lease < v)
                &&& c.result == 3 ==> holds == (ks.lease != v)
            }
            &&& !there ==> {
                &&& c.result == 0 ==> holds == (v == 0)
                &&& c.result == 1 ==> holds == (v < 0)
                &&& c.result == 2 ==> holds == (v > 0)
                &&& c.result == 3 ==> holds == (v != 0)
            }
        }),
{
}

/// A condition on the value of a key is about the bytes that the key holds, and about none where
/// the key is not there: the same bytes as those given, or bytes that come behind or before them.
pub proof fn law_condition_on_the_value(s: StoreView, c: CompareView, v: Seq<u8>)
    requires
        c.target == 3,
        c.target_union == Some(TargetUnionView::Value(v)),
    ensures
        ({
            let there = s.keys.contains_key(c.key) && s.keys[c.key].delete_revision == 0;
            let value = s.keys[c.key].value;
            let holds = compare_holds(s, c);
            &&& there ==> {
                &&& c.result == 0 ==> holds == (value == v)
                &&& c.result == 1 ==> holds == lex_lt(v, value)
                &&& c.result == 2 ==> holds == lex_lt(value, v)
                &&& c.result == 3 ==> holds == (value != v)
            }
            &&& !there ==> {
                &&& c.result == 0 ==> holds == (v.len() == 0)
                &&& c.result == 1 ==> !holds
                &&& c.result == 2 ==> holds == (v.len() > 0)
                &&& c.result == 3 ==> holds == (v.len() > 0)
            }
        }),
{
    if v.len() == 0 {
        assert(v =~= Seq::empty());
    }
}

/// A number that names no comparison stands for equality, and one that names no field for the
/// version. Where nothing is given for the field, or something for another, it is compared with
/// zero, and a value with no bytes.
pub proof fn law_condition_without_names(s: StoreView, c: CompareView)
    ensures
        !(0 <= c.result <= 3) ==> compare_holds(s, c) == compare_holds(s, with_result(c, 0)),
        !(0 <= c.target <= 4) ==> compare_holds(s, c) == compare_holds(
            s,
            (CompareView { target: 0, ..c }),
        ),
        c.target == 0 && !(c.target_union matches Some(TargetUnionView::Version(_)))
            ==> compare_holds(s, c) == compare_holds(
            s,
            (CompareView { target_union: Some(TargetUnionView::Version(0)), ..c }),
        ),
        c.target == 1 && !(c.target_union matches Some(TargetUnionView::CreateRevision(_)))
            ==> compare_holds(s, c) == compare_holds(
            s,
            (CompareView { target_union: Some(TargetUnionView::CreateRevision(0)), ..c }),
        ),
        c.target == 2 && !(c.target_union matches Some(TargetUnionView::ModRevision(_)))
            ==> compare_holds(s, c) == compare_holds(
            s,
            (CompareView { target_union: Some(TargetUnionView::ModRevision(0)), ..c }),
        ),
        c.target == 3 && !(c.target_union matches Some(TargetUnionView::Value(_)))
            ==> compare_holds(s, c) == compare_holds(
            s,
            (CompareView { target_union: Some(TargetUnionView::Value(Seq::empty())), ..c }),
        ),
        c.target == 4 && !(c.target_union matches Some(TargetUnionView::Lease(_)))
            ==> compare_holds(s, c) == compare_holds(
            s,
            (CompareView { target_union: Some(TargetUnionView::Lease(0)), ..c }),
        ),
{
}

/// A key that is not alive has version zero and no other: the condition by which a client
/// creates a key only if it is not there.
pub proof fn law_version_zero_means_absent(s: StoreView, c: CompareView)
    requires
        c.result == 0,
        c.target == 0,
        c.target_union == Some(TargetUnionView::Version(0)),
        s.living(c.key) is Some ==> s.living(c.key)->0.version > 0,
    ensures
        compare_holds(s, c) == (s.living(c.key) is None),
{
}

} // verus!
