//! A map from byte strings that keeps its keys in lexicographic order.

use crate::bytes::{
    bytes_eq, bytes_lt, lemma_lex_asymmetric, lemma_lex_irreflexive, lemma_lex_total,
    lemma_lex_transitive, lex_le, lex_lt,
};
use vstd::prelude::*;

verus! {

/// The entries stand in strictly increasing order of their keys.
pub open spec fn sorted<T>(es: Seq<(Seq<u8>, T)>) -> bool {
    forall|i: int, j: int|
        #![trigger es[i], es[j]]
        0 <= i < j < es.len() ==> lex_lt(es[i].0, es[j].0)
}

/// The map that a sequence of entries describes.
pub open spec fn map_of<T>(es: Seq<(Seq<u8>, T)>) -> Map<Seq<u8>, T>
    decreases es.len(),
{
    if es.len() == 0 {
        Map::empty()
    } else {
        map_of(es.drop_last()).insert(es.last().0, es.last().1)
    }
}

/// The entries of a finite map in increasing order of their keys.
pub open spec fn listing<T>(m: Map<Seq<u8>, T>) -> Seq<(Seq<u8>, T)> {
    choose|es: Seq<(Seq<u8>, T)>| sorted(es) && map_of(es) == m
}

/// The values of a finite map in increasing order of their keys.
pub open spec fn listed_values<T>(m: Map<Seq<u8>, T>) -> Seq<T> {
    listing(m).map_values(|e: (Seq<u8>, T)| e.1)
}

/// The keys of a finite map in increasing order.
pub open spec fn listed_keys<T>(m: Map<Seq<u8>, T>) -> Seq<Seq<u8>> {
    listing(m).map_values(|e: (Seq<u8>, T)| e.0)
}

/// What `map_of` holds: the keys of the entries, finitely many.
pub proof fn lemma_map_of_contains<T>(es: Seq<(Seq<u8>, T)>, k: Seq<u8>)
    ensures
        map_of(es).dom().finite(),
        map_of(es).contains_key(k) <==> exists|i: int| 0 <= i < es.len() && #[trigger] es[i].0 == k,
    decreases es.len(),
{
    if es.len() > 0 {
        lemma_map_of_contains(es.drop_last(), k);
        if map_of(es).contains_key(k) {
            if k == es.last().0 {
                assert(es[es.len() - 1].0 == k);
            } else {
                let i = choose|i: int|
                    0 <= i < es.drop_last().len() && #[trigger] es.drop_last()[i].0 == k;
                assert(es[i].0 == k);
            }
        }
        if exists|i: int| 0 <= i < es.len() && #[trigger] es[i].0 == k {
            let i = choose|i: int| 0 <= i < es.len() && #[trigger] es[i].0 == k;
            if i < es.len() - 1 {
                assert(es.drop_last()[i].0 == k);
            }
        }
    }
}

/// In a sorted sequence each entry is what the map holds under its key.
pub proof fn lemma_map_of_index<T>(es: Seq<(Seq<u8>, T)>, i: int)
    requires
        sorted(es),
        0 <= i < es.len(),
    ensures
        map_of(es).contains_key(es[i].0),
        map_of(es)[es[i].0] == es[i].1,
    decreases es.len(),
{
    if i < es.len() - 1 {
        assert(sorted(es.drop_last()));
        lemma_map_of_index(es.drop_last(), i);
        assert(es[i] == es.drop_last()[i]);
        lemma_lex_irreflexive(es[i].0);
        assert(lex_lt(es[i].0, es[es.len() - 1].0));
    }
}

/// A key of the map is the key of one entry, whose value the map holds.
pub proof fn lemma_map_of_find<T>(es: Seq<(Seq<u8>, T)>, k: Seq<u8>) -> (i: int)
    requires
        sorted(es),
        map_of(es).contains_key(k),
    ensures
        0 <= i < es.len(),
        es[i].0 == k,
        map_of(es)[k] == es[i].1,
{
    lemma_map_of_contains(es, k);
    let i = choose|i: int| 0 <= i < es.len() && #[trigger] es[i].0 == k;
    lemma_map_of_index(es, i);
    i
}

/// A sorted sequence has as many entries as its map.
pub proof fn lemma_map_of_len<T>(es: Seq<(Seq<u8>, T)>)
    requires
        sorted(es),
    ensures
        map_of(es).dom().finite(),
        map_of(es).len() == es.len(),
    decreases es.len(),
{
    if es.len() > 0 {
        assert(sorted(es.drop_last()));
        lemma_map_of_len(es.drop_last());
        let k = es.last().0;
        lemma_map_of_contains(es.drop_last(), k);
        if map_of(es.drop_last()).contains_key(k) {
            let i = choose|i: int|
                0 <= i < es.drop_last().len() && #[trigger] es.drop_last()[i].0 == k;
            assert(es[i].0 == k);
            lemma_lex_irreflexive(k);
            assert(lex_lt(es[i].0, es[es.len() - 1].0));
        }
    }
}

/// Two sorted sequences that describe the same map are the same.
pub proof fn lemma_sorted_unique<T>(a: Seq<(Seq<u8>, T)>, b: Seq<(Seq<u8>, T)>)
    requires
        sorted(a),
        sorted(b),
        map_of(a) == map_of(b),
    ensures
        a == b,
    decreases a.len(),
{
    lemma_map_of_len(a);
    lemma_map_of_len(b);
    if a.len() == 0 {
        assert(a =~= b);
    } else {
        let n = a.len() - 1;
        lemma_map_of_index(a, n);
        lemma_map_of_index(b, n);
        let i = lemma_map_of_find(b, a[n].0);
        let j = lemma_map_of_find(a, b[n].0);
        if i != n {
            assert(lex_lt(b[i].0, b[n].0));
            if j != n {
                assert(lex_lt(a[j].0, a[n].0));
                lemma_lex_asymmetric(a[n].0, b[n].0);
            } else {
                lemma_lex_irreflexive(b[n].0);
            }
        }
        assert(a.last() == b.last());
        let a1 = a.drop_last();
        let b1 = b.drop_last();
        assert(sorted(a1));
        assert(sorted(b1));
        let k = a.last().0;
        lemma_map_of_contains(a1, k);
        lemma_map_of_contains(b1, k);
        assert(!map_of(a1).contains_key(k)) by {
            if map_of(a1).contains_key(k) {
                let x = choose|x: int| 0 <= x < a1.len() && #[trigger] a1[x].0 == k;
                assert(lex_lt(a[x].0, a[n].0));
                lemma_lex_irreflexive(k);
            }
        }
        assert(!map_of(b1).contains_key(k)) by {
            if map_of(b1).contains_key(k) {
                let x = choose|x: int| 0 <= x < b1.len() && #[trigger] b1[x].0 == k;
                assert(lex_lt(b[x].0, b[n].0));
                lemma_lex_irreflexive(k);
            }
        }
        assert(map_of(a1) =~= map_of(a).remove(k));
        assert(map_of(b1) =~= map_of(b).remove(k));
        lemma_sorted_unique(a1, b1);
        assert(a =~= a1.push(a.last()));
        assert(b =~= b1.push(b.last()));
    }
}

/// A sorted sequence is the listing of its map.
pub proof fn lemma_listing<T>(es: Seq<(Seq<u8>, T)>)
    requires
        sorted(es),
    ensures
        listing(map_of(es)) == es,
{
    let ls = listing(map_of(es));
    assert(sorted(ls) && map_of(ls) == map_of(es));
    lemma_sorted_unique(ls, es);
}

/// Every finite map has a listing.
pub proof fn lemma_listing_exists<T>(m: Map<Seq<u8>, T>)
    requires
        m.dom().finite(),
    ensures
        sorted(listing(m)),
        map_of(listing(m)) == m,
        listing(m).len() == m.len(),
    decreases m.len(),
{
    if m.len() == 0 {
        let es = Seq::<(Seq<u8>, T)>::empty();
        assert(m =~= Map::empty());
        assert(sorted(es) && map_of(es) == m);
    } else {
        let k = lemma_greatest_key(m.dom());
        let rest = m.remove(k);
        lemma_listing_exists(rest);
        let es = listing(rest).push((k, m[k]));
        assert(es.drop_last() =~= listing(rest));
        assert(map_of(es) =~= m);
        assert(sorted(es)) by {
            assert forall|i: int, j: int|
                #![trigger es[i], es[j]]
                0 <= i < j < es.len() implies lex_lt(es[i].0, es[j].0) by {
                if j == es.len() - 1 {
                    lemma_map_of_index(listing(rest), i);
                    assert(rest.contains_key(es[i].0));
                    lemma_lex_total(es[i].0, k);
                } else {
                    assert(listing(rest)[i] == es[i]);
                    assert(listing(rest)[j] == es[j]);
                }
            }
        }
        assert(sorted(es) && map_of(es) == m);
    }
    lemma_map_of_len(listing(m));
}

/// A finite non-empty set of byte strings has a greatest element.
proof fn lemma_greatest_key(s: Set<Seq<u8>>) -> (k: Seq<u8>)
    requires
        s.finite(),
        s.len() > 0,
    ensures
        s.contains(k),
        forall|x: Seq<u8>| s.contains(x) ==> !lex_lt(k, x),
    decreases s.len(),
{
    let a = s.choose();
    let rest = s.remove(a);
    if rest.len() == 0 {
        assert forall|x: Seq<u8>| s.contains(x) implies !lex_lt(a, x) by {
            if x != a {
                assert(rest.contains(x));
            }
            lemma_lex_irreflexive(a);
        }
        a
    } else {
        let b = lemma_greatest_key(rest);
        if lex_lt(b, a) {
            assert forall|x: Seq<u8>| s.contains(x) implies !lex_lt(a, x) by {
                if x != a {
                    assert(rest.contains(x));
                    if lex_lt(a, x) {
                        lemma_lex_transitive(b, a, x);
                    }
                } else {
                    lemma_lex_irreflexive(a);
                }
            }
            a
        } else {
            assert forall|x: Seq<u8>| s.contains(x) implies !lex_lt(b, x) by {
                if x != a {
                    assert(rest.contains(x));
                }
            }
            b
        }
    }
}

/// A map from byte strings to values, kept in the order of its keys.
#[derive(Debug)]
pub struct SortedMap<V> {
    keys: Vec<Vec<u8>>,
    vals: Vec<V>,
}

impl<V: View> View for SortedMap<V> {
    type V = Map<Seq<u8>, V::V>;

    open spec fn view(&self) -> Map<Seq<u8>, V::V> {
        map_of(self.entries())
    }
}

impl<V: View> SortedMap<V> {
    /// The entries in the order in which they are kept.
    pub closed spec fn entries(&self) -> Seq<(Seq<u8>, V::V)> {
        Seq::new(self.keys@.len(), |i: int| (self.keys@[i]@, self.vals@[i]@))
    }

    /// The keys are in order, each with its value.
    pub closed spec fn wf(&self) -> bool {
        &&& self.keys@.len() == self.vals@.len()
        &&& sorted(self.entries())
    }

    /// What well-formedness means to a user of the map.
    pub proof fn lemma_wf(&self)
        requires
            self.wf(),
        ensures
            sorted(self.entries()),
            self.entries() == listing(self@),
            self@.dom().finite(),
            self@.len() == self.entries().len(),
    {
        lemma_listing(self.entries());
        lemma_map_of_len(self.entries());
    }

    /// An empty map.
    pub fn new() -> (r: Self)
        ensures
            r.wf(),
            r@ == Map::<Seq<u8>, V::V>::empty(),
    {
        let r = SortedMap { keys: Vec::new(), vals: Vec::new() };
        assert(r.entries() =~= Seq::empty());
        r
    }

    /// How many keys the map holds.
    pub fn len(&self) -> (n: usize)
        requires
            self.wf(),
        ensures
            n == self@.len(),
            n == self.entries().len(),
    {
        proof {
            self.lemma_wf();
        }
        self.keys.len()
    }

    /// The key at a place in the order.
    pub fn key_at(&self, i: usize) -> (k: &Vec<u8>)
        requires
            self.wf(),
            i < self.entries().len(),
        ensures
            k@ == self.entries()[i as int].0,
    {
        &self.keys[i]
    }

    /// The value at a place in the order.
    pub fn val_at(&self, i: usize) -> (v: &V)
        requires
            self.wf(),
            i < self.entries().len(),
        ensures
            v@ == self.entries()[i as int].1,
    {
        &self.vals[i]
    }

    /// The first place whose key does not come before `key`.
    pub fn lower_bound(&self, key: &[u8]) -> (i: usize)
        requires
            self.wf(),
        ensures
            i <= self.entries().len(),
            forall|j: int| 0 <= j < i ==> lex_lt(#[trigger] self.entries()[j].0, key@),
            forall|j: int|
                i <= j < self.entries().len() ==> lex_le(key@, #[trigger] self.entries()[j].0),
    {
        let mut lo: usize = 0;
        let mut hi: usize = self.keys.len();
        while lo < hi
            invariant
                self.wf(),
                lo <= hi <= self.entries().len(),
                self.entries().len() == self.keys@.len(),
                forall|j: int| 0 <= j < lo ==> lex_lt(#[trigger] self.entries()[j].0, key@),
                forall|j: int|
                    hi <= j < self.entries().len() ==> lex_le(key@, #[trigger] self.entries()[j].0),
            decreases hi - lo,
        {
            let mid: usize = lo + (hi - lo) / 2;
            assert(self.entries()[mid as int].0 == self.keys@[mid as int]@);
            if bytes_lt(&self.keys[mid], key) {
                proof {
                    assert forall|j: int| 0 <= j < mid + 1 implies lex_lt(
                        #[trigger] self.entries()[j].0,
                        key@,
                    ) by {
                        if j < mid {
                            lemma_lex_transitive(
                                self.entries()[j].0,
                                self.entries()[mid as int].0,
                                key@,
                            );
                        }
                    }
                }
                lo = mid + 1;
            } else {
                proof {
                    lemma_lex_total(self.entries()[mid as int].0, key@);
                    assert forall|j: int| mid <= j < self.entries().len() implies lex_le(
                        key@,
                        #[trigger] self.entries()[j].0,
                    ) by {
                        if j > mid && key@ != self.entries()[mid as int].0 {
                            lemma_lex_transitive(
                                key@,
                                self.entries()[mid as int].0,
                                self.entries()[j].0,
                            );
                        }
                    }
                }
                hi = mid;
            }
        }
        lo
    }

    /// Whether the key that `lower_bound` gave the place of is there.
    fn found_at(&self, i: usize, key: &[u8]) -> (r: bool)
        requires
            self.wf(),
            i <= self.entries().len(),
            forall|j: int| 0 <= j < i ==> lex_lt(#[trigger] self.entries()[j].0, key@),
            forall|j: int|
                i <= j < self.entries().len() ==> lex_le(key@, #[trigger] self.entries()[j].0),
        ensures
            r == self@.contains_key(key@),
            r == (i < self.entries().len() && self.entries()[i as int].0 == key@),
            r ==> self@[key@] == self.entries()[i as int].1,
    {
        let r = i < self.keys.len() && bytes_eq(&self.keys[i], key);
        proof {
            lemma_map_of_contains(self.entries(), key@);
            if r {
                lemma_map_of_index(self.entries(), i as int);
            } else if self@.contains_key(key@) {
                let j = lemma_map_of_find(self.entries(), key@);
                lemma_lex_irreflexive(key@);
                assert(j > i);
                assert(lex_lt(self.entries()[i as int].0, self.entries()[j].0));
                lemma_lex_asymmetric(self.entries()[i as int].0, key@);
            }
        }
        r
    }

    /// The value under a key.
    pub fn get(&self, key: &[u8]) -> (r: Option<&V>)
        requires
            self.wf(),
        ensures
            r is Some <==> self@.contains_key(key@),
            r matches Some(v) ==> v@ == self@[key@],
    {
        let i: usize = self.lower_bound(key);
        if self.found_at(i, key) {
            Some(&self.vals[i])
        } else {
            None
        }
    }

    /// Whether the key is there.
    pub fn contains_key(&self, key: &[u8]) -> (r: bool)
        requires
            self.wf(),
        ensures
            r == self@.contains_key(key@),
    {
        let i: usize = self.lower_bound(key);
        self.found_at(i, key)
    }

    /// Puts a value under a key, in place of the one that was there.
    pub fn insert(&mut self, key: Vec<u8>, val: V)
        requires
            old(self).wf(),
        ensures
            final(self).wf(),
            final(self)@ == old(self)@.insert(key@, val@),
    {
        let i: usize = self.lower_bound(&key);
        let ghost es = self.entries();
        if self.found_at(i, &key) {
            self.vals[i] = val;
            proof {
                let fs = self.entries();
                assert(fs =~= es.update(i as int, (key@, val@)));
                assert(sorted(fs));
                lemma_map_of_update(es, i as int, val@);
            }
        } else {
            let ghost k = key@;
            self.keys.insert(i, key);
            self.vals.insert(i, val);
            proof {
                let fs = self.entries();
                assert(fs =~= es.insert(i as int, (k, val@)));
                lemma_map_of_contains(es, k);
                lemma_insert_between(es, i as int, k, val@);
            }
        }
    }

    /// Takes a key out, if it is there.
    pub fn remove(&mut self, key: &[u8])
        requires
            old(self).wf(),
        ensures
            final(self).wf(),
            final(self)@ == old(self)@.remove(key@),
    {
        let i: usize = self.lower_bound(key);
        let ghost es = self.entries();
        if self.found_at(i, key) {
            let _ = self.keys.remove(i);
            let _ = self.vals.remove(i);
            proof {
                let fs = self.entries();
                assert(fs =~= es.remove(i as int));
                lemma_remove_at(es, i as int);
            }
        } else {
            assert(self@ =~= old(self)@.remove(key@));
        }
    }
}

/// Changing the value of one entry changes the map at its key.
proof fn lemma_map_of_update<T>(es: Seq<(Seq<u8>, T)>, i: int, v: T)
    requires
        sorted(es),
        0 <= i < es.len(),
    ensures
        sorted(es.update(i, (es[i].0, v))),
        map_of(es.update(i, (es[i].0, v))) == map_of(es).insert(es[i].0, v),
{
    let fs = es.update(i, (es[i].0, v));
    assert forall|a: int, b: int|
        #![trigger fs[a], fs[b]]
        0 <= a < b < fs.len() implies lex_lt(fs[a].0, fs[b].0) by {
        assert(lex_lt(es[a].0, es[b].0));
    }
    assert forall|k: Seq<u8>|
        #![trigger map_of(fs).contains_key(k)]
        map_of(fs).contains_key(k) == map_of(es).insert(es[i].0, v).contains_key(k) && (map_of(
            fs,
        ).contains_key(k) ==> map_of(fs)[k] == map_of(es).insert(es[i].0, v)[k]) by {
        lemma_map_of_contains(fs, k);
        lemma_map_of_contains(es, k);
        lemma_map_of_index(es, i);
        lemma_map_of_index(fs, i);
        if map_of(fs).contains_key(k) {
            let x = lemma_map_of_find(fs, k);
            assert(es[x].0 == k);
            lemma_map_of_index(es, x);
        } else if map_of(es).contains_key(k) {
            let x = lemma_map_of_find(es, k);
            assert(fs[x].0 == k);
        }
    }
    assert(map_of(fs) =~= map_of(es).insert(es[i].0, v));
}

/// An entry whose key fits between its neighbours can be put there.
proof fn lemma_insert_between<T>(es: Seq<(Seq<u8>, T)>, i: int, k: Seq<u8>, v: T)
    requires
        sorted(es),
        0 <= i <= es.len(),
        !map_of(es).contains_key(k),
        forall|j: int| 0 <= j < i ==> lex_lt(#[trigger] es[j].0, k),
        forall|j: int| i <= j < es.len() ==> lex_le(k, #[trigger] es[j].0),
    ensures
        sorted(es.insert(i, (k, v))),
        map_of(es.insert(i, (k, v))) == map_of(es).insert(k, v),
{
    let fs = es.insert(i, (k, v));
    lemma_map_of_contains(es, k);
    assert forall|a: int, b: int|
        #![trigger fs[a], fs[b]]
        0 <= a < b < fs.len() implies lex_lt(fs[a].0, fs[b].0) by {
        let x = if a < i { a } else { a - 1 };
        let y = if b < i { b } else { b - 1 };
        if a == i {
            assert(fs[b] == es[y]);
            assert(lex_le(k, es[y].0));
        } else if b == i {
            assert(fs[a] == es[x]);
        } else {
            assert(fs[a] == es[x]);
            assert(fs[b] == es[y]);
        }
    }
    assert forall|q: Seq<u8>|
        #![trigger map_of(fs).contains_key(q)]
        map_of(fs).contains_key(q) == map_of(es).insert(k, v).contains_key(q) && (map_of(
            fs,
        ).contains_key(q) ==> map_of(fs)[q] == map_of(es).insert(k, v)[q]) by {
        lemma_map_of_contains(fs, q);
        lemma_map_of_contains(es, q);
        lemma_map_of_index(fs, i);
        if map_of(fs).contains_key(q) {
            let x = lemma_map_of_find(fs, q);
            if x < i {
                assert(es[x] == fs[x]);
                lemma_map_of_index(es, x);
            } else if x > i {
                assert(es[x - 1] == fs[x]);
                lemma_map_of_index(es, x - 1);
            }
        } else if map_of(es).contains_key(q) {
            let x = lemma_map_of_find(es, q);
            if x < i {
                assert(fs[x] == es[x]);
            } else {
                assert(fs[x + 1] == es[x]);
            }
        }
    }
    assert(map_of(fs) =~= map_of(es).insert(k, v));
}

/// Taking an entry out takes its key out of the map.
proof fn lemma_remove_at<T>(es: Seq<(Seq<u8>, T)>, i: int)
    requires
        sorted(es),
        0 <= i < es.len(),
    ensures
        sorted(es.remove(i)),
        map_of(es.remove(i)) == map_of(es).remove(es[i].0),
{
    let fs = es.remove(i);
    let k = es[i].0;
    assert forall|a: int, b: int|
        #![trigger fs[a], fs[b]]
        0 <= a < b < fs.len() implies lex_lt(fs[a].0, fs[b].0) by {
        let x = if a < i { a } else { a + 1 };
        let y = if b < i { b } else { b + 1 };
        assert(fs[a] == es[x]);
        assert(fs[b] == es[y]);
    }
    assert forall|q: Seq<u8>|
        #![trigger map_of(fs).contains_key(q)]
        map_of(fs).contains_key(q) == map_of(es).remove(k).contains_key(q) && (map_of(
            fs,
        ).contains_key(q) ==> map_of(fs)[q] == map_of(es).remove(k)[q]) by {
        lemma_map_of_contains(fs, q);
        lemma_map_of_contains(es, q);
        if map_of(fs).contains_key(q) {
            let x = lemma_map_of_find(fs, q);
            let y = if x < i { x } else { x + 1 };
            assert(es[y] == fs[x]);
            lemma_map_of_index(es, y);
            lemma_lex_irreflexive(q);
            if y < i {
                assert(lex_lt(es[y].0, es[i].0));
            } else {
                assert(lex_lt(es[i].0, es[y].0));
            }
        } else if map_of(es).contains_key(q) && q != k {
            let x = lemma_map_of_find(es, q);
            if x < i {
                assert(fs[x] == es[x]);
            } else {
                assert(fs[x - 1] == es[x]);
            }
        }
    }
    assert(map_of(fs) =~= map_of(es).remove(k));
}

/// Appending an entry whose key comes after all others keeps the order.
pub proof fn lemma_sorted_push<T>(es: Seq<(Seq<u8>, T)>, k: Seq<u8>, v: T)
    requires
        sorted(es),
        es.len() > 0 ==> lex_lt(es.last().0, k),
    ensures
        sorted(es.push((k, v))),
        map_of(es.push((k, v))) == map_of(es).insert(k, v),
{
    let fs = es.push((k, v));
    assert(fs.drop_last() =~= es);
    assert forall|a: int, b: int|
        #![trigger fs[a], fs[b]]
        0 <= a < b < fs.len() implies lex_lt(fs[a].0, fs[b].0) by {
        if b == es.len() {
            if a < es.len() - 1 {
                assert(lex_lt(es[a].0, es[es.len() - 1].0));
                lemma_lex_transitive(es[a].0, es.last().0, k);
            }
        } else {
            assert(lex_lt(es[a].0, es[b].0));
        }
    }
}

/// What a function picks out of a map: under each key for which it gives something, that.
pub open spec fn picked<T, X>(
    m: Map<Seq<u8>, T>,
    f: spec_fn(Seq<u8>, T) -> Option<X>,
) -> Map<Seq<u8>, X> {
    Map::new(|k: Seq<u8>| m.contains_key(k) && f(k, m[k]) is Some, |k: Seq<u8>| f(k, m[k])->0)
}

/// What a function picks out of a sequence of entries, in the same order.
pub open spec fn picked_entries<T, X>(
    es: Seq<(Seq<u8>, T)>,
    f: spec_fn(Seq<u8>, T) -> Option<X>,
) -> Seq<(Seq<u8>, X)>
    decreases es.len(),
{
    if es.len() == 0 {
        Seq::empty()
    } else {
        let rest = picked_entries(es.drop_last(), f);
        match f(es.last().0, es.last().1) {
            Some(x) => rest.push((es.last().0, x)),
            None => rest,
        }
    }
}

/// Picking from sorted entries lists what is picked from their map.
pub proof fn lemma_picked<T, X>(es: Seq<(Seq<u8>, T)>, f: spec_fn(Seq<u8>, T) -> Option<X>)
    requires
        sorted(es),
    ensures
        sorted(picked_entries(es, f)),
        map_of(picked_entries(es, f)) == picked(map_of(es), f),
        listing(picked(map_of(es), f)) == picked_entries(es, f),
        picked(map_of(es), f).len() == picked_entries(es, f).len(),
        picked(map_of(es), f).dom().finite(),
    decreases es.len(),
{
    let ps = picked_entries(es, f);
    if es.len() == 0 {
        assert(picked(map_of(es), f) =~= Map::empty());
    } else {
        let rest = es.drop_last();
        let k = es.last().0;
        assert(sorted(rest));
        lemma_picked(rest, f);
        let qs = picked_entries(rest, f);
        assert(!map_of(rest).contains_key(k)) by {
            if map_of(rest).contains_key(k) {
                let i = lemma_map_of_find(rest, k);
                assert(es[i].0 == k);
                assert(lex_lt(es[i].0, es[es.len() - 1].0));
                lemma_lex_irreflexive(k);
            }
        }
        match f(k, es.last().1) {
            Some(x) => {
                if qs.len() > 0 {
                    lemma_map_of_index(qs, qs.len() - 1);
                    let i = lemma_map_of_find(rest, qs.last().0);
                    assert(lex_lt(es[i].0, es[es.len() - 1].0));
                }
                lemma_sorted_push(qs, k, x);
                assert(picked(map_of(es), f) =~= picked(map_of(rest), f).insert(k, x));
            },
            None => {
                assert(picked(map_of(es), f) =~= picked(map_of(rest), f));
            },
        }
    }
    lemma_listing(ps);
    lemma_map_of_len(ps);
}

/// Entries of which nothing is picked change nothing.
pub proof fn lemma_picked_none<T, X>(
    es: Seq<(Seq<u8>, T)>,
    n: int,
    f: spec_fn(Seq<u8>, T) -> Option<X>,
)
    requires
        0 <= n <= es.len(),
        forall|i: int| n <= i < es.len() ==> f((#[trigger] es[i]).0, es[i].1) is None,
    ensures
        picked_entries(es, f) == picked_entries(es.take(n), f),
    decreases es.len() - n,
{
    if n == es.len() {
        assert(es.take(n) =~= es);
    } else {
        let last = es[es.len() - 1];
        assert(f(last.0, last.1) is None);
        assert(es.drop_last().take(n) =~= es.take(n));
        assert forall|i: int| n <= i < es.drop_last().len() implies f(
            (#[trigger] es.drop_last()[i]).0,
            es.drop_last()[i].1,
        ) is None by {
            assert(es.drop_last()[i] == es[i]);
        }
        lemma_picked_none(es.drop_last(), n, f);
    }
}

/// One more entry adds what is picked of it.
pub proof fn lemma_picked_step<T, X>(
    es: Seq<(Seq<u8>, T)>,
    i: int,
    f: spec_fn(Seq<u8>, T) -> Option<X>,
)
    requires
        0 <= i < es.len(),
    ensures
        picked_entries(es.take(i + 1), f) == match f(es[i].0, es[i].1) {
            Some(x) => picked_entries(es.take(i), f).push((es[i].0, x)),
            None => picked_entries(es.take(i), f),
        },
{
    assert(es.take(i + 1).drop_last() =~= es.take(i));
}

/// The keys that are listed are those of the map, each once.
pub proof fn lemma_listed_keys<T>(m: Map<Seq<u8>, T>)
    requires
        m.dom().finite(),
    ensures
        forall|k: Seq<u8>| #[trigger] listed_keys(m).contains(k) == m.contains_key(k),
        listed_keys(m).no_duplicates(),
        listed_keys(m).len() == m.len(),
{
    lemma_listing_exists(m);
    let es = listing(m);
    let ks = listed_keys(m);
    assert forall|k: Seq<u8>| #[trigger] ks.contains(k) == m.contains_key(k) by {
        lemma_map_of_contains(es, k);
        if ks.contains(k) {
            let i = choose|i: int| 0 <= i < ks.len() && ks[i] == k;
            assert(es[i].0 == k);
        }
        if m.contains_key(k) {
            let i = choose|i: int| 0 <= i < es.len() && #[trigger] es[i].0 == k;
            assert(ks[i] == k);
        }
    }
    assert forall|i: int, j: int| 0 <= i < ks.len() && 0 <= j < ks.len() && i != j implies ks[i]
        != ks[j] by {
        lemma_lex_irreflexive(ks[i]);
        if i < j {
            assert(lex_lt(es[i].0, es[j].0));
        } else {
            assert(lex_lt(es[j].0, es[i].0));
        }
    }
}

/// What is picked out of a finite map is finite.
pub proof fn lemma_picked_finite<T, X>(
    m: Map<Seq<u8>, T>,
    f: spec_fn(Seq<u8>, T) -> Option<X>,
)
    requires
        m.dom().finite(),
    ensures
        picked(m, f).dom().finite(),
{
    lemma_listing_exists(m);
    lemma_picked(listing(m), f);
}

} // verus!
