//! What a change promises to those who watch: who is told of it, and what they are told.

use crate::storage::apply::{after_delete, after_deletes, after_put, delete_event, put_event};
use crate::storage::key_value::{decoded_kv, KeyValueView};
use crate::storage::laws::lemma_after_deletes;
use crate::storage::meaning::{
    asked_for, law_messages_are_true, lemma_asked_for, lemma_deletes_keep_messages, messages_true,
    there, told_of,
};
use crate::storage::range::{covers, resolved_range};
use crate::storage::state::{
    DeliveryView, EventType, StoreView, WatchEventView, WatchRegistrationView,
};
use crate::storage::watcher::{delivery_to, told, with_watcher};
use vstd::prelude::*;

verus! {

/// Each watcher is kept with the bound that its key and its range end stand for.
pub open spec fn bounds_true(ws: Seq<WatchRegistrationView>) -> bool {
    forall|i: int|
        0 <= i < ws.len() ==> (#[trigger] ws[i]).bound == resolved_range(ws[i].key, ws[i].range_end)
}

/// The watchers, in their order, that a change of a key concerns: they ask for the key, from the
/// revision of the change or an earlier one on, and do not hold back changes of its kind.
pub open spec fn concerned(
    ws: Seq<WatchRegistrationView>,
    key: Seq<u8>,
    rev: u64,
    kind: i32,
) -> Seq<WatchRegistrationView> {
    ws.filter(
        |w: WatchRegistrationView|
            asked_for(w.key, w.range_end, key) && w.start_revision <= rev && !w.filters.contains(
                kind,
            ),
    )
}

/// What the deliveries to watchers have to be, from some place in the outbox on: one to each, in
/// their order, over its channel, of a change of a key at a revision, with a message that says
/// what the change is about, and with the message of the key as it was before if the watcher asked
/// for that and the key was there.
pub open spec fn are_told(
    ws: Seq<WatchRegistrationView>,
    out: Seq<DeliveryView>,
    from: int,
    kind: EventType,
    key: Seq<u8>,
    rev: u64,
    says: KeyValueView,
    before: Option<KeyValueView>,
) -> bool {
    &&& from + ws.len() <= out.len()
    &&& forall|i: int|
        0 <= i < ws.len() ==> ({
            let d = #[trigger] out[from + i];
            let e = d.event;
            &&& d.sender == ws[i].sender
            &&& e.event_type == kind
            &&& e.key == key
            &&& e.revision == rev
            &&& decoded_kv(e.kv_bytes) == Some(says)
            &&& ws[i].prev_kv && before is Some ==> decoded_kv(e.prev_kv_bytes) == before
            &&& !(ws[i].prev_kv && before is Some) ==> e.prev_kv_bytes.len() == 0
        })
}

/// Of the elements that a filter keeps, in their order, a function gives what it gives of all.
pub proof fn lemma_filter_map_filter<A, B>(
    s: Seq<A>,
    f: spec_fn(A) -> Option<B>,
    p: spec_fn(A) -> bool,
)
    requires
        forall|i: int| 0 <= i < s.len() ==> f(#[trigger] s[i]) is Some == p(s[i]),
    ensures
        s.filter_map(f).len() == s.filter(p).len(),
        forall|i: int|
            0 <= i < s.filter(p).len() ==> f(s.filter(p)[i]) == Some(#[trigger] s.filter_map(f)[i]),
        forall|i: int| 0 <= i < s.filter(p).len() ==> p(#[trigger] s.filter(p)[i]),
    decreases s.len(),
{
    reveal(Seq::filter);
    if s.len() > 0 {
        let front = s.drop_last();
        assert forall|i: int| 0 <= i < front.len() implies f(#[trigger] front[i]) is Some == p(
            front[i],
        ) by {
            assert(front[i] == s[i]);
        }
        lemma_filter_map_filter(front, f, p);
        assert(s[s.len() - 1] == s.last());
        let a = s.filter_map(f);
        let b = s.filter(p);
        assert forall|i: int| 0 <= i < b.len() implies f(b[i]) == Some(#[trigger] a[i]) by {
            if i < front.filter(p).len() {
                assert(b[i] == front.filter(p)[i]);
                assert(a[i] == front.filter_map(f)[i]);
            }
        }
        assert forall|i: int| 0 <= i < b.len() implies p(#[trigger] b[i]) by {
            if i < front.filter(p).len() {
                assert(b[i] == front.filter(p)[i]);
            }
        }
    }
}

/// What watchers are told of an event.
proof fn lemma_told(ws: Seq<WatchRegistrationView>, e: WatchEventView)
    requires
        bounds_true(ws),
    ensures
        ({
            let cs = concerned(ws, e.key, e.revision, e.event_type.number());
            let ds = told(ws, e);
            &&& ds.len() == cs.len()
            &&& forall|i: int|
                0 <= i < cs.len() ==> {
                    let d = #[trigger] ds[i];
                    &&& d.sender == cs[i].sender
                    &&& d.event.event_type == e.event_type
                    &&& d.event.key == e.key
                    &&& d.event.revision == e.revision
                    &&& d.event.kv_bytes == e.kv_bytes
                    &&& cs[i].prev_kv ==> d.event.prev_kv_bytes == e.prev_kv_bytes
                    &&& !cs[i].prev_kv ==> d.event.prev_kv_bytes.len() == 0
                }
        }),
{
    let kind = e.event_type.number();
    let f = |w: WatchRegistrationView| delivery_to(w, e);
    let p = |w: WatchRegistrationView|
        asked_for(w.key, w.range_end, e.key) && w.start_revision <= e.revision
            && !w.filters.contains(kind);
    assert forall|i: int| 0 <= i < ws.len() implies f(#[trigger] ws[i]) is Some == p(ws[i]) by {
        lemma_asked_for(ws[i].key, ws[i].range_end);
        assert(covers(resolved_range(ws[i].key, ws[i].range_end), e.key) == asked_for(
            ws[i].key,
            ws[i].range_end,
            e.key,
        ));
    }
    lemma_filter_map_filter(ws, f, p);
    let cs = concerned(ws, e.key, e.revision, kind);
    let ds = told(ws, e);
    assert(cs == ws.filter(p));
    assert(ds == ws.filter_map(f));
    assert forall|i: int| 0 <= i < cs.len() implies {
        let d = #[trigger] ds[i];
        &&& d.sender == cs[i].sender
        &&& d.event.event_type == e.event_type
        &&& d.event.key == e.key
        &&& d.event.revision == e.revision
        &&& d.event.kv_bytes == e.kv_bytes
        &&& cs[i].prev_kv ==> d.event.prev_kv_bytes == e.prev_kv_bytes
        &&& !cs[i].prev_kv ==> d.event.prev_kv_bytes.len() == 0
    } by {
        assert(f(cs[i]) == Some(ds[i]));
    }
}

/// A put is told to the watchers that it concerns and to no others, once to each: as a put of the
/// key at its revision, with a message that says the key, the value and the lease that were put,
/// and with what was there before if the watcher asked for that.
pub proof fn law_put_is_told(
    s: StoreView,
    key: Seq<u8>,
    value: Seq<u8>,
    lease: i64,
    rev: u64,
)
    requires
        messages_true(s.keys),
        bounds_true(s.watchers),
        key.len() < 0x1_0000_0000,
        value.len() < 0x1_0000_0000,
    ensures
        ({
            let t = after_put(s, key, value, lease, rev, None);
            let ws = concerned(s.watchers, key, rev, 0);
            let says = KeyValueView {
                key,
                create_revision: t.keys[key].create_revision as i64,
                mod_revision: rev as i64,
                version: t.keys[key].version,
                value,
                lease,
            };
            let before = if there(s.keys, key) {
                Some(told_of(key, s.keys[key]))
            } else {
                None
            };
            &&& t.outbox.len() == s.outbox.len() + ws.len()
            &&& t.outbox.take(s.outbox.len() as int) == s.outbox
            &&& are_told(
                ws,
                t.outbox,
                s.outbox.len() as int,
                EventType::Put,
                key,
                rev,
                says,
                before,
            )
        }),
{
    let t = after_put(s, key, value, lease, rev, None);
    law_messages_are_true(s, key, value, lease, rev);
    assert(t.keys.contains_key(key));
    if s.keys.contains_key(key) {
        assert(decoded_kv(s.keys[key].kv_bytes) == Some(told_of(key, s.keys[key])));
    }
    let e = put_event(s.living(key), key, t.keys[key]);
    lemma_told(s.watchers, e);
    let ds = told(s.watchers, e);
    let n = s.outbox.len() as int;
    let ws = concerned(s.watchers, key, rev, 0);
    assert(t.outbox == s.outbox + ds);
    assert(t.outbox.take(n) =~= s.outbox);
    assert forall|i: int| 0 <= i < ws.len() implies #[trigger] t.outbox[n + i] == ds[i] by {}
}

/// A deletion of a key that is there is told to the watchers that it concerns and to no others,
/// once to each: as a deletion of the key at its revision, with the message of what was deleted,
/// and again as what was there before if the watcher asked for that. One of a key that is not
/// there is told to nobody.
pub proof fn law_deletion_is_told(s: StoreView, key: Seq<u8>, rev: u64)
    requires
        messages_true(s.keys),
        bounds_true(s.watchers),
    ensures
        ({
            let t = after_delete(s, key, rev);
            let ws = concerned(s.watchers, key, rev, 1);
            let was = told_of(key, s.keys[key]);
            &&& !there(s.keys, key) ==> t == s
            &&& there(s.keys, key) ==> {
                &&& t.outbox.len() == s.outbox.len() + ws.len()
                &&& t.outbox.take(s.outbox.len() as int) == s.outbox
                &&& are_told(
                    ws,
                    t.outbox,
                    s.outbox.len() as int,
                    EventType::Delete,
                    key,
                    rev,
                    was,
                    Some(was),
                )
            }
        }),
{
    if there(s.keys, key) {
        let t = after_delete(s, key, rev);
        assert(decoded_kv(s.keys[key].kv_bytes) == Some(told_of(key, s.keys[key])));
        let e = delete_event(s.keys[key], key, rev);
        lemma_told(s.watchers, e);
        let ds = told(s.watchers, e);
        let n = s.outbox.len() as int;
        let ws = concerned(s.watchers, key, rev, 1);
        assert(t.outbox == s.outbox + ds);
        assert(t.outbox.take(n) =~= s.outbox);
        assert forall|i: int| 0 <= i < ws.len() implies #[trigger] t.outbox[n + i] == ds[i] by {}
    }
}

/// The deletion of several keys, all there and each named once, is told as the deletions of the
/// keys one after the other.
pub proof fn law_deletions_are_told_in_turn(s: StoreView, keys: Seq<Seq<u8>>, rev: u64, j: int)
    requires
        messages_true(s.keys),
        bounds_true(s.watchers),
        rev != 0,
        keys.no_duplicates(),
        forall|i: int| 0 <= i < keys.len() ==> there(s.keys, #[trigger] keys[i]),
        0 <= j < keys.len(),
    ensures
        ({
            let out = after_deletes(s, keys, rev).outbox;
            let n = after_deletes(s, keys.take(j), rev).outbox.len();
            let m = after_deletes(s, keys.take(j + 1), rev).outbox.len();
            let ws = concerned(s.watchers, keys[j], rev, 1);
            let was = told_of(keys[j], s.keys[keys[j]]);
            &&& after_deletes(s, keys.take(0), rev).outbox == s.outbox
            &&& s.outbox.len() <= n
            &&& m == n + ws.len()
            &&& m <= out.len()
            &&& j + 1 == keys.len() ==> m == out.len()
            &&& out.take(s.outbox.len() as int) == s.outbox
            &&& are_told(
                ws,
                out,
                n as int,
                EventType::Delete,
                keys[j],
                rev,
                was,
                Some(was),
            )
        }),
    decreases keys.len(),
{
    let front = keys.drop_last();
    let a = after_deletes(s, front, rev);
    let last = keys.last();
    assert(keys.take(0) =~= Seq::empty());
    assert(keys[keys.len() - 1] == last);
    lemma_deletes_keep_messages(s, front, rev);
    lemma_after_deletes(s, front, rev, last);
    assert(!front.contains(last)) by {
        if front.contains(last) {
            let i = choose|i: int| 0 <= i < front.len() && front[i] == last;
            assert(keys[i] == keys[keys.len() - 1]);
        }
    }
    law_deletion_is_told(a, last, rev);
    let out = after_deletes(s, keys, rev).outbox;
    assert(keys.take(keys.len() - 1) =~= front);
    assert(keys.take(keys.len() as int) =~= keys);
    if front.len() > 0 {
        assert(front.no_duplicates()) by {
            assert forall|x: int, y: int|
                0 <= x < front.len() && 0 <= y < front.len() && x != y implies front[x]
                != front[y] by {
                assert(front[x] == keys[x] && front[y] == keys[y]);
            }
        }
        assert forall|i: int| 0 <= i < front.len() implies there(s.keys, #[trigger] front[i]) by {
            assert(front[i] == keys[i]);
        }
        let i = if j < front.len() {
            j
        } else {
            0
        };
        law_deletions_are_told_in_turn(s, front, rev, i);
        assert(front.take(i) =~= keys.take(i));
        assert(front.take(i + 1) =~= keys.take(i + 1));
        assert(out.take(s.outbox.len() as int) =~= a.outbox.take(s.outbox.len() as int)) by {
            assert(out.take(a.outbox.len() as int) == a.outbox);
            assert forall|x: int| 0 <= x < s.outbox.len() implies out[x] == a.outbox[x] by {
                assert(out.take(a.outbox.len() as int)[x] == a.outbox[x]);
            }
        }
        if j < front.len() {
            let n = after_deletes(s, keys.take(j), rev).outbox.len() as int;
            let ws = concerned(s.watchers, keys[j], rev, 1);
            assert forall|x: int| 0 <= x < ws.len() implies #[trigger] out[n + x]
                == a.outbox[n + x] by {
                assert(out.take(a.outbox.len() as int)[n + x] == a.outbox[n + x]);
            }
        }
    }
}

/// A watcher that is registered is kept with its bound.
pub proof fn law_registered_bounds_are_true(s: StoreView, w: WatchRegistrationView)
    requires
        bounds_true(s.watchers),
        w.bound == resolved_range(w.key, w.range_end),
    ensures
        bounds_true(with_watcher(s, w).watchers),
        with_watcher(s, w).watchers.last() == w,
        with_watcher(s, w).watchers.drop_last() == s.watchers,
{
    assert(with_watcher(s, w).watchers.drop_last() =~= s.watchers);
}

} // verus!
