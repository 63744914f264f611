//! Who is told of a change.

use crate::storage::range::{covers, matches_range};
use crate::storage::state::{
    count_down, count_up, counted_down, counted_up, delivery_views, watcher_views, Delivery,
    DeliveryView, StoreState, StoreView, WatchEvent, WatchEventView, WatchRegistration,
    WatchRegistrationView,
};
use vstd::prelude::*;

verus! {

/// Whether filters let an event through: a zero holds back puts, a one deletions.
pub open spec fn passes_filters(filters: Seq<i32>, event_type: i32) -> bool {
    !((event_type == 0 || event_type == 1) && filters.contains(event_type))
}

/// Whether filters let an event through: a zero holds back puts, a one deletions.
pub fn should_send_event(filters: &[i32], event_type: i32) -> (r: bool)
    ensures
        r == passes_filters(filters@, event_type),
{
    if event_type != 0 && event_type != 1 {
        return true;
    }
    let mut i: usize = 0;
    while i < filters.len()
        invariant
            i <= filters@.len(),
            event_type == 0 || event_type == 1,
            forall|j: int| 0 <= j < i ==> filters@[j] != event_type,
        decreases filters@.len() - i,
    {
        if filters[i] == event_type {
            return false;
        }
        i = i + 1;
    }
    true
}

/// Whether a watcher is to be told of a change: one of its keys, from its revision on, of a type
/// that its filters let through.
pub open spec fn wants(w: WatchRegistrationView, e: WatchEventView) -> bool {
    &&& covers(w.bound, e.key)
    &&& w.start_revision <= e.revision
    &&& passes_filters(w.filters, e.event_type.number())
}

/// What a watcher is told of a change, if anything: the change, with what was there before only
/// if it asked for that.
pub open spec fn delivery_to(w: WatchRegistrationView, e: WatchEventView) -> Option<
    DeliveryView,
> {
    if wants(w, e) {
        Some(
            DeliveryView {
                sender: w.sender,
                event: if w.prev_kv {
                    e
                } else {
                    WatchEventView { prev_kv_bytes: Seq::empty(), ..e }
                },
            },
        )
    } else {
        None
    }
}

/// What all watchers together are told of a change.
pub open spec fn told(ws: Seq<WatchRegistrationView>, e: WatchEventView) -> Seq<DeliveryView> {
    ws.filter_map(|w: WatchRegistrationView| delivery_to(w, e))
}

/// The watchers without those of an id.
pub open spec fn without_watcher(
    ws: Seq<WatchRegistrationView>,
    watch_id: i64,
) -> Seq<WatchRegistrationView> {
    ws.filter(|w: WatchRegistrationView| w.watch_id != watch_id)
}

/// A store with one more watcher.
pub open spec fn with_watcher(s: StoreView, w: WatchRegistrationView) -> StoreView {
    StoreView {
        watchers: s.watchers.push(w),
        watcher_count: counted_up(s.watcher_count),
        ..s
    }
}

/// A store in which the watchers of an id have been cancelled.
pub open spec fn with_cancelled(s: StoreView, watch_id: i64) -> StoreView {
    let ws = without_watcher(s.watchers, watch_id);
    if ws.len() == s.watchers.len() {
        s
    } else {
        StoreView { watchers: ws, watcher_count: counted_down(s.watcher_count), ..s }
    }
}

/// A store whose watchers have been told of a change.
pub open spec fn with_event(s: StoreView, e: WatchEventView) -> StoreView {
    StoreView { outbox: s.outbox + told(s.watchers, e), ..s }
}

/// Of a sequence from which the elements at the front all stay, filtering keeps them.
proof fn lemma_filter_front(ws: Seq<WatchRegistrationView>, watch_id: i64)
    requires
        ws.len() > 0,
    ensures
        without_watcher(ws, watch_id) == if ws[0].watch_id != watch_id {
            seq![ws[0]] + without_watcher(ws.skip(1), watch_id)
        } else {
            without_watcher(ws.skip(1), watch_id)
        },
{
    let p = |w: WatchRegistrationView| w.watch_id != watch_id;
    assert(ws =~= seq![ws[0]] + ws.skip(1));
    Seq::filter_distributes_over_add(seq![ws[0]], ws.skip(1), p);
    reveal(Seq::filter);
    assert(seq![ws[0]].drop_last() =~= Seq::empty());
    assert(Seq::<WatchRegistrationView>::empty().filter(p) =~= Seq::empty());
    assert(seq![ws[0]].filter(p) =~= if p(ws[0]) {
        seq![ws[0]]
    } else {
        Seq::empty()
    });
    assert(Seq::<WatchRegistrationView>::empty() + ws.skip(1).filter(p) =~= ws.skip(1).filter(p));
}

impl StoreState {
    /// Registers a watcher. Gives its id.
    pub fn register_watcher(&mut self, reg: WatchRegistration) -> (r: i64)
        ensures
            r == reg.watch_id,
            final(self)@ == with_watcher(old(self)@, reg@),
            old(self).wf() ==> final(self).wf(),
    {
        let watch_id: i64 = reg.watch_id;
        let ghost before = self.watchers@;
        self.watchers.push(reg);
        count_up(&mut self.watcher_count);
        assert(watcher_views(self.watchers@) =~= watcher_views(before).push(reg@));
        watch_id
    }

    /// Cancels the watchers of an id. Gives whether there were any.
    pub fn cancel_watcher(&mut self, watch_id: i64) -> (changed: bool)
        ensures
            final(self)@ == with_cancelled(old(self)@, watch_id),
            changed == exists|i: int|
                0 <= i < old(self)@.watchers.len() && (#[trigger] old(self)@.watchers[i]).watch_id
                    == watch_id,
            old(self).wf() ==> final(self).wf(),
    {
        let ghost all = watcher_views(self.watchers@);
        let mut changed = false;
        let mut i: usize = 0;
        assert(all.take(0) + without_watcher(all.skip(0), watch_id) =~= without_watcher(
            all,
            watch_id,
        )) by {
            assert(all.skip(0) =~= all);
        }
        while i < self.watchers.len()
            invariant
                i <= self.watchers@.len() <= all.len(),
                all == old(self)@.watchers,
                self.keys == old(self).keys,
                self.leases == old(self).leases,
                self.next_rev == old(self).next_rev,
                self.compact_rev == old(self).compact_rev,
                self.next_lease_id == old(self).next_lease_id,
                self.key_count == old(self).key_count,
                self.watcher_count == old(self).watcher_count,
                self.lease_count == old(self).lease_count,
                self.outbox == old(self).outbox,
                watcher_views(self.watchers@).take(i as int) + without_watcher(
                    watcher_views(self.watchers@).skip(i as int),
                    watch_id,
                ) == without_watcher(all, watch_id),
                changed == (self.watchers@.len() < all.len()),
                !changed ==> watcher_views(self.watchers@) == all,
                !changed ==> forall|j: int|
                    0 <= j < i ==> (#[trigger] all[j]).watch_id != watch_id,
                changed ==> exists|j: int|
                    0 <= j < all.len() && (#[trigger] all[j]).watch_id == watch_id,
            decreases self.watchers@.len() - i,
        {
            let ghost ws = watcher_views(self.watchers@);
            let ghost at = i as int;
            proof {
                lemma_filter_front(ws.skip(at), watch_id);
                assert(ws.skip(at).skip(1) =~= ws.skip(at + 1));
                assert(ws.skip(at)[0] == ws[at]);
            }
            if self.watchers[i].watch_id == watch_id {
                let _ = self.watchers.remove(i);
                proof {
                    let now = watcher_views(self.watchers@);
                    assert(now =~= ws.remove(at));
                    assert(now.take(at) =~= ws.take(at));
                    assert(now.skip(at) =~= ws.skip(at + 1));
                    if !changed {
                        assert(all[at].watch_id == watch_id);
                    }
                }
                changed = true;
            } else {
                i = i + 1;
                proof {
                    assert(ws.take(at + 1) + without_watcher(ws.skip(at + 1), watch_id)
                        =~= ws.take(at) + (seq![ws[at]] + without_watcher(
                        ws.skip(at + 1),
                        watch_id,
                    )));
                }
            }
        }
        proof {
            let ws = watcher_views(self.watchers@);
            assert(ws.skip(i as int) =~= Seq::empty());
            reveal(Seq::filter);
            assert(without_watcher(ws.skip(i as int), watch_id) =~= Seq::empty());
            assert(ws.take(i as int) + without_watcher(ws.skip(i as int), watch_id) =~= ws);
        }
        if changed {
            count_down(&mut self.watcher_count);
        }
        changed
    }

    /// Tells the watchers of a change.
    pub fn notify_watchers(&mut self, event: WatchEvent)
        ensures
            final(self)@ == with_event(old(self)@, event@),
            old(self).wf() ==> final(self).wf(),
    {
        let ghost ws = watcher_views(self.watchers@);
        let ghost before = delivery_views(self.outbox@);
        let ghost pick = |w: WatchRegistrationView| delivery_to(w, event@);
        let mut i: usize = 0;
        assert(before + ws.take(0).filter_map(pick) =~= before);
        while i < self.watchers.len()
            invariant
                i <= self.watchers@.len(),
                ws == watcher_views(self.watchers@),
                pick == (|w: WatchRegistrationView| delivery_to(w, event@)),
                self.watchers == old(self).watchers,
                self.keys == old(self).keys,
                self.leases == old(self).leases,
                self.next_rev == old(self).next_rev,
                self.compact_rev == old(self).compact_rev,
                self.next_lease_id == old(self).next_lease_id,
                self.key_count == old(self).key_count,
                self.watcher_count == old(self).watcher_count,
                self.lease_count == old(self).lease_count,
                delivery_views(self.outbox@) == before + ws.take(i as int).filter_map(pick),
            decreases self.watchers@.len() - i,
        {
            let watcher = &self.watchers[i];
            let ghost out = self.outbox@;
            proof {
                assert(ws[i as int] == watcher@);
                assert(ws.take(i + 1).drop_last() =~= ws.take(i as int));
            }
            if matches_range(watcher.bound.to_ref(), &event.key) && event.revision
                >= watcher.start_revision && should_send_event(
                &watcher.filters,
                event.event_type.to_number(),
            ) {
                let mut copy = event.clone();
                if !watcher.prev_kv {
                    copy.prev_kv_bytes = Vec::new();
                    assert(copy@ =~= WatchEventView { prev_kv_bytes: Seq::empty(), ..event@ });
                }
                let delivery = Delivery { sender: watcher.sender, event: copy };
                assert(delivery_to(watcher@, event@) == Some(delivery@));
                self.outbox.push(delivery);
                assert(delivery_views(self.outbox@) =~= delivery_views(out).push(delivery@));
                assert(delivery_views(self.outbox@) =~= before + ws.take(i + 1).filter_map(pick));
            } else {
                assert(delivery_to(watcher@, event@) is None);
            }
            i = i + 1;
        }
        assert(ws.take(i as int) =~= ws);
    }
}

} // verus!
