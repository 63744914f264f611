//! What watches promise: that each change is told to those who asked for it, once and in order.

use crate::server::watch::{
    accepted, created_replies, event_message, event_response_of, event_responses, id_taken,
    past_told, prev_after, record_event, refusal, refusals, refused_response, swap_removed, talked,
    told_past, triaged, with_watchers, without_taken, HeardView, Phase, WatchContextView,
    WatchReplyView, WatchResponseView, WatchTalkView,
};
use crate::storage::state::{DeliveryView, StoreView, WatchEventView, WatchRegistrationView};
use crate::storage::wal::KvWalRecordView;
use crate::storage::watcher::{
    delivery_to, told, wants, with_cancelled, with_event, without_watcher,
};
use vstd::prelude::*;

verus! {

// ── Changes as they happen ────────────────────────────────────────

/// What filtering and mapping gives comes from the elements, and all of it.
pub proof fn lemma_filter_map<A, B>(s: Seq<A>, f: spec_fn(A) -> Option<B>)
    ensures
        forall|b: B| #[trigger]
            s.filter_map(f).contains(b) <==> exists|i: int|
                0 <= i < s.len() && f(#[trigger] s[i]) == Some(b),
        s.filter_map(f).len() <= s.len(),
    decreases s.len(),
{
    if s.len() > 0 {
        let front = s.drop_last();
        lemma_filter_map(front, f);
        assert forall|b: B| #[trigger]
            s.filter_map(f).contains(b) <==> exists|i: int|
                0 <= i < s.len() && f(#[trigger] s[i]) == Some(b) by {
            let r = front.filter_map(f);
            if s.filter_map(f).contains(b) {
                let j = choose|j: int| 0 <= j < s.filter_map(f).len() && s.filter_map(f)[j] == b;
                if j < r.len() {
                    assert(r[j] == b);
                    assert(r.contains(b));
                    let i = choose|i: int|
                        0 <= i < front.len() && f(#[trigger] front[i]) == Some(b);
                    assert(s[i] == front[i]);
                } else {
                    assert(f(s[s.len() - 1]) == Some(b));
                }
            }
            if exists|i: int| 0 <= i < s.len() && f(#[trigger] s[i]) == Some(b) {
                let i = choose|i: int| 0 <= i < s.len() && f(#[trigger] s[i]) == Some(b);
                if i < front.len() {
                    assert(f(front[i]) == Some(b));
                    assert(r.contains(b));
                    let j = choose|j: int| 0 <= j < r.len() && r[j] == b;
                    assert(s.filter_map(f)[j] == b);
                } else {
                    assert(s.filter_map(f)[r.len() as int] == b);
                }
            }
        }
    }
}

/// A watcher is told of a change if and only if it asked for it: the key is one of its own, the
/// change is not before its revision, and its filters let it through. What was sent before stays.
pub proof fn law_watchers_are_told(s: StoreView, e: WatchEventView)
    ensures
        ({
            let out = with_event(s, e).outbox;
            let news = told(s.watchers, e);
            &&& out == s.outbox + news
            &&& forall|i: int|
                0 <= i < s.watchers.len() && wants(#[trigger] s.watchers[i], e) ==> news.contains(
                    delivery_to(s.watchers[i], e)->0,
                )
            &&& forall|d: DeliveryView| #[trigger]
                news.contains(d) ==> exists|i: int|
                    0 <= i < s.watchers.len() && wants(#[trigger] s.watchers[i], e) && d.sender
                        == s.watchers[i].sender && d.event.key == e.key && d.event.kv_bytes
                        == e.kv_bytes && d.event.revision == e.revision && d.event.event_type
                        == e.event_type
        }),
{
    let f = |w: WatchRegistrationView| delivery_to(w, e);
    let news = told(s.watchers, e);
    lemma_filter_map(s.watchers, f);
    assert forall|i: int|
        0 <= i < s.watchers.len() && wants(#[trigger] s.watchers[i], e) implies news.contains(
        delivery_to(s.watchers[i], e)->0,
    ) by {
        assert(f(s.watchers[i]) == Some(delivery_to(s.watchers[i], e)->0));
    }
    assert forall|d: DeliveryView| #[trigger] news.contains(d) implies exists|i: int|
        0 <= i < s.watchers.len() && wants(#[trigger] s.watchers[i], e) && d.sender
            == s.watchers[i].sender && d.event.key == e.key && d.event.kv_bytes == e.kv_bytes
            && d.event.revision == e.revision && d.event.event_type == e.event_type by {
        let i = choose|i: int| 0 <= i < s.watchers.len() && f(#[trigger] s.watchers[i]) == Some(d);
        assert(wants(s.watchers[i], e));
    }
}

/// A watcher that was cancelled is gone; the others stay, in their order.
pub proof fn law_cancelled_watchers_are_gone(s: StoreView, watch_id: i64)
    ensures
        ({
            let t = with_cancelled(s, watch_id);
            &&& forall|i: int|
                0 <= i < t.watchers.len() ==> (#[trigger] t.watchers[i]).watch_id != watch_id
            &&& t.watchers == without_watcher(s.watchers, watch_id)
            &&& t.keys == s.keys
        }),
{
    let p = |w: WatchRegistrationView| w.watch_id != watch_id;
    let ws = without_watcher(s.watchers, watch_id);
    lemma_filtered(s.watchers, p);
    assert forall|i: int| 0 <= i < ws.len() implies (#[trigger] ws[i]).watch_id != watch_id by {
        assert(p(ws[i]));
    }
    if ws.len() == s.watchers.len() {
        lemma_filter_keeps_all(s.watchers, p);
    }
}

/// A filter that keeps as many elements as there are keeps them all.
pub proof fn lemma_filter_keeps_all<A>(s: Seq<A>, p: spec_fn(A) -> bool)
    requires
        s.filter(p).len() == s.len(),
    ensures
        s.filter(p) == s,
    decreases s.len(),
{
    reveal(Seq::filter);
    if s.len() > 0 {
        let front = s.drop_last();
        lemma_filtered(front, p);
        lemma_filter_keeps_all(front, p);
        assert(s =~= front.push(s.last()));
    } else {
        assert(s.filter(p) =~= s);
    }
}

/// A filter gives no more than there is, and only what it lets through.
pub proof fn lemma_filtered<A>(s: Seq<A>, p: spec_fn(A) -> bool)
    ensures
        s.filter(p).len() <= s.len(),
        forall|i: int| 0 <= i < s.filter(p).len() ==> p(#[trigger] s.filter(p)[i]),
    decreases s.len(),
{
    reveal(Seq::filter);
    if s.len() > 0 {
        let front = s.drop_last();
        lemma_filtered(front, p);
        assert forall|i: int| 0 <= i < s.filter(p).len() implies p(#[trigger] s.filter(p)[i]) by {
            if i < front.filter(p).len() {
                assert(s.filter(p)[i] == front.filter(p)[i]);
            }
        }
    }
}

// ── From the past to the present ──────────────────────────────────

/// What watches are to be told by the records of a log: of each change, with what was there
/// before it, those that asked for its key and type and for no later revision.
pub open spec fn history_told(cs: Seq<WatchContextView>, recs: Seq<KvWalRecordView>) -> (
    Map<Seq<u8>, Seq<u8>>,
    Seq<DeliveryView>,
)
    decreases recs.len(),
{
    if recs.len() == 0 {
        (Map::empty(), Seq::empty())
    } else {
        let (m, out) = history_told(cs, recs.drop_last());
        let rec = recs.last();
        match rec.key() {
            Some(key) => (
                prev_after(m, key, rec),
                out + told_past(cs, record_event(m, key, rec)),
            ),
            None => (m, out),
        }
    }
}

/// Up to the checkpoint the watches are told all that the records say.
proof fn lemma_before(cs: Seq<WatchContextView>, recs: Seq<KvWalRecordView>, checkpoint_rev: u64)
    requires
        forall|i: int| 0 <= i < recs.len() ==> (#[trigger] recs[i]).revision() <= checkpoint_rev,
    ensures
        past_told(Phase::Before, checkpoint_rev, cs, Map::empty(), recs) == history_told(cs, recs),
    decreases recs.len(),
{
    if recs.len() > 0 {
        let front = recs.drop_last();
        assert forall|i: int| 0 <= i < front.len() implies (#[trigger] front[i]).revision()
            <= checkpoint_rev by {
            assert(front[i] == recs[i]);
        }
        lemma_before(cs, front, checkpoint_rev);
        assert(recs[recs.len() - 1] == recs.last());
    }
}

/// Records after the checkpoint are passed over up to it.
proof fn lemma_before_skips(
    cs: Seq<WatchContextView>,
    recs: Seq<KvWalRecordView>,
    more: Seq<KvWalRecordView>,
    checkpoint_rev: u64,
)
    requires
        forall|i: int| 0 <= i < more.len() ==> (#[trigger] more[i]).revision() > checkpoint_rev,
    ensures
        past_told(Phase::Before, checkpoint_rev, cs, Map::empty(), recs + more) == past_told(
            Phase::Before,
            checkpoint_rev,
            cs,
            Map::empty(),
            recs,
        ),
    decreases more.len(),
{
    if more.len() == 0 {
        assert(recs + more =~= recs);
    } else {
        let front = more.drop_last();
        assert forall|i: int| 0 <= i < front.len() implies (#[trigger] front[i]).revision()
            > checkpoint_rev by {
            assert(front[i] == more[i]);
        }
        lemma_before_skips(cs, recs, front, checkpoint_rev);
        assert((recs + more).drop_last() =~= recs + front);
        assert(more[more.len() - 1] == more.last());
        assert((recs + more).last() == more.last());
    }
}

/// After the checkpoint the watches are told all that the records say.
proof fn lemma_after(
    cs: Seq<WatchContextView>,
    recs: Seq<KvWalRecordView>,
    more: Seq<KvWalRecordView>,
    checkpoint_rev: u64,
)
    requires
        forall|i: int| 0 <= i < more.len() ==> (#[trigger] more[i]).revision() > checkpoint_rev,
    ensures
        ({
            let (m, out) = history_told(cs, recs);
            let (m2, out2) = past_told(Phase::After, checkpoint_rev, cs, m, more);
            history_told(cs, recs + more) == (m2, out + out2)
        }),
    decreases more.len(),
{
    let (m, out) = history_told(cs, recs);
    if more.len() == 0 {
        assert(recs + more =~= recs);
        assert(out + Seq::<DeliveryView>::empty() =~= out);
    } else {
        let front = more.drop_last();
        let rec = more.last();
        assert forall|i: int| 0 <= i < front.len() implies (#[trigger] front[i]).revision()
            > checkpoint_rev by {
            assert(front[i] == more[i]);
        }
        lemma_after(cs, recs, front, checkpoint_rev);
        assert((recs + more).drop_last() =~= recs + front);
        assert(more[more.len() - 1] == rec);
        assert((recs + more).last() == rec);
        let (m1, out1) = past_told(Phase::After, checkpoint_rev, cs, m, front);
        if let Some(key) = rec.key() {
            let e = record_event(m1, key, rec);
            assert((out + out1) + told_past(cs, e) =~= out + (out1 + told_past(cs, e)));
        }
    }
}

/// A watch misses no change and hears of none twice while it is caught up: what it is told from
/// the log as it was read first, up to the checkpoint, and then from the log behind the
/// checkpoint, is what the whole log has to tell, in its order, each change with what was there
/// before it. What was logged after the checkpoint by the time of the first reading does no harm.
pub proof fn law_nothing_missed_nothing_twice(
    cs: Seq<WatchContextView>,
    head: Seq<KvWalRecordView>,
    tail: Seq<KvWalRecordView>,
    seen: nat,
    checkpoint_rev: u64,
)
    requires
        seen <= tail.len(),
        forall|i: int| 0 <= i < head.len() ==> (#[trigger] head[i]).revision() <= checkpoint_rev,
        forall|i: int| 0 <= i < tail.len() ==> (#[trigger] tail[i]).revision() > checkpoint_rev,
    ensures
        ({
            let (m, first) = past_told(
                Phase::Before,
                checkpoint_rev,
                cs,
                Map::empty(),
                head + tail.take(seen as int),
            );
            let (_, second) = past_told(Phase::After, checkpoint_rev, cs, m, tail);
            first + second == history_told(cs, head + tail).1
        }),
{
    let early = tail.take(seen as int);
    assert forall|i: int| 0 <= i < early.len() implies (#[trigger] early[i]).revision()
        > checkpoint_rev by {
        assert(early[i] == tail[i]);
    }
    lemma_before_skips(cs, head, early, checkpoint_rev);
    lemma_before(cs, head, checkpoint_rev);
    lemma_after(cs, head, tail, checkpoint_rev);
}

// ── Watches that are asked for ────────────────────────────────────

/// The ids of watches from some place on are different, and none is taken.
spec fn clean_from(
    s: StoreView,
    all: Seq<WatchContextView>,
    cs: Seq<WatchContextView>,
    n: int,
) -> bool {
    &&& n <= cs.len() <= all.len()
    &&& forall|i: int| 0 <= i < n ==> #[trigger] cs[i] == all[i]
    &&& forall|i: int| n <= i < cs.len() ==> kept(s, all, n, #[trigger] cs[i])
    &&& forall|i: int, j: int|
        #![trigger cs[i], cs[j]]
        n <= i < j < cs.len() ==> cs[i].watch_id != cs[j].watch_id
}

/// Whether a watch is one of those from some place on whose ids are not taken.
spec fn kept(s: StoreView, all: Seq<WatchContextView>, n: int, c: WatchContextView) -> bool {
    exists|j: int| n <= j < all.len() && #[trigger] all[j] == c && !id_taken(s, all, j)
}

/// Taking the watches out whose ids are taken leaves watches with different ids, none taken, and
/// answers each that is taken out.
proof fn lemma_without_taken(
    s: StoreView,
    all: Seq<WatchContextView>,
    cs: Seq<WatchContextView>,
    replies: Seq<WatchReplyView>,
    n: nat,
)
    requires
        clean_from(s, all, cs, n as int),
    ensures
        ({
            let (rest, answers) = without_taken(s, all, cs, replies, n);
            &&& clean_from(s, all, rest, 0)
            &&& rest.len() + answers.len() == cs.len() + replies.len()
        }),
    decreases n,
{
    if n > 0 {
        let i = n - 1;
        let next = if id_taken(s, all, i) {
            swap_removed(cs, i)
        } else {
            cs
        };
        assert forall|j: int| i <= j < next.len() implies kept(s, all, i, #[trigger] next[j]) by {
            if id_taken(s, all, i) {
                let from = if j == i {
                    cs.len() - 1
                } else {
                    j
                };
                assert(next[j] == cs[from]);
                assert(kept(s, all, n as int, cs[from]));
            } else if j > i {
                assert(kept(s, all, n as int, cs[j]));
            } else {
                assert(all[i] == cs[i]);
            }
        }
        assert forall|a: int, b: int|
            #![trigger next[a], next[b]]
            i <= a < b < next.len() implies next[a].watch_id != next[b].watch_id by {
            if id_taken(s, all, i) {
                if a == i {
                    assert(next[a] == cs[cs.len() - 1]);
                    assert(next[b] == cs[b]);
                } else {
                    assert(next[a] == cs[a]);
                    assert(next[b] == cs[b]);
                }
            } else if a == i {
                assert(kept(s, all, n as int, cs[b]));
                let j = choose|j: int|
                    n <= j < all.len() && #[trigger] all[j] == cs[b] && !id_taken(s, all, j);
                assert(all[i] == cs[i]);
                if cs[i].watch_id == cs[b].watch_id {
                    assert(all[i].watch_id == all[j].watch_id);
                    assert(id_taken(s, all, j));
                }
            }
        }
        assert forall|j: int| 0 <= j < i implies #[trigger] next[j] == all[j] by {
            assert(next[j] == cs[j]);
        }
        assert(clean_from(s, all, next, i as int));
        let answered = if id_taken(s, all, i) {
            replies.push(
                WatchReplyView {
                    sender: cs[i].sender,
                    response: refused_response(
                        s.revision() as i64,
                        0,
                        "duplicate watch_id"@,
                    ),
                },
            )
        } else {
            replies
        };
        lemma_without_taken(s, all, next, answered, i as nat);
    }
}

/// Those that are refused for their revision and the others are all there are.
proof fn lemma_accepted_and_refused(s: StoreView, cs: Seq<WatchContextView>)
    ensures
        accepted(s, cs).len() + refusals(s, cs).len() == cs.len(),
        forall|i: int|
            0 <= i < accepted(s, cs).len() ==> refusal(s, #[trigger] accepted(s, cs)[i]) is None,
    decreases cs.len(),
{
    reveal(Seq::filter);
    let p = |c: WatchContextView| refusal(s, c) is None;
    if cs.len() > 0 {
        let front = cs.drop_last();
        lemma_accepted_and_refused(s, front);
        assert forall|i: int| 0 <= i < accepted(s, cs).len() implies refusal(
            s,
            #[trigger] accepted(s, cs)[i],
        ) is None by {
            if i < accepted(s, front).len() {
                assert(accepted(s, cs)[i] == accepted(s, front)[i]);
            }
        }
    }
}

/// Each watch that is asked for is either taken on or refused with an answer. Those taken on ask
/// for revisions that can be told of, under ids that no watcher has and no two of them share.
pub proof fn law_watches_are_taken_on_or_answered(s: StoreView, cs: Seq<WatchContextView>)
    ensures
        ({
            let (active, replies) = triaged(s, cs);
            &&& active.len() + replies.len() == cs.len()
            &&& forall|i: int| 0 <= i < active.len() ==> refusal(s, #[trigger] active[i]) is None
            &&& forall|i: int, j: int|
                #![trigger active[i], s.watchers[j]]
                0 <= i < active.len() && 0 <= j < s.watchers.len() ==> active[i].watch_id
                    != s.watchers[j].watch_id
            &&& forall|i: int, j: int|
                #![trigger active[i], active[j]]
                0 <= i < j < active.len() ==> active[i].watch_id != active[j].watch_id
        }),
{
    let all = accepted(s, cs);
    lemma_accepted_and_refused(s, cs);
    lemma_without_taken(s, all, all, refusals(s, cs), all.len());
    let (active, replies) = triaged(s, cs);
    assert forall|i: int| 0 <= i < active.len() implies refusal(
        s,
        #[trigger] active[i],
    ) is None by {
        assert(kept(s, all, 0, active[i]));
    }
    assert forall|i: int, j: int|
        #![trigger active[i], s.watchers[j]]
        0 <= i < active.len() && 0 <= j < s.watchers.len() implies active[i].watch_id
        != s.watchers[j].watch_id by {
        assert(kept(s, all, 0, active[i]));
        let k = choose|k: int|
            0 <= k < all.len() && #[trigger] all[k] == active[i] && !id_taken(s, all, k);
        assert(!id_taken(s, all, k));
    }
}

/// Each watch that is taken on is answered once, over its own channel and under its own id, that
/// it has been created; and it is registered, behind those that were there and in its order.
pub proof fn law_watches_taken_on_are_created(s: StoreView, cs: Seq<WatchContextView>)
    ensures
        ({
            let replies = created_replies(s, cs);
            let t = with_watchers(s, cs);
            &&& replies.len() == cs.len()
            &&& forall|i: int|
                0 <= i < cs.len() ==> (#[trigger] replies[i]).sender == cs[i].sender && ({
                    let r = replies[i].response;
                    &&& r.created
                    &&& !r.canceled
                    &&& r.watch_id == cs[i].watch_id
                    &&& r.events.len() == 0
                    &&& r.header.revision == s.revision() as i64
                })
            &&& t.watchers == s.watchers + cs.map_values(|c: WatchContextView| c.registration())
            &&& t.keys == s.keys
            &&& t.outbox == s.outbox
        }),
    decreases cs.len(),
{
    let regs = cs.map_values(|c: WatchContextView| c.registration());
    if cs.len() == 0 {
        assert(s.watchers + regs =~= s.watchers);
    } else {
        let front = cs.drop_last();
        law_watches_taken_on_are_created(s, front);
        let firsts = front.map_values(|c: WatchContextView| c.registration());
        assert(s.watchers + regs =~= (s.watchers + firsts).push(cs.last().registration()));
    }
}

/// What is known of a watcher after all that was heard for it, and all that went out to it.
pub open spec fn talked_all(t: WatchTalkView, hs: Seq<HeardView>) -> (
    WatchTalkView,
    Seq<WatchResponseView>,
)
    decreases hs.len(),
{
    if hs.len() == 0 {
        (t, Seq::empty())
    } else {
        let (u, out) = talked_all(t, hs.drop_last());
        let (v, more) = talked(u, hs.last());
        (v, out + more)
    }
}

/// The changes among what was heard.
pub open spec fn events_heard(hs: Seq<HeardView>) -> Seq<WatchEventView>
    decreases hs.len(),
{
    if hs.len() == 0 {
        Seq::empty()
    } else {
        let es = events_heard(hs.drop_last());
        match hs.last() {
            HeardView::Event(e) => es.push(e),
            _ => es,
        }
    }
}

/// Whether a response answers a request or tells of a change, and is no sign of progress.
pub open spec fn says_something(r: WatchResponseView) -> bool {
    r.created || r.events.len() > 0
}

/// A watch that is created is answered before it is told of anything, and then told of each change
/// in one response, in the order in which they happened: under its id, at the revision of the
/// change, with that change alone. Signs of progress may stand in between.
#[verifier::rlimit(30)]
pub proof fn law_answer_comes_first(
    watch_id: i64,
    progress_notify: bool,
    hs: Seq<HeardView>,
    at: int,
    reply: WatchResponseView,
)
    requires
        0 <= at < hs.len(),
        hs[at] == HeardView::Reply(reply),
        reply.created,
        forall|i: int| 0 <= i < hs.len() && i != at ==> !(#[trigger] hs[i] is Reply),
    ensures
        ({
            let t = WatchTalkView {
                watch_id,
                progress_notify,
                answered: false,
                held: Seq::empty(),
            };
            let out = talked_all(t, hs).1;
            let es = events_heard(hs);
            &&& out.len() > 0
            &&& out[0] == reply
            &&& out.filter(|r: WatchResponseView| says_something(r)) == seq![reply]
                + event_responses(es, watch_id)
            &&& forall|i: int|
                0 <= i < es.len() ==> ({
                    let r = #[trigger] event_responses(es, watch_id)[i];
                    &&& r.watch_id == watch_id
                    &&& r.header.revision == es[i].revision as i64
                    &&& r.events == seq![event_message(es[i])]
                })
        }),
    decreases hs.len(),
{
    let t = WatchTalkView { watch_id, progress_notify, answered: false, held: Seq::empty() };
    let p = |r: WatchResponseView| says_something(r);
    let front = hs.drop_last();
    let (u, out) = talked_all(t, front);
    let more = talked(u, hs.last()).1;
    assert(hs[hs.len() - 1] == hs.last());
    if at == hs.len() - 1 {
        assert forall|i: int| 0 <= i < front.len() implies !(#[trigger] front[i] is Reply) by {
            assert(front[i] == hs[i]);
        }
        lemma_held_back(t, front);
        let es = events_heard(front);
        assert(out + more =~= seq![reply] + event_responses(es, watch_id));
        lemma_all_say_something(seq![reply] + event_responses(es, watch_id), p);
    } else {
        assert(front[at] == hs[at]);
        assert forall|i: int| 0 <= i < front.len() && i != at implies !(#[trigger] front[i]
            is Reply) by {
            assert(front[i] == hs[i]);
        }
        law_answer_comes_first(watch_id, progress_notify, front, at, reply);
        lemma_answered(t, front, at);
        Seq::filter_distributes_over_add(out, more, p);
        lemma_goes_out(u, hs.last(), p);
        lemma_one_more(reply, events_heard(front), hs.last(), watch_id);
    }
}

/// What goes out, once the request has been answered, is what tells of a change, and signs of
/// progress.
proof fn lemma_goes_out(
    u: WatchTalkView,
    h: HeardView,
    p: spec_fn(WatchResponseView) -> bool,
)
    requires
        u.answered,
        !(h is Reply),
        p == (|r: WatchResponseView| says_something(r)),
    ensures
        talked(u, h).1.filter(p) == match h {
            HeardView::Event(e) => seq![event_response_of(e, u.watch_id)],
            _ => Seq::empty(),
        },
{
    reveal(Seq::filter);
    let more = talked(u, h).1;
    if more.len() > 0 {
        assert(more.drop_last() =~= Seq::empty());
        assert(more.drop_last().filter(p) =~= Seq::empty());
        assert(more.filter(p) =~= if p(more.last()) {
            seq![more.last()]
        } else {
            Seq::empty()
        });
    } else {
        assert(more.filter(p) =~= Seq::empty());
    }
}

/// The responses to changes with one more change.
proof fn lemma_one_more(
    reply: WatchResponseView,
    es: Seq<WatchEventView>,
    h: HeardView,
    watch_id: i64,
)
    ensures
        ({
            let more = match h {
                HeardView::Event(e) => seq![event_response_of(e, watch_id)],
                _ => Seq::empty(),
            };
            let all = match h {
                HeardView::Event(e) => es.push(e),
                _ => es,
            };
            (seq![reply] + event_responses(es, watch_id)) + more == seq![reply]
                + event_responses(all, watch_id)
        }),
{
    match h {
        HeardView::Event(e) => {
            let f = |e: WatchEventView| event_response_of(e, watch_id);
            assert(es.push(e).map_values(f) =~= es.map_values(f).push(f(e)));
            assert((seq![reply] + event_responses(es, watch_id)) + seq![f(e)] =~= seq![reply]
                + event_responses(es.push(e), watch_id));
        },
        _ => {
            assert((seq![reply] + event_responses(es, watch_id))
                + Seq::<WatchResponseView>::empty() =~= seq![reply] + event_responses(
                es,
                watch_id,
            ));
        },
    }
}

/// Until the answer, changes are held back, and nothing goes out.
proof fn lemma_held_back(t: WatchTalkView, hs: Seq<HeardView>)
    requires
        !t.answered,
        t.held.len() == 0,
        forall|i: int| 0 <= i < hs.len() ==> !(#[trigger] hs[i] is Reply),
    ensures
        talked_all(t, hs).1 == Seq::<WatchResponseView>::empty(),
        talked_all(t, hs).0 == (WatchTalkView { held: events_heard(hs), ..t }),
    decreases hs.len(),
{
    if hs.len() > 0 {
        let front = hs.drop_last();
        assert(hs[hs.len() - 1] == hs.last());
        assert forall|i: int| 0 <= i < front.len() implies !(#[trigger] front[i] is Reply) by {
            assert(front[i] == hs[i]);
        }
        lemma_held_back(t, front);
        assert(talked_all(t, hs).1 =~= Seq::<WatchResponseView>::empty());
    } else {
        assert(talked_all(t, hs).0 =~= WatchTalkView { held: events_heard(hs), ..t });
    }
}

/// Once a watch has been answered it stays so, under its id.
proof fn lemma_answered(t: WatchTalkView, hs: Seq<HeardView>, at: int)
    requires
        0 <= at < hs.len(),
        hs[at] matches HeardView::Reply(r) && r.created,
    ensures
        talked_all(t, hs).0.answered,
        talked_all(t, hs).0.watch_id == t.watch_id,
    decreases hs.len(),
{
    let front = hs.drop_last();
    lemma_keeps_id(t, front);
    if at < front.len() {
        assert(front[at] == hs[at]);
        lemma_answered(t, front, at);
    } else {
        assert(hs.last() == hs[at]);
    }
}

proof fn lemma_keeps_id(t: WatchTalkView, hs: Seq<HeardView>)
    ensures
        talked_all(t, hs).0.watch_id == t.watch_id,
    decreases hs.len(),
{
    if hs.len() > 0 {
        lemma_keeps_id(t, hs.drop_last());
    }
}

/// A filter keeps all of what it lets through.
proof fn lemma_all_say_something(
    s: Seq<WatchResponseView>,
    p: spec_fn(WatchResponseView) -> bool,
)
    requires
        forall|i: int| 0 <= i < s.len() ==> p(#[trigger] s[i]),
    ensures
        s.filter(p) == s,
    decreases s.len(),
{
    reveal(Seq::filter);
    if s.len() > 0 {
        let front = s.drop_last();
        assert forall|i: int| 0 <= i < front.len() implies p(#[trigger] front[i]) by {
            assert(front[i] == s[i]);
        }
        lemma_all_say_something(front, p);
        assert(p(s[s.len() - 1]));
        assert(s =~= front.push(s.last()));
    } else {
        assert(s.filter(p) =~= s);
    }
}

} // verus!
