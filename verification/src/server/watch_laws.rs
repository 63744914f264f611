//! What a watch promises in full: which changes of the past it is told of, what a response says,
//! who is refused, and what stays when a watch is cancelled.

use crate::server::laws::{history_told, lemma_filter_keeps_all, lemma_filter_map, lemma_filtered};
use crate::server::watch::{
    accepted, cancelled_response, created_response, event_response_of, id_taken, past_delivery,
    plain_response, record_event, refusal, refusals, refused_response, swap_removed, talked,
    told_past, triaged, with_watchers, without_taken, HeardView, WatchContextView, WatchReplyView,
    WatchResponseView, WatchTalkView,
};
use crate::storage::event_laws::{bounds_true, lemma_filter_map_filter};
use crate::storage::meaning::{asked_for, lemma_asked_for};
use crate::storage::range::{covers, resolved_range};
use crate::storage::state::{EventType, StoreView, WatchEventView, WatchRegistrationView};
use crate::storage::wal::KvWalRecordView;
use crate::storage::watcher::with_cancelled;
use crate::text::decimal_text;
use vstd::prelude::*;

verus! {

// ── What is told of the past ──────────────────────────────────────

/// The watches, in their order, that ask for a change of a key: from its revision or an earlier
/// one on, and without holding back changes of its kind.
pub open spec fn asking(
    cs: Seq<WatchContextView>,
    key: Seq<u8>,
    rev: u64,
    kind: i32,
) -> Seq<WatchContextView> {
    cs.filter(
        |c: WatchContextView|
            asked_for(c.key, c.range_end, key) && c.start_revision <= rev && !c.filters.contains(
                kind,
            ),
    )
}

/// The last of some records that is about a key, if any is.
pub open spec fn last_about(recs: Seq<KvWalRecordView>, k: Seq<u8>) -> Option<KvWalRecordView>
    decreases recs.len(),
{
    if recs.len() == 0 {
        None
    } else if recs.last().key() == Some(k) {
        Some(recs.last())
    } else {
        last_about(recs.drop_last(), k)
    }
}

/// The message with which records leave a key: that of the last one about it, unless it deletes
/// the key; none if there is no such record.
pub open spec fn left_with(recs: Seq<KvWalRecordView>, k: Seq<u8>) -> Option<Seq<u8>> {
    match last_about(recs, k) {
        Some(r) if r.flags & 0x01 == 0 => Some(r.kv_bytes),
        _ => None,
    }
}

proof fn lemma_left_with(cs: Seq<WatchContextView>, recs: Seq<KvWalRecordView>, k: Seq<u8>)
    ensures
        ({
            let m = history_told(cs, recs).0;
            &&& m.contains_key(k) == (left_with(recs, k) is Some)
            &&& m.contains_key(k) ==> m[k] == left_with(recs, k)->0
        }),
    decreases recs.len(),
{
    if recs.len() > 0 {
        lemma_left_with(cs, recs.drop_last(), k);
    }
}

/// Each record of a log is told to the watches that ask for the change, once to each and in their
/// order, and to no others, behind what the records before it had to tell: the key, the revision,
/// whether it was put or deleted, the message of the record, and the message with which the records
/// before it left the key, none if it was not there. A record whose key cannot be read is told to
/// nobody.
pub proof fn law_history_is_told(cs: Seq<WatchContextView>, recs: Seq<KvWalRecordView>)
    requires
        recs.len() > 0,
    ensures
        ({
            let rec = recs.last();
            let front = recs.drop_last();
            let out = history_told(cs, recs).1;
            let before = history_told(cs, front).1;
            let n = before.len();
            let kind: i32 = if rec.flags & 0x01 != 0 {
                1
            } else {
                0
            };
            &&& front.len() == 0 ==> before.len() == 0
            &&& n <= out.len()
            &&& out.take(n as int) == before
            &&& rec.key() is None ==> out.len() == n
            &&& rec.key() matches Some(k) ==> {
                let ws = asking(cs, k, rec.revision(), kind);
                &&& out.len() == n + ws.len()
                &&& forall|i: int|
                    0 <= i < ws.len() ==> {
                        let d = #[trigger] out[n + i];
                        &&& d.sender == ws[i].sender
                        &&& d.event.key == k
                        &&& d.event.revision == rec.revision()
                        &&& (d.event.event_type == EventType::Delete) == (kind == 1)
                        &&& (d.event.event_type == EventType::Put) == (kind == 0)
                        &&& d.event.kv_bytes == rec.kv_bytes
                        &&& left_with(front, k) matches Some(b) ==> d.event.prev_kv_bytes == b
                        &&& left_with(front, k) is None ==> d.event.prev_kv_bytes.len() == 0
                    }
            }
        }),
{
    let rec = recs.last();
    let front = recs.drop_last();
    let (m, before) = history_told(cs, front);
    let out = history_told(cs, recs).1;
    if let Some(k) = rec.key() {
        let e = record_event(m, k, rec);
        let kind = e.event_type.number();
        let f = |c: WatchContextView| past_delivery(c, e);
        let p = |c: WatchContextView|
            asked_for(c.key, c.range_end, k) && c.start_revision <= e.revision
                && !c.filters.contains(kind);
        lemma_left_with(cs, front, k);
        assert forall|i: int| 0 <= i < cs.len() implies f(#[trigger] cs[i]) is Some == p(cs[i]) by {
            lemma_asked_for(cs[i].key, cs[i].range_end);
            assert(covers(resolved_range(cs[i].key, cs[i].range_end), k) == asked_for(
                cs[i].key,
                cs[i].range_end,
                k,
            ));
        }
        lemma_filter_map_filter(cs, f, p);
        let ds = told_past(cs, e);
        let ws = asking(cs, k, rec.revision(), kind);
        assert(ds == cs.filter_map(f));
        assert(ws == cs.filter(p));
        assert(out == before + ds);
        assert forall|i: int| 0 <= i < ws.len() implies #[trigger] out[before.len() + i]
            == ds[i] && f(ws[i]) == Some(ds[i]) by {}
    }
    assert(out.take(before.len() as int) =~= before);
}

// ── What is sent ──────────────────────────────────────────────────

/// The response that tells of a change says so under the id of the watch, at the revision of the
/// change: whether the key was put or deleted, the message of the change, and that of what was
/// there before. It says nothing else.
pub proof fn law_response_tells_the_change(e: WatchEventView, watch_id: i64)
    ensures
        ({
            let r = event_response_of(e, watch_id);
            &&& r.watch_id == watch_id
            &&& r.header.revision == e.revision as i64
            &&& r.events.len() == 1
            &&& r.events[0].event_type == (if e.event_type == EventType::Put {
                0i32
            } else {
                1i32
            })
            &&& r.events[0].kv == e.kv_bytes
            &&& r.events[0].prev_kv == e.prev_kv_bytes
            &&& !r.created
            &&& !r.canceled
            &&& !r.fragment
            &&& r.compact_revision == 0
            &&& r.cancel_reason == ""@
        }),
{
}

/// The responses that tell of no change: a sign of progress says nothing but the revision; that to
/// a watch which has been created says so, and that to one which has been cancelled says that; each
/// under the id of the watch.
pub proof fn law_responses_without_changes(revision: i64, watch_id: i64)
    ensures
        ({
            let progress = plain_response(revision, watch_id);
            let created = created_response(revision, watch_id);
            let cancelled = cancelled_response(revision, watch_id);
            &&& !progress.created && !progress.canceled
            &&& created.created && !created.canceled
            &&& !cancelled.created && cancelled.canceled
            &&& forall|r: WatchResponseView|
                (r == progress || r == created || r == cancelled) ==> #[trigger] r.watch_id
                    == watch_id && r.header.revision == revision && r.events.len() == 0
                    && r.compact_revision == 0 && r.cancel_reason == ""@ && !r.fragment
        }),
{
}

/// What goes out to a watcher upon what is heard for it. A change goes out at once if the watcher
/// has been answered, and else is held back behind those held back before. The answer that the
/// watch has been created goes out with all that was held back behind it, in its order. Another
/// answer goes out alone. A sign of progress goes out to a watcher that has been answered and asked
/// for such signs, and to no other; it tells of no change.
pub proof fn law_talk_goes_on(t: WatchTalkView, h: HeardView)
    ensures
        ({
            let (u, out) = talked(t, h);
            &&& u.watch_id == t.watch_id
            &&& u.progress_notify == t.progress_notify
            &&& match h {
                HeardView::Event(e) => {
                    &&& u.answered == t.answered
                    &&& t.answered ==> u.held == t.held && out.len() == 1 && out[0].events.len()
                        == 1 && out[0].events[0].kv == e.kv_bytes && out[0].watch_id == t.watch_id
                        && out[0].header.revision == e.revision as i64
                    &&& !t.answered ==> out.len() == 0 && u.held == t.held.push(e)
                },
                HeardView::Reply(r) => {
                    &&& out.len() > 0
                    &&& out[0] == r
                    &&& !r.created ==> u == t && out.len() == 1
                    &&& r.created ==> u.answered && u.held.len() == 0 && out.len() == 1
                        + t.held.len()
                    &&& r.created ==> forall|i: int|
                        0 <= i < t.held.len() ==> {
                            let x = #[trigger] out[i + 1];
                            &&& x.watch_id == t.watch_id
                            &&& x.header.revision == t.held[i].revision as i64
                            &&& x.events.len() == 1
                            &&& x.events[0].kv == t.held[i].kv_bytes
                            &&& x.events[0].prev_kv == t.held[i].prev_kv_bytes
                        }
                },
                HeardView::Tick(rev) => {
                    &&& u == t
                    &&& !(t.answered && t.progress_notify) ==> out.len() == 0
                    &&& t.answered && t.progress_notify ==> out.len() == 1 && out[0].watch_id
                        == t.watch_id && out[0].header.revision == rev && out[0].events.len() == 0
                        && !out[0].created && !out[0].canceled
                },
            }
        }),
{
}

// ── Who is refused, and who stays ─────────────────────────────────

/// A watch is refused for its revision if and only if that has been given up, or lies more than
/// ten thousand ahead. It is told so, that it is cancelled, under no id, and, if its revision has
/// been given up, from which on revisions are to be had.
pub proof fn law_watch_is_refused_for_its_revision(s: StoreView, c: WatchContextView)
    requires
        0 < s.next_rev,
    ensures
        ({
            let given_up = 0 < c.start_revision < s.compact_rev;
            let ahead = c.start_revision > s.next_rev - 1 + 10_000;
            &&& refusal(s, c) is Some == (given_up || ahead)
            &&& refusal(s, c) matches Some(r) ==> {
                &&& r.canceled
                &&& !r.created
                &&& r.watch_id == -1
                &&& r.events.len() == 0
                &&& r.header.revision == (s.next_rev - 1) as i64
                &&& given_up ==> r.compact_revision == s.compact_rev as i64 && r.cancel_reason
                    == "compacted"@
                &&& !given_up ==> r.compact_revision == 0 && r.cancel_reason
                    == "too large resource version: "@ + decimal_text(c.start_revision as nat)
                    + ", current: "@ + decimal_text((s.next_rev - 1) as nat)
            }
        }),
{
}

/// Of a list from which those with taken ids have been taken out: what stays, and the answers.
proof fn lemma_taken_out(
    s: StoreView,
    all: Seq<WatchContextView>,
    cs: Seq<WatchContextView>,
    replies: Seq<WatchReplyView>,
    n: nat,
)
    requires
        n <= cs.len() <= all.len(),
        forall|i: int| 0 <= i < n ==> #[trigger] cs[i] == all[i],
        forall|i: int| 0 <= i < cs.len() ==> all.contains(#[trigger] cs[i]),
    ensures
        ({
            let (rest, answers) = without_taken(s, all, cs, replies, n);
            &&& forall|i: int| 0 <= i < rest.len() ==> all.contains(#[trigger] rest[i])
            &&& forall|i: int| n <= i < cs.len() ==> rest.contains(#[trigger] cs[i])
            &&& forall|i: int|
                0 <= i < n && !id_taken(s, all, i) ==> rest.contains(#[trigger] all[i])
            &&& replies.len() <= answers.len()
            &&& answers.take(replies.len() as int) == replies
            &&& forall|i: int|
                0 <= i < n && id_taken(s, all, i) ==> exists|j: int|
                    replies.len() <= j < answers.len() && (#[trigger] answers[j]).sender == (
                    #[trigger] all[i]).sender
            &&& forall|j: int|
                replies.len() <= j < answers.len() ==> {
                    let r = (#[trigger] answers[j]).response;
                    &&& r.canceled
                    &&& !r.created
                    &&& r.watch_id == -1
                    &&& r.events.len() == 0
                    &&& r.cancel_reason == "duplicate watch_id"@
                }
        }),
    decreases n,
{
    let (rest, answers) = without_taken(s, all, cs, replies, n);
    if n == 0 {
        assert(answers.take(replies.len() as int) =~= replies);
        assert forall|i: int| n <= i < cs.len() implies rest.contains(#[trigger] cs[i]) by {}
    } else {
        let i = n - 1;
        if id_taken(s, all, i) {
            let next = swap_removed(cs, i);
            let more = without_taken(s, all, cs, replies, n).1;
            let answer = WatchReplyView {
                sender: cs[i].sender,
                response: refused_response(
                    s.revision() as i64,
                    0,
                    "duplicate watch_id"@,
                ),
            };
            let answered = replies.push(answer);
            assert forall|j: int| 0 <= j < next.len() implies all.contains(
                #[trigger] next[j],
            ) by {
                if j == i {
                    assert(next[j] == cs[cs.len() - 1]);
                } else {
                    assert(next[j] == cs[j]);
                }
            }
            assert forall|j: int| 0 <= j < i implies #[trigger] next[j] == all[j] by {
                assert(next[j] == cs[j]);
            }
            lemma_taken_out(s, all, next, answered, i as nat);
            assert forall|j: int| n <= j < cs.len() implies rest.contains(#[trigger] cs[j]) by {
                if j == cs.len() - 1 {
                    assert(next[i as int] == cs[j]);
                } else {
                    assert(next[j] == cs[j]);
                }
            }
            assert(answers[replies.len() as int].sender == all[i as int].sender) by {
                assert(answers.take(answered.len() as int)[replies.len() as int]
                    == answered[replies.len() as int]);
                assert(cs[i as int] == all[i as int]);
            }
            assert forall|x: int| 0 <= x < n && id_taken(s, all, x) implies exists|j: int|
                replies.len() <= j < answers.len() && (#[trigger] answers[j]).sender == (
                #[trigger] all[x]).sender by {
                if x < i {
                    let j = choose|j: int|
                        answered.len() <= j < answers.len() && (#[trigger] answers[j]).sender
                            == all[x].sender;
                    assert(answers[j].sender == all[x].sender);
                }
            }
            assert(answers.take(replies.len() as int) =~= replies) by {
                assert forall|j: int| 0 <= j < replies.len() implies answers[j] == replies[j] by {
                    assert(answers.take(answered.len() as int)[j] == answered[j]);
                }
            }
            assert forall|j: int| replies.len() <= j < answers.len() implies {
                let r = (#[trigger] answers[j]).response;
                &&& r.canceled
                &&& !r.created
                &&& r.watch_id == -1
                &&& r.events.len() == 0
                &&& r.cancel_reason == "duplicate watch_id"@
            } by {
                if j == replies.len() {
                    assert(answers.take(answered.len() as int)[j] == answered[j]);
                }
            }
        } else {
            lemma_taken_out(s, all, cs, replies, i as nat);
            assert(cs[i as int] == all[i as int]);
        }
    }
}

/// The place that an element has among those that a filter keeps: behind as many as it keeps of
/// those before it.
proof fn lemma_place<A>(s: Seq<A>, p: spec_fn(A) -> bool, i: int) -> (k: int)
    requires
        0 <= i < s.len(),
        p(s[i]),
    ensures
        k == s.take(i).filter(p).len(),
        0 <= k < s.filter(p).len(),
        s.filter(p)[k] == s[i],
        forall|j: int|
            0 <= j < k ==> exists|x: int| 0 <= x < i && s[x] == #[trigger] s.filter(p)[j],
{
    let front = s.take(i);
    let k = front.filter(p).len() as int;
    assert(s =~= s.take(i + 1) + s.skip(i + 1));
    assert(s.take(i + 1).drop_last() =~= front);
    Seq::filter_distributes_over_add(s.take(i + 1), s.skip(i + 1), p);
    reveal(Seq::filter);
    assert(s.take(i + 1).filter(p) == front.filter(p).push(s[i]));
    assert forall|j: int| 0 <= j < k implies exists|x: int|
        0 <= x < i && s[x] == #[trigger] s.filter(p)[j] by {
        assert(s.filter(p)[j] == front.filter(p)[j]);
        assert(front.filter(p).contains(front.filter(p)[j]));
        front.lemma_filter_contains_rev(p, front.filter(p)[j]);
        let x = choose|x: int| 0 <= x < front.len() && front[x] == front.filter(p)[j];
        assert(s[x] == s.filter(p)[j]);
    }
    k
}

/// Of two elements that a filter keeps, the one before the other stays so.
proof fn lemma_places_ascend<A>(s: Seq<A>, p: spec_fn(A) -> bool, h: int, i: int)
    requires
        0 <= h < i < s.len(),
        p(s[h]),
    ensures
        s.take(h).filter(p).len() < s.take(i).filter(p).len(),
    decreases i,
{
    reveal(Seq::filter);
    assert(s.take(i).drop_last() =~= s.take(i - 1));
    if h < i - 1 {
        lemma_places_ascend(s, p, h, i - 1);
    }
}

/// Whether the revision of a watch can be told of: it has not been given up, and does not lie more
/// than ten thousand ahead.
pub open spec fn can_be_told_from(s: StoreView, rev: u64) -> bool {
    !(0 < rev < s.compact_rev) && rev <= s.next_rev - 1 + 10_000
}

/// Who is taken on. Each that is taken on is one of those that asked. Each whose revision can be
/// told of, and whose id no watcher has and none before it that could be taken on, is taken on. Each
/// whose revision cannot be told of is answered so over its channel, and so is each whose id a
/// watcher has, or one before it. Each answer says that the watch is cancelled.
pub proof fn law_who_is_taken_on(s: StoreView, cs: Seq<WatchContextView>)
    requires
        0 < s.next_rev,
    ensures
        ({
            let (active, replies) = triaged(s, cs);
            &&& forall|i: int|
                0 <= i < active.len() ==> cs.contains(#[trigger] active[i]) && can_be_told_from(
                    s,
                    active[i].start_revision,
                )
            &&& forall|i: int|
                0 <= i < cs.len() && can_be_told_from(s, (#[trigger] cs[i]).start_revision) && (
                forall|j: int|
                    0 <= j < s.watchers.len() ==> (#[trigger] s.watchers[j]).watch_id
                        != cs[i].watch_id) && (forall|j: int|
                    0 <= j < i && can_be_told_from(s, (#[trigger] cs[j]).start_revision)
                        ==> cs[j].watch_id != cs[i].watch_id) ==> active.contains(cs[i])
            &&& forall|i: int|
                0 <= i < cs.len() && !can_be_told_from(s, (#[trigger] cs[i]).start_revision)
                    ==> exists|j: int|
                    0 <= j < replies.len() && (#[trigger] replies[j]).sender == cs[i].sender
                        && replies[j].response.compact_revision == (if 0 < cs[i].start_revision
                        < s.compact_rev {
                        s.compact_rev as i64
                    } else {
                        0
                    })
            &&& forall|i: int, w: int|
                #![trigger cs[i], s.watchers[w]]
                0 <= i < cs.len() && 0 <= w < s.watchers.len() && s.watchers[w].watch_id
                    == cs[i].watch_id ==> exists|j: int|
                    0 <= j < replies.len() && (#[trigger] replies[j]).sender == cs[i].sender
            &&& forall|h: int, i: int|
                #![trigger cs[h], cs[i]]
                0 <= h < i < cs.len() && can_be_told_from(s, cs[h].start_revision)
                    && cs[h].watch_id == cs[i].watch_id ==> exists|j: int|
                    0 <= j < replies.len() && (#[trigger] replies[j]).sender == cs[i].sender
            &&& forall|j: int|
                0 <= j < replies.len() ==> {
                    let r = (#[trigger] replies[j]).response;
                    r.canceled && !r.created && r.watch_id == -1 && r.events.len() == 0
                }
        }),
{
    let all = accepted(s, cs);
    let first = refusals(s, cs);
    let (active, replies) = triaged(s, cs);
    let p = |c: WatchContextView| refusal(s, c) is None;
    let f = |c: WatchContextView|
        match refusal(s, c) {
            Some(response) => Some(WatchReplyView { sender: c.sender, response }),
            None => None::<WatchReplyView>,
        };
    assert(all == cs.filter(p));
    assert(first == cs.filter_map(f));
    assert forall|i: int| 0 <= i < all.len() implies all.contains(#[trigger] all[i]) by {}
    lemma_taken_out(s, all, all, first, all.len());
    lemma_filter_map(cs, f);
    lemma_filtered(cs, p);
    assert forall|i: int| 0 <= i < active.len() implies cs.contains(#[trigger] active[i])
        && can_be_told_from(s, active[i].start_revision) by {
        assert(all.contains(active[i]));
        cs.lemma_filter_contains_rev(p, active[i]);
        let k = choose|k: int| 0 <= k < all.len() && all[k] == active[i];
        assert(p(cs.filter(p)[k]));
        law_watch_is_refused_for_its_revision(s, active[i]);
    }
    assert forall|i: int|
        0 <= i < cs.len() && can_be_told_from(s, (#[trigger] cs[i]).start_revision) && (forall|j:
            int|
            0 <= j < s.watchers.len() ==> (#[trigger] s.watchers[j]).watch_id != cs[i].watch_id)
            && (forall|j: int|
            0 <= j < i && can_be_told_from(s, (#[trigger] cs[j]).start_revision)
                ==> cs[j].watch_id != cs[i].watch_id) implies active.contains(cs[i]) by {
        law_watch_is_refused_for_its_revision(s, cs[i]);
        assert(p(cs[i]));
        let k = lemma_place(cs, p, i);
        assert(!id_taken(s, all, k)) by {
            if exists|j: int| 0 <= j < k && (#[trigger] all[j]).watch_id == all[k].watch_id {
                let j = choose|j: int| 0 <= j < k && (#[trigger] all[j]).watch_id
                    == all[k].watch_id;
                let x = choose|x: int| 0 <= x < i && cs[x] == all[j];
                assert(p(cs.filter(p)[j]));
                law_watch_is_refused_for_its_revision(s, cs[x]);
                assert(cs[x].watch_id == cs[i].watch_id);
            }
        }
        assert(active.contains(all[k]));
    }
    assert forall|h: int, i: int|
        #![trigger cs[h], cs[i]]
        0 <= h < i < cs.len() && can_be_told_from(s, cs[h].start_revision) && cs[h].watch_id
            == cs[i].watch_id implies exists|j: int|
        0 <= j < replies.len() && (#[trigger] replies[j]).sender == cs[i].sender by {
        law_watch_is_refused_for_its_revision(s, cs[i]);
        law_watch_is_refused_for_its_revision(s, cs[h]);
        if p(cs[i]) {
            let k = lemma_place(cs, p, i);
            let a = lemma_place(cs, p, h);
            lemma_places_ascend(cs, p, h, i);
            assert(a == cs.take(h).filter(p).len());
            assert(k == cs.take(i).filter(p).len());
            assert(all[a].watch_id == all[k].watch_id);
            assert(id_taken(s, all, k));
            let j = choose|j: int|
                first.len() <= j < replies.len() && (#[trigger] replies[j]).sender
                    == all[k].sender;
            assert(replies[j].sender == cs[i].sender);
        } else {
            let answer = WatchReplyView { sender: cs[i].sender, response: refusal(s, cs[i])->0 };
            assert(f(cs[i]) == Some(answer));
            assert(first.contains(answer));
            let j = choose|j: int| 0 <= j < first.len() && first[j] == answer;
            assert(replies.take(first.len() as int)[j] == first[j]);
            assert(replies[j].sender == cs[i].sender);
        }
    }
    assert forall|i: int|
        0 <= i < cs.len() && !can_be_told_from(
            s,
            (#[trigger] cs[i]).start_revision,
        ) implies exists|j: int|
        0 <= j < replies.len() && (#[trigger] replies[j]).sender == cs[i].sender
            && replies[j].response.compact_revision == (if 0 < cs[i].start_revision
            < s.compact_rev {
            s.compact_rev as i64
        } else {
            0
        }) by {
        law_watch_is_refused_for_its_revision(s, cs[i]);
        let answer = WatchReplyView { sender: cs[i].sender, response: refusal(s, cs[i])->0 };
        assert(f(cs[i]) == Some(answer));
        assert(first.contains(answer));
        let j = choose|j: int| 0 <= j < first.len() && first[j] == answer;
        assert(replies.take(first.len() as int)[j] == first[j]);
        assert(replies[j] == answer);
    }
    assert forall|i: int, w: int|
        #![trigger cs[i], s.watchers[w]]
        0 <= i < cs.len() && 0 <= w < s.watchers.len() && s.watchers[w].watch_id
            == cs[i].watch_id implies exists|j: int|
        0 <= j < replies.len() && (#[trigger] replies[j]).sender == cs[i].sender by {
        if p(cs[i]) {
            cs.lemma_filter_contains(p, i);
            let n = choose|n: int| 0 <= n < all.len() && all[n] == cs[i];
            assert(id_taken(s, all, n));
            let j = choose|j: int|
                first.len() <= j < replies.len() && (#[trigger] replies[j]).sender
                    == all[n].sender;
            assert(replies[j].sender == cs[i].sender);
        } else {
            law_watch_is_refused_for_its_revision(s, cs[i]);
            assert(!can_be_told_from(s, cs[i].start_revision));
        }
    }
    assert forall|j: int| 0 <= j < replies.len() implies {
        let r = (#[trigger] replies[j]).response;
        r.canceled && !r.created && r.watch_id == -1 && r.events.len() == 0
    } by {
        if j < first.len() {
            assert(replies.take(first.len() as int)[j] == first[j]);
            assert(first.contains(first[j]));
            let i = choose|i: int| 0 <= i < cs.len() && f(#[trigger] cs[i]) == Some(first[j]);
            law_watch_is_refused_for_its_revision(s, cs[i]);
        }
    }
}

/// A watch that is taken on becomes a watcher of what it asked for: of its keys, from its revision
/// on, under its id and with its filters, told over its channel, with what was there before if it
/// asked for that. It stands behind the others, in its order; nothing else changes but the count.
pub proof fn law_watch_becomes_a_watcher(s: StoreView, cs: Seq<WatchContextView>)
    requires
        bounds_true(s.watchers),
        s.watcher_count + cs.len() <= u64::MAX,
    ensures
        ({
            let t = with_watchers(s, cs);
            let n = s.watchers.len();
            &&& t.watchers.len() == n + cs.len()
            &&& t.watchers.take(n as int) == s.watchers
            &&& forall|i: int|
                0 <= i < cs.len() ==> {
                    let w = #[trigger] t.watchers[n + i];
                    &&& w.key == cs[i].key
                    &&& w.range_end == cs[i].range_end
                    &&& w.start_revision == cs[i].start_revision
                    &&& w.sender == cs[i].sender
                    &&& w.watch_id == cs[i].watch_id
                    &&& w.progress_notify == cs[i].progress_notify
                    &&& w.filters == cs[i].filters
                    &&& w.prev_kv == cs[i].prev_kv
                }
            &&& bounds_true(t.watchers)
            &&& t.watcher_count == s.watcher_count + cs.len()
            &&& t == (StoreView { watchers: t.watchers, watcher_count: t.watcher_count, ..s })
        }),
    decreases cs.len(),
{
    let t = with_watchers(s, cs);
    if cs.len() == 0 {
        assert(t.watchers.take(s.watchers.len() as int) =~= s.watchers);
    } else {
        let front = cs.drop_last();
        law_watch_becomes_a_watcher(s, front);
        let u = with_watchers(s, front);
        let n = s.watchers.len();
        assert(t.watchers.take(n as int) =~= u.watchers.take(n as int));
        assert forall|i: int| 0 <= i < front.len() implies #[trigger] t.watchers[n + i]
            == u.watchers[n + i] by {}
        assert(cs[cs.len() - 1] == cs.last());
        assert(t.watchers[(n + front.len()) as int] == cs.last().registration());
        assert forall|i: int| 0 <= i < t.watchers.len() implies (#[trigger] t.watchers[i]).bound
            == resolved_range(t.watchers[i].key, t.watchers[i].range_end) by {
            if i < u.watchers.len() {
                assert(t.watchers[i] == u.watchers[i]);
            }
        }
    }
}

/// A cancellation takes out the watchers of the id and leaves the others, in their order. Nothing
/// else changes but the count.
pub proof fn law_cancellation_leaves_the_others(s: StoreView, watch_id: i64)
    ensures
        ({
            let t = with_cancelled(s, watch_id);
            &&& t.watchers == s.watchers.filter(
                |w: WatchRegistrationView| w.watch_id != watch_id,
            )
            &&& t == (StoreView { watchers: t.watchers, watcher_count: t.watcher_count, ..s })
            &&& t.watchers.len() < s.watchers.len() && s.watcher_count > 0 ==> t.watcher_count
                == s.watcher_count - 1
            &&& t.watchers.len() == s.watchers.len() ==> t == s
        }),
{
    let p = |w: WatchRegistrationView| w.watch_id != watch_id;
    lemma_filtered(s.watchers, p);
    if s.watchers.filter(p).len() == s.watchers.len() {
        lemma_filter_keeps_all(s.watchers, p);
    }
}

} // verus!
