//! Watches: which are accepted, what they are told of the past, and what they are answered.

use crate::bytes::copy_bytes;
use crate::sorted_map::SortedMap;
use crate::storage::lease::next_id;
use crate::storage::log::{from_offset, record_views, scan_kv, scan_records};
use crate::storage::range::{
    covers, matches_range, resolve_range, resolved_range, RangeBound, RangeBoundView,
};
use crate::storage::state::{
    current_revision, delivery_views, header_at, make_header, Delivery, DeliveryView, EventType,
    ResponseHeader, StoreView, WatchEvent, WatchEventView, WatchRegistration, WatchRegistrationView,
};
use crate::storage::store::Store;
use crate::storage::wal::{KvWalRecord, KvWalRecordView};
use crate::storage::watcher::{passes_filters, should_send_event, with_watcher};
use crate::text::{decimal, decimal_text};
use vstd::prelude::*;
use vstd::string::StringExecFns;

verus! {

// ── What watchers are sent ────────────────────────────────────────

/// What an event message says.
#[verifier::ext_equal]
pub struct EventView {
    pub event_type: i32,
    pub kv: Seq<u8>,
    pub prev_kv: Seq<u8>,
}

/// A change as it is sent.
#[derive(Debug)]
pub struct Event {
    pub event_type: i32,
    pub kv: Vec<u8>,
    pub prev_kv: Vec<u8>,
}

impl View for Event {
    type V = EventView;

    open spec fn view(&self) -> EventView {
        EventView { event_type: self.event_type, kv: self.kv@, prev_kv: self.prev_kv@ }
    }
}

/// A change as it is sent.
pub open spec fn event_message(e: WatchEventView) -> EventView {
    EventView { event_type: e.event_type.number(), kv: e.kv_bytes, prev_kv: e.prev_kv_bytes }
}

/// A change as it is sent.
pub fn event_to_proto(event: &WatchEvent) -> (r: Event)
    ensures
        r@ == event_message(event@),
{
    Event {
        event_type: event.event_type.to_number(),
        kv: copy_bytes(&event.kv_bytes),
        prev_kv: copy_bytes(&event.prev_kv_bytes),
    }
}

/// What a watch response says.
#[verifier::ext_equal]
pub struct WatchResponseView {
    pub header: ResponseHeader,
    pub watch_id: i64,
    pub created: bool,
    pub canceled: bool,
    pub compact_revision: i64,
    pub cancel_reason: Seq<char>,
    pub events: Seq<EventView>,
    pub fragment: bool,
}

/// What a watcher is sent.
#[derive(Debug)]
pub struct WatchResponse {
    pub header: ResponseHeader,
    pub watch_id: i64,
    pub created: bool,
    pub canceled: bool,
    pub compact_revision: i64,
    pub cancel_reason: String,
    pub events: Vec<Event>,
    pub fragment: bool,
}

impl View for WatchResponse {
    type V = WatchResponseView;

    open spec fn view(&self) -> WatchResponseView {
        WatchResponseView {
            header: self.header,
            watch_id: self.watch_id,
            created: self.created,
            canceled: self.canceled,
            compact_revision: self.compact_revision,
            cancel_reason: self.cancel_reason@,
            events: self.events@.map_values(|e: Event| e@),
            fragment: self.fragment,
        }
    }
}

/// A response without events that says nothing else.
pub open spec fn plain_response(revision: i64, watch_id: i64) -> WatchResponseView {
    WatchResponseView {
        header: header_at(revision),
        watch_id,
        created: false,
        canceled: false,
        compact_revision: 0,
        cancel_reason: ""@,
        events: Seq::empty(),
        fragment: false,
    }
}

/// A response without events: a sign that the watcher has heard of everything up to a revision.
pub fn progress_response(revision: i64, watch_id: i64) -> (r: WatchResponse)
    ensures
        r@ == plain_response(revision, watch_id),
{
    let r = WatchResponse {
        header: make_header(revision),
        watch_id,
        created: false,
        canceled: false,
        compact_revision: 0,
        cancel_reason: "".to_owned(),
        events: Vec::new(),
        fragment: false,
    };
    assert(r@ =~= plain_response(revision, watch_id));
    r
}

/// The response that tells of one change.
pub open spec fn event_response_of(e: WatchEventView, watch_id: i64) -> WatchResponseView {
    WatchResponseView {
        events: seq![event_message(e)],
        ..plain_response(e.revision as i64, watch_id)
    }
}

/// The response that tells of one change.
pub fn event_response(event: &WatchEvent, watch_id: i64) -> (r: WatchResponse)
    ensures
        r@ == event_response_of(event@, watch_id),
{
    let mut r = progress_response(event.revision as i64, watch_id);
    r.events.push(event_to_proto(event));
    assert(r@ =~= event_response_of(event@, watch_id));
    r
}

/// The response to a cancellation that was asked for.
pub open spec fn cancelled_response(revision: i64, watch_id: i64) -> WatchResponseView {
    WatchResponseView { canceled: true, ..plain_response(revision, watch_id) }
}

/// The response to a cancellation that was asked for.
pub fn cancel_response(revision: i64, watch_id: i64) -> (r: WatchResponse)
    ensures
        r@ == cancelled_response(revision, watch_id),
{
    let mut r = progress_response(revision, watch_id);
    r.canceled = true;
    r
}

/// The response to a watch that has been created.
pub open spec fn created_response(revision: i64, watch_id: i64) -> WatchResponseView {
    WatchResponseView { created: true, ..plain_response(revision, watch_id) }
}

/// The response to a watch that is refused.
pub open spec fn refused_response(
    revision: i64,
    compact_revision: i64,
    reason: Seq<char>,
) -> WatchResponseView {
    WatchResponseView {
        canceled: true,
        compact_revision,
        cancel_reason: reason,
        ..plain_response(revision, (-1) as i64)
    }
}

fn refuse(revision: i64, compact_revision: i64, reason: String) -> (r: WatchResponse)
    ensures
        r@ == refused_response(revision, compact_revision, reason@),
{
    let mut r = progress_response(revision, -1);
    r.canceled = true;
    r.compact_revision = compact_revision;
    r.cancel_reason = reason;
    r
}

// ── What goes out to one watcher ──────────────────────────────────

/// What is heard for a watcher.
#[verifier::ext_equal]
pub enum HeardView {
    Reply(WatchResponseView),
    Event(WatchEventView),
    Tick(i64),
}

/// What is heard for a watcher: the answer to its request, a change, or that it is time for a
/// sign of progress, at a revision.
#[derive(Debug)]
pub enum Heard {
    Reply(WatchResponse),
    Event(WatchEvent),
    Tick(i64),
}

impl View for Heard {
    type V = HeardView;

    open spec fn view(&self) -> HeardView {
        match self {
            Heard::Reply(r) => HeardView::Reply(r@),
            Heard::Event(e) => HeardView::Event(e@),
            Heard::Tick(rev) => HeardView::Tick(*rev),
        }
    }
}

/// How far a watcher has been answered.
#[verifier::ext_equal]
pub struct WatchTalkView {
    pub watch_id: i64,
    pub progress_notify: bool,
    pub answered: bool,
    pub held: Seq<WatchEventView>,
}

/// What goes out to one watcher: whether its request has been answered, and the changes that are
/// held back until it is.
#[derive(Debug)]
pub struct WatchTalk {
    pub watch_id: i64,
    pub progress_notify: bool,
    pub answered: bool,
    pub held: Vec<WatchEvent>,
}

impl View for WatchTalk {
    type V = WatchTalkView;

    open spec fn view(&self) -> WatchTalkView {
        WatchTalkView {
            watch_id: self.watch_id,
            progress_notify: self.progress_notify,
            answered: self.answered,
            held: event_views(self.held@),
        }
    }
}

/// The views of changes.
pub open spec fn event_views(es: Seq<WatchEvent>) -> Seq<WatchEventView> {
    es.map_values(|e: WatchEvent| e@)
}

/// The views of responses.
pub open spec fn response_views(rs: Seq<WatchResponse>) -> Seq<WatchResponseView> {
    rs.map_values(|r: WatchResponse| r@)
}

/// The responses that tell of changes, one for each.
pub open spec fn event_responses(
    es: Seq<WatchEventView>,
    watch_id: i64,
) -> Seq<WatchResponseView> {
    es.map_values(|e: WatchEventView| event_response_of(e, watch_id))
}

/// What is known of a watcher after something was heard, and what goes out to it. Its request is
/// answered first; what happened before goes out behind the answer. One that is refused is told
/// nothing more.
pub open spec fn talked(t: WatchTalkView, h: HeardView) -> (WatchTalkView, Seq<WatchResponseView>) {
    match h {
        HeardView::Reply(r) => if r.created {
            (
                WatchTalkView { answered: true, held: Seq::empty(), ..t },
                seq![r] + event_responses(t.held, t.watch_id),
            )
        } else {
            (t, seq![r])
        },
        HeardView::Event(e) => if t.answered {
            (t, seq![event_response_of(e, t.watch_id)])
        } else {
            (WatchTalkView { held: t.held.push(e), ..t }, Seq::empty())
        },
        HeardView::Tick(rev) => (
            t,
            if t.answered && t.progress_notify {
                seq![plain_response(rev, t.watch_id)]
            } else {
                Seq::empty()
            },
        ),
    }
}

impl WatchTalk {
    /// A watcher whose request has not been answered.
    pub fn new(watch_id: i64, progress_notify: bool) -> (r: Self)
        ensures
            r@ == (WatchTalkView {
                watch_id,
                progress_notify,
                answered: false,
                held: Seq::empty(),
            }),
    {
        let r = WatchTalk { watch_id, progress_notify, answered: false, held: Vec::new() };
        assert(r@.held =~= Seq::empty());
        r
    }

    /// Takes in what was heard. Gives what goes out, in its order.
    pub fn hear(&mut self, heard: Heard) -> (out: Vec<WatchResponse>)
        ensures
            (final(self)@, response_views(out@)) == talked(old(self)@, heard@),
    {
        let ghost t = self@;
        let mut out: Vec<WatchResponse> = Vec::new();
        match heard {
            Heard::Reply(r) => {
                let created = r.created;
                out.push(r);
                assert(response_views(out@) =~= seq![r@]);
                if created {
                    let mut held: Vec<WatchEvent> = Vec::new();
                    std::mem::swap(&mut held, &mut self.held);
                    self.answered = true;
                    let ghost es = event_views(held@);
                    let mut i: usize = 0;
                    assert(response_views(out@) =~= seq![r@] + event_responses(
                        es.take(0),
                        self.watch_id,
                    ));
                    while i < held.len()
                        invariant
                            i <= held@.len(),
                            es == event_views(held@),
                            response_views(out@) == seq![r@] + event_responses(
                                es.take(i as int),
                                self.watch_id,
                            ),
                        decreases held@.len() - i,
                    {
                        let ghost before = out@;
                        let resp = event_response(&held[i], self.watch_id);
                        out.push(resp);
                        proof {
                            assert(es[i as int] == held@[i as int]@);
                            assert(response_views(out@) =~= response_views(before).push(resp@));
                            assert(response_views(out@) =~= seq![r@] + event_responses(
                                es.take(i + 1),
                                self.watch_id,
                            ));
                        }
                        i = i + 1;
                    }
                    proof {
                        assert(es.take(i as int) =~= es);
                        assert(self@ =~= talked(t, heard@).0);
                    }
                }
            },
            Heard::Event(e) => {
                if self.answered {
                    let resp = event_response(&e, self.watch_id);
                    out.push(resp);
                    assert(response_views(out@) =~= seq![resp@]);
                } else {
                    self.held.push(e);
                    assert(event_views(self.held@) =~= t.held.push(e@));
                    assert(response_views(out@) =~= Seq::empty());
                    assert(self@ =~= talked(t, heard@).0);
                }
            },
            Heard::Tick(rev) => {
                if self.answered && self.progress_notify {
                    let resp = progress_response(rev, self.watch_id);
                    out.push(resp);
                    assert(response_views(out@) =~= seq![resp@]);
                } else {
                    assert(response_views(out@) =~= Seq::empty());
                }
            },
        }
        out
    }
}

// ── Watches that are asked for ────────────────────────────────────

/// What a watch asks.
#[verifier::ext_equal]
pub struct WatchContextView {
    pub key: Seq<u8>,
    pub range_end: Seq<u8>,
    pub start_revision: u64,
    pub watch_id: i64,
    pub progress_notify: bool,
    pub filters: Seq<i32>,
    pub prev_kv: bool,
    pub sender: u64,
}

/// A watch that is asked for: the keys, from which revision on, under which id, and the channel
/// over which it is answered and told.
#[derive(Debug)]
pub struct WatchContext {
    pub key: Vec<u8>,
    pub range_end: Vec<u8>,
    pub start_revision: u64,
    pub watch_id: i64,
    pub progress_notify: bool,
    pub filters: Vec<i32>,
    pub prev_kv: bool,
    pub sender: u64,
}

impl View for WatchContext {
    type V = WatchContextView;

    open spec fn view(&self) -> WatchContextView {
        WatchContextView {
            key: self.key@,
            range_end: self.range_end@,
            start_revision: self.start_revision,
            watch_id: self.watch_id,
            progress_notify: self.progress_notify,
            filters: self.filters@,
            prev_kv: self.prev_kv,
            sender: self.sender,
        }
    }
}

impl WatchContextView {
    /// The keys that it asks for.
    pub open spec fn bound(self) -> RangeBoundView {
        resolved_range(self.key, self.range_end)
    }

    /// The watcher that it becomes.
    pub open spec fn registration(self) -> WatchRegistrationView {
        WatchRegistrationView {
            key: self.key,
            range_end: self.range_end,
            start_revision: self.start_revision,
            sender: self.sender,
            watch_id: self.watch_id,
            progress_notify: self.progress_notify,
            filters: self.filters,
            prev_kv: self.prev_kv,
            bound: self.bound(),
        }
    }
}

/// The views of watches.
pub open spec fn context_views(cs: Seq<WatchContext>) -> Seq<WatchContextView> {
    cs.map_values(|c: WatchContext| c@)
}

/// An answer and the channel that it goes to.
#[verifier::ext_equal]
pub struct WatchReplyView {
    pub sender: u64,
    pub response: WatchResponseView,
}

/// An answer to a watch that was asked for.
#[derive(Debug)]
pub struct WatchReply {
    pub sender: u64,
    pub response: WatchResponse,
}

impl View for WatchReply {
    type V = WatchReplyView;

    open spec fn view(&self) -> WatchReplyView {
        WatchReplyView { sender: self.sender, response: self.response@ }
    }
}

/// The views of answers.
pub open spec fn reply_views(rs: Seq<WatchReply>) -> Seq<WatchReplyView> {
    rs.map_values(|r: WatchReply| r@)
}

/// The id of a new watch: the one asked for, or the next one.
pub fn choose_watch_id(requested: i64, next_watch_id: &mut i64) -> (r: i64)
    ensures
        requested != 0 ==> r == requested && *final(next_watch_id) == *old(next_watch_id),
        requested == 0 ==> r == *old(next_watch_id) && *final(next_watch_id)
            == next_id(*old(next_watch_id)),
{
    if requested != 0 {
        requested
    } else {
        let id: i64 = *next_watch_id;
        *next_watch_id = id.wrapping_add(1);
        id
    }
}

/// A watch may ask for revisions this far ahead.
pub const MAX_GAP: u64 = 10_000;

/// Why a watch is refused that asks for a revision much too far ahead.
pub open spec fn too_large_text(start_revision: u64, revision: u64) -> Seq<char> {
    "too large resource version: "@ + decimal_text(start_revision as nat) + ", current: "@
        + decimal_text(revision as nat)
}

/// The answer to a watch that asks for a revision that is given up, or for one much too far
/// ahead; nothing for others.
pub open spec fn refusal(s: StoreView, c: WatchContextView) -> Option<WatchResponseView> {
    let revision = s.revision();
    if c.start_revision > 0 && c.start_revision < s.compact_rev {
        Some(refused_response(revision as i64, s.compact_rev as i64, "compacted"@))
    } else if c.start_revision > revision && c.start_revision - revision > MAX_GAP {
        Some(refused_response(revision as i64, 0, too_large_text(c.start_revision, revision)))
    } else {
        None
    }
}

/// The watches that are not refused for their revision.
pub open spec fn accepted(s: StoreView, cs: Seq<WatchContextView>) -> Seq<WatchContextView> {
    cs.filter(|c: WatchContextView| refusal(s, c) is None)
}

/// The answers to the watches that are refused for their revision.
pub open spec fn refusals(s: StoreView, cs: Seq<WatchContextView>) -> Seq<WatchReplyView> {
    cs.filter_map(
        |c: WatchContextView|
            match refusal(s, c) {
                Some(response) => Some(WatchReplyView { sender: c.sender, response }),
                None => None,
            },
    )
}

/// Whether the id of a watch is taken: by a watcher, or by a watch before it in the list.
pub open spec fn id_taken(s: StoreView, cs: Seq<WatchContextView>, i: int) -> bool {
    ||| exists|j: int| 0 <= j < s.watchers.len() && (#[trigger] s.watchers[j]).watch_id
        == cs[i].watch_id
    ||| exists|j: int| 0 <= j < i && (#[trigger] cs[j]).watch_id == cs[i].watch_id
}

/// A list without one of its elements, whose place the last one takes.
pub open spec fn swap_removed<T>(s: Seq<T>, i: int) -> Seq<T> {
    s.update(i, s.last()).drop_last()
}

/// Takes the watches whose ids are taken out of a list, from the `n`th backwards, and answers
/// them. The list `all` is the one by which ids are judged.
pub open spec fn without_taken(
    s: StoreView,
    all: Seq<WatchContextView>,
    cs: Seq<WatchContextView>,
    replies: Seq<WatchReplyView>,
    n: nat,
) -> (Seq<WatchContextView>, Seq<WatchReplyView>)
    decreases n,
{
    if n == 0 {
        (cs, replies)
    } else {
        let i = n - 1;
        if id_taken(s, all, i) {
            without_taken(
                s,
                all,
                swap_removed(cs, i),
                replies.push(
                    WatchReplyView {
                        sender: cs[i].sender,
                        response: refused_response(
                            s.revision() as i64,
                            0,
                            "duplicate watch_id"@,
                        ),
                    },
                ),
                i as nat,
            )
        } else {
            without_taken(s, all, cs, replies, i as nat)
        }
    }
}

/// What becomes of watches that are asked for: those that are taken on, and the answers to the
/// others.
pub open spec fn triaged(s: StoreView, cs: Seq<WatchContextView>) -> (
    Seq<WatchContextView>,
    Seq<WatchReplyView>,
) {
    let active = accepted(s, cs);
    without_taken(s, active, active, refusals(s, cs), active.len())
}

/// What becomes of watches that are asked for.
#[derive(Debug)]
pub struct Triage {
    pub active: Vec<WatchContext>,
    pub replies: Vec<WatchReply>,
}

fn too_large_reason(start_revision: u64, revision: u64) -> (r: String)
    ensures
        r@ == too_large_text(start_revision, revision),
{
    let mut text = "too large resource version: ".to_owned();
    text.append(decimal(start_revision).as_str());
    text.append(", current: ");
    text.append(decimal(revision).as_str());
    text
}

/// The answer to a watch that is refused for its revision; nothing for others.
fn check_revision(store: &Store, c: &WatchContext) -> (r: Option<WatchResponse>)
    ensures
        match r {
            Some(resp) => refusal(store@, c@) == Some(resp@),
            None => refusal(store@, c@) is None,
        },
{
    let compact_rev: u64 = store.state.compact_rev;
    let revision: u64 = current_revision(store.state.next_rev);
    if c.start_revision > 0 && c.start_revision < compact_rev {
        return Some(refuse(revision as i64, compact_rev as i64, "compacted".to_owned()));
    }
    if c.start_revision > revision && c.start_revision - revision > MAX_GAP {
        return Some(refuse(revision as i64, 0, too_large_reason(c.start_revision, revision)));
    }
    None
}

/// Whether the id of a watch is taken.
fn is_id_taken(store: &Store, cs: &Vec<WatchContext>, i: usize) -> (r: bool)
    requires
        i < cs@.len(),
    ensures
        r == id_taken(store@, context_views(cs@), i as int),
{
    let id: i64 = cs[i].watch_id;
    let ghost ws = store@.watchers;
    let ghost vs = context_views(cs@);
    let mut j: usize = 0;
    while j < store.state.watchers.len()
        invariant
            j <= store.state.watchers@.len(),
            ws == store@.watchers,
            ws.len() == store.state.watchers@.len(),
            forall|k: int| 0 <= k < j ==> (#[trigger] ws[k]).watch_id != id,
            vs == context_views(cs@),
            i < cs@.len(),
            id == vs[i as int].watch_id,
        decreases store.state.watchers@.len() - j,
    {
        if store.state.watchers[j].watch_id == id {
            assert(ws[j as int].watch_id == id);
            return true;
        }
        j = j + 1;
    }
    let mut j: usize = 0;
    while j < i
        invariant
            j <= i < cs@.len(),
            vs == context_views(cs@),
            id == vs[i as int].watch_id,
            forall|k: int| 0 <= k < j ==> (#[trigger] vs[k]).watch_id != id,
        decreases i - j,
    {
        if cs[j].watch_id == id {
            assert(vs[j as int].watch_id == id);
            return true;
        }
        j = j + 1;
    }
    false
}

/// Decides on watches that are asked for: refuses those for revisions that are given up or much
/// too far ahead, and those whose ids are taken.
pub fn triage(store: &Store, batch: Vec<WatchContext>) -> (r: Triage)
    ensures
        (context_views(r.active@), reply_views(r.replies@)) == triaged(
            store@,
            context_views(batch@),
        ),
{
    let ghost s = store@;
    let ghost cs = context_views(batch@);
    let ghost ok = |c: WatchContextView| refusal(s, c) is None;
    let ghost answer = |c: WatchContextView|
        match refusal(s, c) {
            Some(response) => Some(WatchReplyView { sender: c.sender, response }),
            None => None::<WatchReplyView>,
        };
    let mut rest = batch;
    let mut active: Vec<WatchContext> = Vec::new();
    let mut replies: Vec<WatchReply> = Vec::new();
    let n: usize = rest.len();
    let mut i: usize = 0;
    proof {
        assert(cs.skip(0) =~= cs);
        assert(cs.take(0) =~= Seq::empty());
        reveal(Seq::filter);
        assert(context_views(active@) =~= cs.take(0).filter(ok));
        assert(reply_views(replies@) =~= cs.take(0).filter_map(answer));
    }
    while i < n
        invariant
            s == store@,
            ok == (|c: WatchContextView| refusal(s, c) is None),
            answer == (|c: WatchContextView|
                match refusal(s, c) {
                    Some(response) => Some(WatchReplyView { sender: c.sender, response }),
                    None => None::<WatchReplyView>,
                }),
            i <= n == cs.len(),
            context_views(rest@) == cs.skip(i as int),
            context_views(active@) == cs.take(i as int).filter(ok),
            reply_views(replies@) == cs.take(i as int).filter_map(answer),
        decreases n - i,
    {
        proof {
            assert(context_views(rest@).len() == rest@.len());
            assert(context_views(rest@)[0] == rest@[0]@);
            assert(cs.skip(i as int)[0] == cs[i as int]);
            assert(cs.take(i + 1).drop_last() =~= cs.take(i as int));
            reveal(Seq::filter);
        }
        let ghost before = rest@;
        let ghost was_active = active@;
        let ghost was_replies = replies@;
        let c = rest.remove(0);
        proof {
            assert(context_views(rest@) =~= cs.skip(i + 1)) by {
                assert(context_views(rest@) =~= context_views(before).skip(1));
            }
        }
        match check_revision(store, &c) {
            Some(response) => {
                let reply = WatchReply { sender: c.sender, response };
                replies.push(reply);
                assert(reply_views(replies@) =~= reply_views(was_replies).push(reply@));
                assert(reply_views(replies@) =~= cs.take(i + 1).filter_map(answer));
            },
            None => {
                active.push(c);
                assert(context_views(active@) =~= context_views(was_active).push(c@));
                assert(context_views(active@) =~= cs.take(i + 1).filter(ok));
            },
        }
        i = i + 1;
    }
    assert(cs.take(i as int) =~= cs);

    // Whose ids are taken, judged by the list as it is now.
    let ghost all = context_views(active@);
    let m: usize = active.len();
    let mut taken: Vec<bool> = Vec::new();
    let mut k: usize = 0;
    while k < m
        invariant
            k <= m == active@.len(),
            s == store@,
            all == context_views(active@),
            taken@.len() == k,
            forall|j: int| 0 <= j < k ==> #[trigger] taken@[j] == id_taken(s, all, j),
        decreases m - k,
    {
        taken.push(is_id_taken(store, &active, k));
        k = k + 1;
    }
    let ghost done = triaged(s, cs);
    let revision: i64 = current_revision(store.state.next_rev) as i64;
    let mut k: usize = m;
    while k > 0
        invariant
            k <= m == taken@.len(),
            s == store@,
            revision == s.revision() as i64,
            k <= active@.len(),
            forall|j: int| 0 <= j < m ==> #[trigger] taken@[j] == id_taken(s, all, j),
            without_taken(
                s,
                all,
                context_views(active@),
                reply_views(replies@),
                k as nat,
            ) == done,
        decreases k,
    {
        k = k - 1;
        if taken[k] {
            let ghost before = active@;
            let ghost was_replies = replies@;
            let c = active.swap_remove(k);
            let reply = WatchReply {
                sender: c.sender,
                response: refuse(revision, 0, "duplicate watch_id".to_owned()),
            };
            replies.push(reply);
            proof {
                assert(context_views(active@) =~= swap_removed(context_views(before), k as int));
                assert(reply_views(replies@) =~= reply_views(was_replies).push(reply@));
            }
        }
    }
    Triage { active, replies }
}

// ── What watches are told of the past ─────────────────────────────

/// Which records are told of: those up to a checkpoint, or those after it.
#[derive(Debug, Clone, Copy, PartialEq, Eq, Structural)]
pub enum Phase {
    Before,
    After,
}

/// Whether a record is told of in a phase.
pub open spec fn in_phase(phase: Phase, checkpoint_rev: u64, rev: u64) -> bool {
    match phase {
        Phase::Before => rev <= checkpoint_rev,
        Phase::After => rev > checkpoint_rev,
    }
}

/// The change that a record of a key tells of, given the messages of the keys before it.
pub open spec fn record_event(
    prev: Map<Seq<u8>, Seq<u8>>,
    key: Seq<u8>,
    rec: KvWalRecordView,
) -> WatchEventView {
    WatchEventView {
        revision: rec.revision(),
        event_type: if rec.deletes() {
            EventType::Delete
        } else {
            EventType::Put
        },
        key,
        kv_bytes: rec.kv_bytes,
        prev_kv_bytes: if prev.contains_key(key) {
            prev[key]
        } else {
            Seq::empty()
        },
    }
}

/// What a watch is told of a past change, if anything: it is told from its revision on.
pub open spec fn past_delivery(c: WatchContextView, e: WatchEventView) -> Option<DeliveryView> {
    if c.start_revision <= e.revision && covers(c.bound(), e.key) && passes_filters(
        c.filters,
        e.event_type.number(),
    ) {
        Some(DeliveryView { sender: c.sender, event: e })
    } else {
        None
    }
}

/// What all watches are told of a past change.
pub open spec fn told_past(cs: Seq<WatchContextView>, e: WatchEventView) -> Seq<DeliveryView> {
    cs.filter_map(|c: WatchContextView| past_delivery(c, e))
}

/// The messages of the keys after a record.
pub open spec fn prev_after(
    prev: Map<Seq<u8>, Seq<u8>>,
    key: Seq<u8>,
    rec: KvWalRecordView,
) -> Map<Seq<u8>, Seq<u8>> {
    if rec.deletes() {
        prev.remove(key)
    } else {
        prev.insert(key, rec.kv_bytes)
    }
}

/// What watches are told by records: the messages of the keys after them, and what goes out.
pub open spec fn past_told(
    phase: Phase,
    checkpoint_rev: u64,
    cs: Seq<WatchContextView>,
    prev: Map<Seq<u8>, Seq<u8>>,
    recs: Seq<KvWalRecordView>,
) -> (Map<Seq<u8>, Seq<u8>>, Seq<DeliveryView>)
    decreases recs.len(),
{
    if recs.len() == 0 {
        (prev, Seq::empty())
    } else {
        let (m, out) = past_told(phase, checkpoint_rev, cs, prev, recs.drop_last());
        let rec = recs.last();
        match rec.key() {
            Some(key) if in_phase(phase, checkpoint_rev, rec.revision()) => (
                prev_after(m, key, rec),
                out + told_past(cs, record_event(m, key, rec)),
            ),
            _ => (m, out),
        }
    }
}

/// The bounds of watches.
fn bounds_of(cs: &Vec<WatchContext>) -> (r: Vec<RangeBound>)
    ensures
        r@.len() == cs@.len(),
        forall|i: int| 0 <= i < r@.len() ==> (#[trigger] r@[i])@ == cs@[i]@.bound(),
{
    let mut bounds: Vec<RangeBound> = Vec::new();
    let mut i: usize = 0;
    while i < cs.len()
        invariant
            i <= cs@.len(),
            bounds@.len() == i,
            forall|j: int| 0 <= j < i ==> (#[trigger] bounds@[j])@ == cs@[j]@.bound(),
        decreases cs@.len() - i,
    {
        bounds.push(resolve_range(&cs[i].key, &cs[i].range_end));
        i = i + 1;
    }
    bounds
}

/// Tells watches of a past change.
fn tell_past(
    cs: &Vec<WatchContext>,
    bounds: &Vec<RangeBound>,
    event: &WatchEvent,
    out: &mut Vec<Delivery>,
)
    requires
        bounds@.len() == cs@.len(),
        forall|i: int| 0 <= i < bounds@.len() ==> (#[trigger] bounds@[i])@ == cs@[i]@.bound(),
    ensures
        delivery_views(final(out)@) == delivery_views(old(out)@) + told_past(
            context_views(cs@),
            event@,
        ),
{
    let ghost before = delivery_views(out@);
    let ghost vs = context_views(cs@);
    let ghost pick = |c: WatchContextView| past_delivery(c, event@);
    let mut i: usize = 0;
    assert(before + vs.take(0).filter_map(pick) =~= before);
    while i < cs.len()
        invariant
            i <= cs@.len() == bounds@.len(),
            vs == context_views(cs@),
            pick == (|c: WatchContextView| past_delivery(c, event@)),
            forall|i: int| 0 <= i < bounds@.len() ==> (#[trigger] bounds@[i])@ == cs@[i]@.bound(),
            delivery_views(out@) == before + vs.take(i as int).filter_map(pick),
        decreases cs@.len() - i,
    {
        let c = &cs[i];
        let ghost was = out@;
        proof {
            assert(vs[i as int] == c@);
            assert(vs.take(i + 1).drop_last() =~= vs.take(i as int));
        }
        if event.revision >= c.start_revision && matches_range(bounds[i].to_ref(), &event.key)
            && should_send_event(&c.filters, event.event_type.to_number()) {
            let delivery = Delivery { sender: c.sender, event: event.clone() };
            out.push(delivery);
            assert(delivery_views(out@) =~= delivery_views(was).push(delivery@));
            assert(delivery_views(out@) =~= before + vs.take(i + 1).filter_map(pick));
        } else {
            assert(past_delivery(c@, event@) is None);
        }
        i = i + 1;
    }
    assert(vs.take(i as int) =~= vs);
}

/// Tells watches of past changes. Keeps the messages of the keys, so that each change comes with
/// what was there before.
fn tell_records(
    phase: Phase,
    checkpoint_rev: u64,
    cs: &Vec<WatchContext>,
    prev: &mut SortedMap<Vec<u8>>,
    records: &Vec<KvWalRecord>,
    out: &mut Vec<Delivery>,
)
    requires
        old(prev).wf(),
    ensures
        final(prev).wf(),
        ({
            let (m, told) = past_told(
                phase,
                checkpoint_rev,
                context_views(cs@),
                old(prev)@,
                record_views(records@),
            );
            &&& final(prev)@ == m
            &&& delivery_views(final(out)@) == delivery_views(old(out)@) + told
        }),
{
    let bounds = bounds_of(cs);
    let ghost prev0 = prev@;
    let ghost out0 = delivery_views(out@);
    let ghost vs = context_views(cs@);
    let ghost recs = record_views(records@);
    let mut i: usize = 0;
    proof {
        assert(recs.take(0) =~= Seq::empty());
        assert(out0 + Seq::<DeliveryView>::empty() =~= out0);
    }
    while i < records.len()
        invariant
            i <= records@.len(),
            recs == record_views(records@),
            vs == context_views(cs@),
            bounds@.len() == cs@.len(),
            forall|i: int| 0 <= i < bounds@.len() ==> (#[trigger] bounds@[i])@ == cs@[i]@.bound(),
            prev.wf(),
            prev@ == past_told(phase, checkpoint_rev, vs, prev0, recs.take(i as int)).0,
            delivery_views(out@) == out0 + past_told(
                phase,
                checkpoint_rev,
                vs,
                prev0,
                recs.take(i as int),
            ).1,
        decreases records@.len() - i,
    {
        let rec: &KvWalRecord = &records[i];
        let rev: u64 = rec.revision();
        let ghost m = prev@;
        let ghost told = past_told(phase, checkpoint_rev, vs, prev0, recs.take(i as int)).1;
        proof {
            assert(recs.take(i + 1).drop_last() =~= recs.take(i as int));
            assert(recs.take(i + 1).last() == rec@);
        }
        let wanted = match phase {
            Phase::Before => rev <= checkpoint_rev,
            Phase::After => rev > checkpoint_rev,
        };
        if wanted {
            if let Some(key) = rec.key() {
                let deleted = rec.deletes();
                let prev_kv_bytes: Vec<u8> = match prev.get(key) {
                    Some(kv) => copy_bytes(kv),
                    None => Vec::new(),
                };
                if deleted {
                    prev.remove(key);
                } else {
                    prev.insert(copy_bytes(key), copy_bytes(&rec.kv_bytes));
                }
                let event = WatchEvent {
                    revision: rev,
                    event_type: if deleted {
                        EventType::Delete
                    } else {
                        EventType::Put
                    },
                    key: copy_bytes(key),
                    kv_bytes: copy_bytes(&rec.kv_bytes),
                    prev_kv_bytes,
                };
                assert(event@ =~= record_event(m, key@, rec@));
                tell_past(cs, &bounds, &event, out);
                proof {
                    let more = told_past(vs, event@);
                    assert((out0 + told) + more =~= out0 + (told + more));
                }
            }
        }
        i = i + 1;
    }
    assert(recs.take(i as int) =~= recs);
}

/// What watches have been told of the past, and the messages of the keys after it.
#[derive(Debug)]
pub struct Replay {
    pub deliveries: Vec<Delivery>,
    pub prev: SortedMap<Vec<u8>>,
}

/// Tells watches of the changes up to a checkpoint, from the contents of the log.
pub fn replay_before(cs: &Vec<WatchContext>, wal: &[u8], checkpoint_rev: u64) -> (r: Replay)
    ensures
        r.prev.wf(),
        (r.prev@, delivery_views(r.deliveries@)) == past_told(
            Phase::Before,
            checkpoint_rev,
            context_views(cs@),
            Map::empty(),
            scan_records(wal@),
        ),
{
    let (records, _) = scan_kv(wal, 0);
    assert(from_offset(wal@, 0) =~= wal@);
    let mut prev: SortedMap<Vec<u8>> = SortedMap::new();
    let mut deliveries: Vec<Delivery> = Vec::new();
    assert(delivery_views(deliveries@) =~= Seq::empty());
    tell_records(Phase::Before, checkpoint_rev, cs, &mut prev, &records, &mut deliveries);
    proof {
        let (m, told) = past_told(
            Phase::Before,
            checkpoint_rev,
            context_views(cs@),
            Map::empty(),
            scan_records(wal@),
        );
        assert(Seq::<DeliveryView>::empty() + told =~= told);
    }
    Replay { deliveries, prev }
}

/// A store with more watchers.
pub open spec fn with_watchers(s: StoreView, cs: Seq<WatchContextView>) -> StoreView
    decreases cs.len(),
{
    if cs.len() == 0 {
        s
    } else {
        with_watcher(with_watchers(s, cs.drop_last()), cs.last().registration())
    }
}

/// The answers to watches that have been created.
pub open spec fn created_replies(s: StoreView, cs: Seq<WatchContextView>) -> Seq<WatchReplyView> {
    cs.map_values(
        |c: WatchContextView|
            WatchReplyView {
                sender: c.sender,
                response: created_response(s.revision() as i64, c.watch_id),
            },
    )
}

/// Tells watches of the changes after a checkpoint, from the contents of the log behind it,
/// registers them, and answers them. From then on they are told of changes as they happen.
pub fn catch_up(
    store: &mut Store,
    cs: Vec<WatchContext>,
    prev: SortedMap<Vec<u8>>,
    wal: &[u8],
    checkpoint_rev: u64,
    checkpoint_offset: u64,
) -> (replies: Vec<WatchReply>)
    requires
        old(store).wf(),
        prev.wf(),
    ensures
        final(store).wf(),
        final(store)@ == with_watchers(
            StoreView {
                outbox: old(store)@.outbox + past_told(
                    Phase::After,
                    checkpoint_rev,
                    context_views(cs@),
                    prev@,
                    scan_records(from_offset(wal@, checkpoint_offset)),
                ).1,
                ..old(store)@
            },
            context_views(cs@),
        ),
        reply_views(replies@) == created_replies(old(store)@, context_views(cs@)),
{
    let ghost s0 = store@;
    let ghost vs = context_views(cs@);
    let (records, _) = scan_kv(wal, checkpoint_offset);
    let mut prev = prev;
    tell_records(
        Phase::After,
        checkpoint_rev,
        &cs,
        &mut prev,
        &records,
        &mut store.state.outbox,
    );
    let ghost s1 = store@;
    let revision: i64 = current_revision(store.state.next_rev) as i64;
    let mut replies: Vec<WatchReply> = Vec::new();
    let mut i: usize = 0;
    assert(vs.take(0) =~= Seq::empty());
    while i < cs.len()
        invariant
            i <= cs@.len(),
            vs == context_views(cs@),
            store.wf(),
            store@ == with_watchers(s1, vs.take(i as int)),
            revision == s0.revision() as i64,
            replies@.len() == i,
            forall|j: int|
                0 <= j < i ==> (#[trigger] replies@[j])@ == (WatchReplyView {
                    sender: vs[j].sender,
                    response: created_response(s0.revision() as i64, vs[j].watch_id),
                }),
        decreases cs@.len() - i,
    {
        let c = &cs[i];
        proof {
            assert(vs[i as int] == c@);
            assert(vs.take(i + 1).drop_last() =~= vs.take(i as int));
        }
        let filters = copy_numbers(&c.filters);
        let reg = WatchRegistration {
            key: copy_bytes(&c.key),
            range_end: copy_bytes(&c.range_end),
            start_revision: c.start_revision,
            sender: c.sender,
            watch_id: c.watch_id,
            progress_notify: c.progress_notify,
            filters,
            prev_kv: c.prev_kv,
            bound: resolve_range(&c.key, &c.range_end),
        };
        assert(reg@ =~= c@.registration());
        let _ = store.state.register_watcher(reg);
        let mut response = progress_response(revision, c.watch_id);
        response.created = true;
        replies.push(WatchReply { sender: c.sender, response });
        i = i + 1;
    }
    assert(vs.take(i as int) =~= vs);
    assert(reply_views(replies@) =~= created_replies(s0, vs));
    replies
}

fn copy_numbers(s: &Vec<i32>) -> (r: Vec<i32>)
    ensures
        r@ == s@,
{
    let mut out: Vec<i32> = Vec::new();
    let mut i: usize = 0;
    while i < s.len()
        invariant
            i <= s@.len(),
            out@ == s@.take(i as int),
        decreases s@.len() - i,
    {
        out.push(s[i]);
        assert(s@.take(i + 1) =~= s@.take(i as int).push(s@[i as int]));
        i = i + 1;
    }
    assert(s@.take(i as int) =~= s@);
    out
}

} // verus!
