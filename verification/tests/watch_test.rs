#![allow(dead_code)]

use rudurru::server::watch::{
    cancel_response, catch_up, choose_watch_id, event_response, progress_response, replay_before,
    triage, Heard, WatchContext, WatchReply, WatchTalk,
};
use rudurru::storage::key_value::KeyValue;
use rudurru::storage::messages::{CompactionRequest, DeleteRangeRequest, PutRequest};
use rudurru::storage::state::{Delivery, EventType, WatchEvent};
use rudurru::storage::{current_revision, Store};

/// A store whose log is kept in memory.
struct Db {
    store: Store,
    wal: Vec<u8>,
    next_watch_id: i64,
}

#[derive(Clone, Default)]
struct Ask {
    key: &'static str,
    range_end: &'static str,
    start_revision: u64,
    watch_id: i64,
    filters: Vec<i32>,
    prev_kv: bool,
}

impl Db {
    fn new() -> Db {
        Db { store: Store::open(&[], 0, 1, 0), wal: Vec::new(), next_watch_id: 1 }
    }

    fn revision(&self) -> u64 {
        current_revision(self.store.state.next_rev)
    }

    fn put(&mut self, key: &str, value: &str) -> u64 {
        let pending = self.store.put(PutRequest::new(key.into(), value.into())).unwrap();
        self.wal.extend(pending.log_bytes());
        self.store.finish_put(pending, true).unwrap();
        self.revision()
    }

    fn delete(&mut self, key: &str) -> u64 {
        let pending = self.store.delete_range(DeleteRangeRequest::new(key.into(), vec![]));
        self.wal.extend(pending.log_bytes());
        self.store.finish_delete_range(pending, true).unwrap();
        self.revision()
    }

    fn context(&mut self, ask: &Ask, sender: u64) -> WatchContext {
        WatchContext {
            key: ask.key.into(),
            range_end: ask.range_end.into(),
            start_revision: ask.start_revision,
            watch_id: choose_watch_id(ask.watch_id, &mut self.next_watch_id),
            progress_notify: false,
            filters: ask.filters.clone(),
            prev_kv: ask.prev_kv,
            sender,
        }
    }

    /// Asks for watches, over channels numbered from zero on. What they are told of the past is
    /// given out; what is told later stays in the outbox.
    fn watch(&mut self, asks: &[Ask]) -> (Vec<Delivery>, Vec<WatchReply>) {
        let mut batch = Vec::new();
        for (i, ask) in asks.iter().enumerate() {
            batch.push(self.context(ask, i as u64));
        }
        let triage = triage(&self.store, batch);
        let mut replies = triage.replies;
        let (rev, offset) = (self.revision(), self.wal.len() as u64);
        let replay = replay_before(&triage.active, &self.wal, rev);
        let created =
            catch_up(&mut self.store, triage.active, replay.prev, &self.wal, rev, offset);
        replies.extend(created);
        (replay.deliveries, replies)
    }

    fn told(&mut self) -> Vec<Delivery> {
        self.store.state.take_outbox()
    }
}

fn value_of(bytes: &[u8]) -> Vec<u8> {
    KeyValue::decode(bytes).unwrap().value
}

#[test]
fn test_phase2_prev_kv_uses_phase1_map() {
    let mut store = Db::new();

    // Build history: v1, v2 at known revisions
    store.put("foo", "v1");
    store.put("foo", "v2");

    // Snapshot the checkpoint state AFTER v2
    let checkpoint_rev = store.revision();
    let checkpoint_offset = store.wal.len() as u64;

    // A put after the checkpoint
    store.put("foo", "v3");

    // A watcher from v2 onward (prev_kv=true)
    let ask = Ask {
        key: "foo",
        start_revision: checkpoint_rev,
        watch_id: 42,
        prev_kv: true,
        ..Default::default()
    };
    let batch = vec![store.context(&ask, 0)];
    let triage = triage(&store.store, batch);
    let replay = replay_before(&triage.active, &store.wal, checkpoint_rev);
    catch_up(
        &mut store.store,
        triage.active,
        replay.prev,
        &store.wal,
        checkpoint_rev,
        checkpoint_offset,
    );

    // Collect replayed events
    let mut events: Vec<Delivery> = replay.deliveries;
    events.extend(store.told());

    // We expect two events: v2 (before the checkpoint) and v3 (after it)
    assert_eq!(events.len(), 2, "should replay v2 and v3");

    // v2 event: kv=v2, prev_kv should be v1
    let ev2 = &events[0].event;
    assert_eq!(value_of(&ev2.kv_bytes), b"v2");
    assert_eq!(value_of(&ev2.prev_kv_bytes), b"v1", "v2 prev_kv should be v1");

    // v3 event: kv=v3, prev_kv should be v2
    let ev3 = &events[1].event;
    assert_eq!(value_of(&ev3.kv_bytes), b"v3");
    assert_eq!(value_of(&ev3.prev_kv_bytes), b"v2", "v3 prev_kv should be v2");
}

#[test]
fn test_watch_key() {
    let mut client = Db::new();
    client.watch(&[Ask { key: "watch/single", ..Default::default() }]);
    client.put("watch/single", "event1");

    let told = client.told();
    assert_eq!(told.len(), 1);
    assert_eq!(told[0].event.event_type, EventType::Put);
    assert_eq!(value_of(&told[0].event.kv_bytes), b"event1");
}

#[test]
fn test_watch_prefix() {
    let mut client = Db::new();
    client.watch(&[Ask {
        key: "watch/prefix/",
        range_end: "watch/prefix0",
        ..Default::default()
    }]);
    client.put("watch/prefix/a", "aa");
    client.put("watch/prefix/b", "bb");
    client.put("watch/other", "cc");

    let told = client.told();
    assert_eq!(told.len(), 2);
    for d in &told {
        assert_eq!(d.event.event_type, EventType::Put);
    }
}

#[test]
fn test_watch_from_revision() {
    let mut client = Db::new();
    client.put("watch/from_rev", "v1");
    let rev = client.put("watch/from_rev", "v2");
    let (past, _) = client.watch(&[Ask {
        key: "watch/from_rev",
        start_revision: rev,
        ..Default::default()
    }]);
    assert_eq!(past.len(), 1);
    assert_eq!(value_of(&past[0].event.kv_bytes), b"v2");
}

#[test]
fn test_watch_progress_notify() {
    let mut client = Db::new();
    client.put("watch/progress", "v");
    let resp = progress_response(client.revision() as i64, 0);
    assert!(resp.watch_id != 0 || resp.events.is_empty());
    assert_eq!(resp.header.revision, 1);
    assert!(!resp.created && !resp.canceled);
}

#[test]
fn test_watch_delete_event() {
    let mut client = Db::new();
    client.watch(&[Ask { key: "watch/delete", ..Default::default() }]);
    client.put("watch/delete", "will_delete");
    client.delete("watch/delete");

    let told = client.told();
    assert_eq!(told.len(), 2);
    assert_eq!(told[1].event.event_type, EventType::Delete);
    assert_eq!(told[1].event.revision, 2);
}

#[test]
fn test_watch_cancel() {
    let mut client = Db::new();
    let (_, replies) = client.watch(&[Ask { key: "watch/cancel", ..Default::default() }]);
    let watch_id = replies[0].response.watch_id;
    assert!(watch_id > 0);
    client.put("watch/cancel", "before_cancel");
    assert_eq!(client.told().len(), 1);

    assert!(client.store.state.cancel_watcher(watch_id));
    let cancel_resp = cancel_response(client.revision() as i64, watch_id);
    assert!(cancel_resp.canceled, "should be canceled");
    assert_eq!(cancel_resp.watch_id, watch_id);

    client.put("watch/cancel", "after_cancel");
    assert!(client.told().is_empty(), "no event after cancel");
    assert!(!client.store.state.cancel_watcher(watch_id));
    assert_eq!(client.store.state.watcher_count, 0);
}

#[test]
fn test_watch_filters_no_put() {
    let mut client = Db::new();
    client.watch(&[Ask { key: "watch/noput", filters: vec![0], ..Default::default() }]);
    client.put("watch/noput", "filtered_put");
    client.delete("watch/noput");

    let told = client.told();
    assert_eq!(told.len(), 1, "only 1 event expected (delete, put filtered)");
    assert_eq!(told[0].event.event_type, EventType::Delete);
}

#[test]
fn test_watch_filters_no_delete() {
    let mut client = Db::new();
    client.watch(&[Ask { key: "watch/nodel", filters: vec![1], ..Default::default() }]);
    client.put("watch/nodel", "visible_put");
    client.delete("watch/nodel");

    let told = client.told();
    assert_eq!(told.len(), 1, "only 1 event expected (put, delete filtered)");
    assert_eq!(told[0].event.event_type, EventType::Put);
}

#[test]
fn test_watch_prev_kv() {
    let mut client = Db::new();
    client.watch(&[Ask { key: "watch/prevkv", prev_kv: true, ..Default::default() }]);

    // First put — prev_kv is empty (key didn't exist)
    client.put("watch/prevkv", "old_value");
    let told = client.told();
    assert_eq!(told.len(), 1);
    assert_eq!(told[0].event.event_type, EventType::Put);
    assert_eq!(value_of(&told[0].event.kv_bytes), b"old_value");
    assert!(told[0].event.prev_kv_bytes.is_empty(), "first put should have no prev_kv");

    // Second put — prev_kv should be "old_value"
    client.put("watch/prevkv", "new_value");
    let told = client.told();
    assert_eq!(told.len(), 1);
    assert_eq!(value_of(&told[0].event.kv_bytes), b"new_value");
    assert_eq!(value_of(&told[0].event.prev_kv_bytes), b"old_value");
}

#[test]
fn test_watch_client_assigned_id() {
    let mut client = Db::new();
    let (_, replies) =
        client.watch(&[Ask { key: "watch/assign_id", watch_id: 42, ..Default::default() }]);
    assert_eq!(replies[0].response.watch_id, 42);
    client.put("watch/assign_id", "assigned");
    let told = client.told();
    let resp = event_response(&told[0].event, 42);
    assert_eq!(resp.watch_id, 42, "watch_id should match client-assigned value");
    assert_eq!(resp.events.len(), 1);
    assert_eq!(resp.events[0].event_type, 0);
    assert_eq!(resp.header.revision, 1);
}

#[test]
fn test_watch_compact_revision() {
    let mut client = Db::new();
    for _ in 0..3 {
        client.put("watch/compact_rev", "v");
    }
    let compact_rev = client.revision() as i64 - 1;
    client
        .store
        .compact(CompactionRequest { revision: compact_rev, physical: false })
        .unwrap();

    let (past, replies) = client.watch(&[Ask {
        key: "watch/compact_rev",
        start_revision: 1,
        ..Default::default()
    }]);
    assert!(past.is_empty());
    let compact_resp = &replies[0].response;
    assert!(compact_resp.compact_revision > 0, "should report compact_revision");
    assert!(compact_resp.canceled, "watch should be canceled due to compaction");
    assert_eq!(compact_resp.compact_revision, 2);
    assert_eq!(compact_resp.cancel_reason, "compacted");
    assert_eq!(compact_resp.watch_id, -1);
    assert!(client.store.state.watchers.is_empty());
}

#[test]
fn test_concurrent_watches() {
    let mut client = Db::new();
    let keys = ["w0", "w1", "w2", "w3", "w4"];
    let asks: Vec<Ask> = keys.iter().map(|k| Ask { key: k, ..Default::default() }).collect();
    let (_, replies) = client.watch(&asks);
    assert_eq!(replies.len(), 5);
    for (i, key) in keys.iter().enumerate() {
        client.put(key, "trigger");
        let told = client.told();
        assert_eq!(told.len(), 1);
        assert_eq!(told[0].sender, i as u64);
    }
}

#[test]
fn watches_much_too_far_ahead_are_refused() {
    let mut client = Db::new();
    client.put("k", "v");
    let (_, replies) = client.watch(&[
        Ask { key: "k", start_revision: 10_001, ..Default::default() },
        Ask { key: "k", start_revision: 10_002, ..Default::default() },
        Ask { key: "k", start_revision: u64::MAX, ..Default::default() },
    ]);
    assert_eq!(replies.len(), 3);
    assert_eq!(replies[0].sender, 1);
    assert_eq!(
        replies[0].response.cancel_reason,
        "too large resource version: 10002, current: 1"
    );
    assert_eq!(
        replies[1].response.cancel_reason,
        "too large resource version: 18446744073709551615, current: 1"
    );
    assert!(replies[1].response.canceled);
    assert!(replies[2].response.created);
    assert_eq!(replies[2].sender, 0);
}

#[test]
fn ids_that_are_taken_are_refused() {
    let mut client = Db::new();
    client.watch(&[Ask { key: "k", watch_id: 7, ..Default::default() }]);
    let (_, replies) = client.watch(&[
        Ask { key: "a", watch_id: 8, ..Default::default() },
        Ask { key: "b", watch_id: 7, ..Default::default() },
        Ask { key: "c", watch_id: 8, ..Default::default() },
        Ask { key: "d", watch_id: 9, ..Default::default() },
    ]);
    assert_eq!(replies.len(), 4);
    let refused: Vec<u64> =
        replies.iter().filter(|r| r.response.canceled).map(|r| r.sender).collect();
    assert_eq!(refused, vec![2, 1]);
    assert!(replies[..2].iter().all(|r| r.response.cancel_reason == "duplicate watch_id"));
    let mut ids: Vec<i64> = client.store.state.watchers.iter().map(|w| w.watch_id).collect();
    ids.sort();
    assert_eq!(ids, vec![7, 8, 9]);
    assert_eq!(client.store.state.watcher_count, 3);
}

#[test]
fn nothing_is_missed_and_nothing_told_twice() {
    let mut client = Db::new();
    client.put("k", "1");
    client.put("other", "x");
    client.put("k", "2");
    let (rev, offset) = (client.revision(), client.wal.len() as u64);
    client.delete("k");
    let ask = Ask { key: "k", start_revision: 1, prev_kv: true, ..Default::default() };
    let batch = vec![client.context(&ask, 5)];
    let triage = triage(&client.store, batch);
    // Read after the checkpoint: what came later is passed over.
    let replay = replay_before(&triage.active, &client.wal, rev);
    client.put("k", "3");
    let created =
        catch_up(&mut client.store, triage.active, replay.prev, &client.wal, rev, offset);
    assert!(created[0].response.created);
    client.put("k", "4");
    let mut told = replay.deliveries;
    told.extend(client.told());
    let story: Vec<(u64, EventType)> =
        told.iter().map(|d| (d.event.revision, d.event.event_type)).collect();
    assert_eq!(
        story,
        vec![
            (1, EventType::Put),
            (3, EventType::Put),
            (4, EventType::Delete),
            (5, EventType::Put),
            (6, EventType::Put)
        ]
    );
    assert!(told.iter().all(|d| d.sender == 5));
    assert!(told[0].event.prev_kv_bytes.is_empty());
    assert_eq!(value_of(&told[1].event.prev_kv_bytes), b"1");
    assert_eq!(value_of(&told[2].event.prev_kv_bytes), b"2");
    assert!(told[3].event.prev_kv_bytes.is_empty());
    assert_eq!(value_of(&told[4].event.prev_kv_bytes), b"3");
}

#[test]
fn what_was_there_before_is_told_only_if_asked_for() {
    let mut client = Db::new();
    client.put("k", "1");
    client.watch(&[Ask { key: "k", start_revision: 2, ..Default::default() }]);
    client.put("k", "2");
    client.delete("k");
    let told = client.told();
    assert_eq!(told.len(), 2);
    assert!(told.iter().all(|d| d.event.prev_kv_bytes.is_empty()));
}

#[test]
fn a_watcher_hears_nothing_before_its_revision() {
    let mut client = Db::new();
    client.watch(&[Ask { key: "k", start_revision: 3, ..Default::default() }]);
    client.put("k", "1");
    client.put("k", "2");
    assert!(client.told().is_empty());
    client.put("k", "3");
    assert_eq!(client.told().len(), 1);
}

#[test]
fn a_watch_from_a_later_revision_is_caught_up_from_there() {
    let mut client = Db::new();
    client.put("k", "1");
    let (rev, offset) = (client.revision(), client.wal.len() as u64);
    let asks = [
        Ask { key: "k", start_revision: 4, ..Default::default() },
        Ask { key: "k", start_revision: 2, ..Default::default() },
    ];
    let batch = vec![client.context(&asks[0], 5), client.context(&asks[1], 6)];
    let triage = triage(&client.store, batch);
    let replay = replay_before(&triage.active, &client.wal, rev);
    assert!(replay.deliveries.is_empty());
    for value in ["2", "3", "4"] {
        client.put("k", value);
    }
    catch_up(&mut client.store, triage.active, replay.prev, &client.wal, rev, offset);
    client.put("k", "5");
    let told: Vec<(u64, u64)> =
        client.told().iter().map(|d| (d.sender, d.event.revision)).collect();
    let of = |sender: u64| -> Vec<u64> {
        told.iter().filter(|t| t.0 == sender).map(|t| t.1).collect()
    };
    assert_eq!(of(5), vec![4, 5]);
    assert_eq!(of(6), vec![2, 3, 4, 5]);
}

#[test]
fn ids_are_given_out_one_after_the_other() {
    let mut next = 1;
    assert_eq!(choose_watch_id(0, &mut next), 1);
    assert_eq!(choose_watch_id(50, &mut next), 50);
    assert_eq!(choose_watch_id(0, &mut next), 2);
    assert_eq!(next, 3);
}

fn change(revision: u64, key: &str) -> WatchEvent {
    WatchEvent {
        revision,
        event_type: EventType::Put,
        key: key.into(),
        kv_bytes: key.into(),
        prev_kv_bytes: vec![],
    }
}

#[test]
fn the_answer_comes_before_the_changes() {
    let mut talk = WatchTalk::new(7, true);
    assert!(talk.hear(Heard::Event(change(3, "a"))).is_empty());
    assert!(talk.hear(Heard::Tick(3)).is_empty());
    assert!(talk.hear(Heard::Event(change(4, "b"))).is_empty());
    let mut created = progress_response(4, 7);
    created.created = true;
    let out = talk.hear(Heard::Reply(created));
    assert_eq!(out.len(), 3);
    assert!(out[0].created);
    assert_eq!((out[1].header.revision, out[1].watch_id), (3, 7));
    assert_eq!(out[1].events.len(), 1);
    assert_eq!(out[1].events[0].kv, b"a");
    assert_eq!(out[2].header.revision, 4);

    let out = talk.hear(Heard::Event(change(5, "c")));
    assert_eq!(out.len(), 1);
    assert_eq!(out[0].header.revision, 5);
    let out = talk.hear(Heard::Tick(9));
    assert_eq!(out.len(), 1);
    assert_eq!(out[0].header.revision, 9);
    assert!(out[0].events.is_empty());
}

#[test]
fn a_watch_that_is_refused_is_told_nothing_more() {
    let mut talk = WatchTalk::new(7, true);
    let refused = cancel_response(4, -1);
    let out = talk.hear(Heard::Reply(refused));
    assert_eq!(out.len(), 1);
    assert!(out[0].canceled);
    assert!(talk.hear(Heard::Event(change(5, "c"))).is_empty());
    assert!(talk.hear(Heard::Tick(5)).is_empty());
}
