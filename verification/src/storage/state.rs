//! What the store holds in memory.

use std::collections::BTreeMap;
use crate::bytes::copy_bytes;
use crate::sorted_map::SortedMap;
use crate::storage::key_value::{decoded_kv, KeyValue, KeyValueView};
use crate::storage::leases::LeaseState;
use crate::storage::range::{RangeBound, RangeBoundView};
use crate::storage::wal::{encode_kv, kv_message};
use vstd::prelude::*;

verus! {

// ── Revisions ─────────────────────────────────────────────────────

/// A counter one further, back to zero past the largest.
pub open spec fn counted_up(n: u64) -> u64 {
    if n == u64::MAX {
        0
    } else {
        (n + 1) as u64
    }
}

/// A counter one less, at the largest before zero.
pub open spec fn counted_down(n: u64) -> u64 {
    if n == 0 {
        u64::MAX
    } else {
        (n - 1) as u64
    }
}

/// The revision that was given out last.
pub open spec fn revision_before(next: u64) -> u64 {
    if next == 0 {
        0
    } else {
        (next - 1) as u64
    }
}

/// Gives out the next revision.
pub fn next_revision(next_rev: &mut u64) -> (r: u64)
    ensures
        r == *old(next_rev),
        *final(next_rev) == counted_up(*old(next_rev)),
{
    let r: u64 = *next_rev;
    *next_rev = r.wrapping_add(1);
    r
}

/// The revision that was given out last.
pub fn current_revision(next_rev: u64) -> (r: u64)
    ensures
        r == revision_before(next_rev),
{
    next_rev.saturating_sub(1)
}

/// Counts one more.
pub fn count_up(n: &mut u64)
    ensures
        *final(n) == counted_up(*old(n)),
{
    *n = n.wrapping_add(1);
}

/// Counts one less.
pub fn count_down(n: &mut u64)
    ensures
        *final(n) == counted_down(*old(n)),
{
    *n = n.wrapping_sub(1);
}

// ── Keys ──────────────────────────────────────────────────────────

/// What is known of a key.
#[verifier::ext_equal]
pub struct KeyStateView {
    pub value: Seq<u8>,
    pub mod_revision: u64,
    pub create_revision: u64,
    pub version: i64,
    pub lease: i64,
    pub delete_revision: u64,
    pub rebirth: bool,
    pub kv_bytes: Seq<u8>,
}

/// What is known of a key, alive or deleted. Deleted keys stay, so that a query of an earlier
/// revision can tell whether the key existed then.
#[derive(Debug)]
pub struct KeyState {
    pub value: Vec<u8>,
    pub mod_revision: u64,
    pub create_revision: u64,
    pub version: i64,
    pub lease: i64,
    /// Zero while the key is alive; otherwise the revision at which it was deleted.
    pub delete_revision: u64,
    /// Whether the key was ever deleted and created again. Where such a key was created after
    /// the revision of a query, it may have existed in an earlier lifetime.
    pub rebirth: bool,
    /// The key-value message of the last change.
    pub kv_bytes: Vec<u8>,
}

impl View for KeyState {
    type V = KeyStateView;

    open spec fn view(&self) -> KeyStateView {
        KeyStateView {
            value: self.value@,
            mod_revision: self.mod_revision,
            create_revision: self.create_revision,
            version: self.version,
            lease: self.lease,
            delete_revision: self.delete_revision,
            rebirth: self.rebirth,
            kv_bytes: self.kv_bytes@,
        }
    }
}

impl KeyStateView {
    /// Whether the key has not been deleted.
    pub open spec fn alive(self) -> bool {
        self.delete_revision == 0
    }

    /// The key-value message that says what is known of the key.
    pub open spec fn message(self, key: Seq<u8>) -> Seq<u8> {
        kv_message(
            key,
            self.value,
            self.create_revision as i64,
            self.mod_revision as i64,
            self.version,
            self.lease,
        )
    }

    /// What is known of the key: what its message says where there is one that can be decoded,
    /// under the given key.
    pub open spec fn key_value(self, key: Seq<u8>) -> KeyValueView {
        if self.kv_bytes.len() > 0 && decoded_kv(self.kv_bytes) is Some {
            KeyValueView { key, ..decoded_kv(self.kv_bytes)->0 }
        } else {
            KeyValueView {
                key,
                create_revision: self.create_revision as i64,
                mod_revision: self.mod_revision as i64,
                version: self.version,
                value: self.value,
                lease: self.lease,
            }
        }
    }
}

impl KeyState {
    /// Whether the key has not been deleted.
    pub fn is_alive(&self) -> (r: bool)
        ensures
            r == self@.alive(),
    {
        self.delete_revision == 0
    }

    /// Decodes the message of the last change. Where there is none, it is made from the fields.
    pub fn to_key_value(&self, key: &[u8]) -> (r: KeyValue)
        ensures
            r@ == self@.key_value(key@),
    {
        if self.kv_bytes.len() > 0 {
            if let Some(kv) = KeyValue::decode(&self.kv_bytes) {
                let mut kv = kv;
                kv.key = copy_bytes(key);
                return kv;
            }
        }
        KeyValue {
            key: copy_bytes(key),
            create_revision: self.create_revision as i64,
            mod_revision: self.mod_revision as i64,
            version: self.version,
            value: copy_bytes(&self.value),
            lease: self.lease,
        }
    }
}

impl Clone for KeyState {
    fn clone(&self) -> (r: Self)
        ensures
            r@ == self@,
    {
        KeyState {
            value: copy_bytes(&self.value),
            mod_revision: self.mod_revision,
            create_revision: self.create_revision,
            version: self.version,
            lease: self.lease,
            delete_revision: self.delete_revision,
            rebirth: self.rebirth,
            kv_bytes: copy_bytes(&self.kv_bytes),
        }
    }
}

/// Encodes the key-value message of a key.
pub fn make_kv_bytes(key: &[u8], ks: &KeyState) -> (r: Vec<u8>)
    ensures
        r@ == ks@.message(key@),
{
    let (kv_bytes, _, _) = encode_kv(
        key,
        &ks.value,
        ks.create_revision as i64,
        ks.mod_revision as i64,
        ks.version,
        ks.lease,
    );
    kv_bytes
}

// ── Watchers ──────────────────────────────────────────────────────

/// Whether a key was written or deleted.
#[derive(Debug, Clone, Copy, PartialEq, Eq, Structural)]
pub enum EventType {
    Put,
    Delete,
}

impl EventType {
    /// The number by which messages name the type.
    pub open spec fn number(self) -> i32 {
        match self {
            EventType::Put => 0,
            EventType::Delete => 1,
        }
    }

    /// The number by which messages name the type.
    pub fn to_number(self) -> (r: i32)
        ensures
            r == self.number(),
    {
        match self {
            EventType::Put => 0,
            EventType::Delete => 1,
        }
    }
}

/// What a change was.
#[verifier::ext_equal]
pub struct WatchEventView {
    pub revision: u64,
    pub event_type: EventType,
    pub key: Seq<u8>,
    pub kv_bytes: Seq<u8>,
    pub prev_kv_bytes: Seq<u8>,
}

/// A change that watchers are told of.
#[derive(Debug)]
pub struct WatchEvent {
    pub revision: u64,
    pub event_type: EventType,
    pub key: Vec<u8>,
    pub kv_bytes: Vec<u8>,
    pub prev_kv_bytes: Vec<u8>,
}

impl View for WatchEvent {
    type V = WatchEventView;

    open spec fn view(&self) -> WatchEventView {
        WatchEventView {
            revision: self.revision,
            event_type: self.event_type,
            key: self.key@,
            kv_bytes: self.kv_bytes@,
            prev_kv_bytes: self.prev_kv_bytes@,
        }
    }
}

impl Clone for WatchEvent {
    fn clone(&self) -> (r: Self)
        ensures
            r@ == self@,
    {
        WatchEvent {
            revision: self.revision,
            event_type: self.event_type,
            key: copy_bytes(&self.key),
            kv_bytes: copy_bytes(&self.kv_bytes),
            prev_kv_bytes: copy_bytes(&self.prev_kv_bytes),
        }
    }
}

/// What a watcher asked for.
#[verifier::ext_equal]
pub struct WatchRegistrationView {
    pub key: Seq<u8>,
    pub range_end: Seq<u8>,
    pub start_revision: u64,
    pub sender: u64,
    pub watch_id: i64,
    pub progress_notify: bool,
    pub filters: Seq<i32>,
    pub prev_kv: bool,
    pub bound: RangeBoundView,
}

/// A watcher: which changes it is told of, and the channel over which it is told.
#[derive(Debug)]
pub struct WatchRegistration {
    pub key: Vec<u8>,
    pub range_end: Vec<u8>,
    pub start_revision: u64,
    pub sender: u64,
    pub watch_id: i64,
    pub progress_notify: bool,
    pub filters: Vec<i32>,
    pub prev_kv: bool,
    pub bound: RangeBound,
}

impl View for WatchRegistration {
    type V = WatchRegistrationView;

    open spec fn view(&self) -> WatchRegistrationView {
        WatchRegistrationView {
            key: self.key@,
            range_end: self.range_end@,
            start_revision: self.start_revision,
            sender: self.sender,
            watch_id: self.watch_id,
            progress_notify: self.progress_notify,
            filters: self.filters@,
            prev_kv: self.prev_kv,
            bound: self.bound@,
        }
    }
}

/// The views of the watchers.
pub open spec fn watcher_views(ws: Seq<WatchRegistration>) -> Seq<WatchRegistrationView> {
    ws.map_values(|w: WatchRegistration| w@)
}

/// What goes out over a channel.
#[verifier::ext_equal]
pub struct DeliveryView {
    pub sender: u64,
    pub event: WatchEventView,
}

/// An event to be sent over a channel.
#[derive(Debug)]
pub struct Delivery {
    pub sender: u64,
    pub event: WatchEvent,
}

impl View for Delivery {
    type V = DeliveryView;

    open spec fn view(&self) -> DeliveryView {
        DeliveryView { sender: self.sender, event: self.event@ }
    }
}

/// The views of what goes out.
pub open spec fn delivery_views(ds: Seq<Delivery>) -> Seq<DeliveryView> {
    ds.map_values(|d: Delivery| d@)
}

// ── The store ─────────────────────────────────────────────────────

/// What stands at the head of a response.
#[derive(Debug, Clone, Copy, PartialEq, Eq, Structural)]
pub struct ResponseHeader {
    pub cluster_id: u64,
    pub member_id: u64,
    pub revision: i64,
    pub raft_term: u64,
}

/// The header of a response at a revision.
pub open spec fn header_at(revision: i64) -> ResponseHeader {
    ResponseHeader { cluster_id: 1, member_id: 1, revision, raft_term: 1 }
}

/// The header of a response at a revision: of the one member of the one cluster, in the one
/// term.
pub fn make_header(revision: i64) -> (r: ResponseHeader)
    ensures
        r == header_at(revision),
{
    ResponseHeader { cluster_id: 1, member_id: 1, revision, raft_term: 1 }
}

/// The head of each response names the one member of the one cluster, in the one term, and the
/// revision that it is given.
pub proof fn law_header_names_the_revision(revision: i64)
    ensures
        header_at(revision).revision == revision,
        header_at(revision).cluster_id == 1,
        header_at(revision).member_id == 1,
        header_at(revision).raft_term == 1,
{
}

/// What the store holds.
#[verifier::ext_equal]
pub struct StoreView {
    pub keys: Map<Seq<u8>, KeyStateView>,
    pub leases: Map<i64, LeaseState>,
    pub watchers: Seq<WatchRegistrationView>,
    pub next_rev: u64,
    pub compact_rev: u64,
    pub next_lease_id: i64,
    pub key_count: u64,
    pub watcher_count: u64,
    pub lease_count: u64,
    pub outbox: Seq<DeliveryView>,
}

/// What the store holds in memory: the keys, the leases, the watchers, the counters, and the
/// events that have yet to be sent.
#[derive(Debug)]
pub struct StoreState {
    pub keys: SortedMap<KeyState>,
    pub leases: BTreeMap<i64, LeaseState>,
    pub watchers: Vec<WatchRegistration>,
    pub next_rev: u64,
    pub compact_rev: u64,
    pub next_lease_id: i64,
    pub key_count: u64,
    pub watcher_count: u64,
    pub lease_count: u64,
    pub outbox: Vec<Delivery>,
}

impl View for StoreState {
    type V = StoreView;

    open spec fn view(&self) -> StoreView {
        StoreView {
            keys: self.keys@,
            leases: self.leases@,
            watchers: watcher_views(self.watchers@),
            next_rev: self.next_rev,
            compact_rev: self.compact_rev,
            next_lease_id: self.next_lease_id,
            key_count: self.key_count,
            watcher_count: self.watcher_count,
            lease_count: self.lease_count,
            outbox: delivery_views(self.outbox@),
        }
    }
}

/// No lease was granted for less than no time, so each can be renewed.
pub open spec fn leases_renewable(leases: Map<i64, LeaseState>) -> bool {
    forall|id: i64| #[trigger] leases.contains_key(id) ==> leases[id].ttl >= 0
}

/// A store that holds nothing.
pub open spec fn empty_store() -> StoreView {
    StoreView {
        keys: Map::empty(),
        leases: Map::empty(),
        watchers: Seq::empty(),
        next_rev: 1,
        compact_rev: 0,
        next_lease_id: 1,
        key_count: 0,
        watcher_count: 0,
        lease_count: 0,
        outbox: Seq::empty(),
    }
}

/// A store that holds nothing has given out no revision, no id for a lease, and has given up
/// nothing: its first change gets revision one, and its first lease the id one.
pub proof fn law_empty_store_begins()
    ensures
        empty_store().next_rev == 1,
        empty_store().next_lease_id == 1,
        empty_store().compact_rev == 0,
        forall|k: Seq<u8>| !#[trigger] empty_store().keys.contains_key(k),
        forall|id: i64| !#[trigger] empty_store().leases.contains_key(id),
        empty_store().watchers.len() == 0,
        empty_store().outbox.len() == 0,
        empty_store().key_count == 0,
        empty_store().watcher_count == 0,
        empty_store().lease_count == 0,
{
}

impl StoreView {
    /// The revision that was given out last.
    pub open spec fn revision(self) -> u64 {
        revision_before(self.next_rev)
    }

    /// The header of a response now.
    pub open spec fn header(self) -> ResponseHeader {
        header_at(self.revision() as i64)
    }

    /// What is known of a key, if it is alive.
    pub open spec fn living(self, key: Seq<u8>) -> Option<KeyStateView> {
        if self.keys.contains_key(key) && self.keys[key].alive() {
            Some(self.keys[key])
        } else {
            None
        }
    }
}

impl StoreState {
    /// The keys are in order, and the leases can be renewed.
    pub open spec fn wf(&self) -> bool {
        &&& self.keys.wf()
        &&& leases_renewable(self.leases@)
    }

    /// A store that holds nothing.
    pub fn new() -> (r: Self)
        ensures
            r.wf(),
            r@ == empty_store(),
    {
        let r = StoreState {
            keys: SortedMap::new(),
            leases: BTreeMap::new(),
            watchers: Vec::new(),
            next_rev: 1,
            compact_rev: 0,
            next_lease_id: 1,
            key_count: 0,
            watcher_count: 0,
            lease_count: 0,
            outbox: Vec::new(),
        };
        assert(r@ =~= empty_store());
        r
    }

    /// The header of a response now.
    pub fn header(&self) -> (r: ResponseHeader)
        ensures
            r == self@.header(),
    {
        make_header(current_revision(self.next_rev) as i64)
    }

    /// Takes out what has yet to be sent.
    pub fn take_outbox(&mut self) -> (r: Vec<Delivery>)
        ensures
            delivery_views(r@) == old(self)@.outbox,
            final(self)@ == (StoreView { outbox: Seq::empty(), ..old(self)@ }),
            old(self).wf() ==> final(self).wf(),
    {
        let mut out: Vec<Delivery> = Vec::new();
        std::mem::swap(&mut out, &mut self.outbox);
        assert(self@ =~= (StoreView { outbox: Seq::empty(), ..old(self)@ }));
        out
    }

    /// What is known of a key, if it is alive.
    pub fn living(&self, key: &[u8]) -> (r: Option<&KeyState>)
        requires
            self.wf(),
        ensures
            match r {
                Some(ks) => self@.living(key@) == Some(ks@),
                None => self@.living(key@) is None,
            },
    {
        match self.keys.get(key) {
            Some(ks) => if ks.is_alive() {
                Some(ks)
            } else {
                None
            },
            None => None,
        }
    }
}

} // verus!
