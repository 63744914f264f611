//! How a change takes effect in memory.

use crate::bytes::copy_bytes;
use crate::storage::key_value::{decoded_kv, KeyValue};
use crate::storage::state::{
    count_down, count_up, counted_down, counted_up, make_kv_bytes, EventType, KeyState,
    KeyStateView, StoreState, StoreView, WatchEvent, WatchEventView,
};
use crate::storage::wal::{KvWalRecord, KvWalRecordView};
use crate::storage::watcher::with_event;
use vstd::prelude::*;

verus! {

/// A version one further.
pub open spec fn next_version(v: i64) -> i64 {
    if v == i64::MAX {
        i64::MIN
    } else {
        (v + 1) as i64
    }
}

/// The creation revision and the version with which a put begins the lifetime of a key: those
/// that a given message tells; without one, the revision of the put, and one.
pub open spec fn lifetime_begun(kv_bytes: Option<Seq<u8>>, rev: u64) -> (u64, i64) {
    match kv_bytes {
        Some(b) if decoded_kv(b) is Some => (
            decoded_kv(b)->0.create_revision as u64,
            decoded_kv(b)->0.version,
        ),
        _ => (rev, 1),
    }
}

/// What is known of a key after a put, given what was known before. A key that was alive keeps
/// its creation revision and gets the next version; another begins a lifetime. The message is
/// the given one, or made from the fields.
pub open spec fn put_entry(
    before: Option<KeyStateView>,
    key: Seq<u8>,
    value: Seq<u8>,
    lease: i64,
    rev: u64,
    kv_bytes: Option<Seq<u8>>,
) -> KeyStateView {
    let alive = before is Some && before->0.alive();
    let entry = KeyStateView {
        value,
        mod_revision: rev,
        create_revision: if alive {
            before->0.create_revision
        } else {
            lifetime_begun(kv_bytes, rev).0
        },
        version: if alive {
            next_version(before->0.version)
        } else {
            lifetime_begun(kv_bytes, rev).1
        },
        lease,
        delete_revision: 0,
        rebirth: before is Some && (before->0.rebirth || !before->0.alive()),
        kv_bytes: Seq::empty(),
    };
    KeyStateView {
        kv_bytes: match kv_bytes {
            Some(b) => b,
            None => entry.message(key),
        },
        ..entry
    }
}

/// What a map of keys knows of one.
pub open spec fn known(keys: Map<Seq<u8>, KeyStateView>, key: Seq<u8>) -> Option<KeyStateView> {
    if keys.contains_key(key) {
        Some(keys[key])
    } else {
        None
    }
}

/// The keys after a put.
pub open spec fn keys_after_put(
    keys: Map<Seq<u8>, KeyStateView>,
    key: Seq<u8>,
    value: Seq<u8>,
    lease: i64,
    rev: u64,
    kv_bytes: Option<Seq<u8>>,
) -> Map<Seq<u8>, KeyStateView> {
    keys.insert(key, put_entry(known(keys, key), key, value, lease, rev, kv_bytes))
}

/// The keys after a deletion: the key, if it was alive, is marked with the revision.
pub open spec fn keys_after_delete(
    keys: Map<Seq<u8>, KeyStateView>,
    key: Seq<u8>,
    rev: u64,
) -> Map<Seq<u8>, KeyStateView> {
    if keys.contains_key(key) && keys[key].alive() {
        keys.insert(key, KeyStateView { delete_revision: rev, ..keys[key] })
    } else {
        keys
    }
}

/// The event of a put.
pub open spec fn put_event(
    before: Option<KeyStateView>,
    key: Seq<u8>,
    entry: KeyStateView,
) -> WatchEventView {
    WatchEventView {
        revision: entry.mod_revision,
        event_type: EventType::Put,
        key,
        kv_bytes: entry.kv_bytes,
        prev_kv_bytes: match before {
            Some(b) => b.kv_bytes,
            None => Seq::empty(),
        },
    }
}

/// The event of a deletion.
pub open spec fn delete_event(before: KeyStateView, key: Seq<u8>, rev: u64) -> WatchEventView {
    WatchEventView {
        revision: rev,
        event_type: EventType::Delete,
        key,
        kv_bytes: before.kv_bytes,
        prev_kv_bytes: before.kv_bytes,
    }
}

/// A store after a put.
pub open spec fn after_put(
    s: StoreView,
    key: Seq<u8>,
    value: Seq<u8>,
    lease: i64,
    rev: u64,
    kv_bytes: Option<Seq<u8>>,
) -> StoreView {
    let keys = keys_after_put(s.keys, key, value, lease, rev, kv_bytes);
    with_event(
        StoreView {
            keys,
            key_count: if s.living(key) is None {
                counted_up(s.key_count)
            } else {
                s.key_count
            },
            ..s
        },
        put_event(s.living(key), key, keys[key]),
    )
}

/// A store after a deletion.
pub open spec fn after_delete(s: StoreView, key: Seq<u8>, rev: u64) -> StoreView {
    match s.living(key) {
        None => s,
        Some(before) => with_event(
            StoreView {
                keys: keys_after_delete(s.keys, key, rev),
                key_count: counted_down(s.key_count),
                ..s
            },
            delete_event(before, key, rev),
        ),
    }
}

/// A store after the deletion of several keys, one after the other.
pub open spec fn after_deletes(s: StoreView, keys: Seq<Seq<u8>>, rev: u64) -> StoreView
    decreases keys.len(),
{
    if keys.len() == 0 {
        s
    } else {
        after_delete(after_deletes(s, keys.drop_last(), rev), keys.last(), rev)
    }
}

/// A store after a record of the log.
pub open spec fn after_record(s: StoreView, rec: KvWalRecordView) -> StoreView {
    if rec.deletes() {
        after_delete(
            s,
            match rec.key() {
                Some(k) => k,
                None => Seq::empty(),
            },
            rec.revision(),
        )
    } else {
        match decoded_kv(rec.kv_bytes) {
            Some(kv) => after_put(
                s,
                kv.key,
                kv.value,
                kv.lease,
                rec.revision(),
                Some(rec.kv_bytes),
            ),
            None => s,
        }
    }
}

impl StoreState {
    /// Puts a value under a key. Gives what was known of the key, if it was alive.
    pub fn apply(
        &mut self,
        key: Vec<u8>,
        value: Vec<u8>,
        lease: i64,
        rev: u64,
        kv_bytes: Option<Vec<u8>>,
    ) -> (r: Option<KeyState>)
        requires
            old(self).wf(),
        ensures
            final(self).wf(),
            final(self)@ == after_put(
                old(self)@,
                key@,
                value@,
                lease,
                rev,
                contents(kv_bytes),
            ),
            match r {
                Some(ks) => old(self)@.living(key@) == Some(ks@),
                None => old(self)@.living(key@) is None,
            },
    {
        let begun: (u64, i64) = match &kv_bytes {
            Some(b) => match KeyValue::decode(b) {
                Some(kv) => (kv.create_revision as u64, kv.version),
                None => (rev, 1),
            },
            None => (rev, 1),
        };
        self.apply_begun(key, value, lease, rev, kv_bytes, begun)
    }

    /// Puts a value under a key, whose lifetime, if the put begins it, begins with the given
    /// creation revision and version.
    fn apply_begun(
        &mut self,
        key: Vec<u8>,
        value: Vec<u8>,
        lease: i64,
        rev: u64,
        kv_bytes: Option<Vec<u8>>,
        begun: (u64, i64),
    ) -> (r: Option<KeyState>)
        requires
            old(self).wf(),
            begun == lifetime_begun(contents(kv_bytes), rev),
        ensures
            final(self).wf(),
            final(self)@ == after_put(
                old(self)@,
                key@,
                value@,
                lease,
                rev,
                contents(kv_bytes),
            ),
            match r {
                Some(ks) => old(self)@.living(key@) == Some(ks@),
                None => old(self)@.living(key@) is None,
            },
    {
        let ghost s = self@;
        let ghost given = contents(kv_bytes);
        let (known_before, rebirth): (Option<KeyState>, bool) = match self.keys.get(&key) {
            Some(ks) => (Some(ks.clone()), ks.rebirth || ks.delete_revision != 0),
            None => (None, false),
        };
        let prev: Option<KeyState> = match known_before {
            Some(ks) => if ks.is_alive() {
                Some(ks)
            } else {
                None
            },
            None => None,
        };
        let (create_revision, version): (u64, i64) = match &prev {
            Some(ks) => (ks.create_revision, ks.version.wrapping_add(1)),
            None => begun,
        };
        let mut entry = KeyState {
            value,
            mod_revision: rev,
            create_revision,
            version,
            lease,
            delete_revision: 0,
            rebirth,
            kv_bytes: Vec::new(),
        };
        let message = match kv_bytes {
            Some(b) => b,
            None => make_kv_bytes(&key, &entry),
        };
        entry.kv_bytes = message;
        assert(entry@ =~= put_entry(known(s.keys, key@), key@, value@, lease, rev, given));

        let event = WatchEvent {
            revision: rev,
            event_type: EventType::Put,
            key: copy_bytes(&key),
            kv_bytes: copy_bytes(&entry.kv_bytes),
            prev_kv_bytes: match &prev {
                Some(ks) => copy_bytes(&ks.kv_bytes),
                None => Vec::new(),
            },
        };
        assert(event@ =~= put_event(s.living(key@), key@, entry@));
        let ghost k = key@;
        self.keys.insert(key, entry);
        if prev.is_none() {
            count_up(&mut self.key_count);
        }
        self.notify_watchers(event);
        proof {
            let keys = keys_after_put(s.keys, k, value@, lease, rev, given);
            assert(keys[k] == entry@);
            assert(self@ =~= after_put(s, k, value@, lease, rev, given));
        }
        prev
    }

    /// Deletes a key, if it is alive. Gives what was known of it then.
    pub fn apply_delete(&mut self, key: Vec<u8>, rev: u64) -> (r: Option<KeyState>)
        requires
            old(self).wf(),
        ensures
            final(self).wf(),
            final(self)@ == after_delete(old(self)@, key@, rev),
            match r {
                Some(ks) => old(self)@.living(key@) == Some(ks@),
                None => old(self)@.living(key@) is None,
            },
    {
        let ghost s = self@;
        let ghost k = key@;
        let prev: KeyState = match self.living(&key) {
            Some(ks) => ks.clone(),
            None => {
                return None;
            },
        };
        let mut entry = prev.clone();
        entry.delete_revision = rev;
        assert(entry@ =~= KeyStateView { delete_revision: rev, ..prev@ });
        let event = WatchEvent {
            revision: rev,
            event_type: EventType::Delete,
            key: copy_bytes(&key),
            kv_bytes: copy_bytes(&prev.kv_bytes),
            prev_kv_bytes: copy_bytes(&prev.kv_bytes),
        };
        assert(event@ =~= delete_event(prev@, key@, rev));
        self.keys.insert(key, entry);
        count_down(&mut self.key_count);
        self.notify_watchers(event);
        assert(self@ =~= after_delete(s, k, rev));
        Some(prev)
    }

    /// Deletes keys one after the other.
    pub fn apply_deletes(&mut self, keys: &Vec<Vec<u8>>, rev: u64)
        requires
            old(self).wf(),
        ensures
            final(self).wf(),
            final(self)@ == after_deletes(old(self)@, byte_strings(keys@), rev),
    {
        let ghost s = self@;
        let ghost ks = byte_strings(keys@);
        let mut i: usize = 0;
        assert(ks.take(0) =~= Seq::empty());
        while i < keys.len()
            invariant
                i <= keys@.len(),
                ks == byte_strings(keys@),
                self.wf(),
                self@ == after_deletes(s, ks.take(i as int), rev),
            decreases keys@.len() - i,
        {
            let _ = self.apply_delete(copy_bytes(&keys[i]), rev);
            assert(ks.take(i + 1).drop_last() =~= ks.take(i as int));
            assert(ks.take(i + 1).last() == keys@[i as int]@);
            i = i + 1;
        }
        assert(ks.take(i as int) =~= ks);
    }
}

/// The contents of a byte string, if there is one.
pub open spec fn contents(o: Option<Vec<u8>>) -> Option<Seq<u8>> {
    match o {
        Some(b) => Some(b@),
        None => None,
    }
}

/// The contents of a list of byte strings.
pub open spec fn byte_strings(s: Seq<Vec<u8>>) -> Seq<Seq<u8>> {
    s.map_values(|v: Vec<u8>| v@)
}

/// Applies a record of the log: rebuilds what is held in memory, and tells the watchers.
pub fn apply_record(state: &mut StoreState, rec: &KvWalRecord)
    requires
        old(state).wf(),
    ensures
        final(state).wf(),
        final(state)@ == after_record(old(state)@, rec@),
{
    let rev: u64 = rec.revision();
    if rec.deletes() {
        let key = match rec.key() {
            Some(k) => copy_bytes(k),
            None => Vec::new(),
        };
        assert(rec@.key() is None ==> key@ =~= Seq::empty());
        let _ = state.apply_delete(key, rev);
    } else if let Some(kv) = KeyValue::decode(&rec.kv_bytes) {
        let begun: (u64, i64) = (kv.create_revision as u64, kv.version);
        let message = Some(copy_bytes(&rec.kv_bytes));
        let _ = state.apply_begun(kv.key, kv.value, kv.lease, rev, message, begun);
    }
}

} // verus!
