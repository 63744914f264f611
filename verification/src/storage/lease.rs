//! Leases: granting, renewing, ending and running out.

use crate::storage::apply::after_deletes;
use crate::storage::leases::{ascending_list, lease_ids, LeaseState};
use crate::storage::messages::{
    LeaseGrantRequest, LeaseGrantResponse, LeaseKeepAliveResponse, LeaseLeasesResponse,
    LeaseRevokeRequest, LeaseRevokeResponse, LeaseTimeToLiveRequest, LeaseTimeToLiveResponse,
    LeaseTimeToLiveResponseView, StoreError,
};
use crate::storage::state::{count_down, count_up, counted_down, counted_up, StoreView};
use crate::storage::store::{
    deletion, keys_under_lease, revision_taken, PendingDelete, PendingDeleteView, Store,
};
use vstd::prelude::*;

verus! {

/// The nanoseconds of a second.
pub const NANOS: u128 = 1_000_000_000;

/// The clock never comes this far.
pub const CLOCK_LIMIT: u128 = 0x8000_0000_0000_0000_0000_0000_0000_0000;

/// When a lease that is granted or renewed now runs out.
pub open spec fn expiry_of(now: u128, ttl: i64) -> u128 {
    (now + ttl * NANOS) as u128
}

/// A number one further, back to the least past the largest.
pub open spec fn next_id(id: i64) -> i64 {
    if id == i64::MAX {
        i64::MIN
    } else {
        (id + 1) as i64
    }
}

/// The id that a lease is granted under: the one asked for, or the next free one.
pub open spec fn granted_id(s: StoreView, req: LeaseGrantRequest) -> i64 {
    if req.id != 0 {
        req.id
    } else {
        s.next_lease_id
    }
}

/// A store in which a lease has been granted.
pub open spec fn lease_granted(s: StoreView, req: LeaseGrantRequest, now: u128) -> StoreView {
    let id = granted_id(s, req);
    StoreView {
        leases: s.leases.insert(
            id,
            LeaseState { id, ttl: req.ttl, expires_at: expiry_of(now, req.ttl), key_count: 0 },
        ),
        next_lease_id: if req.id != 0 {
            s.next_lease_id
        } else {
            next_id(s.next_lease_id)
        },
        lease_count: counted_up(s.lease_count),
        ..s
    }
}

/// A store in which a lease has been renewed.
pub open spec fn lease_renewed(s: StoreView, id: i64, now: u128) -> StoreView {
    StoreView {
        leases: s.leases.insert(
            id,
            LeaseState { expires_at: expiry_of(now, s.leases[id].ttl), ..s.leases[id] },
        ),
        ..s
    }
}

/// A store in which a lease has ended, and its keys are not yet deleted.
pub open spec fn lease_ended(s: StoreView, id: i64) -> StoreView {
    StoreView { leases: s.leases.remove(id), lease_count: counted_down(s.lease_count), ..s }
}

/// A store in which a lease has ended, and the deletion of its keys that has yet to be logged, if
/// it has any that are alive.
pub open spec fn lease_taken_out(s: StoreView, id: i64) -> (StoreView, Option<PendingDeleteView>) {
    let t = lease_ended(s, id);
    let doomed = keys_under_lease(t.keys, id);
    if doomed.len() == 0 {
        (t, None)
    } else {
        (revision_taken(t), Some(deletion(t.keys, doomed, t.next_rev, false)))
    }
}

/// The answer to a request for a lease.
pub open spec fn grant_answer(s: StoreView, req: LeaseGrantRequest) -> LeaseGrantResponse {
    LeaseGrantResponse { header: s.header(), id: granted_id(s, req), ttl: req.ttl }
}

/// The answer to the renewal of a lease.
pub open spec fn renewal_answer(s: StoreView, id: i64) -> LeaseKeepAliveResponse {
    LeaseKeepAliveResponse { header: s.header(), id, ttl: s.leases[id].ttl }
}

/// How many seconds are left of a lease; none if it has run out.
pub open spec fn seconds_left(expires_at: u128, now: u128) -> i64 {
    let secs = if expires_at > now {
        (expires_at - now) / NANOS as int
    } else {
        0
    };
    if secs <= i64::MAX {
        secs as i64
    } else {
        0
    }
}

/// What is told of a lease; of one that is not there, minus one.
pub open spec fn lease_told(
    s: StoreView,
    req: LeaseTimeToLiveRequest,
    now: u128,
) -> LeaseTimeToLiveResponseView {
    if s.leases.contains_key(req.id) {
        LeaseTimeToLiveResponseView {
            header: s.header(),
            id: req.id,
            ttl: seconds_left(s.leases[req.id].expires_at, now),
            granted_ttl: s.leases[req.id].ttl,
            keys: if req.keys {
                keys_under_lease(s.keys, req.id)
            } else {
                Seq::empty()
            },
        }
    } else {
        LeaseTimeToLiveResponseView {
            header: s.header(),
            id: req.id,
            ttl: (-1) as i64,
            granted_ttl: (-1) as i64,
            keys: Seq::empty(),
        }
    }
}

/// The leases that have run out.
pub open spec fn expired_ids(s: StoreView, now: u128) -> Set<i64> {
    s.leases.dom().filter(|id: i64| s.leases[id].expires_at <= now)
}

/// How the end of a lease goes on.
#[derive(Debug)]
pub enum RevokeStep {
    /// It had no keys.
    Done(LeaseRevokeResponse),
    /// The deletion of its keys waits to be logged.
    Delete(PendingDelete),
}

impl Store {
    /// Grants a lease.
    pub fn lease_grant(&mut self, req: LeaseGrantRequest, now: u128) -> (r: LeaseGrantResponse)
        requires
            old(self).wf(),
            req.ttl >= 0,
            now < CLOCK_LIMIT,
        ensures
            final(self).wf(),
            final(self)@ == lease_granted(old(self)@, req, now),
            r == grant_answer(old(self)@, req),
    {
        let id: i64 = if req.id != 0 {
            req.id
        } else {
            let id: i64 = self.state.next_lease_id;
            self.state.next_lease_id = id.wrapping_add(1);
            id
        };
        let expires_at: u128 = now + req.ttl as u128 * NANOS;
        let granted = LeaseState { id, ttl: req.ttl, expires_at, key_count: 0 };
        let _ = self.state.leases.insert(id, granted);
        count_up(&mut self.state.lease_count);
        LeaseGrantResponse { header: self.state.header(), id, ttl: req.ttl }
    }

    /// Ends a lease and begins to delete its keys.
    pub fn lease_revoke(&mut self, req: LeaseRevokeRequest) -> (r: RevokeStep)
        requires
            old(self).wf(),
        ensures
            final(self).wf(),
            match r {
                RevokeStep::Done(resp) => lease_taken_out(old(self)@, req.id) == (
                    final(self)@,
                    None::<PendingDeleteView>,
                ) && resp.header == old(self)@.header(),
                RevokeStep::Delete(p) => lease_taken_out(old(self)@, req.id) == (
                    final(self)@,
                    Some(p@),
                ),
            },
    {
        match self.expire_lease(req.id) {
            Some(pending) => RevokeStep::Delete(pending),
            None => RevokeStep::Done(LeaseRevokeResponse { header: self.state.header() }),
        }
    }

    /// Takes a lease out that has run out or is revoked, and begins to delete its keys. Gives
    /// nothing if it has none.
    pub fn expire_lease(&mut self, id: i64) -> (r: Option<PendingDelete>)
        requires
            old(self).wf(),
        ensures
            final(self).wf(),
            match r {
                None => lease_taken_out(old(self)@, id) == (
                    final(self)@,
                    None::<PendingDeleteView>,
                ),
                Some(p) => lease_taken_out(old(self)@, id) == (final(self)@, Some(p@)),
            },
    {
        let _ = self.state.leases.remove(&id);
        count_down(&mut self.state.lease_count);
        self.state.delete_keys_for_lease(id)
    }

    /// Deletes the keys of a lease once that has been logged. Reports if it could not be.
    pub fn finish_lease_delete(&mut self, pending: PendingDelete, logged: bool) -> (r: Result<
        LeaseRevokeResponse,
        StoreError,
    >)
        requires
            old(self).wf(),
        ensures
            final(self).wf(),
            match r {
                Err(e) => !logged && e == StoreError::LeaseDeletionFailed && final(self)@ == old(
                    self,
                )@,
                Ok(resp) => logged && final(self)@ == after_deletes(
                    old(self)@,
                    pending@.keys,
                    pending.rev,
                ) && resp.header == final(self)@.header(),
            },
    {
        if !logged {
            return Err(StoreError::LeaseDeletionFailed);
        }
        self.state.apply_deletes(&pending.keys, pending.rev);
        Ok(LeaseRevokeResponse { header: self.state.header() })
    }

    /// Renews a lease for as long as it was granted.
    pub fn lease_keep_alive(&mut self, id: i64, now: u128) -> (r: Result<
        LeaseKeepAliveResponse,
        StoreError,
    >)
        requires
            old(self).wf(),
            now < CLOCK_LIMIT,
        ensures
            final(self).wf(),
            match r {
                Err(e) => !old(self)@.leases.contains_key(id) && e == StoreError::LeaseNotFound
                    && final(self)@ == old(self)@,
                Ok(resp) => old(self)@.leases.contains_key(id) && final(self)@ == lease_renewed(
                    old(self)@,
                    id,
                    now,
                ) && resp == renewal_answer(old(self)@, id),
            },
    {
        match self.state.leases.get(&id) {
            None => Err(StoreError::LeaseNotFound),
            Some(ls) => {
                let ttl: i64 = ls.ttl;
                let renewed = LeaseState { expires_at: now + ttl as u128 * NANOS, ..*ls };
                let _ = self.state.leases.insert(id, renewed);
                Ok(LeaseKeepAliveResponse { header: self.state.header(), id, ttl })
            },
        }
    }

    /// Tells how long a lease still lasts.
    pub fn lease_time_to_live(&self, req: LeaseTimeToLiveRequest, now: u128) -> (r:
        LeaseTimeToLiveResponse)
        requires
            self.wf(),
        ensures
            r@ == lease_told(self@, req, now),
    {
        let header = self.state.header();
        let resp = match self.state.leases.get(&req.id) {
            Some(ls) => {
                let secs: u128 = if ls.expires_at > now {
                    (ls.expires_at - now) / NANOS
                } else {
                    0
                };
                let ttl: i64 = if secs <= i64::MAX as u128 {
                    secs as i64
                } else {
                    0
                };
                let keys = if req.keys {
                    self.state.keys_of_lease(req.id)
                } else {
                    Vec::new()
                };
                LeaseTimeToLiveResponse {
                    header,
                    id: req.id,
                    ttl,
                    granted_ttl: ls.ttl,
                    keys,
                }
            },
            None => LeaseTimeToLiveResponse {
                header,
                id: req.id,
                ttl: -1,
                granted_ttl: -1,
                keys: Vec::new(),
            },
        };
        assert(resp@ =~= lease_told(self@, req, now));
        resp
    }

    /// The leases that are alive.
    pub fn lease_leases(&self) -> (r: LeaseLeasesResponse)
        requires
            self.wf(),
        ensures
            r.header == self@.header(),
            ascending_list(r.leases@, self@.leases.dom()),
    {
        LeaseLeasesResponse { header: self.state.header(), leases: lease_ids(&self.state.leases) }
    }

    /// How long to wait until the next lease runs out, in nanoseconds; nothing if there is no
    /// lease.
    pub fn expiry_wait(&self, now: u128) -> (r: Option<u128>)
        requires
            self.wf(),
        ensures
            match r {
                None => self@.leases.dom() == Set::<i64>::empty(),
                Some(wait) => {
                    &&& exists|id: i64| #[trigger]
                        self@.leases.contains_key(id) && wait == (if self@.leases[id].expires_at
                            <= now {
                            0
                        } else {
                            self@.leases[id].expires_at - now
                        })
                    &&& forall|id: i64| #[trigger]
                        self@.leases.contains_key(id) ==> wait + now <= self@.leases[id].expires_at
                            || wait == 0
                },
            },
    {
        let ids = lease_ids(&self.state.leases);
        if ids.len() == 0 {
            assert(self@.leases.dom() =~= Set::<i64>::empty());
            return None;
        }
        let mut earliest: u128 = u128::MAX;
        let ghost mut at: int = 0;
        let mut i: usize = 0;
        while i < ids.len()
            invariant
                ascending_list(ids@, self@.leases.dom()),
                ids@.len() > 0,
                i <= ids@.len(),
                i > 0 ==> 0 <= at < i && self@.leases[ids@[at]].expires_at == earliest,
                forall|j: int|
                    0 <= j < i ==> earliest <= self@.leases[#[trigger] ids@[j]].expires_at,
                i == 0 ==> earliest == u128::MAX,
            decreases ids@.len() - i,
        {
            assert(self@.leases.dom().contains(ids@[i as int]));
            if let Some(ls) = self.state.leases.get(&ids[i]) {
                if i == 0 || ls.expires_at < earliest {
                    earliest = ls.expires_at;
                    proof {
                        at = i as int;
                    }
                }
            }
            i = i + 1;
        }
        proof {
            assert(self@.leases.dom().contains(ids@[at]));
            assert(self@.leases.contains_key(ids@[at]));
            assert forall|id: i64| #[trigger] self@.leases.contains_key(id) implies earliest
                <= self@.leases[id].expires_at by {
                assert(self@.leases.dom().contains(id));
                let j = choose|j: int| 0 <= j < ids@.len() && ids@[j] == id;
                assert(ids@[j] == id);
            }
        }
        if earliest <= now {
            Some(0)
        } else {
            Some(earliest - now)
        }
    }

    /// The leases that have run out, in the order of their ids.
    pub fn expired_leases(&self, now: u128) -> (r: Vec<i64>)
        requires
            self.wf(),
        ensures
            ascending_list(r@, expired_ids(self@, now)),
    {
        let all = lease_ids(&self.state.leases);
        let mut ids: Vec<i64> = Vec::new();
        let mut i: usize = 0;
        while i < all.len()
            invariant
                ascending_list(all@, self@.leases.dom()),
                i <= all@.len(),
                forall|a: int, b: int| 0 <= a < b < ids@.len() ==> ids@[a] < ids@[b],
                forall|a: int, j: int|
                    0 <= a < ids@.len() && i <= j < all@.len() ==> ids@[a] < all@[j],
                forall|a: int|
                    0 <= a < ids@.len() ==> expired_ids(self@, now).contains(#[trigger] ids@[a]),
                forall|j: int|
                    0 <= j < i && expired_ids(self@, now).contains(#[trigger] all@[j])
                        ==> ids@.contains(all@[j]),
            decreases all@.len() - i,
        {
            let ghost before = ids@;
            assert(self@.leases.dom().contains(all@[i as int]));
            if let Some(ls) = self.state.leases.get(&all[i]) {
                if ls.expires_at <= now {
                    ids.push(all[i]);
                    assert(ids@[before.len() as int] == all@[i as int]);
                }
            }
            proof {
                assert forall|j: int|
                    0 <= j < i + 1 && expired_ids(self@, now).contains(
                        #[trigger] all@[j],
                    ) implies ids@.contains(all@[j]) by {
                    if j < i {
                        let a = choose|a: int| 0 <= a < before.len() && before[a] == all@[j];
                        assert(ids@[a] == all@[j]);
                    }
                }
            }
            i = i + 1;
        }
        proof {
            assert forall|id: i64| #[trigger] expired_ids(self@, now).contains(id)
                <==> ids@.contains(id) by {
                if expired_ids(self@, now).contains(id) {
                    assert(self@.leases.dom().contains(id));
                    let j = choose|j: int| 0 <= j < all@.len() && all@[j] == id;
                    assert(expired_ids(self@, now).contains(all@[j]));
                }
            }
        }
        ids
    }
}

} // verus!
