//! What leases promise: how long they last, what is told of them, and what their end takes along.

use crate::storage::apply::{after_deletes, after_put};
use crate::storage::delete_laws::{keys_are_deleted, law_lease_takes_its_keys};
use crate::storage::laws::lease_over;
use crate::storage::lease::{
    expired_ids, grant_answer, granted_id, lease_ended, lease_granted, lease_renewed,
    lease_taken_out, lease_told, renewal_answer,
};
use crate::storage::leases::LeaseState;
use crate::storage::meaning::{ascending, there};
use crate::storage::messages::{LeaseGrantRequest, LeaseTimeToLiveRequest, PutRequestView};
use crate::storage::put_laws::law_put_does_what_is_asked;
use crate::storage::state::StoreView;
use crate::storage::store::{pending_put, put_refusal, revision_taken};
use vstd::prelude::*;

verus! {

/// A lease is granted under the id asked for, or under the next one, which then is the next no
/// more. It lasts for the seconds asked for, from now on. Nothing else changes.
pub proof fn law_grant_does_what_is_asked(s: StoreView, req: LeaseGrantRequest, now: u128)
    requires
        req.ttl >= 0,
        now < 0x8000_0000_0000_0000_0000_0000_0000_0000,
        s.next_lease_id < i64::MAX,
        s.lease_count < u64::MAX,
    ensures
        ({
            let t = lease_granted(s, req, now);
            let id = granted_id(s, req);
            &&& req.id != 0 ==> id == req.id && t.next_lease_id == s.next_lease_id
            &&& req.id == 0 ==> id == s.next_lease_id && t.next_lease_id == s.next_lease_id + 1
            &&& t.leases.contains_key(id)
            &&& t.leases[id].id == id
            &&& t.leases[id].ttl == req.ttl
            &&& t.leases[id].expires_at == now + req.ttl * 1_000_000_000
            &&& forall|other: i64|
                other != id ==> #[trigger] t.leases.contains_key(other) == s.leases.contains_key(
                    other,
                ) && (s.leases.contains_key(other) ==> t.leases[other] == s.leases[other])
            &&& t.lease_count == s.lease_count + 1
            &&& t == (StoreView {
                leases: t.leases,
                next_lease_id: t.next_lease_id,
                lease_count: t.lease_count,
                ..s
            })
        }),
{
    assert(0 <= req.ttl * 1_000_000_000 <= 0x7fff_ffff_ffff_ffff * 1_000_000_000);
}

/// The answers to a request for a lease and to its renewal name the id under which the lease is
/// there, and the seconds that it was granted for, at the revision of the store.
pub proof fn law_lease_answers(s: StoreView, req: LeaseGrantRequest, now: u128, id: i64)
    requires
        0 < s.next_rev,
    ensures
        ({
            let r = grant_answer(s, req);
            let t = lease_granted(s, req, now);
            &&& t.leases.contains_key(r.id)
            &&& req.id != 0 ==> r.id == req.id
            &&& r.ttl == req.ttl
            &&& r.ttl == t.leases[r.id].ttl
            &&& r.header.revision == (s.next_rev - 1) as i64
        }),
        ({
            let r = renewal_answer(s, id);
            &&& r.id == id
            &&& r.ttl == s.leases[id].ttl
            &&& r.ttl == lease_renewed(s, id, now).leases[id].ttl
            &&& r.header.revision == (s.next_rev - 1) as i64
        }),
{
}

/// The end of a lease, by revocation or because it has run out: it is gone, the others stay, and
/// its keys that are there are to be deleted, in their order, at the next revision, without their
/// messages; no revision is taken where there are none. Once that has been logged they are deleted,
/// and nothing else. Gives the keys.
pub proof fn law_lease_is_taken_out(s: StoreView, id: i64) -> (ks: Seq<Seq<u8>>)
    requires
        s.keys.dom().finite(),
        0 < s.next_rev < u64::MAX,
    ensures
        ascending(ks),
        forall|k: Seq<u8>| #[trigger]
            ks.contains(k) <==> there(s.keys, k) && s.keys[k].lease == id,
        ({
            let (t, pending) = lease_taken_out(s, id);
            &&& t.leases == s.leases.remove(id)
            &&& t.keys == s.keys
            &&& t.outbox == s.outbox
            &&& t.watchers == s.watchers
            &&& ks.len() == 0 ==> pending is None && t.next_rev == s.next_rev
            &&& ks.len() > 0 ==> pending is Some && t.next_rev == s.next_rev + 1
            &&& pending matches Some(p) ==> {
                &&& p.keys == ks
                &&& p.rev == s.next_rev
                &&& p.records.len() == ks.len()
                &&& !p.prev_kv
                &&& keys_are_deleted(lease_ended(s, id), after_deletes(t, p.keys, p.rev), ks)
            }
        }),
{
    law_lease_takes_its_keys(lease_ended(s, id), id)
}

/// Two leases that are granted one after the other without asking for an id have different ids.
pub proof fn law_granted_ids_differ(
    s: StoreView,
    a: LeaseGrantRequest,
    b: LeaseGrantRequest,
    now: u128,
)
    requires
        a.id == 0,
        b.id == 0,
    ensures
        granted_id(s, a) != granted_id(lease_granted(s, a, now), b),
{
}

/// A lease that is renewed lasts again, from now on, for the seconds that it was granted for.
/// Nothing else changes.
pub proof fn law_renewal_does_what_is_asked(s: StoreView, id: i64, now: u128)
    requires
        s.leases.contains_key(id),
        s.leases[id].ttl >= 0,
        now < 0x8000_0000_0000_0000_0000_0000_0000_0000,
    ensures
        ({
            let t = lease_renewed(s, id, now);
            &&& t.leases[id] == (LeaseState {
                expires_at: (now + s.leases[id].ttl * 1_000_000_000) as u128,
                ..s.leases[id]
            })
            &&& t.leases[id].expires_at == now + s.leases[id].ttl * 1_000_000_000
            &&& forall|other: i64| #[trigger]
                t.leases.contains_key(other) == s.leases.contains_key(other)
            &&& forall|other: i64|
                other != id && s.leases.contains_key(other) ==> #[trigger] t.leases[other]
                    == s.leases[other]
            &&& t == (StoreView { leases: t.leases, ..s })
        }),
{
    let ttl = s.leases[id].ttl;
    assert(0 <= ttl * 1_000_000_000 <= 0x7fff_ffff_ffff_ffff * 1_000_000_000);
}

/// What is told of a lease: the whole seconds that are left of it, none if it has run out; those
/// that it was granted for; and, if that was asked for, the keys that are there under it, in their
/// order. Of a lease that is not there it is told that there is no time.
pub proof fn law_lease_is_told(s: StoreView, req: LeaseTimeToLiveRequest, now: u128) -> (ks: Seq<
    Seq<u8>,
>)
    requires
        s.keys.dom().finite(),
        0 < s.next_rev < u64::MAX,
    ensures
        ascending(ks),
        forall|k: Seq<u8>| #[trigger]
            ks.contains(k) <==> there(s.keys, k) && s.keys[k].lease == req.id,
        ({
            let r = lease_told(s, req, now);
            let ls = s.leases[req.id];
            &&& r.id == req.id
            &&& r.header.revision == (s.next_rev - 1) as i64
            &&& !s.leases.contains_key(req.id) ==> r.ttl == -1 && r.granted_ttl == -1
                && r.keys.len() == 0
            &&& s.leases.contains_key(req.id) ==> {
                &&& r.granted_ttl == ls.ttl
                &&& ls.expires_at <= now ==> r.ttl == 0
                &&& ls.expires_at > now && ls.expires_at - now < 0x8000_0000_0000_0000
                    * 1_000_000_000 ==> r.ttl * 1_000_000_000 <= ls.expires_at - now < (r.ttl + 1)
                    * 1_000_000_000
                &&& req.keys ==> r.keys == ks
                &&& !req.keys ==> r.keys.len() == 0
            }
        }),
{
    law_lease_takes_its_keys(s, req.id)
}

/// A lease that has just been granted or renewed has all of its seconds left, and after a time
/// that much less.
pub proof fn law_time_passes(
    s: StoreView,
    req: LeaseTimeToLiveRequest,
    grant: LeaseGrantRequest,
    now: u128,
    seconds: u64,
)
    requires
        0 <= seconds <= grant.ttl,
        now < 0x8000_0000_0000_0000_0000_0000_0000_0000,
        req.id == granted_id(s, grant),
    ensures
        ({
            let t = lease_granted(s, grant, now);
            let later = (now + seconds * 1_000_000_000) as u128;
            let u = lease_renewed(t, req.id, later);
            &&& lease_told(t, req, later).ttl == grant.ttl - seconds
            &&& expired_ids(t, later).contains(req.id) == (seconds == grant.ttl)
            &&& lease_told(u, req, later).ttl == grant.ttl
            &&& grant.ttl > 0 ==> !expired_ids(u, later).contains(req.id)
        }),
{
    let left = grant.ttl - seconds;
    assert(seconds * 1_000_000_000 <= grant.ttl * 1_000_000_000) by (nonlinear_arith)
        requires
            seconds <= grant.ttl,
    ;
    assert(grant.ttl * 1_000_000_000 - seconds * 1_000_000_000 == left * 1_000_000_000);
    assert((left * 1_000_000_000) / 1_000_000_000 == left);
    assert((grant.ttl * 1_000_000_000) / 1_000_000_000 == grant.ttl as int);
}

/// The end of a lease takes the lease away and leaves the others; a revocation and its running
/// out do the same.
pub proof fn law_ended_lease_is_gone(s: StoreView, id: i64, other: i64)
    requires
        0 < s.lease_count,
    ensures
        ({
            let t = lease_ended(s, id);
            &&& !t.leases.contains_key(id)
            &&& other != id ==> t.leases.contains_key(other) == s.leases.contains_key(other) && (
            s.leases.contains_key(other) ==> t.leases[other] == s.leases[other])
            &&& t.lease_count == s.lease_count - 1
            &&& t == (StoreView { leases: t.leases, lease_count: t.lease_count, ..s })
        }),
{
}

/// A key that was put under a lease ends with the lease; one that was put without a lease, or
/// under another, does not, whatever lease it had before.
pub proof fn law_key_ends_with_its_lease(s: StoreView, req: PutRequestView, id: i64)
    requires
        put_refusal(s, req) is None,
        !req.ignore_lease,
        s.keys.dom().finite(),
        0 < s.next_rev < 0xffff_ffff_ffff_fffe,
        s.key_count < u64::MAX,
    ensures
        ({
            let p = pending_put(s, req);
            let t = after_put(revision_taken(s), p.key, p.value, p.lease, p.rev, None);
            there(lease_over(t, id).keys, req.key) == (req.lease != id)
        }),
{
    law_put_does_what_is_asked(s, req);
    let p = pending_put(s, req);
    let t = after_put(revision_taken(s), p.key, p.value, p.lease, p.rev, None);
    let ended = lease_ended(t, id);
    let ks = law_lease_takes_its_keys(ended, id);
    assert(ks.contains(req.key) == (req.lease == id));
    assert(ended.keys.contains_key(req.key));
    if ks.len() == 0 {
        assert(!ks.contains(req.key));
    } else {
        let over = lease_over(t, id);
        assert(over.keys.contains_key(req.key) == ended.keys.contains_key(req.key));
        assert(over.keys[req.key] == over.keys[req.key]);
    }
}

} // verus!
