//! Leases, and their ids in order.

use std::collections::BTreeMap;
use vstd::prelude::*;
use vstd::std_specs::cmp::OrdSpec;
use vstd::std_specs::iter::IteratorSpec;

verus! {

/// A lease: how long it lasts, and when it runs out, in nanoseconds of a steady clock.
#[derive(Debug, Clone, Copy, PartialEq, Eq, Structural)]
pub struct LeaseState {
    pub id: i64,
    pub ttl: i64,
    pub expires_at: u128,
    pub key_count: u64,
}

/// The numbers of a set stand in increasing order in a sequence, each once.
pub open spec fn ascending_list(ids: Seq<i64>, set: Set<i64>) -> bool {
    &&& forall|i: int, j: int| 0 <= i < j < ids.len() ==> ids[i] < ids[j]
    &&& forall|id: i64| #[trigger] set.contains(id) <==> ids.contains(id)
}

/// The ids of leases, in increasing order.
pub fn lease_ids(leases: &BTreeMap<i64, LeaseState>) -> (r: Vec<i64>)
    ensures
        ascending_list(r@, leases@.dom()),
{
    let mut ids: Vec<i64> = Vec::new();
    let ghost all = leases.iter().remaining();
    for e in it: leases.iter()
        invariant
            it.seq() == all,
            ids@.len() == it.index(),
            forall|j: int| 0 <= j < ids@.len() ==> #[trigger] ids@[j] == *all[j].0,
    {
        ids.push(*e.0);
    }
    assert(ids@.len() == all.len());
    let ghost ks = all.map_values(|kv: (&i64, &LeaseState)| *kv.0);
    assert(ids@ =~= ks);
    proof {
        assert forall|i: int, j: int| 0 <= i < j < ids@.len() implies ids@[i] < ids@[j] by {
            assert(ks[i].cmp_spec(&ks[j]) is Less);
        }
        assert forall|id: i64| #[trigger] leases@.dom().contains(id) <==> ids@.contains(id) by {
            if leases@.dom().contains(id) {
                assert(leases@.contains_key(id));
                assert(all.contains((&id, &leases@[id])));
                let j = choose|j: int| 0 <= j < all.len() && all[j] == (&id, &leases@[id]);
                assert(ids@[j] == id);
            }
            if ids@.contains(id) {
                let j = choose|j: int| 0 <= j < ids@.len() && ids@[j] == id;
                assert(leases@.contains_key(*all[j].0));
            }
        }
    }
    ids
}

} // verus!
