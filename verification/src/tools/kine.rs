//! Taking over the keys of another store: each is created, unless it is there already.

use crate::bytes::copy_bytes;
use crate::storage::compare::{
    compare_holds, law_version_zero_means_absent, Compare, CompareView, TargetUnion,
    TargetUnionView,
};
use crate::storage::messages::{
    PutRequest, PutRequestView, RequestOp, RequestOpView, TxnRequest, TxnRequestView,
};
use crate::storage::state::StoreView;
use crate::storage::txn::txn_begun;
use vstd::prelude::*;

verus! {

/// Whether a key is taken over: one without a name or without a value is not.
pub fn is_taken_over(name: &[u8], value: &[u8]) -> (r: bool)
    ensures
        r == (name@.len() > 0 && value@.len() > 0),
{
    name.len() > 0 && value.len() > 0
}

/// The condition that a key is not there.
pub open spec fn is_absent(key: Seq<u8>) -> CompareView {
    CompareView {
        key,
        range_end: Seq::empty(),
        result: 0,
        target: 0,
        target_union: Some(TargetUnionView::Version(0)),
    }
}

/// The transaction that creates a key if it is not there, and does nothing if it is.
pub open spec fn creation(key: Seq<u8>, value: Seq<u8>) -> TxnRequestView {
    TxnRequestView {
        compare: seq![is_absent(key)],
        success: seq![
            RequestOpView::Put(
                PutRequestView {
                    key,
                    value,
                    lease: 0,
                    prev_kv: false,
                    ignore_value: false,
                    ignore_lease: false,
                },
            ),
        ],
        failure: Seq::empty(),
    }
}

/// The transaction that creates a key if it is not there.
pub fn create_if_absent(key: &[u8], value: &[u8]) -> (r: TxnRequest)
    ensures
        r@ == creation(key@, value@),
{
    let mut compare: Vec<Compare> = Vec::new();
    compare.push(
        Compare {
            key: copy_bytes(key),
            range_end: Vec::new(),
            result: 0,
            target: 0,
            target_union: Some(TargetUnion::Version(0)),
        },
    );
    let mut success: Vec<RequestOp> = Vec::new();
    success.push(RequestOp::Put(PutRequest::new(copy_bytes(key), copy_bytes(value))));
    let r = TxnRequest { compare, success, failure: Vec::new() };
    proof {
        assert(r.compare@[0]@ =~= is_absent(key@));
        assert(r@ =~= creation(key@, value@));
    }
    r
}

/// The transaction writes the key only where it is not alive: taking keys over twice does no more
/// than doing it once, and no key that is there is overwritten.
pub proof fn law_creation_spares_what_is_there(s: StoreView, key: Seq<u8>, value: Seq<u8>)
    requires
        s.living(key) is Some ==> s.living(key)->0.version > 0,
    ensures
        ({
            let run = txn_begun(s, creation(key, value));
            &&& run.succeeded == (s.living(key) is None)
            &&& s.living(key) is Some ==> run.ops.len() == 0
            &&& s.living(key) is None ==> run.ops.len() == 1 && run.ops[0] == RequestOpView::Put(
                PutRequestView {
                    key,
                    value,
                    lease: 0,
                    prev_kv: false,
                    ignore_value: false,
                    ignore_lease: false,
                },
            )
        }),
{
    law_version_zero_means_absent(s, is_absent(key));
    let cs = creation(key, value).compare;
    assert(cs[0] == is_absent(key));
    if s.living(key) is Some {
        assert(!compare_holds(s, cs[0]));
    }
}

} // verus!
