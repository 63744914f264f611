//! The cluster, which has one member.

use crate::storage::state::ResponseHeader;
use crate::storage::store::Store;
use vstd::prelude::*;

verus! {

/// A member of the cluster.
#[derive(Debug)]
pub struct Member {
    pub id: u64,
    pub name: String,
    pub peer_urls: Vec<String>,
    pub client_urls: Vec<String>,
    pub is_learner: bool,
}

/// Whether a member is this one.
pub open spec fn is_self(m: Member) -> bool {
    &&& m.id == 1
    &&& m.name@ == "rudurru"@
    &&& m.peer_urls@.len() == 1
    &&& m.peer_urls@[0]@ == "http://localhost:2380"@
    &&& m.client_urls@.len() == 1
    &&& m.client_urls@[0]@ == "http://localhost:2379"@
    &&& !m.is_learner
}

/// This member.
pub fn self_member() -> (r: Member)
    ensures
        is_self(r),
{
    let mut peer_urls: Vec<String> = Vec::new();
    peer_urls.push("http://localhost:2380".to_owned());
    let mut client_urls: Vec<String> = Vec::new();
    client_urls.push("http://localhost:2379".to_owned());
    Member { id: 1, name: "rudurru".to_owned(), peer_urls, client_urls, is_learner: false }
}

/// The members of the cluster.
#[derive(Debug)]
pub struct MemberListResponse {
    pub header: ResponseHeader,
    pub members: Vec<Member>,
}

/// Lists the members: this one alone.
pub fn member_list(store: &Store) -> (r: MemberListResponse)
    ensures
        r.header == store@.header(),
        r.members@.len() == 1,
        is_self(r.members@[0]),
{
    let mut members: Vec<Member> = Vec::new();
    members.push(self_member());
    MemberListResponse { header: store.state.header(), members }
}

/// What requests to change the cluster are told.
pub fn change_refusal() -> (r: &'static str)
    ensures
        r@ == "single-node cluster"@,
{
    "single-node cluster"
}

} // verus!
