//! What the store is asked and what it answers.

use crate::bytes::copy_bytes;
use crate::storage::apply::byte_strings;
use crate::storage::compare::{compare_views, Compare, CompareView};
use crate::storage::state::ResponseHeader;
use vstd::prelude::*;
use vstd::string::StringExecFns;

verus! {

// ── Errors ────────────────────────────────────────────────────────

/// The class of an error, by which a client tells what to do.
#[derive(Debug, Clone, Copy, PartialEq, Eq, Structural)]
pub enum Code {
    Unavailable,
    OutOfRange,
    NotFound,
    Internal,
}

/// Why a request is refused.
#[derive(Debug)]
pub enum StoreError {
    /// A range was asked for at a revision that has not been given out.
    FutureRevision,
    /// A range was asked for at a revision that has been compacted.
    CompactedRevision,
    /// A compaction was asked for at a revision that has not been given out.
    CompactFuture,
    /// A compaction was asked for at a revision that has been compacted.
    CompactCompacted,
    /// There is no such key whose value or lease could be kept.
    KeyNotFound,
    /// There is no such lease.
    LeaseNotFound,
    /// The change could not be logged.
    WalWriteFailed,
    /// The deletion of the keys of a lease could not be logged.
    LeaseDeletionFailed,
    /// The log could not be read, for the given reason.
    WalScanFailed(String),
}

impl StoreError {
    /// The class of the error.
    pub open spec fn class(&self) -> Code {
        match self {
            StoreError::FutureRevision => Code::Unavailable,
            StoreError::CompactedRevision => Code::Unavailable,
            StoreError::CompactFuture => Code::OutOfRange,
            StoreError::CompactCompacted => Code::OutOfRange,
            StoreError::KeyNotFound => Code::NotFound,
            StoreError::LeaseNotFound => Code::NotFound,
            StoreError::WalWriteFailed => Code::Internal,
            StoreError::LeaseDeletionFailed => Code::Internal,
            StoreError::WalScanFailed(_) => Code::Internal,
        }
    }

    /// The class of the error.
    pub fn code(&self) -> (r: Code)
        ensures
            r == self.class(),
    {
        match self {
            StoreError::FutureRevision => Code::Unavailable,
            StoreError::CompactedRevision => Code::Unavailable,
            StoreError::CompactFuture => Code::OutOfRange,
            StoreError::CompactCompacted => Code::OutOfRange,
            StoreError::KeyNotFound => Code::NotFound,
            StoreError::LeaseNotFound => Code::NotFound,
            StoreError::WalWriteFailed => Code::Internal,
            StoreError::LeaseDeletionFailed => Code::Internal,
            StoreError::WalScanFailed(_) => Code::Internal,
        }
    }

    /// What a client is told.
    pub open spec fn text(&self) -> Seq<char> {
        match self {
            StoreError::FutureRevision | StoreError::CompactFuture =>
                "etcdserver: mvcc: required revision is a future revision"@,
            StoreError::CompactedRevision | StoreError::CompactCompacted =>
                "etcdserver: mvcc: required revision has been compacted"@,
            StoreError::KeyNotFound => "key not found"@,
            StoreError::LeaseNotFound => "etcdserver: lease not found"@,
            StoreError::WalWriteFailed => "etcdserver: wal write failed"@,
            StoreError::LeaseDeletionFailed => "WAL write failed during lease key deletion"@,
            StoreError::WalScanFailed(e) => "wal scan failed: "@ + e@,
        }
    }

    /// What a client is told.
    pub fn message(&self) -> (r: String)
        ensures
            r@ == self.text(),
    {
        match self {
            StoreError::FutureRevision | StoreError::CompactFuture => {
                "etcdserver: mvcc: required revision is a future revision".to_owned()
            },
            StoreError::CompactedRevision | StoreError::CompactCompacted => {
                "etcdserver: mvcc: required revision has been compacted".to_owned()
            },
            StoreError::KeyNotFound => "key not found".to_owned(),
            StoreError::LeaseNotFound => "etcdserver: lease not found".to_owned(),
            StoreError::WalWriteFailed => "etcdserver: wal write failed".to_owned(),
            StoreError::LeaseDeletionFailed => {
                "WAL write failed during lease key deletion".to_owned()
            },
            StoreError::WalScanFailed(e) => {
                let mut text = "wal scan failed: ".to_owned();
                text.append(e.as_str());
                text
            },
        }
    }
}

/// By its class a client tells a revision that is out of reach of a query, one that is out of the
/// range of a compaction, something that is not there, and a fault of the store. What it is told of
/// a revision is the same whatever was asked.
pub proof fn law_errors_tell_the_trouble(e: StoreError)
    ensures
        (e is FutureRevision || e is CompactedRevision) == (e.class() == Code::Unavailable),
        (e is CompactFuture || e is CompactCompacted) == (e.class() == Code::OutOfRange),
        (e is KeyNotFound || e is LeaseNotFound) == (e.class() == Code::NotFound),
        (e is WalWriteFailed || e is LeaseDeletionFailed || e is WalScanFailed) == (e.class()
            == Code::Internal),
        e is FutureRevision || e is CompactFuture ==> e.text()
            == "etcdserver: mvcc: required revision is a future revision"@,
        e is CompactedRevision || e is CompactCompacted ==> e.text()
            == "etcdserver: mvcc: required revision has been compacted"@,
        e is KeyNotFound ==> e.text() == "key not found"@,
        e is LeaseNotFound ==> e.text() == "etcdserver: lease not found"@,
        e is WalWriteFailed ==> e.text() == "etcdserver: wal write failed"@,
        e is LeaseDeletionFailed ==> e.text() == "WAL write failed during lease key deletion"@,
        e matches StoreError::WalScanFailed(reason) ==> e.text() == "wal scan failed: "@
            + reason@,
{
}

// ── Range ─────────────────────────────────────────────────────────

/// What a range request asks.
#[verifier::ext_equal]
pub struct RangeRequestView {
    pub key: Seq<u8>,
    pub range_end: Seq<u8>,
    pub limit: i64,
    pub revision: i64,
    pub keys_only: bool,
    pub count_only: bool,
    pub min_mod_revision: i64,
    pub max_mod_revision: i64,
    pub min_create_revision: i64,
    pub max_create_revision: i64,
}

/// Asks for keys, now or at an earlier revision. Keys come in their order, whatever order is
/// asked for.
#[derive(Debug)]
pub struct RangeRequest {
    pub key: Vec<u8>,
    pub range_end: Vec<u8>,
    pub limit: i64,
    pub revision: i64,
    pub keys_only: bool,
    pub count_only: bool,
    pub min_mod_revision: i64,
    pub max_mod_revision: i64,
    pub min_create_revision: i64,
    pub max_create_revision: i64,
}

impl View for RangeRequest {
    type V = RangeRequestView;

    open spec fn view(&self) -> RangeRequestView {
        RangeRequestView {
            key: self.key@,
            range_end: self.range_end@,
            limit: self.limit,
            revision: self.revision,
            keys_only: self.keys_only,
            count_only: self.count_only,
            min_mod_revision: self.min_mod_revision,
            max_mod_revision: self.max_mod_revision,
            min_create_revision: self.min_create_revision,
            max_create_revision: self.max_create_revision,
        }
    }
}

impl RangeRequest {
    /// A request for the keys that a key and a range end stand for, as they are now.
    pub fn new(key: Vec<u8>, range_end: Vec<u8>) -> (r: Self)
        ensures
            r@ == (RangeRequestView {
                key: key@,
                range_end: range_end@,
                limit: 0,
                revision: 0,
                keys_only: false,
                count_only: false,
                min_mod_revision: 0,
                max_mod_revision: 0,
                min_create_revision: 0,
                max_create_revision: 0,
            }),
    {
        RangeRequest {
            key,
            range_end,
            limit: 0,
            revision: 0,
            keys_only: false,
            count_only: false,
            min_mod_revision: 0,
            max_mod_revision: 0,
            min_create_revision: 0,
            max_create_revision: 0,
        }
    }
}

impl Clone for RangeRequest {
    fn clone(&self) -> (r: Self)
        ensures
            r@ == self@,
    {
        RangeRequest {
            key: copy_bytes(&self.key),
            range_end: copy_bytes(&self.range_end),
            limit: self.limit,
            revision: self.revision,
            keys_only: self.keys_only,
            count_only: self.count_only,
            min_mod_revision: self.min_mod_revision,
            max_mod_revision: self.max_mod_revision,
            min_create_revision: self.min_create_revision,
            max_create_revision: self.max_create_revision,
        }
    }
}

/// What a range response says.
#[verifier::ext_equal]
pub struct RangeResponseView {
    pub header: ResponseHeader,
    pub kvs: Seq<Seq<u8>>,
    pub more: bool,
    pub count: i64,
}

/// The key-value messages of the keys that were asked for, how many keys there are in all, and
/// whether some were left out.
#[derive(Debug)]
pub struct RangeResponse {
    pub header: ResponseHeader,
    pub kvs: Vec<Vec<u8>>,
    pub more: bool,
    pub count: i64,
}

impl View for RangeResponse {
    type V = RangeResponseView;

    open spec fn view(&self) -> RangeResponseView {
        RangeResponseView {
            header: self.header,
            kvs: byte_strings(self.kvs@),
            more: self.more,
            count: self.count,
        }
    }
}

// ── Put ───────────────────────────────────────────────────────────

/// What a put asks.
#[verifier::ext_equal]
pub struct PutRequestView {
    pub key: Seq<u8>,
    pub value: Seq<u8>,
    pub lease: i64,
    pub prev_kv: bool,
    pub ignore_value: bool,
    pub ignore_lease: bool,
}

/// Asks to put a value under a key.
#[derive(Debug)]
pub struct PutRequest {
    pub key: Vec<u8>,
    pub value: Vec<u8>,
    pub lease: i64,
    pub prev_kv: bool,
    pub ignore_value: bool,
    pub ignore_lease: bool,
}

impl View for PutRequest {
    type V = PutRequestView;

    open spec fn view(&self) -> PutRequestView {
        PutRequestView {
            key: self.key@,
            value: self.value@,
            lease: self.lease,
            prev_kv: self.prev_kv,
            ignore_value: self.ignore_value,
            ignore_lease: self.ignore_lease,
        }
    }
}

impl PutRequest {
    /// A put of a value under a key, without a lease.
    pub fn new(key: Vec<u8>, value: Vec<u8>) -> (r: Self)
        ensures
            r@ == (PutRequestView {
                key: key@,
                value: value@,
                lease: 0,
                prev_kv: false,
                ignore_value: false,
                ignore_lease: false,
            }),
    {
        PutRequest {
            key,
            value,
            lease: 0,
            prev_kv: false,
            ignore_value: false,
            ignore_lease: false,
        }
    }
}

/// What a put is answered.
#[verifier::ext_equal]
pub struct PutResponseView {
    pub header: ResponseHeader,
    pub prev_kv: Seq<u8>,
}

/// The answer to a put: the message of what was there before, if that was asked for.
#[derive(Debug)]
pub struct PutResponse {
    pub header: ResponseHeader,
    pub prev_kv: Vec<u8>,
}

impl View for PutResponse {
    type V = PutResponseView;

    open spec fn view(&self) -> PutResponseView {
        PutResponseView { header: self.header, prev_kv: self.prev_kv@ }
    }
}

// ── Delete ────────────────────────────────────────────────────────

/// What a deletion asks.
#[verifier::ext_equal]
pub struct DeleteRangeRequestView {
    pub key: Seq<u8>,
    pub range_end: Seq<u8>,
    pub prev_kv: bool,
}

/// Asks to delete keys.
#[derive(Debug)]
pub struct DeleteRangeRequest {
    pub key: Vec<u8>,
    pub range_end: Vec<u8>,
    pub prev_kv: bool,
}

impl View for DeleteRangeRequest {
    type V = DeleteRangeRequestView;

    open spec fn view(&self) -> DeleteRangeRequestView {
        DeleteRangeRequestView {
            key: self.key@,
            range_end: self.range_end@,
            prev_kv: self.prev_kv,
        }
    }
}

impl DeleteRangeRequest {
    /// A deletion of the keys that a key and a range end stand for.
    pub fn new(key: Vec<u8>, range_end: Vec<u8>) -> (r: Self)
        ensures
            r@ == (DeleteRangeRequestView {
                key: key@,
                range_end: range_end@,
                prev_kv: false,
            }),
    {
        DeleteRangeRequest { key, range_end, prev_kv: false }
    }
}

/// What a deletion is answered.
#[verifier::ext_equal]
pub struct DeleteRangeResponseView {
    pub header: ResponseHeader,
    pub deleted: i64,
    pub prev_kvs: Seq<Seq<u8>>,
}

/// The answer to a deletion: how many keys were deleted, and the messages of what was there
/// before, if that was asked for.
#[derive(Debug)]
pub struct DeleteRangeResponse {
    pub header: ResponseHeader,
    pub deleted: i64,
    pub prev_kvs: Vec<Vec<u8>>,
}

impl View for DeleteRangeResponse {
    type V = DeleteRangeResponseView;

    open spec fn view(&self) -> DeleteRangeResponseView {
        DeleteRangeResponseView {
            header: self.header,
            deleted: self.deleted,
            prev_kvs: byte_strings(self.prev_kvs@),
        }
    }
}

// ── Transactions ──────────────────────────────────────────────────

/// What an operation asks.
#[verifier::ext_equal]
pub enum RequestOpView {
    Range(RangeRequestView),
    Put(PutRequestView),
    DeleteRange(DeleteRangeRequestView),
    Txn,
    Nothing,
}

/// An operation of a transaction. A transaction within it is answered but not carried out.
#[derive(Debug)]
pub enum RequestOp {
    Range(RangeRequest),
    Put(PutRequest),
    DeleteRange(DeleteRangeRequest),
    Txn,
    Nothing,
}

impl View for RequestOp {
    type V = RequestOpView;

    open spec fn view(&self) -> RequestOpView {
        match self {
            RequestOp::Range(r) => RequestOpView::Range(r@),
            RequestOp::Put(p) => RequestOpView::Put(p@),
            RequestOp::DeleteRange(d) => RequestOpView::DeleteRange(d@),
            RequestOp::Txn => RequestOpView::Txn,
            RequestOp::Nothing => RequestOpView::Nothing,
        }
    }
}

/// The views of operations.
pub open spec fn op_views(ops: Seq<RequestOp>) -> Seq<RequestOpView> {
    ops.map_values(|o: RequestOp| o@)
}

/// What an operation is answered.
#[verifier::ext_equal]
pub enum ResponseOpView {
    Range(RangeResponseView),
    Put(PutResponseView),
    DeleteRange(DeleteRangeResponseView),
    Txn { succeeded: bool },
}

/// The answer to an operation of a transaction.
#[derive(Debug)]
pub enum ResponseOp {
    Range(RangeResponse),
    Put(PutResponse),
    DeleteRange(DeleteRangeResponse),
    Txn { succeeded: bool },
}

impl View for ResponseOp {
    type V = ResponseOpView;

    open spec fn view(&self) -> ResponseOpView {
        match self {
            ResponseOp::Range(r) => ResponseOpView::Range(r@),
            ResponseOp::Put(p) => ResponseOpView::Put(p@),
            ResponseOp::DeleteRange(d) => ResponseOpView::DeleteRange(d@),
            ResponseOp::Txn { succeeded } => ResponseOpView::Txn { succeeded: *succeeded },
        }
    }
}

/// The views of answers.
pub open spec fn response_views(rs: Seq<ResponseOp>) -> Seq<ResponseOpView> {
    rs.map_values(|r: ResponseOp| r@)
}

/// What a transaction asks.
#[verifier::ext_equal]
pub struct TxnRequestView {
    pub compare: Seq<CompareView>,
    pub success: Seq<RequestOpView>,
    pub failure: Seq<RequestOpView>,
}

/// Asks to carry out some operations if all conditions hold, and others if not.
#[derive(Debug)]
pub struct TxnRequest {
    pub compare: Vec<Compare>,
    pub success: Vec<RequestOp>,
    pub failure: Vec<RequestOp>,
}

impl View for TxnRequest {
    type V = TxnRequestView;

    open spec fn view(&self) -> TxnRequestView {
        TxnRequestView {
            compare: compare_views(self.compare@),
            success: op_views(self.success@),
            failure: op_views(self.failure@),
        }
    }
}

/// What a transaction is answered.
#[verifier::ext_equal]
pub struct TxnResponseView {
    pub header: ResponseHeader,
    pub succeeded: bool,
    pub responses: Seq<ResponseOpView>,
}

/// The answer to a transaction: whether the conditions held, and the answers to the operations.
#[derive(Debug)]
pub struct TxnResponse {
    pub header: ResponseHeader,
    pub succeeded: bool,
    pub responses: Vec<ResponseOp>,
}

impl View for TxnResponse {
    type V = TxnResponseView;

    open spec fn view(&self) -> TxnResponseView {
        TxnResponseView {
            header: self.header,
            succeeded: self.succeeded,
            responses: response_views(self.responses@),
        }
    }
}

// ── Compaction ────────────────────────────────────────────────────

/// Asks to give up the revisions before one. Whether to wait for that is not looked at.
#[derive(Debug, Clone, Copy, PartialEq, Eq, Structural)]
pub struct CompactionRequest {
    pub revision: i64,
    pub physical: bool,
}

/// The answer to a compaction.
#[derive(Debug, Clone, Copy, PartialEq, Eq, Structural)]
pub struct CompactionResponse {
    pub header: ResponseHeader,
}

// ── Leases ────────────────────────────────────────────────────────

/// Asks for a lease: for how many seconds, and under which id; zero leaves the id open.
#[derive(Debug, Clone, Copy, PartialEq, Eq, Structural)]
pub struct LeaseGrantRequest {
    pub ttl: i64,
    pub id: i64,
}

/// The lease that was granted.
#[derive(Debug, Clone, Copy, PartialEq, Eq, Structural)]
pub struct LeaseGrantResponse {
    pub header: ResponseHeader,
    pub id: i64,
    pub ttl: i64,
}

/// Asks to end a lease and to delete its keys.
#[derive(Debug, Clone, Copy, PartialEq, Eq, Structural)]
pub struct LeaseRevokeRequest {
    pub id: i64,
}

/// The answer to the end of a lease.
#[derive(Debug, Clone, Copy, PartialEq, Eq, Structural)]
pub struct LeaseRevokeResponse {
    pub header: ResponseHeader,
}

/// The answer to a sign of life: the seconds that the lease was granted for.
#[derive(Debug, Clone, Copy, PartialEq, Eq, Structural)]
pub struct LeaseKeepAliveResponse {
    pub header: ResponseHeader,
    pub id: i64,
    pub ttl: i64,
}

/// Asks how long a lease still lasts, and for its keys.
#[derive(Debug, Clone, Copy, PartialEq, Eq, Structural)]
pub struct LeaseTimeToLiveRequest {
    pub id: i64,
    pub keys: bool,
}

/// What is known of a lease.
#[verifier::ext_equal]
pub struct LeaseTimeToLiveResponseView {
    pub header: ResponseHeader,
    pub id: i64,
    pub ttl: i64,
    pub granted_ttl: i64,
    pub keys: Seq<Seq<u8>>,
}

/// How many seconds a lease still lasts and was granted for, and its keys.
#[derive(Debug)]
pub struct LeaseTimeToLiveResponse {
    pub header: ResponseHeader,
    pub id: i64,
    pub ttl: i64,
    pub granted_ttl: i64,
    pub keys: Vec<Vec<u8>>,
}

impl View for LeaseTimeToLiveResponse {
    type V = LeaseTimeToLiveResponseView;

    open spec fn view(&self) -> LeaseTimeToLiveResponseView {
        LeaseTimeToLiveResponseView {
            header: self.header,
            id: self.id,
            ttl: self.ttl,
            granted_ttl: self.granted_ttl,
            keys: byte_strings(self.keys@),
        }
    }
}

/// The ids of the leases that are alive.
#[derive(Debug)]
pub struct LeaseLeasesResponse {
    pub header: ResponseHeader,
    pub leases: Vec<i64>,
}

} // verus!
