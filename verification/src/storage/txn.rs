//! Transactions: which operations are carried out, and one after the other.

use crate::storage::apply::{after_deletes, after_put};
use crate::storage::compare::{all_hold, compare_holds, eval_compares, CompareView, TargetUnionView};
use crate::storage::delete_laws::{deletion_does, law_deletion_does_what_is_asked};
use crate::storage::messages::{
    op_views, response_views, PutRequestView, RangeRequestView, RangeResponseView, RequestOp,
    RequestOpView, ResponseOp, ResponseOpView, StoreError, TxnRequest, TxnRequestView, TxnResponse,
    TxnResponseView,
};
use crate::storage::put_laws::{law_put_does_what_is_asked, put_does};
use crate::storage::query::{
    found_now, range_refusal, response_of, scan_found, scan_of, target_of, HistoricalScan,
    HistoricalScanView, RangeStep, WalRead,
};
use crate::storage::query_laws::{law_query_finds_what_is_there, query_answers};
use crate::storage::range::{resolved_range, scan_ordered};
use crate::storage::state::StoreView;
use crate::storage::store::{
    delete_answer, pending_delete, pending_put, put_answer, put_refusal, revision_taken,
    PendingDelete, PendingDeleteView, PendingPut, PendingPutView, Store,
};
use crate::storage::wal::KvWalRecordView;
use vstd::prelude::*;

verus! {

/// How far a transaction has come.
#[verifier::ext_equal]
pub struct TxnRunView {
    pub ops: Seq<RequestOpView>,
    pub responses: Seq<ResponseOpView>,
    pub succeeded: bool,
}

/// A transaction that is being carried out: the operations that are left, and the answers to
/// those that are done.
#[derive(Debug)]
pub struct TxnRun {
    pub ops: Vec<RequestOp>,
    pub responses: Vec<ResponseOp>,
    pub succeeded: bool,
}

impl View for TxnRun {
    type V = TxnRunView;

    open spec fn view(&self) -> TxnRunView {
        TxnRunView {
            ops: op_views(self.ops@),
            responses: response_views(self.responses@),
            succeeded: self.succeeded,
        }
    }
}

/// How a transaction goes on.
#[derive(Debug)]
pub enum TxnStep {
    /// An operation is done; the next can be taken.
    Answered,
    /// A put waits to be logged.
    Put(PendingPut),
    /// A deletion waits to be logged.
    Delete(PendingDelete),
    /// A query waits for the log to be read.
    Scan(HistoricalScan),
    /// An operation is refused, which ends the transaction.
    Refused(StoreError),
    /// All operations are done.
    Done(TxnResponse),
}

/// What a transaction sets out to do: the operations of the one or the other branch.
pub open spec fn txn_begun(s: StoreView, req: TxnRequestView) -> TxnRunView {
    let succeeded = all_hold(s, req.compare);
    TxnRunView {
        ops: if succeeded {
            req.success
        } else {
            req.failure
        },
        responses: Seq::empty(),
        succeeded,
    }
}

/// Whether an operation can be carried out: a scan must not end before it begins.
pub open spec fn op_ready(s: StoreView, op: RequestOpView) -> bool {
    match op {
        RequestOpView::Range(r) => range_refusal(s, r) is None ==> scan_ordered(
            resolved_range(r.key, r.range_end),
        ),
        RequestOpView::DeleteRange(d) => scan_ordered(resolved_range(d.key, d.range_end)),
        _ => true,
    }
}

/// A transaction without its first operation.
pub open spec fn op_taken(run: TxnRunView) -> TxnRunView {
    TxnRunView { ops: run.ops.skip(1), ..run }
}

/// A transaction with one more answer.
pub open spec fn op_answered(run: TxnRunView, r: ResponseOpView) -> TxnRunView {
    TxnRunView { responses: run.responses.push(r), ..run }
}

/// The answer to a query that memory can give.
pub open spec fn range_answer(s: StoreView, r: RangeRequestView) -> RangeResponseView {
    if target_of(r) == 0 {
        response_of(found_now(s.keys, r), r, s.revision() as i64)
    } else {
        response_of(scan_of(s.keys, r, target_of(r)).direct, r, target_of(r) as i64)
    }
}

/// Whether the log has to be read for a query.
pub open spec fn range_waits(s: StoreView, r: RangeRequestView) -> bool {
    target_of(r) > 0 && scan_of(s.keys, r, target_of(r)).stale.len() > 0
}

/// What taking the next operation does to a store and a transaction, and how it goes on.
pub open spec fn steps_to(
    s: StoreView,
    run: TxnRunView,
    t: StoreView,
    run2: TxnRunView,
    r: TxnStep,
) -> bool {
    if run.ops.len() == 0 {
        &&& t == s
        &&& run2 == (TxnRunView { responses: Seq::empty(), ..run })
        &&& r matches TxnStep::Done(resp) && resp@ == (TxnResponseView {
            header: s.header(),
            succeeded: run.succeeded,
            responses: run.responses,
        })
    } else {
        match run.ops[0] {
            RequestOpView::Nothing => {
                &&& t == s
                &&& run2 == op_taken(run)
                &&& r is Answered
            },
            RequestOpView::Txn => {
                &&& t == s
                &&& run2 == op_answered(
                    op_taken(run),
                    ResponseOpView::Txn { succeeded: true },
                )
                &&& r is Answered
            },
            RequestOpView::Range(q) => {
                &&& t == s
                &&& if range_refusal(s, q) is Some {
                    &&& run2 == op_taken(run)
                    &&& r == TxnStep::Refused(range_refusal(s, q)->0)
                } else if range_waits(s, q) {
                    &&& run2 == op_taken(run)
                    &&& r matches TxnStep::Scan(scan) && scan@ == scan_of(
                        s.keys,
                        q,
                        target_of(q),
                    ) && scan.direct.wf()
                } else {
                    &&& run2 == op_answered(
                        op_taken(run),
                        ResponseOpView::Range(range_answer(s, q)),
                    )
                    &&& r is Answered
                }
            },
            RequestOpView::Put(q) => {
                &&& t == revision_taken(s)
                &&& run2 == op_taken(run)
                &&& if put_refusal(s, q) is Some {
                    r == TxnStep::Refused(put_refusal(s, q)->0)
                } else {
                    r matches TxnStep::Put(p) && p@ == pending_put(s, q)
                }
            },
            RequestOpView::DeleteRange(q) => {
                &&& t == revision_taken(s)
                &&& run2 == op_taken(run)
                &&& r matches TxnStep::Delete(p) && p@ == pending_delete(s, q)
            },
        }
    }
}

/// A put of a transaction that has been logged: what it does to the store, and the transaction
/// with its answer.
pub open spec fn put_made(
    s: StoreView,
    run: TxnRunView,
    p: PendingPutView,
) -> (StoreView, TxnRunView) {
    (
        after_put(s, p.key, p.value, p.lease, p.rev, None),
        op_answered(run, ResponseOpView::Put(put_answer(s, p))),
    )
}

/// A deletion of a transaction that has been logged: what it does to the store, and the
/// transaction with its answer.
pub open spec fn deletion_made(
    s: StoreView,
    run: TxnRunView,
    p: PendingDeleteView,
) -> (StoreView, TxnRunView) {
    let t = after_deletes(s, p.keys, p.rev);
    (t, op_answered(run, ResponseOpView::DeleteRange(delete_answer(t, p))))
}

/// A transaction with the answer to a query for which the log was read.
pub open spec fn scan_made(
    s: StoreView,
    run: TxnRunView,
    scan: HistoricalScanView,
    recs: Seq<KvWalRecordView>,
) -> TxnRunView {
    op_answered(
        run,
        ResponseOpView::Range(
            response_of(
                scan_found(scan, recs, s.keys),
                scan.req,
                scan.target_rev as i64,
            ),
        ),
    )
}

impl Store {
    /// Begins a transaction: evaluates the conditions and chooses the branch.
    pub fn txn(&self, req: TxnRequest) -> (r: TxnRun)
        requires
            self.wf(),
        ensures
            r@ == txn_begun(self@, req@),
    {
        let succeeded = eval_compares(&self.state, &req.compare);
        let ops = if succeeded {
            req.success
        } else {
            req.failure
        };
        let run = TxnRun { ops, responses: Vec::new(), succeeded };
        assert(run@ =~= txn_begun(self@, req@));
        run
    }
}

impl TxnRun {
    /// Whether the next operation can be carried out.
    pub fn ready(&self, store: &Store) -> (r: bool)
        ensures
            r == (self@.ops.len() > 0 ==> op_ready(store@, self@.ops[0])),
    {
        if self.ops.len() == 0 {
            return true;
        }
        assert(self@.ops[0] == self.ops@[0]@);
        match &self.ops[0] {
            RequestOp::Range(r) => store.range_ready(r),
            RequestOp::DeleteRange(d) => store.delete_ready(d),
            _ => true,
        }
    }

    /// Takes the next operation. An error ends the transaction: what was done before stays done.
    pub fn step(&mut self, store: &mut Store) -> (r: TxnStep)
        requires
            old(store).wf(),
            old(self)@.ops.len() > 0 ==> op_ready(old(store)@, old(self)@.ops[0]),
        ensures
            final(store).wf(),
            steps_to(old(store)@, old(self)@, final(store)@, final(self)@, r),
    {
        let ghost run = self@;
        if self.ops.len() == 0 {
            let mut responses: Vec<ResponseOp> = Vec::new();
            std::mem::swap(&mut responses, &mut self.responses);
            let resp = TxnResponse {
                header: store.state.header(),
                succeeded: self.succeeded,
                responses,
            };
            assert(resp@.responses =~= run.responses);
            assert(self@ =~= TxnRunView { responses: Seq::empty(), ..run });
            return TxnStep::Done(resp);
        }
        assert(run.ops[0] == self.ops@[0]@);
        let op = self.ops.remove(0);
        assert(op_views(self.ops@) =~= run.ops.skip(1));
        assert(self@ =~= op_taken(run));
        match op {
            RequestOp::Nothing => TxnStep::Answered,
            RequestOp::Txn => {
                self.answer(ResponseOp::Txn { succeeded: true });
                TxnStep::Answered
            },
            RequestOp::Range(q) => {
                match store.range(&q) {
                    Err(e) => TxnStep::Refused(e),
                    Ok(RangeStep::NeedWal(scan)) => TxnStep::Scan(scan),
                    Ok(RangeStep::Done(resp)) => {
                        self.answer(ResponseOp::Range(resp));
                        TxnStep::Answered
                    },
                }
            },
            RequestOp::Put(q) => {
                match store.put(q) {
                    Err(e) => TxnStep::Refused(e),
                    Ok(p) => TxnStep::Put(p),
                }
            },
            RequestOp::DeleteRange(q) => TxnStep::Delete(store.delete_range(q)),
        }
    }

    /// Adds an answer.
    fn answer(&mut self, r: ResponseOp)
        ensures
            final(self)@ == op_answered(old(self)@, r@),
    {
        let ghost before = self@;
        self.responses.push(r);
        assert(response_views(self.responses@) =~= before.responses.push(r@));
    }

    /// Goes on after a put was tried to be logged.
    pub fn put_logged(&mut self, store: &mut Store, pending: PendingPut, logged: bool) -> (r:
        Result<(), StoreError>)
        requires
            old(store).wf(),
        ensures
            final(store).wf(),
            if logged {
                &&& r is Ok
                &&& (final(store)@, final(self)@) == put_made(old(store)@, old(self)@, pending@)
            } else {
                &&& r == Err::<(), StoreError>(StoreError::WalWriteFailed)
                &&& final(store)@ == old(store)@
                &&& final(self)@ == old(self)@
            },
    {
        match store.finish_put(pending, logged) {
            Ok(resp) => {
                self.answer(ResponseOp::Put(resp));
                Ok(())
            },
            Err(e) => Err(e),
        }
    }

    /// Goes on after a deletion was tried to be logged.
    pub fn delete_logged(&mut self, store: &mut Store, pending: PendingDelete, logged: bool) -> (r:
        Result<(), StoreError>)
        requires
            old(store).wf(),
        ensures
            final(store).wf(),
            if logged {
                &&& r is Ok
                &&& (final(store)@, final(self)@) == deletion_made(
                    old(store)@,
                    old(self)@,
                    pending@,
                )
            } else {
                &&& r == Err::<(), StoreError>(StoreError::WalWriteFailed)
                &&& final(store)@ == old(store)@
                &&& final(self)@ == old(self)@
            },
    {
        match store.finish_delete_range(pending, logged) {
            Ok(resp) => {
                self.answer(ResponseOp::DeleteRange(resp));
                Ok(())
            },
            Err(e) => Err(e),
        }
    }

    /// Goes on after the log was read.
    pub fn scan_read(&mut self, store: &Store, scan: HistoricalScan, wal: WalRead) -> (r: Result<
        (),
        StoreError,
    >)
        requires
            store.wf(),
            scan.direct.wf(),
        ensures
            if wal is Failed {
                &&& r == Err::<(), StoreError>(StoreError::WalScanFailed(wal->Failed_0))
                &&& final(self)@ == old(self)@
            } else {
                &&& r is Ok
                &&& final(self)@ == scan_made(store@, old(self)@, scan@, wal.records())
            },
    {
        match store.finish_range(scan, wal) {
            Ok(resp) => {
                self.answer(ResponseOp::Range(resp));
                Ok(())
            },
            Err(e) => Err(e),
        }
    }
}

// ── What transactions promise ─────────────────────────────────────

/// How far a transaction has come: the store, the log, and what is left and answered.
#[verifier::ext_equal]
pub struct TxnPoint {
    pub store: StoreView,
    pub log: Seq<KvWalRecordView>,
    pub run: TxnRunView,
}

/// Where an operation that has been taken ends once what has to be logged was logged, or the log
/// was read; nowhere if it is refused, or if there was none.
pub open spec fn op_ends(
    log: Seq<KvWalRecordView>,
    s: StoreView,
    run: TxnRunView,
    step: TxnStep,
) -> Option<TxnPoint> {
    match step {
        TxnStep::Answered => Some(TxnPoint { store: s, log, run }),
        TxnStep::Put(p) => {
            let (t, answered) = put_made(s, run, p@);
            Some(TxnPoint { store: t, log: log.push(p@.record), run: answered })
        },
        TxnStep::Delete(p) => {
            let (t, answered) = deletion_made(s, run, p@);
            Some(TxnPoint { store: t, log: log + p@.records, run: answered })
        },
        TxnStep::Scan(scan) => Some(
            TxnPoint { store: s, log, run: scan_made(s, run, scan@, log) },
        ),
        _ => None,
    }
}

/// One operation of a transaction is done.
pub open spec fn op_done(a: TxnPoint, b: TxnPoint) -> bool {
    exists|t: StoreView, run: TxnRunView, step: TxnStep| #[trigger]
        steps_to(a.store, a.run, t, run, step) && op_ends(a.log, t, run, step) == Some(b)
}

/// What one operation comes to on a store with its log: the store and the log after it, and its
/// answer, if it is one that is answered; nothing if it is refused.
pub open spec fn op_result(
    s: StoreView,
    log: Seq<KvWalRecordView>,
    op: RequestOpView,
) -> Option<(StoreView, Seq<KvWalRecordView>, Seq<ResponseOpView>)> {
    match op {
        RequestOpView::Nothing => Some((s, log, Seq::empty())),
        RequestOpView::Txn => Some((s, log, seq![ResponseOpView::Txn { succeeded: true }])),
        RequestOpView::Range(q) => if range_refusal(s, q) is Some {
            None
        } else {
            let found = if target_of(q) == 0 {
                found_now(s.keys, q)
            } else if range_waits(s, q) {
                scan_found(scan_of(s.keys, q, target_of(q)), log, s.keys)
            } else {
                scan_of(s.keys, q, target_of(q)).direct
            };
            let revision = if target_of(q) == 0 {
                s.revision()
            } else {
                target_of(q)
            };
            Some(
                (
                    s,
                    log,
                    seq![ResponseOpView::Range(response_of(found, q, revision as i64))],
                ),
            )
        },
        RequestOpView::Put(q) => if put_refusal(s, q) is Some {
            None
        } else {
            let p = pending_put(s, q);
            let t = revision_taken(s);
            Some(
                (
                    after_put(t, p.key, p.value, p.lease, p.rev, None),
                    log.push(p.record),
                    seq![ResponseOpView::Put(put_answer(t, p))],
                ),
            )
        },
        RequestOpView::DeleteRange(q) => {
            let p = pending_delete(s, q);
            let t = after_deletes(revision_taken(s), p.keys, p.rev);
            Some(
                (t, log + p.records, seq![ResponseOpView::DeleteRange(delete_answer(t, p))]),
            )
        },
    }
}

/// Where a transaction comes to: all its operations one after the other, each on what the one
/// before it left, up to the first that is refused.
pub open spec fn carried_out(a: TxnPoint) -> TxnPoint
    decreases a.run.ops.len(),
{
    if a.run.ops.len() == 0 {
        a
    } else {
        match op_result(a.store, a.log, a.run.ops[0]) {
            None => a,
            Some((t, log, answers)) => carried_out(
                TxnPoint {
                    store: t,
                    log,
                    run: TxnRunView {
                        ops: a.run.ops.skip(1),
                        responses: a.run.responses + answers,
                        succeeded: a.run.succeeded,
                    },
                },
            ),
        }
    }
}

proof fn lemma_op_done(a: TxnPoint, b: TxnPoint)
    requires
        op_done(a, b),
    ensures
        carried_out(a) == carried_out(b),
        b.run.succeeded == a.run.succeeded,
{
    let (t, run, step) = choose|t: StoreView, run: TxnRunView, step: TxnStep| #[trigger]
        steps_to(a.store, a.run, t, run, step) && op_ends(a.log, t, run, step) == Some(b);
    assert(op_result(a.store, a.log, a.run.ops[0]) is Some);
    let (u, log, answers) = op_result(a.store, a.log, a.run.ops[0])->0;
    assert(b.store == u);
    assert(b.log =~= log);
    assert(b.run.responses =~= a.run.responses + answers);
    assert(b.run.ops =~= a.run.ops.skip(1));
}

/// A whole transaction: whatever the steps in which it is carried out, the store, the log and all
/// the answers at its end are told by the store and the log at its beginning alone. The conditions
/// are held against that store, and the operations of the branch that they choose follow each
/// other on it, with nothing in between.
pub proof fn law_transaction_as_a_whole(trace: Seq<TxnPoint>, req: TxnRequestView)
    requires
        trace.len() > 0,
        trace[0].run == txn_begun(trace[0].store, req),
        forall|i: int| 0 <= i < trace.len() - 1 ==> op_done(#[trigger] trace[i], trace[i + 1]),
    ensures
        ({
            let first = trace[0];
            let last = trace[trace.len() - 1];
            let succeeded = all_hold(first.store, req.compare);
            let begun = TxnPoint {
                run: TxnRunView {
                    ops: if succeeded {
                        req.success
                    } else {
                        req.failure
                    },
                    responses: Seq::empty(),
                    succeeded,
                },
                ..first
            };
            &&& last.run.succeeded == succeeded
            &&& carried_out(last) == carried_out(begun)
            &&& last.run.ops.len() == 0 ==> last == carried_out(begun)
        }),
    decreases trace.len(),
{
    if trace.len() > 1 {
        let front = trace.drop_last();
        assert forall|i: int| 0 <= i < front.len() - 1 implies op_done(
            #[trigger] front[i],
            front[i + 1],
        ) by {
            assert(trace[i] == front[i] && trace[i + 1] == front[i + 1]);
        }
        law_transaction_as_a_whole(front, req);
        assert(op_done(trace[trace.len() - 2], trace[trace.len() - 2 + 1]));
        lemma_op_done(trace[trace.len() - 2], trace[trace.len() - 1]);
    }
}

/// A transaction takes its first branch where each of its conditions holds, and the other where
/// one does not; and nothing has been answered yet.
pub proof fn law_branch_is_chosen(s: StoreView, req: TxnRequestView)
    ensures
        ({
            let run = txn_begun(s, req);
            &&& (forall|i: int| 0 <= i < req.compare.len() ==> compare_holds(
                s,
                #[trigger] req.compare[i],
            )) ==> run.succeeded && run.ops == req.success
            &&& (exists|i: int|
                0 <= i < req.compare.len() && !compare_holds(s, #[trigger] req.compare[i]))
                ==> !run.succeeded && run.ops == req.failure
            &&& run.responses.len() == 0
        }),
{
}

/// Each operation of a transaction does to the store, and is answered, what it does and is answered
/// alone; its answer stands behind those before it, and the operations behind it are left. Gives
/// the keys that the operation finds or deletes, in their order.
pub proof fn law_operation_does_as_alone(a: TxnPoint, b: TxnPoint) -> (ks: Seq<Seq<u8>>)
    requires
        op_done(a, b),
        a.run.ops.len() > 0,
        a.store.keys.dom().finite(),
        0 < a.store.next_rev < u64::MAX,
        a.store.key_count < u64::MAX,
    ensures
        b.run.ops == a.run.ops.skip(1),
        b.run.succeeded == a.run.succeeded,
        a.run.ops[0] is Nothing ==> b.run.responses == a.run.responses,
        !(a.run.ops[0] is Nothing) ==> b.run.responses.len() == a.run.responses.len() + 1
            && b.run.responses.drop_last() == a.run.responses,
        match a.run.ops[0] {
            RequestOpView::Nothing => b.store == a.store && b.log == a.log,
            RequestOpView::Txn => b.store == a.store && b.log == a.log && b.run.responses.last()
                == (ResponseOpView::Txn { succeeded: true }),
            RequestOpView::Range(q) => {
                &&& b.store == a.store
                &&& b.log == a.log
                &&& b.run.responses.last() matches ResponseOpView::Range(resp) && (q.revision > 0
                    ==> resp.header.revision == q.revision) && (q.revision <= 0 ==> query_answers(
                    a.store.keys,
                    q,
                    (a.store.next_rev - 1) as i64,
                    resp,
                    ks,
                ))
            },
            RequestOpView::Put(q) => {
                &&& b.log.len() == a.log.len() + 1
                &&& b.log.drop_last() == a.log
                &&& b.run.responses.last() matches ResponseOpView::Put(resp) && put_does(
                    a.store,
                    q,
                    b.store,
                    resp,
                )
            },
            RequestOpView::DeleteRange(q) => {
                &&& b.log.len() == a.log.len() + ks.len()
                &&& b.log.take(a.log.len() as int) == a.log
                &&& b.run.responses.last() matches ResponseOpView::DeleteRange(resp)
                    && deletion_does(a.store, q, b.store, resp, ks)
            },
        },
{
    let (t, run, step) = choose|t: StoreView, run: TxnRunView, step: TxnStep| #[trigger]
        steps_to(a.store, a.run, t, run, step) && op_ends(a.log, t, run, step) == Some(b);
    if !(a.run.ops[0] is Nothing) {
        assert(b.run.responses.drop_last() =~= a.run.responses);
    }
    match a.run.ops[0] {
        RequestOpView::Range(q) => {
            let revision = (a.store.next_rev - 1) as i64;
            law_query_finds_what_is_there(a.store.keys, q, revision)
        },
        RequestOpView::Put(q) => {
            law_put_does_what_is_asked(a.store, q);
            assert(b.log.drop_last() =~= a.log);
            Seq::empty()
        },
        RequestOpView::DeleteRange(q) => {
            let ks = law_deletion_does_what_is_asked(a.store, q);
            let p = pending_delete(a.store, q);
            assert(b.log.take(a.log.len() as int) =~= a.log);
            assert(ks == p.keys);
            assert(p.records.len() == p.keys.len());
            ks
        },
        _ => Seq::empty(),
    }
}

/// A transaction whose operations are done is answered with the branch that it took and all of the
/// answers, in their order, at the revision of the store, which stays as it is. An operation that
/// is refused is a put or a query that would be refused alone; it changes no key and is not logged.
pub proof fn law_transaction_ends(
    s: StoreView,
    run: TxnRunView,
    t: StoreView,
    run2: TxnRunView,
    r: TxnStep,
)
    requires
        steps_to(s, run, t, run2, r),
        0 < s.next_rev < u64::MAX,
    ensures
        (r is Done) == (run.ops.len() == 0),
        r matches TxnStep::Done(resp) ==> t == s && resp@.succeeded == run.succeeded
            && resp@.responses == run.responses && resp@.header.revision == (s.next_rev - 1) as i64,
        r matches TxnStep::Refused(e) ==> {
            &&& t.keys == s.keys
            &&& t.outbox == s.outbox
            &&& t.leases == s.leases
            &&& run2.responses == run.responses
            &&& match run.ops[0] {
                RequestOpView::Put(q) => put_refusal(s, q) == Some(e),
                RequestOpView::Range(q) => range_refusal(s, q) == Some(e),
                _ => false,
            }
        },
        r is Put ==> run.ops[0] is Put,
        r is Delete ==> run.ops[0] is DeleteRange,
        r is Scan ==> run.ops[0] is Range,
{
}

/// The condition that a key was last changed at a revision.
pub open spec fn unchanged_since(key: Seq<u8>, revision: i64) -> CompareView {
    CompareView {
        key,
        range_end: Seq::empty(),
        result: 0,
        target: 2,
        target_union: Some(TargetUnionView::ModRevision(revision)),
    }
}

/// Compare and swap: a transaction on the condition that a key was last changed at a revision
/// takes its first branch exactly where the key is alive and was. Once it has put the key, the
/// same condition no longer holds, and the one on the new revision does: of those who saw the same
/// revision, only one writes.
pub proof fn law_compare_and_swap(
    s: StoreView,
    put: PutRequestView,
    revision: i64,
    success: Seq<RequestOpView>,
    failure: Seq<RequestOpView>,
)
    requires
        0 < revision < s.next_rev <= i64::MAX,
    ensures
        ({
            let req = TxnRequestView {
                compare: seq![unchanged_since(put.key, revision)],
                success,
                failure,
            };
            let next = TxnRequestView {
                compare: seq![unchanged_since(put.key, s.next_rev as i64)],
                success,
                failure,
            };
            let p = pending_put(s, put);
            let t = after_put(revision_taken(s), p.key, p.value, p.lease, p.rev, None);
            &&& txn_begun(s, req).succeeded == (s.living(put.key) matches Some(ks)
                && ks.mod_revision as i64 == revision)
            &&& txn_begun(s, req).ops == if txn_begun(s, req).succeeded {
                success
            } else {
                failure
            }
            &&& !txn_begun(t, req).succeeded
            &&& txn_begun(t, next).succeeded
        }),
{
    let p = pending_put(s, put);
    let t = after_put(revision_taken(s), p.key, p.value, p.lease, p.rev, None);
    let c = seq![unchanged_since(put.key, revision)];
    let d = seq![unchanged_since(put.key, s.next_rev as i64)];
    assert(all_hold(s, c) == compare_holds(s, c[0]));
    assert(all_hold(t, c) == compare_holds(t, c[0]));
    assert(all_hold(t, d) == compare_holds(t, d[0]));
}

} // verus!
