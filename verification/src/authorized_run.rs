//! Runs of authorized intents: each intent is staged in order, and the first
//! refusal ends the run.

use vstd::prelude::*;
use crate::authorized::{
    retained, run_frame, stage_vertex, stage_vertex_plan, staged_or_not, unit, vertex_stage_reads,
};
use crate::authorized_delete::{delete_vertex, delete_vertex_plan, deletion_reads};
use crate::authorized_graph::{edge_stage_reads, stage_edge, stage_edge_plan};
use crate::batch::{intents, intents_upto, same_intent, PendingRow, WriteBatch};
use crate::database::Database;
use crate::errors::WriteTxnError;
use crate::ids::{ElementId, RelationId};
use crate::plan::{
    failure, lemma_obeys_and, lemma_obeys_ask, lemma_obeys_failed, obeys, same_error, Plan,
};
use crate::scope::Predicates;
use crate::session::{latest, Event, Host, Session};
use crate::txn::{reads_only, reads_within, same_workspace, WriteTxn};

verus! {

/// The plan of one intent, by its family. A family without an authorization rule
/// of its own cannot be written.
pub open spec fn stage_plan(
    txn: WriteTxn,
    after: WriteTxn,
    database: Database,
    scope: Predicates,
    batch: WriteBatch,
) -> Plan<WriteTxnError> {
    match batch.rows@[0] {
        PendingRow::Vertex { .. } => stage_vertex_plan(txn, after, database, scope, batch),
        PendingRow::SetLabel { .. } => stage_vertex_plan(txn, after, database, scope, batch),
        PendingRow::SetProperty { .. } => stage_vertex_plan(txn, after, database, scope, batch),
        PendingRow::CompareAndSet { elem: ElementId::Vertex(_), .. } => stage_vertex_plan(
            txn,
            after,
            database,
            scope,
            batch,
        ),
        PendingRow::DeleteVertex { .. } => delete_vertex_plan(txn, after, database, scope, batch),
        _ => stage_edge_plan(txn, after, database, scope, batch),
    }
}

/// What staging one intent reads, by its family.
pub open spec fn stage_reads(
    txn: WriteTxn,
    after: WriteTxn,
    database: Database,
    batch: WriteBatch,
) -> Set<ElementId> {
    let row = batch.rows@[0];
    match row {
        PendingRow::Vertex { .. } => vertex_stage_reads(row),
        PendingRow::SetLabel { .. } => vertex_stage_reads(row),
        PendingRow::SetProperty { .. } => vertex_stage_reads(row),
        PendingRow::CompareAndSet { elem: ElementId::Vertex(_), .. } => vertex_stage_reads(row),
        PendingRow::DeleteVertex { .. } => deletion_reads(txn, after, database, row),
        _ => edge_stage_reads(txn, after, database, batch),
    }
}

/// What staging one intent observes. A staged intent reads exactly what its family
/// reads; one that is refused reads no more than that and what it depends on.
pub open spec fn observes(
    txn: WriteTxn,
    after: WriteTxn,
    database: Database,
    batch: WriteBatch,
    failed: bool,
) -> bool {
    if failed {
        reads_within(
            txn,
            after,
            stage_reads(txn, after, database, batch).union(retained(batch)),
        )
    } else {
        reads_only(txn, after, stage_reads(txn, after, database, batch))
    }
}

/// Stage one intent under its capability.
pub fn stage<H: Host>(
    transaction: &mut WriteTxn,
    database: &Database,
    batch: WriteBatch,
    scope: &Predicates,
    session: &mut Session<H>,
) -> (staged: Result<(), WriteTxnError>)
    requires
        old(transaction).wf(),
        database.wf(),
        batch.rows@.len() == 1,
    ensures
        final(transaction).wf(),
        staged_or_not(
            *old(transaction),
            *final(transaction),
            batch,
            old(session).log(),
            final(session).log(),
        ),
        staged is Ok ==> final(transaction).staged@ == old(transaction).staged@.push(batch),
        observes(*old(transaction), *final(transaction), *database, batch, staged is Err),
        final(session).metered() == old(session).metered(),
        obeys(
            old(session).log(),
            final(session).log(),
            stage_plan(*old(transaction), *final(transaction), *database, *scope, batch),
            same_error(),
            failure(staged),
        ),
{
    let vertex = match &batch.rows[0] {
        PendingRow::Vertex { .. }
        | PendingRow::SetLabel { .. }
        | PendingRow::SetProperty { .. }
        | PendingRow::CompareAndSet { elem: ElementId::Vertex(_), .. } => true,
        _ => false,
    };
    let deletion = match &batch.rows[0] {
        PendingRow::DeleteVertex { .. } => true,
        _ => false,
    };
    if vertex {
        stage_vertex(transaction, database, batch, scope, session)
    } else if deletion {
        delete_vertex(transaction, database, batch, scope, session)
    } else {
        stage_edge(transaction, database, batch, scope, session)
    }
}

/// A batch of exactly one intent.
pub open spec fn single_of(batch: WriteBatch, row: (RelationId, PendingRow)) -> bool {
    &&& batch.relation == row.0
    &&& batch.rows@.len() == 1
    &&& same_intent(row.1, batch.rows@[0])
}

/// The states, logs and one-intent batches of a run.
pub struct Trace {
    pub states: Seq<WriteTxn>,
    pub logs: Seq<Seq<Event>>,
    pub singles: Seq<WriteBatch>,
}

/// The plan of one intent of a run: what precedes it, then its staging.
pub open spec fn row_plan<E>(
    lead: Plan<E>,
    wrap: spec_fn(WriteTxnError) -> E,
    txn: WriteTxn,
    after: WriteTxn,
    database: Database,
    scope: Predicates,
    batch: WriteBatch,
) -> Plan<E> {
    lead.and(stage_plan(txn, after, database, scope, batch).lift(wrap))
}

/// One more staged intent, prepared by the latest evaluation.
pub open spec fn took(before: WriteTxn, after: WriteTxn, batch: WriteBatch, log: Seq<Event>) -> bool {
    &&& run_frame(before, after)
    &&& after.staged@ == before.staged@.push(batch)
    &&& after.prepared is Some
    &&& after.prepared == latest(log)
}

/// The trace stages the first `n` intents, each after its lead, without refusal.
pub open spec fn traces<E>(
    trace: Trace,
    rows: Seq<(RelationId, PendingRow)>,
    n: int,
    lead: spec_fn(int) -> Plan<E>,
    wrap: spec_fn(WriteTxnError) -> E,
    database: Database,
    scope: Predicates,
) -> bool {
    &&& trace.states.len() == n + 1
    &&& trace.logs.len() == n + 1
    &&& trace.singles.len() == n
    &&& forall|i: int|
        0 <= i < n ==> single_of(#[trigger] trace.singles[i], rows[i]) && obeys(
            trace.logs[i],
            trace.logs[i + 1],
            row_plan(
                lead(i),
                wrap,
                trace.states[i],
                trace.states[i + 1],
                database,
                scope,
                trace.singles[i],
            ),
            wrap,
            None,
        ) && took(trace.states[i], trace.states[i + 1], trace.singles[i], trace.logs[i + 1])
            && observes(
            trace.states[i],
            trace.states[i + 1],
            database,
            trace.singles[i],
            false,
        )
    &&& trace.states[n].staged@ == trace.states[0].staged@ + trace.singles
}

/// The run staged every intent, or failed on one after staging those before it.
pub open spec fn run_of<E>(
    trace: Trace,
    failing: WriteBatch,
    rows: Seq<(RelationId, PendingRow)>,
    lead: spec_fn(int) -> Plan<E>,
    wrap: spec_fn(WriteTxnError) -> E,
    before: WriteTxn,
    after: WriteTxn,
    database: Database,
    scope: Predicates,
    log: Seq<Event>,
    log_after: Seq<Event>,
    failed: Option<E>,
) -> bool {
    let n = trace.singles.len() as int;
    &&& 0 <= n <= rows.len()
    &&& traces(trace, rows, n, lead, wrap, database, scope)
    &&& trace.states[0] == before
    &&& trace.logs[0] == log
    &&& run_frame(before, after)
    &&& match failed {
        None => n == rows.len() && trace.logs[n] == log_after && trace.states[n] == after,
        Some(_) => {
            &&& n < rows.len()
            &&& single_of(failing, rows[n])
            &&& obeys(
                trace.logs[n],
                log_after,
                row_plan(lead(n), wrap, trace.states[n], after, database, scope, failing),
                wrap,
                failed,
            )
            &&& same_workspace(trace.states[n], after) || took(
                trace.states[n],
                after,
                failing,
                log_after,
            )
            &&& observes(trace.states[n], after, database, failing, true)
        },
    }
}

/// A run of intents, whatever the host answers.
pub open spec fn runs<E>(
    rows: Seq<(RelationId, PendingRow)>,
    lead: spec_fn(int) -> Plan<E>,
    wrap: spec_fn(WriteTxnError) -> E,
    before: WriteTxn,
    after: WriteTxn,
    database: Database,
    scope: Predicates,
    log: Seq<Event>,
    log_after: Seq<Event>,
    failed: Option<E>,
) -> bool {
    exists|trace: Trace, failing: WriteBatch| #[trigger]
        run_of(
            trace,
            failing,
            rows,
            lead,
            wrap,
            before,
            after,
            database,
            scope,
            log,
            log_after,
            failed,
        )
}

/// The trace of a run that has not started.
pub open spec fn empty_trace(txn: WriteTxn, log: Seq<Event>) -> Trace {
    Trace { states: seq![txn], logs: seq![log], singles: Seq::empty() }
}

/// The trace with one more staged intent.
pub open spec fn longer_trace(
    trace: Trace,
    txn: WriteTxn,
    log: Seq<Event>,
    batch: WriteBatch,
) -> Trace {
    Trace {
        states: trace.states.push(txn),
        logs: trace.logs.push(log),
        singles: trace.singles.push(batch),
    }
}

pub proof fn lemma_empty_trace<E>(
    txn: WriteTxn,
    log: Seq<Event>,
    rows: Seq<(RelationId, PendingRow)>,
    lead: spec_fn(int) -> Plan<E>,
    wrap: spec_fn(WriteTxnError) -> E,
    database: Database,
    scope: Predicates,
)
    ensures
        traces(empty_trace(txn, log), rows, 0, lead, wrap, database, scope),
{
    assert(txn.staged@ + Seq::<WriteBatch>::empty() =~= txn.staged@);
}

pub proof fn lemma_longer_trace<E>(
    trace: Trace,
    rows: Seq<(RelationId, PendingRow)>,
    n: int,
    lead: spec_fn(int) -> Plan<E>,
    wrap: spec_fn(WriteTxnError) -> E,
    database: Database,
    scope: Predicates,
    txn: WriteTxn,
    log: Seq<Event>,
    batch: WriteBatch,
)
    requires
        0 <= n < rows.len(),
        traces(trace, rows, n, lead, wrap, database, scope),
        single_of(batch, rows[n]),
        obeys(
            trace.logs[n],
            log,
            row_plan(lead(n), wrap, trace.states[n], txn, database, scope, batch),
            wrap,
            None,
        ),
        took(trace.states[n], txn, batch, log),
        observes(trace.states[n], txn, database, batch, false),
    ensures
        traces(
            longer_trace(trace, txn, log, batch),
            rows,
            n + 1,
            lead,
            wrap,
            database,
            scope,
        ),
{
    let longer = longer_trace(trace, txn, log, batch);
    assert forall|i: int| 0 <= i < n + 1 implies single_of(#[trigger] longer.singles[i], rows[i])
        && obeys(
        longer.logs[i],
        longer.logs[i + 1],
        row_plan(
            lead(i),
            wrap,
            longer.states[i],
            longer.states[i + 1],
            database,
            scope,
            longer.singles[i],
        ),
        wrap,
        None,
    ) && took(longer.states[i], longer.states[i + 1], longer.singles[i], longer.logs[i + 1])
        && observes(
        longer.states[i],
        longer.states[i + 1],
        database,
        longer.singles[i],
        false,
    ) by {
        if i < n {
            assert(single_of(trace.singles[i], rows[i]));
            assert(longer.singles[i] == trace.singles[i]);
            assert(longer.logs[i + 1] == trace.logs[i + 1]);
            assert(longer.states[i + 1] == trace.states[i + 1]);
        }
    }
    assert(longer.states[n + 1].staged@ =~= longer.states[0].staged@ + longer.singles);
}

/// Each intent of a plain write pays one unit before it is staged.
pub open spec fn unit_lead() -> spec_fn(int) -> Plan<WriteTxnError> {
    |i: int| unit()
}

/// Stage source-ordered batches, intent by intent.
pub fn stage_batches<H: Host>(
    transaction: &mut WriteTxn,
    database: &Database,
    batches: &Vec<WriteBatch>,
    scope: &Predicates,
    session: &mut Session<H>,
) -> (staged: Result<(), WriteTxnError>)
    requires
        old(transaction).wf(),
        database.wf(),
    ensures
        final(transaction).wf(),
        run_frame(*old(transaction), *final(transaction)),
        final(session).metered() == old(session).metered(),
        runs(
            intents(batches@),
            unit_lead(),
            same_error(),
            *old(transaction),
            *final(transaction),
            *database,
            *scope,
            old(session).log(),
            final(session).log(),
            failure(staged),
        ),
{
    let ghost txn = *transaction;
    let ghost start = session.log();
    let ghost rows = intents(batches@);
    let ghost mut trace = empty_trace(txn, start);
    proof {
        lemma_empty_trace(txn, start, rows, unit_lead(), same_error(), *database, *scope);
    }
    let mut b: usize = 0;
    while b < batches.len()
        invariant
            b <= batches.len(),
            database.wf(),
            txn == *old(transaction),
            start == old(session).log(),
            rows == intents(batches@),
            transaction.wf(),
            run_frame(txn, *transaction),
            session.metered() == old(session).metered(),
            trace.singles.len() == intents_upto(batches@, b as int).len(),
            trace.singles.len() <= rows.len(),
            traces(
                trace,
                rows,
                trace.singles.len() as int,
                unit_lead(),
                same_error(),
                *database,
                *scope,
            ),
            trace.states[0] == txn,
            trace.logs[0] == start,
            trace.logs[trace.singles.len() as int] == session.log(),
            trace.states[trace.singles.len() as int] == *transaction,
        decreases batches.len() - b,
    {
        let batch = &batches[b];
        let ghost base = intents_upto(batches@, b as int).len();
        let mut r: usize = 0;
        proof {
            lemma_intents_at(batches@, b as int);
        }
        while r < batch.rows.len()
            invariant
                b < batches.len(),
                *batch == batches@[b as int],
                r <= batch.rows.len(),
                database.wf(),
                txn == *old(transaction),
                start == old(session).log(),
                rows == intents(batches@),
                base == intents_upto(batches@, b as int).len(),
                base + batch.rows@.len() <= rows.len(),
                forall|k: int|
                    0 <= k < batch.rows@.len() ==> #[trigger] rows[base + k] == (
                        batch.relation,
                        batch.rows@[k],
                    ),
                transaction.wf(),
                run_frame(txn, *transaction),
                session.metered() == old(session).metered(),
                trace.singles.len() == base + r,
                traces(
                    trace,
                    rows,
                    trace.singles.len() as int,
                    unit_lead(),
                    same_error(),
                    *database,
                    *scope,
                ),
                trace.states[0] == txn,
                trace.logs[0] == start,
                trace.logs[trace.singles.len() as int] == session.log(),
                trace.states[trace.singles.len() as int] == *transaction,
            decreases batch.rows.len() - r,
        {
            let ghost n = trace.singles.len() as int;
            let ghost log = session.log();
            let ghost before = *transaction;
            let mut one: Vec<PendingRow> = Vec::new();
            one.push(batch.rows[r].copy());
            let single = WriteBatch { relation: batch.relation, rows: one };
            proof {
                assert(rows[base + r] == (batch.relation, batch.rows@[r as int]));
                assert(single_of(single, rows[n]));
            }
            let paid = session.work(1);
            let ghost middle = session.log();
            proof {
                lemma_obeys_ask(log, middle, crate::session::work_plan(1), same_error());
            }
            if let Err(error) = paid {
                proof {
                    let plan = stage_plan(before, *transaction, *database, *scope, single);
                    lemma_obeys_failed(
                        log,
                        middle,
                        unit(),
                        plan.lift(same_error()),
                        same_error(),
                        Some(error),
                    );
                    assert(run_of(
                        trace,
                        single,
                        rows,
                        unit_lead(),
                        same_error(),
                        txn,
                        *transaction,
                        *database,
                        *scope,
                        start,
                        session.log(),
                        Some(error),
                    ));
                }
                return Err(error);
            }
            let ghost kept = single;
            let step = stage(transaction, database, single, scope, session);
            proof {
                let plan = stage_plan(before, *transaction, *database, *scope, kept);
                crate::plan::lemma_obeys_lift(
                    middle,
                    session.log(),
                    plan,
                    same_error(),
                    failure(step),
                );
                lemma_obeys_and(
                    log,
                    middle,
                    session.log(),
                    unit(),
                    plan.lift(same_error()),
                    same_error(),
                    failure(step),
                );
            }
            if let Err(error) = step {
                proof {
                    assert(run_of(
                        trace,
                        kept,
                        rows,
                        unit_lead(),
                        same_error(),
                        txn,
                        *transaction,
                        *database,
                        *scope,
                        start,
                        session.log(),
                        Some(error),
                    ));
                }
                return Err(error);
            }
            proof {
                lemma_longer_trace(
                    trace,
                    rows,
                    n,
                    unit_lead(),
                    same_error(),
                    *database,
                    *scope,
                    *transaction,
                    session.log(),
                    kept,
                );
                trace = longer_trace(trace, *transaction, session.log(), kept);
            }
            r += 1;
        }
        b += 1;
    }
    proof {
        assert(run_of(
            trace,
            arbitrary(),
            rows,
            unit_lead(),
            same_error(),
            txn,
            *transaction,
            *database,
            *scope,
            start,
            session.log(),
            None,
        ));
    }
    Ok(())
}

/// Where the intents of one batch lie among all intents.
pub proof fn lemma_intents_at(batches: Seq<WriteBatch>, b: int)
    requires
        0 <= b < batches.len(),
    ensures
        intents_upto(batches, b).len() + batches[b].rows@.len() == intents_upto(
            batches,
            b + 1,
        ).len(),
        intents_upto(batches, b + 1).len() <= intents(batches).len(),
        forall|k: int|
            0 <= k < batches[b].rows@.len() ==> #[trigger] intents(batches)[intents_upto(
                batches,
                b,
            ).len() + k] == (batches[b].relation, batches[b].rows@[k]),
{
    lemma_intents_prefix(batches, b + 1, batches.len() as int);
    let base = intents_upto(batches, b).len() as int;
    let upper = intents_upto(batches, b + 1);
    assert forall|k: int| 0 <= k < batches[b].rows@.len() implies #[trigger] intents(batches)[base
        + k] == (batches[b].relation, batches[b].rows@[k]) by {
        assert(intents(batches).take(upper.len() as int)[base + k] == upper[base + k]);
    }
}

proof fn lemma_intents_prefix(batches: Seq<WriteBatch>, n: int, m: int)
    requires
        0 <= n <= m <= batches.len(),
    ensures
        intents_upto(batches, n).len() <= intents_upto(batches, m).len(),
        intents_upto(batches, m).take(intents_upto(batches, n).len() as int) == intents_upto(
            batches,
            n,
        ),
    decreases m - n,
{
    if n < m {
        lemma_intents_prefix(batches, n, m - 1);
        let len = intents_upto(batches, n).len() as int;
        assert(intents_upto(batches, m).take(len) =~= intents_upto(batches, m - 1).take(len));
    } else {
        assert(intents_upto(batches, m).take(intents_upto(batches, m).len() as int)
            =~= intents_upto(batches, n));
    }
}

} // verus!
