//! Authorized statements: frozen proposals staged row by row under one capability,
//! each row after the payment that its statement owes.

use vstd::prelude::*;
use crate::authorized::run_frame;
use crate::authorized_run::{
    empty_trace, lemma_empty_trace, lemma_longer_trace, longer_trace, run_of, runs,
    single_of, stage, stage_plan, traces,
};
use crate::batch::{PendingRow, WriteBatch};
use crate::database::Database;
use crate::errors::{LimitDimension, WriteTxnError};
use crate::ids::{ElementId, RelationId};
use crate::idset::ElementSet;
use crate::plan::{
    ask, failure, lemma_obeys_and, lemma_obeys_ask, lemma_obeys_failed, lemma_obeys_lift, Plan,
};
use crate::scope::Predicates;
use crate::session::{
    followed, lemma_followed_compose, lemma_followed_extend, outcome, refused, work_plan, Host,
    Request, Session,
};
use crate::statement::{price_search, query_unit, search_price, source, Fault};
use crate::txn::WriteTxn;

verus! {

/// What a statement owes before each of its rows is staged.
#[derive(Clone, Copy, PartialEq, Eq, Structural, Debug)]
pub enum Lead {
    /// Cancellation of the query only.
    Poll,
    /// Cancellation of the query and one signed unit.
    Unit,
    /// The same, and one signed result row.
    Row,
    /// The same, a priced search among the targets so far, and one signed result
    /// row for a new target.
    Targets,
}

/// The element that a row writes.
pub open spec fn target_of(row: PendingRow) -> ElementId {
    match row {
        PendingRow::Vertex { vid, .. } => ElementId::Vertex(vid),
        PendingRow::Edge { eid, .. } => ElementId::Edge(eid),
        PendingRow::DeleteVertex { vid } => ElementId::Vertex(vid),
        PendingRow::DeleteEdge { eid, .. } => ElementId::Edge(eid),
        PendingRow::SetLabel { vid, .. } => ElementId::Vertex(vid),
        PendingRow::SetProperty { vid, .. } => ElementId::Vertex(vid),
        PendingRow::SetEdgeProperty { eid, .. } => ElementId::Edge(eid),
        PendingRow::CompareAndSet { elem, .. } => elem,
    }
}

pub fn row_target(row: &PendingRow) -> (target: ElementId)
    ensures
        target == target_of(*row),
{
    match row {
        PendingRow::Vertex { vid, .. }
        | PendingRow::DeleteVertex { vid }
        | PendingRow::SetLabel { vid, .. }
        | PendingRow::SetProperty { vid, .. } => ElementId::Vertex(*vid),
        PendingRow::Edge { eid, .. }
        | PendingRow::DeleteEdge { eid, .. }
        | PendingRow::SetEdgeProperty { eid, .. } => ElementId::Edge(*eid),
        PendingRow::CompareAndSet { elem, .. } => *elem,
    }
}

/// The vertices that the first rows write.
pub open spec fn vertex_targets(rows: Seq<(RelationId, PendingRow)>, n: int) -> Set<u128>
    decreases n,
{
    if n <= 0 {
        Set::empty()
    } else {
        match target_of(rows[n - 1].1) {
            ElementId::Vertex(vid) => vertex_targets(rows, n - 1).insert(vid.0),
            ElementId::Edge(_) => vertex_targets(rows, n - 1),
        }
    }
}

/// The edges that the first rows write.
pub open spec fn edge_targets(rows: Seq<(RelationId, PendingRow)>, n: int) -> Set<u128>
    decreases n,
{
    if n <= 0 {
        Set::empty()
    } else {
        match target_of(rows[n - 1].1) {
            ElementId::Edge(eid) => edge_targets(rows, n - 1).insert(eid.0),
            ElementId::Vertex(_) => edge_targets(rows, n - 1),
        }
    }
}

/// Whether a row's target was written by an earlier row.
pub open spec fn repeats(rows: Seq<(RelationId, PendingRow)>, i: int) -> bool {
    match target_of(rows[i].1) {
        ElementId::Vertex(vid) => vertex_targets(rows, i).contains(vid.0),
        ElementId::Edge(eid) => edge_targets(rows, i).contains(eid.0),
    }
}

/// One signed result row.
pub open spec fn row_charge() -> Seq<Request> {
    seq![Request::Charge { dimension: LimitDimension::Rows, amount: 1 }]
}

/// What is asked before row `i` is staged.
pub open spec fn lead_asks(lead: Lead, rows: Seq<(RelationId, PendingRow)>, i: int) -> Seq<Request> {
    match lead {
        Lead::Poll => seq![Request::PollQuery],
        Lead::Unit => query_unit(),
        Lead::Row => query_unit() + row_charge(),
        Lead::Targets => query_unit() + work_plan(
            search_price(vertex_targets(rows, i).len() + edge_targets(rows, i).len()) as u64,
        ) + if repeats(rows, i) {
            Seq::empty()
        } else {
            row_charge()
        },
    }
}

pub open spec fn lead_plan(lead: Lead, rows: Seq<(RelationId, PendingRow)>) -> spec_fn(int) -> Plan<
    Fault,
> {
    |i: int| ask(lead_asks(lead, rows, i))
}

/// The targets seen so far.
pub open spec fn holds_targets(
    targets: ElementSet,
    rows: Seq<(RelationId, PendingRow)>,
    n: int,
) -> bool {
    &&& targets.wf()
    &&& targets.vertices@ == vertex_targets(rows, n)
    &&& targets.edges@ == edge_targets(rows, n)
}

/// Pay what is owed before one row.
fn pay_lead<H: Host>(
    lead: Lead,
    rows: &Vec<(RelationId, PendingRow)>,
    i: usize,
    targets: &mut ElementSet,
    session: &mut Session<H>,
) -> (paid: Result<(), WriteTxnError>)
    requires
        i < rows@.len(),
        lead == Lead::Targets ==> holds_targets(*old(targets), rows@, i as int),
    ensures
        final(session).metered() == old(session).metered(),
        followed(old(session).log(), final(session).log(), lead_asks(lead, rows@, i as int)),
        failure(paid) == refused(old(session).log(), final(session).log()),
        lead == Lead::Targets && paid is Ok ==> holds_targets(*final(targets), rows@, i + 1),
        lead != Lead::Targets ==> *final(targets) == *old(targets),
{
    let ghost start = session.log();
    let ghost asks = lead_asks(lead, rows@, i as int);
    match lead {
        Lead::Poll => session.poll_query(),
        Lead::Unit => session.query_work(),
        Lead::Row => {
            if let Err(error) = session.query_work() {
                proof {
                    lemma_followed_extend(start, session.log(), query_unit(), row_charge());
                }
                return Err(error);
            }
            let ghost middle = session.log();
            let charged = session.charge(LimitDimension::Rows, 1);
            proof {
                lemma_followed_compose(
                    start, middle, session.log(), query_unit(), row_charge(),
                );
            }
            charged
        },
        Lead::Targets => {
            let target = row_target(&rows[i].1);
            proof {
                targets.vertices.lemma_len();
                targets.edges.lemma_len();
            }
            let known: u128 = targets.vertices.len() as u128 + targets.edges.len() as u128;
            let price: u64 = price_search(known);
            let seen = targets.contains(target);
            let ghost search = work_plan(price);
            let ghost last = if seen {
                Seq::empty()
            } else {
                row_charge()
            };
            assert(asks =~= query_unit() + search + last);
            assert(asks =~= query_unit() + (search + last));
            if let Err(error) = session.query_work() {
                proof {
                    lemma_followed_extend(start, session.log(), query_unit(), search + last);
                }
                return Err(error);
            }
            let ghost middle = session.log();
            let searched = session.work(price);
            let ghost found = session.log();
            proof {
                lemma_followed_compose(start, middle, found, query_unit(), search);
            }
            if let Err(error) = searched {
                proof {
                    lemma_followed_extend(start, session.log(), query_unit() + search, last);
                }
                return Err(error);
            }
            if !seen {
                let charged = session.charge(LimitDimension::Rows, 1);
                proof {
                    lemma_followed_compose(
                        start, found, session.log(), query_unit() + search, row_charge(),
                    );
                }
                if let Err(error) = charged {
                    return Err(error);
                }
            } else {
                assert(query_unit() + search + last =~= query_unit() + search);
            }
            match target {
                ElementId::Vertex(vid) => {
                    targets.vertices.insert(vid.0);
                },
                ElementId::Edge(eid) => {
                    targets.edges.insert(eid.0);
                },
            }
            proof {
                assert(targets.vertices@ =~= vertex_targets(rows@, i + 1));
                assert(targets.edges@ =~= edge_targets(rows@, i + 1));
            }
            Ok(())
        },
    }
}

/// Stage the rows of a statement in order, each after what it owes.
pub fn stage_rows<H: Host>(
    transaction: &mut WriteTxn,
    database: &Database,
    rows: &Vec<(RelationId, PendingRow)>,
    lead: Lead,
    scope: &Predicates,
    session: &mut Session<H>,
) -> (targets: Result<ElementSet, Fault>)
    requires
        old(transaction).wf(),
        database.wf(),
    ensures
        final(transaction).wf(),
        run_frame(*old(transaction), *final(transaction)),
        final(session).metered() == old(session).metered(),
        runs(
            rows@,
            lead_plan(lead, rows@),
            source(),
            *old(transaction),
            *final(transaction),
            *database,
            *scope,
            old(session).log(),
            final(session).log(),
            failure(targets),
        ),
        targets matches Ok(found) ==> if lead == Lead::Targets {
            holds_targets(found, rows@, rows@.len() as int)
        } else {
            found.wf() && found.vertices.seq().len() == 0 && found.edges.seq().len() == 0
        },
{
    let ghost txn = *transaction;
    let ghost start = session.log();
    let ghost owed = lead_plan(lead, rows@);
    let ghost mut trace = empty_trace(txn, start);
    let mut targets = ElementSet::new();
    proof {
        lemma_empty_trace(txn, start, rows@, owed, source(), *database, *scope);
        lemma_no_targets(targets, rows@);
    }
    let mut i: usize = 0;
    while i < rows.len()
        invariant
            i <= rows.len(),
            database.wf(),
            txn == *old(transaction),
            start == old(session).log(),
            owed == lead_plan(lead, rows@),
            transaction.wf(),
            run_frame(txn, *transaction),
            session.metered() == old(session).metered(),
            lead == Lead::Targets ==> holds_targets(targets, rows@, i as int),
            lead != Lead::Targets ==> targets.wf() && targets.vertices.seq().len() == 0
                && targets.edges.seq().len() == 0,
            trace.singles.len() == i,
            traces(trace, rows@, i as int, owed, source(), *database, *scope),
            trace.states[0] == txn,
            trace.logs[0] == start,
            trace.logs[i as int] == session.log(),
            trace.states[i as int] == *transaction,
        decreases rows.len() - i,
    {
        let ghost before = *transaction;
        let ghost log = session.log();
        let mut one: Vec<PendingRow> = Vec::new();
        one.push(rows[i].1.copy());
        let single = WriteBatch { relation: rows[i].0, rows: one };
        let ghost kept = single;
        let ghost asks = lead_asks(lead, rows@, i as int);
        assert(single_of(kept, rows@[i as int]));
        let paid = pay_lead(lead, rows, i, &mut targets, session);
        let ghost middle = session.log();
        proof {
            lemma_obeys_ask(log, middle, asks, source());
        }
        if let Err(error) = paid {
            proof {
                let plan = stage_plan(before, *transaction, *database, *scope, kept);
                lemma_obeys_failed(
                    log,
                    middle,
                    ask(asks),
                    plan.lift(source()),
                    source(),
                    Some(Fault::Source(error)),
                );
                assert(run_of(
                    trace, kept, rows@, owed, source(), txn, *transaction, *database, *scope,
                    start, session.log(), Some(Fault::Source(error)),
                ));
            }
            return Err(Fault::Source(error));
        }
        let step = stage(transaction, database, single, scope, session);
        let outcome = match step {
            Ok(()) => Ok(()),
            Err(error) => Err(Fault::Source(error)),
        };
        proof {
            let plan = stage_plan(before, *transaction, *database, *scope, kept);
            lemma_obeys_lift(middle, session.log(), plan, source(), failure(step));
            lemma_obeys_and(
                log,
                middle,
                session.log(),
                ask(asks),
                plan.lift(source()),
                source(),
                failure(outcome),
            );
        }
        if let Err(fault) = outcome {
            proof {
                assert(run_of(
                    trace, kept, rows@, owed, source(), txn, *transaction, *database, *scope,
                    start, session.log(), Some(fault),
                ));
            }
            return Err(fault);
        }
        proof {
            lemma_longer_trace(
                trace, rows@, i as int, owed, source(), *database, *scope, *transaction,
                session.log(), kept,
            );
            trace = longer_trace(trace, *transaction, session.log(), kept);
        }
        i += 1;
    }
    proof {
        assert(run_of(
            trace, arbitrary(), rows@, owed, source(), txn, *transaction, *database, *scope, start,
            session.log(), None,
        ));
    }
    Ok(targets)
}

proof fn lemma_no_targets(targets: ElementSet, rows: Seq<(RelationId, PendingRow)>)
    requires
        targets.wf(),
        targets.seq() =~= Seq::<ElementId>::empty(),
    ensures
        holds_targets(targets, rows, 0),
        targets.vertices.seq().len() == 0,
        targets.edges.seq().len() == 0,
{
    assert(targets.seq().len() == targets.vertices.seq().len() + targets.edges.seq().len());
    assert(targets.vertices@ =~= Set::<u128>::empty());
    assert(targets.edges@ =~= Set::<u128>::empty());
}

} // verus!
