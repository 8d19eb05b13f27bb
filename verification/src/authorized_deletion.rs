//! Plain deletion under one live capability.
//!
//! A collector freezes typed targets. Native pinned reads prove that no vertex
//! target keeps an edge that was not selected, and only then is anything staged.

use vstd::prelude::*;
use crate::authorized::{denied, run_frame};
use crate::authorized_run::{
    empty_trace, lemma_empty_trace, lemma_longer_trace, longer_trace, observes, row_plan, run_of,
    runs, stage, stage_plan, traces, took,
};
use crate::batch::{PendingRow, WriteBatch};
use crate::database::Database;
use crate::edge_reads::lists_edges;
use crate::errors::{Denial, LimitDimension, WriteTxnError};
use crate::graph::{EdgeRecord, EdgeView};
use crate::ids::{EId, RelationId, VId};
use crate::idset::{increasing, lemma_sorted_unique, sorted_ids, IdSet};
use crate::plan::{
    ask, demand, failure, go, lemma_obeys_and, lemma_obeys_ask, lemma_obeys_failed,
    lemma_obeys_lift, lemma_obeys_nothing, lemma_obeys_stop, lemma_step, obeys, stop, upto, whole,
    Plan,
};
use crate::scope::Predicates;
use crate::selection::{expands, lemma_listed_expansions, scans_edges};
use crate::session::{Event, Host, Request, Session};
use crate::statement::{
    beyond, counted, event_excess, event_plan, meter_event, price_search, search_price, source, verdict,
    Fault, GlaExecutionEvent, GqlBudgetDimension, QueryPolicy, QueryStats,
};
use crate::txn::{keeps_observations, same_workspace, WriteTxn};

verus! {

/// The frozen targets of a deletion, with what selecting them has used.
pub struct DeleteProposal {
    pub relation: RelationId,
    pub stats: QueryStats,
    pub vertices: IdSet,
    pub edges: IdSet,
}

impl DeleteProposal {
    pub open spec fn wf(&self) -> bool {
        self.vertices.wf() && self.edges.wf()
    }
}

/// The edges that the transaction sees.
pub open spec fn seen_edges(txn: WriteTxn, database: Database) -> Set<u128> {
    Set::new(|raw: u128| txn.overlay_edge(database, EId(raw)) is Some)
}

/// The edges that the transaction sees, in order.
pub open spec fn incidence(txn: WriteTxn, database: Database) -> Seq<u128> {
    sorted_ids(seen_edges(txn, database))
}

/// A complete edge read lists exactly the seen edges in order.
pub proof fn lemma_incidence(records: Seq<EdgeRecord>, txn: WriteTxn, database: Database)
    requires
        lists_edges(records, |eid: EId| txn.overlay_edge(database, eid)),
    ensures
        incidence(txn, database).len() == records.len(),
        forall|i: int|
            0 <= i < records.len() ==> incidence(txn, database)[i] == (
            #[trigger] records[i]).entry.eid.0 && txn.overlay_edge(
                database,
                records[i].entry.eid,
            ) == Some(records[i]@),
{
    let graph = |eid: EId| txn.overlay_edge(database, eid);
    let raw = records.map_values(|record: EdgeRecord| record.entry.eid.0);
    assert(increasing(raw)) by {
        assert forall|i: int, j: int| 0 <= i < j < raw.len() implies raw[i] < raw[j] by {
            assert(records[i].entry.eid.0 < records[j].entry.eid.0);
        }
    }
    assert forall|x: u128| #[trigger] raw.to_set().contains(x) == seen_edges(
        txn,
        database,
    ).contains(x) by {
        if raw.contains(x) {
            let i = raw.index_of(x);
            assert(graph(records[i].entry.eid) == Some(records[i]@));
            assert(records[i].entry.eid == EId(x));
        }
        if seen_edges(txn, database).contains(x) {
            assert(graph(EId(x)) is Some);
            let i = choose|i: int|
                0 <= i < records.len() && (#[trigger] records[i]).entry.eid == EId(x);
            assert(raw[i] == x);
        }
    }
    assert(raw.to_set() =~= seen_edges(txn, database));
    lemma_sorted_unique(raw, incidence(txn, database));
    assert forall|i: int| 0 <= i < records.len() implies incidence(txn, database)[i] == (
    #[trigger] records[i]).entry.eid.0 && txn.overlay_edge(database, records[i].entry.eid) == Some(
        records[i]@,
    ) by {
        assert(raw[i] == records[i].entry.eid.0);
        assert(graph(records[i].entry.eid) == Some(records[i]@));
    }
}

/// The counters after `n` more work events.
pub open spec fn worked(stats: QueryStats, n: int) -> QueryStats {
    QueryStats { work_units: (stats.work_units + n) as u64, ..stats }
}

/// The counters after `n` more scratch events.
pub open spec fn scratched(stats: QueryStats, n: int) -> QueryStats {
    QueryStats {
        work_units: (stats.work_units + n) as u64,
        scratch_entries: (stats.scratch_entries + n) as u64,
        ..stats
    }
}

/// An edge at a selected vertex that was not itself selected.
pub open spec fn unselected(proposal: DeleteProposal, edge: EdgeView) -> bool {
    &&& proposal.vertices@.contains(edge.entry.src.0) || proposal.vertices@.contains(
        edge.entry.dst.0,
    )
    &&& !proposal.edges@.contains(edge.entry.eid.0)
}

/// The price of testing one edge: two searches among vertices, one among edges.
pub open spec fn search_cost(proposal: DeleteProposal) -> nat {
    2 * search_price(proposal.vertices.seq().len()) + search_price(proposal.edges.seq().len())
}

/// Pay for the searches of one edge.
pub open spec fn search_steps(stats: QueryStats, policy: QueryPolicy, cost: nat) -> Seq<
    Plan<Fault>,
> {
    Seq::new(cost, |k: int| event_plan(worked(stats, k), policy, GlaExecutionEvent::Work))
}

/// Test one edge after paying for it.
pub open spec fn proof_parts(
    proposal: DeleteProposal,
    policy: QueryPolicy,
    stats: QueryStats,
    edge: EdgeView,
) -> Seq<Plan<Fault>> {
    seq![
        whole(search_steps(stats, policy, search_cost(proposal))),
        demand(!unselected(proposal, edge), Fault::IncidentRelationships),
    ]
}

/// Prove that no vertex target keeps an unselected edge, edge by edge.
pub open spec fn proof_steps(
    txn: WriteTxn,
    database: Database,
    proposal: DeleteProposal,
    policy: QueryPolicy,
    stats: QueryStats,
) -> Seq<Plan<Fault>> {
    let list = incidence(txn, database);
    Seq::new(
        list.len(),
        |j: int|
            whole(
                proof_parts(
                    proposal,
                    policy,
                    worked(stats, j * search_cost(proposal)),
                    txn.overlay_edge(database, EId(list[j]))->0,
                ),
            ),
    )
}

/// The refusal of an incidence read: the read itself, or its record count.
pub open spec fn incidence_fault(
    txn: WriteTxn,
    database: Database,
    proposal: DeleteProposal,
    policy: QueryPolicy,
) -> Option<Fault> {
    let records = proposal.stats.snapshot_records + incidence(txn, database).len();
    if txn.read_refusal(database) is Some {
        Some(Fault::Source(WriteTxnError::AuthorizedMutationRefused))
    } else if records > u64::MAX {
        Some(Fault::InvalidSourceStatistics)
    } else if beyond(records, policy.max_snapshot_records) {
        Some(
            Fault::Rows {
                dimension: GqlBudgetDimension::SnapshotRecords,
                limit: policy.max_snapshot_records->0,
                observed: records as u64,
            },
        )
    } else {
        None
    }
}

/// The counters once the incidence has been read.
pub open spec fn incidence_stats(
    txn: WriteTxn,
    database: Database,
    proposal: DeleteProposal,
) -> QueryStats {
    QueryStats {
        snapshot_records: (proposal.stats.snapshot_records + incidence(
            txn,
            database,
        ).len()) as u64,
        ..worked(proposal.stats, 1)
    }
}

/// The counters once the incidence has been proved.
pub open spec fn proved_stats(
    txn: WriteTxn,
    database: Database,
    proposal: DeleteProposal,
) -> QueryStats {
    if proposal.vertices.seq().len() == 0 {
        proposal.stats
    } else {
        worked(
            incidence_stats(txn, database, proposal),
            (incidence(txn, database).len() * search_cost(proposal)) as int,
        )
    }
}

/// Whether the capability lets these targets be deleted, decided before any
/// incidence is looked at.
pub open spec fn deletable(scope: Predicates, proposal: DeleteProposal) -> bool {
    &&& proposal.vertices.seq().len() > 0 ==> scope.all_incidence() && scope.all_fields()
    &&& proposal.edges.seq().len() > 0 ==> scope.all_properties()
}

/// The price of a receipt: one signed row per target identity.
pub open spec fn receipt_plan(rows: int, returning: bool) -> Plan<Fault> {
    if !returning {
        go()
    } else if rows > u64::MAX {
        stop(Fault::Source(WriteTxnError::Authorization(Denial::TooLarge)))
    } else {
        ask(seq![Request::Charge { dimension: LimitDimension::Rows, amount: rows as u64 }])
    }
}

/// Everything that precedes staging.
pub open spec fn delete_head_steps(
    txn: WriteTxn,
    database: Database,
    scope: Predicates,
    proposal: DeleteProposal,
    policy: QueryPolicy,
    returning: bool,
) -> Seq<Plan<Fault>> {
    let head = seq![
        demand(deletable(scope, proposal), Fault::Source(denied())),
        receipt_plan(
            (proposal.vertices.seq().len() + proposal.edges.seq().len()) as int,
            returning,
        ),
    ];
    if proposal.vertices.seq().len() == 0 {
        head
    } else {
        head + seq![
            event_plan(proposal.stats, policy, GlaExecutionEvent::Work),
            verdict(incidence_fault(txn, database, proposal, policy)),
            whole(
                proof_steps(
                    txn,
                    database,
                    proposal,
                    policy,
                    incidence_stats(txn, database, proposal),
                ),
            ),
        ]
    }
}

/// The intents of a deletion: every selected edge, then every selected vertex.
pub open spec fn delete_rows(proposal: DeleteProposal) -> Seq<(RelationId, PendingRow)> {
    proposal.edges.seq().map_values(
        |raw: u128|
            (proposal.relation, PendingRow::DeleteEdge { eid: EId(raw), if_present: false }),
    ) + proposal.vertices.seq().map_values(
        |raw: u128| (proposal.relation, PendingRow::DeleteVertex { vid: VId(raw) }),
    )
}

/// Each staged target is one scratch entry.
pub open spec fn scratch_lead(stats: QueryStats, policy: QueryPolicy) -> spec_fn(int) -> Plan<Fault> {
    |i: int| event_plan(scratched(stats, i), policy, GlaExecutionEvent::ScratchEntry)
}

/// What proving incidence observes. Vertex targets take a scan over all edges; edge
/// targets alone take nothing. A proof that fails before the scan observes nothing.
pub open spec fn proof_observes(
    before: WriteTxn,
    after: WriteTxn,
    database: Database,
    proposal: DeleteProposal,
    failed: bool,
) -> bool {
    let scans = scans_edges(before, after, database, Set::empty());
    if failed {
        after == before || (proposal.vertices.seq().len() > 0 && scans)
    } else if proposal.vertices.seq().len() > 0 {
        scans
    } else {
        after == before
    }
}

/// What a deletion does, whatever the host answers.
pub open spec fn deletes(
    before: WriteTxn,
    after: WriteTxn,
    database: Database,
    scope: Predicates,
    proposal: DeleteProposal,
    policy: QueryPolicy,
    returning: bool,
    log: Seq<Event>,
    log_after: Seq<Event>,
    failed: Option<Fault>,
) -> bool {
    let head = whole(delete_head_steps(before, database, scope, proposal, policy, returning));
    ||| failed is Some && obeys(log, log_after, head, source(), failed) && same_workspace(
        before,
        after,
    ) && proof_observes(before, after, database, proposal, true)
    ||| exists|middle: Seq<Event>, read: WriteTxn|
        {
            &&& obeys(log, middle, head, source(), None)
            &&& same_workspace(before, read)
            &&& proof_observes(before, read, database, proposal, false)
            &&& #[trigger] runs(
                delete_rows(proposal),
                scratch_lead(proved_stats(before, database, proposal), policy),
                source(),
                read,
                after,
                database,
                scope,
                middle,
                log_after,
                failed,
            )
        }
}

/// Pay for the searches of one edge.
fn pay_searches<H: Host>(
    stats: &mut QueryStats,
    policy: QueryPolicy,
    cost: u64,
    session: &mut Session<H>,
) -> (done: Result<(), Fault>)
    ensures
        final(session).metered() == old(session).metered(),
        obeys(
            old(session).log(),
            final(session).log(),
            whole(search_steps(*old(stats), policy, cost as nat)),
            source(),
            failure(done),
        ),
        done is Ok ==> *final(stats) == worked(*old(stats), cost as int),
        done is Ok ==> old(stats).work_units + cost <= u64::MAX,
{
    let ghost start = session.log();
    let ghost before = *stats;
    let ghost steps = search_steps(before, policy, cost as nat);
    proof {
        lemma_obeys_nothing(start, source());
        assert(worked(before, 0) == before);
    }
    let mut k: u64 = 0;
    while k < cost
        invariant
            k <= cost,
            before == *old(stats),
            start == old(session).log(),
            steps == search_steps(before, policy, cost as nat),
            session.metered() == old(session).metered(),
            *stats == worked(before, k as int),
            before.work_units + k <= u64::MAX,
            obeys(start, session.log(), upto(steps, k as int), source(), None),
        decreases cost - k,
    {
        let ghost middle = session.log();
        let step = meter_event(stats, policy, session, GlaExecutionEvent::Work);
        proof {
            lemma_step(start, middle, session.log(), steps, k as int, source(), failure(step));
        }
        if let Err(fault) = step {
            return Err(fault);
        }
        k = k + 1;
    }
    Ok(())
}

/// Prove that no vertex target keeps an unselected edge.
fn prove_incidence<H: Host>(
    records: &Vec<EdgeRecord>,
    proposal: &DeleteProposal,
    policy: QueryPolicy,
    stats: &mut QueryStats,
    session: &mut Session<H>,
    Ghost(txn): Ghost<WriteTxn>,
    Ghost(database): Ghost<Database>,
) -> (done: Result<(), Fault>)
    requires
        proposal.wf(),
        lists_edges(records@, |eid: EId| txn.overlay_edge(database, eid)),
    ensures
        final(session).metered() == old(session).metered(),
        obeys(
            old(session).log(),
            final(session).log(),
            whole(proof_steps(txn, database, *proposal, policy, *old(stats))),
            source(),
            failure(done),
        ),
        done is Ok ==> *final(stats) == worked(
            *old(stats),
            (incidence(txn, database).len() * search_cost(*proposal)) as int,
        ),
{
    let ghost start = session.log();
    let ghost before = *stats;
    let ghost steps = proof_steps(txn, database, *proposal, policy, before);
    let ghost list = incidence(txn, database);
    proof {
        lemma_obeys_nothing(start, source());
        lemma_incidence(records@, txn, database);
        assert(0 * search_cost(*proposal) == 0) by (nonlinear_arith);
        assert(worked(before, 0) == before);
    }
    let cost: u64 = 2 * price_search(proposal.vertices.len() as u128) + price_search(
        proposal.edges.len() as u128,
    );
    let mut j: usize = 0;
    while j < records.len()
        invariant
            j <= records.len(),
            proposal.wf(),
            cost == search_cost(*proposal),
            before == *old(stats),
            start == old(session).log(),
            list == incidence(txn, database),
            list.len() == records@.len(),
            forall|i: int|
                0 <= i < records@.len() ==> list[i] == (#[trigger] records@[i]).entry.eid.0
                    && txn.overlay_edge(database, records@[i].entry.eid) == Some(records@[i]@),
            steps == proof_steps(txn, database, *proposal, policy, before),
            session.metered() == old(session).metered(),
            *stats == worked(before, j * search_cost(*proposal)),
            before.work_units + j * search_cost(*proposal) <= u64::MAX,
            obeys(start, session.log(), upto(steps, j as int), source(), None),
        decreases records.len() - j,
    {
        let ghost middle = session.log();
        let ghost entry_stats = *stats;
        let record = &records[j];
        let ghost view = record@;
        let ghost parts = proof_parts(*proposal, policy, entry_stats, view);
        proof {
            assert(list[j as int] == records@[j as int].entry.eid.0);
            assert(EId(list[j as int]) == record.entry.eid);
            lemma_obeys_nothing(middle, source());
        }
        let paid = pay_searches(stats, policy, cost, session);
        let ghost log0 = session.log();
        proof {
            lemma_step(middle, middle, log0, parts, 0, source(), failure(paid));
        }
        if let Err(fault) = paid {
            proof {
                lemma_step(start, middle, log0, steps, j as int, source(), Some(fault));
            }
            return Err(fault);
        }
        let kept = (proposal.vertices.contains(record.entry.src.0) || proposal.vertices.contains(
            record.entry.dst.0,
        )) && !proposal.edges.contains(record.entry.eid.0);
        proof {
            lemma_obeys_nothing(log0, source());
            lemma_obeys_stop(log0, source(), Fault::IncidentRelationships);
            lemma_step(middle, log0, log0, parts, 1, source(), parts[1].verdict);
            lemma_step(start, middle, log0, steps, j as int, source(), parts[1].verdict);
            assert((j + 1) * search_cost(*proposal) == j * search_cost(*proposal) + search_cost(
                *proposal,
            )) by (nonlinear_arith);
        }
        if kept {
            return Err(Fault::IncidentRelationships);
        }
        j += 1;
    }
    Ok(())
}

/// Read and prove the incidence of the vertex targets.
fn check_incidence<H: Host>(
    transaction: &mut WriteTxn,
    database: &Database,
    scope: &Predicates,
    proposal: &DeleteProposal,
    policy: QueryPolicy,
    returning: bool,
    stats: &mut QueryStats,
    session: &mut Session<H>,
) -> (done: Result<(), Fault>)
    requires
        old(transaction).wf(),
        database.wf(),
        proposal.wf(),
        *old(stats) == proposal.stats,
    ensures
        final(transaction).wf(),
        same_workspace(*old(transaction), *final(transaction)),
        keeps_observations(*old(transaction), *final(transaction)),
        proof_observes(*old(transaction), *final(transaction), *database, *proposal, done is Err),
        final(session).metered() == old(session).metered(),
        obeys(
            old(session).log(),
            final(session).log(),
            whole(
                delete_head_steps(
                    *old(transaction),
                    *database,
                    *scope,
                    *proposal,
                    policy,
                    returning,
                ),
            ),
            source(),
            failure(done),
        ),
        done is Ok ==> *final(stats) == proved_stats(*old(transaction), *database, *proposal),
{
    let ghost start = session.log();
    let ghost txn = *transaction;
    let ghost steps = delete_head_steps(txn, *database, *scope, *proposal, policy, returning);
    proof {
        lemma_obeys_nothing(start, source());
        lemma_obeys_stop(start, source(), Fault::Source(denied()));
        lemma_step(start, start, start, steps, 0, source(), steps[0].verdict);
    }
    if (proposal.vertices.len() > 0 && !(scope.sees_all_incidence() && scope.sees_all_fields()))
        || (proposal.edges.len() > 0 && !scope.sees_all_properties()) {
        return Err(Fault::Source(WriteTxnError::Authorization(Denial::ScopeDenied)));
    }
    let ghost mut log1 = start;
    if returning {
        let rows: u128 = proposal.vertices.len() as u128 + proposal.edges.len() as u128;
        if rows > u64::MAX as u128 {
            proof {
                let fault = Fault::Source(WriteTxnError::Authorization(Denial::TooLarge));
                lemma_obeys_stop(start, source(), fault);
                lemma_step(start, start, start, steps, 1, source(), Some(fault));
            }
            return Err(Fault::Source(WriteTxnError::Authorization(Denial::TooLarge)));
        }
        let paid = session.charge(LimitDimension::Rows, rows as u64);
        proof {
            log1 = session.log();
            lemma_obeys_ask(
                start,
                log1,
                seq![
                    Request::Charge { dimension: LimitDimension::Rows, amount: rows as u64 },
                ],
                source(),
            );
            lemma_step(
                start,
                start,
                log1,
                steps,
                1,
                source(),
                match paid {
                    Ok(_) => None,
                    Err(error) => Some(Fault::Source(error)),
                },
            );
        }
        if let Err(error) = paid {
            return Err(Fault::Source(error));
        }
    } else {
        proof {
            lemma_step(start, start, start, steps, 1, source(), None);
        }
    }
    if proposal.vertices.len() == 0 {
        return Ok(());
    }
    let step = meter_event(stats, policy, session, GlaExecutionEvent::Work);
    let ghost log2 = session.log();
    proof {
        lemma_step(start, log1, log2, steps, 2, source(), failure(step));
    }
    if let Err(fault) = step {
        return Err(fault);
    }
    proof {
        assert(*stats == worked(proposal.stats, 1));
    }
    // Full visibility was established above, so these native records and all
    // proof charges contain no hidden topology.
    let read = transaction.edges(database);
    let ghost fault = incidence_fault(txn, *database, *proposal, policy);
    proof {
        lemma_obeys_nothing(log2, source());
        if fault is Some {
            lemma_obeys_stop(log2, source(), fault->0);
        }
        lemma_step(start, log2, log2, steps, 3, source(), fault);
    }
    let records = match read {
        Ok(records) => records,
        Err(_) => return Err(Fault::Source(WriteTxnError::AuthorizedMutationRefused)),
    };
    proof {
        lemma_incidence(records@, txn, *database);
        assert forall|pair: (VId, RelationId)| #[trigger]
            transaction.match_expansions@.contains(pair) == (txn.match_expansions@.contains(pair)
                || expands(txn, *database, pair)) by {
            lemma_listed_expansions(txn, *database, records@, pair);
        }
        assert(scans_edges(txn, *transaction, *database, Set::empty()));
    }
    let total: u128 = stats.snapshot_records as u128 + records.len() as u128;
    if total > u64::MAX as u128 {
        return Err(Fault::InvalidSourceStatistics);
    }
    if let Some(limit) = policy.max_snapshot_records {
        if total > limit as u128 {
            return Err(
                Fault::Rows {
                    dimension: GqlBudgetDimension::SnapshotRecords,
                    limit,
                    observed: total as u64,
                },
            );
        }
    }
    stats.snapshot_records = total as u64;
    proof {
        assert(*stats == incidence_stats(txn, *database, *proposal));
    }
    let proved = prove_incidence(
        &records,
        proposal,
        policy,
        stats,
        session,
        Ghost(txn),
        Ghost(*database),
    );
    proof {
        lemma_step(start, log2, session.log(), steps, 4, source(), failure(proved));
    }
    proved
}

/// Delete frozen targets: explicit edges first, so that every vertex deletion has
/// an empty cascade. Targets are handed back only when they were paid for.
pub fn apply_deletion<H: Host>(
    transaction: &mut WriteTxn,
    database: &Database,
    proposal: &DeleteProposal,
    policy: QueryPolicy,
    scope: &Predicates,
    session: &mut Session<H>,
    returning: bool,
) -> (receipt: Result<(QueryStats, Vec<VId>, Vec<EId>), Fault>)
    requires
        old(transaction).wf(),
        database.wf(),
        proposal.wf(),
    ensures
        final(transaction).wf(),
        run_frame(*old(transaction), *final(transaction)),
        final(session).metered() == old(session).metered(),
        deletes(
            *old(transaction),
            *final(transaction),
            *database,
            *scope,
            *proposal,
            policy,
            returning,
            old(session).log(),
            final(session).log(),
            failure(receipt),
        ),
        receipt matches Ok((stats, vertices, edges)) ==> {
            &&& stats == scratched(
                proved_stats(*old(transaction), *database, *proposal),
                delete_rows(*proposal).len() as int,
            )
            &&& vertices@ == (if returning {
                proposal.vertices.seq().map_values(|raw: u128| VId(raw))
            } else {
                Seq::empty()
            })
            &&& edges@ == (if returning {
                proposal.edges.seq().map_values(|raw: u128| EId(raw))
            } else {
                Seq::empty()
            })
        },
{
    let ghost txn = *transaction;
    let mut stats = proposal.stats;
    let checked = check_incidence(
        transaction,
        database,
        scope,
        proposal,
        policy,
        returning,
        &mut stats,
        session,
    );
    if let Err(fault) = checked {
        return Err(fault);
    }
    let ghost read = *transaction;
    let ghost middle = session.log();
    let mut rows: Vec<(RelationId, PendingRow)> = Vec::new();
    let mut edges: Vec<EId> = Vec::new();
    let mut vertices: Vec<VId> = Vec::new();
    list_targets(proposal, returning, &mut rows, &mut vertices, &mut edges);
    let staged = stage_targets(transaction, database, &rows, &mut stats, policy, scope, session);
    proof {
        assert(runs(
            delete_rows(*proposal),
            scratch_lead(proved_stats(txn, *database, *proposal), policy),
            source(),
            read,
            *transaction,
            *database,
            *scope,
            middle,
            session.log(),
            failure(staged),
        ));
    }
    match staged {
        Ok(()) => Ok((stats, vertices, edges)),
        Err(fault) => Err(fault),
    }
}

/// List the intents of a deletion, and its receipt when one is asked for.
fn list_targets(
    proposal: &DeleteProposal,
    returning: bool,
    rows: &mut Vec<(RelationId, PendingRow)>,
    vertices: &mut Vec<VId>,
    edges: &mut Vec<EId>,
)
    requires
        proposal.wf(),
        old(rows)@.len() == 0,
        old(vertices)@.len() == 0,
        old(edges)@.len() == 0,
    ensures
        final(rows)@ == delete_rows(*proposal),
        final(vertices)@ == (if returning {
            proposal.vertices.seq().map_values(|raw: u128| VId(raw))
        } else {
            Seq::empty()
        }),
        final(edges)@ == (if returning {
            proposal.edges.seq().map_values(|raw: u128| EId(raw))
        } else {
            Seq::empty()
        }),
{
    let ghost edge_rows = proposal.edges.seq().map_values(
        |raw: u128|
            (proposal.relation, PendingRow::DeleteEdge { eid: EId(raw), if_present: false }),
    );
    let ghost vertex_rows = proposal.vertices.seq().map_values(
        |raw: u128| (proposal.relation, PendingRow::DeleteVertex { vid: VId(raw) }),
    );
    let mut e: usize = 0;
    while e < proposal.edges.len()
        invariant
            e <= proposal.edges.seq().len(),
            edge_rows == proposal.edges.seq().map_values(
                |raw: u128|
                    (
                        proposal.relation,
                        PendingRow::DeleteEdge { eid: EId(raw), if_present: false },
                    ),
            ),
            rows@ =~= edge_rows.take(e as int),
            vertices@.len() == 0,
            edges@ =~= (if returning {
                proposal.edges.seq().take(e as int).map_values(|raw: u128| EId(raw))
            } else {
                Seq::empty()
            }),
        decreases proposal.edges.seq().len() - e,
    {
        let raw: u128 = proposal.edges.at(e);
        rows.push((
            proposal.relation,
            PendingRow::DeleteEdge { eid: EId(raw), if_present: false },
        ));
        if returning {
            edges.push(EId(raw));
        }
        e += 1;
    }
    let mut v: usize = 0;
    proof {
        assert(proposal.edges.seq().take(e as int) =~= proposal.edges.seq());
        assert(rows@ =~= edge_rows + vertex_rows.take(0));
    }
    while v < proposal.vertices.len()
        invariant
            v <= proposal.vertices.seq().len(),
            vertex_rows == proposal.vertices.seq().map_values(
                |raw: u128| (proposal.relation, PendingRow::DeleteVertex { vid: VId(raw) }),
            ),
            rows@ =~= edge_rows + vertex_rows.take(v as int),
            edges@ =~= (if returning {
                proposal.edges.seq().map_values(|raw: u128| EId(raw))
            } else {
                Seq::empty()
            }),
            vertices@ =~= (if returning {
                proposal.vertices.seq().take(v as int).map_values(|raw: u128| VId(raw))
            } else {
                Seq::empty()
            }),
        decreases proposal.vertices.seq().len() - v,
    {
        let raw: u128 = proposal.vertices.at(v);
        rows.push((proposal.relation, PendingRow::DeleteVertex { vid: VId(raw) }));
        if returning {
            vertices.push(VId(raw));
        }
        v += 1;
    }
    proof {
        assert(proposal.vertices.seq().take(v as int) =~= proposal.vertices.seq());
        assert(vertex_rows.take(v as int) =~= vertex_rows);
    }
}

/// Stage targets in order, each as one scratch entry.
fn stage_targets<H: Host>(
    transaction: &mut WriteTxn,
    database: &Database,
    rows: &Vec<(RelationId, PendingRow)>,
    stats: &mut QueryStats,
    policy: QueryPolicy,
    scope: &Predicates,
    session: &mut Session<H>,
) -> (staged: Result<(), Fault>)
    requires
        old(transaction).wf(),
        database.wf(),
    ensures
        final(transaction).wf(),
        run_frame(*old(transaction), *final(transaction)),
        final(session).metered() == old(session).metered(),
        runs(
            rows@,
            scratch_lead(*old(stats), policy),
            source(),
            *old(transaction),
            *final(transaction),
            *database,
            *scope,
            old(session).log(),
            final(session).log(),
            failure(staged),
        ),
        staged is Ok ==> *final(stats) == scratched(*old(stats), rows@.len() as int),
{
    let ghost txn = *transaction;
    let ghost start = session.log();
    let ghost proved = *stats;
    let ghost lead = scratch_lead(proved, policy);
    let ghost mut trace = empty_trace(txn, start);
    proof {
        lemma_empty_trace(txn, start, rows@, lead, source(), *database, *scope);
        assert(scratched(proved, 0) == proved);
    }
    let mut i: usize = 0;
    while i < rows.len()
        invariant
            i <= rows.len(),
            database.wf(),
            txn == *old(transaction),
            start == old(session).log(),
            proved == *old(stats),
            lead == scratch_lead(proved, policy),
            transaction.wf(),
            run_frame(txn, *transaction),
            session.metered() == old(session).metered(),
            *stats == scratched(proved, i as int),
            proved.work_units + i <= u64::MAX,
            proved.scratch_entries + i <= u64::MAX,
            trace.singles.len() == i,
            traces(trace, rows@, i as int, lead, source(), *database, *scope),
            trace.states[0] == txn,
            trace.logs[0] == start,
            trace.logs[i as int] == session.log(),
            trace.states[i as int] == *transaction,
        decreases rows.len() - i,
    {
        let relation = rows[i].0;
        let row = rows[i].1.copy();
        let (step, single) = stage_target(
            transaction,
            database,
            relation,
            row,
            stats,
            policy,
            scope,
            session,
        );
        if let Err(fault) = step {
            proof {
                assert(run_of(
                    trace,
                    single@,
                    rows@,
                    lead,
                    source(),
                    txn,
                    *transaction,
                    *database,
                    *scope,
                    start,
                    session.log(),
                    Some(fault),
                ));
            }
            return Err(fault);
        }
        proof {
            lemma_longer_trace(
                trace,
                rows@,
                i as int,
                lead,
                source(),
                *database,
                *scope,
                *transaction,
                session.log(),
                single@,
            );
            trace = longer_trace(trace, *transaction, session.log(), single@);
        }
        i += 1;
    }
    proof {
        assert(run_of(
            trace,
            arbitrary(),
            rows@,
            lead,
            source(),
            txn,
            *transaction,
            *database,
            *scope,
            start,
            session.log(),
            None,
        ));
    }
    Ok(())
}

/// Meter and stage one target.
fn stage_target<H: Host>(
    transaction: &mut WriteTxn,
    database: &Database,
    relation: RelationId,
    row: PendingRow,
    stats: &mut QueryStats,
    policy: QueryPolicy,
    scope: &Predicates,
    session: &mut Session<H>,
) -> (staged: (Result<(), Fault>, Ghost<WriteBatch>))
    requires
        old(transaction).wf(),
        database.wf(),
    ensures
        final(transaction).wf(),
        run_frame(*old(transaction), *final(transaction)),
        final(session).metered() == old(session).metered(),
        staged.1@.relation == relation,
        staged.1@.rows@ == seq![row],
        staged.0 is Ok ==> took(
            *old(transaction),
            *final(transaction),
            staged.1@,
            final(session).log(),
        ),
        staged.0 is Err ==> same_workspace(*old(transaction), *final(transaction)) || took(
            *old(transaction),
            *final(transaction),
            staged.1@,
            final(session).log(),
        ),
        observes(
            *old(transaction),
            *final(transaction),
            *database,
            staged.1@,
            staged.0 is Err,
        ),
        staged.0 is Ok ==> *final(stats) == counted(*old(stats), GlaExecutionEvent::ScratchEntry),
        staged.0 is Ok ==> event_excess(
            *old(stats),
            policy,
            GlaExecutionEvent::ScratchEntry,
        ) is None,
        obeys(
            old(session).log(),
            final(session).log(),
            row_plan(
                event_plan(*old(stats), policy, GlaExecutionEvent::ScratchEntry),
                source(),
                *old(transaction),
                *final(transaction),
                *database,
                *scope,
                staged.1@,
            ),
            source(),
            failure(staged.0),
        ),
{
    let ghost start = session.log();
    let ghost before = *transaction;
    let ghost lead = event_plan(*stats, policy, GlaExecutionEvent::ScratchEntry);
    let mut one: Vec<PendingRow> = Vec::new();
    one.push(row);
    let single = WriteBatch { relation, rows: one };
    let ghost kept = single;
    proof {
        assert(kept.rows@ =~= seq![row]);
    }
    let metered = meter_event(stats, policy, session, GlaExecutionEvent::ScratchEntry);
    let ghost middle = session.log();
    if let Err(fault) = metered {
        proof {
            let plan = stage_plan(before, *transaction, *database, *scope, kept);
            lemma_obeys_failed(start, middle, lead, plan.lift(source()), source(), Some(fault));
        }
        return (Err(fault), Ghost(kept));
    }
    let step = stage(transaction, database, single, scope, session);
    proof {
        let plan = stage_plan(before, *transaction, *database, *scope, kept);
        lemma_obeys_lift(middle, session.log(), plan, source(), failure(step));
        lemma_obeys_and(
            start,
            middle,
            session.log(),
            lead,
            plan.lift(source()),
            source(),
            match failure(step) {
                Some(error) => Some(Fault::Source(error)),
                None => None,
            },
        );
    }
    match step {
        Ok(()) => (Ok(()), Ghost(kept)),
        Err(error) => (Err(Fault::Source(error)), Ghost(kept)),
    }
}

} // verus!
