//! Laws of authorized writes: what a capability may not see changes neither what it
//! is charged nor why it is refused.

use vstd::prelude::*;
use crate::authorized::{
    attempted_keys, attempted_labels, denied, fields_plan, lookup_plan, stage_vertex_plan,
    stage_vertex_steps, unit, vertex_target, visible,
};
use crate::authorized_delete::{delete_vertex_plan, delete_vertex_steps};
use crate::authorized_deletion::{deletable, delete_head_steps, DeleteProposal};
use crate::authorized_entry::{
    begin_refusal, empty_batch, opening_steps, ordered_steps, refusal_plan, verified_refusal, writes_ordered,
    OrderedRun,
};
use crate::authorized_graph::{
    admit_edge_steps, edge_entry_steps, edge_image, edge_steps, image_steps, record_plan,
    resolved_target, stage_edge_plan, stage_edge_steps,
};
use crate::authorized_program::{preflighted, program_steps, StatementKind};
use crate::authorized_run::{run_of, runs, single_of, took, unit_lead, Trace};
use crate::batch::{intents, PendingRow, WriteBatch};
use crate::database::Database;
use crate::errors::{Denial, LimitDimension, WriteTxnError};
use crate::finish::CompletionStep;
use crate::graph::{EdgeView, VertexView};
use crate::ids::{ElementId, RelationId};
use crate::plan::{ask, charged, demand, go, obeys, same_error, stop, upto, whole, Plan};
use crate::scope::Predicates;
use crate::session::{latest, work_plan, Event, Metering, Request};
use crate::statement::{Fault, QueryPolicy};
use crate::txn::WriteTxn;

verus! {

/// A plan that stopped among its first steps is those steps.
pub proof fn lemma_stopped<E>(steps: Seq<Plan<E>>, n: int, m: int)
    requires
        0 <= n <= m,
        upto(steps, n).verdict is Some,
    ensures
        upto(steps, m) == upto(steps, n),
    decreases m - n,
{
    if n < m {
        lemma_stopped(steps, n, m - 1);
    }
}

pub proof fn lemma_charged_concat(left: Seq<Request>, right: Seq<Request>, dimension: LimitDimension)
    ensures
        charged(left + right, dimension) == charged(left, dimension) + charged(right, dimension),
    decreases right.len(),
{
    if right.len() == 0 {
        assert(left + right =~= left);
    } else {
        lemma_charged_concat(left, right.drop_last(), dimension);
        assert((left + right).drop_last() =~= left + right.drop_last());
    }
}

proof fn lemma_poll_is_free(dimension: LimitDimension)
    ensures
        charged(seq![Request::Poll], dimension) == 0,
        charged(Seq::<Request>::empty(), dimension) == 0,
{
    reveal_with_fuel(charged, 2);
    assert(seq![Request::Poll].drop_last() =~= Seq::<Request>::empty());
}

/// A vertex that exists and that the capability may not see.
pub open spec fn hidden(scope: Predicates, vertex: Option<VertexView>) -> bool {
    vertex is Some && !visible(scope, vertex)
}

pub proof fn lemma_missing_vertex(
    txn: WriteTxn,
    after: WriteTxn,
    database: Database,
    scope: Predicates,
    batch: WriteBatch,
)
    requires
        vertex_target(batch.rows@[0]) matches Some((_, false)),
        txn.read_refusal(database) is None,
        txn.overlay_vertex(database, (vertex_target(batch.rows@[0])->0).0) is None || hidden(
            scope,
            txn.overlay_vertex(database, (vertex_target(batch.rows@[0])->0).0),
        ),
    ensures
        stage_vertex_plan(txn, after, database, scope, batch) == fields_plan(
            scope,
            attempted_labels(batch.rows@[0]),
            attempted_keys(batch.rows@[0]),
        ).and(unit()).and(stop(denied())),
{
    let steps = stage_vertex_steps(txn, after, database, scope, batch);
    let row = batch.rows@[0];
    let vid = (vertex_target(row)->0).0;
    let fields = fields_plan(scope, attempted_labels(row), attempted_keys(row));
    reveal_with_fuel(upto, 4);
    assert(go::<WriteTxnError>().and(fields).asks =~= fields.asks);
    assert(upto(steps, 1) == fields);
    let expected = fields.and(unit()).and(stop(denied()));
    if fields.verdict is Some {
        lemma_stopped(steps, 1, 6);
    } else if txn.overlay_vertex(database, vid) is Some {
        assert(upto(steps, 2) == fields.and(lookup_plan(txn, database, scope, vid)));
        assert(upto(steps, 2).asks =~= expected.asks);
        lemma_stopped(steps, 2, 6);
    } else {
        assert(upto(steps, 3).asks =~= expected.asks);
        lemma_stopped(steps, 3, 6);
    }
}

/// Writing a vertex that is hidden and one that is absent ask the same and are
/// refused the same, whatever else the two graphs hold.
pub proof fn law_hidden_and_absent_vertices_are_alike(
    seen: WriteTxn,
    seen_after: WriteTxn,
    seen_database: Database,
    bare: WriteTxn,
    bare_after: WriteTxn,
    bare_database: Database,
    scope: Predicates,
    batch: WriteBatch,
)
    requires
        vertex_target(batch.rows@[0]) matches Some((_, false)),
        seen.read_refusal(seen_database) is None,
        bare.read_refusal(bare_database) is None,
        hidden(
            scope,
            seen.overlay_vertex(seen_database, (vertex_target(batch.rows@[0])->0).0),
        ),
        bare.overlay_vertex(bare_database, (vertex_target(batch.rows@[0])->0).0) is None,
    ensures
        stage_vertex_plan(seen, seen_after, seen_database, scope, batch) == stage_vertex_plan(
            bare,
            bare_after,
            bare_database,
            scope,
            batch,
        ),
        stage_vertex_plan(seen, seen_after, seen_database, scope, batch).verdict is Some,
{
    lemma_missing_vertex(seen, seen_after, seen_database, scope, batch);
    lemma_missing_vertex(bare, bare_after, bare_database, scope, batch);
}

/// An edge that exists and that the capability may not see: its relation, or one
/// of its endpoints.
pub open spec fn hidden_edge(
    txn: WriteTxn,
    database: Database,
    scope: Predicates,
    edge: Option<EdgeView>,
) -> bool {
    match edge {
        None => false,
        Some(view) => {
            let src = txn.overlay_vertex(database, view.entry.src);
            let dst = txn.overlay_vertex(database, view.entry.dst);
            ||| !scope.admits_relation(view.entry.relation)
            ||| hidden(scope, src)
            ||| src is Some && hidden(scope, dst)
        },
    }
}

proof fn lemma_hidden_image(
    txn: WriteTxn,
    database: Database,
    scope: Predicates,
    edge: EdgeView,
    dimension: LimitDimension,
)
    requires
        txn.read_refusal(database) is None,
        hidden_edge(txn, database, scope, Some(edge)),
    ensures
        whole(image_steps(txn, database, scope, edge)).verdict == Some(denied()),
        charged(whole(image_steps(txn, database, scope, edge)).asks, dimension) == 0,
{
    let steps = image_steps(txn, database, scope, edge);
    let poll = seq![Request::Poll];
    reveal_with_fuel(upto, 6);
    lemma_poll_is_free(dimension);
    lemma_charged_concat(poll, poll, dimension);
    lemma_charged_concat(poll + poll, poll, dimension);
    assert(upto(steps, 1).asks =~= poll);
    if !scope.admits_relation(edge.entry.relation) {
        lemma_stopped(steps, 1, 10);
    } else {
        assert(upto(steps, 2).asks =~= poll);
        if txn.overlay_vertex(database, edge.entry.src) is None {
            lemma_stopped(steps, 2, 10);
        } else {
            assert(upto(steps, 3).asks =~= poll + poll);
            if !visible(scope, txn.overlay_vertex(database, edge.entry.src)) {
                lemma_stopped(steps, 3, 10);
            } else {
                assert(upto(steps, 4).asks =~= poll + poll);
                assert(upto(steps, 5).asks =~= poll + poll + poll);
                lemma_stopped(steps, 5, 10);
            }
        }
    }
}

pub proof fn lemma_missing_edge(
    txn: WriteTxn,
    after: WriteTxn,
    database: Database,
    scope: Predicates,
    batch: WriteBatch,
    dimension: LimitDimension,
)
    requires
        targets_edge(batch.rows@[0]),
        txn.read_refusal(database) is None,
        txn.overlay_edge(
            database,
            resolved_target(txn, database, batch.relation, batch.rows@[0]),
        ) is None || hidden_edge(
            txn,
            database,
            scope,
            txn.overlay_edge(
                database,
                resolved_target(txn, database, batch.relation, batch.rows@[0]),
            ),
        ),
    ensures
        ({
            let plan = stage_edge_plan(txn, after, database, scope, batch);
            let entry = whole(
                edge_entry_steps(txn, database, scope, batch.relation, batch.rows@[0]),
            );
            &&& plan.verdict == (if entry.verdict is Some {
                entry.verdict
            } else {
                Some(denied())
            })
            &&& charged(plan.asks, dimension) == charged(entry.asks, dimension) + if entry.verdict is Some {
                0
            } else {
                charged(unit().asks, dimension)
            }
        }),
{
    let row = batch.rows@[0];
    let eid = resolved_target(txn, database, batch.relation, row);
    let edge = txn.overlay_edge(database, eid);
    let steps = stage_edge_steps(txn, after, database, scope, batch);
    let entry = whole(edge_entry_steps(txn, database, scope, batch.relation, row));
    let reads = edge_steps(txn, database, scope, eid);
    let record = record_plan(txn, database);
    reveal_with_fuel(upto, 4);
    lemma_poll_is_free(dimension);
    assert(go::<WriteTxnError>().and(entry).asks =~= entry.asks);
    assert(upto(steps, 1) == entry);
    if entry.verdict is Some {
        lemma_stopped(steps, 1, 6);
        assert(entry.asks + Seq::<Request>::empty() =~= entry.asks);
    } else {
        assert(record.verdict is None);
        assert(record.asks =~= unit().asks);
        match edge {
            Some(view) => {
                let image = whole(image_steps(txn, database, scope, view));
                lemma_hidden_image(txn, database, scope, view, dimension);
                assert(whole(reads).asks =~= record.asks + image.asks);
                assert(whole(reads).verdict == Some(denied()));
                lemma_charged_concat(record.asks, image.asks, dimension);
                assert(upto(steps, 2).asks == entry.asks + whole(reads).asks);
                lemma_charged_concat(entry.asks, whole(reads).asks, dimension);
                lemma_stopped(steps, 2, 6);
            },
            None => {
                assert(whole(reads).asks =~= record.asks);
                assert(whole(reads).verdict is None);
                let admits = admit_edge_steps(row, None);
                assert(edge_image(txn, database, eid) is None);
                assert(whole(admits).verdict == Some(denied()));
                assert(whole(admits).asks =~= Seq::<Request>::empty());
                assert(upto(steps, 2).asks == entry.asks + whole(reads).asks);
                lemma_charged_concat(entry.asks, whole(reads).asks, dimension);
                assert(upto(steps, 3).asks =~= upto(steps, 2).asks);
                assert(upto(steps, 3).verdict == Some(denied()));
                lemma_stopped(steps, 3, 6);
            },
        }
    }
}

/// An intent on an edge that already exists.
pub open spec fn targets_edge(row: PendingRow) -> bool {
    match row {
        PendingRow::DeleteEdge { .. } => true,
        PendingRow::SetEdgeProperty { .. } => true,
        PendingRow::CompareAndSet { elem: ElementId::Edge(_), .. } => true,
        _ => false,
    }
}

/// Writing an edge that is hidden and one that is absent are refused for the same
/// reason after the same charges of every signed allowance.
pub proof fn law_hidden_and_absent_edges_are_alike(
    seen: WriteTxn,
    seen_after: WriteTxn,
    seen_database: Database,
    bare: WriteTxn,
    bare_after: WriteTxn,
    bare_database: Database,
    scope: Predicates,
    batch: WriteBatch,
    dimension: LimitDimension,
)
    requires
        targets_edge(batch.rows@[0]),
        seen.read_refusal(seen_database) is None,
        bare.read_refusal(bare_database) is None,
        hidden_edge(
            seen,
            seen_database,
            scope,
            seen.overlay_edge(
                seen_database,
                resolved_target(seen, seen_database, batch.relation, batch.rows@[0]),
            ),
        ),
        bare.overlay_edge(
            bare_database,
            resolved_target(bare, bare_database, batch.relation, batch.rows@[0]),
        ) is None,
    ensures
        stage_edge_plan(seen, seen_after, seen_database, scope, batch).verdict
            == stage_edge_plan(bare, bare_after, bare_database, scope, batch).verdict,
        stage_edge_plan(seen, seen_after, seen_database, scope, batch).verdict is Some,
        charged(
            stage_edge_plan(seen, seen_after, seen_database, scope, batch).asks,
            dimension,
        ) == charged(
            stage_edge_plan(bare, bare_after, bare_database, scope, batch).asks,
            dimension,
        ),
{
    lemma_missing_edge(seen, seen_after, seen_database, scope, batch, dimension);
    lemma_missing_edge(bare, bare_after, bare_database, scope, batch, dimension);
    assert(edge_entry_steps(seen, seen_database, scope, batch.relation, batch.rows@[0])
        =~= edge_entry_steps(bare, bare_database, scope, batch.relation, batch.rows@[0]));
}

/// A capability that could hide something a deletion erases is refused before the
/// graph is read and before anything is asked or charged.
pub proof fn law_scoped_deletions_read_nothing(
    txn: WriteTxn,
    after: WriteTxn,
    database: Database,
    scope: Predicates,
    batch: WriteBatch,
)
    ensures
        batch.rows@[0] is DeleteVertex && !(scope.all_incidence() && scope.all_fields())
            ==> delete_vertex_plan(txn, after, database, scope, batch) == stop::<WriteTxnError>(
            denied(),
        ),
        batch.rows@[0] is DeleteEdge && !scope.all_properties() ==> stage_edge_plan(
            txn,
            after,
            database,
            scope,
            batch,
        ) == stop::<WriteTxnError>(denied()),
{
    reveal_with_fuel(upto, 2);
    if batch.rows@[0] is DeleteVertex && !(scope.all_incidence() && scope.all_fields()) {
        let vid = batch.rows@[0]->DeleteVertex_vid;
        let steps = delete_vertex_steps(txn, after, database, scope, batch, vid);
        assert(upto(steps, 1).asks =~= Seq::<Request>::empty());
        lemma_stopped(steps, 1, steps.len() as int);
    }
    if batch.rows@[0] is DeleteEdge && !scope.all_properties() {
        let entry = edge_entry_steps(txn, database, scope, batch.relation, batch.rows@[0]);
        let steps = stage_edge_steps(txn, after, database, scope, batch);
        assert(whole(entry).asks =~= Seq::<Request>::empty());
        assert(whole(entry).verdict == Some(denied()));
        assert(upto(steps, 1).asks =~= Seq::<Request>::empty());
        lemma_stopped(steps, 1, 6);
    }
}

/// A run that stages every intent leaves the transaction with the evaluator's latest
/// answer and with one staged batch more for each intent.
pub proof fn law_runs_end_with_the_latest_evaluation<E>(
    rows: Seq<(RelationId, PendingRow)>,
    lead: spec_fn(int) -> Plan<E>,
    wrap: spec_fn(WriteTxnError) -> E,
    before: WriteTxn,
    after: WriteTxn,
    database: Database,
    scope: Predicates,
    log: Seq<Event>,
    log_after: Seq<Event>,
)
    requires
        runs(rows, lead, wrap, before, after, database, scope, log, log_after, None),
    ensures
        after.staged@.len() == before.staged@.len() + rows.len(),
        rows.len() > 0 ==> after.prepared is Some && after.prepared == latest(log_after),
        rows.len() == 0 ==> after == before && log_after == log,
{
    let (trace, failing) = choose|trace: Trace, failing: WriteBatch| #[trigger]
        run_of(
            trace, failing, rows, lead, wrap, before, after, database, scope, log, log_after, None,
        );
    let n = trace.singles.len() as int;
    if n > 0 {
        assert(single_of(trace.singles[n - 1], rows[n - 1]));
        assert(took(trace.states[n - 1], trace.states[n], trace.singles[n - 1], trace.logs[n]));
    }
}

/// An ordered authorized write that succeeds publishes what the evaluator prepared
/// last, over all of its intents. It never closes as a read.
pub proof fn law_ordered_writes_publish(
    database: Database,
    namespace: u64,
    verified: Result<Predicates, Denial>,
    batches: Seq<WriteBatch>,
    metered: Metering,
    log: Seq<Event>,
    log_after: Seq<Event>,
    run: OrderedRun,
    done: Result<(WriteTxn, CompletionStep), WriteTxnError>,
)
    requires
        writes_ordered(
            database,
            namespace,
            verified,
            batches,
            metered,
            log,
            log_after,
            run,
            done,
        ),
        done is Ok,
    ensures
        (done->Ok_0).1 is Publish,
        Some((done->Ok_0).1->prepared) == latest(run.log_staged),
        run.staged.staged@.len() == intents(batches).len(),
        intents(batches).len() > 0,
        batches.len() > 0,
{
    let steps = ordered_steps(database, namespace, verified, batches);
    let rows = intents(batches);
    let scope = verified->Ok_0;
    let (trace, failing) = choose|trace: Trace, failing: WriteBatch| #[trigger]
        run_of(
            trace, failing, rows, unit_lead(), same_error(), run.begun, run.staged, database, scope,
            run.log_opened, run.log_staged, None,
        );
    let n = trace.singles.len() as int;
    assert(run_of(
        trace, failing, rows, unit_lead(), same_error(), run.begun, run.staged, database, scope,
        run.log_opened, run.log_staged, None,
    ));
    if n > 0 {
        assert(single_of(trace.singles[n - 1], rows[n - 1]));
        assert(took(trace.states[n - 1], trace.states[n], trace.singles[n - 1], trace.logs[n]));
    } else {
        assert(run.staged == run.begun);
    }
    if batches.len() == 0 {
        reveal_with_fuel(upto, 5);
        assert(steps[3] == demand::<WriteTxnError>(false, empty_batch()));
        assert(upto(steps, 4).verdict is Some);
        lemma_stopped(steps, 4, steps.len() as int);
    }
}

/// A deletion that the capability may not decide in full is refused before the graph
/// is read: what is asked and why it is refused depend on neither graph.
pub proof fn law_refused_deletions_disclose_nothing(
    seen: WriteTxn,
    seen_database: Database,
    bare: WriteTxn,
    bare_database: Database,
    scope: Predicates,
    proposal: DeleteProposal,
    policy: QueryPolicy,
    returning: bool,
)
    requires
        !deletable(scope, proposal),
    ensures
        whole(delete_head_steps(seen, seen_database, scope, proposal, policy, returning)) == stop::<
            Fault,
        >(Fault::Source(denied())),
        whole(delete_head_steps(seen, seen_database, scope, proposal, policy, returning)) == whole(
            delete_head_steps(bare, bare_database, scope, proposal, policy, returning),
        ),
{
    lemma_undeletable(seen, seen_database, scope, proposal, policy, returning);
    lemma_undeletable(bare, bare_database, scope, proposal, policy, returning);
}

pub proof fn lemma_undeletable(
    txn: WriteTxn,
    database: Database,
    scope: Predicates,
    proposal: DeleteProposal,
    policy: QueryPolicy,
    returning: bool,
)
    requires
        !deletable(scope, proposal),
    ensures
        whole(delete_head_steps(txn, database, scope, proposal, policy, returning)) == stop::<
            Fault,
        >(Fault::Source(denied())),
{
    let steps = delete_head_steps(txn, database, scope, proposal, policy, returning);
    reveal_with_fuel(upto, 2);
    assert(steps[0] == demand::<Fault>(false, Fault::Source(denied())));
    assert(upto(steps, 1).asks =~= Seq::<Request>::empty());
    lemma_stopped(steps, 1, steps.len() as int);
}

pub proof fn lemma_missing_deletion(
    txn: WriteTxn,
    after: WriteTxn,
    database: Database,
    scope: Predicates,
    batch: WriteBatch,
)
    requires
        batch.rows@[0] is DeleteVertex,
        txn.read_refusal(database) is None,
        txn.overlay_vertex(database, batch.rows@[0]->DeleteVertex_vid) is None || hidden(
            scope,
            txn.overlay_vertex(database, batch.rows@[0]->DeleteVertex_vid),
        ),
    ensures
        delete_vertex_plan(txn, after, database, scope, batch) == (if scope.all_incidence()
            && scope.all_fields() {
            unit().and(stop(denied()))
        } else {
            stop(denied())
        }),
{
    let vid = batch.rows@[0]->DeleteVertex_vid;
    let steps = delete_vertex_steps(txn, after, database, scope, batch, vid);
    let expected = unit().and(stop(denied()));
    reveal_with_fuel(upto, 4);
    if !(scope.all_incidence() && scope.all_fields()) {
        assert(upto(steps, 1).asks =~= Seq::<Request>::empty());
        lemma_stopped(steps, 1, steps.len() as int);
    } else if txn.overlay_vertex(database, vid) is Some {
        assert(upto(steps, 2).asks =~= expected.asks);
        lemma_stopped(steps, 2, steps.len() as int);
    } else {
        assert(upto(steps, 3).asks =~= expected.asks);
        lemma_stopped(steps, 3, steps.len() as int);
    }
}

/// Deleting a vertex that is hidden and one that is absent ask the same, are charged
/// the same and are refused the same.
pub proof fn law_hidden_and_absent_deletions_are_alike(
    seen: WriteTxn,
    seen_after: WriteTxn,
    seen_database: Database,
    bare: WriteTxn,
    bare_after: WriteTxn,
    bare_database: Database,
    scope: Predicates,
    batch: WriteBatch,
)
    requires
        batch.rows@[0] is DeleteVertex,
        seen.read_refusal(seen_database) is None,
        bare.read_refusal(bare_database) is None,
        hidden(scope, seen.overlay_vertex(seen_database, batch.rows@[0]->DeleteVertex_vid)),
        bare.overlay_vertex(bare_database, batch.rows@[0]->DeleteVertex_vid) is None,
    ensures
        delete_vertex_plan(seen, seen_after, seen_database, scope, batch) == delete_vertex_plan(
            bare,
            bare_after,
            bare_database,
            scope,
            batch,
        ),
        delete_vertex_plan(seen, seen_after, seen_database, scope, batch).verdict is Some,
{
    lemma_missing_deletion(seen, seen_after, seen_database, scope, batch);
    lemma_missing_deletion(bare, bare_after, bare_database, scope, batch);
}

/// What opening charges, up to its `n`th step after the first four.
proof fn lemma_opening_charges(
    database: Database,
    namespace: u64,
    verified: Result<Predicates, Denial>,
    batches: Seq<WriteBatch>,
    n: int,
    dimension: LimitDimension,
)
    requires
        0 <= n <= batches.len(),
        batches.len() > 0,
        forall|i: int| 0 <= i < batches.len() ==> (#[trigger] batches[i]).rows@.len() > 0,
        namespace == database.namespace,
        verified_refusal(verified) is None,
    ensures
        ({
            let plan = upto(ordered_steps(database, namespace, verified, batches), 4 + n);
            &&& plan.verdict is None
            &&& charged(plan.asks, dimension) == charged(work_plan(1), dimension)
        }),
    decreases n,
{
    let steps = ordered_steps(database, namespace, verified, batches);
    lemma_poll_is_free(dimension);
    if n == 0 {
        reveal_with_fuel(upto, 5);
        assert(upto(steps, 4).asks =~= work_plan(1));
    } else {
        lemma_opening_charges(database, namespace, verified, batches, n - 1, dimension);
        let before = upto(steps, 3 + n);
        assert(steps[3 + n] == ask::<WriteTxnError>(seq![Request::Poll]).and(
            demand(batches[n - 1].rows@.len() > 0, empty_batch()),
        ));
        assert(steps[3 + n].asks =~= seq![Request::Poll]);
        lemma_charged_concat(before.asks, seq![Request::Poll], dimension);
    }
}

/// However the same intents are grouped into batches, opening charges the same
/// signed units, and staging is a run over the same intents.
pub proof fn law_grouping_changes_no_charge(
    database: Database,
    namespace: u64,
    verified: Result<Predicates, Denial>,
    one: Seq<WriteBatch>,
    other: Seq<WriteBatch>,
    dimension: LimitDimension,
)
    requires
        intents(one) == intents(other),
        one.len() > 0,
        other.len() > 0,
        forall|i: int| 0 <= i < one.len() ==> (#[trigger] one[i]).rows@.len() > 0,
        forall|i: int| 0 <= i < other.len() ==> (#[trigger] other[i]).rows@.len() > 0,
    ensures
        charged(whole(ordered_steps(database, namespace, verified, one)).asks, dimension)
            == charged(
            whole(ordered_steps(database, namespace, verified, other)).asks,
            dimension,
        ),
        whole(ordered_steps(database, namespace, verified, one)).verdict == whole(
            ordered_steps(database, namespace, verified, other),
        ).verdict,
{
    let left = ordered_steps(database, namespace, verified, one);
    let right = ordered_steps(database, namespace, verified, other);
    reveal_with_fuel(upto, 3);
    if namespace != database.namespace {
        assert(upto(left, 1) == upto(right, 1));
        lemma_stopped(left, 1, left.len() as int);
        lemma_stopped(right, 1, right.len() as int);
    } else if verified_refusal(verified) is Some {
        assert(upto(left, 2) == upto(right, 2));
        lemma_stopped(left, 2, left.len() as int);
        lemma_stopped(right, 2, right.len() as int);
    } else {
        lemma_opening_charges(database, namespace, verified, one, one.len() as int, dimension);
        lemma_opening_charges(database, namespace, verified, other, other.len() as int, dimension);
        let last = refusal_plan(begin_refusal(database));
        let n = one.len() as int;
        let m = other.len() as int;
        assert(left[4 + n] == last);
        assert(right[4 + m] == last);
        assert(upto(left, 5 + n).asks =~= upto(left, 4 + n).asks);
        assert(upto(right, 5 + m).asks =~= upto(right, 4 + m).asks);
    }
}

/// Nothing opens without a verified capability.
pub proof fn lemma_unverified(
    database: Database,
    namespace: u64,
    verified: Result<Predicates, Denial>,
    reading: bool,
    relation: Option<RelationId>,
    prepaid: bool,
    log: Seq<Event>,
    log_after: Seq<Event>,
)
    requires
        obeys(
            log,
            log_after,
            whole(opening_steps(database, namespace, verified, reading, relation, prepaid)),
            same_error(),
            None,
        ),
    ensures
        verified is Ok,
{
    let steps = opening_steps(database, namespace, verified, reading, relation, prepaid);
    if verified is Err {
        reveal_with_fuel(upto, 3);
        lemma_stopped(steps, 2, 6);
    }
}

/// No program opens without a verified capability.
pub proof fn lemma_unverified_program(
    database: Database,
    namespace: u64,
    verified: Result<Predicates, Denial>,
    kinds: Seq<StatementKind>,
    log: Seq<Event>,
    log_after: Seq<Event>,
)
    requires
        obeys(
            log,
            log_after,
            whole(program_steps(database, namespace, verified, kinds)).lift(preflighted()),
            preflighted(),
            None,
        ),
    ensures
        verified is Ok,
{
    let steps = program_steps(database, namespace, verified, kinds);
    if verified is Err {
        reveal_with_fuel(upto, 3);
        lemma_stopped(steps, 2, steps.len() as int);
    }
}

} // verus!
