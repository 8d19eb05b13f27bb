//! Laws of whole authorized writes: what a capability may not see is refused like what
//! does not exist, from the opening of the call to its end.

use vstd::prelude::*;
use crate::authorized::{denied, unit, vertex_target};
use crate::authorized_entry::{
    begin_refusal, begun, ordered_steps, writes_ordered, OrderedRun,
};
use crate::authorized_graph::{
    edge_entry_steps, endpoint_steps, stage_edge_plan, stage_edge_steps,
};
use crate::authorized_laws::{
    hidden, hidden_edge, lemma_charged_concat, lemma_missing_deletion, lemma_missing_edge,
    lemma_missing_vertex, lemma_stopped, targets_edge,
};
use crate::authorized_run::{row_plan, run_of, single_of, stage_plan, traces, unit_lead, Trace};
use crate::batch::{intents, intents_upto, PendingRow, WriteBatch};
use crate::database::Database;
use crate::errors::{Denial, LimitDimension, WriteTxnError};
use crate::finish::CompletionStep;
use crate::ids::{EId, ElementId, RelationId, VId};
use crate::plan::{
    charged, failure, go, lemma_obeys_and, lemma_obeys_failed, lemma_obeys_nothing, obeys, same_error,
    stop, upto, whole, Plan,
};
use crate::scope::Predicates;
use crate::session::{Event, Metering};
use crate::txn::WriteTxn;

verus! {

/// A vertex that does not exist, or that the capability may not see.
pub open spec fn unseen(txn: WriteTxn, database: Database, scope: Predicates, vid: VId) -> bool {
    txn.overlay_vertex(database, vid) is None || hidden(scope, txn.overlay_vertex(database, vid))
}

/// An edge that does not exist, or that the capability may not see.
pub open spec fn unseen_edge(
    txn: WriteTxn,
    database: Database,
    scope: Predicates,
    eid: EId,
) -> bool {
    txn.overlay_edge(database, eid) is None || hidden_edge(
        txn,
        database,
        scope,
        txn.overlay_edge(database, eid),
    )
}

/// A vertex that two graphs show a capability alike.
pub open spec fn shown_alike(
    left: WriteTxn,
    left_database: Database,
    right: WriteTxn,
    right_database: Database,
    scope: Predicates,
    vid: VId,
) -> bool {
    ||| unseen(left, left_database, scope, vid) && unseen(right, right_database, scope, vid)
    ||| left.overlay_vertex(left_database, vid) == right.overlay_vertex(right_database, vid)
}

proof fn lemma_unseen_endpoint(txn: WriteTxn, database: Database, scope: Predicates, vid: VId)
    requires
        txn.read_refusal(database) is None,
        unseen(txn, database, scope, vid),
    ensures
        whole(endpoint_steps(txn, database, scope, vid)) == unit().and(stop(denied())),
{
    let steps = endpoint_steps(txn, database, scope, vid);
    let expected = unit().and(stop(denied()));
    reveal_with_fuel(upto, 3);
    if txn.overlay_vertex(database, vid) is Some {
        assert(upto(steps, 1).asks =~= expected.asks);
        lemma_stopped(steps, 1, 3);
    } else {
        assert(upto(steps, 2).asks =~= expected.asks);
        lemma_stopped(steps, 2, 3);
    }
}

/// Creating or ensuring an edge to an endpoint that is hidden and to one that is
/// absent ask the same and are refused the same, whatever else the two graphs hold.
pub proof fn law_hidden_and_absent_endpoints_are_alike(
    seen: WriteTxn,
    seen_after: WriteTxn,
    seen_database: Database,
    bare: WriteTxn,
    bare_after: WriteTxn,
    bare_database: Database,
    scope: Predicates,
    seen_batch: WriteBatch,
    bare_batch: WriteBatch,
    row: (RelationId, PendingRow),
)
    requires
        row.1 is Edge,
        single_of(seen_batch, row),
        single_of(bare_batch, row),
        seen.read_refusal(seen_database) is None,
        bare.read_refusal(bare_database) is None,
        shown_alike(seen, seen_database, bare, bare_database, scope, row.1->Edge_src),
        shown_alike(seen, seen_database, bare, bare_database, scope, row.1->Edge_dst),
        unseen(seen, seen_database, scope, row.1->Edge_src) || unseen(
            seen,
            seen_database,
            scope,
            row.1->Edge_dst,
        ),
    ensures
        stage_edge_plan(seen, seen_after, seen_database, scope, seen_batch) == stage_edge_plan(
            bare,
            bare_after,
            bare_database,
            scope,
            bare_batch,
        ),
        stage_edge_plan(seen, seen_after, seen_database, scope, seen_batch).verdict is Some,
{
    let src = row.1->Edge_src;
    let dst = row.1->Edge_dst;
    let left = edge_entry_steps(seen, seen_database, scope, row.0, seen_batch.rows@[0]);
    let right = edge_entry_steps(bare, bare_database, scope, row.0, bare_batch.rows@[0]);
    assert forall|vid: VId| #[trigger]
        shown_alike(seen, seen_database, bare, bare_database, scope, vid) implies whole(
        endpoint_steps(seen, seen_database, scope, vid),
    ) == whole(endpoint_steps(bare, bare_database, scope, vid)) && (unseen(
        seen,
        seen_database,
        scope,
        vid,
    ) ==> whole(endpoint_steps(seen, seen_database, scope, vid)).verdict is Some) by {
        if unseen(seen, seen_database, scope, vid) {
            lemma_unseen_endpoint(seen, seen_database, scope, vid);
            lemma_unseen_endpoint(bare, bare_database, scope, vid);
        } else {
            assert(endpoint_steps(seen, seen_database, scope, vid) =~= endpoint_steps(
                bare,
                bare_database,
                scope,
                vid,
            ));
        }
    }
    assert(shown_alike(seen, seen_database, bare, bare_database, scope, src));
    assert(shown_alike(seen, seen_database, bare, bare_database, scope, dst));
    assert(left[0] == right[0]);
    assert(left[1] == right[1]);
    assert(left[2] == right[2]);
    assert(left[3] == right[3]);
    reveal_with_fuel(upto, 5);
    assert(upto(left, 4) == upto(right, 4));
    assert(upto(left, 4).verdict is Some);
    lemma_stopped(left, 4, 6);
    lemma_stopped(right, 4, 6);
    let steps = stage_edge_steps(seen, seen_after, seen_database, scope, seen_batch);
    let others = stage_edge_steps(bare, bare_after, bare_database, scope, bare_batch);
    assert(steps[0] == whole(left));
    assert(others[0] == whole(right));
    assert(go::<WriteTxnError>().and(steps[0]).asks =~= steps[0].asks);
    assert(upto(steps, 1) == steps[0]);
    assert(upto(others, 1) == steps[0]);
    lemma_stopped(steps, 1, 6);
    lemma_stopped(others, 1, 6);
}

/// The target of an intent is unseen in two graphs: hidden in one, say, and absent in
/// the other. Of a new edge, an endpoint is.
pub open spec fn indistinct(
    seen: WriteTxn,
    seen_database: Database,
    bare: WriteTxn,
    bare_database: Database,
    scope: Predicates,
    row: PendingRow,
) -> bool {
    match row {
        PendingRow::Edge { src, dst, .. } => {
            &&& shown_alike(seen, seen_database, bare, bare_database, scope, src)
            &&& shown_alike(seen, seen_database, bare, bare_database, scope, dst)
            &&& unseen(seen, seen_database, scope, src) || unseen(seen, seen_database, scope, dst)
        },
        PendingRow::DeleteVertex { vid } => unseen(seen, seen_database, scope, vid) && unseen(
            bare,
            bare_database,
            scope,
            vid,
        ),
        PendingRow::DeleteEdge { eid, .. } => unseen_edge(seen, seen_database, scope, eid)
            && unseen_edge(bare, bare_database, scope, eid),
        PendingRow::SetEdgeProperty { eid, .. } => unseen_edge(seen, seen_database, scope, eid)
            && unseen_edge(bare, bare_database, scope, eid),
        PendingRow::CompareAndSet { elem: ElementId::Edge(eid), .. } => unseen_edge(
            seen,
            seen_database,
            scope,
            eid,
        ) && unseen_edge(bare, bare_database, scope, eid),
        _ => match vertex_target(row) {
            Some((vid, creates)) => !creates && unseen(seen, seen_database, scope, vid) && unseen(
                bare,
                bare_database,
                scope,
                vid,
            ),
            None => false,
        },
    }
}

/// Staging an intent of whichever family on an unseen target is refused for the same
/// reason after the same charges of every signed allowance, in either graph.
pub proof fn law_unseen_targets_are_alike(
    seen: WriteTxn,
    seen_after: WriteTxn,
    seen_database: Database,
    bare: WriteTxn,
    bare_after: WriteTxn,
    bare_database: Database,
    scope: Predicates,
    seen_batch: WriteBatch,
    bare_batch: WriteBatch,
    row: (RelationId, PendingRow),
    dimension: LimitDimension,
)
    requires
        single_of(seen_batch, row),
        single_of(bare_batch, row),
        seen.read_refusal(seen_database) is None,
        bare.read_refusal(bare_database) is None,
        indistinct(seen, seen_database, bare, bare_database, scope, row.1),
    ensures
        ({
            let left = stage_plan(seen, seen_after, seen_database, scope, seen_batch);
            let right = stage_plan(bare, bare_after, bare_database, scope, bare_batch);
            &&& left.verdict == right.verdict
            &&& left.verdict is Some
            &&& charged(left.asks, dimension) == charged(right.asks, dimension)
        }),
{
    if row.1 is Edge {
        law_hidden_and_absent_endpoints_are_alike(
            seen, seen_after, seen_database, bare, bare_after, bare_database, scope, seen_batch,
            bare_batch, row,
        );
    } else if row.1 is DeleteVertex {
        lemma_missing_deletion(seen, seen_after, seen_database, scope, seen_batch);
        lemma_missing_deletion(bare, bare_after, bare_database, scope, bare_batch);
    } else if targets_edge(row.1) {
        lemma_missing_edge(seen, seen_after, seen_database, scope, seen_batch, dimension);
        lemma_missing_edge(bare, bare_after, bare_database, scope, bare_batch, dimension);
        assert(edge_entry_steps(seen, seen_database, scope, row.0, row.1) =~= edge_entry_steps(
            bare,
            bare_database,
            scope,
            row.0,
            row.1,
        ));
    } else {
        lemma_missing_vertex(seen, seen_after, seen_database, scope, seen_batch);
        lemma_missing_vertex(bare, bare_after, bare_database, scope, bare_batch);
    }
}

/// Every new transaction of a database sees the same.
proof fn lemma_begun_alike(left: WriteTxn, right: WriteTxn, database: Database)
    requires
        begun(left, database),
        begun(right, database),
    ensures
        left.read_refusal(database) == right.read_refusal(database),
        forall|vid: VId| #[trigger]
            left.overlay_vertex(database, vid) == right.overlay_vertex(database, vid),
        forall|eid: EId| #[trigger]
            left.overlay_edge(database, eid) == right.overlay_edge(database, eid),
{
    assert(left.prepared_rows() == right.prepared_rows());
}

/// What a whole write asks up to its first intent: to be opened, then one unit, then
/// to stage it.
pub open spec fn write_plan(
    begun: WriteTxn,
    after: WriteTxn,
    database: Database,
    namespace: u64,
    verified: Result<Predicates, Denial>,
    batch: WriteBatch,
    single: WriteBatch,
) -> Plan<WriteTxnError> {
    whole(ordered_steps(database, namespace, verified, seq![batch])).and(
        row_plan(unit(), same_error(), begun, after, database, verified->Ok_0, single),
    )
}

/// A write whose first intent cannot be staged follows its plan to the refusal.
#[verifier::rlimit(40)]
proof fn lemma_refused_write(
    database: Database,
    namespace: u64,
    scope: Predicates,
    batch: WriteBatch,
    first: WriteBatch,
    metered: Metering,
    log: Seq<Event>,
    log_after: Seq<Event>,
    run: OrderedRun,
    done: Result<(WriteTxn, CompletionStep), WriteTxnError>,
    txn: WriteTxn,
) -> (stage: (WriteTxn, WriteTxn, WriteBatch))
    requires
        batch.rows@.len() > 0,
        single_of(first, (batch.relation, batch.rows@[0])),
        begun(txn, database),
        writes_ordered(
            database,
            namespace,
            Ok(scope),
            seq![batch],
            metered,
            log,
            log_after,
            run,
            done,
        ),
        forall|from: WriteTxn, after: WriteTxn, single: WriteBatch|
            begun(from, database) && single_of(single, (batch.relation, batch.rows@[0])) ==> (
            #[trigger] stage_plan(from, after, database, scope, single)).verdict is Some,
    ensures
        begun(stage.0, database),
        single_of(stage.2, (batch.relation, batch.rows@[0])),
        done is Err,
        obeys(
            log,
            log_after,
            write_plan(stage.0, stage.1, database, namespace, Ok(scope), batch, stage.2),
            same_error(),
            failure(done),
        ),
{
    let row = (batch.relation, batch.rows@[0]);
    let verified: Result<Predicates, Denial> = Ok(scope);
    let open = whole(ordered_steps(database, namespace, verified, seq![batch]));
    if run.refused_open is Some {
        lemma_obeys_failed(
            log,
            log_after,
            open,
            row_plan(unit(), same_error(), txn, txn, database, scope, first),
            same_error(),
            run.refused_open,
        );
        (txn, txn, first)
    } else {
        let rows = intents(seq![batch]);
        reveal_with_fuel(intents_upto, 2);
        assert(rows.len() == batch.rows@.len());
        assert(rows[0] == row);
        let (trace, failing) = choose|trace: Trace, failing: WriteBatch| #[trigger]
            run_of(
                trace,
                failing,
                rows,
                unit_lead(),
                same_error(),
                run.begun,
                run.staged,
                database,
                scope,
                run.log_opened,
                run.log_staged,
                run.refused_stage,
            );
        if trace.singles.len() > 0 {
            let single = trace.singles[0];
            assert(single_of(single, rows[0]));
            assert(stage_plan(trace.states[0], trace.states[1], database, scope, single).verdict is Some);
            assert(false);
        }
        lemma_obeys_and(
            log,
            run.log_opened,
            log_after,
            open,
            row_plan(unit(), same_error(), run.begun, run.staged, database, scope, failing),
            same_error(),
            run.refused_stage,
        );
        (run.begun, run.staged, failing)
    }
}

/// A write whose first intent has a hidden target and one whose first intent has an
/// absent target are, for the whole call, refused for the same reason after the same
/// charges of every signed allowance: each call follows a plan, and the two plans have
/// the same verdict and the same charges. `first` is the first intent in a batch of its
/// own.
pub proof fn law_hidden_and_absent_writes_are_alike(
    seen: WriteTxn,
    seen_database: Database,
    seen_log: Seq<Event>,
    seen_log_after: Seq<Event>,
    seen_run: OrderedRun,
    seen_done: Result<(WriteTxn, CompletionStep), WriteTxnError>,
    bare: WriteTxn,
    bare_database: Database,
    bare_log: Seq<Event>,
    bare_log_after: Seq<Event>,
    bare_run: OrderedRun,
    bare_done: Result<(WriteTxn, CompletionStep), WriteTxnError>,
    namespace: u64,
    scope: Predicates,
    batch: WriteBatch,
    first: WriteBatch,
    metered: Metering,
    dimension: LimitDimension,
)
    requires
        batch.rows@.len() > 0,
        single_of(first, (batch.relation, batch.rows@[0])),
        begun(seen, seen_database),
        begun(bare, bare_database),
        seen.read_refusal(seen_database) is None,
        bare.read_refusal(bare_database) is None,
        seen_database.namespace == bare_database.namespace,
        begin_refusal(seen_database) == begin_refusal(bare_database),
        indistinct(seen, seen_database, bare, bare_database, scope, batch.rows@[0]),
        writes_ordered(
            seen_database,
            namespace,
            Ok(scope),
            seq![batch],
            metered,
            seen_log,
            seen_log_after,
            seen_run,
            seen_done,
        ),
        writes_ordered(
            bare_database,
            namespace,
            Ok(scope),
            seq![batch],
            metered,
            bare_log,
            bare_log_after,
            bare_run,
            bare_done,
        ),
    ensures
        seen_done is Err,
        bare_done is Err,
        exists|left: Plan<WriteTxnError>, right: Plan<WriteTxnError>|
            {
                &&& #[trigger] obeys(
                    seen_log,
                    seen_log_after,
                    left,
                    same_error(),
                    failure(seen_done),
                )
                &&& #[trigger] obeys(
                    bare_log,
                    bare_log_after,
                    right,
                    same_error(),
                    failure(bare_done),
                )
                &&& left.verdict == right.verdict
                &&& left.verdict is Some
                &&& charged(left.asks, dimension) == charged(right.asks, dimension)
            },
{
    let row = (batch.relation, batch.rows@[0]);
    let verified: Result<Predicates, Denial> = Ok(scope);
    assert forall|from: WriteTxn, other: WriteTxn|
        begun(from, seen_database) && begun(other, bare_database) implies from.read_refusal(
        seen_database,
    ) is None && other.read_refusal(bare_database) is None && #[trigger] indistinct(
        from,
        seen_database,
        other,
        bare_database,
        scope,
        row.1,
    ) by {
        lemma_begun_alike(seen, from, seen_database);
        lemma_begun_alike(bare, other, bare_database);
    }
    assert forall|from: WriteTxn, after: WriteTxn, single: WriteBatch|
        begun(from, seen_database) && single_of(single, row) implies (#[trigger] stage_plan(
        from,
        after,
        seen_database,
        scope,
        single,
    )).verdict is Some by {
        assert(indistinct(from, seen_database, bare, bare_database, scope, row.1));
        law_unseen_targets_are_alike(
            from, after, seen_database, bare, bare, bare_database, scope, single, first, row,
            dimension,
        );
    }
    assert forall|from: WriteTxn, after: WriteTxn, single: WriteBatch|
        begun(from, bare_database) && single_of(single, row) implies (#[trigger] stage_plan(
        from,
        after,
        bare_database,
        scope,
        single,
    )).verdict is Some by {
        assert(indistinct(seen, seen_database, from, bare_database, scope, row.1));
        law_unseen_targets_are_alike(
            seen, seen, seen_database, from, after, bare_database, scope, first, single, row,
            dimension,
        );
    }
    let l = lemma_refused_write(
        seen_database, namespace, scope, batch, first, metered, seen_log, seen_log_after, seen_run,
        seen_done, seen,
    );
    let r = lemma_refused_write(
        bare_database, namespace, scope, batch, first, metered, bare_log, bare_log_after, bare_run,
        bare_done, bare,
    );
    let left = write_plan(l.0, l.1, seen_database, namespace, verified, batch, l.2);
    let right = write_plan(r.0, r.1, bare_database, namespace, verified, batch, r.2);
    assert(indistinct(l.0, seen_database, r.0, bare_database, scope, row.1));
    law_unseen_targets_are_alike(
        l.0, l.1, seen_database, r.0, r.1, bare_database, scope, l.2, r.2, row, dimension,
    );
    assert(ordered_steps(seen_database, namespace, verified, seq![batch]) =~= ordered_steps(
        bare_database,
        namespace,
        verified,
        seq![batch],
    ));
    let open = whole(ordered_steps(seen_database, namespace, verified, seq![batch]));
    let a = stage_plan(l.0, l.1, seen_database, scope, l.2);
    let b = stage_plan(r.0, r.1, bare_database, scope, r.2);
    lemma_charged_concat(unit().asks, a.asks, dimension);
    lemma_charged_concat(unit().asks, b.asks, dimension);
    lemma_charged_concat(open.asks, unit().asks + a.asks, dimension);
    lemma_charged_concat(open.asks, unit().asks + b.asks, dimension);
    assert(obeys(seen_log, seen_log_after, left, same_error(), failure(seen_done)));
    assert(obeys(bare_log, bare_log_after, right, same_error(), failure(bare_done)));
}

/// What the first `n` staged intents of a run ask: one unit and the staging of each.
pub open spec fn staged_plan(
    trace: Trace,
    database: Database,
    scope: Predicates,
    n: int,
) -> Plan<WriteTxnError>
    decreases n,
{
    if n <= 0 {
        go()
    } else {
        staged_plan(trace, database, scope, n - 1).and(
            row_plan(
                unit(),
                same_error(),
                trace.states[n - 1],
                trace.states[n],
                database,
                scope,
                trace.singles[n - 1],
            ),
        )
    }
}

/// What a whole write asks up to an intent: to be opened, then to stage the intents
/// before it, then one unit, then to stage it.
pub open spec fn intent_plan(
    trace: Trace,
    after: WriteTxn,
    database: Database,
    namespace: u64,
    verified: Result<Predicates, Denial>,
    batches: Seq<WriteBatch>,
    k: int,
    single: WriteBatch,
) -> Plan<WriteTxnError> {
    let scope = verified->Ok_0;
    whole(ordered_steps(database, namespace, verified, batches)).and(
        staged_plan(trace, database, scope, k).and(
            row_plan(unit(), same_error(), trace.states[k], after, database, scope, single),
        ),
    )
}

proof fn lemma_staged_prefix(
    trace: Trace,
    rows: Seq<(RelationId, PendingRow)>,
    n: int,
    database: Database,
    scope: Predicates,
    k: int,
)
    requires
        traces(trace, rows, n, unit_lead(), same_error(), database, scope),
        0 <= k <= n,
    ensures
        obeys(
            trace.logs[0],
            trace.logs[k],
            staged_plan(trace, database, scope, k),
            same_error(),
            None,
        ),
    decreases k,
{
    if k == 0 {
        lemma_obeys_nothing(trace.logs[0], same_error());
    } else {
        lemma_staged_prefix(trace, rows, n, database, scope, k - 1);
        assert(single_of(trace.singles[k - 1], rows[k - 1]));
        lemma_obeys_and(
            trace.logs[0],
            trace.logs[k - 1],
            trace.logs[k],
            staged_plan(trace, database, scope, k - 1),
            row_plan(
                unit(),
                same_error(),
                trace.states[k - 1],
                trace.states[k],
                database,
                scope,
                trace.singles[k - 1],
            ),
            same_error(),
            None,
        );
    }
}

/// The first `k` intents of two runs were staged for the same charges.
pub open spec fn staged_alike(
    seen: Trace,
    seen_database: Database,
    bare: Trace,
    bare_database: Database,
    scope: Predicates,
    k: int,
    dimension: LimitDimension,
) -> bool {
    forall|i: int|
        #![trigger seen.singles[i]]
        0 <= i < k ==> charged(
            stage_plan(
                seen.states[i],
                seen.states[i + 1],
                seen_database,
                scope,
                seen.singles[i],
            ).asks,
            dimension,
        ) == charged(
            stage_plan(
                bare.states[i],
                bare.states[i + 1],
                bare_database,
                scope,
                bare.singles[i],
            ).asks,
            dimension,
        )
}

proof fn lemma_staged_charges(
    seen: Trace,
    seen_database: Database,
    bare: Trace,
    bare_database: Database,
    scope: Predicates,
    k: int,
    n: int,
    dimension: LimitDimension,
)
    requires
        0 <= n <= k,
        staged_alike(seen, seen_database, bare, bare_database, scope, k, dimension),
        forall|i: int|
            #![trigger staged_plan(seen, seen_database, scope, i)]
            0 <= i <= n ==> staged_plan(seen, seen_database, scope, i).verdict is None,
        forall|i: int|
            #![trigger staged_plan(bare, bare_database, scope, i)]
            0 <= i <= n ==> staged_plan(bare, bare_database, scope, i).verdict is None,
    ensures
        charged(staged_plan(seen, seen_database, scope, n).asks, dimension) == charged(
            staged_plan(bare, bare_database, scope, n).asks,
            dimension,
        ),
    decreases n,
{
    if n > 0 {
        lemma_staged_charges(
            seen, seen_database, bare, bare_database, scope, k, n - 1, dimension,
        );
        let last = seen.singles[n - 1];
        let a = stage_plan(seen.states[n - 1], seen.states[n], seen_database, scope, last);
        let b = stage_plan(
            bare.states[n - 1],
            bare.states[n],
            bare_database,
            scope,
            bare.singles[n - 1],
        );
        let head = staged_plan(seen, seen_database, scope, n - 1);
        let other = staged_plan(bare, bare_database, scope, n - 1);
        lemma_charged_concat(unit().asks, a.asks, dimension);
        lemma_charged_concat(unit().asks, b.asks, dimension);
        lemma_charged_concat(head.asks, unit().asks + a.asks, dimension);
        lemma_charged_concat(other.asks, unit().asks + b.asks, dimension);
        assert(head.verdict is None);
        assert(other.verdict is None);
    }
}

/// A write whose intent `k` cannot be staged follows its plan to that refusal.
proof fn lemma_refused_intent(
    database: Database,
    namespace: u64,
    scope: Predicates,
    batches: Seq<WriteBatch>,
    metered: Metering,
    log: Seq<Event>,
    log_after: Seq<Event>,
    run: OrderedRun,
    done: Result<(WriteTxn, CompletionStep), WriteTxnError>,
    trace: Trace,
    failing: WriteBatch,
    k: int,
)
    requires
        0 <= k < intents(batches).len(),
        k <= trace.singles.len(),
        run.refused_open is None,
        writes_ordered(
            database,
            namespace,
            Ok(scope),
            batches,
            metered,
            log,
            log_after,
            run,
            done,
        ),
        run_of(
            trace,
            failing,
            intents(batches),
            unit_lead(),
            same_error(),
            run.begun,
            run.staged,
            database,
            scope,
            run.log_opened,
            run.log_staged,
            run.refused_stage,
        ),
        forall|after: WriteTxn, single: WriteBatch|
            single_of(single, intents(batches)[k]) ==> (#[trigger] stage_plan(
                trace.states[k],
                after,
                database,
                scope,
                single,
            )).verdict is Some,
    ensures
        done is Err,
        single_of(failing, intents(batches)[k]),
        trace.singles.len() == k,
        obeys(
            log,
            log_after,
            intent_plan(trace, run.staged, database, namespace, Ok(scope), batches, k, failing),
            same_error(),
            failure(done),
        ),
{
    let rows = intents(batches);
    let n = trace.singles.len() as int;
    let verified: Result<Predicates, Denial> = Ok(scope);
    let open = whole(ordered_steps(database, namespace, verified, batches));
    if n > k {
        let single = trace.singles[k];
        assert(single_of(single, rows[k]));
        assert(stage_plan(trace.states[k], trace.states[k + 1], database, scope, single).verdict is Some);
        assert(false);
    }
    assert(n == k);
    assert(run.refused_stage is Some);
    lemma_staged_prefix(trace, rows, n, database, scope, k);
    let last = row_plan(
        unit(),
        same_error(),
        trace.states[k],
        run.staged,
        database,
        scope,
        failing,
    );
    lemma_obeys_and(
        run.log_opened,
        trace.logs[k],
        log_after,
        staged_plan(trace, database, scope, k),
        last,
        same_error(),
        run.refused_stage,
    );
    lemma_obeys_and(
        log,
        run.log_opened,
        log_after,
        open,
        staged_plan(trace, database, scope, k).and(last),
        same_error(),
        run.refused_stage,
    );
}

/// Two writes of the same intents, whose first `k` were staged for the same charges,
/// are refused alike on an intent whose target is hidden in one database and absent in
/// the other: for the same reason, after the same charges of every signed allowance
/// for the whole call.
pub proof fn law_hidden_and_absent_intents_are_alike(
    seen_database: Database,
    seen_log: Seq<Event>,
    seen_log_after: Seq<Event>,
    seen_run: OrderedRun,
    seen_done: Result<(WriteTxn, CompletionStep), WriteTxnError>,
    seen: Trace,
    seen_failing: WriteBatch,
    bare_database: Database,
    bare_log: Seq<Event>,
    bare_log_after: Seq<Event>,
    bare_run: OrderedRun,
    bare_done: Result<(WriteTxn, CompletionStep), WriteTxnError>,
    bare: Trace,
    bare_failing: WriteBatch,
    namespace: u64,
    scope: Predicates,
    batches: Seq<WriteBatch>,
    k: int,
    metered: Metering,
    dimension: LimitDimension,
)
    requires
        0 <= k < intents(batches).len(),
        seen_run.refused_open is None,
        bare_run.refused_open is None,
        k <= seen.singles.len(),
        k <= bare.singles.len(),
        staged_alike(seen, seen_database, bare, bare_database, scope, k, dimension),
        seen.states[k].read_refusal(seen_database) is None,
        bare.states[k].read_refusal(bare_database) is None,
        seen_database.namespace == bare_database.namespace,
        begin_refusal(seen_database) == begin_refusal(bare_database),
        indistinct(
            seen.states[k],
            seen_database,
            bare.states[k],
            bare_database,
            scope,
            intents(batches)[k].1,
        ),
        writes_ordered(
            seen_database,
            namespace,
            Ok(scope),
            batches,
            metered,
            seen_log,
            seen_log_after,
            seen_run,
            seen_done,
        ),
        run_of(
            seen,
            seen_failing,
            intents(batches),
            unit_lead(),
            same_error(),
            seen_run.begun,
            seen_run.staged,
            seen_database,
            scope,
            seen_run.log_opened,
            seen_run.log_staged,
            seen_run.refused_stage,
        ),
        writes_ordered(
            bare_database,
            namespace,
            Ok(scope),
            batches,
            metered,
            bare_log,
            bare_log_after,
            bare_run,
            bare_done,
        ),
        run_of(
            bare,
            bare_failing,
            intents(batches),
            unit_lead(),
            same_error(),
            bare_run.begun,
            bare_run.staged,
            bare_database,
            scope,
            bare_run.log_opened,
            bare_run.log_staged,
            bare_run.refused_stage,
        ),
    ensures
        seen_done is Err,
        bare_done is Err,
        exists|left: Plan<WriteTxnError>, right: Plan<WriteTxnError>|
            {
                &&& #[trigger] obeys(
                    seen_log,
                    seen_log_after,
                    left,
                    same_error(),
                    failure(seen_done),
                )
                &&& #[trigger] obeys(
                    bare_log,
                    bare_log_after,
                    right,
                    same_error(),
                    failure(bare_done),
                )
                &&& left.verdict == right.verdict
                &&& left.verdict is Some
                &&& charged(left.asks, dimension) == charged(right.asks, dimension)
            },
{
    let row = intents(batches)[k];
    let verified: Result<Predicates, Denial> = Ok(scope);
    assert forall|after: WriteTxn, single: WriteBatch| single_of(single, row) implies (
    #[trigger] stage_plan(seen.states[k], after, seen_database, scope, single)).verdict is Some by {
        law_unseen_targets_are_alike(
            seen.states[k], after, seen_database, bare.states[k], bare.states[k], bare_database,
            scope, single, single, row, dimension,
        );
    }
    assert forall|after: WriteTxn, single: WriteBatch| single_of(single, row) implies (
    #[trigger] stage_plan(bare.states[k], after, bare_database, scope, single)).verdict is Some by {
        law_unseen_targets_are_alike(
            seen.states[k], seen.states[k], seen_database, bare.states[k], after, bare_database,
            scope, single, single, row, dimension,
        );
    }
    lemma_refused_intent(
        seen_database, namespace, scope, batches, metered, seen_log, seen_log_after, seen_run,
        seen_done, seen, seen_failing, k,
    );
    lemma_refused_intent(
        bare_database, namespace, scope, batches, metered, bare_log, bare_log_after, bare_run,
        bare_done, bare, bare_failing, k,
    );
    let left = intent_plan(
        seen, seen_run.staged, seen_database, namespace, verified, batches, k, seen_failing,
    );
    let right = intent_plan(
        bare, bare_run.staged, bare_database, namespace, verified, batches, k, bare_failing,
    );
    law_unseen_targets_are_alike(
        seen.states[k], seen_run.staged, seen_database, bare.states[k], bare_run.staged,
        bare_database, scope, seen_failing, bare_failing, row, dimension,
    );
    assert(ordered_steps(seen_database, namespace, verified, batches) =~= ordered_steps(
        bare_database,
        namespace,
        verified,
        batches,
    ));
    assert forall|i: int|
        #![trigger staged_plan(seen, seen_database, scope, i)]
        0 <= i <= k implies staged_plan(seen, seen_database, scope, i).verdict is None by {
        lemma_staged_prefix(seen, intents(batches), k, seen_database, scope, i);
    }
    assert forall|i: int|
        #![trigger staged_plan(bare, bare_database, scope, i)]
        0 <= i <= k implies staged_plan(bare, bare_database, scope, i).verdict is None by {
        lemma_staged_prefix(bare, intents(batches), k, bare_database, scope, i);
    }
    lemma_staged_charges(seen, seen_database, bare, bare_database, scope, k, k, dimension);
    let open = whole(ordered_steps(seen_database, namespace, verified, batches));
    let p = staged_plan(seen, seen_database, scope, k);
    let q = staged_plan(bare, bare_database, scope, k);
    let a = stage_plan(seen.states[k], seen_run.staged, seen_database, scope, seen_failing);
    let b = stage_plan(bare.states[k], bare_run.staged, bare_database, scope, bare_failing);
    lemma_charged_concat(unit().asks, a.asks, dimension);
    lemma_charged_concat(unit().asks, b.asks, dimension);
    lemma_charged_concat(p.asks, unit().asks + a.asks, dimension);
    lemma_charged_concat(q.asks, unit().asks + b.asks, dimension);
    lemma_charged_concat(open.asks, p.asks + (unit().asks + a.asks), dimension);
    lemma_charged_concat(open.asks, q.asks + (unit().asks + b.asks), dimension);
    assert(obeys(seen_log, seen_log_after, left, same_error(), failure(seen_done)));
    assert(obeys(bare_log, bare_log_after, right, same_error(), failure(bare_done)));
}

} // verus!
