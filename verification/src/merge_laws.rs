//! What a relationship MERGE is for: it matches the one edge between the selected
//! endpoints, or makes it.

use vstd::prelude::*;
use crate::authorized_edge::{
    creation_rows, lemma_candidates_match, merges_selected, signed_policy, EdgeMergeRun,
};
use crate::authorized_laws::law_runs_end_with_the_latest_evaluation;
use crate::authorized_pair::{endpoint_plan, reads_endpoint};
use crate::authorized_statement::{lead_plan, Lead};
use crate::batch::{intents, intents_upto, PendingRow, WriteBatch};
use crate::database::Database;
use crate::edge_merge::{
    creation_script, edge_choice_script, edge_chosen, edge_created, edge_script, edge_staged,
    edges_script, endpoint_pair, input_read, input_script, lists_overlay, matches_upto,
    merge_report, merges, pairs_upto, records_excess, row_script, rows_script, GraphEdgeMerge,
    GraphEdgeMergeOutcome, GraphEdgeMergePolicy, GraphEdgeMergeStats, SelectedValue, Selection,
};
use crate::edge_upsert::{
    branch_actions, branch_edge, branch_run, merge_run, upserts, GraphEdgeUpsert,
    GraphEdgeUpsertPolicy, GraphEdgeUpsertStats,
};
use crate::errors::WriteTxnError;
use crate::governed::{governed, refusing, Step};
use crate::graph::{EdgeRecord, EdgeView};
use crate::identity::IdentityState;
use crate::ids::{CanonicalScalar, EId, PropertyKeyId, RelationId, VId};
use crate::intent_laws::{
    edge_asked, edge_asked_by, edge_shown, evaluates_as_asked, law_runs_stage_their_intents,
    lemma_asked_concat, lemma_intents_concat, lemma_same_rows_ask_the_same,
    lemma_spared_edge_property, lemma_split_at, spares_edge_property, value_at,
};
use crate::props::props_map;
use crate::scope::Predicates;
use crate::script::{script_plan, state_after};
use crate::session::Event;
use crate::statement::{source, Fault, GlaExecutionEvent, QueryPolicy, QueryStats};
use crate::txn::{same_workspace, WriteTxn};

verus! {

/// No step of the script refuses.
pub open spec fn unrefusing(script: Seq<Step>) -> bool {
    forall|i: int| 0 <= i < script.len() ==> !((#[trigger] script[i]) is Refuse)
}

proof fn lemma_goes_unrefused(
    policy: QueryPolicy,
    stats: QueryStats,
    script: Seq<Step>,
)
    requires
        script_plan(governed(policy), stats, script).verdict is None,
    ensures
        unrefusing(script),
    decreases script.len(),
{
    if script.len() > 0 {
        let rest = script.drop_last();
        let rule = governed(policy);
        assert(script_plan(rule, stats, rest).verdict is None);
        lemma_goes_unrefused(policy, stats, rest);
        let last = script[script.len() - 1];
        assert((rule.plan)(state_after(rule, stats, rest), last).verdict is None);
        assert forall|i: int| 0 <= i < script.len() implies !((#[trigger] script[i]) is Refuse) by {
            if i < rest.len() {
                assert(rest[i] == script[i]);
            }
        }
    }
}

proof fn lemma_unrefusing_parts(head: Seq<Step>, tail: Seq<Step>)
    requires
        unrefusing(head + tail),
    ensures
        unrefusing(head),
        unrefusing(tail),
{
    assert forall|i: int| 0 <= i < head.len() implies !((#[trigger] head[i]) is Refuse) by {
        assert((head + tail)[i] == head[i]);
    }
    assert forall|i: int| 0 <= i < tail.len() implies !((#[trigger] tail[i]) is Refuse) by {
        assert((head + tail)[head.len() + i] == tail[i]);
    }
}

/// The row selects these two vertices.
pub open spec fn row_selects(
    merge: GraphEdgeMerge,
    row: Seq<SelectedValue>,
    src: VId,
    dst: VId,
) -> bool {
    &&& row.len() == merge.width
    &&& row[merge.source_column as int] == SelectedValue::Vertex(src)
    &&& row[merge.destination_column as int] == SelectedValue::Vertex(dst)
}

/// There is input, and every row of it selects the same two vertices.
pub open spec fn selects_pair(
    merge: GraphEdgeMerge,
    rows: Seq<Vec<SelectedValue>>,
    src: VId,
    dst: VId,
) -> bool {
    &&& rows.len() > 0
    &&& forall|i: int|
        0 <= i < rows.len() ==> row_selects(merge, (#[trigger] rows[i])@, src, dst)
}

/// The edge is there, and runs in the relation from one vertex to the other.
pub open spec fn joins(edge: Option<EdgeView>, relation: RelationId, src: VId, dst: VId) -> bool {
    &&& edge matches Some(view)
    &&& view.entry.relation == relation
    &&& view.entry.src == src
    &&& view.entry.dst == dst
}

proof fn lemma_every_row_selects(merge: GraphEdgeMerge, rows: Seq<Vec<SelectedValue>>, n: int)
    requires
        0 <= n <= rows.len(),
        unrefusing(rows_script(merge, rows, n)),
    ensures
        forall|i: int|
            0 <= i < n ==> ({
                let pair = endpoint_pair(merge, (#[trigger] rows[i])@, i);
                &&& pair is Ok
                &&& pairs_upto(merge, rows, n).contains(pair->Ok_0)
                &&& row_selects(merge, rows[i]@, pair->Ok_0.0, pair->Ok_0.1)
            }),
        pairs_upto(merge, rows, n).len() == 0 <==> n == 0,
    decreases n,
{
    if n > 0 {
        let earlier = pairs_upto(merge, rows, n - 1);
        let all = pairs_upto(merge, rows, n);
        let own = row_script(merge, rows, n - 1);
        lemma_unrefusing_parts(rows_script(merge, rows, n - 1), own);
        lemma_every_row_selects(merge, rows, n - 1);
        let last = endpoint_pair(merge, rows[n - 1]@, n - 1);
        if let Err(fault) = last {
            assert(own[1] == Step::Refuse(fault));
        }
        assert forall|i: int| 0 <= i < n implies ({
            let pair = endpoint_pair(merge, (#[trigger] rows[i])@, i);
            &&& pair is Ok
            &&& all.contains(pair->Ok_0)
            &&& row_selects(merge, rows[i]@, pair->Ok_0.0, pair->Ok_0.1)
        }) by {
            if i < n - 1 {
                let pair = endpoint_pair(merge, rows[i]@, i)->Ok_0;
                let k = earlier.index_of(pair);
                assert(all[k] == pair);
            } else if !earlier.contains(last->Ok_0) {
                assert(all[earlier.len() as int] == last->Ok_0);
            }
        }
    }
}

proof fn lemma_input_selects_one_pair(merge: GraphEdgeMerge, rows: Seq<Vec<SelectedValue>>)
    requires
        unrefusing(input_script(merge, rows)),
    ensures
        ({
            let pairs = pairs_upto(merge, rows, rows.len() as int);
            &&& pairs.len() <= 1
            &&& pairs.len() == 0 <==> rows.len() == 0
            &&& pairs.len() == 1 ==> selects_pair(merge, rows, pairs[0].0, pairs[0].1)
        }),
{
    let n = rows.len() as int;
    let pairs = pairs_upto(merge, rows, n);
    let work = seq![Step::Count(GlaExecutionEvent::Work)];
    let reading = rows_script(merge, rows, n);
    let poll = seq![Step::Poll];
    let last = refusing(
        if pairs.len() > 1 {
            Some(Fault::AmbiguousEndpointPairs { observed: pairs.len() as u64 })
        } else {
            None
        },
    );
    lemma_unrefusing_parts(work + reading + poll, last);
    lemma_unrefusing_parts(work + reading, poll);
    lemma_unrefusing_parts(work, reading);
    lemma_every_row_selects(merge, rows, n);
    if pairs.len() > 1 {
        assert(last[0] is Refuse);
    }
    if pairs.len() == 1 {
        assert forall|i: int| 0 <= i < rows.len() implies row_selects(
            merge,
            (#[trigger] rows[i])@,
            pairs[0].0,
            pairs[0].1,
        ) by {
            let pair = endpoint_pair(merge, rows[i]@, i)->Ok_0;
            let k = pairs.index_of(pair);
            assert(pairs[k] == pair);
        }
    }
}

proof fn lemma_matches_join(
    edges: Seq<EdgeRecord>,
    relation: RelationId,
    src: VId,
    dst: VId,
    n: int,
)
    requires
        0 <= n <= edges.len(),
    ensures
        forall|eid: EId| #[trigger]
            matches_upto(edges, relation, src, dst, n).contains(eid) <==> exists|i: int|
                0 <= i < n && (#[trigger] edges[i]).entry.eid == eid && edges[i].entry.relation
                    == relation && edges[i].entry.src == src && edges[i].entry.dst == dst,
    decreases n,
{
    if n > 0 {
        lemma_matches_join(edges, relation, src, dst, n - 1);
        let earlier = matches_upto(edges, relation, src, dst, n - 1);
        let all = matches_upto(edges, relation, src, dst, n);
        assert forall|eid: EId| #[trigger]
            all.contains(eid) <==> exists|i: int|
                0 <= i < n && (#[trigger] edges[i]).entry.eid == eid && edges[i].entry.relation
                    == relation && edges[i].entry.src == src && edges[i].entry.dst == dst by {
            if all.contains(eid) {
                let k = all.index_of(eid);
                if k < earlier.len() {
                    assert(earlier[k] == eid);
                    assert(earlier.contains(eid));
                } else {
                    assert(edges[n - 1].entry.eid == eid);
                }
            }
            if exists|i: int|
                0 <= i < n && (#[trigger] edges[i]).entry.eid == eid && edges[i].entry.relation
                    == relation && edges[i].entry.src == src && edges[i].entry.dst == dst {
                let i = choose|i: int|
                    0 <= i < n && (#[trigger] edges[i]).entry.eid == eid && edges[i].entry.relation
                        == relation && edges[i].entry.src == src && edges[i].entry.dst == dst;
                if i < n - 1 {
                    assert(earlier.contains(eid));
                    let k = earlier.index_of(eid);
                    assert(all[k] == eid);
                } else {
                    assert(all[all.len() - 1] == eid);
                }
            }
        }
    }
}

proof fn lemma_at_most_one_match(
    edges: Seq<EdgeRecord>,
    relation: RelationId,
    src: VId,
    dst: VId,
    n: int,
)
    requires
        0 <= n <= edges.len(),
        unrefusing(edges_script(edges, relation, src, dst, n)),
    ensures
        matches_upto(edges, relation, src, dst, n).len() <= 1,
    decreases n,
{
    if n > 0 {
        let own = edge_script(edges, relation, src, dst, n - 1);
        lemma_unrefusing_parts(edges_script(edges, relation, src, dst, n - 1), own);
        lemma_at_most_one_match(edges, relation, src, dst, n - 1);
        let earlier = matches_upto(edges, relation, src, dst, n - 1);
        if earlier.len() > 0 && matches_upto(edges, relation, src, dst, n).len() > 1 {
            assert(own[1] is Refuse);
        }
    }
}

/// The matches over a complete list are the edges that the transaction sees there.
proof fn lemma_matches_are_seen(
    txn: WriteTxn,
    database: Database,
    edges: Seq<EdgeRecord>,
    relation: RelationId,
    src: VId,
    dst: VId,
)
    requires
        lists_overlay(txn, database, edges),
    ensures
        forall|eid: EId| #[trigger]
            matches_upto(edges, relation, src, dst, edges.len() as int).contains(eid) <==> joins(
                txn.overlay_edge(database, eid),
                relation,
                src,
                dst,
            ),
{
    let graph = |eid: EId| txn.overlay_edge(database, eid);
    let n = edges.len() as int;
    lemma_matches_join(edges, relation, src, dst, n);
    assert forall|eid: EId| #[trigger]
        matches_upto(edges, relation, src, dst, n).contains(eid) <==> joins(
            txn.overlay_edge(database, eid),
            relation,
            src,
            dst,
        ) by {
        if matches_upto(edges, relation, src, dst, n).contains(eid) {
            let i = choose|i: int|
                0 <= i < n && (#[trigger] edges[i]).entry.eid == eid && edges[i].entry.relation
                    == relation && edges[i].entry.src == src && edges[i].entry.dst == dst;
            assert(graph(edges[i].entry.eid) == Some(edges[i]@));
        }
        if joins(txn.overlay_edge(database, eid), relation, src, dst) {
            assert(graph(eid) is Some);
            let i = choose|i: int| 0 <= i < n && (#[trigger] edges[i]).entry.eid == eid;
            assert(graph(edges[i].entry.eid) == Some(edges[i]@));
        }
    }
}

proof fn lemma_choice_is_unambiguous(
    merge: GraphEdgeMerge,
    policy: GraphEdgeMergePolicy,
    selected: QueryStats,
    edges: Seq<EdgeRecord>,
    pair: (VId, VId),
)
    requires
        unrefusing(edge_choice_script(merge, policy, selected, edges, pair)),
    ensures
        ({
            let found = matches_upto(edges, merge.relation, pair.0, pair.1, edges.len() as int);
            &&& found.len() <= 1
            &&& found.len() == 0 ==> policy.max_created_edges > 0
        }),
{
    let n = edges.len() as int;
    let found = matches_upto(edges, merge.relation, pair.0, pair.1, n);
    let budget = refusing(
        records_excess(policy.query, selected.snapshot_records + n),
    );
    let scanning = edges_script(edges, merge.relation, pair.0, pair.1, n);
    let last = if found.len() > 0 {
        Seq::empty()
    } else {
        creation_script(merge, policy)
    };
    lemma_unrefusing_parts(budget + scanning, last);
    lemma_unrefusing_parts(budget, scanning);
    lemma_at_most_one_match(edges, merge.relation, pair.0, pair.1, n);
    if found.len() == 0 && policy.max_created_edges == 0 {
        assert(last[0] is Refuse);
    }
}

/// The transaction sees no edge of the relation from one vertex to the other.
pub open spec fn unjoined(
    txn: WriteTxn,
    database: Database,
    relation: RelationId,
    src: VId,
    dst: VId,
) -> bool {
    forall|eid: EId| !joins(#[trigger] txn.overlay_edge(database, eid), relation, src, dst)
}

/// The transaction sees this one edge of the relation from one vertex to the other, and
/// no other.
pub open spec fn joined_once(
    txn: WriteTxn,
    database: Database,
    relation: RelationId,
    src: VId,
    dst: VId,
    eid: EId,
) -> bool {
    &&& joins(txn.overlay_edge(database, eid), relation, src, dst)
    &&& forall|other: EId|
        joins(#[trigger] txn.overlay_edge(database, other), relation, src, dst) ==> other == eid
}

/// The last staged batch creates this edge, and nothing else is staged anew.
pub open spec fn stages_creation(
    before: WriteTxn,
    after: WriteTxn,
    merge: GraphEdgeMerge,
    eid: EId,
    src: VId,
    dst: VId,
) -> bool {
    &&& after.staged@.len() == before.staged@.len() + 1
    &&& after.staged@.drop_last() == before.staged@
    &&& after.staged@.last().relation == merge.relation
    &&& after.staged@.last().rows@.len() == 1
    &&& after.staged@.last().rows@[0] matches PendingRow::Edge { eid: e, src: s, dst: d, props, .. }
    &&& (e, s, d) == (eid, src, dst)
    &&& props@ == merge.properties@
}

proof fn lemma_creation_is_seen(
    before: WriteTxn,
    after: WriteTxn,
    database: Database,
    merge: GraphEdgeMerge,
    eid: EId,
    src: VId,
    dst: VId,
)
    requires
        stages_creation(before, after, merge, eid, src, dst),
        after.staged@.last().rows@[0] matches PendingRow::Edge { ensure, .. } && !ensure,
        evaluates_as_asked(after, database),
    ensures
        joins(after.overlay_edge(database, eid), merge.relation, src, dst),
        after.overlay_edge(database, eid)->0.props == props_map(merge.properties@),
{
    let batch = after.staged@.last();
    assert(after.staged@ =~= before.staged@ + seq![batch]);
    lemma_intents_concat(before.staged@, seq![batch], 1);
    let own = intents_upto(seq![batch], 1);
    assert(intents_upto(seq![batch], 0) =~= Seq::<(RelationId, PendingRow)>::empty());
    assert(own =~= seq![(batch.relation, batch.rows@[0])]);
    let basis = edge_shown(database.edge_at_spec(eid, after.basis));
    lemma_asked_concat(None, basis, VId(0), eid, intents(before.staged@), own);
    assert(own.drop_last() =~= Seq::<(RelationId, PendingRow)>::empty());
    assert(edge_shown(after.overlay_edge(database, eid)) is Some);
}

/// A relationship MERGE without input does nothing. Otherwise its rows all select one pair
/// of endpoints. It matches the only edge of its relation between them, and stages
/// nothing; or, where there is no such edge, it stages exactly one.
#[verifier::rlimit(60)]
#[verifier::spinoff_prover]
pub proof fn law_edge_merge_matches_or_makes_one(
    before: WriteTxn,
    after: WriteTxn,
    database: Database,
    merge: GraphEdgeMerge,
    policy: GraphEdgeMergePolicy,
    selection: Selection,
    log: Seq<Event>,
    log_after: Seq<Event>,
    stats: GraphEdgeMergeStats,
    outcome: GraphEdgeMergeOutcome,
)
    requires
        merges(
            before,
            after,
            database,
            merge,
            policy,
            selection,
            log,
            log_after,
            Ok((stats, outcome)),
        ),
    ensures
        match outcome {
            GraphEdgeMergeOutcome::NoInput => {
                &&& selection.rows@.len() == 0
                &&& same_workspace(before, after)
            },
            GraphEdgeMergeOutcome::Matched(eid) => {
                &&& same_workspace(before, after)
                &&& exists|src: VId, dst: VId| #[trigger]
                    selects_pair(merge, selection.rows@, src, dst) && joined_once(
                        before,
                        database,
                        merge.relation,
                        src,
                        dst,
                        eid,
                    )
            },
            GraphEdgeMergeOutcome::Created(eid) => {
                &&& policy.max_created_edges > 0
                &&& exists|src: VId, dst: VId| #[trigger]
                    selects_pair(merge, selection.rows@, src, dst) && unjoined(
                        before,
                        database,
                        merge.relation,
                        src,
                        dst,
                    ) && stages_creation(before, after, merge, eid, src, dst) && (
                    evaluates_as_asked(after, database) ==> joins(
                        after.overlay_edge(database, eid),
                        merge.relation,
                        src,
                        dst,
                    ) && after.overlay_edge(database, eid)->0.props == props_map(
                        merge.properties@,
                    ))
            },
        },
        stats.created_edges == if outcome is Created {
            1int
        } else {
            0int
        },
{
    let rows = selection.rows@;
    let pairs = pairs_upto(merge, rows, rows.len() as int);
    let (counted, log_read, failed) = choose|
        counted: QueryStats,
        log_read: Seq<Event>,
        failed: Option<Fault>,
    | #[trigger]
        input_read(
            before, after, database, merge, policy, selection, counted, log, log_read, log_after,
            failed, Ok((stats, outcome)),
        );
    lemma_goes_unrefused(policy.query, selection.stats, input_script(merge, rows));
    lemma_input_selects_one_pair(merge, rows);
    if pairs.len() > 0 {
        let (scanned, edges, decided, log_decided, stopped) = choose|
            scanned: WriteTxn,
            edges: Seq<EdgeRecord>,
            decided: QueryStats,
            log_decided: Seq<Event>,
            stopped: Option<Fault>,
        | #[trigger]
            edge_chosen(
                before, scanned, after, database, merge, policy, selection.stats, pairs[0], edges,
                counted, decided, log_read, log_decided, log_after, stopped, Ok((stats, outcome)),
            );
        let (src, dst) = pairs[0];
        let found = matches_upto(edges, merge.relation, src, dst, edges.len() as int);
        lemma_goes_unrefused(
            policy.query,
            counted,
            edge_choice_script(merge, policy, selection.stats, edges, pairs[0]),
        );
        lemma_choice_is_unambiguous(merge, policy, selection.stats, edges, pairs[0]);
        lemma_matches_are_seen(before, database, edges, merge.relation, src, dst);
        assert(selects_pair(merge, rows, src, dst));
        if found.len() > 0 {
            assert(found.contains(found[0]));
            assert(joined_once(before, database, merge.relation, src, dst, found[0])) by {
                assert forall|other: EId|
                    joins(
                        #[trigger] before.overlay_edge(database, other),
                        merge.relation,
                        src,
                        dst,
                    ) implies other == found[0] by {
                    assert(found.contains(other));
                }
            }
        } else {
            assert(unjoined(before, database, merge.relation, src, dst)) by {
                assert forall|eid: EId|
                    !joins(#[trigger] before.overlay_edge(database, eid), merge.relation, src, dst) by {
                    assert(!found.contains(eid));
                }
            }
            let log_issued = choose|log_issued: Seq<Event>| #[trigger]
                edge_created(
                    scanned, after, database, merge, pairs[0], selection.stats, edges.len(),
                    decided, log_decided, log_issued, log_after, Ok((stats, outcome)),
                );
            let eid = log_issued.last().issued->0->Edge_0;
            let (log_polled, batch, staged) = choose|
                log_polled: Seq<Event>,
                batch: WriteBatch,
                staged: Result<(), WriteTxnError>,
            | #[trigger]
                edge_staged(
                    scanned, after, database, merge, pairs[0], eid,
                    merge_report(
                        selection.stats,
                        edges.len(),
                        decided,
                        GraphEdgeMergeOutcome::Created(eid),
                    ),
                    log_issued, log_polled, log_after, batch, staged, Ok((stats, outcome)),
                );
            assert(after.staged@ == scanned.staged@ + seq![batch]);
            assert(after.staged@.drop_last() =~= before.staged@);
            assert(after.staged@.last() == batch);
            if evaluates_as_asked(after, database) {
                lemma_creation_is_seen(before, after, database, merge, eid, src, dst);
            }
        }
    }
}

/// An endpoint that was admitted is one that the transaction sees.
proof fn lemma_endpoint_is_seen(
    txn: WriteTxn,
    database: Database,
    scope: Predicates,
    vid: VId,
    log: Seq<Event>,
    log_polled: Seq<Event>,
    log_after: Seq<Event>,
)
    requires
        reads_endpoint(txn, database, scope, vid, log, log_polled, log_after, None),
    ensures
        txn.overlay_vertex(database, vid) is Some,
{
    assert(endpoint_plan(txn, database, scope, vid).verdict is None);
}

/// An authorized relationship MERGE behaves as the native one does, over endpoints that
/// are both there, in a relation that the capability admits.
#[verifier::rlimit(60)]
#[verifier::spinoff_prover]
pub proof fn law_authorized_edge_merge_matches_or_makes_one(
    before: WriteTxn,
    after: WriteTxn,
    database: Database,
    merge: GraphEdgeMerge,
    policy: GraphEdgeMergePolicy,
    selection: Selection,
    scope: Predicates,
    returning: bool,
    run: EdgeMergeRun,
    identities: IdentityState,
    identities_after: IdentityState,
    log: Seq<Event>,
    log_after: Seq<Event>,
    stats: GraphEdgeMergeStats,
    outcome: GraphEdgeMergeOutcome,
)
    requires
        merges_selected(
            before,
            after,
            database,
            merge,
            policy,
            selection,
            scope,
            returning,
            run,
            identities,
            identities_after,
            log,
            log_after,
            Ok((stats, outcome)),
        ),
    ensures
        match outcome {
            GraphEdgeMergeOutcome::NoInput => selection.rows@.len() == 0 && after == before,
            GraphEdgeMergeOutcome::Matched(eid) => {
                &&& scope.admits_relation(merge.relation)
                &&& same_workspace(before, after)
                &&& identities_after == identities
                &&& exists|src: VId, dst: VId| #[trigger]
                    selects_pair(merge, selection.rows@, src, dst) && joined_once(
                        before,
                        database,
                        merge.relation,
                        src,
                        dst,
                        eid,
                    ) && before.overlay_vertex(database, src) is Some && before.overlay_vertex(
                        database,
                        dst,
                    ) is Some
            },
            GraphEdgeMergeOutcome::Created(eid) => {
                &&& scope.admits_relation(merge.relation)
                &&& policy.max_created_edges > 0
                &&& exists|src: VId, dst: VId| #[trigger]
                    selects_pair(merge, selection.rows@, src, dst) && unjoined(
                        before,
                        database,
                        merge.relation,
                        src,
                        dst,
                    ) && before.overlay_vertex(database, src) is Some && before.overlay_vertex(
                        database,
                        dst,
                    ) is Some && (evaluates_as_asked(after, database) ==> joins(
                        after.overlay_edge(database, eid),
                        merge.relation,
                        src,
                        dst,
                    ) && after.overlay_edge(database, eid)->0.props == props_map(
                        merge.properties@,
                    ))
            },
        },
        stats.created_edges == if outcome is Created {
            1int
        } else {
            0int
        },
{
    let rows = selection.rows@;
    let pairs = pairs_upto(merge, rows, rows.len() as int);
    let bounded = signed_policy(policy);
    lemma_goes_unrefused(bounded.query, selection.stats, input_script(merge, rows));
    lemma_input_selects_one_pair(merge, rows);
    if pairs.len() > 0 {
        let (src, dst) = pairs[0];
        let admitted = run.admitted->Ok_0@;
        let edges = run.pair_run.edges;
        assert(run.admitted is Ok);
        lemma_endpoint_is_seen(
            before,
            database,
            scope,
            src,
            run.log_read,
            run.pair_run.source_polled,
            run.pair_run.source_read,
        );
        lemma_endpoint_is_seen(
            before,
            database,
            scope,
            dst,
            run.pair_run.source_read,
            run.pair_run.destination_polled,
            run.pair_run.destination_read,
        );
        lemma_matches_are_seen(before, database, edges, merge.relation, src, dst);
        lemma_candidates_match(
            run.candidates,
            merge.relation,
            pairs[0],
            admitted,
            admitted.len() as int,
        );
        assert(admitted.take(admitted.len() as int) =~= admitted);
        lemma_goes_unrefused(
            bounded.query,
            run.counted,
            edge_choice_script(merge, bounded, selection.stats, run.candidates, pairs[0]),
        );
        lemma_choice_is_unambiguous(merge, bounded, selection.stats, run.candidates, pairs[0]);
        assert(selects_pair(merge, rows, src, dst));
        if admitted.len() > 0 {
            assert(admitted.contains(admitted[0]));
            assert(joined_once(before, database, merge.relation, src, dst, admitted[0])) by {
                assert forall|other: EId|
                    joins(
                        #[trigger] before.overlay_edge(database, other),
                        merge.relation,
                        src,
                        dst,
                    ) implies other == admitted[0] by {
                    assert(admitted.contains(other));
                }
            }
            law_runs_end_with_the_latest_evaluation(
                run.rows,
                lead_plan(Lead::Unit, run.rows),
                source(),
                run.seen,
                after,
                database,
                scope,
                run.log_decided,
                run.log_staged,
            );
        } else {
            assert(unjoined(before, database, merge.relation, src, dst)) by {
                assert forall|eid: EId|
                    !joins(#[trigger] before.overlay_edge(database, eid), merge.relation, src, dst) by {
                    assert(!admitted.contains(eid));
                }
            }
            let eid = run.issued->Ok_0->Edge_0;
            assert(creation_rows(merge, pairs[0], eid, run.rows));
            law_runs_stage_their_intents(
                run.rows,
                lead_plan(Lead::Unit, run.rows),
                source(),
                run.seen,
                after,
                database,
                scope,
                run.log_issued,
                run.log_staged,
            );
            if evaluates_as_asked(after, database) {
                let basis = edge_shown(database.edge_at_spec(eid, after.basis));
                lemma_same_rows_ask_the_same(
                    None,
                    basis,
                    VId(0),
                    eid,
                    intents(run.seen.staged@) + run.rows,
                    intents(after.staged@),
                );
                lemma_asked_concat(None, basis, VId(0), eid, intents(run.seen.staged@), run.rows);
                assert(run.rows.drop_last() =~= Seq::<(RelationId, PendingRow)>::empty());
                assert(edge_shown(after.overlay_edge(database, eid)) is Some);
            }
        }
    }
}

/// The write at `i` is the last on its key.
pub open spec fn last_write(
    actions: Seq<(PropertyKeyId, CanonicalScalar)>,
    i: int,
    key: PropertyKeyId,
    value: CanonicalScalar,
) -> bool {
    &&& 0 <= i < actions.len()
    &&& actions[i] == (key, value)
    &&& forall|j: int| i < j < actions.len() ==> (#[trigger] actions[j]).0 != key
}

/// The last write of each key is what the edge shows.
pub open spec fn shows_writes(
    edge: Option<EdgeView>,
    actions: Seq<(PropertyKeyId, CanonicalScalar)>,
) -> bool {
    edge matches Some(shown) ==> forall|
        i: int,
        key: PropertyKeyId,
        value: CanonicalScalar,
    | #[trigger]
        last_write(actions, i, key, value) ==> value_at(shown.props, key) == Some(value)
}

/// An upsert reports what its MERGE did and the branch that follows from it, and the
/// writes of that branch, no more than allowed, take effect on the matched or created
/// edge. Without input it does nothing.
#[verifier::rlimit(60)]
#[verifier::spinoff_prover]
pub proof fn law_edge_upsert_writes_its_branch(
    before: WriteTxn,
    after: WriteTxn,
    database: Database,
    upsert: GraphEdgeUpsert,
    policy: GraphEdgeUpsertPolicy,
    selection: Selection,
    log: Seq<Event>,
    log_after: Seq<Event>,
    stats: GraphEdgeUpsertStats,
    outcome: GraphEdgeMergeOutcome,
)
    requires
        upserts(
            before,
            after,
            database,
            upsert,
            policy,
            selection,
            log,
            log_after,
            Ok((stats, outcome)),
        ),
    ensures
        match outcome {
            GraphEdgeMergeOutcome::NoInput => {
                &&& stats.branch is NoInput
                &&& stats.action_effects == 0
                &&& selection.rows@.len() == 0
                &&& same_workspace(before, after)
            },
            GraphEdgeMergeOutcome::Matched(eid) => {
                &&& stats.branch is Match
                &&& stats.action_effects == upsert.on_match@.len() <= policy.max_actions
                &&& exists|src: VId, dst: VId| #[trigger]
                    selects_pair(upsert.merge, selection.rows@, src, dst) && joined_once(
                        before,
                        database,
                        upsert.merge.relation,
                        src,
                        dst,
                        eid,
                    )
                &&& evaluates_as_asked(after, database) ==> shows_writes(
                    after.overlay_edge(database, eid),
                    upsert.on_match@,
                )
            },
            GraphEdgeMergeOutcome::Created(eid) => {
                &&& stats.branch is Create
                &&& stats.action_effects == upsert.on_create@.len() <= policy.max_actions
                &&& exists|src: VId, dst: VId| #[trigger]
                    selects_pair(upsert.merge, selection.rows@, src, dst) && unjoined(
                        before,
                        database,
                        upsert.merge.relation,
                        src,
                        dst,
                    )
                &&& evaluates_as_asked(after, database) ==> shows_writes(
                    after.overlay_edge(database, eid),
                    upsert.on_create@,
                )
            },
        },
{
    let (middle, merged, log_merged) = choose|
        middle: WriteTxn,
        merged: Result<(GraphEdgeMergeStats, GraphEdgeMergeOutcome), Fault>,
        log_merged: Seq<Event>,
    | #[trigger]
        merge_run(
            before, middle, after, database, upsert, policy, selection, merged, log, log_merged,
            log_after, Ok((stats, outcome)),
        );
    let done = merged->Ok_0;
    let actions = branch_actions(upsert, done.1);
    let (reached, counted, batch, staged, log_paid, failed) = choose|
        reached: WriteTxn,
        counted: QueryStats,
        batch: WriteBatch,
        staged: Result<(), WriteTxnError>,
        log_paid: Seq<Event>,
        failed: Option<Fault>,
    | #[trigger]
        branch_run(
            before, middle, reached, after, database, upsert, policy, done, counted, batch, staged,
            log_merged, log_paid, log_after, failed, Ok((stats, outcome)),
        );
    law_edge_merge_matches_or_makes_one(
        before, middle, database, upsert.merge, policy.merge, selection, log, log_merged, done.0,
        done.1,
    );
    assert(outcome == done.1);
    if actions.len() > 0 && evaluates_as_asked(after, database) {
        let eid = branch_edge(outcome)->0;
        assert(after.staged@ == middle.staged@ + seq![batch]);
        lemma_intents_concat(middle.staged@, seq![batch], 1);
        let own = intents_upto(seq![batch], 1);
        assert(intents_upto(seq![batch], 0) =~= Seq::<(RelationId, PendingRow)>::empty());
        assert(own =~= batch.rows@.map_values(|row: PendingRow| (batch.relation, row)));
        let basis = edge_shown(database.edge_at_spec(eid, after.basis));
        let earlier = edge_asked_by(basis, eid, intents(middle.staged@));
        lemma_asked_concat(None, basis, VId(0), eid, intents(middle.staged@), own);
        assert(edge_shown(after.overlay_edge(database, eid)) == edge_asked_by(earlier, eid, own));
        assert forall|i: int, key: PropertyKeyId, value: CanonicalScalar| #[trigger]
            last_write(actions, i, key, value) && after.overlay_edge(database, eid) is Some
            implies value_at(after.overlay_edge(database, eid)->0.props, key) == Some(value) by {
            lemma_split_at(None, earlier, VId(0), eid, own, i);
            let rest = own.skip(i + 1);
            assert(batch.rows@[i] == (PendingRow::SetEdgeProperty {
                eid,
                key,
                value: Some(value),
            }));
            assert forall|j: int| 0 <= j < rest.len() implies spares_edge_property(
                (#[trigger] rest[j]).1,
                eid,
                key,
            ) by {
                let k = i + 1 + j;
                assert(batch.rows@[k] == (PendingRow::SetEdgeProperty {
                    eid,
                    key: actions[k].0,
                    value: Some(actions[k].1),
                }));
                assert(actions[k].0 != key);
            }
            lemma_spared_edge_property(
                edge_asked(edge_asked_by(earlier, eid, own.take(i)), eid, own[i].0, own[i].1),
                eid,
                key,
                rest,
            );
        }
    }
}

} // verus!
