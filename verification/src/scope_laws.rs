//! What a capability is for: nothing outside its scope is written, and what it leaves
//! open is not refused.

use vstd::prelude::*;
use crate::admission::current_graph;
use crate::authorized::{
    attempted_keys, attempted_labels, fields_plan, fields_steps, keys_of, stage_vertex_steps,
};
use crate::authorized_delete::{
    cascade_list, confirm_parts, confirm_steps, delete_vertex_steps, lies_at,
};
use crate::authorized_graph::{
    admit_edge_steps, alias_list, alias_of, asks_incident, candidates, edge_entry_steps, edge_image,
    edge_steps, endpoint_steps, first_triple, image_steps, is_triple, live_incident,
    resolved_target, stage_edge_steps, staged_incident,
};
use crate::authorized_run::{lemma_intents_at, run_of, runs, single_of, stage_plan, traces, Trace};
use crate::batch::{intents, intents_upto, same_intent, PendingRow, WriteBatch};
use crate::database::Database;
use crate::dependency_laws::{creates_what_is_staged, lemma_kept_or_created, stages_edge};
use crate::errors::WriteTxnError;
use crate::graph::DeltaRow;
use crate::ids::{CanonicalScalar, EId, ElementId, LabelId, PropertyKeyId, RelationId, VId};
use crate::idset::{increasing, lemma_sorted_unique, sorted_ids};
use crate::merge_laws::{joins, unjoined};
use crate::plan::{whole, Plan};
use crate::scope::{clause_admits, Predicates};
use crate::session::Event;
use crate::statement_laws::lemma_every_step_goes;
use crate::txn::WriteTxn;

verus! {

/// A label may be written exactly where a vertex that carries only it is visible, and a
/// vertex that carries more stays visible. A property is open unless it is denied or left
/// out of a list. A capability without restrictions leaves everything open.
pub proof fn law_capabilities_admit_what_they_leave_open(
    scope: Predicates,
    label: LabelId,
    key: PropertyKeyId,
    relation: RelationId,
    labels: Set<LabelId>,
    more: Set<LabelId>,
)
    ensures
        scope.admits_label(label) <==> scope.admits_vertex(set![label]),
        labels.subset_of(more) && scope.admits_vertex(labels) ==> scope.admits_vertex(more),
        scope.denied_properties@.contains(key) ==> !scope.admits_property(key),
        scope.admits_property(key) && scope.properties is Some ==> scope.properties->0@.contains(
            key,
        ),
        scope.admits_relation(relation) && scope.relations is Some
            ==> scope.relations->0@.contains(relation),
        scope.all_properties() ==> scope.admits_property(key),
        scope.all_fields() ==> scope.admits_property(key) && scope.admits_label(label)
            && scope.admits_vertex(labels),
        scope.all_incidence() ==> scope.admits_relation(relation) && scope.admits_vertex(labels),
        scope.label_clauses@.len() > 0 ==> !scope.admits_vertex(Set::empty()),
        scope.label_clauses@.len() == 0 && scope.relations is None && scope.properties is None
            && scope.denied_properties@.len() == 0 ==> scope.all_fields()
            && scope.all_incidence(),
{
    if scope.admits_label(label) {
        assert forall|i: int| 0 <= i < scope.label_clauses@.len() implies clause_admits(
            (#[trigger] scope.label_clauses@[i])@,
            set![label],
        ) by {
            let clause = scope.label_clauses@[i]@;
            let k = clause.index_of(label);
            assert(set![label].contains(clause[k]));
        }
    }
    if scope.admits_vertex(set![label]) {
        assert forall|i: int| 0 <= i < scope.label_clauses@.len() implies (
        #[trigger] scope.label_clauses@[i])@.contains(label) by {
            let clause = scope.label_clauses@[i]@;
            assert(clause_admits(clause, set![label]));
            let k = choose|k: int| 0 <= k < clause.len() && set![label].contains(
                #[trigger] clause[k],
            );
            assert(clause[k] == label);
        }
    }
    if labels.subset_of(more) && scope.admits_vertex(labels) {
        assert forall|i: int| 0 <= i < scope.label_clauses@.len() implies clause_admits(
            (#[trigger] scope.label_clauses@[i])@,
            more,
        ) by {
            let clause = scope.label_clauses@[i]@;
            assert(clause_admits(clause, labels));
            let k = choose|k: int| 0 <= k < clause.len() && labels.contains(#[trigger] clause[k]);
            assert(more.contains(clause[k]));
        }
    }
    if scope.label_clauses@.len() > 0 {
        assert(!clause_admits(scope.label_clauses@[0]@, Set::empty()));
    }
}

/// Every key of a property list is open.
pub open spec fn keys_open(
    scope: Predicates,
    props: Seq<(PropertyKeyId, CanonicalScalar)>,
) -> bool {
    forall|i: int| 0 <= i < props.len() ==> scope.admits_property((#[trigger] props[i]).0)
}

/// What an intent writes lies within the capability: its labels, its properties and the
/// relation of a new edge. A deletion takes a capability that hides nothing of what goes.
pub open spec fn writes_in_scope(
    scope: Predicates,
    relation: RelationId,
    row: PendingRow,
) -> bool {
    match row {
        PendingRow::Vertex { labels, props, .. } => {
            &&& forall|i: int| 0 <= i < labels@.len() ==> scope.admits_label(#[trigger] labels@[i])
            &&& keys_open(scope, props@)
        },
        PendingRow::Edge { props, .. } => scope.admits_relation(relation) && keys_open(
            scope,
            props@,
        ),
        PendingRow::SetLabel { label, .. } => scope.admits_label(label),
        PendingRow::SetProperty { key, .. } => scope.admits_property(key),
        PendingRow::SetEdgeProperty { key, .. } => scope.admits_property(key),
        PendingRow::CompareAndSet { key, .. } => scope.admits_property(key),
        PendingRow::DeleteVertex { .. } => {
            &&& scope.label_clauses@.len() == 0
            &&& scope.relations is None
            &&& scope.properties is None
            &&& scope.denied_properties@.len() == 0
        },
        PendingRow::DeleteEdge { .. } => {
            &&& scope.properties is None
            &&& scope.denied_properties@.len() == 0
        },
    }
}

/// The vertex is there and in sight.
pub open spec fn in_sight(txn: WriteTxn, database: Database, scope: Predicates, vid: VId) -> bool {
    &&& txn.overlay_vertex(database, vid) matches Some(vertex)
    &&& scope.admits_vertex(vertex.labels)
}

/// The edge is there, in an admitted relation, between vertices in sight.
pub open spec fn edge_in_sight(
    txn: WriteTxn,
    database: Database,
    scope: Predicates,
    eid: EId,
) -> bool {
    &&& txn.overlay_edge(database, eid) matches Some(edge)
    &&& scope.admits_relation(edge.entry.relation)
    &&& in_sight(txn, database, scope, edge.entry.src)
    &&& in_sight(txn, database, scope, edge.entry.dst)
}

/// What an intent is on was in sight before, where it was there at all, and what is left
/// of it afterwards is in sight too.
pub open spec fn targets_in_sight(
    txn: WriteTxn,
    after: WriteTxn,
    database: Database,
    scope: Predicates,
    relation: RelationId,
    row: PendingRow,
) -> bool {
    match row {
        PendingRow::Vertex { vid, labels, .. } => {
            &&& txn.overlay_vertex(database, vid) is Some ==> in_sight(txn, database, scope, vid)
            &&& txn.overlay_vertex(database, vid) is None ==> scope.admits_vertex(labels@.to_set())
            &&& after.overlay_vertex(database, vid) is Some ==> in_sight(
                after,
                database,
                scope,
                vid,
            )
        },
        PendingRow::SetLabel { vid, .. } => {
            &&& in_sight(txn, database, scope, vid)
            &&& after.overlay_vertex(database, vid) is Some ==> in_sight(
                after,
                database,
                scope,
                vid,
            )
        },
        PendingRow::SetProperty { vid, .. } => in_sight(txn, database, scope, vid),
        PendingRow::CompareAndSet { elem: ElementId::Vertex(vid), .. } => in_sight(
            txn,
            database,
            scope,
            vid,
        ),
        PendingRow::DeleteVertex { vid } => {
            &&& txn.overlay_vertex(database, vid) is Some
            &&& after.overlay_vertex(database, vid) is None
        },
        PendingRow::Edge { src, dst, .. } => {
            &&& in_sight(txn, database, scope, src)
            &&& in_sight(txn, database, scope, dst)
        },
        PendingRow::DeleteEdge { eid, .. } => edge_in_sight(txn, database, scope, eid),
        PendingRow::SetEdgeProperty { eid, .. } => edge_in_sight(txn, database, scope, eid),
        PendingRow::CompareAndSet { elem: ElementId::Edge(eid), .. } => edge_in_sight(
            txn,
            database,
            scope,
            eid,
        ),
    }
}

proof fn lemma_fields_open(scope: Predicates, labels: Seq<LabelId>, keys: Seq<PropertyKeyId>)
    requires
        fields_plan(scope, labels, keys).verdict is None,
    ensures
        forall|i: int| 0 <= i < labels.len() ==> scope.admits_label(#[trigger] labels[i]),
        forall|i: int| 0 <= i < keys.len() ==> scope.admits_property(#[trigger] keys[i]),
{
    let steps = fields_steps(scope, labels, keys);
    assert forall|i: int| 0 <= i < labels.len() implies scope.admits_label(#[trigger] labels[i]) by {
        lemma_every_step_goes(steps, steps.len() as int, i);
    }
    assert forall|i: int| 0 <= i < keys.len() implies scope.admits_property(#[trigger] keys[i]) by {
        lemma_every_step_goes(steps, steps.len() as int, labels.len() + i);
    }
}

proof fn lemma_keys_open(scope: Predicates, props: Seq<(PropertyKeyId, CanonicalScalar)>)
    requires
        forall|i: int|
            0 <= i < keys_of(props).len() ==> scope.admits_property(#[trigger] keys_of(props)[i]),
    ensures
        keys_open(scope, props),
{
    assert forall|i: int| 0 <= i < props.len() implies scope.admits_property(
        (#[trigger] props[i]).0,
    ) by {
        assert(keys_of(props)[i] == props[i].0);
    }
}

proof fn lemma_image_in_sight(txn: WriteTxn, database: Database, scope: Predicates, eid: EId)
    requires
        whole(edge_steps(txn, database, scope, eid)).verdict is None,
        txn.overlay_edge(database, eid) is Some,
    ensures
        edge_in_sight(txn, database, scope, eid),
{
    let edge = txn.overlay_edge(database, eid)->0;
    let steps = edge_steps(txn, database, scope, eid);
    lemma_every_step_goes(steps, 2, 1);
    let image = image_steps(txn, database, scope, edge);
    lemma_every_step_goes(image, 10, 0);
    lemma_every_step_goes(image, 10, 1);
    lemma_every_step_goes(image, 10, 2);
    lemma_every_step_goes(image, 10, 3);
    lemma_every_step_goes(image, 10, 4);
}

proof fn lemma_endpoint_in_sight(txn: WriteTxn, database: Database, scope: Predicates, vid: VId)
    requires
        whole(endpoint_steps(txn, database, scope, vid)).verdict is None,
    ensures
        in_sight(txn, database, scope, vid),
{
    let steps = endpoint_steps(txn, database, scope, vid);
    lemma_every_step_goes(steps, 3, 0);
    lemma_every_step_goes(steps, 3, 1);
}

/// An intent that is staged under a capability writes only within its scope, on elements
/// that are in sight.
#[verifier::rlimit(60)]
#[verifier::spinoff_prover]
pub proof fn law_staged_intents_stay_in_scope(
    txn: WriteTxn,
    after: WriteTxn,
    database: Database,
    scope: Predicates,
    batch: WriteBatch,
)
    requires
        stage_plan(txn, after, database, scope, batch).verdict is None,
    ensures
        writes_in_scope(scope, batch.relation, batch.rows@[0]),
        targets_in_sight(txn, after, database, scope, batch.relation, batch.rows@[0]),
{
    let row = batch.rows@[0];
    let relation = batch.relation;
    match row {
        PendingRow::DeleteVertex { vid } => {
            let steps = delete_vertex_steps(txn, after, database, scope, batch, vid);
            lemma_every_step_goes(steps, 12, 0);
            lemma_every_step_goes(steps, 12, 2);
            lemma_every_step_goes(steps, 12, 10);
        },
        PendingRow::Vertex { .. }
        | PendingRow::SetLabel { .. }
        | PendingRow::SetProperty { .. }
        | PendingRow::CompareAndSet { elem: ElementId::Vertex(_), .. } => {
            let steps = stage_vertex_steps(txn, after, database, scope, batch);
            lemma_every_step_goes(steps, 6, 0);
            lemma_every_step_goes(steps, 6, 1);
            lemma_every_step_goes(steps, 6, 2);
            lemma_every_step_goes(steps, 6, 4);
            let labels = attempted_labels(row);
            let keys = attempted_keys(row);
            lemma_fields_open(scope, labels, keys);
            match row {
                PendingRow::Vertex { props, .. } => lemma_keys_open(scope, props@),
                PendingRow::SetLabel { label, .. } => assert(scope.admits_label(labels[0])),
                _ => assert(scope.admits_property(keys[0])),
            }
        },
        _ => {
            let steps = stage_edge_steps(txn, after, database, scope, batch);
            let eid = resolved_target(txn, database, relation, row);
            let entry = edge_entry_steps(txn, database, scope, relation, row);
            let keys = attempted_keys(row);
            lemma_every_step_goes(steps, 6, 0);
            lemma_every_step_goes(steps, 6, 1);
            lemma_every_step_goes(steps, 6, 2);
            match row {
                PendingRow::Edge { src, dst, props, .. } => {
                    lemma_every_step_goes(entry, 6, 0);
                    lemma_every_step_goes(entry, 6, 1);
                    lemma_every_step_goes(entry, 6, 2);
                    lemma_every_step_goes(entry, 6, 3);
                    lemma_fields_open(scope, Seq::empty(), keys);
                    lemma_keys_open(scope, props@);
                    lemma_endpoint_in_sight(txn, database, scope, src);
                    lemma_endpoint_in_sight(txn, database, scope, dst);
                },
                PendingRow::DeleteEdge { .. } => {
                    lemma_every_step_goes(entry, 1, 0);
                    lemma_known_target(txn, database, row, eid);
                    lemma_image_in_sight(txn, database, scope, eid);
                },
                _ => {
                    lemma_every_step_goes(entry, 1, 0);
                    lemma_fields_open(scope, Seq::empty(), keys);
                    assert(scope.admits_property(keys[0]));
                    lemma_known_target(txn, database, row, eid);
                    lemma_image_in_sight(txn, database, scope, eid);
                },
            }
        },
    }
}

/// An intent on an existing edge needs one.
proof fn lemma_known_target(txn: WriteTxn, database: Database, row: PendingRow, eid: EId)
    requires
        whole(
            admit_edge_steps(row, edge_image(txn, database, eid)),
        ).verdict is None,
        !(row is Edge),
    ensures
        txn.overlay_edge(database, eid) is Some,
{
    if edge_image(txn, database, eid) is None {
        lemma_every_step_goes(
            admit_edge_steps(row, edge_image(txn, database, eid)),
            1,
            0,
        );
    }
}

/// A run of intents that goes through wrote only within the capability.
pub proof fn law_authorized_runs_stay_in_scope<E>(
    rows: Seq<(RelationId, PendingRow)>,
    lead: spec_fn(int) -> Plan<E>,
    wrap: spec_fn(WriteTxnError) -> E,
    before: WriteTxn,
    after: WriteTxn,
    database: Database,
    scope: Predicates,
    log: Seq<Event>,
    log_after: Seq<Event>,
    i: int,
)
    requires
        runs(rows, lead, wrap, before, after, database, scope, log, log_after, None),
        0 <= i < rows.len(),
    ensures
        writes_in_scope(scope, rows[i].0, rows[i].1),
{
    let (trace, failing) = choose|trace: Trace, failing: WriteBatch| #[trigger]
        run_of(
            trace, failing, rows, lead, wrap, before, after, database, scope, log, log_after, None,
        );
    let n = trace.singles.len() as int;
    assert(traces(trace, rows, n, lead, wrap, database, scope));
    let single = trace.singles[i];
    assert(single_of(single, rows[i]));
    assert(stage_plan(
        trace.states[i],
        trace.states[i + 1],
        database,
        scope,
        single,
    ).verdict is None);
    law_staged_intents_stay_in_scope(
        trace.states[i],
        trace.states[i + 1],
        database,
        scope,
        single,
    );
    assert(same_intent(rows[i].1, single.rows@[0]));
}

proof fn lemma_candidates_sorted(txn: WriteTxn, database: Database, vid: VId, list: Seq<u128>)
    requires
        increasing(list),
        list.to_set() == candidates(txn, database, vid),
    ensures
        sorted_ids(candidates(txn, database, vid)) == list,
{
    lemma_sorted_unique(list, sorted_ids(candidates(txn, database, vid)));
}

/// Every edge that the transaction sees at a vertex is a candidate there: it was
/// committed at the vertex, or asked for at it.
proof fn lemma_incident_is_candidate(txn: WriteTxn, database: Database, vid: VId, eid: EId)
    requires
        txn.basis.0 == database.tip(),
        creates_what_is_staged(txn),
        txn.overlay_edge(database, eid) matches Some(edge) && (edge.entry.src == vid
            || edge.entry.dst == vid),
    ensures
        candidates(txn, database, vid).contains(eid.0),
{
    let basis = database.edge_at_spec(eid, txn.basis);
    let rows = txn.prepared_rows();
    let seen = txn.overlay_edge(database, eid)->0.entry;
    lemma_kept_or_created(basis, eid, rows, txn.basis);
    if basis matches Some(before) && before.entry == seen {
        assert(current_graph(database)(EId(eid.0)) == basis);
        assert(live_incident(database, vid).contains(eid.0));
    } else {
        let i = choose|i: int|
            0 <= i < rows.len() && ((#[trigger] rows[i]) matches DeltaRow::CreateEdge {
                eid: e,
                src,
                dst,
                ..
            } && (e, src, dst) == (eid, seen.src, seen.dst));
        assert(txn.prepared_rows()[i] is CreateEdge);
        assert(stages_edge(txn, eid, seen.src, seen.dst));
        let (b, r) = choose|b: int, r: int|
            {
                &&& 0 <= b < txn.staged@.len()
                &&& 0 <= r < txn.staged@[b].rows@.len()
                &&& (#[trigger] txn.staged@[b].rows@[r]) matches PendingRow::Edge {
                    eid: e,
                    src: s,
                    dst: d,
                    ..
                }
                &&& (e, s, d) == (eid, seen.src, seen.dst)
            };
        lemma_intents_at(txn.staged@, b);
        let at = intents_upto(txn.staged@, b).len() + r;
        assert(intents(txn.staged@)[at] == (txn.staged@[b].relation, txn.staged@[b].rows@[r]));
        assert(asks_incident(intents(txn.staged@)[at].1, vid, eid.0));
        assert(staged_incident(intents(txn.staged@), vid).contains(eid.0));
    }
}

proof fn lemma_cascade_holds(
    txn: WriteTxn,
    database: Database,
    vid: VId,
    list: Seq<u128>,
    raw: u128,
)
    requires
        list.contains(raw),
        lies_at(txn, database, raw, vid),
    ensures
        cascade_list(txn, database, vid, list).contains(raw),
    decreases list.len(),
{
    let rest = list.drop_last();
    let earlier = cascade_list(txn, database, vid, rest);
    let all = cascade_list(txn, database, vid, list);
    if raw == list.last() {
        assert(all[all.len() - 1] == raw);
    } else {
        let k = list.index_of(raw);
        assert(rest[k] == raw);
        lemma_cascade_holds(txn, database, vid, rest, raw);
        let j = earlier.index_of(raw);
        assert(all[j] == raw);
    }
}

/// An authorized vertex deletion is confirmed edge by edge: every edge that the
/// transaction saw at the vertex, at either end, is gone with it. The list holds the
/// identities that may lie at the vertex, in order.
pub proof fn law_authorized_deletions_take_incident_edges(
    txn: WriteTxn,
    after: WriteTxn,
    database: Database,
    scope: Predicates,
    batch: WriteBatch,
    vid: VId,
    list: Seq<u128>,
    eid: EId,
)
    requires
        batch.rows@[0] == (PendingRow::DeleteVertex { vid }),
        stage_plan(txn, after, database, scope, batch).verdict is None,
        increasing(list),
        list.to_set() == candidates(txn, database, vid),
        txn.basis.0 == database.tip(),
        creates_what_is_staged(txn),
        txn.overlay_edge(database, eid) matches Some(edge) && (edge.entry.src == vid
            || edge.entry.dst == vid),
    ensures
        after.overlay_edge(database, eid) is None,
{
    lemma_incident_is_candidate(txn, database, vid, eid);
    assert(list.to_set().contains(eid.0));
    let steps = delete_vertex_steps(txn, after, database, scope, batch, vid);
    lemma_candidates_sorted(txn, database, vid, list);
    lemma_cascade_holds(txn, database, vid, list, eid.0);
    let cascade = cascade_list(txn, database, vid, list);
    lemma_every_step_goes(steps, 12, 11);
    let confirming = confirm_steps(after, database, cascade);
    let k = cascade.index_of(eid.0);
    lemma_every_step_goes(confirming, confirming.len() as int, k);
    lemma_every_step_goes(confirm_parts(after, database, eid.0), 2, 1);
}

proof fn lemma_first_triple(
    txn: WriteTxn,
    database: Database,
    list: Seq<u128>,
    src: VId,
    relation: RelationId,
    dst: VId,
    from: int,
)
    requires
        0 <= from <= list.len(),
    ensures
        ({
            let found = first_triple(txn, database, list, src, relation, dst, from);
            &&& from <= found <= list.len()
            &&& found < list.len() ==> is_triple(txn, database, list[found], src, relation, dst)
            &&& forall|i: int|
                from <= i < found ==> !is_triple(
                    txn,
                    database,
                    #[trigger] list[i],
                    src,
                    relation,
                    dst,
                )
        }),
    decreases list.len() - from,
{
    if from < list.len() && !is_triple(txn, database, list[from], src, relation, dst) {
        lemma_first_triple(txn, database, list, src, relation, dst, from + 1);
    }
}

/// An edge that is ensured by its ends and its relation stands for the first edge, by
/// identity, that the transaction sees run so; only where there is none, for the identity
/// that was asked for. The list holds the identities that may lie at the source, in order.
pub proof fn law_ensured_edges_stand_for_the_first_alias(
    txn: WriteTxn,
    database: Database,
    eid: EId,
    src: VId,
    relation: RelationId,
    dst: VId,
    list: Seq<u128>,
)
    requires
        increasing(list),
        list.to_set() == candidates(txn, database, src),
        txn.basis.0 == database.tip(),
        creates_what_is_staged(txn),
    ensures
        ({
            let found = alias_of(txn, database, eid, src, relation, dst);
            ||| {
                &&& joins(txn.overlay_edge(database, found), relation, src, dst)
                &&& forall|other: EId|
                    joins(#[trigger] txn.overlay_edge(database, other), relation, src, dst)
                        ==> found.0 <= other.0
            }
            ||| found == eid && unjoined(txn, database, relation, src, dst)
        }),
{
    lemma_candidates_sorted(txn, database, src, list);
    lemma_first_triple(txn, database, list, src, relation, dst, 0);
    let at = first_triple(txn, database, list, src, relation, dst, 0);
    assert(alias_list(txn, database, src) == list);
    assert forall|other: EId|
        joins(#[trigger] txn.overlay_edge(database, other), relation, src, dst) implies at
        < list.len() && list[at] <= other.0 by {
        lemma_incident_is_candidate(txn, database, src, other);
        assert(list.to_set().contains(other.0));
        let k = list.index_of(other.0);
        assert(is_triple(txn, database, list[k], src, relation, dst));
        if at < k {
            assert(list[at] < list[k]);
        }
    }
}

} // verus!
