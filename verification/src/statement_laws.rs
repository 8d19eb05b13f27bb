//! What statements are for: what they were told to change is changed.

use vstd::prelude::*;
use crate::authorized_apply::{
    created_edges, created_vertices, insert_lead, insert_row, insert_rows, merges_rows, mutates,
    mutation_lead, mutation_rows, upserts_rows, MutationIntent, UpsertRun,
};
use crate::authorized_deletion::{
    delete_head_steps, delete_rows, deletes, incidence, incidence_stats, lemma_incidence,
    proof_observes, proof_parts, proof_steps, proved_stats, scratch_lead, search_cost, worked,
    DeleteProposal,
};
use crate::authorized_laws::law_runs_end_with_the_latest_evaluation;
use crate::authorized_program::{steps_once, StepProposal, StepReceipt};
use crate::authorized_run::runs;
use crate::authorized_statement::{lead_plan, Lead};
use crate::batch::{intents, PendingRow};
use crate::controls::Control;
use crate::database::Database;
use crate::draft::{
    action_rows, drafts_wf, resolves, settled_all, Draft, End, MergeTarget, StepDraft, VertexAction,
};
use crate::edge_merge::lists_overlay;
use crate::graph::EdgeRecord;
use crate::ids::{CanonicalScalar, EId, ElementId, LabelId, PropertyKeyId, RelationId, VId};
use crate::intent_laws::{
    edge_asked, edge_asked_by, edge_shown, evaluates_as_asked, law_runs_stage_their_intents,
    lemma_asked_concat, lemma_same_rows_ask_the_same, lemma_spared_edge_property,
    lemma_spared_label, lemma_spared_property, lemma_split_at, same_rows, spares_edge_property,
    spares_label, spares_property, value_at, vertex_asked, vertex_asked_by, vertex_shown, AskedEdge,
    AskedVertex,
};
use crate::plan::{obeys, upto, whole, Plan};
use crate::props::props_map;
use crate::scope::Predicates;
use crate::session::Event;
use crate::statement::{source, Fault, QueryPolicy};
use crate::txn::{same_workspace, WriteTxn};

verus! {

proof fn lemma_last_label(
    current: Option<AskedVertex>,
    rows: Seq<(RelationId, PendingRow)>,
    i: int,
    vid: VId,
    label: LabelId,
    present: bool,
)
    requires
        0 <= i < rows.len(),
        rows[i].1 == (PendingRow::SetLabel { vid, label, present }),
        forall|j: int| i < j < rows.len() ==> spares_label((#[trigger] rows[j]).1, vid, label),
    ensures
        vertex_asked_by(current, vid, rows) matches Some(vertex) ==> (vertex.labels.contains(label)
            <==> present),
{
    lemma_split_at(current, None, vid, EId(0), rows, i);
    let rest = rows.skip(i + 1);
    assert forall|j: int| 0 <= j < rest.len() implies spares_label(
        (#[trigger] rest[j]).1,
        vid,
        label,
    ) by {
        assert(spares_label(rows[i + 1 + j].1, vid, label));
    }
    lemma_spared_label(
        vertex_asked(vertex_asked_by(current, vid, rows.take(i)), vid, rows[i].1),
        vid,
        label,
        rest,
    );
}

proof fn lemma_last_property(
    current: Option<AskedVertex>,
    rows: Seq<(RelationId, PendingRow)>,
    i: int,
    vid: VId,
    key: PropertyKeyId,
    value: Option<CanonicalScalar>,
)
    requires
        0 <= i < rows.len(),
        rows[i].1 == (PendingRow::SetProperty { vid, key, value }),
        forall|j: int| i < j < rows.len() ==> spares_property((#[trigger] rows[j]).1, vid, key),
    ensures
        vertex_asked_by(current, vid, rows) matches Some(vertex) ==> value_at(vertex.props, key)
            == value,
{
    lemma_split_at(current, None, vid, EId(0), rows, i);
    let rest = rows.skip(i + 1);
    assert forall|j: int| 0 <= j < rest.len() implies spares_property(
        (#[trigger] rest[j]).1,
        vid,
        key,
    ) by {
        assert(spares_property(rows[i + 1 + j].1, vid, key));
    }
    lemma_spared_property(
        vertex_asked(vertex_asked_by(current, vid, rows.take(i)), vid, rows[i].1),
        vid,
        key,
        rest,
    );
}

proof fn lemma_last_edge_property(
    current: Option<AskedEdge>,
    rows: Seq<(RelationId, PendingRow)>,
    i: int,
    eid: EId,
    key: PropertyKeyId,
    value: Option<CanonicalScalar>,
)
    requires
        0 <= i < rows.len(),
        rows[i].1 == (PendingRow::SetEdgeProperty { eid, key, value }),
        forall|j: int|
            i < j < rows.len() ==> spares_edge_property((#[trigger] rows[j]).1, eid, key),
    ensures
        edge_asked_by(current, eid, rows) matches Some(edge) ==> value_at(edge.props, key)
            == value,
{
    lemma_split_at(None, current, VId(0), eid, rows, i);
    let rest = rows.skip(i + 1);
    assert forall|j: int| 0 <= j < rest.len() implies spares_edge_property(
        (#[trigger] rest[j]).1,
        eid,
        key,
    ) by {
        assert(spares_edge_property(rows[i + 1 + j].1, eid, key));
    }
    lemma_spared_edge_property(
        edge_asked(edge_asked_by(current, eid, rows.take(i)), eid, rows[i].0, rows[i].1),
        eid,
        key,
        rest,
    );
}

/// What a run adds to what was asked before.
proof fn lemma_asked_after_run(
    before: WriteTxn,
    after: WriteTxn,
    database: Database,
    rows: Seq<(RelationId, PendingRow)>,
    vid: VId,
    eid: EId,
)
    requires
        same_rows(intents(before.staged@) + rows, intents(after.staged@)),
        after.basis == before.basis,
        evaluates_as_asked(after, database),
    ensures
        vertex_shown(after.overlay_vertex(database, vid)) == vertex_asked_by(
            vertex_asked_by(
                vertex_shown(database.vertex_at_spec(vid, before.basis)),
                vid,
                intents(before.staged@),
            ),
            vid,
            rows,
        ),
        edge_shown(after.overlay_edge(database, eid)) == edge_asked_by(
            edge_asked_by(
                edge_shown(database.edge_at_spec(eid, before.basis)),
                eid,
                intents(before.staged@),
            ),
            eid,
            rows,
        ),
{
    let vertex = vertex_shown(database.vertex_at_spec(vid, before.basis));
    let edge = edge_shown(database.edge_at_spec(eid, before.basis));
    lemma_same_rows_ask_the_same(
        vertex,
        edge,
        vid,
        eid,
        intents(before.staged@) + rows,
        intents(after.staged@),
    );
    lemma_asked_concat(vertex, edge, vid, eid, intents(before.staged@), rows);
    assert(after.overlay_vertex(database, vid) == after.overlay_vertex(database, vid));
}

/// The label action at `i` is the last on its label.
pub open spec fn last_label(
    actions: Seq<VertexAction>,
    i: int,
    label: LabelId,
    present: bool,
) -> bool {
    &&& 0 <= i < actions.len()
    &&& actions[i] == (VertexAction::Label { label, present })
    &&& forall|j: int|
        i < j < actions.len() ==> ((#[trigger] actions[j]) matches VertexAction::Label {
            label: other,
            ..
        } ==> other != label)
}

/// The property action at `i` is the last on its key.
pub open spec fn last_property(
    actions: Seq<VertexAction>,
    i: int,
    key: PropertyKeyId,
    value: Option<CanonicalScalar>,
) -> bool {
    &&& 0 <= i < actions.len()
    &&& actions[i] == (VertexAction::Property { key, value })
    &&& forall|j: int|
        i < j < actions.len() ==> ((#[trigger] actions[j]) matches VertexAction::Property {
            key: other,
            ..
        } ==> other != key)
}

/// No action is on the label.
pub open spec fn keeps_label(actions: Seq<VertexAction>, label: LabelId) -> bool {
    forall|j: int|
        0 <= j < actions.len() ==> ((#[trigger] actions[j]) matches VertexAction::Label {
            label: other,
            ..
        } ==> other != label)
}

/// No action is on the key.
pub open spec fn keeps_property(actions: Seq<VertexAction>, key: PropertyKeyId) -> bool {
    forall|j: int|
        0 <= j < actions.len() ==> ((#[trigger] actions[j]) matches VertexAction::Property {
            key: other,
            ..
        } ==> other != key)
}

proof fn lemma_actions(
    current: Option<AskedVertex>,
    relation: RelationId,
    vid: VId,
    actions: Seq<VertexAction>,
)
    ensures
        ({
            let after = vertex_asked_by(current, vid, action_rows(relation, vid, actions));
            &&& after is Some <==> current is Some
            &&& after matches Some(vertex) ==> {
                &&& forall|i: int, label: LabelId, present: bool| #[trigger]
                    last_label(actions, i, label, present) ==> (vertex.labels.contains(label)
                        <==> present)
                &&& forall|i: int, key: PropertyKeyId, value: Option<CanonicalScalar>| #[trigger]
                    last_property(actions, i, key, value) ==> value_at(vertex.props, key) == value
                &&& forall|label: LabelId| #[trigger]
                    keeps_label(actions, label) ==> (vertex.labels.contains(label)
                        <==> current->0.labels.contains(label))
                &&& forall|key: PropertyKeyId| #[trigger]
                    keeps_property(actions, key) ==> value_at(vertex.props, key) == value_at(
                        current->0.props,
                        key,
                    )
            }
        }),
{
    let rows = action_rows(relation, vid, actions);
    let after = vertex_asked_by(current, vid, rows);
    lemma_actions_keep_presence(current, relation, vid, actions, actions.len() as int);
    assert(rows.take(actions.len() as int) =~= rows);
    assert forall|i: int, label: LabelId, present: bool| #[trigger]
        last_label(actions, i, label, present) && after is Some implies (
    after->0.labels.contains(label) <==> present) by {
        assert forall|j: int| i < j < rows.len() implies spares_label(
            (#[trigger] rows[j]).1,
            vid,
            label,
        ) by {
            assert(actions[j] matches VertexAction::Label { label: other, .. } ==> other != label);
        }
        lemma_last_label(current, rows, i, vid, label, present);
    }
    assert forall|i: int, key: PropertyKeyId, value: Option<CanonicalScalar>| #[trigger]
        last_property(actions, i, key, value) && after is Some implies value_at(
        after->0.props,
        key,
    ) == value by {
        assert forall|j: int| i < j < rows.len() implies spares_property(
            (#[trigger] rows[j]).1,
            vid,
            key,
        ) by {
            assert(actions[j] matches VertexAction::Property { key: other, .. } ==> other != key);
        }
        lemma_last_property(current, rows, i, vid, key, value);
    }
    assert forall|label: LabelId| #[trigger] keeps_label(actions, label) && after is Some implies (
    after->0.labels.contains(label) <==> current->0.labels.contains(label)) by {
        assert forall|j: int| 0 <= j < rows.len() implies spares_label(
            (#[trigger] rows[j]).1,
            vid,
            label,
        ) by {
            assert(actions[j] matches VertexAction::Label { label: other, .. } ==> other != label);
        }
        lemma_spared_label(current, vid, label, rows);
    }
    assert forall|key: PropertyKeyId| #[trigger] keeps_property(actions, key) && after is Some
        implies value_at(after->0.props, key) == value_at(current->0.props, key) by {
        assert forall|j: int| 0 <= j < rows.len() implies spares_property(
            (#[trigger] rows[j]).1,
            vid,
            key,
        ) by {
            assert(actions[j] matches VertexAction::Property { key: other, .. } ==> other != key);
        }
        lemma_spared_property(current, vid, key, rows);
    }
}

proof fn lemma_actions_keep_presence(
    current: Option<AskedVertex>,
    relation: RelationId,
    vid: VId,
    actions: Seq<VertexAction>,
    n: int,
)
    requires
        0 <= n <= actions.len(),
    ensures
        vertex_asked_by(current, vid, action_rows(relation, vid, actions).take(n)) is Some
            <==> current is Some,
    decreases n,
{
    if n > 0 {
        let rows = action_rows(relation, vid, actions);
        lemma_actions_keep_presence(current, relation, vid, actions, n - 1);
        assert(rows.take(n).drop_last() =~= rows.take(n - 1));
        assert(rows.take(n).last() == rows[n - 1]);
    }
}

/// A vertex upsert hands back the vertex that matched, or the new one, and its selected
/// actions take effect on that vertex: it carries a label exactly when the last action on
/// the label adds it, it has the value that the last action on a key gives, and
/// everything else of it is as the MERGE left it.
#[verifier::rlimit(60)]
#[verifier::spinoff_prover]
pub proof fn law_upsert_actions_take_effect(
    before: WriteTxn,
    after: WriteTxn,
    database: Database,
    relation: RelationId,
    target: MergeTarget,
    controls: Vec<Control>,
    actions: Vec<VertexAction>,
    policy: QueryPolicy,
    issued: Seq<ElementId>,
    proposal: StepProposal,
    returning: bool,
    scope: Predicates,
    log: Seq<Event>,
    log_staged: Seq<Event>,
    log_after: Seq<Event>,
    failed: Option<Fault>,
    receipt: StepReceipt,
)
    requires
        resolves(
            StepDraft::VertexUpsert { relation, target, controls, actions: Ok(actions) },
            policy,
            issued,
            proposal,
        ),
        steps_once(
            before,
            after,
            database,
            proposal,
            returning,
            scope,
            log,
            log_staged,
            log_after,
            failed,
            Ok(receipt),
        ),
        target is Missing ==> issued.len() == 1 && issued[0] is Vertex,
        evaluates_as_asked(before, database),
        evaluates_as_asked(after, database),
    ensures
        receipt matches StepReceipt::Vertex { vertex, created } && {
            let found = before.overlay_vertex(database, vertex);
            let seen = after.overlay_vertex(database, vertex);
            &&& match target {
                MergeTarget::Matched(vid) => {
                    &&& vertex == vid && !created
                    &&& seen is Some <==> found is Some
                },
                MergeTarget::Missing { .. } => {
                    &&& issued[0] == ElementId::Vertex(vertex) && created
                    &&& seen is Some
                },
            }
            &&& seen matches Some(shown) ==> {
                &&& forall|i: int, label: LabelId, present: bool| #[trigger]
                    last_label(actions@, i, label, present) ==> (shown.labels.contains(label)
                        <==> present)
                &&& forall|i: int, key: PropertyKeyId, value: Option<CanonicalScalar>| #[trigger]
                    last_property(actions@, i, key, value) ==> value_at(shown.props, key) == value
                &&& forall|label: LabelId| #[trigger]
                    keeps_label(actions@, label) ==> (shown.labels.contains(label) <==> match target {
                        MergeTarget::Matched(_) => found->0.labels.contains(label),
                        MergeTarget::Missing { labels, .. } => labels@.contains(label),
                    })
                &&& forall|key: PropertyKeyId| #[trigger]
                    keeps_property(actions@, key) ==> value_at(shown.props, key) == match target {
                        MergeTarget::Matched(_) => value_at(found->0.props, key),
                        MergeTarget::Missing { properties, .. } => value_at(
                            props_map(properties@),
                            key,
                        ),
                    }
            }
        },
{
    let vertex = proposal->VertexUpsert_vertex;
    let creation = insert_rows(relation, proposal->VertexUpsert_creation@);
    let rows = proposal->VertexUpsert_actions->Ok_0@;
    let (run, staged) = choose|run: UpsertRun, staged: Result<(), Fault>|
        {
            &&& #[trigger] upserts_rows(
                before,
                after,
                database,
                creation,
                proposal->VertexUpsert_controls@,
                proposal->VertexUpsert_actions,
                returning,
                scope,
                log,
                log_after,
                run,
                staged,
            )
            &&& staged is Ok
        };
    law_runs_stage_their_intents(
        creation,
        lead_plan(Lead::Unit, creation),
        source(),
        before,
        run.merged,
        database,
        scope,
        log,
        run.log_created,
    );
    law_runs_stage_their_intents(
        rows,
        lead_plan(Lead::Unit, rows),
        source(),
        run.merged,
        after,
        database,
        scope,
        run.log_paid,
        run.log_acted,
    );
    lemma_asked_after_run(run.merged, after, database, rows, vertex, EId(0));
    let basis = vertex_shown(database.vertex_at_spec(vertex, before.basis));
    let earlier = vertex_asked_by(basis, vertex, intents(before.staged@));
    let merged = vertex_asked_by(basis, vertex, intents(run.merged.staged@));
    lemma_same_rows_ask_the_same(
        basis,
        None,
        vertex,
        EId(0),
        intents(before.staged@) + creation,
        intents(run.merged.staged@),
    );
    lemma_asked_concat(basis, None, vertex, EId(0), intents(before.staged@), creation);
    assert(vertex_shown(before.overlay_vertex(database, vertex)) == earlier);
    assert(rows == action_rows(relation, vertex, actions@));
    lemma_actions(merged, relation, vertex, actions@);
    match target {
        MergeTarget::Matched(_) => {
            assert(creation.len() == 0);
            assert(merged == earlier);
        },
        MergeTarget::Missing { labels, properties } => {
            assert(creation.drop_last() =~= Seq::<(RelationId, PendingRow)>::empty());
            assert(merged == Some(
                AskedVertex { labels: labels@.to_set(), props: props_map(properties@) },
            ));
        },
    }
}

/// The update at `i` is the last on a label of the vertex.
pub open spec fn last_label_update(
    updates: Seq<MutationIntent>,
    i: int,
    vertex: VId,
    label: LabelId,
    present: bool,
) -> bool {
    &&& 0 <= i < updates.len()
    &&& updates[i] == (MutationIntent::Label { vertex, label, present })
    &&& forall|j: int|
        i < j < updates.len() ==> ((#[trigger] updates[j]) matches MutationIntent::Label {
            vertex: v,
            label: l,
            ..
        } ==> v != vertex || l != label)
}

/// The update at `i` is the last on a property of the vertex.
pub open spec fn last_property_update(
    updates: Seq<MutationIntent>,
    i: int,
    vertex: VId,
    key: PropertyKeyId,
    value: Option<CanonicalScalar>,
) -> bool {
    &&& 0 <= i < updates.len()
    &&& updates[i] == (MutationIntent::Property { vertex, key, value })
    &&& forall|j: int|
        i < j < updates.len() ==> ((#[trigger] updates[j]) matches MutationIntent::Property {
            vertex: v,
            key: k,
            ..
        } ==> v != vertex || k != key)
}

/// The update at `i` is the last on a property of the edge.
pub open spec fn last_edge_update(
    updates: Seq<MutationIntent>,
    i: int,
    edge: EId,
    key: PropertyKeyId,
    value: Option<CanonicalScalar>,
) -> bool {
    &&& 0 <= i < updates.len()
    &&& updates[i] == (MutationIntent::EdgeProperty { edge, key, value })
    &&& forall|j: int|
        i < j < updates.len() ==> ((#[trigger] updates[j]) matches MutationIntent::EdgeProperty {
            edge: e,
            key: k,
            ..
        } ==> e != edge || k != key)
}

proof fn lemma_never_created(
    current: Option<AskedVertex>,
    vid: VId,
    rows: Seq<(RelationId, PendingRow)>,
    i: int,
)
    requires
        0 <= i < rows.len(),
        rows[i].1 == (PendingRow::DeleteVertex { vid }),
        forall|j: int| i < j < rows.len() ==> !((#[trigger] rows[j]).1 is Vertex),
    ensures
        vertex_asked_by(current, vid, rows) is None,
    decreases rows.len(),
{
    let n = rows.len() - 1;
    if i < n {
        let rest = rows.drop_last();
        assert forall|j: int| i < j < rest.len() implies !((#[trigger] rest[j]).1 is Vertex) by {
            assert(rest[j] == rows[j]);
        }
        lemma_never_created(current, vid, rest, i);
        assert(!(rows[n].1 is Vertex));
    }
}

/// Selected updates take effect: of every vertex and edge that is there afterwards, the
/// last update on a label or a property decides, and a detached vertex is gone.
#[verifier::rlimit(60)]
#[verifier::spinoff_prover]
pub proof fn law_updates_take_effect(
    before: WriteTxn,
    after: WriteTxn,
    database: Database,
    relation: RelationId,
    updates: Vec<MutationIntent>,
    policy: QueryPolicy,
    issued: Seq<ElementId>,
    proposal: StepProposal,
    returning: bool,
    scope: Predicates,
    log: Seq<Event>,
    log_staged: Seq<Event>,
    log_after: Seq<Event>,
    failed: Option<Fault>,
    receipt: StepReceipt,
)
    requires
        resolves(
            StepDraft::Mutation { relation, intents: updates },
            policy,
            issued,
            proposal,
        ),
        steps_once(
            before,
            after,
            database,
            proposal,
            returning,
            scope,
            log,
            log_staged,
            log_after,
            failed,
            Ok(receipt),
        ),
        evaluates_as_asked(after, database),
    ensures
        forall|i: int, vertex: VId, label: LabelId, present: bool| #[trigger]
            last_label_update(updates@, i, vertex, label, present) ==> (after.overlay_vertex(
                database,
                vertex,
            ) matches Some(shown) ==> (shown.labels.contains(label) <==> present)),
        forall|i: int, vertex: VId, key: PropertyKeyId, value: Option<CanonicalScalar>| #[trigger]
            last_property_update(updates@, i, vertex, key, value) ==> (after.overlay_vertex(
                database,
                vertex,
            ) matches Some(shown) ==> value_at(shown.props, key) == value),
        forall|i: int, edge: EId, key: PropertyKeyId, value: Option<CanonicalScalar>| #[trigger]
            last_edge_update(updates@, i, edge, key, value) ==> (after.overlay_edge(
                database,
                edge,
            ) matches Some(shown) ==> value_at(shown.props, key) == value),
        forall|i: int|
            0 <= i < updates@.len() ==> ((#[trigger] updates@[i]) matches
            MutationIntent::DetachDelete { vertex } ==> after.overlay_vertex(
                database,
                vertex,
            ) is None),
{
    let rows = mutation_rows(relation, updates@);
    let answer = choose|answer: Result<(Vec<VId>, Vec<EId>), Fault>|
        {
            &&& #[trigger] mutates(
                before,
                after,
                database,
                rows,
                returning,
                scope,
                log,
                log_staged,
                log_after,
                failed,
                answer,
            )
            &&& answer is Ok
        };
    law_runs_stage_their_intents(
        rows,
        lead_plan(mutation_lead(returning), rows),
        source(),
        before,
        after,
        database,
        scope,
        log,
        log_staged,
    );
    assert forall|i: int, vertex: VId, label: LabelId, present: bool| #[trigger]
        last_label_update(updates@, i, vertex, label, present) && after.overlay_vertex(
            database,
            vertex,
        ) is Some implies (after.overlay_vertex(database, vertex)->0.labels.contains(label)
        <==> present) by {
        lemma_asked_after_run(before, after, database, rows, vertex, EId(0));
        let earlier = vertex_asked_by(
            vertex_shown(database.vertex_at_spec(vertex, before.basis)),
            vertex,
            intents(before.staged@),
        );
        lemma_detached(earlier, relation, updates@, vertex, after.overlay_vertex(database, vertex) is Some);
        assert forall|j: int| i < j < rows.len() implies spares_label(
            (#[trigger] rows[j]).1,
            vertex,
            label,
        ) by {
            assert(updates@[j] matches MutationIntent::Label { vertex: v, label: l, .. } ==> v
                != vertex || l != label);
            assert(!(updates@[j] matches MutationIntent::DetachDelete { vertex: v } && v
                == vertex));
        }
        lemma_last_label(earlier, rows, i, vertex, label, present);
    }
    assert forall|i: int, vertex: VId, key: PropertyKeyId, value: Option<CanonicalScalar>|
        #[trigger] last_property_update(updates@, i, vertex, key, value) && after.overlay_vertex(
            database,
            vertex,
        ) is Some implies value_at(after.overlay_vertex(database, vertex)->0.props, key)
        == value by {
        lemma_asked_after_run(before, after, database, rows, vertex, EId(0));
        let earlier = vertex_asked_by(
            vertex_shown(database.vertex_at_spec(vertex, before.basis)),
            vertex,
            intents(before.staged@),
        );
        lemma_detached(earlier, relation, updates@, vertex, after.overlay_vertex(database, vertex) is Some);
        assert forall|j: int| i < j < rows.len() implies spares_property(
            (#[trigger] rows[j]).1,
            vertex,
            key,
        ) by {
            assert(updates@[j] matches MutationIntent::Property { vertex: v, key: k, .. } ==> v
                != vertex || k != key);
            assert(!(updates@[j] matches MutationIntent::DetachDelete { vertex: v } && v
                == vertex));
        }
        lemma_last_property(earlier, rows, i, vertex, key, value);
    }
    assert forall|i: int, edge: EId, key: PropertyKeyId, value: Option<CanonicalScalar>|
        #[trigger] last_edge_update(updates@, i, edge, key, value) && after.overlay_edge(
            database,
            edge,
        ) is Some implies value_at(after.overlay_edge(database, edge)->0.props, key) == value by {
        lemma_asked_after_run(before, after, database, rows, VId(0), edge);
        let earlier = edge_asked_by(
            edge_shown(database.edge_at_spec(edge, before.basis)),
            edge,
            intents(before.staged@),
        );
        assert forall|j: int| i < j < rows.len() implies spares_edge_property(
            (#[trigger] rows[j]).1,
            edge,
            key,
        ) by {
            assert(updates@[j] matches MutationIntent::EdgeProperty { edge: e, key: k, .. } ==> e
                != edge || k != key);
        }
        lemma_last_edge_property(earlier, rows, i, edge, key, value);
    }
    assert forall|i: int| 0 <= i < updates@.len() implies ((#[trigger] updates@[i]) matches
    MutationIntent::DetachDelete { vertex } ==> after.overlay_vertex(database, vertex) is None) by {
        if let MutationIntent::DetachDelete { vertex } = updates@[i] {
            lemma_asked_after_run(before, after, database, rows, vertex, EId(0));
            let earlier = vertex_asked_by(
                vertex_shown(database.vertex_at_spec(vertex, before.basis)),
                vertex,
                intents(before.staged@),
            );
            assert(rows[i].1 == (PendingRow::DeleteVertex { vid: vertex }));
            lemma_never_created(earlier, vertex, rows, i);
        }
    }
}

/// A vertex that is there afterwards was not detached.
proof fn lemma_detached(
    current: Option<AskedVertex>,
    relation: RelationId,
    updates: Seq<MutationIntent>,
    vertex: VId,
    there: bool,
)
    requires
        there ==> vertex_asked_by(current, vertex, mutation_rows(relation, updates)) is Some,
    ensures
        there ==> forall|j: int|
            0 <= j < updates.len() ==> !((#[trigger] updates[j]) matches
            MutationIntent::DetachDelete { vertex: v } && v == vertex),
{
    let rows = mutation_rows(relation, updates);
    if there {
        assert forall|j: int| 0 <= j < updates.len() implies !((#[trigger] updates[j]) matches
        MutationIntent::DetachDelete { vertex: v } && v == vertex) by {
            if updates[j] matches MutationIntent::DetachDelete { vertex: v } && v == vertex {
                assert(rows[j].1 == (PendingRow::DeleteVertex { vid: vertex }));
                lemma_never_created(current, vertex, rows, j);
            }
        }
    }
}

/// An endpoint of a new edge: the known vertex, or the one made under an issued identity.
pub open spec fn stands_for(end: End, issued: Seq<ElementId>, vid: VId) -> bool {
    match end {
        End::Known(known) => vid == known,
        End::New(position) => issued[position as int] == ElementId::Vertex(vid),
    }
}

/// Insertions take effect under the identities that were issued for them, each under its
/// own: a new vertex has exactly the drafted labels and properties, and a new edge runs
/// in its relation between the drafted ends.
#[verifier::rlimit(60)]
#[verifier::spinoff_prover]
pub proof fn law_insertions_take_effect(
    before: WriteTxn,
    after: WriteTxn,
    database: Database,
    relation: RelationId,
    drafts: Vec<Draft>,
    policy: QueryPolicy,
    issued: Seq<ElementId>,
    proposal: StepProposal,
    returning: bool,
    scope: Predicates,
    log: Seq<Event>,
    log_staged: Seq<Event>,
    log_after: Seq<Event>,
    failed: Option<Fault>,
    receipt: StepReceipt,
    i: int,
)
    requires
        drafts_wf(drafts@),
        resolves(StepDraft::Insert { relation, drafts }, policy, issued, proposal),
        steps_once(
            before,
            after,
            database,
            proposal,
            returning,
            scope,
            log,
            log_staged,
            log_after,
            failed,
            Ok(receipt),
        ),
        issued.len() == drafts@.len(),
        forall|k: int|
            0 <= k < drafts@.len() ==> ((#[trigger] drafts@[k]) is Vertex <==> issued[k] is Vertex),
        forall|k: int, m: int| 0 <= k < m < issued.len() ==> issued[k] != issued[m],
        evaluates_as_asked(after, database),
        0 <= i < drafts@.len(),
    ensures
        match (drafts@[i], issued[i]) {
            (Draft::Vertex { labels, properties }, ElementId::Vertex(vid)) => {
                &&& after.overlay_vertex(database, vid) matches Some(shown)
                &&& shown.labels == labels@.to_set()
                &&& shown.props == props_map(properties@)
            },
            (
                Draft::Edge { relation: own, source, destination, properties },
                ElementId::Edge(eid),
            ) => {
                &&& after.overlay_edge(database, eid) matches Some(shown)
                &&& shown.entry.relation == own
                &&& stands_for(source, issued, shown.entry.src)
                &&& stands_for(destination, issued, shown.entry.dst)
                &&& shown.props == props_map(properties@)
            },
            _ => false,
        },
        returning ==> (receipt matches StepReceipt::Targets { vertices, edges } && match issued[i] {
            ElementId::Vertex(vid) => vertices@.contains(vid),
            ElementId::Edge(eid) => edges@.contains(eid),
        }),
{
    let settled = settled_all(drafts@, issued);
    let rows = insert_rows(relation, settled);
    law_runs_stage_their_intents(
        rows,
        lead_plan(insert_lead(returning), rows),
        source(),
        before,
        after,
        database,
        scope,
        log,
        log_after,
    );
    let vid = match issued[i] {
        ElementId::Vertex(own) => own,
        _ => VId(0),
    };
    let eid = match issued[i] {
        ElementId::Edge(own) => own,
        _ => EId(0),
    };
    assert(drafts@[i] is Vertex <==> issued[i] is Vertex);
    lemma_asked_after_run(before, after, database, rows, vid, eid);
    let vertex = vertex_asked_by(
        vertex_shown(database.vertex_at_spec(vid, before.basis)),
        vid,
        intents(before.staged@),
    );
    let edge = edge_asked_by(
        edge_shown(database.edge_at_spec(eid, before.basis)),
        eid,
        intents(before.staged@),
    );
    lemma_split_at(vertex, edge, vid, eid, rows, i);
    let rest = rows.skip(i + 1);
    let made_vertex = vertex_asked(vertex_asked_by(vertex, vid, rows.take(i)), vid, rows[i].1);
    let made_edge = edge_asked(
        edge_asked_by(edge, eid, rows.take(i)),
        eid,
        rows[i].0,
        rows[i].1,
    );
    assert(rows[i] == insert_row(relation, settled[i]));
    lemma_spared_by_others(drafts@, issued, relation, rest, i, vid, eid, made_vertex, made_edge);
    if let Draft::Edge { source, destination, .. } = drafts@[i] {
        if let End::New(position) = source {
            assert(drafts@[position as int] is Vertex);
            assert(issued[position as int] is Vertex);
        }
        if let End::New(position) = destination {
            assert(drafts@[position as int] is Vertex);
            assert(issued[position as int] is Vertex);
        }
    }
    lemma_created_are_listed(rows, i, rows.len() as int);
}

proof fn lemma_created_are_listed(rows: Seq<(RelationId, PendingRow)>, i: int, n: int)
    requires
        0 <= i < n <= rows.len(),
    ensures
        rows[i].1 matches PendingRow::Vertex { vid, .. }
            ==> created_vertices(rows, n).contains(vid),
        rows[i].1 matches PendingRow::Edge { eid, .. }
            ==> created_edges(rows, n).contains(eid),
    decreases n,
{
    let vertices = created_vertices(rows, n - 1);
    let edges = created_edges(rows, n - 1);
    let all_vertices = created_vertices(rows, n);
    let all_edges = created_edges(rows, n);
    if i < n - 1 {
        lemma_created_are_listed(rows, i, n - 1);
        if let PendingRow::Vertex { vid, .. } = rows[i].1 {
            let k = vertices.index_of(vid);
            assert(all_vertices[k] == vid);
        }
        if let PendingRow::Edge { eid, .. } = rows[i].1 {
            let k = edges.index_of(eid);
            assert(all_edges[k] == eid);
        }
    } else {
        if rows[i].1 is Vertex {
            assert(all_vertices[vertices.len() as int] == rows[i].1->Vertex_vid);
        }
        if rows[i].1 is Edge {
            assert(all_edges[edges.len() as int] == rows[i].1->Edge_eid);
        }
    }
}

/// Later creations leave an element alone that is made under another identity.
proof fn lemma_spared_by_others(
    drafts: Seq<Draft>,
    issued: Seq<ElementId>,
    relation: RelationId,
    rest: Seq<(RelationId, PendingRow)>,
    i: int,
    vid: VId,
    eid: EId,
    vertex: Option<AskedVertex>,
    edge: Option<AskedEdge>,
)
    requires
        0 <= i < drafts.len() == issued.len(),
        rest == insert_rows(relation, settled_all(drafts, issued)).skip(i + 1),
        forall|k: int|
            0 <= k < drafts.len() ==> ((#[trigger] drafts[k]) is Vertex <==> issued[k] is Vertex),
        forall|k: int, m: int| 0 <= k < m < issued.len() ==> issued[k] != issued[m],
        issued[i] == ElementId::Vertex(vid) || issued[i] == ElementId::Edge(eid),
    ensures
        issued[i] is Vertex ==> vertex_asked_by(vertex, vid, rest) == vertex,
        issued[i] is Edge ==> edge_asked_by(edge, eid, rest) == edge,
    decreases rest.len(),
{
    lemma_spared_upto(drafts, issued, relation, rest, i, vid, eid, vertex, edge, rest.len() as int);
    assert(rest.take(rest.len() as int) =~= rest);
}

proof fn lemma_spared_upto(
    drafts: Seq<Draft>,
    issued: Seq<ElementId>,
    relation: RelationId,
    rest: Seq<(RelationId, PendingRow)>,
    i: int,
    vid: VId,
    eid: EId,
    vertex: Option<AskedVertex>,
    edge: Option<AskedEdge>,
    n: int,
)
    requires
        0 <= i < drafts.len() == issued.len(),
        rest == insert_rows(relation, settled_all(drafts, issued)).skip(i + 1),
        forall|k: int|
            0 <= k < drafts.len() ==> ((#[trigger] drafts[k]) is Vertex <==> issued[k] is Vertex),
        forall|k: int, m: int| 0 <= k < m < issued.len() ==> issued[k] != issued[m],
        issued[i] == ElementId::Vertex(vid) || issued[i] == ElementId::Edge(eid),
        0 <= n <= rest.len(),
    ensures
        issued[i] is Vertex ==> vertex_asked_by(vertex, vid, rest.take(n)) == vertex,
        issued[i] is Edge ==> edge_asked_by(edge, eid, rest.take(n)) == edge,
    decreases n,
{
    if n > 0 {
        lemma_spared_upto(drafts, issued, relation, rest, i, vid, eid, vertex, edge, n - 1);
        assert(rest.take(n).drop_last() =~= rest.take(n - 1));
        let k = i + n;
        assert(rest.take(n).last() == insert_rows(relation, settled_all(drafts, issued))[k]);
        assert(issued[i] != issued[k]);
        assert(drafts[k] is Vertex <==> issued[k] is Vertex);
    }
}

/// A plan that goes through passes each of its steps.
pub proof fn lemma_every_step_goes<E>(steps: Seq<Plan<E>>, n: int, i: int)
    requires
        0 <= i < n <= steps.len(),
        upto(steps, n).verdict is None,
    ensures
        steps[i].verdict is None,
    decreases n,
{
    if i < n - 1 {
        assert(upto(steps, n - 1).verdict is None);
        lemma_every_step_goes(steps, n - 1, i);
    }
}

proof fn lemma_deleted_vertices_stay(
    current: Option<AskedVertex>,
    vid: VId,
    rows: Seq<(RelationId, PendingRow)>,
    i: int,
)
    requires
        0 <= i < rows.len(),
        rows[i].1 == (PendingRow::DeleteVertex { vid }),
        forall|j: int|
            0 <= j < rows.len() ==> (#[trigger] rows[j]).1 is DeleteVertex || rows[j].1 is DeleteEdge,
    ensures
        vertex_asked_by(current, vid, rows) is None,
{
    lemma_never_created(current, vid, rows, i);
}

proof fn lemma_deleted_edges_stay(
    current: Option<AskedEdge>,
    eid: EId,
    rows: Seq<(RelationId, PendingRow)>,
    n: int,
)
    requires
        0 <= n <= rows.len(),
        forall|j: int|
            0 <= j < rows.len() ==> (#[trigger] rows[j]).1 is DeleteVertex || rows[j].1 is DeleteEdge,
    ensures
        edge_asked_by(current, eid, rows.take(n)) is Some ==> edge_asked_by(
            current,
            eid,
            rows.take(n),
        ) == current,
        (exists|i: int|
            0 <= i < n && ((#[trigger] rows[i]).1 matches PendingRow::DeleteEdge { eid: own, .. }
                && own == eid)) ==> edge_asked_by(current, eid, rows.take(n)) is None,
        current matches Some(edge) && (forall|i: int|
            0 <= i < n ==> match (#[trigger] rows[i]).1 {
                PendingRow::DeleteEdge { eid: own, .. } => own != eid,
                PendingRow::DeleteVertex { vid } => vid != edge.src && vid != edge.dst,
                _ => false,
            }) ==> edge_asked_by(current, eid, rows.take(n)) == current,
    decreases n,
{
    if n > 0 {
        lemma_deleted_edges_stay(current, eid, rows, n - 1);
        assert(rows.take(n).drop_last() =~= rows.take(n - 1));
        assert(rows.take(n).last() == rows[n - 1]);
        assert(rows[n - 1].1 is DeleteVertex || rows[n - 1].1 is DeleteEdge);
    }
}

proof fn lemma_other_vertices_stay(
    current: Option<AskedVertex>,
    vid: VId,
    rows: Seq<(RelationId, PendingRow)>,
    n: int,
)
    requires
        0 <= n <= rows.len(),
        forall|j: int|
            0 <= j < rows.len() ==> match (#[trigger] rows[j]).1 {
                PendingRow::DeleteVertex { vid: own } => own != vid,
                PendingRow::DeleteEdge { .. } => true,
                _ => false,
            },
    ensures
        vertex_asked_by(current, vid, rows.take(n)) == current,
    decreases n,
{
    if n > 0 {
        lemma_other_vertices_stay(current, vid, rows, n - 1);
        assert(rows.take(n).drop_last() =~= rows.take(n - 1));
        assert(rows.take(n).last() == rows[n - 1]);
        assert(match rows[n - 1].1 {
            PendingRow::DeleteVertex { vid: own } => own != vid,
            PendingRow::DeleteEdge { .. } => true,
            _ => false,
        });
    }
}

/// A deletion that goes through deletes its targets and nothing else, and only where
/// every edge at a deleted vertex was itself selected.
#[verifier::rlimit(60)]
#[verifier::spinoff_prover]
pub proof fn law_deletions_take_exactly_their_targets(
    before: WriteTxn,
    after: WriteTxn,
    database: Database,
    targets: DeleteProposal,
    policy: QueryPolicy,
    returning: bool,
    scope: Predicates,
    log: Seq<Event>,
    log_after: Seq<Event>,
    records: Seq<EdgeRecord>,
)
    requires
        targets.wf(),
        deletes(
            before,
            after,
            database,
            scope,
            targets,
            policy,
            returning,
            log,
            log_after,
            None,
        ),
        lists_overlay(before, database, records),
        evaluates_as_asked(before, database),
        evaluates_as_asked(after, database),
    ensures
        forall|eid: EId|
            (#[trigger] before.overlay_edge(database, eid)) matches Some(edge) && (
            targets.vertices@.contains(edge.entry.src.0) || targets.vertices@.contains(
                edge.entry.dst.0,
            )) ==> targets.edges@.contains(eid.0),
        forall|vid: VId|
            vertex_shown(#[trigger] after.overlay_vertex(database, vid)) == (
            if targets.vertices@.contains(vid.0) {
                None
            } else {
                vertex_shown(before.overlay_vertex(database, vid))
            }),
        forall|eid: EId|
            edge_shown(#[trigger] after.overlay_edge(database, eid)) == (
            if targets.edges@.contains(eid.0) {
                None
            } else {
                edge_shown(before.overlay_edge(database, eid))
            }),
{
    let rows = delete_rows(targets);
    let head_steps = delete_head_steps(before, database, scope, targets, policy, returning);
    let (middle, read) = choose|middle: Seq<Event>, read: WriteTxn|
        {
            &&& obeys(log, middle, whole(head_steps), source(), None)
            &&& same_workspace(before, read)
            &&& proof_observes(before, read, database, targets, false)
            &&& #[trigger] runs(
                rows,
                scratch_lead(proved_stats(before, database, targets), policy),
                source(),
                read,
                after,
                database,
                scope,
                middle,
                log_after,
                None,
            )
        };
    let graph = |edge: EId| before.overlay_edge(database, edge);
    assert forall|eid: EId|
        (#[trigger] before.overlay_edge(database, eid)) is Some && (targets.vertices@.contains(
            before.overlay_edge(database, eid)->0.entry.src.0,
        ) || targets.vertices@.contains(
            before.overlay_edge(database, eid)->0.entry.dst.0,
        )) implies targets.edges@.contains(eid.0) by {
        assert(targets.vertices.seq().len() > 0);
        assert(graph(eid) is Some);
        lemma_incidence(records, before, database);
        let k = choose|k: int| 0 <= k < records.len() && (#[trigger] records[k]).entry.eid == eid;
        assert(graph(records[k].entry.eid) == Some(records[k]@));
        let proving = proof_steps(
            before,
            database,
            targets,
            policy,
            incidence_stats(before, database, targets),
        );
        lemma_every_step_goes(head_steps, head_steps.len() as int, 4);
        assert(head_steps[4] == whole(proving));
        assert(proving.len() == records.len());
        lemma_every_step_goes(proving, proving.len() as int, k);
        let parts = proof_parts(
            targets,
            policy,
            worked(incidence_stats(before, database, targets), k * search_cost(targets)),
            before.overlay_edge(database, eid)->0,
        );
        assert(incidence(before, database)[k] == records[k].entry.eid.0);
        assert(proving[k] == whole(parts));
        lemma_every_step_goes(parts, 2, 1);
    }
    law_runs_stage_their_intents(
        rows,
        scratch_lead(proved_stats(before, database, targets), policy),
        source(),
        read,
        after,
        database,
        scope,
        middle,
        log_after,
    );
    let edges = targets.edges.seq();
    let vertices = targets.vertices.seq();
    assert forall|j: int| 0 <= j < rows.len() implies (#[trigger] rows[j]).1 is DeleteVertex
        || rows[j].1 is DeleteEdge by {}
    assert(rows.take(rows.len() as int) =~= rows);
    assert forall|vid: VId|
        vertex_shown(#[trigger] after.overlay_vertex(database, vid)) == (
        if targets.vertices@.contains(vid.0) {
            None
        } else {
            vertex_shown(before.overlay_vertex(database, vid))
        }) by {
        lemma_asked_after_run(read, after, database, rows, vid, EId(0));
        let earlier = vertex_asked_by(
            vertex_shown(database.vertex_at_spec(vid, before.basis)),
            vid,
            intents(before.staged@),
        );
        assert(vertex_shown(before.overlay_vertex(database, vid)) == earlier);
        if targets.vertices@.contains(vid.0) {
            let k = vertices.index_of(vid.0);
            assert(rows[edges.len() + k].1 == (PendingRow::DeleteVertex { vid }));
            lemma_deleted_vertices_stay(earlier, vid, rows, edges.len() + k);
        } else {
            assert forall|j: int| 0 <= j < rows.len() implies match (#[trigger] rows[j]).1 {
                PendingRow::DeleteVertex { vid: own } => own != vid,
                PendingRow::DeleteEdge { .. } => true,
                _ => false,
            } by {
                if j >= edges.len() {
                    assert(targets.vertices@.contains(vertices[j - edges.len()]));
                }
            }
            lemma_other_vertices_stay(earlier, vid, rows, rows.len() as int);
        }
    }
    assert forall|eid: EId|
        edge_shown(#[trigger] after.overlay_edge(database, eid)) == (
        if targets.edges@.contains(eid.0) {
            None
        } else {
            edge_shown(before.overlay_edge(database, eid))
        }) by {
        lemma_asked_after_run(read, after, database, rows, VId(0), eid);
        let earlier = edge_asked_by(
            edge_shown(database.edge_at_spec(eid, before.basis)),
            eid,
            intents(before.staged@),
        );
        assert(edge_shown(before.overlay_edge(database, eid)) == earlier);
        lemma_deleted_edges_stay(earlier, eid, rows, rows.len() as int);
        if targets.edges@.contains(eid.0) {
            let k = edges.index_of(eid.0);
            assert(rows[k].1 == (PendingRow::DeleteEdge { eid, if_present: false }));
        } else if earlier is Some {
            assert forall|i: int| 0 <= i < rows.len() implies match (#[trigger] rows[i]).1 {
                PendingRow::DeleteEdge { eid: own, .. } => own != eid,
                PendingRow::DeleteVertex { vid } => vid != earlier->0.src && vid != earlier->0.dst,
                _ => false,
            } by {
                if i < edges.len() {
                    assert(targets.edges@.contains(edges[i]));
                } else {
                    assert(targets.vertices@.contains(vertices[i - edges.len()]));
                }
            }
        }
    }
}

/// A vertex MERGE hands back the vertex that matched and stages nothing, or makes one with
/// exactly the drafted labels and properties under the identity that was issued for it.
pub proof fn law_vertex_merge_matches_or_makes_one(
    before: WriteTxn,
    after: WriteTxn,
    database: Database,
    relation: RelationId,
    target: MergeTarget,
    policy: QueryPolicy,
    issued: Seq<ElementId>,
    proposal: StepProposal,
    returning: bool,
    scope: Predicates,
    log: Seq<Event>,
    log_staged: Seq<Event>,
    log_after: Seq<Event>,
    failed: Option<Fault>,
    receipt: StepReceipt,
)
    requires
        resolves(StepDraft::VertexMerge { relation, target }, policy, issued, proposal),
        steps_once(
            before,
            after,
            database,
            proposal,
            returning,
            scope,
            log,
            log_staged,
            log_after,
            failed,
            Ok(receipt),
        ),
        target is Missing ==> issued.len() == 1 && issued[0] is Vertex,
        evaluates_as_asked(after, database),
    ensures
        receipt matches StepReceipt::Vertex { vertex, created } && match target {
            MergeTarget::Matched(vid) => vertex == vid && !created && after == before,
            MergeTarget::Missing { labels, properties } => {
                &&& issued[0] == ElementId::Vertex(vertex)
                &&& created
                &&& after.overlay_vertex(database, vertex) matches Some(shown)
                &&& shown.labels == labels@.to_set()
                &&& shown.props == props_map(properties@)
            },
        },
{
    let vertex = proposal->VertexMerge_vertex;
    let creation = insert_rows(relation, proposal->VertexMerge_creation@);
    let staged = choose|staged: Result<(), Fault>|
        {
            &&& #[trigger] merges_rows(
                before,
                after,
                database,
                creation,
                returning,
                scope,
                log,
                log_staged,
                log_after,
                failed,
                staged,
            )
            &&& staged is Ok
        };
    law_runs_stage_their_intents(
        creation,
        lead_plan(Lead::Unit, creation),
        source(),
        before,
        after,
        database,
        scope,
        log,
        log_staged,
    );
    law_runs_end_with_the_latest_evaluation(
        creation,
        lead_plan(Lead::Unit, creation),
        source(),
        before,
        after,
        database,
        scope,
        log,
        log_staged,
    );
    if target is Missing {
        lemma_asked_after_run(before, after, database, creation, vertex, EId(0));
        assert(creation.drop_last() =~= Seq::<(RelationId, PendingRow)>::empty());
    }
}

} // verus!
