//! What a collector freezes of a statement before identities are issued: creations
//! name what they need, and the engine owns every identity.

use vstd::prelude::*;
use crate::authorized_apply::{InsertIntent, MutationIntent};
use crate::authorized_deletion::DeleteProposal;
use crate::authorized_program::{StatementKind, StepProposal};
use crate::batch::PendingRow;
use crate::controls::Control;
use crate::ids::{
    CanonicalScalar, EId, ElementId, LabelId, PropertyKeyId, RelationId, VId,
};
use crate::session::IdentityKind;
use crate::statement::{Fault, QueryPolicy};

verus! {

/// An endpoint of an edge to create: a vertex of the graph, or the vertex that an
/// earlier creation of the same statement makes.
#[derive(Clone, Copy, PartialEq, Eq, Structural, Debug)]
pub enum End {
    Known(VId),
    New(usize),
}

/// One creation without its identity.
#[derive(Debug)]
pub enum Draft {
    Vertex { labels: Vec<LabelId>, properties: Vec<(PropertyKeyId, CanonicalScalar)> },
    Edge {
        relation: RelationId,
        source: End,
        destination: End,
        properties: Vec<(PropertyKeyId, CanonicalScalar)>,
    },
}

/// What a vertex MERGE found: the one match, or what to create.
#[derive(Debug)]
pub enum MergeTarget {
    Matched(VId),
    Missing { labels: Vec<LabelId>, properties: Vec<(PropertyKeyId, CanonicalScalar)> },
}

/// One action of a vertex upsert on its vertex.
#[derive(Clone, Copy, PartialEq, Eq, Structural, Debug)]
pub enum VertexAction {
    Label { label: LabelId, present: bool },
    Property { key: PropertyKeyId, value: Option<CanonicalScalar> },
}

/// A statement as its collector froze it.
pub enum StepDraft {
    Mutation { relation: RelationId, intents: Vec<MutationIntent> },
    Insert { relation: RelationId, drafts: Vec<Draft> },
    Delete { proposal: DeleteProposal },
    VertexMerge { relation: RelationId, target: MergeTarget },
    /// A vertex MERGE, then what the selected branch calls back, and its actions or why
    /// they were refused.
    VertexUpsert {
        relation: RelationId,
        target: MergeTarget,
        controls: Vec<Control>,
        actions: Result<Vec<VertexAction>, Fault>,
    },
    /// A relationship MERGE, which no program may hold.
    Edge,
}

/// The kind of identity that a creation needs.
pub open spec fn draft_kind(draft: Draft) -> IdentityKind {
    match draft {
        Draft::Vertex { .. } => IdentityKind::Vertex,
        Draft::Edge { .. } => IdentityKind::Edge,
    }
}

/// The identities that a MERGE needs.
pub open spec fn target_needs(target: MergeTarget) -> Seq<IdentityKind> {
    match target {
        MergeTarget::Matched(_) => Seq::empty(),
        MergeTarget::Missing { .. } => seq![IdentityKind::Vertex],
    }
}

/// The identities that a statement needs, in order: one for each creation.
pub open spec fn needs(draft: StepDraft) -> Seq<IdentityKind> {
    match draft {
        StepDraft::Insert { drafts, .. } => Seq::new(
            drafts@.len(),
            |i: int| draft_kind(drafts@[i]),
        ),
        StepDraft::VertexMerge { target, .. } => target_needs(target),
        StepDraft::VertexUpsert { target, .. } => target_needs(target),
        _ => Seq::empty(),
    }
}

/// An endpoint is known, or made by an earlier creation.
pub open spec fn end_wf(drafts: Seq<Draft>, at: int, end: End) -> bool {
    match end {
        End::Known(_) => true,
        End::New(position) => position < at && drafts[position as int] is Vertex,
    }
}

/// The endpoints of every new edge are there before it.
pub open spec fn drafts_wf(drafts: Seq<Draft>) -> bool {
    forall|i: int|
        0 <= i < drafts.len() ==> ((#[trigger] drafts[i]) matches Draft::Edge {
            source,
            destination,
            ..
        } ==> end_wf(drafts, i, source) && end_wf(drafts, i, destination))
}

/// A draft of the declared kind, with targets in canonical order and endpoints that
/// are there before their edges.
pub open spec fn acceptable(kind: StatementKind, draft: StepDraft) -> bool {
    &&& draft matches StepDraft::Delete { proposal } ==> proposal.wf()
    &&& draft matches StepDraft::Insert { drafts, .. } ==> drafts_wf(drafts@)
    &&& match kind {
        StatementKind::Mutation => draft is Mutation,
        StatementKind::Insert { .. } => draft is Insert,
        StatementKind::Delete => draft is Delete,
        StatementKind::VertexMerge => draft is VertexMerge,
        StatementKind::VertexUpsert => draft is VertexUpsert,
        StatementKind::EdgeMerge => draft is Edge,
        StatementKind::EdgeUpsert => draft is Edge,
    }
}

fn is_end_wf(drafts: &Vec<Draft>, at: usize, end: End) -> (fits: bool)
    requires
        at < drafts@.len(),
    ensures
        fits == end_wf(drafts@, at as int, end),
{
    match end {
        End::Known(_) => true,
        End::New(position) => position < at && match &drafts[position] {
            Draft::Vertex { .. } => true,
            Draft::Edge { .. } => false,
        },
    }
}

fn is_drafts_wf(drafts: &Vec<Draft>) -> (fits: bool)
    ensures
        fits == drafts_wf(drafts@),
{
    let mut i: usize = 0;
    while i < drafts.len()
        invariant
            i <= drafts.len(),
            forall|k: int|
                0 <= k < i ==> ((#[trigger] drafts@[k]) matches Draft::Edge {
                    source,
                    destination,
                    ..
                } ==> end_wf(drafts@, k, source) && end_wf(drafts@, k, destination)),
        decreases drafts.len() - i,
    {
        let fits = match &drafts[i] {
            Draft::Vertex { .. } => true,
            Draft::Edge { source, destination, .. } => is_end_wf(drafts, i, *source) && is_end_wf(
                drafts,
                i,
                *destination,
            ),
        };
        if !fits {
            assert(drafts@[i as int] is Edge);
            return false;
        }
        i += 1;
    }
    true
}

/// Whether a draft may be taken up.
pub fn accept(kind: StatementKind, draft: &StepDraft) -> (accepted: bool)
    ensures
        accepted == acceptable(kind, *draft),
{
    let sound = match draft {
        StepDraft::Delete { proposal } => proposal.vertices.is_wf() && proposal.edges.is_wf(),
        StepDraft::Insert { drafts, .. } => is_drafts_wf(drafts),
        _ => true,
    };
    let fitting = match (kind, draft) {
        (StatementKind::Mutation, StepDraft::Mutation { .. }) => true,
        (StatementKind::Insert { .. }, StepDraft::Insert { .. }) => true,
        (StatementKind::Delete, StepDraft::Delete { .. }) => true,
        (StatementKind::VertexMerge, StepDraft::VertexMerge { .. }) => true,
        (StatementKind::VertexUpsert, StepDraft::VertexUpsert { .. }) => true,
        (StatementKind::EdgeMerge, StepDraft::Edge) => true,
        (StatementKind::EdgeUpsert, StepDraft::Edge) => true,
        _ => false,
    };
    sound && fitting
}

/// The vertex of an issued identity.
pub open spec fn as_vertex(element: ElementId) -> VId {
    match element {
        ElementId::Vertex(vid) => vid,
        ElementId::Edge(eid) => VId(eid.0),
    }
}

/// The edge of an issued identity.
pub open spec fn as_edge(element: ElementId) -> EId {
    match element {
        ElementId::Edge(eid) => eid,
        ElementId::Vertex(vid) => EId(vid.0),
    }
}

fn vertex_of(element: ElementId) -> (vid: VId)
    ensures
        vid == as_vertex(element),
{
    match element {
        ElementId::Vertex(vid) => vid,
        ElementId::Edge(eid) => VId(eid.0),
    }
}

fn edge_of(element: ElementId) -> (eid: EId)
    ensures
        eid == as_edge(element),
{
    match element {
        ElementId::Edge(eid) => eid,
        ElementId::Vertex(vid) => EId(vid.0),
    }
}

/// An endpoint once identities were issued.
pub open spec fn settled_end(end: End, issued: Seq<ElementId>) -> VId {
    match end {
        End::Known(vid) => vid,
        End::New(position) => as_vertex(issued[position as int]),
    }
}

/// A creation once it has its identity.
pub open spec fn settled(draft: Draft, own: ElementId, issued: Seq<ElementId>) -> InsertIntent {
    match draft {
        Draft::Vertex { labels, properties } => InsertIntent::Vertex {
            vertex: as_vertex(own),
            labels,
            properties,
        },
        Draft::Edge { relation, source, destination, properties } => InsertIntent::Edge {
            edge: as_edge(own),
            relation,
            source: settled_end(source, issued),
            destination: settled_end(destination, issued),
            properties,
        },
    }
}

/// The creations of a statement, the first with the first identity issued, and so on.
pub open spec fn settled_all(drafts: Seq<Draft>, issued: Seq<ElementId>) -> Seq<InsertIntent> {
    Seq::new(drafts.len(), |i: int| settled(drafts[i], issued[i], issued))
}

/// The row of one action.
pub open spec fn action_row(
    relation: RelationId,
    vertex: VId,
    action: VertexAction,
) -> (RelationId, PendingRow) {
    match action {
        VertexAction::Label { label, present } => (
            relation,
            PendingRow::SetLabel { vid: vertex, label, present },
        ),
        VertexAction::Property { key, value } => (
            relation,
            PendingRow::SetProperty { vid: vertex, key, value },
        ),
    }
}

/// The rows of the actions, in order.
pub open spec fn action_rows(
    relation: RelationId,
    vertex: VId,
    actions: Seq<VertexAction>,
) -> Seq<(RelationId, PendingRow)> {
    Seq::new(actions.len(), |i: int| action_row(relation, vertex, actions[i]))
}

/// A MERGE once its identity was issued: the creation, the vertex, and whether it is
/// new.
pub open spec fn settles_target(
    target: MergeTarget,
    issued: Seq<ElementId>,
    creation: Seq<InsertIntent>,
    vertex: VId,
    created: bool,
) -> bool {
    match target {
        MergeTarget::Matched(vid) => creation.len() == 0 && vertex == vid && !created,
        MergeTarget::Missing { labels, properties } => {
            &&& vertex == as_vertex(issued[0])
            &&& created
            &&& creation == seq![InsertIntent::Vertex { vertex, labels, properties }]
        },
    }
}

/// The proposal that a draft becomes under a policy, once its identities were issued.
pub open spec fn resolves(
    draft: StepDraft,
    policy: QueryPolicy,
    issued: Seq<ElementId>,
    proposal: StepProposal,
) -> bool {
    match draft {
        StepDraft::Mutation { relation, intents } => proposal == (StepProposal::Mutation {
            relation,
            intents,
        }),
        StepDraft::Insert { relation, drafts } => {
            &&& proposal matches StepProposal::Insert { relation: own, intents }
            &&& own == relation
            &&& intents@ == settled_all(drafts@, issued)
        },
        StepDraft::Delete { proposal: targets } => proposal == (StepProposal::Delete {
            proposal: targets,
            policy,
        }),
        StepDraft::VertexMerge { relation, target } => {
            &&& proposal matches StepProposal::VertexMerge { relation: own, creation, vertex, created }
            &&& own == relation
            &&& settles_target(target, issued, creation@, vertex, created)
        },
        StepDraft::VertexUpsert { relation, target, controls, actions } => {
            &&& proposal matches StepProposal::VertexUpsert {
                relation: own,
                creation,
                controls: own_controls,
                actions: rows,
                vertex,
                created,
            }
            &&& own == relation
            &&& own_controls == controls
            &&& settles_target(target, issued, creation@, vertex, created)
            &&& match (actions, rows) {
                (Ok(listed), Ok(staged)) => staged@ == action_rows(relation, vertex, listed@),
                (Err(refusal), Err(fault)) => fault == refusal,
                _ => false,
            }
        },
        StepDraft::Edge => proposal == StepProposal::Edge,
    }
}

fn settle_end(end: End, issued: &Vec<ElementId>) -> (vid: VId)
    requires
        end matches End::New(position) ==> position < issued@.len(),
    ensures
        vid == settled_end(end, issued@),
{
    match end {
        End::Known(vid) => vid,
        End::New(position) => vertex_of(issued[position]),
    }
}

/// Give the creations their identities.
fn settle_all(drafts: Vec<Draft>, issued: &Vec<ElementId>) -> (intents: Vec<InsertIntent>)
    requires
        drafts_wf(drafts@),
        drafts@.len() == issued@.len(),
    ensures
        intents@ == settled_all(drafts@, issued@),
{
    let ghost given = drafts@;
    let ghost all = settled_all(given, issued@);
    let mut drafts = drafts;
    let mut backwards: Vec<InsertIntent> = Vec::new();
    while drafts.len() > 0
        invariant
            given.len() == issued@.len(),
            drafts_wf(given),
            drafts@.len() <= given.len(),
            drafts@ == given.take(drafts@.len() as int),
            all == settled_all(given, issued@),
            backwards@.len() == given.len() - drafts@.len(),
            forall|k: int|
                0 <= k < backwards@.len() ==> #[trigger] backwards@[k] == all[given.len() - 1 - k],
        decreases drafts.len(),
    {
        let ghost rest = drafts@;
        if let Some(draft) = drafts.pop() {
            proof {
                assert(drafts@ =~= given.take(drafts@.len() as int));
                assert(draft == given[rest.len() - 1]);
            }
            let own = issued[drafts.len()];
            let intent = match draft {
                Draft::Vertex { labels, properties } => InsertIntent::Vertex {
                    vertex: vertex_of(own),
                    labels,
                    properties,
                },
                Draft::Edge { relation, source, destination, properties } => InsertIntent::Edge {
                    edge: edge_of(own),
                    relation,
                    source: settle_end(source, issued),
                    destination: settle_end(destination, issued),
                    properties,
                },
            };
            backwards.push(intent);
        }
    }
    let mut intents: Vec<InsertIntent> = Vec::new();
    while backwards.len() > 0
        invariant
            all.len() == given.len(),
            backwards@.len() <= given.len(),
            intents@.len() == given.len() - backwards@.len(),
            forall|k: int|
                0 <= k < backwards@.len() ==> #[trigger] backwards@[k] == all[given.len() - 1 - k],
            forall|k: int| 0 <= k < intents@.len() ==> #[trigger] intents@[k] == all[k],
        decreases backwards.len(),
    {
        let ghost left = backwards@;
        if let Some(intent) = backwards.pop() {
            assert(intent == left[left.len() - 1]);
            intents.push(intent);
        }
    }
    assert(intents@ =~= all);
    intents
}

/// Give a MERGE its identity.
fn settle_target(target: MergeTarget, issued: &Vec<ElementId>) -> (settled: (
    Vec<InsertIntent>,
    VId,
    bool,
))
    requires
        target_needs(target).len() <= issued@.len(),
    ensures
        settles_target(target, issued@, settled.0@, settled.1, settled.2),
{
    match target {
        MergeTarget::Matched(vid) => (Vec::new(), vid, false),
        MergeTarget::Missing { labels, properties } => {
            let vertex = vertex_of(issued[0]);
            let mut creation: Vec<InsertIntent> = Vec::new();
            creation.push(InsertIntent::Vertex { vertex, labels, properties });
            (creation, vertex, true)
        },
    }
}

fn list_actions(relation: RelationId, vertex: VId, actions: &Vec<VertexAction>) -> (rows: Vec<
    (RelationId, PendingRow),
>)
    ensures
        rows@ == action_rows(relation, vertex, actions@),
{
    let mut rows: Vec<(RelationId, PendingRow)> = Vec::new();
    let mut i: usize = 0;
    while i < actions.len()
        invariant
            i <= actions.len(),
            rows@ =~= action_rows(relation, vertex, actions@.take(i as int)),
        decreases actions.len() - i,
    {
        let row = match actions[i] {
            VertexAction::Label { label, present } => PendingRow::SetLabel {
                vid: vertex,
                label,
                present,
            },
            VertexAction::Property { key, value } => PendingRow::SetProperty {
                vid: vertex,
                key,
                value,
            },
        };
        rows.push((relation, row));
        i += 1;
    }
    assert(actions@.take(i as int) =~= actions@);
    rows
}

/// Turn a draft into the proposal that is staged.
pub fn resolve(draft: StepDraft, policy: QueryPolicy, issued: &Vec<ElementId>) -> (proposal:
    StepProposal)
    requires
        draft matches StepDraft::Insert { drafts, .. } ==> drafts_wf(drafts@),
        needs(draft).len() == issued@.len(),
    ensures
        resolves(draft, policy, issued@, proposal),
{
    match draft {
        StepDraft::Mutation { relation, intents } => StepProposal::Mutation { relation, intents },
        StepDraft::Insert { relation, drafts } => StepProposal::Insert {
            relation,
            intents: settle_all(drafts, issued),
        },
        StepDraft::Delete { proposal } => StepProposal::Delete { proposal, policy },
        StepDraft::VertexMerge { relation, target } => {
            let (creation, vertex, created) = settle_target(target, issued);
            StepProposal::VertexMerge { relation, creation, vertex, created }
        },
        StepDraft::VertexUpsert { relation, target, controls, actions } => {
            let (creation, vertex, created) = settle_target(target, issued);
            let rows = match actions {
                Ok(listed) => Ok(list_actions(relation, vertex, &listed)),
                Err(refusal) => Err(refusal),
            };
            StepProposal::VertexUpsert {
                relation,
                creation,
                controls,
                actions: rows,
                vertex,
                created,
            }
        },
        StepDraft::Edge => StepProposal::Edge,
    }
}

} // verus!
