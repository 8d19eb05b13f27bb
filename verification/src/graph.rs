//! Graph records, canonical delta rows, and what a row does to a record.

use vstd::prelude::*;
use crate::ids::{CanonicalScalar, CommitSeq, EId, ElementId, LabelId, PropertyKeyId, RelationId, VId};
use crate::props::{clone_props, overlaid, overlay_property, props_map, props_sorted};

verus! {

/// Where an edge lies in the graph and in history.
#[derive(Clone, Copy, PartialEq, Eq, Structural, Debug)]
pub struct AdjacencyEntry {
    pub src: VId,
    pub relation: RelationId,
    pub dst: VId,
    pub eid: EId,
    pub created_at: CommitSeq,
    pub retired_at: Option<CommitSeq>,
}

/// One edge with its properties.
#[derive(Debug)]
pub struct EdgeRecord {
    pub entry: AdjacencyEntry,
    pub props: Vec<(PropertyKeyId, CanonicalScalar)>,
}

/// What an edge record says.
pub struct EdgeView {
    pub entry: AdjacencyEntry,
    pub props: Map<PropertyKeyId, CanonicalScalar>,
}

impl EdgeRecord {
    pub open spec fn wf(&self) -> bool {
        props_sorted(self.props@)
    }

    pub open spec fn view(&self) -> EdgeView {
        EdgeView { entry: self.entry, props: props_map(self.props@) }
    }

    pub fn copy(&self) -> (copy: EdgeRecord)
        ensures
            copy@ == self@,
            copy.props@ == self.props@,
            self.wf() ==> copy.wf(),
    {
        EdgeRecord { entry: self.entry, props: clone_props(&self.props) }
    }
}

/// One vertex with its labels and properties.
#[derive(Debug)]
pub struct VertexRow {
    pub vid: VId,
    pub birth_ordinal: u64,
    pub labels: Vec<LabelId>,
    pub props: Vec<(PropertyKeyId, CanonicalScalar)>,
}

/// What a vertex record says.
pub struct VertexView {
    pub vid: VId,
    pub birth_ordinal: u64,
    pub labels: Set<LabelId>,
    pub props: Map<PropertyKeyId, CanonicalScalar>,
}

/// Label lists are kept strictly increasing.
pub open spec fn labels_sorted(labels: Seq<LabelId>) -> bool {
    forall|i: int, j: int| 0 <= i < j < labels.len() ==> labels[i].0 < labels[j].0
}

/// One label change: add the label, or take it away.
pub open spec fn relabelled(labels: Set<LabelId>, label: LabelId, present: bool) -> Set<LabelId> {
    if present {
        labels.insert(label)
    } else {
        labels.remove(label)
    }
}

/// Copy a label list.
pub fn clone_labels(labels: &Vec<LabelId>) -> (copy: Vec<LabelId>)
    ensures
        copy@ == labels@,
{
    let mut copy: Vec<LabelId> = Vec::new();
    let mut i: usize = 0;
    while i < labels.len()
        invariant
            i <= labels.len(),
            copy@ == labels@.take(i as int),
        decreases labels.len() - i,
    {
        copy.push(labels[i]);
        i += 1;
    }
    copy
}

/// Whether a list holds a label.
pub fn has_label(labels: &Vec<LabelId>, label: LabelId) -> (found: bool)
    ensures
        found == labels@.contains(label),
{
    let mut i: usize = 0;
    while i < labels.len()
        invariant
            i <= labels.len(),
            forall|k: int| 0 <= k < i ==> labels@[k] != label,
        decreases labels.len() - i,
    {
        if labels[i] == label {
            assert(labels@[i as int] == label);
            return true;
        }
        i += 1;
    }
    false
}

/// Add a label to a sorted list, or take it away.
pub fn overlay_label(labels: &mut Vec<LabelId>, label: LabelId, present: bool)
    requires
        labels_sorted(old(labels)@),
    ensures
        labels_sorted(final(labels)@),
        final(labels)@.to_set() =~= relabelled(old(labels)@.to_set(), label, present),
{
    let mut at: usize = 0;
    while at < labels.len() && labels[at].0 < label.0
        invariant
            at <= labels.len(),
            labels@ == old(labels)@,
            forall|i: int| 0 <= i < at ==> (#[trigger] labels@[i]).0 < label.0,
        decreases labels.len() - at,
    {
        at += 1;
    }
    let ghost before = labels@;
    proof {
        assert forall|i: int| at < i < before.len() implies (#[trigger] before[i]).0 > label.0 by {
            assert(before[at as int].0 < before[i].0);
        }
    }
    if at < labels.len() && labels[at].0 == label.0 {
        assert(before[at as int] == label);
        if !present {
            labels.remove(at);
            proof {
                let after = labels@;
                assert(after =~= before.remove(at as int));
                assert forall|i: int, j: int| 0 <= i < j < after.len() implies after[i].0
                    < after[j].0 by {
                    let pi = if i < at { i } else { i + 1 };
                    let pj = if j < at { j } else { j + 1 };
                    assert(before[pi].0 < before[pj].0);
                }
                assert forall|x: LabelId| #[trigger]
                    after.to_set().contains(x) == before.to_set().remove(label).contains(x) by {
                    if after.contains(x) {
                        let i = after.index_of(x);
                        let p = if i < at { i } else { i + 1 };
                        assert(before[p] == x);
                    }
                    if before.contains(x) && x != label {
                        let i = before.index_of(x);
                        let p = if i < at { i } else { i - 1 };
                        assert(after[p] == x);
                    }
                }
            }
        } else {
            assert(before.to_set().insert(label) =~= before.to_set());
        }
    } else {
        assert(!before.contains(label));
        if present {
            labels.insert(at, label);
            proof {
                let after = labels@;
                assert(after =~= before.insert(at as int, label));
                assert forall|i: int, j: int| 0 <= i < j < after.len() implies after[i].0
                    < after[j].0 by {
                    let pi = if i < at { i } else { i - 1 };
                    let pj = if j < at { j } else { j - 1 };
                    if i != at && j != at {
                        assert(before[pi].0 < before[pj].0);
                    } else if i == at {
                        assert(before[pj].0 > label.0);
                    } else {
                        assert(before[pi].0 < label.0);
                    }
                }
                assert forall|x: LabelId| #[trigger]
                    after.to_set().contains(x) == before.to_set().insert(label).contains(x) by {
                    if after.contains(x) {
                        let i = after.index_of(x);
                        if i != at {
                            let p = if i < at { i } else { i - 1 };
                            assert(before[p] == x);
                        }
                    }
                    if before.contains(x) {
                        let i = before.index_of(x);
                        let p = if i < at { i } else { i + 1 };
                        assert(after[p] == x);
                    }
                    assert(after[at as int] == label);
                }
            }
        } else {
            assert(before.to_set().remove(label) =~= before.to_set());
        }
    }
}

impl VertexRow {
    pub open spec fn wf(&self) -> bool {
        &&& labels_sorted(self.labels@)
        &&& props_sorted(self.props@)
    }

    pub open spec fn view(&self) -> VertexView {
        VertexView {
            vid: self.vid,
            birth_ordinal: self.birth_ordinal,
            labels: self.labels@.to_set(),
            props: props_map(self.props@),
        }
    }

    pub fn copy(&self) -> (copy: VertexRow)
        ensures
            copy@ == self@,
            copy.labels@ == self.labels@,
            copy.props@ == self.props@,
            self.wf() ==> copy.wf(),
    {
        VertexRow {
            vid: self.vid,
            birth_ordinal: self.birth_ordinal,
            labels: clone_labels(&self.labels),
            props: clone_props(&self.props),
        }
    }
}

/// One canonical net effect.
#[allow(inconsistent_fields)]
#[derive(Debug)]
pub enum DeltaRow {
    CreateVertex {
        vid: VId,
        birth_ordinal: u64,
        labels: Vec<LabelId>,
        props: Vec<(PropertyKeyId, CanonicalScalar)>,
    },
    CreateEdge {
        eid: EId,
        src: VId,
        relation: RelationId,
        dst: VId,
        props: Vec<(PropertyKeyId, CanonicalScalar)>,
    },
    DeleteVertex { vid: VId, sorted_retired_incident_edges: Vec<EId> },
    DeleteEdge { eid: EId },
    LabelMembership { vid: VId, label: LabelId, after: bool },
    Property { elem: ElementId, property: PropertyKeyId, after: Option<CanonicalScalar> },
    Schema { transition: u64 },
}

/// Cascade lists are kept strictly increasing.
pub open spec fn edges_sorted(edges: Seq<EId>) -> bool {
    forall|i: int, j: int| 0 <= i < j < edges.len() ==> edges[i].0 < edges[j].0
}

impl DeltaRow {
    pub open spec fn wf(&self) -> bool {
        match self {
            DeltaRow::CreateVertex { labels, props, .. } => labels_sorted(labels@) && props_sorted(
                props@,
            ),
            DeltaRow::CreateEdge { props, .. } => props_sorted(props@),
            DeltaRow::DeleteVertex { sorted_retired_incident_edges, .. } => edges_sorted(
                sorted_retired_incident_edges@,
            ),
            _ => true,
        }
    }
}

/// The edge `eid` after one row that takes effect at `at`.
pub open spec fn edge_after(
    current: Option<EdgeView>,
    eid: EId,
    row: DeltaRow,
    at: CommitSeq,
) -> Option<EdgeView> {
    match row {
        DeltaRow::CreateEdge { eid: created, src, relation, dst, props } => if created == eid {
            Some(
                EdgeView {
                    entry: AdjacencyEntry {
                        src,
                        relation,
                        dst,
                        eid,
                        created_at: at,
                        retired_at: None,
                    },
                    props: props_map(props@),
                },
            )
        } else {
            current
        },
        DeltaRow::DeleteEdge { eid: deleted } => if deleted == eid {
            None
        } else {
            current
        },
        DeltaRow::Property { elem, property, after } => match current {
            Some(edge) => if elem == ElementId::Edge(eid) {
                Some(EdgeView { entry: edge.entry, props: overlaid(edge.props, property, after) })
            } else {
                current
            },
            None => None,
        },
        DeltaRow::DeleteVertex { sorted_retired_incident_edges, .. } => if sorted_retired_incident_edges@.contains(
        eid) {
            None
        } else {
            current
        },
        _ => current,
    }
}

/// The vertex that a row makes a read of edge `eid` depend on: the source of its
/// creation, or the deleted vertex whose cascade retires it.
pub open spec fn edge_witness(eid: EId, row: DeltaRow) -> Option<VId> {
    match row {
        DeltaRow::CreateEdge { eid: created, src, .. } => if created == eid {
            Some(src)
        } else {
            None
        },
        DeltaRow::DeleteVertex { vid, sorted_retired_incident_edges } => if sorted_retired_incident_edges@.contains(
        eid) {
            Some(vid)
        } else {
            None
        },
        _ => None,
    }
}

/// The edge `eid` after a run of rows.
pub open spec fn edge_after_rows(
    current: Option<EdgeView>,
    eid: EId,
    rows: Seq<DeltaRow>,
    at: CommitSeq,
) -> Option<EdgeView>
    decreases rows.len(),
{
    if rows.len() == 0 {
        current
    } else {
        edge_after(edge_after_rows(current, eid, rows.drop_last(), at), eid, rows.last(), at)
    }
}

/// The view of an optional edge record.
pub open spec fn edge_view(edge: Option<EdgeRecord>) -> Option<EdgeView> {
    match edge {
        Some(record) => Some(record@),
        None => None,
    }
}

pub open spec fn edge_wf(edge: Option<EdgeRecord>) -> bool {
    match edge {
        Some(record) => record.wf(),
        None => true,
    }
}

/// The vertex `vid` after one row.
pub open spec fn vertex_after(current: Option<VertexView>, vid: VId, row: DeltaRow) -> Option<
    VertexView,
> {
    match row {
        DeltaRow::CreateVertex { vid: created, birth_ordinal, labels, props } => if created == vid {
            Some(
                VertexView { vid, birth_ordinal, labels: labels@.to_set(), props: props_map(props@) },
            )
        } else {
            current
        },
        DeltaRow::DeleteVertex { vid: deleted, .. } => if deleted == vid {
            None
        } else {
            current
        },
        DeltaRow::LabelMembership { vid: changed, label, after } => match current {
            Some(vertex) => if changed == vid {
                Some(VertexView { labels: relabelled(vertex.labels, label, after), ..vertex })
            } else {
                current
            },
            None => None,
        },
        DeltaRow::Property { elem, property, after } => match current {
            Some(vertex) => if elem == ElementId::Vertex(vid) {
                Some(VertexView { props: overlaid(vertex.props, property, after), ..vertex })
            } else {
                current
            },
            None => None,
        },
        _ => current,
    }
}

/// The vertex `vid` after a run of rows.
pub open spec fn vertex_after_rows(
    current: Option<VertexView>,
    vid: VId,
    rows: Seq<DeltaRow>,
) -> Option<VertexView>
    decreases rows.len(),
{
    if rows.len() == 0 {
        current
    } else {
        vertex_after(vertex_after_rows(current, vid, rows.drop_last()), vid, rows.last())
    }
}

pub open spec fn vertex_view(vertex: Option<VertexRow>) -> Option<VertexView> {
    match vertex {
        Some(row) => Some(row@),
        None => None,
    }
}

pub open spec fn vertex_wf(vertex: Option<VertexRow>) -> bool {
    match vertex {
        Some(row) => row.wf(),
        None => true,
    }
}

/// Membership in a sorted cascade list.
pub fn retires(edges: &Vec<EId>, eid: EId) -> (found: bool)
    requires
        edges_sorted(edges@),
    ensures
        found == edges@.contains(eid),
{
    let mut low: usize = 0;
    let mut high: usize = edges.len();
    while low < high
        invariant
            edges_sorted(edges@),
            low <= high <= edges.len(),
            forall|i: int| 0 <= i < low ==> (#[trigger] edges@[i]).0 < eid.0,
            forall|i: int| high <= i < edges.len() ==> (#[trigger] edges@[i]).0 > eid.0,
        decreases high - low,
    {
        let middle: usize = low + (high - low) / 2;
        let candidate = edges[middle];
        if candidate == eid {
            assert(edges@[middle as int] == eid);
            return true;
        }
        if candidate.0 < eid.0 {
            low = middle + 1;
        } else {
            high = middle;
        }
    }
    false
}

/// Apply a canonical row to one edge and return its source or cascade witness.
/// The witness is independent of whether the edge survives.
pub fn apply_edge_effect(
    eid: EId,
    overlay: &mut Option<EdgeRecord>,
    effect: &DeltaRow,
    at: CommitSeq,
) -> (witness: Option<VId>)
    requires
        effect.wf(),
        edge_wf(*old(overlay)),
    ensures
        edge_wf(*final(overlay)),
        edge_view(*final(overlay)) == edge_after(edge_view(*old(overlay)), eid, *effect, at),
        witness == edge_witness(eid, *effect),
{
    match effect {
        DeltaRow::CreateEdge { eid: created, src, relation, dst, props } => {
            if *created == eid {
                *overlay = Some(
                    EdgeRecord {
                        entry: AdjacencyEntry {
                            src: *src,
                            relation: *relation,
                            dst: *dst,
                            eid,
                            created_at: at,
                            retired_at: None,
                        },
                        props: clone_props(props),
                    },
                );
                Some(*src)
            } else {
                None
            }
        },
        DeltaRow::DeleteEdge { eid: deleted } => {
            if *deleted == eid {
                *overlay = None;
            }
            None
        },
        DeltaRow::Property { elem, property, after } => {
            if *elem == ElementId::Edge(eid) {
                if let Some(mut record) = overlay.take() {
                    overlay_property(&mut record.props, *property, *after);
                    *overlay = Some(record);
                }
            }
            None
        },
        DeltaRow::DeleteVertex { vid, sorted_retired_incident_edges } => {
            if retires(sorted_retired_incident_edges, eid) {
                *overlay = None;
                Some(*vid)
            } else {
                None
            }
        },
        _ => None,
    }
}

/// Apply a canonical row to one vertex.
pub fn apply_vertex_effect(vid: VId, overlay: &mut Option<VertexRow>, effect: &DeltaRow)
    requires
        effect.wf(),
        vertex_wf(*old(overlay)),
    ensures
        vertex_wf(*final(overlay)),
        vertex_view(*final(overlay)) == vertex_after(vertex_view(*old(overlay)), vid, *effect),
{
    match effect {
        DeltaRow::CreateVertex { vid: created, birth_ordinal, labels, props } => {
            if *created == vid {
                *overlay = Some(
                    VertexRow {
                        vid,
                        birth_ordinal: *birth_ordinal,
                        labels: clone_labels(labels),
                        props: clone_props(props),
                    },
                );
            }
        },
        DeltaRow::DeleteVertex { vid: deleted, .. } => {
            if *deleted == vid {
                *overlay = None;
            }
        },
        DeltaRow::LabelMembership { vid: changed, label, after } => {
            if *changed == vid {
                if let Some(mut vertex) = overlay.take() {
                    overlay_label(&mut vertex.labels, *label, *after);
                    *overlay = Some(vertex);
                }
            }
        },
        DeltaRow::Property { elem, property, after } => {
            if *elem == ElementId::Vertex(vid) {
                if let Some(mut vertex) = overlay.take() {
                    overlay_property(&mut vertex.props, *property, *after);
                    *overlay = Some(vertex);
                }
            }
        },
        _ => {},
    }
}

} // verus!
