//! What the rows of a template do, and what being the same template means.

use vstd::prelude::*;
use crate::admission::is_vertex_intent;
use crate::batch::PendingRow;
use crate::conflict::{endpoint, intent_touches, touched};
use crate::errors::Law;
use crate::graph::{
    edge_after, edge_after_rows, vertex_after, vertex_after_rows, DeltaRow, EdgeView, VertexView,
};
use crate::ids::{
    CanonicalScalar, CommitSeq, EId, ElementId, LabelId, PropertyKeyId, RelationId, VId,
};
use crate::intent_laws::{edge_asked, value_at, vertex_asked, AskedEdge, AskedVertex};
use crate::props::props_map;
use crate::template::{rows_upto, same_coordinate, same_row, same_template, Coordinate, Template};
use crate::txn::WriteTxn;

verus! {

/// What a row about a vertex does to it, and to nothing else of it.
pub proof fn law_rows_do_to_vertices_what_they_say(
    current: Option<VertexView>,
    vid: VId,
    row: DeltaRow,
)
    ensures
        match row {
            DeltaRow::CreateVertex { vid: own, labels, props, .. } if own == vid => {
                &&& vertex_after(current, vid, row) matches Some(after)
                &&& forall|label: LabelId| #[trigger]
                    after.labels.contains(label) <==> labels@.contains(label)
                &&& after.props == props_map(props@)
            },
            DeltaRow::DeleteVertex { vid: own, .. } if own == vid => vertex_after(
                current,
                vid,
                row,
            ) is None,
            DeltaRow::LabelMembership { vid: own, label, after } if own == vid
                && current is Some => {
                &&& vertex_after(current, vid, row) matches Some(changed)
                &&& changed.labels.contains(label) <==> after
                &&& forall|other: LabelId|
                    other != label ==> (#[trigger] changed.labels.contains(other)
                        <==> current->0.labels.contains(other))
                &&& changed.props == current->0.props
            },
            DeltaRow::Property { elem, property, after } if elem == ElementId::Vertex(vid)
                && current is Some => {
                &&& vertex_after(current, vid, row) matches Some(changed)
                &&& value_at(changed.props, property) == after
                &&& forall|other: PropertyKeyId|
                    other != property ==> #[trigger] value_at(changed.props, other) == value_at(
                        current->0.props,
                        other,
                    )
                &&& changed.labels == current->0.labels
            },
            _ => vertex_after(current, vid, row) == current,
        },
{
}

/// What a row about an edge does to it, and to nothing else of it.
pub proof fn law_rows_do_to_edges_what_they_say(
    current: Option<EdgeView>,
    eid: EId,
    row: DeltaRow,
    at: CommitSeq,
)
    ensures
        match row {
            DeltaRow::CreateEdge { eid: own, src, relation, dst, props } if own == eid => {
                &&& edge_after(current, eid, row, at) matches Some(after)
                &&& (after.entry.src, after.entry.relation, after.entry.dst) == (src, relation, dst)
                &&& after.entry.eid == eid
                &&& after.entry.created_at == at
                &&& after.props == props_map(props@)
            },
            DeltaRow::DeleteEdge { eid: own } if own == eid => edge_after(
                current,
                eid,
                row,
                at,
            ) is None,
            DeltaRow::DeleteVertex { sorted_retired_incident_edges, .. }
                if sorted_retired_incident_edges@.contains(eid) => edge_after(
                current,
                eid,
                row,
                at,
            ) is None,
            DeltaRow::Property { elem, property, after } if elem == ElementId::Edge(eid)
                && current is Some => {
                &&& edge_after(current, eid, row, at) matches Some(changed)
                &&& value_at(changed.props, property) == after
                &&& forall|other: PropertyKeyId|
                    other != property ==> #[trigger] value_at(changed.props, other) == value_at(
                        current->0.props,
                        other,
                    )
                &&& changed.entry == current->0.entry
            },
            _ => edge_after(current, eid, row, at) == current,
        },
{
}

proof fn lemma_same_rows_change_the_same(
    vertex: Option<VertexView>,
    edge: Option<EdgeView>,
    vid: VId,
    eid: EId,
    left: Seq<DeltaRow>,
    right: Seq<DeltaRow>,
    at: CommitSeq,
)
    requires
        left.len() == right.len(),
        forall|i: int| 0 <= i < left.len() ==> same_row(#[trigger] left[i], right[i]),
    ensures
        vertex_after_rows(vertex, vid, left) == vertex_after_rows(vertex, vid, right),
        edge_after_rows(edge, eid, left, at) == edge_after_rows(edge, eid, right, at),
    decreases left.len(),
{
    if left.len() > 0 {
        let n = left.len() - 1;
        assert forall|i: int| 0 <= i < n implies same_row(
            #[trigger] left.drop_last()[i],
            right.drop_last()[i],
        ) by {
            assert(same_row(left[i], right[i]));
        }
        lemma_same_rows_change_the_same(
            vertex,
            edge,
            vid,
            eid,
            left.drop_last(),
            right.drop_last(),
            at,
        );
        assert(same_row(left[n], right[n]));
    }
}

proof fn lemma_same_template_rows(left: Seq<Coordinate>, right: Seq<Coordinate>, n: int)
    requires
        0 <= n <= left.len() == right.len(),
        forall|c: int| 0 <= c < left.len() ==> same_coordinate(#[trigger] left[c], right[c]),
    ensures
        rows_upto(left, n).len() == rows_upto(right, n).len(),
        forall|i: int|
            0 <= i < rows_upto(left, n).len() ==> same_row(
                #[trigger] rows_upto(left, n)[i],
                rows_upto(right, n)[i],
            ),
    decreases n,
{
    if n > 0 {
        lemma_same_template_rows(left, right, n - 1);
        assert(same_coordinate(left[n - 1], right[n - 1]));
        let l = rows_upto(left, n - 1);
        let r = rows_upto(right, n - 1);
        assert forall|i: int| 0 <= i < rows_upto(left, n).len() implies same_row(
            #[trigger] rows_upto(left, n)[i],
            rows_upto(right, n)[i],
        ) by {
            if i < l.len() {
                assert(rows_upto(left, n)[i] == l[i]);
                assert(rows_upto(right, n)[i] == r[i]);
            } else {
                assert(same_row(left[n - 1].rows@[i - l.len()], right[n - 1].rows@[i - l.len()]));
            }
        }
    }
}

/// Templates that count as the same make the same of every vertex and every edge. So an
/// append that is moved to a newer basis publishes what was prepared, and a restored
/// prefix shows what it showed.
pub proof fn law_same_templates_change_the_same(
    left: Template,
    right: Template,
    vertex: Option<VertexView>,
    edge: Option<EdgeView>,
    vid: VId,
    eid: EId,
    at: CommitSeq,
)
    requires
        same_template(left, right),
    ensures
        vertex_after_rows(vertex, vid, left.rows()) == vertex_after_rows(
            vertex,
            vid,
            right.rows(),
        ),
        edge_after_rows(edge, eid, left.rows(), at) == edge_after_rows(
            edge,
            eid,
            right.rows(),
            at,
        ),
{
    lemma_same_template_rows(left.coordinates@, right.coordinates@, left.coordinates@.len() as int);
    lemma_same_rows_change_the_same(vertex, edge, vid, eid, left.rows(), right.rows(), at);
}

/// An intent depends on nothing but what it can change and the endpoints of an edge that
/// it creates, and it depends on all of that.
pub proof fn law_intents_depend_on_what_they_can_change(
    row: PendingRow,
    relation: RelationId,
    vid: VId,
    eid: EId,
    vertex: Option<AskedVertex>,
    edge: Option<AskedEdge>,
)
    ensures
        vertex_asked(vertex, vid, row) != vertex ==> intent_touches(row, ElementId::Vertex(vid)),
        edge_asked(edge, eid, relation, row) != edge ==> intent_touches(row, ElementId::Edge(eid))
            || (edge matches Some(old) && (intent_touches(row, ElementId::Vertex(old.src))
            || intent_touches(row, ElementId::Vertex(old.dst)))),
        intent_touches(row, ElementId::Vertex(vid)) ==> match row {
            PendingRow::Edge { src, dst, .. } => vid == src || vid == dst,
            PendingRow::CompareAndSet { elem, .. } => elem == ElementId::Vertex(vid),
            _ => exists|current: Option<AskedVertex>| #[trigger]
                vertex_asked(current, vid, row) != current,
        },
        intent_touches(row, ElementId::Edge(eid)) ==> match row {
            PendingRow::CompareAndSet { elem, .. } => elem == ElementId::Edge(eid),
            _ => exists|current: Option<AskedEdge>| #[trigger]
                edge_asked(current, eid, relation, row) != current,
        },
        is_vertex_intent(row) <==> !(row is Edge) && exists|own: VId| #[trigger]
            intent_touches(row, ElementId::Vertex(own)),
{
    let bare = AskedVertex { labels: Set::empty(), props: Map::empty() };
    if intent_touches(row, ElementId::Vertex(vid)) {
        match row {
            PendingRow::Vertex { .. } => {
                assert(vertex_asked(None, vid, row) is Some);
            },
            PendingRow::DeleteVertex { .. } => {
                assert(vertex_asked(Some(bare), vid, row) is None);
            },
            PendingRow::SetLabel { label, present, .. } => {
                let held = AskedVertex { labels: set![label], ..bare };
                if present {
                    assert(vertex_asked(Some(bare), vid, row)->0.labels.contains(label));
                    assert(!bare.labels.contains(label));
                } else {
                    assert(!vertex_asked(Some(held), vid, row)->0.labels.contains(label));
                    assert(held.labels.contains(label));
                }
            },
            PendingRow::SetProperty { key, value, .. } => {
                let held = AskedVertex { props: Map::empty().insert(key, arbitrary()), ..bare };
                if value is Some {
                    assert(vertex_asked(Some(bare), vid, row)->0.props.dom().contains(key));
                    assert(!bare.props.dom().contains(key));
                } else {
                    assert(!vertex_asked(Some(held), vid, row)->0.props.dom().contains(key));
                    assert(held.props.dom().contains(key));
                }
            },
            _ => {},
        }
    }
    let any = AskedEdge {
        relation,
        src: VId(0),
        dst: VId(0),
        props: Map::<PropertyKeyId, CanonicalScalar>::empty(),
    };
    if intent_touches(row, ElementId::Edge(eid)) {
        match row {
            PendingRow::Edge { .. } => {
                assert(edge_asked(None, eid, relation, row) is Some);
            },
            PendingRow::DeleteEdge { .. } => {
                assert(edge_asked(Some(any), eid, relation, row) is None);
            },
            PendingRow::SetEdgeProperty { key, value, .. } => {
                let held = AskedEdge { props: Map::empty().insert(key, arbitrary()), ..any };
                if value is Some {
                    assert(edge_asked(Some(any), eid, relation, row)->0.props.dom().contains(key));
                    assert(!any.props.dom().contains(key));
                } else {
                    assert(!edge_asked(Some(held), eid, relation, row)->0.props.dom().contains(key));
                    assert(held.props.dom().contains(key));
                }
            },
            _ => {},
        }
    }
    match row {
        PendingRow::Vertex { vid: own, .. } => assert(intent_touches(row, ElementId::Vertex(own))),
        PendingRow::DeleteVertex { vid: own } => assert(intent_touches(
            row,
            ElementId::Vertex(own),
        )),
        PendingRow::SetLabel { vid: own, .. } => assert(intent_touches(
            row,
            ElementId::Vertex(own),
        )),
        PendingRow::SetProperty { vid: own, .. } => assert(intent_touches(
            row,
            ElementId::Vertex(own),
        )),
        PendingRow::CompareAndSet { elem: ElementId::Vertex(own), .. } => assert(intent_touches(
            row,
            ElementId::Vertex(own),
        )),
        _ => {},
    }
}

/// A conflict names something that the transaction depends on and that the commit changed
/// or attached to, or an insertion under one of its scans; a read comes before a write, and
/// of several such elements of a kind the least is named.
pub proof fn law_conflicts_name_what_changed(
    txn: WriteTxn,
    rows: Seq<DeltaRow>,
    law: Law,
    element: ElementId,
)
    requires
        txn.batch_conflict(rows, Some((law, element))),
    ensures
        match txn.first_phantom(rows) {
            Some(inserted) => law == Law::Read && element == inserted,
            None => {
                &&& touched(rows, element) || endpoint(rows, element)
                &&& law == Law::Read ==> txn.read_set@.contains(element)
                &&& law == Law::Write ==> txn.depends_on_write(element) && forall|other: ElementId|
                    #![trigger touched(rows, other)]
                    #![trigger endpoint(rows, other)]
                    touched(rows, other) || endpoint(rows, other) ==> !txn.read_set@.contains(other)
                &&& endpoint(rows, element) ==> forall|other: ElementId|
                    #[trigger] endpoint(rows, other) && (if law == Law::Read {
                        txn.read_set@.contains(other)
                    } else {
                        txn.depends_on_write(other)
                    }) ==> not_after(element, other)
                &&& !endpoint(rows, element) ==> forall|other: ElementId|
                    #[trigger] touched(rows, other) && (if law == Law::Read {
                        txn.read_set@.contains(other)
                    } else {
                        txn.depends_on_write(other)
                    }) ==> not_after(element, other)
            },
        },
{
    let endpoints = Set::new(|e: ElementId| endpoint(rows, e));
    let touches = Set::new(|e: ElementId| touched(rows, e));
    let writes = Set::new(|e: ElementId| txn.depends_on_write(e));
    assert forall|other: ElementId| #[trigger] endpoints.contains(other) == endpoint(rows, other) by {}
    assert forall|other: ElementId| #[trigger] touches.contains(other) == touched(rows, other) by {}
    assert forall|other: ElementId| #[trigger] writes.contains(other) == txn.depends_on_write(other) by {}
    if txn.first_phantom(rows) is None {
        let targets = if law == Law::Read {
            txn.read_set@
        } else {
            writes
        };
        if law == Law::Write {
            assert forall|other: ElementId|
                #![trigger touched(rows, other)]
                #![trigger endpoint(rows, other)]
                touched(rows, other) || endpoint(rows, other) implies !txn.read_set@.contains(
                other,
            ) by {
                assert(endpoints.contains(other) == endpoint(rows, other));
                assert(touches.contains(other) == touched(rows, other));
            }
        }
        if endpoint(rows, element) {
            assert(endpoints.contains(element) && targets.contains(element));
            assert(!endpoints.disjoint(targets));
            assert forall|other: ElementId|
                #[trigger] endpoint(rows, other) && (if law == Law::Read {
                    txn.read_set@.contains(other)
                } else {
                    txn.depends_on_write(other)
                }) implies not_after(element, other) by {
                assert(endpoints.contains(other) && targets.contains(other));
            }
        } else {
            assert forall|other: ElementId|
                #[trigger] touched(rows, other) && (if law == Law::Read {
                    txn.read_set@.contains(other)
                } else {
                    txn.depends_on_write(other)
                }) implies not_after(element, other) by {
                assert(touches.contains(other) && targets.contains(other));
            }
        }
    }
}

/// Vertices come before edges, and each kind by its number.
pub open spec fn not_after(left: ElementId, right: ElementId) -> bool {
    match (left, right) {
        (ElementId::Vertex(l), ElementId::Vertex(r)) => l.0 <= r.0,
        (ElementId::Edge(l), ElementId::Edge(r)) => l.0 <= r.0,
        (ElementId::Vertex(_), ElementId::Edge(_)) => true,
        (ElementId::Edge(_), ElementId::Vertex(_)) => false,
    }
}

} // verus!
