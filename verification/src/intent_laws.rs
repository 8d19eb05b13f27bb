//! What staged intents ask for, read one after the other, and what follows from the last
//! of them on an element.

use vstd::prelude::*;
use crate::authorized_run::{run_of, runs, single_of, traces, Trace};
use crate::batch::{intents, intents_upto, same_intent, PendingRow, WriteBatch};
use crate::database::Database;
use crate::errors::WriteTxnError;
use crate::graph::{EdgeView, VertexView};
use crate::ids::{CanonicalScalar, EId, ElementId, LabelId, PropertyKeyId, RelationId, VId};
use crate::plan::Plan;
use crate::props::props_map;
use crate::scope::Predicates;
use crate::session::Event;
use crate::txn::WriteTxn;

verus! {

/// A vertex as intents speak of it.
pub struct AskedVertex {
    pub labels: Set<LabelId>,
    pub props: Map<PropertyKeyId, CanonicalScalar>,
}

/// An edge as intents speak of it.
pub struct AskedEdge {
    pub relation: RelationId,
    pub src: VId,
    pub dst: VId,
    pub props: Map<PropertyKeyId, CanonicalScalar>,
}

/// What is seen of a vertex, in the words of intents.
pub open spec fn vertex_shown(seen: Option<VertexView>) -> Option<AskedVertex> {
    match seen {
        Some(vertex) => Some(AskedVertex { labels: vertex.labels, props: vertex.props }),
        None => None,
    }
}

/// What is seen of an edge, in the words of intents.
pub open spec fn edge_shown(seen: Option<EdgeView>) -> Option<AskedEdge> {
    match seen {
        Some(edge) => Some(
            AskedEdge {
                relation: edge.entry.relation,
                src: edge.entry.src,
                dst: edge.entry.dst,
                props: edge.props,
            },
        ),
        None => None,
    }
}

/// The value beside a key, if it has one.
pub open spec fn value_at(
    props: Map<PropertyKeyId, CanonicalScalar>,
    key: PropertyKeyId,
) -> Option<CanonicalScalar> {
    if props.dom().contains(key) {
        Some(props[key])
    } else {
        None
    }
}

/// The properties after one of them was set or removed.
pub open spec fn with_value(
    props: Map<PropertyKeyId, CanonicalScalar>,
    key: PropertyKeyId,
    value: Option<CanonicalScalar>,
) -> Map<PropertyKeyId, CanonicalScalar> {
    match value {
        Some(scalar) => props.insert(key, scalar),
        None => props.remove(key),
    }
}

/// What one intent asks of a vertex.
pub open spec fn vertex_asked(
    current: Option<AskedVertex>,
    vid: VId,
    row: PendingRow,
) -> Option<AskedVertex> {
    match row {
        PendingRow::Vertex { vid: own, labels, props, ensure } => if own == vid && !(ensure
            && current is Some) {
            Some(AskedVertex { labels: labels@.to_set(), props: props_map(props@) })
        } else {
            current
        },
        PendingRow::DeleteVertex { vid: own } => if own == vid {
            None
        } else {
            current
        },
        PendingRow::SetLabel { vid: own, label, present } => match current {
            Some(vertex) if own == vid => Some(
                AskedVertex {
                    labels: if present {
                        vertex.labels.insert(label)
                    } else {
                        vertex.labels.remove(label)
                    },
                    ..vertex
                },
            ),
            _ => current,
        },
        PendingRow::SetProperty { vid: own, key, value } => match current {
            Some(vertex) if own == vid => Some(
                AskedVertex { props: with_value(vertex.props, key, value), ..vertex },
            ),
            _ => current,
        },
        PendingRow::CompareAndSet { elem, key, expected, value, .. } => match current {
            Some(vertex) if elem == ElementId::Vertex(vid) && value_at(vertex.props, key)
                == expected => Some(
                AskedVertex { props: vertex.props.insert(key, value), ..vertex },
            ),
            _ => current,
        },
        _ => current,
    }
}

/// What one intent asks of an edge. Deleting a vertex takes its edges along.
pub open spec fn edge_asked(
    current: Option<AskedEdge>,
    eid: EId,
    relation: RelationId,
    row: PendingRow,
) -> Option<AskedEdge> {
    match row {
        PendingRow::Edge { eid: own, src, dst, props, ensure } => if own == eid && !(ensure
            && current is Some) {
            Some(AskedEdge { relation, src, dst, props: props_map(props@) })
        } else {
            current
        },
        PendingRow::DeleteEdge { eid: own, .. } => if own == eid {
            None
        } else {
            current
        },
        PendingRow::DeleteVertex { vid } => match current {
            Some(edge) if edge.src == vid || edge.dst == vid => None,
            _ => current,
        },
        PendingRow::SetEdgeProperty { eid: own, key, value } => match current {
            Some(edge) if own == eid => Some(
                AskedEdge { props: with_value(edge.props, key, value), ..edge },
            ),
            _ => current,
        },
        PendingRow::CompareAndSet { elem, key, expected, value, .. } => match current {
            Some(edge) if elem == ElementId::Edge(eid) && value_at(edge.props, key)
                == expected => Some(AskedEdge { props: edge.props.insert(key, value), ..edge }),
            _ => current,
        },
        _ => current,
    }
}

/// What intents ask of a vertex, one after the other.
pub open spec fn vertex_asked_by(
    current: Option<AskedVertex>,
    vid: VId,
    rows: Seq<(RelationId, PendingRow)>,
) -> Option<AskedVertex>
    decreases rows.len(),
{
    if rows.len() == 0 {
        current
    } else {
        vertex_asked(vertex_asked_by(current, vid, rows.drop_last()), vid, rows.last().1)
    }
}

/// What intents ask of an edge, one after the other.
pub open spec fn edge_asked_by(
    current: Option<AskedEdge>,
    eid: EId,
    rows: Seq<(RelationId, PendingRow)>,
) -> Option<AskedEdge>
    decreases rows.len(),
{
    if rows.len() == 0 {
        current
    } else {
        edge_asked(
            edge_asked_by(current, eid, rows.drop_last()),
            eid,
            rows.last().0,
            rows.last().1,
        )
    }
}

/// The prepared rows show every element as the staged intents ask for it: the evaluator
/// did what it was told.
pub open spec fn evaluates_as_asked(txn: WriteTxn, database: Database) -> bool {
    &&& forall|vid: VId|
        vertex_shown(#[trigger] txn.overlay_vertex(database, vid)) == vertex_asked_by(
            vertex_shown(database.vertex_at_spec(vid, txn.basis)),
            vid,
            intents(txn.staged@),
        )
    &&& forall|eid: EId|
        edge_shown(#[trigger] txn.overlay_edge(database, eid)) == edge_asked_by(
            edge_shown(database.edge_at_spec(eid, txn.basis)),
            eid,
            intents(txn.staged@),
        )
}

/// Intents that ask for the same things in the same order.
pub open spec fn same_rows(
    left: Seq<(RelationId, PendingRow)>,
    right: Seq<(RelationId, PendingRow)>,
) -> bool {
    &&& left.len() == right.len()
    &&& forall|i: int|
        0 <= i < left.len() ==> (#[trigger] left[i]).0 == right[i].0 && same_intent(
            left[i].1,
            right[i].1,
        )
}

pub proof fn lemma_same_rows_ask_the_same(
    vertex: Option<AskedVertex>,
    edge: Option<AskedEdge>,
    vid: VId,
    eid: EId,
    left: Seq<(RelationId, PendingRow)>,
    right: Seq<(RelationId, PendingRow)>,
)
    requires
        same_rows(left, right),
    ensures
        vertex_asked_by(vertex, vid, left) == vertex_asked_by(vertex, vid, right),
        edge_asked_by(edge, eid, left) == edge_asked_by(edge, eid, right),
    decreases left.len(),
{
    if left.len() > 0 {
        assert forall|i: int| 0 <= i < left.len() - 1 implies (#[trigger] left.drop_last()[i]).0
            == right.drop_last()[i].0 && same_intent(
            left.drop_last()[i].1,
            right.drop_last()[i].1,
        ) by {
            assert(left[i].0 == right[i].0 && same_intent(left[i].1, right[i].1));
        }
        lemma_same_rows_ask_the_same(vertex, edge, vid, eid, left.drop_last(), right.drop_last());
        let n = left.len() - 1;
        assert(left[n].0 == right[n].0 && same_intent(left[n].1, right[n].1));
    }
}

pub proof fn lemma_asked_concat(
    vertex: Option<AskedVertex>,
    edge: Option<AskedEdge>,
    vid: VId,
    eid: EId,
    head: Seq<(RelationId, PendingRow)>,
    tail: Seq<(RelationId, PendingRow)>,
)
    ensures
        vertex_asked_by(vertex, vid, head + tail) == vertex_asked_by(
            vertex_asked_by(vertex, vid, head),
            vid,
            tail,
        ),
        edge_asked_by(edge, eid, head + tail) == edge_asked_by(
            edge_asked_by(edge, eid, head),
            eid,
            tail,
        ),
    decreases tail.len(),
{
    if tail.len() > 0 {
        assert((head + tail).drop_last() =~= head + tail.drop_last());
        assert((head + tail).last() == tail.last());
        lemma_asked_concat(vertex, edge, vid, eid, head, tail.drop_last());
    } else {
        assert(head + tail =~= head);
    }
}

/// An intent that leaves a label of a vertex alone.
pub open spec fn spares_label(row: PendingRow, vid: VId, label: LabelId) -> bool {
    match row {
        PendingRow::SetLabel { vid: own, label: other, .. } => own != vid || other != label,
        PendingRow::Vertex { vid: own, .. } => own != vid,
        PendingRow::DeleteVertex { vid: own } => own != vid,
        _ => true,
    }
}

/// An intent that leaves a property of a vertex alone.
pub open spec fn spares_property(row: PendingRow, vid: VId, key: PropertyKeyId) -> bool {
    match row {
        PendingRow::SetProperty { vid: own, key: other, .. } => own != vid || other != key,
        PendingRow::CompareAndSet { elem, key: other, .. } => elem != ElementId::Vertex(vid)
            || other != key,
        PendingRow::Vertex { vid: own, .. } => own != vid,
        PendingRow::DeleteVertex { vid: own } => own != vid,
        _ => true,
    }
}

/// An intent that leaves a property of an edge alone.
pub open spec fn spares_edge_property(row: PendingRow, eid: EId, key: PropertyKeyId) -> bool {
    match row {
        PendingRow::SetEdgeProperty { eid: own, key: other, .. } => own != eid || other != key,
        PendingRow::CompareAndSet { elem, key: other, .. } => elem != ElementId::Edge(eid)
            || other != key,
        PendingRow::Edge { eid: own, .. } => own != eid,
        _ => true,
    }
}

pub proof fn lemma_spared_label(
    current: Option<AskedVertex>,
    vid: VId,
    label: LabelId,
    rows: Seq<(RelationId, PendingRow)>,
)
    requires
        forall|i: int| 0 <= i < rows.len() ==> spares_label((#[trigger] rows[i]).1, vid, label),
    ensures
        vertex_asked_by(current, vid, rows) is Some <==> current is Some,
        current matches Some(before) ==> (vertex_asked_by(current, vid, rows)->0.labels.contains(
            label,
        ) <==> before.labels.contains(label)),
    decreases rows.len(),
{
    if rows.len() > 0 {
        assert forall|i: int| 0 <= i < rows.len() - 1 implies spares_label(
            (#[trigger] rows.drop_last()[i]).1,
            vid,
            label,
        ) by {
            assert(spares_label(rows[i].1, vid, label));
        }
        lemma_spared_label(current, vid, label, rows.drop_last());
        assert(spares_label(rows[rows.len() - 1].1, vid, label));
    }
}

pub proof fn lemma_spared_property(
    current: Option<AskedVertex>,
    vid: VId,
    key: PropertyKeyId,
    rows: Seq<(RelationId, PendingRow)>,
)
    requires
        forall|i: int| 0 <= i < rows.len() ==> spares_property((#[trigger] rows[i]).1, vid, key),
    ensures
        vertex_asked_by(current, vid, rows) is Some <==> current is Some,
        current matches Some(before) ==> value_at(
            vertex_asked_by(current, vid, rows)->0.props,
            key,
        ) == value_at(before.props, key),
    decreases rows.len(),
{
    if rows.len() > 0 {
        assert forall|i: int| 0 <= i < rows.len() - 1 implies spares_property(
            (#[trigger] rows.drop_last()[i]).1,
            vid,
            key,
        ) by {
            assert(spares_property(rows[i].1, vid, key));
        }
        lemma_spared_property(current, vid, key, rows.drop_last());
        assert(spares_property(rows[rows.len() - 1].1, vid, key));
    }
}

pub proof fn lemma_spared_edge_property(
    current: Option<AskedEdge>,
    eid: EId,
    key: PropertyKeyId,
    rows: Seq<(RelationId, PendingRow)>,
)
    requires
        forall|i: int|
            0 <= i < rows.len() ==> spares_edge_property((#[trigger] rows[i]).1, eid, key),
    ensures
        edge_kept(current, edge_asked_by(current, eid, rows)),
        edge_asked_by(current, eid, rows) matches Some(after) ==> value_at(after.props, key)
            == value_at(current->0.props, key),
    decreases rows.len(),
{
    if rows.len() > 0 {
        assert forall|i: int| 0 <= i < rows.len() - 1 implies spares_edge_property(
            (#[trigger] rows.drop_last()[i]).1,
            eid,
            key,
        ) by {
            assert(spares_edge_property(rows[i].1, eid, key));
        }
        lemma_spared_edge_property(current, eid, key, rows.drop_last());
        assert(spares_edge_property(rows[rows.len() - 1].1, eid, key));
    }
}

/// What is left of an edge was there before, between the same vertices.
pub open spec fn edge_kept(before: Option<AskedEdge>, after: Option<AskedEdge>) -> bool {
    after matches Some(edge) ==> {
        &&& before matches Some(old)
        &&& (old.relation, old.src, old.dst) == (edge.relation, edge.src, edge.dst)
    }
}

/// The rows split at one of them.
pub proof fn lemma_split_at(
    vertex: Option<AskedVertex>,
    edge: Option<AskedEdge>,
    vid: VId,
    eid: EId,
    rows: Seq<(RelationId, PendingRow)>,
    i: int,
)
    requires
        0 <= i < rows.len(),
    ensures
        vertex_asked_by(vertex, vid, rows) == vertex_asked_by(
            vertex_asked(vertex_asked_by(vertex, vid, rows.take(i)), vid, rows[i].1),
            vid,
            rows.skip(i + 1),
        ),
        edge_asked_by(edge, eid, rows) == edge_asked_by(
            edge_asked(edge_asked_by(edge, eid, rows.take(i)), eid, rows[i].0, rows[i].1),
            eid,
            rows.skip(i + 1),
        ),
{
    assert(rows =~= rows.take(i + 1) + rows.skip(i + 1));
    lemma_asked_concat(vertex, edge, vid, eid, rows.take(i + 1), rows.skip(i + 1));
    assert(rows.take(i + 1).drop_last() =~= rows.take(i));
    assert(rows.take(i + 1).last() == rows[i]);
}

proof fn lemma_singles(batches: Seq<WriteBatch>, rows: Seq<(RelationId, PendingRow)>, n: int)
    requires
        0 <= n <= rows.len(),
        batches.len() == n,
        forall|i: int| 0 <= i < n ==> single_of(#[trigger] batches[i], rows[i]),
    ensures
        same_rows(rows.take(n), intents_upto(batches, n)),
    decreases n,
{
    if n > 0 {
        let rest = batches.take(n - 1);
        assert forall|i: int| 0 <= i < n - 1 implies single_of(#[trigger] rest[i], rows[i]) by {
            assert(single_of(batches[i], rows[i]));
        }
        lemma_singles(rest, rows, n - 1);
        lemma_intents_of_prefix(batches, rest, n - 1);
        assert(single_of(batches[n - 1], rows[n - 1]));
        let own = batches[n - 1].rows@.map_values(
            |row: PendingRow| (batches[n - 1].relation, row),
        );
        let all = intents_upto(batches, n);
        let fewer = intents_upto(batches, n - 1);
        assert(all == fewer + own);
        assert forall|i: int| 0 <= i < n implies (#[trigger] rows.take(n)[i]).0 == all[i].0
            && same_intent(rows.take(n)[i].1, all[i].1) by {
            if i < n - 1 {
                assert(rows.take(n - 1)[i] == rows.take(n)[i]);
                assert(all[i] == fewer[i]);
            }
        }
    } else {
        assert(intents_upto(batches, n) =~= Seq::<(RelationId, PendingRow)>::empty());
    }
}

proof fn lemma_intents_of_prefix(batches: Seq<WriteBatch>, prefix: Seq<WriteBatch>, n: int)
    requires
        0 <= n <= prefix.len() <= batches.len(),
        forall|i: int| 0 <= i < n ==> #[trigger] batches[i] == prefix[i],
    ensures
        intents_upto(batches, n) == intents_upto(prefix, n),
    decreases n,
{
    if n > 0 {
        lemma_intents_of_prefix(batches, prefix, n - 1);
        assert(batches[n - 1] == prefix[n - 1]);
    }
}

pub proof fn lemma_intents_concat(head: Seq<WriteBatch>, tail: Seq<WriteBatch>, n: int)
    requires
        0 <= n <= tail.len(),
    ensures
        intents_upto(head + tail, head.len() + n) == intents(head) + intents_upto(tail, n),
    decreases n,
{
    if n > 0 {
        lemma_intents_concat(head, tail, n - 1);
        assert((head + tail)[head.len() + n - 1] == tail[n - 1]);
        assert(head.len() + n - 1 == head.len() + (n - 1));
        let own = tail[n - 1].rows@.map_values(|row: PendingRow| (tail[n - 1].relation, row));
        assert(intents_upto(head + tail, head.len() + n) =~= intents_upto(
            head + tail,
            head.len() + n - 1,
        ) + own);
        assert(intents(head) + intents_upto(tail, n) =~= intents(head) + intents_upto(tail, n - 1)
            + own);
    } else {
        lemma_intents_of_prefix(head + tail, head, head.len() as int);
        assert(intents(head) + intents_upto(tail, 0) =~= intents(head));
    }
}

/// A run that stages every intent stages exactly the intents that it was given, after
/// those that were staged before.
pub proof fn law_runs_stage_their_intents<E>(
    rows: Seq<(RelationId, PendingRow)>,
    lead: spec_fn(int) -> Plan<E>,
    wrap: spec_fn(WriteTxnError) -> E,
    before: WriteTxn,
    after: WriteTxn,
    database: Database,
    scope: Predicates,
    log: Seq<Event>,
    log_after: Seq<Event>,
)
    requires
        runs(rows, lead, wrap, before, after, database, scope, log, log_after, None),
    ensures
        same_rows(intents(before.staged@) + rows, intents(after.staged@)),
        after.basis == before.basis,
{
    let (trace, failing) = choose|trace: Trace, failing: WriteBatch| #[trigger]
        run_of(
            trace, failing, rows, lead, wrap, before, after, database, scope, log, log_after, None,
        );
    let n = trace.singles.len() as int;
    assert(traces(trace, rows, n, lead, wrap, database, scope));
    assert(after.staged@ == before.staged@ + trace.singles);
    lemma_singles(trace.singles, rows, n);
    lemma_intents_concat(before.staged@, trace.singles, n);
    assert(rows.take(n) =~= rows);
    let all = intents(after.staged@);
    let given = intents(before.staged@) + rows;
    assert(all == intents(before.staged@) + intents_upto(trace.singles, n));
    let m = intents(before.staged@).len() as int;
    assert forall|i: int| 0 <= i < given.len() implies (#[trigger] given[i]).0 == all[i].0
        && same_intent(given[i].1, all[i].1) by {
        if i >= m {
            assert(given[i] == rows[i - m]);
            assert(all[i] == intents_upto(trace.singles, n)[i - m]);
            assert(rows.take(n)[i - m].0 == intents_upto(trace.singles, n)[i - m].0);
        }
    }
}

} // verus!
