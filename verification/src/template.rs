//! Prepared templates: the canonical net effects of one commit, by coordinate.

use vstd::prelude::*;
use crate::graph::{
    apply_edge_effect, apply_vertex_effect, clone_labels, edge_after, edge_after_rows, edge_view,
    edge_wf, edges_sorted, labels_sorted, vertex_after_rows, vertex_view, vertex_wf, DeltaRow,
    EdgeRecord, EdgeView, VertexRow,
};
use crate::ids::{CanonicalScalar, CommitSeq, EId, ElementId, LabelId, PropertyKeyId, RelationId, VId};
use crate::idset::IdMap;
use crate::props::{clone_props, props_sorted};

verus! {

/// The rows of one coordinate. Vertex effects carry no relation of their own.
#[derive(Debug)]
pub struct Coordinate {
    pub relation: Option<RelationId>,
    pub rows: Vec<DeltaRow>,
}

/// All canonical rows of one commit, in coordinate order.
#[derive(Debug)]
pub struct Template {
    pub coordinates: Vec<Coordinate>,
}

/// The rows of the first `n` coordinates, in order.
pub open spec fn rows_upto(coordinates: Seq<Coordinate>, n: int) -> Seq<DeltaRow>
    decreases n,
{
    if n <= 0 {
        Seq::empty()
    } else {
        rows_upto(coordinates, n - 1) + coordinates[n - 1].rows@
    }
}

impl Template {
    /// All rows in order.
    pub open spec fn rows(&self) -> Seq<DeltaRow> {
        rows_upto(self.coordinates@, self.coordinates@.len() as int)
    }

    pub open spec fn wf(&self) -> bool {
        forall|c: int, r: int|
            0 <= c < self.coordinates@.len() && 0 <= r < self.coordinates@[c].rows@.len()
                ==> (#[trigger] self.coordinates@[c].rows@[r]).wf()
    }
}

/// Whether a row is in canonical form.
fn row_is_wf(row: &DeltaRow) -> (canonical: bool)
    ensures
        canonical == row.wf(),
{
    match row {
        DeltaRow::CreateVertex { labels, props, .. } => labels_are_sorted(labels)
            && props_are_sorted(props),
        DeltaRow::CreateEdge { props, .. } => props_are_sorted(props),
        DeltaRow::DeleteVertex { sorted_retired_incident_edges, .. } => edges_are_sorted(
            sorted_retired_incident_edges,
        ),
        _ => true,
    }
}

pub fn props_are_sorted(props: &Vec<(PropertyKeyId, CanonicalScalar)>) -> (sorted: bool)
    ensures
        sorted == props_sorted(props@),
{
    let mut i: usize = 1;
    while i < props.len()
        invariant
            1 <= i,
            i <= props.len() || props.len() == 0,
            forall|a: int, b: int|
                0 <= a < b < i && b < props@.len() ==> props@[a].0.0 < props@[b].0.0,
        decreases props.len() - i,
    {
        if props[i - 1].0.0 >= props[i].0.0 {
            assert(!(props@[i - 1].0.0 < props@[i as int].0.0));
            return false;
        }
        i += 1;
    }
    true
}

pub fn labels_are_sorted(labels: &Vec<LabelId>) -> (sorted: bool)
    ensures
        sorted == labels_sorted(labels@),
{
    let mut i: usize = 1;
    while i < labels.len()
        invariant
            1 <= i,
            i <= labels.len() || labels.len() == 0,
            forall|a: int, b: int|
                0 <= a < b < i && b < labels@.len() ==> labels@[a].0 < labels@[b].0,
        decreases labels.len() - i,
    {
        if labels[i - 1].0 >= labels[i].0 {
            assert(!(labels@[i - 1].0 < labels@[i as int].0));
            return false;
        }
        i += 1;
    }
    true
}

pub fn edges_are_sorted(edges: &Vec<EId>) -> (sorted: bool)
    ensures
        sorted == edges_sorted(edges@),
{
    let mut i: usize = 1;
    while i < edges.len()
        invariant
            1 <= i,
            i <= edges.len() || edges.len() == 0,
            forall|a: int, b: int|
                0 <= a < b < i && b < edges@.len() ==> edges@[a].0 < edges@[b].0,
        decreases edges.len() - i,
    {
        if edges[i - 1].0 >= edges[i].0 {
            assert(!(edges@[i - 1].0 < edges@[i as int].0));
            return false;
        }
        i += 1;
    }
    true
}

impl Template {
    /// Whether every row is in canonical form.
    pub fn is_wf(&self) -> (canonical: bool)
        ensures
            canonical == self.wf(),
    {
        let mut c: usize = 0;
        while c < self.coordinates.len()
            invariant
                c <= self.coordinates.len(),
                forall|k: int, r: int|
                    0 <= k < c && 0 <= r < self.coordinates@[k].rows@.len()
                        ==> (#[trigger] self.coordinates@[k].rows@[r]).wf(),
            decreases self.coordinates.len() - c,
        {
            let coordinate = &self.coordinates[c];
            let mut r: usize = 0;
            while r < coordinate.rows.len()
                invariant
                    c < self.coordinates.len(),
                    *coordinate == self.coordinates@[c as int],
                    r <= coordinate.rows.len(),
                    forall|k: int| 0 <= k < r ==> (#[trigger] coordinate.rows@[k]).wf(),
                decreases coordinate.rows.len() - r,
            {
                if !row_is_wf(&coordinate.rows[r]) {
                    assert(!self.coordinates@[c as int].rows@[r as int].wf());
                    return false;
                }
                r += 1;
            }
            c += 1;
        }
        true
    }
}

/// Two rows say the same.
pub open spec fn same_row(left: DeltaRow, right: DeltaRow) -> bool {
    match (left, right) {
        (
            DeltaRow::CreateVertex { vid, birth_ordinal, labels, props },
            DeltaRow::CreateVertex { vid: v, birth_ordinal: b, labels: l, props: p },
        ) => vid == v && birth_ordinal == b && labels@ == l@ && props@ == p@,
        (
            DeltaRow::CreateEdge { eid, src, relation, dst, props },
            DeltaRow::CreateEdge { eid: e, src: s, relation: r, dst: d, props: p },
        ) => eid == e && src == s && relation == r && dst == d && props@ == p@,
        (
            DeltaRow::DeleteVertex { vid, sorted_retired_incident_edges },
            DeltaRow::DeleteVertex { vid: v, sorted_retired_incident_edges: e },
        ) => vid == v && sorted_retired_incident_edges@ == e@,
        _ => left == right,
    }
}

/// Two templates hold the same rows at the same coordinates.
pub open spec fn same_template(left: Template, right: Template) -> bool {
    &&& left.coordinates@.len() == right.coordinates@.len()
    &&& forall|c: int|
        0 <= c < left.coordinates@.len() ==> same_coordinate(
            #[trigger] left.coordinates@[c],
            right.coordinates@[c],
        )
}

pub open spec fn same_coordinate(left: Coordinate, right: Coordinate) -> bool {
    &&& left.relation == right.relation
    &&& left.rows@.len() == right.rows@.len()
    &&& forall|r: int|
        0 <= r < left.rows@.len() ==> same_row(#[trigger] left.rows@[r], right.rows@[r])
}

fn props_equal(
    left: &Vec<(PropertyKeyId, CanonicalScalar)>,
    right: &Vec<(PropertyKeyId, CanonicalScalar)>,
) -> (equal: bool)
    ensures
        equal == (left@ == right@),
{
    if left.len() != right.len() {
        return false;
    }
    let mut i: usize = 0;
    while i < left.len()
        invariant
            i <= left.len(),
            left.len() == right.len(),
            left@.take(i as int) =~= right@.take(i as int),
        decreases left.len() - i,
    {
        if left[i].0 != right[i].0 || left[i].1 != right[i].1 {
            assert(left@[i as int] != right@[i as int]);
            return false;
        }
        i += 1;
    }
    proof {
        assert(left@.take(i as int) =~= left@);
        assert(right@.take(i as int) =~= right@);
    }
    true
}

fn labels_equal(left: &Vec<LabelId>, right: &Vec<LabelId>) -> (equal: bool)
    ensures
        equal == (left@ == right@),
{
    if left.len() != right.len() {
        return false;
    }
    let mut i: usize = 0;
    while i < left.len()
        invariant
            i <= left.len(),
            left.len() == right.len(),
            left@.take(i as int) =~= right@.take(i as int),
        decreases left.len() - i,
    {
        if left[i] != right[i] {
            assert(left@[i as int] != right@[i as int]);
            return false;
        }
        i += 1;
    }
    proof {
        assert(left@.take(i as int) =~= left@);
        assert(right@.take(i as int) =~= right@);
    }
    true
}

fn edges_equal(left: &Vec<EId>, right: &Vec<EId>) -> (equal: bool)
    ensures
        equal == (left@ == right@),
{
    if left.len() != right.len() {
        return false;
    }
    let mut i: usize = 0;
    while i < left.len()
        invariant
            i <= left.len(),
            left.len() == right.len(),
            left@.take(i as int) =~= right@.take(i as int),
        decreases left.len() - i,
    {
        if left[i] != right[i] {
            assert(left@[i as int] != right@[i as int]);
            return false;
        }
        i += 1;
    }
    proof {
        assert(left@.take(i as int) =~= left@);
        assert(right@.take(i as int) =~= right@);
    }
    true
}

fn rows_equal(left: &DeltaRow, right: &DeltaRow) -> (equal: bool)
    ensures
        equal == same_row(*left, *right),
{
    match (left, right) {
        (
            DeltaRow::CreateVertex { vid, birth_ordinal, labels, props },
            DeltaRow::CreateVertex { vid: v, birth_ordinal: b, labels: l, props: p },
        ) => *vid == *v && *birth_ordinal == *b && labels_equal(labels, l) && props_equal(props, p),
        (
            DeltaRow::CreateEdge { eid, src, relation, dst, props },
            DeltaRow::CreateEdge { eid: e, src: s, relation: r, dst: d, props: p },
        ) => *eid == *e && *src == *s && *relation == *r && *dst == *d && props_equal(props, p),
        (
            DeltaRow::DeleteVertex { vid, sorted_retired_incident_edges },
            DeltaRow::DeleteVertex { vid: v, sorted_retired_incident_edges: e },
        ) => *vid == *v && edges_equal(sorted_retired_incident_edges, e),
        (DeltaRow::DeleteEdge { eid }, DeltaRow::DeleteEdge { eid: e }) => *eid == *e,
        (
            DeltaRow::LabelMembership { vid, label, after },
            DeltaRow::LabelMembership { vid: v, label: l, after: a },
        ) => *vid == *v && *label == *l && *after == *a,
        (
            DeltaRow::Property { elem, property, after },
            DeltaRow::Property { elem: e, property: p, after: a },
        ) => *elem == *e && *property == *p && scalars_equal(*after, *a),
        (DeltaRow::Schema { transition }, DeltaRow::Schema { transition: t }) => *transition == *t,
        _ => false,
    }
}

fn scalars_equal(left: Option<CanonicalScalar>, right: Option<CanonicalScalar>) -> (equal: bool)
    ensures
        equal == (left == right),
{
    match (left, right) {
        (Some(l), Some(r)) => l == r,
        (None, None) => true,
        _ => false,
    }
}

fn relations_equal(left: Option<RelationId>, right: Option<RelationId>) -> (equal: bool)
    ensures
        equal == (left == right),
{
    match (left, right) {
        (Some(l), Some(r)) => l == r,
        (None, None) => true,
        _ => false,
    }
}

impl Template {
    /// Whether another template holds the same rows at the same coordinates.
    pub fn matches_template(&self, other: &Template) -> (equal: bool)
        ensures
            equal == same_template(*self, *other),
    {
        if self.coordinates.len() != other.coordinates.len() {
            return false;
        }
        let mut c: usize = 0;
        while c < self.coordinates.len()
            invariant
                c <= self.coordinates.len(),
                self.coordinates.len() == other.coordinates.len(),
                forall|k: int|
                    0 <= k < c ==> same_coordinate(
                        #[trigger] self.coordinates@[k],
                        other.coordinates@[k],
                    ),
            decreases self.coordinates.len() - c,
        {
            let left = &self.coordinates[c];
            let right = &other.coordinates[c];
            if !relations_equal(left.relation, right.relation) || left.rows.len()
                != right.rows.len() {
                assert(!same_coordinate(self.coordinates@[c as int], other.coordinates@[c as int]));
                return false;
            }
            let mut r: usize = 0;
            while r < left.rows.len()
                invariant
                    c < self.coordinates.len(),
                    self.coordinates.len() == other.coordinates.len(),
                    *left == self.coordinates@[c as int],
                    *right == other.coordinates@[c as int],
                    left.relation == right.relation,
                    left.rows.len() == right.rows.len(),
                    r <= left.rows.len(),
                    forall|k: int|
                        0 <= k < r ==> same_row(#[trigger] left.rows@[k], right.rows@[k]),
                decreases left.rows.len() - r,
            {
                if !rows_equal(&left.rows[r], &right.rows[r]) {
                    assert(!same_row(left.rows@[r as int], right.rows@[r as int]));
                    assert(!same_coordinate(
                        self.coordinates@[c as int],
                        other.coordinates@[c as int],
                    ));
                    return false;
                }
                r += 1;
            }
            c += 1;
        }
        true
    }
}

/// The rows seen after `r` rows of coordinate `c`.
pub open spec fn rows_seen(coordinates: Seq<Coordinate>, c: int, r: int) -> Seq<DeltaRow> {
    rows_upto(coordinates, c) + coordinates[c].rows@.take(r)
}

/// Taking one more row of a coordinate appends it to what was seen.
pub proof fn lemma_rows_step(coordinates: Seq<Coordinate>, c: int, r: int)
    requires
        0 <= c < coordinates.len(),
        0 <= r < coordinates[c].rows@.len(),
    ensures
        rows_seen(coordinates, c, r + 1) == rows_seen(coordinates, c, r).push(
            coordinates[c].rows@[r],
        ),
{
    assert(rows_seen(coordinates, c, r + 1) =~= rows_seen(coordinates, c, r).push(
        coordinates[c].rows@[r],
    ));
}

/// A coordinate starts with the rows before it and ends with its own rows added.
pub proof fn lemma_rows_bounds(coordinates: Seq<Coordinate>, c: int)
    requires
        0 <= c < coordinates.len(),
    ensures
        rows_seen(coordinates, c, 0) == rows_upto(coordinates, c),
        rows_seen(coordinates, c, coordinates[c].rows@.len() as int) == rows_upto(
            coordinates,
            c + 1,
        ),
{
    assert(coordinates[c].rows@.take(0) =~= Seq::<DeltaRow>::empty());
    assert(rows_seen(coordinates, c, 0) =~= rows_upto(coordinates, c));
    assert(coordinates[c].rows@.take(coordinates[c].rows@.len() as int) =~= coordinates[c].rows@);
}

/// The rows seen so far are a prefix of all rows.
pub proof fn lemma_rows_prefix(coordinates: Seq<Coordinate>, n: int, m: int)
    requires
        0 <= n <= m <= coordinates.len(),
    ensures
        rows_upto(coordinates, n).len() <= rows_upto(coordinates, m).len(),
        rows_upto(coordinates, m).take(rows_upto(coordinates, n).len() as int) == rows_upto(
            coordinates,
            n,
        ),
    decreases m - n,
{
    if n < m {
        lemma_rows_prefix(coordinates, n, m - 1);
        let short = rows_upto(coordinates, m - 1);
        let long = rows_upto(coordinates, m);
        let len = rows_upto(coordinates, n).len() as int;
        assert(long.take(len) =~= short.take(len));
    } else {
        assert(rows_upto(coordinates, m).take(rows_upto(coordinates, m).len() as int)
            =~= rows_upto(coordinates, n));
    }
}

/// Every row of a well formed template is well formed.
pub proof fn lemma_rows_wf(template: Template, n: int)
    requires
        template.wf(),
        0 <= n <= template.coordinates@.len(),
    ensures
        forall|i: int|
            0 <= i < rows_upto(template.coordinates@, n).len() ==> (#[trigger] rows_upto(
                template.coordinates@,
                n,
            )[i]).wf(),
    decreases n,
{
    if n > 0 {
        lemma_rows_wf(template, n - 1);
        let before = rows_upto(template.coordinates@, n - 1);
        let rows = rows_upto(template.coordinates@, n);
        assert forall|i: int| 0 <= i < rows.len() implies (#[trigger] rows[i]).wf() by {
            if i < before.len() {
                assert(rows[i] == before[i]);
            } else {
                assert(rows[i] == template.coordinates@[n - 1].rows@[i - before.len()]);
            }
        }
    }
}

/// Runs of rows compose.
pub proof fn lemma_edge_after_push(
    current: Option<EdgeView>,
    eid: EId,
    rows: Seq<DeltaRow>,
    row: DeltaRow,
    at: CommitSeq,
)
    ensures
        edge_after_rows(current, eid, rows.push(row), at) == edge_after(
            edge_after_rows(current, eid, rows, at),
            eid,
            row,
            at,
        ),
{
    assert(rows.push(row).drop_last() =~= rows);
}

/// Apply every row of a template to one edge.
pub fn replay_edge(eid: EId, overlay: &mut Option<EdgeRecord>, template: &Template, at: CommitSeq)
    requires
        template.wf(),
        edge_wf(*old(overlay)),
    ensures
        edge_wf(*final(overlay)),
        edge_view(*final(overlay)) == edge_after_rows(
            edge_view(*old(overlay)),
            eid,
            template.rows(),
            at,
        ),
{
    let mut c: usize = 0;
    while c < template.coordinates.len()
        invariant
            c <= template.coordinates.len(),
            template.wf(),
            edge_wf(*overlay),
            edge_view(*overlay) == edge_after_rows(
                edge_view(*old(overlay)),
                eid,
                rows_upto(template.coordinates@, c as int),
                at,
            ),
        decreases template.coordinates.len() - c,
    {
        let coordinate = &template.coordinates[c];
        let mut r: usize = 0;
        proof {
            lemma_rows_bounds(template.coordinates@, c as int);
        }
        while r < coordinate.rows.len()
            invariant
                c < template.coordinates.len(),
                *coordinate == template.coordinates@[c as int],
                r <= coordinate.rows.len(),
                template.wf(),
                edge_wf(*overlay),
                edge_view(*overlay) == edge_after_rows(
                    edge_view(*old(overlay)),
                    eid,
                    rows_seen(template.coordinates@, c as int, r as int),
                    at,
                ),
            decreases coordinate.rows.len() - r,
        {
            proof {
                assert(template.coordinates@[c as int].rows@[r as int].wf());
                lemma_rows_step(template.coordinates@, c as int, r as int);
                lemma_edge_after_push(
                    edge_view(*old(overlay)),
                    eid,
                    rows_seen(template.coordinates@, c as int, r as int),
                    coordinate.rows@[r as int],
                    at,
                );
            }
            apply_edge_effect(eid, overlay, &coordinate.rows[r], at);
            r += 1;
        }
        proof {
            lemma_rows_bounds(template.coordinates@, c as int);
        }
        c += 1;
    }
}

/// Apply every row of a template to one vertex.
pub fn replay_vertex(vid: VId, overlay: &mut Option<VertexRow>, template: &Template)
    requires
        template.wf(),
        vertex_wf(*old(overlay)),
    ensures
        vertex_wf(*final(overlay)),
        vertex_view(*final(overlay)) == vertex_after_rows(
            vertex_view(*old(overlay)),
            vid,
            template.rows(),
        ),
{
    let mut c: usize = 0;
    while c < template.coordinates.len()
        invariant
            c <= template.coordinates.len(),
            template.wf(),
            vertex_wf(*overlay),
            vertex_view(*overlay) == vertex_after_rows(
                vertex_view(*old(overlay)),
                vid,
                rows_upto(template.coordinates@, c as int),
            ),
        decreases template.coordinates.len() - c,
    {
        let coordinate = &template.coordinates[c];
        let mut r: usize = 0;
        proof {
            lemma_rows_bounds(template.coordinates@, c as int);
        }
        while r < coordinate.rows.len()
            invariant
                c < template.coordinates.len(),
                *coordinate == template.coordinates@[c as int],
                r <= coordinate.rows.len(),
                template.wf(),
                vertex_wf(*overlay),
                vertex_view(*overlay) == vertex_after_rows(
                    vertex_view(*old(overlay)),
                    vid,
                    rows_seen(template.coordinates@, c as int, r as int),
                ),
            decreases coordinate.rows.len() - r,
        {
            proof {
                assert(template.coordinates@[c as int].rows@[r as int].wf());
                lemma_rows_step(template.coordinates@, c as int, r as int);
                let seen = rows_seen(template.coordinates@, c as int, r as int);
                assert(seen.push(coordinate.rows@[r as int]).drop_last() =~= seen);
            }
            apply_vertex_effect(vid, overlay, &coordinate.rows[r]);
            r += 1;
        }
        proof {
            lemma_rows_bounds(template.coordinates@, c as int);
        }
        c += 1;
    }
}

/// The edge found in a map of edges.
pub open spec fn edge_in(edges: IdMap<EdgeRecord>, eid: EId) -> Option<EdgeView> {
    if edges@.dom().contains(eid.0) {
        Some(edges@[eid.0]@)
    } else {
        None
    }
}

/// A map of edges holds each edge under its own identity.
pub open spec fn edges_wf(edges: IdMap<EdgeRecord>) -> bool {
    &&& edges.wf()
    &&& forall|key: u128| #[trigger] edges@.dom().contains(key) ==> edges@[key].wf()
        && edges@[key].entry.eid.0 == key
}

/// Apply one row to a whole map of edges. Single-edge effects are dispatched by
/// identity and a cascade walks its own edges once.
pub fn apply_row_to_edges(edges: &mut IdMap<EdgeRecord>, row: &DeltaRow, at: CommitSeq) -> (witness:
    Option<VId>)
    requires
        edges_wf(*old(edges)),
        row.wf(),
    ensures
        edges_wf(*final(edges)),
        forall|eid: EId| #[trigger]
            edge_in(*final(edges), eid) == edge_after(edge_in(*old(edges), eid), eid, *row, at),
        witness == match *row {
            DeltaRow::CreateEdge { src, .. } => Some(src),
            _ => None,
        },
{
    match row {
        DeltaRow::CreateEdge { eid, .. }
        | DeltaRow::DeleteEdge { eid }
        | DeltaRow::Property { elem: ElementId::Edge(eid), .. } => {
            let mut overlay = edges.remove(eid.0);
            let ghost removed = *edges;
            let witness = apply_edge_effect(*eid, &mut overlay, row, at);
            if let Some(record) = overlay {
                edges.insert(eid.0, record);
            }
            proof {
                assert forall|other: EId| #[trigger]
                    edge_in(*edges, other) == edge_after(
                        edge_in(*old(edges), other),
                        other,
                        *row,
                        at,
                    ) by {
                    if other.0 != eid.0 {
                        assert(other != *eid);
                        assert(edge_in(*edges, other) == edge_in(*old(edges), other));
                    } else {
                        assert(other == *eid);
                    }
                }
            }
            witness
        },
        DeltaRow::DeleteVertex { sorted_retired_incident_edges, .. } => {
            let mut i: usize = 0;
            while i < sorted_retired_incident_edges.len()
                invariant
                    i <= sorted_retired_incident_edges.len(),
                    edges_wf(*edges),
                    forall|eid: EId| #[trigger]
                        edge_in(*edges, eid) == (if sorted_retired_incident_edges@.take(
                            i as int,
                        ).contains(eid) {
                            None
                        } else {
                            edge_in(*old(edges), eid)
                        }),
                decreases sorted_retired_incident_edges.len() - i,
            {
                let retired = sorted_retired_incident_edges[i];
                let ghost before = *edges;
                edges.remove(retired.0);
                proof {
                    let seen = sorted_retired_incident_edges@.take(i as int);
                    let next = sorted_retired_incident_edges@.take(i + 1);
                    assert(next =~= seen.push(retired));
                    assert forall|eid: EId| #[trigger]
                        edge_in(*edges, eid) == (if next.contains(eid) {
                            None
                        } else {
                            edge_in(*old(edges), eid)
                        }) by {
                        assert(edge_in(before, eid) == (if seen.contains(eid) {
                            None
                        } else {
                            edge_in(*old(edges), eid)
                        }));
                        assert(next[i as int] == retired);
                        if next.contains(eid) && eid != retired {
                            let k = next.index_of(eid);
                            assert(seen[k] == eid);
                        }
                        if seen.contains(eid) {
                            let k = seen.index_of(eid);
                            assert(next[k] == eid);
                        }
                        if eid.0 == retired.0 {
                            assert(eid == retired);
                        }
                    }
                }
                i += 1;
            }
            proof {
                assert(sorted_retired_incident_edges@.take(i as int)
                    =~= sorted_retired_incident_edges@);
            }
            None
        },
        _ => None,
    }
}

/// Apply every row of a template to a whole map of edges.
pub fn replay_edges(edges: &mut IdMap<EdgeRecord>, template: &Template, at: CommitSeq)
    requires
        edges_wf(*old(edges)),
        template.wf(),
    ensures
        edges_wf(*final(edges)),
        forall|eid: EId| #[trigger]
            edge_in(*final(edges), eid) == edge_after_rows(
                edge_in(*old(edges), eid),
                eid,
                template.rows(),
                at,
            ),
{
    let mut c: usize = 0;
    while c < template.coordinates.len()
        invariant
            c <= template.coordinates.len(),
            template.wf(),
            edges_wf(*edges),
            forall|eid: EId| #[trigger]
                edge_in(*edges, eid) == edge_after_rows(
                    edge_in(*old(edges), eid),
                    eid,
                    rows_upto(template.coordinates@, c as int),
                    at,
                ),
        decreases template.coordinates.len() - c,
    {
        let coordinate = &template.coordinates[c];
        let mut r: usize = 0;
        proof {
            lemma_rows_bounds(template.coordinates@, c as int);
        }
        while r < coordinate.rows.len()
            invariant
                c < template.coordinates.len(),
                *coordinate == template.coordinates@[c as int],
                r <= coordinate.rows.len(),
                template.wf(),
                edges_wf(*edges),
                forall|eid: EId| #[trigger]
                    edge_in(*edges, eid) == edge_after_rows(
                        edge_in(*old(edges), eid),
                        eid,
                        rows_seen(template.coordinates@, c as int, r as int),
                        at,
                    ),
            decreases coordinate.rows.len() - r,
        {
            let ghost before = *edges;
            proof {
                assert(template.coordinates@[c as int].rows@[r as int].wf());
                lemma_rows_step(template.coordinates@, c as int, r as int);
            }
            apply_row_to_edges(edges, &coordinate.rows[r], at);
            proof {
                assert forall|eid: EId| #[trigger]
                    edge_in(*edges, eid) == edge_after_rows(
                        edge_in(*old(edges), eid),
                        eid,
                        rows_seen(template.coordinates@, c as int, r + 1),
                        at,
                    ) by {
                    lemma_edge_after_push(
                        edge_in(*old(edges), eid),
                        eid,
                        rows_seen(template.coordinates@, c as int, r as int),
                        coordinate.rows@[r as int],
                        at,
                    );
                    assert(edge_in(before, eid) == edge_after_rows(
                        edge_in(*old(edges), eid),
                        eid,
                        rows_seen(template.coordinates@, c as int, r as int),
                        at,
                    ));
                }
            }
            r += 1;
        }
        proof {
            lemma_rows_bounds(template.coordinates@, c as int);
        }
        c += 1;
    }
}

impl DeltaRow {
    pub fn copy(&self) -> (copy: DeltaRow)
        ensures
            same_row(*self, copy),
    {
        match self {
            DeltaRow::CreateVertex { vid, birth_ordinal, labels, props } => DeltaRow::CreateVertex {
                vid: *vid,
                birth_ordinal: *birth_ordinal,
                labels: clone_labels(labels),
                props: clone_props(props),
            },
            DeltaRow::CreateEdge { eid, src, relation, dst, props } => DeltaRow::CreateEdge {
                eid: *eid,
                src: *src,
                relation: *relation,
                dst: *dst,
                props: clone_props(props),
            },
            DeltaRow::DeleteVertex { vid, sorted_retired_incident_edges } => DeltaRow::DeleteVertex {
                vid: *vid,
                sorted_retired_incident_edges: clone_edges(sorted_retired_incident_edges),
            },
            DeltaRow::DeleteEdge { eid } => DeltaRow::DeleteEdge { eid: *eid },
            DeltaRow::LabelMembership { vid, label, after } => DeltaRow::LabelMembership {
                vid: *vid,
                label: *label,
                after: *after,
            },
            DeltaRow::Property { elem, property, after } => DeltaRow::Property {
                elem: *elem,
                property: *property,
                after: *after,
            },
            DeltaRow::Schema { transition } => DeltaRow::Schema { transition: *transition },
        }
    }
}

fn clone_edges(edges: &Vec<EId>) -> (copy: Vec<EId>)
    ensures
        copy@ == edges@,
{
    let mut copy: Vec<EId> = Vec::new();
    let mut i: usize = 0;
    while i < edges.len()
        invariant
            i <= edges.len(),
            copy@ == edges@.take(i as int),
        decreases edges.len() - i,
    {
        copy.push(edges[i]);
        i += 1;
        assert(edges@.take(i as int) =~= edges@.take(i - 1).push(edges@[i - 1]));
    }
    assert(edges@.take(i as int) =~= edges@);
    copy
}

impl Template {
    pub fn copy(&self) -> (copy: Template)
        requires
            self.wf(),
        ensures
            same_template(*self, copy),
            copy.wf(),
    {
        let mut coordinates: Vec<Coordinate> = Vec::new();
        let mut c: usize = 0;
        while c < self.coordinates.len()
            invariant
                c <= self.coordinates.len(),
                coordinates@.len() == c,
                forall|k: int|
                    0 <= k < c ==> same_coordinate(
                        #[trigger] self.coordinates@[k],
                        coordinates@[k],
                    ),
            decreases self.coordinates.len() - c,
        {
            let coordinate = &self.coordinates[c];
            let mut rows: Vec<DeltaRow> = Vec::new();
            let mut r: usize = 0;
            while r < coordinate.rows.len()
                invariant
                    r <= coordinate.rows.len(),
                    rows@.len() == r,
                    forall|k: int|
                        0 <= k < r ==> same_row(#[trigger] coordinate.rows@[k], rows@[k]),
                decreases coordinate.rows.len() - r,
            {
                rows.push(coordinate.rows[r].copy());
                r += 1;
            }
            coordinates.push(Coordinate { relation: coordinate.relation, rows });
            c += 1;
        }
        let copy = Template { coordinates };
        proof {
            assert forall|k: int, r: int|
                0 <= k < copy.coordinates@.len() && 0 <= r
                    < copy.coordinates@[k].rows@.len() implies (
            #[trigger] copy.coordinates@[k].rows@[r]).wf() by {
                assert(same_coordinate(self.coordinates@[k], copy.coordinates@[k]));
                assert(same_row(self.coordinates@[k].rows@[r], copy.coordinates@[k].rows@[r]));
            }
        }
        copy
    }
}

} // verus!
