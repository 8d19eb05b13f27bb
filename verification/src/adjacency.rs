//! Neighbour reads through the same canonical overlay as edge reads.

use vstd::prelude::*;
use crate::database::Database;
use crate::errors::WriteTxnError;
use crate::graph::{DeltaRow, EdgeRecord, EdgeView};
use crate::ids::{EId, ElementId, RelationId, VId};
use crate::idset::{ElementSet, IdMap, IdSet};
use crate::template::{
    edge_in, edges_wf, lemma_rows_bounds, lemma_rows_step, rows_seen, rows_upto, Template,
};
use crate::txn::{same_workspace, WriteTxn};

verus! {

/// One side of one relation at one vertex.
#[derive(Clone, Copy, PartialEq, Eq, Structural, Debug)]
pub struct Anchor {
    pub vertex: VId,
    pub relation: RelationId,
    pub incoming: bool,
}

impl Anchor {
    /// The neighbour that an edge from `src` to `dst` contributes.
    pub open spec fn neighbour(self, src: VId, relation: RelationId, dst: VId) -> Option<VId> {
        if relation != self.relation {
            None
        } else if self.incoming {
            if dst == self.vertex {
                Some(src)
            } else {
                None
            }
        } else if src == self.vertex {
            Some(dst)
        } else {
            None
        }
    }

    pub fn match_edge(self, src: VId, relation: RelationId, dst: VId) -> (neighbour: Option<VId>)
        ensures
            neighbour == self.neighbour(src, relation, dst),
    {
        let (anchor, neighbour) = if self.incoming {
            (dst, src)
        } else {
            (src, dst)
        };
        if anchor == self.vertex && relation == self.relation {
            Some(neighbour)
        } else {
            None
        }
    }

    /// The neighbour that an edge, if there is one, contributes.
    pub open spec fn of(self, edge: Option<EdgeView>) -> Option<VId> {
        match edge {
            Some(view) => self.neighbour(view.entry.src, view.entry.relation, view.entry.dst),
            None => None,
        }
    }

    /// The neighbour that edge `eid` contributes after one row.
    pub open spec fn after(self, current: Option<VId>, eid: EId, row: DeltaRow) -> Option<VId> {
        match row {
            DeltaRow::CreateEdge { eid: created, src, relation, dst, .. } => if created == eid {
                match self.neighbour(src, relation, dst) {
                    Some(vid) => Some(vid),
                    None => current,
                }
            } else {
                current
            },
            DeltaRow::DeleteEdge { eid: deleted } => if deleted == eid {
                None
            } else {
                current
            },
            DeltaRow::DeleteVertex { sorted_retired_incident_edges, .. } => if sorted_retired_incident_edges@.contains(
            eid) {
                None
            } else {
                current
            },
            _ => current,
        }
    }

    /// The neighbour that edge `eid` contributes after a run of rows.
    pub open spec fn after_rows(self, current: Option<VId>, eid: EId, rows: Seq<DeltaRow>) -> Option<
        VId,
    >
        decreases rows.len(),
    {
        if rows.len() == 0 {
            current
        } else {
            self.after(self.after_rows(current, eid, rows.drop_last()), eid, rows.last())
        }
    }

    /// A row creates edge `eid` at this anchor.
    pub open spec fn created_by(self, eid: EId, row: DeltaRow) -> bool {
        row matches DeltaRow::CreateEdge { eid: created, src, relation, dst, .. } && created == eid
            && self.neighbour(src, relation, dst) is Some
    }

    /// Row `at` deletes the vertex `vid`, and its cascade retires an edge that
    /// still contributes a neighbour here.
    pub open spec fn cascade_hits(
        self,
        basis: spec_fn(EId) -> Option<EdgeView>,
        rows: Seq<DeltaRow>,
        at: int,
        vid: VId,
    ) -> bool {
        rows[at] matches DeltaRow::DeleteVertex { vid: deleted, sorted_retired_incident_edges }
            && deleted == vid && exists|k: int|
            0 <= k < sorted_retired_incident_edges@.len() && self.after_rows(
                self.of(basis(#[trigger] sorted_retired_incident_edges@[k])),
                sorted_retired_incident_edges@[k],
                rows.take(at),
            ) is Some
    }

    /// Everything a neighbour read depends on.
    pub open spec fn witnesses(
        self,
        basis: spec_fn(EId) -> Option<EdgeView>,
        rows: Seq<DeltaRow>,
    ) -> Set<ElementId> {
        Set::new(
            |element: ElementId|
                match element {
                    ElementId::Edge(eid) => {
                        ||| self.of(basis(eid)) is Some
                        ||| exists|i: int|
                            0 <= i < rows.len() && self.created_by(eid, #[trigger] rows[i])
                    },
                    ElementId::Vertex(vid) => {
                        ||| vid == self.vertex
                        ||| exists|i: int|
                            0 <= i < rows.len() && #[trigger] self.cascade_hits(basis, rows, i, vid)
                    },
                },
        )
    }

    /// The list holds exactly the neighbours, each once, in increasing order.
    pub open spec fn lists_neighbours(
        self,
        neighbours: Seq<VId>,
        basis: spec_fn(EId) -> Option<EdgeView>,
        rows: Seq<DeltaRow>,
    ) -> bool {
        &&& forall|i: int, j: int|
            0 <= i < j < neighbours.len() ==> (#[trigger] neighbours[i]).0 < (
            #[trigger] neighbours[j]).0
        &&& forall|vid: VId| #[trigger]
            neighbours.contains(vid) <==> exists|eid: EId| #[trigger]
                self.after_rows(self.of(basis(eid)), eid, rows) == Some(vid)
    }
}

/// The neighbour recorded for an edge.
spec fn neighbour_in(matching: IdMap<VId>, eid: EId) -> Option<VId> {
    if matching@.dom().contains(eid.0) {
        Some(matching@[eid.0])
    } else {
        None
    }
}

/// The recorded vertices and edges so far, beside the anchor itself.
spec fn noticed(
    anchor: Anchor,
    basis: spec_fn(EId) -> Option<EdgeView>,
    rows: Seq<DeltaRow>,
    element: ElementId,
) -> bool {
    match element {
        ElementId::Edge(eid) => {
            ||| anchor.of(basis(eid)) is Some
            ||| exists|i: int| 0 <= i < rows.len() && anchor.created_by(eid, #[trigger] rows[i])
        },
        ElementId::Vertex(vid) => exists|i: int|
            0 <= i < rows.len() && #[trigger] anchor.cascade_hits(basis, rows, i, vid),
    }
}

/// The basis edges of an anchor, and the identities they were seen under.
fn basis_matching(edges: &IdMap<EdgeRecord>, anchor: Anchor) -> (found: (IdMap<VId>, ElementSet))
    requires
        edges_wf(*edges),
    ensures
        found.0.wf(),
        found.1.wf(),
        forall|eid: EId| #[trigger]
            neighbour_in(found.0, eid) == anchor.of(edge_in(*edges, eid)),
        forall|element: ElementId| #[trigger]
            found.1@.contains(element) == (element matches ElementId::Edge(eid) && anchor.of(
                edge_in(*edges, eid),
            ) is Some),
{
    let mut matching: IdMap<VId> = IdMap::new();
    let mut observed = ElementSet::new();
    let mut i: usize = 0;
    while i < edges.len()
        invariant
            i <= edges.key_seq().len(),
            edges_wf(*edges),
            matching.wf(),
            observed.wf(),
            forall|eid: EId| #[trigger]
                neighbour_in(matching, eid) == (if edges.key_seq().take(i as int).contains(eid.0) {
                    anchor.of(edge_in(*edges, eid))
                } else {
                    None
                }),
            forall|element: ElementId| #[trigger]
                observed@.contains(element) == (element matches ElementId::Edge(eid)
                    && neighbour_in(matching, eid) is Some),
        decreases edges.key_seq().len() - i,
    {
        let key: u128 = edges.key_at(i);
        let record = edges.value_at(i);
        let ghost before = matching;
        let ghost seen_before = observed@;
        let entry = record.entry;
        if let Some(neighbour) = anchor.match_edge(entry.src, entry.relation, entry.dst) {
            matching.insert(entry.eid.0, neighbour);
            observed.insert(ElementId::Edge(entry.eid));
        }
        proof {
            let seen = edges.key_seq().take(i as int);
            let next = edges.key_seq().take(i + 1);
            assert(next =~= seen.push(key));
            assert(edges@.dom().contains(key));
            assert(edge_in(*edges, EId(key)) == Some(record@));
            assert(!seen.contains(key)) by {
                if seen.contains(key) {
                    let k = seen.index_of(key);
                    assert(edges.key_seq()[k] < edges.key_seq()[i as int]);
                }
            }
            assert forall|eid: EId| #[trigger]
                neighbour_in(matching, eid) == (if next.contains(eid.0) {
                    anchor.of(edge_in(*edges, eid))
                } else {
                    None
                }) by {
                assert(neighbour_in(before, eid) == (if seen.contains(eid.0) {
                    anchor.of(edge_in(*edges, eid))
                } else {
                    None
                }));
                assert(next[i as int] == key);
                if next.contains(eid.0) && eid.0 != key {
                    let k = next.index_of(eid.0);
                    assert(seen[k] == eid.0);
                }
                if seen.contains(eid.0) {
                    let k = seen.index_of(eid.0);
                    assert(next[k] == eid.0);
                }
                if eid.0 == key {
                    assert(eid == EId(key));
                }
            }
            assert forall|element: ElementId| #[trigger]
                observed@.contains(element) == (element matches ElementId::Edge(eid)
                    && neighbour_in(matching, eid) is Some) by {
                if let ElementId::Edge(eid) = element {
                    assert(seen_before.contains(element) == (neighbour_in(before, eid) is Some));
                    if eid.0 == key {
                        assert(eid == entry.eid);
                    }
                } else {
                    assert(!seen_before.contains(element));
                }
            }
        }
        i += 1;
    }
    proof {
        assert(edges.key_seq().take(i as int) =~= edges.key_seq());
        assert forall|eid: EId| #[trigger]
            neighbour_in(matching, eid) == anchor.of(edge_in(*edges, eid)) by {
            assert(edges.key_seq().contains(eid.0) == edges@.dom().contains(eid.0));
        }
    }
    (matching, observed)
}

/// Apply one prepared row to the recorded neighbours of an anchor.
fn apply_row(anchor: Anchor, matching: &mut IdMap<VId>, observed: &mut ElementSet, row: &DeltaRow)
    requires
        old(matching).wf(),
        old(observed).wf(),
        row.wf(),
    ensures
        final(matching).wf(),
        final(observed).wf(),
        forall|eid: EId| #[trigger]
            neighbour_in(*final(matching), eid) == anchor.after(
                neighbour_in(*old(matching), eid),
                eid,
                *row,
            ),
        forall|element: ElementId| #[trigger]
            final(observed)@.contains(element) == (old(observed)@.contains(element) || (
            match element {
                ElementId::Edge(eid) => anchor.created_by(eid, *row),
                ElementId::Vertex(vid) => row matches DeltaRow::DeleteVertex {
                    vid: deleted,
                    sorted_retired_incident_edges,
                } && *deleted == vid && exists|k: int|
                    0 <= k < sorted_retired_incident_edges@.len() && neighbour_in(
                        *old(matching),
                        #[trigger] sorted_retired_incident_edges@[k],
                    ) is Some,
            })),
{
    match row {
        DeltaRow::CreateEdge { eid, src, relation, dst, .. } => {
            if let Some(neighbour) = anchor.match_edge(*src, *relation, *dst) {
                matching.insert(eid.0, neighbour);
                observed.insert(ElementId::Edge(*eid));
            }
            proof {
                assert forall|other: EId| #[trigger]
                    neighbour_in(*matching, other) == anchor.after(
                        neighbour_in(*old(matching), other),
                        other,
                        *row,
                    ) by {
                    if other.0 == eid.0 {
                        assert(other == *eid);
                    }
                }
            }
        },
        DeltaRow::DeleteEdge { eid } => {
            matching.remove(eid.0);
            proof {
                assert forall|other: EId| #[trigger]
                    neighbour_in(*matching, other) == anchor.after(
                        neighbour_in(*old(matching), other),
                        other,
                        *row,
                    ) by {
                    if other.0 == eid.0 {
                        assert(other == *eid);
                    }
                }
            }
        },
        DeltaRow::DeleteVertex { vid, sorted_retired_incident_edges } => {
            // Apply only the authoritative cascade image. Do not rescan every
            // surviving edge for each delete.
            let mut i: usize = 0;
            while i < sorted_retired_incident_edges.len()
                invariant
                    i <= sorted_retired_incident_edges.len(),
                    crate::graph::edges_sorted(sorted_retired_incident_edges@),
                    matching.wf(),
                    observed.wf(),
                    forall|eid: EId| #[trigger]
                        neighbour_in(*matching, eid) == (if sorted_retired_incident_edges@.take(
                            i as int,
                        ).contains(eid) {
                            None
                        } else {
                            neighbour_in(*old(matching), eid)
                        }),
                    observed@ =~= (if exists|k: int|
                        0 <= k < i && neighbour_in(
                            *old(matching),
                            #[trigger] sorted_retired_incident_edges@[k],
                        ) is Some {
                        old(observed)@.insert(ElementId::Vertex(*vid))
                    } else {
                        old(observed)@
                    }),
                decreases sorted_retired_incident_edges.len() - i,
            {
                let retired = sorted_retired_incident_edges[i];
                let ghost before = *matching;
                proof {
                    let seen = sorted_retired_incident_edges@.take(i as int);
                    assert(!seen.contains(retired)) by {
                        if seen.contains(retired) {
                            let k = seen.index_of(retired);
                            assert(sorted_retired_incident_edges@[k].0
                                < sorted_retired_incident_edges@[i as int].0);
                        }
                    }
                    assert(neighbour_in(before, retired) == neighbour_in(*old(matching), retired));
                }
                if matching.remove(retired.0).is_some() {
                    observed.insert(ElementId::Vertex(*vid));
                    assert(neighbour_in(
                        *old(matching),
                        sorted_retired_incident_edges@[i as int],
                    ) is Some);
                }
                proof {
                    let seen = sorted_retired_incident_edges@.take(i as int);
                    let next = sorted_retired_incident_edges@.take(i + 1);
                    assert(next =~= seen.push(retired));
                    assert forall|eid: EId| #[trigger]
                        neighbour_in(*matching, eid) == (if next.contains(eid) {
                            None
                        } else {
                            neighbour_in(*old(matching), eid)
                        }) by {
                        assert(neighbour_in(before, eid) == (if seen.contains(eid) {
                            None
                        } else {
                            neighbour_in(*old(matching), eid)
                        }));
                        assert(next[i as int] == retired);
                        if next.contains(eid) && eid != retired {
                            let k = next.index_of(eid);
                            assert(seen[k] == eid);
                        }
                        if seen.contains(eid) {
                            let k = seen.index_of(eid);
                            assert(next[k] == eid);
                        }
                        if eid.0 == retired.0 {
                            assert(eid == retired);
                        }
                    }
                }
                i += 1;
            }
            proof {
                assert(sorted_retired_incident_edges@.take(i as int)
                    =~= sorted_retired_incident_edges@);
            }
        },
        _ => {},
    }
}

/// One more row contributes its own witnesses.
proof fn lemma_noticed_push(
    anchor: Anchor,
    basis: spec_fn(EId) -> Option<EdgeView>,
    rows: Seq<DeltaRow>,
    row: DeltaRow,
    element: ElementId,
)
    ensures
        noticed(anchor, basis, rows.push(row), element) == (noticed(anchor, basis, rows, element)
            || (match element {
            ElementId::Edge(eid) => anchor.created_by(eid, row),
            ElementId::Vertex(vid) => anchor.cascade_hits(
                basis,
                rows.push(row),
                rows.len() as int,
                vid,
            ),
        })),
{
    let all = rows.push(row);
    match element {
        ElementId::Edge(eid) => {
            if exists|i: int| 0 <= i < rows.len() && anchor.created_by(eid, #[trigger] rows[i]) {
                let i = choose|i: int|
                    0 <= i < rows.len() && anchor.created_by(eid, #[trigger] rows[i]);
                assert(anchor.created_by(eid, all[i]));
            }
            if anchor.created_by(eid, row) {
                assert(anchor.created_by(eid, all[rows.len() as int]));
            }
            if exists|i: int| 0 <= i < all.len() && anchor.created_by(eid, #[trigger] all[i]) {
                let i = choose|i: int|
                    0 <= i < all.len() && anchor.created_by(eid, #[trigger] all[i]);
                if i < rows.len() {
                    assert(anchor.created_by(eid, rows[i]));
                }
            }
        },
        ElementId::Vertex(vid) => {
            assert forall|i: int| 0 <= i < rows.len() implies anchor.cascade_hits(
                basis,
                all,
                i,
                vid,
            ) == #[trigger] anchor.cascade_hits(basis, rows, i, vid) by {
                assert(all.take(i) =~= rows.take(i));
                assert(all[i] == rows[i]);
            }
            if exists|i: int|
                0 <= i < rows.len() && #[trigger] anchor.cascade_hits(basis, rows, i, vid) {
                let i = choose|i: int|
                    0 <= i < rows.len() && #[trigger] anchor.cascade_hits(basis, rows, i, vid);
                assert(anchor.cascade_hits(basis, all, i, vid));
            }
            if exists|i: int|
                0 <= i < all.len() && #[trigger] anchor.cascade_hits(basis, all, i, vid) {
                let i = choose|i: int|
                    0 <= i < all.len() && #[trigger] anchor.cascade_hits(basis, all, i, vid);
                if i < rows.len() {
                    assert(anchor.cascade_hits(basis, rows, i, vid));
                }
            }
        },
    }
}

/// Overlay a template on the recorded neighbours of an anchor.
fn overlay_matching(
    anchor: Anchor,
    matching: &mut IdMap<VId>,
    observed: &mut ElementSet,
    template: &Template,
    Ghost(basis): Ghost<spec_fn(EId) -> Option<EdgeView>>,
)
    requires
        old(matching).wf(),
        old(observed).wf(),
        template.wf(),
        forall|eid: EId| #[trigger] neighbour_in(*old(matching), eid) == anchor.of(basis(eid)),
        forall|element: ElementId| #[trigger]
            old(observed)@.contains(element) == noticed(anchor, basis, Seq::empty(), element),
    ensures
        final(matching).wf(),
        final(observed).wf(),
        forall|eid: EId| #[trigger]
            neighbour_in(*final(matching), eid) == anchor.after_rows(
                anchor.of(basis(eid)),
                eid,
                template.rows(),
            ),
        forall|element: ElementId| #[trigger]
            final(observed)@.contains(element) == noticed(
                anchor,
                basis,
                template.rows(),
                element,
            ),
{
    let mut c: usize = 0;
    while c < template.coordinates.len()
        invariant
            c <= template.coordinates.len(),
            template.wf(),
            matching.wf(),
            observed.wf(),
            forall|eid: EId| #[trigger]
                neighbour_in(*matching, eid) == anchor.after_rows(
                    anchor.of(basis(eid)),
                    eid,
                    rows_upto(template.coordinates@, c as int),
                ),
            forall|element: ElementId| #[trigger]
                observed@.contains(element) == noticed(
                    anchor,
                    basis,
                    rows_upto(template.coordinates@, c as int),
                    element,
                ),
        decreases template.coordinates.len() - c,
    {
        let coordinate = &template.coordinates[c];
        let mut r: usize = 0;
        proof {
            lemma_rows_bounds(template.coordinates@, c as int);
        }
        while r < coordinate.rows.len()
            invariant
                c < template.coordinates.len(),
                *coordinate == template.coordinates@[c as int],
                r <= coordinate.rows.len(),
                template.wf(),
                matching.wf(),
                observed.wf(),
                forall|eid: EId| #[trigger]
                    neighbour_in(*matching, eid) == anchor.after_rows(
                        anchor.of(basis(eid)),
                        eid,
                        rows_seen(template.coordinates@, c as int, r as int),
                    ),
                forall|element: ElementId| #[trigger]
                    observed@.contains(element) == noticed(
                        anchor,
                        basis,
                        rows_seen(template.coordinates@, c as int, r as int),
                        element,
                    ),
            decreases coordinate.rows.len() - r,
        {
            let row = &coordinate.rows[r];
            let ghost seen = rows_seen(template.coordinates@, c as int, r as int);
            let ghost before = *matching;
            let ghost known = observed@;
            proof {
                assert(template.coordinates@[c as int].rows@[r as int].wf());
                lemma_rows_step(template.coordinates@, c as int, r as int);
                assert(seen.push(*row).drop_last() =~= seen);
                assert(seen.push(*row).take(seen.len() as int) =~= seen);
            }
            apply_row(anchor, matching, observed, row);
            proof {
                let all = seen.push(*row);
                assert forall|eid: EId| #[trigger]
                    neighbour_in(*matching, eid) == anchor.after_rows(
                        anchor.of(basis(eid)),
                        eid,
                        all,
                    ) by {
                    assert(neighbour_in(before, eid) == anchor.after_rows(
                        anchor.of(basis(eid)),
                        eid,
                        seen,
                    ));
                }
                assert forall|element: ElementId| #[trigger]
                    observed@.contains(element) == noticed(anchor, basis, all, element) by {
                    lemma_noticed_push(anchor, basis, seen, *row, element);
                    assert(known.contains(element) == noticed(anchor, basis, seen, element));
                    if let ElementId::Vertex(vid) = element {
                        assert(all[seen.len() as int] == *row);
                        if let DeltaRow::DeleteVertex { vid: deleted, sorted_retired_incident_edges } =
                            *row {
                            let edges = sorted_retired_incident_edges@;
                            assert forall|k: int| 0 <= k < edges.len() implies neighbour_in(
                                before,
                                #[trigger] edges[k],
                            ) == anchor.after_rows(anchor.of(basis(edges[k])), edges[k], seen) by {}
                        }
                    }
                }
            }
            r += 1;
        }
        proof {
            lemma_rows_bounds(template.coordinates@, c as int);
        }
        c += 1;
    }
}

/// The distinct recorded neighbours in increasing order.
fn distinct_neighbours(matching: &IdMap<VId>) -> (neighbours: Vec<VId>)
    requires
        matching.wf(),
    ensures
        forall|i: int, j: int|
            0 <= i < j < neighbours@.len() ==> (#[trigger] neighbours@[i]).0 < (
            #[trigger] neighbours@[j]).0,
        forall|vid: VId| #[trigger]
            neighbours@.contains(vid) <==> exists|eid: EId| #[trigger]
                neighbour_in(*matching, eid) == Some(vid),
{
    let mut distinct = IdSet::new();
    let mut i: usize = 0;
    while i < matching.len()
        invariant
            i <= matching.key_seq().len(),
            matching.wf(),
            distinct.wf(),
            forall|raw: u128| #[trigger]
                distinct@.contains(raw) <==> exists|k: int|
                    0 <= k < i && (#[trigger] matching.value_seq()[k]).0 == raw,
        decreases matching.key_seq().len() - i,
    {
        let vid = matching.value_at(i);
        distinct.insert(vid.0);
        proof {
            assert(matching.value_seq()[i as int].0 == vid.0);
        }
        i += 1;
    }
    let mut neighbours: Vec<VId> = Vec::new();
    let mut k: usize = 0;
    while k < distinct.len()
        invariant
            k <= distinct.seq().len(),
            distinct.wf(),
            neighbours@.len() == k,
            forall|m: int| 0 <= m < k ==> neighbours@[m] == VId(#[trigger] distinct.seq()[m]),
        decreases distinct.seq().len() - k,
    {
        neighbours.push(VId(distinct.at(k)));
        k += 1;
    }
    proof {
        assert forall|a: int, b: int| 0 <= a < b < neighbours@.len() implies (
        #[trigger] neighbours@[a]).0 < (#[trigger] neighbours@[b]).0 by {
            assert(distinct.seq()[a] < distinct.seq()[b]);
        }
        assert forall|vid: VId| #[trigger]
            neighbours@.contains(vid) <==> exists|eid: EId| #[trigger]
                neighbour_in(*matching, eid) == Some(vid) by {
            if neighbours@.contains(vid) {
                let m = neighbours@.index_of(vid);
                assert(distinct.seq()[m] == vid.0);
                assert(distinct@.contains(vid.0));
                let p = choose|p: int|
                    0 <= p < matching.value_seq().len() && (
                    #[trigger] matching.value_seq()[p]).0 == vid.0;
                matching.lemma_position(p);
                assert(neighbour_in(*matching, EId(matching.key_seq()[p])) == Some(vid));
            }
            if exists|eid: EId| #[trigger] neighbour_in(*matching, eid) == Some(vid) {
                let eid = choose|eid: EId| #[trigger] neighbour_in(*matching, eid) == Some(vid);
                let p = matching.key_seq().index_of(eid.0);
                matching.lemma_position(p);
                assert(matching.value_seq()[p].0 == vid.0);
                assert(distinct@.contains(vid.0));
                let m = distinct.seq().index_of(vid.0);
                assert(neighbours@[m] == vid);
            }
        }
    }
    neighbours
}

impl WriteTxn {
    /// Read outgoing neighbours from the pinned basis plus prepared net effects.
    /// Parallel edges keep a neighbour live until its last edge is removed.
    pub fn neighbours(&mut self, database: &Database, src: VId, relation: RelationId) -> (neighbours:
        Result<Vec<VId>, WriteTxnError>)
        requires
            old(self).wf(),
            database.wf(),
        ensures
            final(self).wf(),
            neighbours_read(
                *old(self),
                *final(self),
                *database,
                Anchor { vertex: src, relation, incoming: false },
                neighbours,
            ),
    {
        self.adjacency_neighbours(database, Anchor { vertex: src, relation, incoming: false })
    }

    /// Read incoming neighbours through the same canonical overlay as outgoing
    /// reads, with the cascades of vertex deletions.
    pub fn in_neighbours(&mut self, database: &Database, dst: VId, relation: RelationId) -> (neighbours:
        Result<Vec<VId>, WriteTxnError>)
        requires
            old(self).wf(),
            database.wf(),
        ensures
            final(self).wf(),
            neighbours_read(
                *old(self),
                *final(self),
                *database,
                Anchor { vertex: dst, relation, incoming: true },
                neighbours,
            ),
    {
        self.adjacency_neighbours(database, Anchor { vertex: dst, relation, incoming: true })
    }

    /// Both directions share one walk. It is not an edge scan: that would turn a
    /// local expansion into a global conflict witness.
    pub fn adjacency_neighbours(&mut self, database: &Database, anchor: Anchor) -> (neighbours:
        Result<Vec<VId>, WriteTxnError>)
        requires
            old(self).wf(),
            database.wf(),
        ensures
            final(self).wf(),
            neighbours_read(*old(self), *final(self), *database, anchor, neighbours),
    {
        if let Err(error) = self.ensure_database(database) {
            return Err(error);
        }
        let edges = match database.edge_map_at(self.basis) {
            Ok(edges) => edges,
            Err(error) => return Err(error),
        };
        let ghost basis = |eid: EId| database.edge_at_spec(eid, self.basis);
        let (mut matching, mut observed) = basis_matching(&edges, anchor);
        proof {
            assert forall|eid: EId| #[trigger] neighbour_in(matching, eid) == anchor.of(
                basis(eid),
            ) by {
                assert(edge_in(edges, eid) == basis(eid));
            }
            assert forall|element: ElementId| #[trigger] observed@.contains(element) == noticed(
                anchor,
                basis,
                Seq::empty(),
                element,
            ) by {
                if let ElementId::Edge(eid) = element {
                    assert(edge_in(edges, eid) == basis(eid));
                }
            }
        }
        if let Some(prepared) = &self.prepared {
            overlay_matching(anchor, &mut matching, &mut observed, &prepared.template, Ghost(basis));
        }
        let ghost rows = self.prepared_rows();
        let ghost recorded = observed@;
        observed.insert(ElementId::Vertex(anchor.vertex));
        proof {
            assert forall|element: ElementId| #[trigger] observed@.contains(element)
                == anchor.witnesses(basis, rows).contains(element) by {
                assert(recorded.contains(element) == noticed(anchor, basis, rows, element));
            }
            assert(observed@ =~= anchor.witnesses(basis, rows));
        }
        self.read_set.extend(&observed);
        if !anchor.incoming {
            self.match_expansions.insert(anchor.vertex, anchor.relation);
        }
        // Deduplicate once, after applying all edge identities: deleting one
        // parallel edge never removes a surviving neighbour.
        let neighbours = distinct_neighbours(&matching);
        proof {
            assert forall|vid: VId| #[trigger]
                neighbours@.contains(vid) <==> exists|eid: EId| #[trigger]
                    anchor.after_rows(anchor.of(basis(eid)), eid, rows) == Some(vid) by {
                if exists|eid: EId| #[trigger] neighbour_in(matching, eid) == Some(vid) {
                    let eid = choose|eid: EId| #[trigger] neighbour_in(matching, eid) == Some(vid);
                    assert(anchor.after_rows(anchor.of(basis(eid)), eid, rows) == Some(vid));
                }
                if exists|eid: EId| #[trigger]
                    anchor.after_rows(anchor.of(basis(eid)), eid, rows) == Some(vid) {
                    let eid = choose|eid: EId| #[trigger]
                        anchor.after_rows(anchor.of(basis(eid)), eid, rows) == Some(vid);
                    assert(neighbour_in(matching, eid) == Some(vid));
                }
            }
        }
        Ok(neighbours)
    }
}

/// What a neighbour read returns and records.
pub open spec fn neighbours_read(
    before: WriteTxn,
    after: WriteTxn,
    database: Database,
    anchor: Anchor,
    neighbours: Result<Vec<VId>, WriteTxnError>,
) -> bool {
    let basis = |eid: EId| database.edge_at_spec(eid, before.basis);
    let rows = before.prepared_rows();
    &&& same_workspace(before, after)
    &&& after.scanned_vertex_labels == before.scanned_vertex_labels
    &&& after.scanned_vertices == before.scanned_vertices
    &&& after.scanned_edges == before.scanned_edges
    &&& match neighbours {
        Ok(list) => {
            &&& before.read_refusal(database) is None
            &&& anchor.lists_neighbours(list@, basis, rows)
            &&& after.read_set@ =~= before.read_set@.union(anchor.witnesses(basis, rows))
            &&& after.match_expansions@ =~= (if anchor.incoming {
                before.match_expansions@
            } else {
                before.match_expansions@.insert((anchor.vertex, anchor.relation))
            })
        },
        Err(error) => {
            &&& before.read_refusal(database) == Some(error)
            &&& after == before
        },
    }
}

} // verus!
