//! Edge and adjacency reads: the pinned snapshot under the prepared net effects.

use vstd::prelude::*;
use crate::batch::{intents, intents_upto, PendingRow, WriteBatch};
use crate::database::Database;
use crate::errors::WriteTxnError;
use crate::graph::{
    apply_edge_effect, edge_after_rows, edge_view, edge_witness, edge_wf, vertex_after_rows,
    vertex_view, vertex_wf, DeltaRow, EdgeRecord, EdgeView, VertexRow, VertexView,
};
use crate::ids::{CommitSeq, EId, ElementId, RelationId, VId};
use crate::idset::{lemma_push_to_set, ElementSet, IdMap, IdSet};
use crate::template::{
    apply_row_to_edges, edge_in, edges_wf, lemma_edge_after_push, lemma_rows_bounds,
    lemma_rows_step, replay_vertex, rows_seen, rows_upto, Template,
};
use crate::txn::{ownership_refusal, same_workspace, ExpansionSet, WriteTxn};

verus! {

/// The vertices a point read of an edge depends on: the source it had at the
/// basis, and every witness among the prepared rows.
pub open spec fn point_witnesses(
    basis: Option<EdgeView>,
    eid: EId,
    rows: Seq<DeltaRow>,
) -> Set<ElementId> {
    Set::new(
        |element: ElementId|
            match element {
                ElementId::Edge(edge) => edge == eid,
                ElementId::Vertex(vid) => {
                    ||| basis matches Some(edge) && edge.entry.src == vid
                    ||| exists|i: int|
                        0 <= i < rows.len() && edge_witness(eid, #[trigger] rows[i]) == Some(vid)
                },
            },
    )
}

impl WriteTxn {
    /// What the transaction sees of an edge.
    pub open spec fn overlay_edge(&self, database: Database, eid: EId) -> Option<EdgeView> {
        edge_after_rows(
            database.edge_at_spec(eid, self.basis),
            eid,
            self.prepared_rows(),
            self.basis,
        )
    }

    /// What the transaction sees of a vertex.
    pub open spec fn overlay_vertex(&self, database: Database, vid: VId) -> Option<VertexView> {
        vertex_after_rows(database.vertex_at_spec(vid, self.basis), vid, self.prepared_rows())
    }

    /// The refusal that any read meets.
    pub open spec fn read_refusal(&self, database: Database) -> Option<WriteTxnError> {
        match ownership_refusal(*self, database) {
            Some(error) => Some(error),
            None => database.history_refusal(self.basis),
        }
    }

    /// Read the pinned durable edge plus the exact prepared net effects.
    pub fn edge(&mut self, database: &Database, eid: EId) -> (edge: Result<
        Option<EdgeRecord>,
        WriteTxnError,
    >)
        requires
            old(self).wf(),
            database.wf(),
        ensures
            final(self).wf(),
            same_workspace(*old(self), *final(self)),
            final(self).match_expansions == old(self).match_expansions,
            final(self).scanned_vertex_labels == old(self).scanned_vertex_labels,
            final(self).scanned_vertices == old(self).scanned_vertices,
            final(self).scanned_edges == old(self).scanned_edges,
            match edge {
                Ok(record) => {
                    &&& old(self).read_refusal(*database) is None
                    &&& edge_wf(record)
                    &&& edge_view(record) == old(self).overlay_edge(*database, eid)
                    &&& final(self).read_set@ =~= old(self).read_set@.union(
                        point_witnesses(
                            database.edge_at_spec(eid, old(self).basis),
                            eid,
                            old(self).prepared_rows(),
                        ),
                    )
                },
                Err(error) => {
                    &&& old(self).read_refusal(*database) == Some(error)
                    &&& final(self).read_set == old(self).read_set
                },
            },
    {
        if let Err(error) = self.ensure_database(database) {
            return Err(error);
        }
        let overlay = match database.edge_at(eid, self.basis) {
            Ok(overlay) => overlay,
            Err(error) => return Err(error),
        };
        Ok(self.edge_over_basis(eid, overlay))
    }

    /// Overlay the prepared rows on one edge of the basis. Preparation already
    /// resolved ensure-by-triple, conditional no-ops and row order, so point and
    /// bulk reads overlay the same canonical rows that commit will publish.
    pub fn edge_over_basis(&mut self, eid: EId, basis: Option<EdgeRecord>) -> (overlay: Option<
        EdgeRecord,
    >)
        requires
            old(self).wf(),
            edge_wf(basis),
        ensures
            final(self).wf(),
            same_workspace(*old(self), *final(self)),
            final(self).match_expansions == old(self).match_expansions,
            final(self).scanned_vertex_labels == old(self).scanned_vertex_labels,
            final(self).scanned_vertices == old(self).scanned_vertices,
            final(self).scanned_edges == old(self).scanned_edges,
            edge_wf(overlay),
            edge_view(overlay) == edge_after_rows(
                edge_view(basis),
                eid,
                old(self).prepared_rows(),
                old(self).basis,
            ),
            final(self).read_set@ =~= old(self).read_set@.union(
                point_witnesses(edge_view(basis), eid, old(self).prepared_rows()),
            ),
    {
        let ghost start = edge_view(basis);
        let mut overlay = basis;
        let mut observed = ElementSet::new();
        observed.insert(ElementId::Edge(eid));
        if let Some(record) = &overlay {
            observed.insert(ElementId::Vertex(record.entry.src));
        }
        if let Some(prepared) = &self.prepared {
            let at: CommitSeq = self.basis;
            let template: &Template = &prepared.template;
            let mut c: usize = 0;
            while c < template.coordinates.len()
                invariant
                    c <= template.coordinates.len(),
                    template.wf(),
                    observed.wf(),
                    edge_wf(overlay),
                    edge_view(overlay) == edge_after_rows(
                        start,
                        eid,
                        rows_upto(template.coordinates@, c as int),
                        at,
                    ),
                    observed@ =~= point_witnesses(
                        start,
                        eid,
                        rows_upto(template.coordinates@, c as int),
                    ),
                decreases template.coordinates.len() - c,
            {
                let coordinate = &template.coordinates[c];
                let mut r: usize = 0;
                proof {
                    lemma_rows_bounds(template.coordinates@, c as int);
                }
                while r < coordinate.rows.len()
                    invariant
                        c < template.coordinates.len(),
                        *coordinate == template.coordinates@[c as int],
                        r <= coordinate.rows.len(),
                        template.wf(),
                        observed.wf(),
                        edge_wf(overlay),
                        edge_view(overlay) == edge_after_rows(
                            start,
                            eid,
                            rows_seen(template.coordinates@, c as int, r as int),
                            at,
                        ),
                        observed@ =~= point_witnesses(
                            start,
                            eid,
                            rows_seen(template.coordinates@, c as int, r as int),
                        ),
                    decreases coordinate.rows.len() - r,
                {
                    proof {
                        assert(template.coordinates@[c as int].rows@[r as int].wf());
                        lemma_rows_step(template.coordinates@, c as int, r as int);
                        let seen = rows_seen(template.coordinates@, c as int, r as int);
                        lemma_edge_after_push(start, eid, seen, coordinate.rows@[r as int], at);
                        lemma_point_witnesses_push(start, eid, seen, coordinate.rows@[r as int]);
                    }
                    if let Some(vertex) = apply_edge_effect(
                        eid,
                        &mut overlay,
                        &coordinate.rows[r],
                        at,
                    ) {
                        observed.insert(ElementId::Vertex(vertex));
                    }
                    r += 1;
                }
                proof {
                    lemma_rows_bounds(template.coordinates@, c as int);
                }
                c += 1;
            }
        }
        self.read_set.extend(&observed);
        overlay
    }

    /// Read one vertex of the pinned snapshot plus the prepared net effects.
    pub fn vertex(&mut self, database: &Database, vid: VId) -> (vertex: Result<
        Option<VertexRow>,
        WriteTxnError,
    >)
        requires
            old(self).wf(),
            database.wf(),
        ensures
            final(self).wf(),
            same_workspace(*old(self), *final(self)),
            final(self).match_expansions == old(self).match_expansions,
            final(self).scanned_vertex_labels == old(self).scanned_vertex_labels,
            final(self).scanned_vertices == old(self).scanned_vertices,
            final(self).scanned_edges == old(self).scanned_edges,
            match vertex {
                Ok(row) => {
                    &&& old(self).read_refusal(*database) is None
                    &&& vertex_wf(row)
                    &&& vertex_view(row) == old(self).overlay_vertex(*database, vid)
                    &&& final(self).read_set@ =~= old(self).read_set@.insert(ElementId::Vertex(vid))
                },
                Err(error) => {
                    &&& old(self).read_refusal(*database) == Some(error)
                    &&& final(self).read_set == old(self).read_set
                },
            },
    {
        if let Err(error) = self.ensure_database(database) {
            return Err(error);
        }
        let mut overlay = match database.vertex_at(vid, self.basis) {
            Ok(overlay) => overlay,
            Err(error) => return Err(error),
        };
        if let Some(prepared) = &self.prepared {
            replay_vertex(vid, &mut overlay, &prepared.template);
        }
        self.read_set.insert(ElementId::Vertex(vid));
        Ok(overlay)
    }
}

/// The edge an intent names by identity.
pub open spec fn named_edge(row: PendingRow) -> Option<EId> {
    match row {
        PendingRow::Edge { eid, .. } => Some(eid),
        PendingRow::DeleteEdge { eid, .. } => Some(eid),
        PendingRow::SetEdgeProperty { eid, .. } => Some(eid),
        PendingRow::CompareAndSet { elem: ElementId::Edge(eid), .. } => Some(eid),
        _ => None,
    }
}

/// Some of these intents names the edge.
pub open spec fn names_edge(rows: Seq<(RelationId, PendingRow)>, eid: EId) -> bool {
    exists|i: int| 0 <= i < rows.len() && named_edge((#[trigger] rows[i]).1) == Some(eid)
}

/// The list holds exactly the edges of `graph`, by increasing identity.
pub open spec fn lists_edges(records: Seq<EdgeRecord>, graph: spec_fn(EId) -> Option<EdgeView>) -> bool {
    &&& forall|i: int|
        0 <= i < records.len() ==> (#[trigger] records[i]).wf() && graph(records[i].entry.eid)
            == Some(records[i]@)
    &&& forall|i: int, j: int|
        0 <= i < j < records.len() ==> (#[trigger] records[i]).entry.eid.0 < (
        #[trigger] records[j]).entry.eid.0
    &&& forall|eid: EId| #[trigger]
        graph(eid) is Some ==> exists|i: int|
            0 <= i < records.len() && (#[trigger] records[i]).entry.eid == eid
}

/// Some edge of `graph` starts at the vertex.
pub open spec fn is_source(graph: spec_fn(EId) -> Option<EdgeView>, vid: VId) -> bool {
    exists|eid: EId| (#[trigger] graph(eid)) matches Some(edge) && edge.entry.src == vid
}

/// Some edge of the map starts at the vertex.
spec fn source_in(edges: IdMap<EdgeRecord>, vid: VId) -> bool {
    exists|eid: EId| (#[trigger] edge_in(edges, eid)) matches Some(edge) && edge.entry.src == vid
}

/// The vertex that a row makes a scan depend on: the source of a creation, or a
/// deleted vertex whose cascade retires a known edge.
pub open spec fn scan_witness(row: DeltaRow, known: Set<u128>) -> Option<VId> {
    match row {
        DeltaRow::CreateEdge { src, .. } => Some(src),
        DeltaRow::DeleteVertex { vid, sorted_retired_incident_edges } => if exists|i: int|
            0 <= i < sorted_retired_incident_edges@.len() && known.contains(
                (#[trigger] sorted_retired_incident_edges@[i]).0,
            ) {
            Some(vid)
        } else {
            None
        },
        _ => None,
    }
}

/// Some row makes a scan depend on the vertex.
pub open spec fn scan_witnessed(rows: Seq<DeltaRow>, known: Set<u128>, vid: VId) -> bool {
    exists|i: int| 0 <= i < rows.len() && scan_witness(#[trigger] rows[i], known) == Some(vid)
}

/// The identities that a scan knows before it looks at the prepared rows: the
/// edges of the basis and those that staged intents name.
pub open spec fn known_edges(
    basis: spec_fn(EId) -> Option<EdgeView>,
    staged: Seq<WriteBatch>,
) -> Set<u128> {
    Set::new(|raw: u128| basis(EId(raw)) is Some || names_edge(intents(staged), EId(raw)))
}

/// Everything a full edge scan depends on.
pub open spec fn scan_witnesses(
    basis: spec_fn(EId) -> Option<EdgeView>,
    overlay: spec_fn(EId) -> Option<EdgeView>,
    staged: Seq<WriteBatch>,
    rows: Seq<DeltaRow>,
) -> Set<ElementId> {
    let known = known_edges(basis, staged);
    Set::new(
        |element: ElementId|
            match element {
                ElementId::Edge(eid) => known.contains(eid.0) || overlay(eid) is Some,
                ElementId::Vertex(vid) => {
                    ||| is_source(basis, vid)
                    ||| scan_witnessed(rows, known, vid)
                    ||| is_source(overlay, vid)
                },
            },
    )
}

/// The identities held by a map of edges.
fn edge_ids(edges: &IdMap<EdgeRecord>) -> (ids: IdSet)
    requires
        edges.wf(),
    ensures
        ids.wf(),
        ids@ =~= edges@.dom(),
{
    let mut ids = IdSet::new();
    let mut i: usize = 0;
    while i < edges.len()
        invariant
            i <= edges.key_seq().len(),
            edges.wf(),
            ids.wf(),
            ids@ =~= edges.key_seq().take(i as int).to_set(),
        decreases edges.key_seq().len() - i,
    {
        let key: u128 = edges.key_at(i);
        ids.insert(key);
        proof {
            let seen = edges.key_seq().take(i as int);
            assert(edges.key_seq().take(i + 1) =~= seen.push(key));
            lemma_push_to_set(seen, key);
        }
        i += 1;
    }
    proof {
        assert(edges.key_seq().take(i as int) =~= edges.key_seq());
    }
    ids
}

/// Record the source of every edge in a map.
fn observe_sources(edges: &IdMap<EdgeRecord>, observed: &mut ElementSet)
    requires
        edges.wf(),
        old(observed).wf(),
    ensures
        final(observed).wf(),
        forall|element: ElementId| #[trigger]
            final(observed)@.contains(element) == (old(observed)@.contains(element) || (
            element matches ElementId::Vertex(vid) && source_in(*edges, vid))),
{
    let mut i: usize = 0;
    while i < edges.len()
        invariant
            i <= edges.key_seq().len(),
            edges.wf(),
            observed.wf(),
            forall|element: ElementId|
                old(observed)@.contains(element) ==> #[trigger] observed@.contains(element),
            forall|element: ElementId| #[trigger]
                observed@.contains(element) ==> old(observed)@.contains(element) || (
                element matches ElementId::Vertex(vid) && source_in(*edges, vid)),
            forall|k: int|
                0 <= k < i ==> observed@.contains(
                    ElementId::Vertex((#[trigger] edges.value_seq()[k]).entry.src),
                ),
        decreases edges.key_seq().len() - i,
    {
        let record = edges.value_at(i);
        proof {
            edges.lemma_position(i as int);
            let key = edges.key_seq()[i as int];
            assert(edge_in(*edges, EId(key)) == Some(record@));
        }
        observed.insert(ElementId::Vertex(record.entry.src));
        i += 1;
    }
    proof {
        assert forall|vid: VId| source_in(*edges, vid) implies observed@.contains(
            ElementId::Vertex(vid),
        ) by {
            let eid = choose|eid: EId|
                (#[trigger] edge_in(*edges, eid)) matches Some(edge) && edge.entry.src == vid;
            let k = edges.key_seq().index_of(eid.0);
            edges.lemma_position(k);
            assert(edges.value_seq()[k].entry.src == vid);
        }
    }
}

/// Record the identities that staged intents name.
fn staged_edge_ids(staged: &Vec<WriteBatch>, ids: &mut IdSet)
    requires
        old(ids).wf(),
    ensures
        final(ids).wf(),
        forall|raw: u128| #[trigger]
            final(ids)@.contains(raw) == (old(ids)@.contains(raw) || names_edge(
                intents(staged@),
                EId(raw),
            )),
{
    let mut b: usize = 0;
    while b < staged.len()
        invariant
            b <= staged.len(),
            ids.wf(),
            forall|raw: u128| #[trigger]
                ids@.contains(raw) == (old(ids)@.contains(raw) || names_edge(
                    intents_upto(staged@, b as int),
                    EId(raw),
                )),
        decreases staged.len() - b,
    {
        let batch = &staged[b];
        let ghost seen = intents_upto(staged@, b as int);
        let ghost own = batch.rows@.map_values(|row: PendingRow| (batch.relation, row));
        let mut r: usize = 0;
        proof {
            assert(seen + own.take(0) =~= seen);
        }
        while r < batch.rows.len()
            invariant
                b < staged.len(),
                *batch == staged@[b as int],
                r <= batch.rows.len(),
                ids.wf(),
                own == batch.rows@.map_values(|row: PendingRow| (batch.relation, row)),
                forall|raw: u128| #[trigger]
                    ids@.contains(raw) == (old(ids)@.contains(raw) || names_edge(
                        seen + own.take(r as int),
                        EId(raw),
                    )),
            decreases batch.rows.len() - r,
        {
            let ghost before = ids@;
            let ghost rows = seen + own.take(r as int);
            let ghost next = seen + own.take(r + 1);
            let ghost row = batch.rows@[r as int];
            proof {
                assert(next =~= rows.push((batch.relation, row)));
            }
            match &batch.rows[r] {
                PendingRow::Edge { eid, .. }
                | PendingRow::DeleteEdge { eid, .. }
                | PendingRow::SetEdgeProperty { eid, .. }
                | PendingRow::CompareAndSet { elem: ElementId::Edge(eid), .. } => {
                    ids.insert(eid.0);
                },
                _ => {},
            }
            proof {
                assert forall|raw: u128| #[trigger]
                    ids@.contains(raw) == (old(ids)@.contains(raw) || names_edge(
                        next,
                        EId(raw),
                    )) by {
                    lemma_names_push(rows, (batch.relation, row), EId(raw));
                    assert(before.contains(raw) == (old(ids)@.contains(raw) || names_edge(
                        rows,
                        EId(raw),
                    )));
                }
            }
            r += 1;
        }
        proof {
            assert(own.take(r as int) =~= own);
            assert(seen + own =~= intents_upto(staged@, b + 1));
        }
        b += 1;
    }
}

proof fn lemma_names_push(
    rows: Seq<(RelationId, PendingRow)>,
    row: (RelationId, PendingRow),
    eid: EId,
)
    ensures
        names_edge(rows.push(row), eid) == (names_edge(rows, eid) || named_edge(row.1) == Some(eid)),
{
    let all = rows.push(row);
    if names_edge(rows, eid) {
        let i = choose|i: int| 0 <= i < rows.len() && named_edge((#[trigger] rows[i]).1) == Some(eid);
        assert(named_edge(all[i].1) == Some(eid));
    }
    if named_edge(row.1) == Some(eid) {
        assert(named_edge(all[rows.len() as int].1) == Some(eid));
    }
    if names_edge(all, eid) {
        let i = choose|i: int| 0 <= i < all.len() && named_edge((#[trigger] all[i]).1) == Some(eid);
        if i < rows.len() {
            assert(named_edge(rows[i].1) == Some(eid));
        }
    }
}

/// Record what one prepared row makes a scan depend on.
fn observe_row(row: &DeltaRow, known: &IdSet, observed: &mut ElementSet)
    requires
        known.wf(),
        old(observed).wf(),
    ensures
        final(observed).wf(),
        final(observed)@ =~= (match scan_witness(*row, known@) {
            Some(vid) => old(observed)@.insert(ElementId::Vertex(vid)),
            None => old(observed)@,
        }),
{
    match row {
        DeltaRow::CreateEdge { src, .. } => {
            observed.insert(ElementId::Vertex(*src));
        },
        DeltaRow::DeleteVertex { vid, sorted_retired_incident_edges } => {
            let mut i: usize = 0;
            while i < sorted_retired_incident_edges.len()
                invariant
                    i <= sorted_retired_incident_edges.len(),
                    known.wf(),
                    observed.wf(),
                    observed@ =~= (if exists|k: int|
                        0 <= k < i && known@.contains(
                            (#[trigger] sorted_retired_incident_edges@[k]).0,
                        ) {
                        old(observed)@.insert(ElementId::Vertex(*vid))
                    } else {
                        old(observed)@
                    }),
                decreases sorted_retired_incident_edges.len() - i,
            {
                // A preceding delete must not erase the later cascade's
                // observation of this identity.
                if known.contains(sorted_retired_incident_edges[i].0) {
                    observed.insert(ElementId::Vertex(*vid));
                    assert(known@.contains(sorted_retired_incident_edges@[i as int].0));
                }
                i += 1;
            }
        },
        _ => {},
    }
}

proof fn lemma_scan_push(rows: Seq<DeltaRow>, row: DeltaRow, known: Set<u128>, vid: VId)
    ensures
        scan_witnessed(rows.push(row), known, vid) == (scan_witnessed(rows, known, vid)
            || scan_witness(row, known) == Some(vid)),
{
    let all = rows.push(row);
    if scan_witnessed(rows, known, vid) {
        let i = choose|i: int|
            0 <= i < rows.len() && scan_witness(#[trigger] rows[i], known) == Some(vid);
        assert(scan_witness(all[i], known) == Some(vid));
    }
    if scan_witness(row, known) == Some(vid) {
        assert(scan_witness(all[rows.len() as int], known) == Some(vid));
    }
    if scan_witnessed(all, known, vid) {
        let i = choose|i: int|
            0 <= i < all.len() && scan_witness(#[trigger] all[i], known) == Some(vid);
        if i < rows.len() {
            assert(scan_witness(rows[i], known) == Some(vid));
        }
    }
}

/// Overlay a template on a map of edges and record what the scan depends on.
fn overlay_scan(
    edges: &mut IdMap<EdgeRecord>,
    template: &Template,
    at: CommitSeq,
    known: &IdSet,
    observed: &mut ElementSet,
)
    requires
        edges_wf(*old(edges)),
        template.wf(),
        known.wf(),
        old(observed).wf(),
    ensures
        edges_wf(*final(edges)),
        final(observed).wf(),
        forall|eid: EId| #[trigger]
            edge_in(*final(edges), eid) == edge_after_rows(
                edge_in(*old(edges), eid),
                eid,
                template.rows(),
                at,
            ),
        forall|element: ElementId| #[trigger]
            final(observed)@.contains(element) == (old(observed)@.contains(element) || (
            element matches ElementId::Vertex(vid) && scan_witnessed(
                template.rows(),
                known@,
                vid,
            ))),
{
    let mut c: usize = 0;
    while c < template.coordinates.len()
        invariant
            c <= template.coordinates.len(),
            template.wf(),
            known.wf(),
            observed.wf(),
            edges_wf(*edges),
            forall|eid: EId| #[trigger]
                edge_in(*edges, eid) == edge_after_rows(
                    edge_in(*old(edges), eid),
                    eid,
                    rows_upto(template.coordinates@, c as int),
                    at,
                ),
            forall|element: ElementId| #[trigger]
                observed@.contains(element) == (old(observed)@.contains(element) || (
                element matches ElementId::Vertex(vid) && scan_witnessed(
                    rows_upto(template.coordinates@, c as int),
                    known@,
                    vid,
                ))),
        decreases template.coordinates.len() - c,
    {
        let coordinate = &template.coordinates[c];
        let mut r: usize = 0;
        proof {
            lemma_rows_bounds(template.coordinates@, c as int);
        }
        while r < coordinate.rows.len()
            invariant
                c < template.coordinates.len(),
                *coordinate == template.coordinates@[c as int],
                r <= coordinate.rows.len(),
                template.wf(),
                known.wf(),
                observed.wf(),
                edges_wf(*edges),
                forall|eid: EId| #[trigger]
                    edge_in(*edges, eid) == edge_after_rows(
                        edge_in(*old(edges), eid),
                        eid,
                        rows_seen(template.coordinates@, c as int, r as int),
                        at,
                    ),
                forall|element: ElementId| #[trigger]
                    observed@.contains(element) == (old(observed)@.contains(element) || (
                    element matches ElementId::Vertex(vid) && scan_witnessed(
                        rows_seen(template.coordinates@, c as int, r as int),
                        known@,
                        vid,
                    ))),
            decreases coordinate.rows.len() - r,
        {
            let row = &coordinate.rows[r];
            let ghost seen = rows_seen(template.coordinates@, c as int, r as int);
            let ghost before = *edges;
            let ghost noticed = observed@;
            proof {
                assert(template.coordinates@[c as int].rows@[r as int].wf());
                lemma_rows_step(template.coordinates@, c as int, r as int);
            }
            observe_row(row, known, observed);
            apply_row_to_edges(edges, row, at);
            proof {
                assert forall|eid: EId| #[trigger]
                    edge_in(*edges, eid) == edge_after_rows(
                        edge_in(*old(edges), eid),
                        eid,
                        seen.push(*row),
                        at,
                    ) by {
                    lemma_edge_after_push(edge_in(*old(edges), eid), eid, seen, *row, at);
                    assert(edge_in(before, eid) == edge_after_rows(
                        edge_in(*old(edges), eid),
                        eid,
                        seen,
                        at,
                    ));
                }
                assert forall|element: ElementId| #[trigger]
                    observed@.contains(element) == (old(observed)@.contains(element) || (
                    element matches ElementId::Vertex(vid) && scan_witnessed(
                        seen.push(*row),
                        known@,
                        vid,
                    ))) by {
                    if let ElementId::Vertex(vid) = element {
                        lemma_scan_push(seen, *row, known@, vid);
                        assert(noticed.contains(element) == (old(observed)@.contains(element)
                            || scan_witnessed(seen, known@, vid)));
                    } else {
                        assert(noticed.contains(element) == old(observed)@.contains(element));
                    }
                }
            }
            r += 1;
        }
        proof {
            lemma_rows_bounds(template.coordinates@, c as int);
        }
        c += 1;
    }
}

proof fn lemma_same_sources(
    edges: IdMap<EdgeRecord>,
    graph: spec_fn(EId) -> Option<EdgeView>,
    vid: VId,
)
    requires
        forall|eid: EId| #[trigger] edge_in(edges, eid) == graph(eid),
    ensures
        source_in(edges, vid) == is_source(graph, vid),
{
    if source_in(edges, vid) {
        let eid = choose|eid: EId|
            (#[trigger] edge_in(edges, eid)) matches Some(edge) && edge.entry.src == vid;
        assert(graph(eid) == edge_in(edges, eid));
    }
    if is_source(graph, vid) {
        let eid = choose|eid: EId|
            (#[trigger] graph(eid)) matches Some(edge) && edge.entry.src == vid;
        assert(edge_in(edges, eid) == graph(eid));
    }
}

impl WriteTxn {
    /// Read all pinned edges with their prepared net effects. Empty scans
    /// retain an insertion witness even when every observed row is deleted.
    pub fn edges(&mut self, database: &Database) -> (edges: Result<Vec<EdgeRecord>, WriteTxnError>)
        requires
            old(self).wf(),
            database.wf(),
        ensures
            final(self).wf(),
            same_workspace(*old(self), *final(self)),
            final(self).scanned_vertex_labels == old(self).scanned_vertex_labels,
            final(self).scanned_vertices == old(self).scanned_vertices,
            match edges {
                Ok(records) => {
                    let basis = |eid: EId| database.edge_at_spec(eid, old(self).basis);
                    let overlay = |eid: EId| old(self).overlay_edge(*database, eid);
                    &&& old(self).read_refusal(*database) is None
                    &&& lists_edges(records@, overlay)
                    &&& final(self).scanned_edges
                    &&& final(self).read_set@ =~= old(self).read_set@.union(
                        scan_witnesses(
                            basis,
                            overlay,
                            old(self).staged@,
                            old(self).prepared_rows(),
                        ),
                    )
                    &&& forall|pair: (VId, RelationId)| #[trigger]
                        final(self).match_expansions@.contains(pair) == (old(
                            self,
                        ).match_expansions@.contains(pair) || exists|i: int|
                            0 <= i < records@.len() && (#[trigger] records@[i]).entry.src == pair.0
                                && records@[i].entry.relation == pair.1)
                },
                Err(error) => {
                    &&& old(self).read_refusal(*database) == Some(error)
                    &&& *final(self) == *old(self)
                },
            },
    {
        if let Err(error) = self.ensure_database(database) {
            return Err(error);
        }
        let mut edges = match database.edge_map_at(self.basis) {
            Ok(edges) => edges,
            Err(error) => return Err(error),
        };
        let ghost basis = |eid: EId| database.edge_at_spec(eid, self.basis);
        let ghost overlay = |eid: EId| self.overlay_edge(*database, eid);
        let ghost base = edges;
        self.scanned_edges = true;
        let mut known = edge_ids(&edges);
        // Retain absent identities as negative-read dependencies, but only
        // actual prepared creations can materialize rows.
        staged_edge_ids(&self.staged, &mut known);
        proof {
            assert forall|raw: u128| #[trigger] known@.contains(raw) == known_edges(
                basis,
                self.staged@,
            ).contains(raw) by {
                assert(edge_in(edges, EId(raw)) == basis(EId(raw)));
            }
            assert(known@ =~= known_edges(basis, self.staged@));
        }
        let mut observed = ElementSet::new();
        observed.edges.extend(&known);
        observe_sources(&edges, &mut observed);
        let ghost with_sources = observed@;
        if let Some(prepared) = &self.prepared {
            overlay_scan(&mut edges, &prepared.template, self.basis, &known, &mut observed);
        }
        let ghost with_rows = observed@;
        proof {
            assert forall|eid: EId| #[trigger] edge_in(edges, eid) == overlay(eid) by {
                assert(edge_in(base, eid) == basis(eid));
            }
        }
        proof {
            assert forall|element: ElementId| #[trigger] with_rows.contains(element) == (
            with_sources.contains(element) || (element matches ElementId::Vertex(vid)
                && scan_witnessed(self.prepared_rows(), known@, vid))) by {}
        }
        let survivors = edge_ids(&edges);
        observed.edges.extend(&survivors);
        let ghost with_ids = observed@;
        proof {
            assert forall|element: ElementId| #[trigger] with_ids.contains(element) == (
            with_rows.contains(element) || (element matches ElementId::Edge(eid)
                && edges@.dom().contains(eid.0))) by {}
        }
        observe_sources(&edges, &mut observed);
        proof {
            let scanned = scan_witnesses(basis, overlay, self.staged@, self.prepared_rows());
            assert forall|vid: VId| source_in(base, vid) == is_source(basis, vid) by {
                lemma_same_sources(base, basis, vid);
            }
            assert forall|vid: VId| source_in(edges, vid) == is_source(overlay, vid) by {
                lemma_same_sources(edges, overlay, vid);
            }
            assert forall|element: ElementId| #[trigger] observed@.contains(element)
                == scanned.contains(element) by {
                match element {
                    ElementId::Edge(eid) => {
                        assert(edge_in(edges, eid) == overlay(eid));
                        assert(EId(eid.0) == eid);
                        assert(with_sources.contains(element) == known@.contains(eid.0));
                        assert(observed@.contains(element) == with_ids.contains(element));
                    },
                    ElementId::Vertex(vid) => {
                        assert(observed@.contains(element) == (with_ids.contains(element)
                            || source_in(edges, vid)));
                        assert(with_sources.contains(element) == source_in(base, vid));
                        assert(source_in(base, vid) == is_source(basis, vid));
                        assert(source_in(edges, vid) == is_source(overlay, vid));
                    },
                }
            }
            assert(observed@ =~= scanned);
        }
        self.read_set.extend(&observed);
        let mut i: usize = 0;
        let ghost expanded = self.match_expansions@;
        let mut expansions = ExpansionSet::new();
        std::mem::swap(&mut expansions, &mut self.match_expansions);
        while i < edges.len()
            invariant
                i <= edges.key_seq().len(),
                edges.wf(),
                forall|pair: (VId, RelationId)| #[trigger]
                    expansions@.contains(pair) == (expanded.contains(pair) || exists|k: int|
                        0 <= k < i && (#[trigger] edges.value_seq()[k]).entry.src == pair.0
                            && edges.value_seq()[k].entry.relation == pair.1),
            decreases edges.key_seq().len() - i,
        {
            let record = edges.value_at(i);
            expansions.insert(record.entry.src, record.entry.relation);
            proof {
                assert(edges.value_seq()[i as int].entry == record.entry);
            }
            i += 1;
        }
        std::mem::swap(&mut expansions, &mut self.match_expansions);
        proof {
            let records = edges.value_seq();
            assert forall|k: int| 0 <= k < records.len() implies (#[trigger] records[k]).wf()
                && overlay(records[k].entry.eid) == Some(records[k]@) by {
                edges.lemma_position(k);
                let key = edges.key_seq()[k];
                assert(edges@.dom().contains(key));
                assert(edge_in(edges, EId(key)) == overlay(EId(key)));
                assert(records[k].entry.eid == EId(key));
            }
            assert forall|a: int, b: int| 0 <= a < b < records.len() implies (
            #[trigger] records[a]).entry.eid.0 < (#[trigger] records[b]).entry.eid.0 by {
                edges.lemma_position(a);
                edges.lemma_position(b);
                assert(edges@.dom().contains(edges.key_seq()[a]));
                assert(edges@.dom().contains(edges.key_seq()[b]));
            }
            assert forall|eid: EId| #[trigger] overlay(eid) is Some implies exists|k: int|
                0 <= k < records.len() && (#[trigger] records[k]).entry.eid == eid by {
                assert(edge_in(edges, eid) == overlay(eid));
                let k = edges.key_seq().index_of(eid.0);
                edges.lemma_position(k);
                assert(edges@.dom().contains(eid.0));
                assert(records[k].entry.eid == eid);
            }
        }
        Ok(edges.into_values())
    }
}

/// One more row adds its own witness.
proof fn lemma_point_witnesses_push(
    basis: Option<EdgeView>,
    eid: EId,
    rows: Seq<DeltaRow>,
    row: DeltaRow,
)
    ensures
        point_witnesses(basis, eid, rows.push(row)) == (match edge_witness(eid, row) {
            Some(vid) => point_witnesses(basis, eid, rows).insert(ElementId::Vertex(vid)),
            None => point_witnesses(basis, eid, rows),
        }),
{
    let all = rows.push(row);
    let before = point_witnesses(basis, eid, rows);
    let after = point_witnesses(basis, eid, all);
    let expected = match edge_witness(eid, row) {
        Some(vid) => before.insert(ElementId::Vertex(vid)),
        None => before,
    };
    assert forall|element: ElementId| #[trigger] after.contains(element) == expected.contains(
        element,
    ) by {
        if let ElementId::Vertex(vid) = element {
            if exists|i: int| 0 <= i < rows.len() && edge_witness(eid, #[trigger] rows[i]) == Some(vid) {
                let i = choose|i: int|
                    0 <= i < rows.len() && edge_witness(eid, #[trigger] rows[i]) == Some(vid);
                assert(edge_witness(eid, all[i]) == Some(vid));
            }
            if edge_witness(eid, row) == Some(vid) {
                assert(edge_witness(eid, all[rows.len() as int]) == Some(vid));
            }
            if exists|i: int| 0 <= i < all.len() && edge_witness(eid, #[trigger] all[i]) == Some(vid) {
                let i = choose|i: int|
                    0 <= i < all.len() && edge_witness(eid, #[trigger] all[i]) == Some(vid);
                if i < rows.len() {
                    assert(edge_witness(eid, rows[i]) == Some(vid));
                }
            }
        }
    }
    assert(after =~= expected);
}

} // verus!
