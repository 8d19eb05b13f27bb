//! The graph that an authorized statement selects from: the committed snapshot, or
//! the private overlay once something is staged.

use vstd::prelude::*;
use crate::authorized_run::lemma_intents_at;
use crate::batch::{intents, intents_upto, WriteBatch};
use crate::beacon_corpus::intent_vertex;
use crate::beacon_search::lists_vertices;
use crate::database::{frontier_of, vertex_in, vertices_wf, Database};
use crate::edge_merge::lists_overlay;
use crate::edge_reads::{lists_edges, scan_witnesses};
use crate::errors::{Denial, LimitDimension, WriteTxnError};
use crate::graph::{DeltaRow, EdgeRecord, VertexRow, VertexView};
use crate::ids::{EId, ElementId, RelationId, VId};
use crate::idset::{ElementSet, IdMap};
use crate::plan::{
    ask, failure, lemma_obeys_ask, lemma_obeys_nothing, lemma_obeys_stop, lemma_step, obeys, whole,
    Plan,
};
use crate::session::{
    followed, lemma_followed_compose, lemma_followed_extend, refused, Event, Host, Request, Session,
};
use crate::statement::{interrupted, query_unit, verdict, Fault};
use crate::template::{lemma_rows_bounds, lemma_rows_step, rows_seen, rows_upto, Template};
use crate::txn::{keeps_observations, ownership_refusal, same_workspace, WriteTxn};
use crate::vertex_map::{replay_vertices, row_vertex, vertex_of_row};

verus! {

/// Some staged intent creates or deletes the vertex.
pub open spec fn intent_names(staged: Seq<WriteBatch>, vid: VId) -> bool {
    exists|k: int|
        0 <= k < intents(staged).len() && intent_vertex((#[trigger] intents(staged)[k]).1) == Some(
            vid,
        )
}

/// Some prepared row is about the vertex.
pub open spec fn row_names(rows: Seq<DeltaRow>, vid: VId) -> bool {
    exists|k: int| 0 <= k < rows.len() && row_vertex(#[trigger] rows[k]) == Some(vid)
}

/// The vertices that a whole scan observes.
pub open spec fn vertex_scan_witnesses(txn: WriteTxn, database: Database) -> Set<ElementId> {
    Set::new(
        |element: ElementId|
            match element {
                ElementId::Vertex(vid) => {
                    ||| database.vertex_at_spec(vid, txn.basis) is Some
                    ||| intent_names(txn.staged@, vid)
                    ||| row_names(txn.prepared_rows(), vid)
                },
                ElementId::Edge(_) => false,
            },
    )
}

/// The committed vertices.
fn witness_committed(vertices: &IdMap<VertexRow>) -> (seen: ElementSet)
    requires
        vertices_wf(*vertices),
    ensures
        seen.wf(),
        forall|vid: VId| #[trigger]
            seen@.contains(ElementId::Vertex(vid)) == (vertex_in(*vertices, vid) is Some),
        forall|element: ElementId| #[trigger] seen@.contains(element) ==> element is Vertex,
{
    let mut seen = ElementSet::new();
    let ghost keys = vertices.key_seq();
    let mut i: usize = 0;
    while i < vertices.len()
        invariant
            vertices_wf(*vertices),
            keys == vertices.key_seq(),
            i <= keys.len(),
            seen.wf(),
            forall|vid: VId| #[trigger]
                seen@.contains(ElementId::Vertex(vid)) == keys.take(i as int).contains(vid.0),
            forall|element: ElementId| #[trigger] seen@.contains(element) ==> element is Vertex,
        decreases keys.len() - i,
    {
        let key: u128 = vertices.key_at(i);
        let ghost before = seen@;
        seen.insert(ElementId::Vertex(VId(key)));
        proof {
            let shorter = keys.take(i as int);
            let longer = keys.take(i + 1);
            assert(longer =~= shorter.push(key));
            assert forall|vid: VId| #[trigger] seen@.contains(ElementId::Vertex(vid))
                == longer.contains(vid.0) by {
                assert(before.contains(ElementId::Vertex(vid)) == shorter.contains(vid.0));
                if shorter.contains(vid.0) {
                    let k = shorter.index_of(vid.0);
                    assert(longer[k] == vid.0);
                }
                if longer.contains(vid.0) && vid.0 != key {
                    let k = longer.index_of(vid.0);
                    assert(shorter[k] == vid.0);
                }
                assert(longer[i as int] == key);
            }
        }
        i += 1;
    }
    proof {
        assert(keys.take(i as int) =~= keys);
    }
    seen
}

/// Add the vertices that staged intents create or delete.
fn witness_intents(staged: &Vec<WriteBatch>, seen: &mut ElementSet)
    requires
        old(seen).wf(),
    ensures
        final(seen).wf(),
        forall|vid: VId| #[trigger]
            final(seen)@.contains(ElementId::Vertex(vid)) == (old(seen)@.contains(
                ElementId::Vertex(vid),
            ) || intent_names(staged@, vid)),
        forall|element: ElementId| #[trigger]
            final(seen)@.contains(element) ==> element is Vertex || old(seen)@.contains(element),
{
    let ghost rows = intents(staged@);
    let ghost start = seen@;
    let ghost mut n: int = 0;
    let mut b: usize = 0;
    while b < staged.len()
        invariant
            b <= staged.len(),
            rows == intents(staged@),
            start == old(seen)@,
            seen.wf(),
            n == intents_upto(staged@, b as int).len(),
            n <= rows.len(),
            named_upto(seen@, start, rows, n),
        decreases staged.len() - b,
    {
        let ghost base = n;
        proof {
            lemma_intents_at(staged@, b as int);
        }
        let mut r: usize = 0;
        while r < staged[b as usize].rows.len()
            invariant
                b < staged.len(),
                r <= staged@[b as int].rows@.len(),
                rows == intents(staged@),
                start == old(seen)@,
                seen.wf(),
                0 <= base,
                base + staged@[b as int].rows@.len() <= rows.len(),
                forall|k: int|
                    0 <= k < staged@[b as int].rows@.len() ==> #[trigger] rows[base + k] == (
                        staged@[b as int].relation,
                        staged@[b as int].rows@[k],
                    ),
                n == base + r,
                named_upto(seen@, start, rows, n),
            decreases staged@[b as int].rows@.len() - r,
        {
            let ghost before = seen@;
            assert(rows[base + r] == (
                staged@[b as int].relation,
                staged@[b as int].rows@[r as int],
            ));
            match &staged[b].rows[r] {
                crate::batch::PendingRow::Vertex { vid, .. }
                | crate::batch::PendingRow::DeleteVertex { vid } => {
                    seen.insert(ElementId::Vertex(*vid));
                },
                _ => {},
            }
            proof {
                lemma_named_next(before, seen@, start, rows, n);
                n = n + 1;
            }
            r += 1;
        }
        b += 1;
    }
}

spec fn named_upto(
    seen: Set<ElementId>,
    start: Set<ElementId>,
    rows: Seq<(crate::ids::RelationId, crate::batch::PendingRow)>,
    n: int,
) -> bool {
    &&& forall|vid: VId| #[trigger]
        seen.contains(ElementId::Vertex(vid)) == (start.contains(ElementId::Vertex(vid))
            || exists|k: int|
            0 <= k < n && intent_vertex((#[trigger] rows[k]).1) == Some(vid))
    &&& forall|element: ElementId| #[trigger]
        seen.contains(element) ==> element is Vertex || start.contains(element)
}

proof fn lemma_named_next(
    before: Set<ElementId>,
    after: Set<ElementId>,
    start: Set<ElementId>,
    rows: Seq<(crate::ids::RelationId, crate::batch::PendingRow)>,
    n: int,
)
    requires
        0 <= n < rows.len(),
        named_upto(before, start, rows, n),
        after == (match intent_vertex(rows[n].1) {
            Some(vid) => before.insert(ElementId::Vertex(vid)),
            None => before,
        }),
    ensures
        named_upto(after, start, rows, n + 1),
{
    assert forall|vid: VId| #[trigger]
        after.contains(ElementId::Vertex(vid)) == (start.contains(ElementId::Vertex(vid))
            || exists|k: int|
            0 <= k < n + 1 && intent_vertex((#[trigger] rows[k]).1) == Some(vid)) by {
        assert(before.contains(ElementId::Vertex(vid)) == (start.contains(ElementId::Vertex(vid))
            || exists|k: int|
            0 <= k < n && intent_vertex((#[trigger] rows[k]).1) == Some(vid)));
        if intent_vertex(rows[n].1) == Some(vid) {
            assert(intent_vertex(rows[n].1) == Some(vid));
        }
        if exists|k: int| 0 <= k < n && intent_vertex((#[trigger] rows[k]).1) == Some(vid) {
            let k = choose|k: int|
                0 <= k < n && intent_vertex((#[trigger] rows[k]).1) == Some(vid);
            assert(intent_vertex(rows[k].1) == Some(vid));
        }
    }
    assert forall|element: ElementId| #[trigger]
        after.contains(element) implies element is Vertex || start.contains(element) by {
        if before.contains(element) {
        }
    }
}

/// Add the vertices that prepared rows are about.
fn witness_rows(template: &Template, seen: &mut ElementSet)
    requires
        old(seen).wf(),
    ensures
        final(seen).wf(),
        forall|vid: VId| #[trigger]
            final(seen)@.contains(ElementId::Vertex(vid)) == (old(seen)@.contains(
                ElementId::Vertex(vid),
            ) || row_names(template.rows(), vid)),
        forall|element: ElementId| #[trigger]
            final(seen)@.contains(element) ==> element is Vertex || old(seen)@.contains(element),
{
    let ghost start = seen@;
    let ghost coordinates = template.coordinates@;
    let mut c: usize = 0;
    while c < template.coordinates.len()
        invariant
            c <= template.coordinates.len(),
            coordinates == template.coordinates@,
            start == old(seen)@,
            seen.wf(),
            rows_named(seen@, start, rows_upto(coordinates, c as int)),
        decreases template.coordinates.len() - c,
    {
        let coordinate = &template.coordinates[c];
        let mut r: usize = 0;
        proof {
            lemma_rows_bounds(coordinates, c as int);
        }
        while r < coordinate.rows.len()
            invariant
                c < template.coordinates.len(),
                coordinates == template.coordinates@,
                *coordinate == coordinates[c as int],
                r <= coordinate.rows.len(),
                start == old(seen)@,
                seen.wf(),
                rows_named(seen@, start, rows_seen(coordinates, c as int, r as int)),
            decreases coordinate.rows.len() - r,
        {
            let ghost before = seen@;
            proof {
                lemma_rows_step(coordinates, c as int, r as int);
            }
            if let Some(vid) = vertex_of_row(&coordinate.rows[r]) {
                seen.insert(ElementId::Vertex(vid));
            }
            proof {
                lemma_rows_named_next(
                    before,
                    seen@,
                    start,
                    rows_seen(coordinates, c as int, r as int),
                    coordinate.rows@[r as int],
                );
            }
            r += 1;
        }
        proof {
            lemma_rows_bounds(coordinates, c as int);
        }
        c += 1;
    }
}

spec fn rows_named(seen: Set<ElementId>, start: Set<ElementId>, rows: Seq<DeltaRow>) -> bool {
    &&& forall|vid: VId| #[trigger]
        seen.contains(ElementId::Vertex(vid)) == (start.contains(ElementId::Vertex(vid))
            || row_names(rows, vid))
    &&& forall|element: ElementId| #[trigger]
        seen.contains(element) ==> element is Vertex || start.contains(element)
}

proof fn lemma_rows_named_next(
    before: Set<ElementId>,
    after: Set<ElementId>,
    start: Set<ElementId>,
    rows: Seq<DeltaRow>,
    row: DeltaRow,
)
    requires
        rows_named(before, start, rows),
        after == (match row_vertex(row) {
            Some(vid) => before.insert(ElementId::Vertex(vid)),
            None => before,
        }),
    ensures
        rows_named(after, start, rows.push(row)),
{
    let next = rows.push(row);
    assert forall|vid: VId| #[trigger]
        after.contains(ElementId::Vertex(vid)) == (start.contains(ElementId::Vertex(vid))
            || row_names(next, vid)) by {
        assert(before.contains(ElementId::Vertex(vid)) == (start.contains(ElementId::Vertex(vid))
            || row_names(rows, vid)));
        if row_names(rows, vid) {
            let k = choose|k: int| 0 <= k < rows.len() && row_vertex(#[trigger] rows[k]) == Some(
                vid,
            );
            assert(next[k] == rows[k]);
        }
        if row_names(next, vid) {
            let k = choose|k: int| 0 <= k < next.len() && row_vertex(#[trigger] next[k]) == Some(
                vid,
            );
            if k < rows.len() {
                assert(rows[k] == next[k]);
            }
        }
        if row_vertex(row) == Some(vid) {
            assert(next[rows.len() as int] == row);
        }
    }
    assert forall|element: ElementId| #[trigger]
        after.contains(element) implies element is Vertex || start.contains(element) by {
        if before.contains(element) {
        }
    }
}

/// What the transaction sees of every vertex.
pub open spec fn overlay_vertices(txn: WriteTxn, database: Database) -> spec_fn(VId) -> Option<
    VertexView,
> {
    |vid: VId| txn.overlay_vertex(database, vid)
}

impl WriteTxn {
    /// Read all pinned vertices with their prepared net effects. Every vertex of
    /// the snapshot, and every vertex that is staged, is observed; the scan keeps a
    /// witness on all vertices.
    pub fn vertices(&mut self, database: &Database) -> (vertices: Result<
        Vec<VertexRow>,
        WriteTxnError,
    >)
        requires
            old(self).wf(),
            database.wf(),
        ensures
            final(self).wf(),
            same_workspace(*old(self), *final(self)),
            final(self).match_expansions == old(self).match_expansions,
            final(self).scanned_vertex_labels == old(self).scanned_vertex_labels,
            final(self).scanned_edges == old(self).scanned_edges,
            match vertices {
                Ok(rows) => {
                    &&& old(self).read_refusal(*database) is None
                    &&& lists_vertices(rows@, overlay_vertices(*old(self), *database))
                    &&& final(self).scanned_vertices
                    &&& final(self).read_set@ =~= old(self).read_set@.union(
                        vertex_scan_witnesses(*old(self), *database),
                    )
                },
                Err(error) => {
                    &&& old(self).read_refusal(*database) == Some(error)
                    &&& *final(self) == *old(self)
                },
            },
    {
        let ghost origin = *self;
        if let Err(error) = self.ensure_database(database) {
            return Err(error);
        }
        let mut vertices = match database.vertex_map_at(self.basis) {
            Ok(vertices) => vertices,
            Err(error) => return Err(error),
        };
        let mut seen = witness_committed(&vertices);
        let ghost committed = seen@;
        let ghost pinned = vertices;
        witness_intents(&self.staged, &mut seen);
        if let Some(prepared) = &self.prepared {
            witness_rows(&prepared.template, &mut seen);
            replay_vertices(&mut vertices, &prepared.template);
        }
        proof {
            let witnesses = vertex_scan_witnesses(origin, *database);
            assert forall|element: ElementId| #[trigger] seen@.contains(element)
                == witnesses.contains(element) by {
                match element {
                    ElementId::Vertex(vid) => {
                        assert(committed.contains(ElementId::Vertex(vid)) == (vertex_in(
                            pinned,
                            vid,
                        ) is Some));
                        assert(vertex_in(pinned, vid) == database.vertex_at_spec(
                            vid,
                            origin.basis,
                        ));
                        if origin.prepared is None {
                            assert(!row_names(origin.prepared_rows(), vid));
                        }
                    },
                    ElementId::Edge(_) => {},
                }
            }
            assert(seen@ =~= witnesses);
            assert forall|vid: VId| #[trigger] vertex_in(vertices, vid) == overlay_vertices(
                origin,
                *database,
            )(vid) by {
                assert(vertex_in(pinned, vid) == database.vertex_at_spec(vid, origin.basis));
            }
            crate::beacon_search::lemma_map_lists(vertices, overlay_vertices(origin, *database));
        }
        self.read_set.extend(&seen);
        self.scanned_vertices = true;
        Ok(vertices.into_values())
    }
}

/// What a selection runs over.
pub enum SelectionSource {
    /// Nothing is staged: the committed snapshot.
    Committed,
    /// The private overlay.
    Overlay { vertices: Vec<VertexRow>, edges: Vec<EdgeRecord> },
}

/// The refusal before a selection: owner, lifecycle, health and a moved frontier.
pub open spec fn selection_refusal(txn: WriteTxn, database: Database) -> Option<WriteTxnError> {
    match ownership_refusal(txn, database) {
        Some(error) => Some(error),
        None => match frontier_of(database.state) {
            Err(error) => Some(error),
            Ok(live) => if live != txn.basis {
                Some(WriteTxnError::SnapshotAdvanced { pinned: txn.basis, live })
            } else {
                None
            },
        },
    }
}

impl WriteTxn {
    /// The checks before a read that only the live frontier may answer: owner,
    /// lifecycle, health and a moved frontier.
    pub fn current_snapshot(&self, database: &Database) -> (checked: Result<(), WriteTxnError>)
        ensures
            failure(checked) == selection_refusal(*self, *database),
    {
        if let Err(error) = self.ensure_database(database) {
            return Err(error);
        }
        match database.frontier() {
            Err(error) => Err(error),
            Ok(live) => if live != self.basis {
                Err(WriteTxnError::SnapshotAdvanced { pinned: self.basis, live })
            } else {
                Ok(())
            },
        }
    }
}

/// Both polls, of the query and of the commit.
pub open spec fn both_polls() -> Seq<Request> {
    seq![Request::PollQuery, Request::Poll]
}

/// What preparing the source asks. A read refusal says nothing about the graph.
pub open spec fn source_steps(txn: WriteTxn, database: Database) -> Seq<Plan<Fault>> {
    let refusal = match selection_refusal(txn, database) {
        Some(error) => Some(Fault::Source(error)),
        None => None,
    };
    if txn.staged@.len() == 0 {
        seq![verdict(refusal)]
    } else {
        seq![
            verdict(refusal),
            ask(both_polls()),
            verdict(
                if txn.read_refusal(database) is Some {
                    Some(Fault::Source(WriteTxnError::AuthorizedMutationRefused))
                } else {
                    None
                },
            ),
            ask(both_polls()),
            ask(both_polls()),
        ]
    }
}

/// Both polls. Walking what a capability may not see costs nothing.
pub fn poll_both<H: Host>(session: &mut Session<H>) -> (polled: Result<(), WriteTxnError>)
    ensures
        final(session).metered() == old(session).metered(),
        followed(old(session).log(), final(session).log(), both_polls()),
        failure(polled) == refused(old(session).log(), final(session).log()),
{
    let ghost start = session.log();
    proof {
        assert(seq![Request::PollQuery] + seq![Request::Poll] =~= both_polls());
    }
    if let Err(error) = session.poll_query() {
        proof {
            lemma_followed_extend(
                start, session.log(), seq![Request::PollQuery], seq![Request::Poll],
            );
        }
        return Err(error);
    }
    let ghost middle = session.log();
    let polled = session.poll();
    proof {
        lemma_followed_compose(
            start, middle, session.log(), seq![Request::PollQuery], seq![Request::Poll],
        );
    }
    polled
}

/// What admitting one visible node asks: the query, one signed unit, one node.
pub open spec fn node_asks() -> Seq<Request> {
    query_unit() + seq![Request::Charge { dimension: LimitDimension::Nodes, amount: 1 }]
}

/// Admit one visible node.
pub fn pay_node<H: Host>(session: &mut Session<H>) -> (paid: Result<(), WriteTxnError>)
    ensures
        final(session).metered() == old(session).metered(),
        followed(old(session).log(), final(session).log(), node_asks()),
        failure(paid) == refused(old(session).log(), final(session).log()),
{
    let ghost start = session.log();
    let ghost node = seq![Request::Charge { dimension: LimitDimension::Nodes, amount: 1 }];
    if let Err(error) = session.query_work() {
        proof {
            lemma_followed_extend(start, session.log(), query_unit(), node);
        }
        return Err(error);
    }
    let ghost middle = session.log();
    let charged = session.charge(LimitDimension::Nodes, 1);
    proof {
        lemma_followed_compose(start, middle, session.log(), query_unit(), node);
    }
    charged
}

/// What a scan over all edges witnesses.
pub open spec fn edge_scan_witnesses(txn: WriteTxn, database: Database) -> Set<ElementId> {
    scan_witnesses(
        |eid: EId| database.edge_at_spec(eid, txn.basis),
        |eid: EId| txn.overlay_edge(database, eid),
        txn.staged@,
        txn.prepared_rows(),
    )
}

/// The transaction sees an edge of the relation that starts at the vertex.
pub open spec fn expands(txn: WriteTxn, database: Database, pair: (VId, RelationId)) -> bool {
    exists|eid: EId| #[trigger]
        txn.overlay_edge(database, eid) is Some && txn.overlay_edge(database, eid)->0.entry.src
            == pair.0 && txn.overlay_edge(database, eid)->0.entry.relation == pair.1
}

/// Exactly a scan over all edges was added to what was observed, after reads of
/// some elements.
pub open spec fn scans_edges(
    before: WriteTxn,
    after: WriteTxn,
    database: Database,
    elements: Set<ElementId>,
) -> bool {
    &&& after.scanned_edges
    &&& after.scanned_vertices == before.scanned_vertices
    &&& after.scanned_vertex_labels@ == before.scanned_vertex_labels@
    &&& after.read_set@ =~= before.read_set@.union(elements).union(
        edge_scan_witnesses(before, database),
    )
    &&& forall|pair: (VId, RelationId)| #[trigger]
        after.match_expansions@.contains(pair) == (before.match_expansions@.contains(pair)
            || expands(before, database, pair))
}

/// The listed sources and relations are those of the edges that the transaction sees.
pub proof fn lemma_listed_expansions(
    txn: WriteTxn,
    database: Database,
    records: Seq<EdgeRecord>,
    pair: (VId, RelationId),
)
    requires
        lists_edges(records, |eid: EId| txn.overlay_edge(database, eid)),
    ensures
        expands(txn, database, pair) == (exists|i: int|
            0 <= i < records.len() && (#[trigger] records[i]).entry.src == pair.0
                && records[i].entry.relation == pair.1),
{
    let overlay = |eid: EId| txn.overlay_edge(database, eid);
    if expands(txn, database, pair) {
        let eid = choose|eid: EId| #[trigger]
            txn.overlay_edge(database, eid) is Some && txn.overlay_edge(database, eid)->0.entry.src
                == pair.0 && txn.overlay_edge(database, eid)->0.entry.relation == pair.1;
        assert(overlay(eid) is Some);
        let i = choose|i: int| 0 <= i < records.len() && (#[trigger] records[i]).entry.eid == eid;
        assert(overlay(records[i].entry.eid) == Some(records[i]@));
    }
    assert forall|i: int|
        0 <= i < records.len() && (#[trigger] records[i]).entry.src == pair.0
            && records[i].entry.relation == pair.1 implies expands(txn, database, pair) by {
        assert(overlay(records[i].entry.eid) == Some(records[i]@));
        assert(txn.overlay_edge(database, records[i].entry.eid) is Some);
    }
}

/// What preparing the source does, whatever the host answers.
pub open spec fn prepares_source(
    before: WriteTxn,
    after: WriteTxn,
    database: Database,
    reads_edges: bool,
    log: Seq<Event>,
    log_after: Seq<Event>,
    prepared: Result<SelectionSource, Fault>,
) -> bool {
    &&& obeys(log, log_after, whole(source_steps(before, database)), interrupted(), failure(
        prepared,
    ))
    &&& prepared is Err ==> after == before || (after.scanned_vertices && vertex_scan_witnesses(
        before,
        database,
    ).subset_of(after.read_set@))
    &&& prepared matches Ok(found) ==> match found {
        SelectionSource::Committed => before.staged@.len() == 0 && after == before,
        SelectionSource::Overlay { vertices, edges } => {
            &&& before.staged@.len() > 0
            &&& lists_vertices(vertices@, overlay_vertices(before, database))
            &&& after.scanned_vertices
            &&& after.scanned_vertex_labels == before.scanned_vertex_labels
            &&& if reads_edges {
                &&& lists_overlay(before, database, edges@)
                &&& after.scanned_edges
                &&& after.read_set@ =~= before.read_set@.union(
                    vertex_scan_witnesses(before, database),
                ).union(edge_scan_witnesses(before, database))
                &&& forall|pair: (VId, RelationId)| #[trigger]
                    after.match_expansions@.contains(pair) == (before.match_expansions@.contains(
                        pair,
                    ) || exists|i: int|
                        0 <= i < edges@.len() && (#[trigger] edges@[i]).entry.src == pair.0
                            && edges@[i].entry.relation == pair.1)
            } else {
                &&& edges@.len() == 0
                &&& after.scanned_edges == before.scanned_edges
                &&& after.read_set@ =~= before.read_set@.union(
                    vertex_scan_witnesses(before, database),
                )
                &&& after.match_expansions == before.match_expansions
            }
        },
    }
}

impl WriteTxn {
    /// Prepare what an authorized selection runs over.
    pub fn select_overlay<H: Host>(
        &mut self,
        database: &Database,
        reads_edges: bool,
        session: &mut Session<H>,
    ) -> (prepared: Result<SelectionSource, Fault>)
        requires
            old(self).wf(),
            database.wf(),
        ensures
            final(self).wf(),
            same_workspace(*old(self), *final(self)),
            keeps_observations(*old(self), *final(self)),
            final(session).metered() == old(session).metered(),
            prepares_source(
                *old(self),
                *final(self),
                *database,
                reads_edges,
                old(session).log(),
                final(session).log(),
                prepared,
            ),
    {
        let ghost origin = *self;
        let ghost start = session.log();
        let ghost steps = source_steps(origin, *database);
        let checked = self.current_snapshot(database);
        proof {
            lemma_obeys_nothing(start, interrupted());
            if checked is Err {
                lemma_obeys_stop(start, interrupted(), Fault::Source(checked->Err_0));
            }
            lemma_step(
                start, start, start, steps, 0, interrupted(),
                match selection_refusal(origin, *database) {
                    Some(error) => Some(Fault::Source(error)),
                    None => None,
                },
            );
        }
        if let Err(error) = checked {
            return Err(Fault::Source(error));
        }
        if self.staged.len() == 0 {
            return Ok(SelectionSource::Committed);
        }
        let polled = poll_both(session);
        let ghost log1 = session.log();
        let polled = match polled {
            Ok(()) => Ok(()),
            Err(error) => Err(Fault::Interrupted(error)),
        };
        proof {
            lemma_obeys_ask(start, log1, both_polls(), interrupted());
            lemma_step(start, start, log1, steps, 1, interrupted(), failure(polled));
        }
        if let Err(fault) = polled {
            return Err(fault);
        }
        let read = self.vertices(database);
        let ghost scanned = *self;
        let refusal = Fault::Source(WriteTxnError::AuthorizedMutationRefused);
        proof {
            lemma_obeys_nothing(log1, interrupted());
            lemma_obeys_stop(log1, interrupted(), refusal);
            lemma_step(
                start, log1, log1, steps, 2, interrupted(),
                if read is Err {
                    Some(refusal)
                } else {
                    None
                },
            );
        }
        let vertices = match read {
            Ok(vertices) => vertices,
            Err(_) => return Err(refusal),
        };
        let polled = match poll_both(session) {
            Ok(()) => Ok(()),
            Err(error) => Err(Fault::Interrupted(error)),
        };
        let ghost log2 = session.log();
        proof {
            lemma_obeys_ask(log1, log2, both_polls(), interrupted());
            lemma_step(start, log1, log2, steps, 3, interrupted(), failure(polled));
        }
        if let Err(fault) = polled {
            return Err(fault);
        }
        let mut edges: Vec<EdgeRecord> = Vec::new();
        if reads_edges {
            match self.edges(database) {
                Ok(found) => {
                    edges = found;
                    proof {
                        crate::authorized_pair::lemma_same_overlay(
                            origin, scanned, *database, edges@,
                        );
                    }
                },
                Err(_) => {
                    proof {
                        crate::authorized_pair::lemma_same_reads(origin, scanned, *database);
                        assert(false);
                    }
                },
            }
        }
        let polled = match poll_both(session) {
            Ok(()) => Ok(()),
            Err(error) => Err(Fault::Interrupted(error)),
        };
        proof {
            lemma_obeys_ask(log2, session.log(), both_polls(), interrupted());
            lemma_step(start, log2, session.log(), steps, 4, interrupted(), failure(polled));
        }
        if let Err(fault) = polled {
            return Err(fault);
        }
        Ok(SelectionSource::Overlay { vertices, edges })
    }
}

/// How a control stopped a selection.
#[derive(Clone, Copy, PartialEq, Eq, Structural, Debug)]
pub enum ControlError {
    Authorization(Denial),
    Interrupted(u64),
}

/// What a selection learns of a stopped control. A native mutation error never
/// travels this way.
pub open spec fn control_of(error: WriteTxnError) -> ControlError {
    match error {
        WriteTxnError::Authorization(denial) => ControlError::Authorization(denial),
        WriteTxnError::Interrupted(cause) => ControlError::Interrupted(cause),
        _ => ControlError::Authorization(Denial::ScopeDenied),
    }
}

/// Tell a selection of a stopped control.
pub fn query_control(error: WriteTxnError) -> (stopped: ControlError)
    ensures
        stopped == control_of(error),
{
    match error {
        WriteTxnError::Authorization(denial) => ControlError::Authorization(denial),
        WriteTxnError::Interrupted(cause) => ControlError::Interrupted(cause),
        _ => ControlError::Authorization(Denial::ScopeDenied),
    }
}

/// Why a selection failed.
#[derive(Clone, Copy, PartialEq, Eq, Structural, Debug)]
pub enum SelectionError {
    /// The source, the rows or the evaluator refused.
    Native(Fault),
    /// A control stopped it.
    Control(ControlError),
    /// Anything else that interrupted it.
    Other,
}

/// What a statement reports of a failed selection.
pub open spec fn selection_fault(error: SelectionError) -> Fault {
    match error {
        SelectionError::Native(native) => native,
        SelectionError::Control(ControlError::Authorization(denial)) => Fault::Interrupted(
            WriteTxnError::Authorization(denial),
        ),
        SelectionError::Control(ControlError::Interrupted(cause)) => Fault::Interrupted(
            WriteTxnError::Interrupted(cause),
        ),
        SelectionError::Other => Fault::Source(WriteTxnError::AuthorizedMutationRefused),
    }
}

/// Report a failed selection.
pub fn selection_error(error: SelectionError) -> (fault: Fault)
    ensures
        fault == selection_fault(error),
{
    match error {
        SelectionError::Native(native) => native,
        SelectionError::Control(ControlError::Authorization(denial)) => Fault::Interrupted(
            WriteTxnError::Authorization(denial),
        ),
        SelectionError::Control(ControlError::Interrupted(cause)) => Fault::Interrupted(
            WriteTxnError::Interrupted(cause),
        ),
        SelectionError::Other => Fault::Source(WriteTxnError::AuthorizedMutationRefused),
    }
}

} // verus!
