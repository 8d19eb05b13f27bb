//! Laws of transaction reads.

use vstd::prelude::*;
use crate::adjacency::Anchor;
use crate::admission::stages;
use crate::batch::WriteBatch;
use crate::database::{Database, DeltaBatch};
use crate::edge_reads::lists_edges;
use crate::freshness::{creations_are_fresh, current_edges, fresh_on};
use crate::graph::{edge_after_rows, AdjacencyEntry, DeltaRow, EdgeRecord, EdgeView};
use crate::ids::{CommitSeq, EId, VId, RelationId};
use crate::session::Event;
use crate::template::Template;
use crate::txn::WriteTxn;

verus! {

/// The same edge, apart from when it was created.
pub open spec fn same_edge(left: Option<EdgeView>, right: Option<EdgeView>) -> bool {
    match (left, right) {
        (Some(l), Some(r)) => {
            &&& l.props == r.props
            &&& l.entry == (AdjacencyEntry { created_at: l.entry.created_at, ..r.entry })
        },
        (None, None) => true,
        _ => false,
    }
}

pub proof fn lemma_same_edge_after_rows(
    left: Option<EdgeView>,
    right: Option<EdgeView>,
    eid: EId,
    rows: Seq<DeltaRow>,
    left_at: CommitSeq,
    right_at: CommitSeq,
)
    requires
        same_edge(left, right),
    ensures
        same_edge(
            edge_after_rows(left, eid, rows, left_at),
            edge_after_rows(right, eid, rows, right_at),
        ),
    decreases rows.len(),
{
    if rows.len() > 0 {
        lemma_same_edge_after_rows(left, right, eid, rows.drop_last(), left_at, right_at);
    }
}

/// The handle after one more commit.
pub open spec fn published(before: Database, after: Database, template: Template) -> bool {
    &&& after.base_seq == before.base_seq
    &&& after.base_edges == before.base_edges
    &&& after.base_vertices == before.base_vertices
    &&& after.log@ == before.log@.push(
        DeltaBatch { commit_seq: CommitSeq((before.tip() + 1) as u64), template },
    )
}

/// Publishing a commit leaves every earlier snapshot as it was.
pub proof fn law_publication_preserves_snapshots(
    before: Database,
    after: Database,
    template: Template,
    seq: CommitSeq,
)
    requires
        published(before, after, template),
        before.base_seq.0 <= seq.0 <= before.tip(),
    ensures
        forall|eid: EId| #[trigger] after.edge_at_spec(eid, seq) == before.edge_at_spec(eid, seq),
        forall|vid: VId| #[trigger] after.vertex_at_spec(vid, seq) == before.vertex_at_spec(vid, seq),
{
    assert forall|eid: EId| #[trigger] after.edge_at_spec(eid, seq) == before.edge_at_spec(
        eid,
        seq,
    ) by {
        lemma_edge_prefix(before, after, template, eid, seq.0 - before.base_seq.0);
    }
    assert forall|vid: VId| #[trigger] after.vertex_at_spec(vid, seq) == before.vertex_at_spec(
        vid,
        seq,
    ) by {
        lemma_vertex_prefix(before, after, template, vid, seq.0 - before.base_seq.0);
    }
}

pub proof fn lemma_edge_prefix(
    before: Database,
    after: Database,
    template: Template,
    eid: EId,
    n: int,
)
    requires
        published(before, after, template),
        n <= before.log@.len(),
    ensures
        after.edge_after_commits(eid, n) == before.edge_after_commits(eid, n),
    decreases n,
{
    if n > 0 {
        lemma_edge_prefix(before, after, template, eid, n - 1);
        assert(after.log@[n - 1] == before.log@[n - 1]);
    }
}

pub proof fn lemma_vertex_prefix(
    before: Database,
    after: Database,
    template: Template,
    vid: VId,
    n: int,
)
    requires
        published(before, after, template),
        n <= before.log@.len(),
    ensures
        after.vertex_after_commits(vid, n) == before.vertex_after_commits(vid, n),
    decreases n,
{
    if n > 0 {
        lemma_vertex_prefix(before, after, template, vid, n - 1);
        assert(after.log@[n - 1] == before.log@[n - 1]);
    }
}

/// What a transaction reads of an edge or a vertex is what the database holds
/// once exactly its prepared rows are published on its basis. Only the creation
/// stamp differs: the transaction cannot know its commit sequence yet.
pub proof fn law_reads_are_published(txn: WriteTxn, before: Database, after: Database)
    requires
        before.wf(),
        before.tip() < u64::MAX,
        txn.prepared is Some,
        txn.basis.0 == before.tip(),
        published(before, after, txn.prepared->0.template),
    ensures
        forall|eid: EId|
            same_edge(
                #[trigger] txn.overlay_edge(before, eid),
                after.edge_at_spec(eid, CommitSeq((before.tip() + 1) as u64)),
            ),
        forall|vid: VId| #[trigger]
            txn.overlay_vertex(before, vid) == after.vertex_at_spec(
                vid,
                CommitSeq((before.tip() + 1) as u64),
            ),
{
    let template = txn.prepared->0.template;
    let n = before.log@.len() as int;
    assert(after.log@[n].template == template);
    assert forall|eid: EId|
        same_edge(
            #[trigger] txn.overlay_edge(before, eid),
            after.edge_at_spec(eid, CommitSeq((before.tip() + 1) as u64)),
        ) by {
        lemma_edge_prefix(before, after, template, eid, n);
        let base = before.edge_after_commits(eid, n);
        lemma_same_edge_after_rows(
            base,
            base,
            eid,
            template.rows(),
            txn.basis,
            after.log@[n].commit_seq,
        );
    }
    assert forall|vid: VId| #[trigger]
        txn.overlay_vertex(before, vid) == after.vertex_at_spec(
            vid,
            CommitSeq((before.tip() + 1) as u64),
        ) by {
        lemma_vertex_prefix(before, after, template, vid, n);
    }
}

/// A neighbour read sees an edge exactly as a point read of that edge does.
pub proof fn law_neighbours_follow_edges(
    anchor: Anchor,
    basis: spec_fn(EId) -> Option<EdgeView>,
    rows: Seq<DeltaRow>,
    at: CommitSeq,
    eid: EId,
)
    requires
        creations_are_fresh(basis, rows, at),
    ensures
        anchor.after_rows(anchor.of(basis(eid)), eid, rows) == anchor.of(
            edge_after_rows(basis(eid), eid, rows, at),
        ),
    decreases rows.len(),
{
    if rows.len() > 0 {
        let rest = rows.drop_last();
        assert forall|i: int| 0 <= i < rest.len() implies (#[trigger] rest[i] matches
        DeltaRow::CreateEdge { eid: created, .. } ==> edge_after_rows(
            basis(created),
            created,
            rest.take(i),
            at,
        ) is None) by {
            assert(rest.take(i) =~= rows.take(i));
            assert(rest[i] == rows[i]);
        }
        law_neighbours_follow_edges(anchor, basis, rest, at, eid);
        assert(rows.take(rows.len() - 1) =~= rest);
        assert(rows[rows.len() - 1] == rows.last());
    }
}

/// The neighbours a transaction reads are the neighbours the database holds once
/// its prepared rows are published.
pub proof fn law_neighbours_are_published(
    txn: WriteTxn,
    before: Database,
    after: Database,
    anchor: Anchor,
    neighbours: Seq<VId>,
)
    requires
        before.wf(),
        before.tip() < u64::MAX,
        txn.prepared is Some,
        txn.basis.0 == before.tip(),
        published(before, after, txn.prepared->0.template),
        creations_are_fresh(
            |eid: EId| before.edge_at_spec(eid, txn.basis),
            txn.prepared_rows(),
            txn.basis,
        ),
        anchor.lists_neighbours(
            neighbours,
            |eid: EId| before.edge_at_spec(eid, txn.basis),
            txn.prepared_rows(),
        ),
    ensures
        forall|vid: VId| #[trigger]
            neighbours.contains(vid) <==> exists|eid: EId| #[trigger]
                anchor.of(after.edge_at_spec(eid, CommitSeq((before.tip() + 1) as u64))) == Some(
                    vid,
                ),
{
    let basis = |eid: EId| before.edge_at_spec(eid, txn.basis);
    let rows = txn.prepared_rows();
    let next = CommitSeq((before.tip() + 1) as u64);
    law_reads_are_published(txn, before, after);
    assert forall|eid: EId| #[trigger] anchor.after_rows(anchor.of(basis(eid)), eid, rows)
        == anchor.of(after.edge_at_spec(eid, next)) by {
        law_neighbours_follow_edges(anchor, basis, rows, txn.basis, eid);
        assert(same_edge(txn.overlay_edge(before, eid), after.edge_at_spec(eid, next)));
    }
    assert forall|vid: VId| #[trigger]
        neighbours.contains(vid) <==> exists|eid: EId| #[trigger]
            anchor.of(after.edge_at_spec(eid, next)) == Some(vid) by {
        if neighbours.contains(vid) {
            let eid = choose|eid: EId| #[trigger]
                anchor.after_rows(anchor.of(basis(eid)), eid, rows) == Some(vid);
            assert(anchor.of(after.edge_at_spec(eid, next)) == Some(vid));
        }
        if exists|eid: EId| #[trigger] anchor.of(after.edge_at_spec(eid, next)) == Some(vid) {
            let eid = choose|eid: EId| #[trigger]
                anchor.of(after.edge_at_spec(eid, next)) == Some(vid);
            assert(anchor.after_rows(anchor.of(basis(eid)), eid, rows) == Some(vid));
        }
    }
}

/// The neighbours of a staged transaction are those of the edges that it sees: staging
/// accepts no template that creates an edge while it is there.
pub proof fn law_staged_neighbours_are_seen(
    origin: WriteTxn,
    txn: WriteTxn,
    database: Database,
    batches: Seq<WriteBatch>,
    limit: Option<u64>,
    log: Seq<Event>,
    log_after: Seq<Event>,
    anchor: Anchor,
    neighbours: Seq<VId>,
)
    requires
        database.wf(),
        stages(origin, txn, database, batches, limit, log, log_after, Ok(())),
        anchor.lists_neighbours(
            neighbours,
            |eid: EId| database.edge_at_spec(eid, txn.basis),
            txn.prepared_rows(),
        ),
    ensures
        forall|vid: VId| #[trigger]
            neighbours.contains(vid) <==> exists|eid: EId| #[trigger]
                anchor.of(txn.overlay_edge(database, eid)) == Some(vid),
{
    let basis = |eid: EId| database.edge_at_spec(eid, txn.basis);
    let rows = txn.prepared_rows();
    lemma_staged_is_fresh(origin, txn, database, batches, limit, log, log_after);
    assert forall|eid: EId| #[trigger] anchor.after_rows(anchor.of(basis(eid)), eid, rows)
        == anchor.of(txn.overlay_edge(database, eid)) by {
        law_neighbours_follow_edges(anchor, basis, rows, txn.basis, eid);
    }
    assert forall|vid: VId| #[trigger]
        neighbours.contains(vid) <==> exists|eid: EId| #[trigger]
            anchor.of(txn.overlay_edge(database, eid)) == Some(vid) by {
        if neighbours.contains(vid) {
            let eid = choose|eid: EId| #[trigger]
                anchor.after_rows(anchor.of(basis(eid)), eid, rows) == Some(vid);
            assert(anchor.of(txn.overlay_edge(database, eid)) == Some(vid));
        }
        if exists|eid: EId| #[trigger] anchor.of(txn.overlay_edge(database, eid)) == Some(vid) {
            let eid = choose|eid: EId| #[trigger]
                anchor.of(txn.overlay_edge(database, eid)) == Some(vid);
            assert(anchor.after_rows(anchor.of(basis(eid)), eid, rows) == Some(vid));
        }
    }
}

proof fn lemma_staged_is_fresh(
    origin: WriteTxn,
    txn: WriteTxn,
    database: Database,
    batches: Seq<WriteBatch>,
    limit: Option<u64>,
    log: Seq<Event>,
    log_after: Seq<Event>,
)
    requires
        database.wf(),
        stages(origin, txn, database, batches, limit, log, log_after, Ok(())),
    ensures
        txn.prepared is Some,
        txn.basis.0 == database.tip(),
        creations_are_fresh(
            |eid: EId| database.edge_at_spec(eid, txn.basis),
            txn.prepared_rows(),
            txn.basis,
        ),
{
    assert(fresh_on(database, txn.prepared->0.template));
    assert(txn.basis == CommitSeq(database.tip() as u64));
    let basis = |eid: EId| database.edge_at_spec(eid, txn.basis);
    assert(current_edges(database) =~= basis);
}

/// What one end of a relation reads as outgoing, the other reads as incoming, once
/// something is staged.
pub proof fn law_outgoing_is_incoming(
    origin: WriteTxn,
    txn: WriteTxn,
    database: Database,
    batches: Seq<WriteBatch>,
    limit: Option<u64>,
    log: Seq<Event>,
    log_after: Seq<Event>,
    relation: RelationId,
    src: VId,
    dst: VId,
    outgoing: Seq<VId>,
    incoming: Seq<VId>,
)
    requires
        database.wf(),
        stages(origin, txn, database, batches, limit, log, log_after, Ok(())),
        (Anchor { vertex: src, relation, incoming: false }).lists_neighbours(
            outgoing,
            |eid: EId| database.edge_at_spec(eid, txn.basis),
            txn.prepared_rows(),
        ),
        (Anchor { vertex: dst, relation, incoming: true }).lists_neighbours(
            incoming,
            |eid: EId| database.edge_at_spec(eid, txn.basis),
            txn.prepared_rows(),
        ),
    ensures
        outgoing.contains(dst) <==> incoming.contains(src),
{
    let out = Anchor { vertex: src, relation, incoming: false };
    let into = Anchor { vertex: dst, relation, incoming: true };
    law_staged_neighbours_are_seen(
        origin, txn, database, batches, limit, log, log_after, out, outgoing,
    );
    law_staged_neighbours_are_seen(
        origin, txn, database, batches, limit, log, log_after, into, incoming,
    );
    if outgoing.contains(dst) {
        let eid = choose|eid: EId| #[trigger]
            out.of(txn.overlay_edge(database, eid)) == Some(dst);
        assert(into.of(txn.overlay_edge(database, eid)) == Some(src));
    }
    if incoming.contains(src) {
        let eid = choose|eid: EId| #[trigger]
            into.of(txn.overlay_edge(database, eid)) == Some(src);
        assert(out.of(txn.overlay_edge(database, eid)) == Some(dst));
    }
}

/// The neighbours that a staged transaction reads are those the database holds once
/// exactly its prepared rows are published.
pub proof fn law_staged_neighbours_are_published(
    origin: WriteTxn,
    txn: WriteTxn,
    before: Database,
    after: Database,
    batches: Seq<WriteBatch>,
    limit: Option<u64>,
    log: Seq<Event>,
    log_after: Seq<Event>,
    anchor: Anchor,
    neighbours: Seq<VId>,
)
    requires
        before.wf(),
        before.tip() < u64::MAX,
        stages(origin, txn, before, batches, limit, log, log_after, Ok(())),
        published(before, after, txn.prepared->0.template),
        anchor.lists_neighbours(
            neighbours,
            |eid: EId| before.edge_at_spec(eid, txn.basis),
            txn.prepared_rows(),
        ),
    ensures
        forall|vid: VId| #[trigger]
            neighbours.contains(vid) <==> exists|eid: EId| #[trigger]
                anchor.of(after.edge_at_spec(eid, CommitSeq((before.tip() + 1) as u64))) == Some(
                    vid,
                ),
{
    lemma_staged_is_fresh(origin, txn, before, batches, limit, log, log_after);
    law_neighbours_are_published(txn, before, after, anchor, neighbours);
}

/// A bulk read and a point read agree: the list holds an edge exactly when its
/// point read finds it, and holds it as found.
pub proof fn law_bulk_reads_are_point_reads(
    records: Seq<EdgeRecord>,
    txn: WriteTxn,
    database: Database,
    eid: EId,
)
    requires
        lists_edges(records, |edge: EId| txn.overlay_edge(database, edge)),
    ensures
        match txn.overlay_edge(database, eid) {
            Some(view) => exists|i: int| 0 <= i < records.len() && (#[trigger] records[i])@ == view,
            None => forall|i: int|
                0 <= i < records.len() ==> (#[trigger] records[i]).entry.eid != eid,
        },
{
    let graph = |edge: EId| txn.overlay_edge(database, edge);
    assert(graph(eid) == txn.overlay_edge(database, eid));
    if graph(eid) is Some {
        let i = choose|i: int| 0 <= i < records.len() && (#[trigger] records[i]).entry.eid == eid;
        assert(graph(records[i].entry.eid) == Some(records[i]@));
    } else {
        assert forall|i: int| 0 <= i < records.len() implies (#[trigger] records[i]).entry.eid
            != eid by {
            assert(graph(records[i].entry.eid) == Some(records[i]@));
        }
    }
}

/// Deleting one of two parallel edges keeps their common neighbour.
pub proof fn law_parallel_edge_keeps_neighbour(
    anchor: Anchor,
    basis: spec_fn(EId) -> Option<EdgeView>,
    rows: Seq<DeltaRow>,
    deleted: EId,
    kept: EId,
    vid: VId,
)
    requires
        deleted != kept,
        anchor.after_rows(anchor.of(basis(deleted)), deleted, rows) == Some(vid),
        anchor.after_rows(anchor.of(basis(kept)), kept, rows) == Some(vid),
    ensures
        anchor.after_rows(
            anchor.of(basis(deleted)),
            deleted,
            rows.push(DeltaRow::DeleteEdge { eid: deleted }),
        ) is None,
        anchor.after_rows(
            anchor.of(basis(kept)),
            kept,
            rows.push(DeltaRow::DeleteEdge { eid: deleted }),
        ) == Some(vid),
{
    assert(rows.push(DeltaRow::DeleteEdge { eid: deleted }).drop_last() =~= rows);
}

} // verus!
