//! What validation is for: reads, scans and writes of a transaction hold of the
//! frontier through which it validated.

use vstd::prelude::*;
use crate::commit::{concludes_completion, same_history, CompletionRun};
use crate::conflict::{touched, touched_by};
use crate::conflict_laws::law_no_conflict_iff_independent;
use crate::database::Database;
use crate::errors::{Law, WriteTxnError};
use crate::finish::closes;
use crate::graph::{edge_after_rows, vertex_after_rows, DeltaRow, EdgeView, VertexView};
use crate::ids::{CommitSeq, EId, ElementId, LabelId, RelationId, VId};
use crate::read_laws::{
    lemma_edge_prefix, lemma_same_edge_after_rows, lemma_vertex_prefix, published, same_edge,
};
use crate::session::{Event, Metering};
use crate::txn::{EmbeddedTxnCompletion, WriteTxn};

verus! {

/// The transaction validated through the database's frontier without a conflict.
pub open spec fn validated_through(txn: WriteTxn, database: Database) -> bool {
    &&& database.base_seq.0 <= txn.basis.0 <= database.tip()
    &&& txn.validated(
        database,
        Ok::<Option<(Law, ElementId, CommitSeq)>, WriteTxnError>(None),
    )
}

/// The transaction read the element, or its writes depend on it.
pub open spec fn depends_on(txn: WriteTxn, element: ElementId) -> bool {
    txn.read_set@.contains(element) || txn.depends_on_write(element)
}

pub proof fn lemma_untouched_edge(current: Option<EdgeView>, eid: EId, rows: Seq<DeltaRow>, at: CommitSeq)
    requires
        !touched(rows, ElementId::Edge(eid)),
    ensures
        edge_after_rows(current, eid, rows, at) == current,
    decreases rows.len(),
{
    if rows.len() > 0 {
        let rest = rows.drop_last();
        if touched(rest, ElementId::Edge(eid)) {
            let i = choose|i: int|
                0 <= i < rest.len() && touched_by(#[trigger] rest[i], ElementId::Edge(eid));
            assert(touched_by(rows[i], ElementId::Edge(eid)));
        }
        lemma_untouched_edge(current, eid, rest, at);
        assert(!touched_by(rows[rows.len() - 1], ElementId::Edge(eid)));
    }
}

pub proof fn lemma_untouched_vertex(current: Option<VertexView>, vid: VId, rows: Seq<DeltaRow>)
    requires
        !touched(rows, ElementId::Vertex(vid)),
    ensures
        vertex_after_rows(current, vid, rows) == current,
    decreases rows.len(),
{
    if rows.len() > 0 {
        let rest = rows.drop_last();
        if touched(rest, ElementId::Vertex(vid)) {
            let i = choose|i: int|
                0 <= i < rest.len() && touched_by(#[trigger] rest[i], ElementId::Vertex(vid));
            assert(touched_by(rows[i], ElementId::Vertex(vid)));
        }
        lemma_untouched_vertex(current, vid, rest);
        assert(!touched_by(rows[rows.len() - 1], ElementId::Vertex(vid)));
    }
}

pub proof fn lemma_commit_is_independent(txn: WriteTxn, database: Database, n: int)
    requires
        validated_through(txn, database),
        txn.has_dependencies(),
        txn.basis.0 - database.base_seq.0 <= n < database.log@.len(),
    ensures
        txn.batch_conflict(database.log@[n].template.rows(), None),
{
    assert(database.history_refusal(txn.basis) is None);
}

proof fn lemma_current_edge(txn: WriteTxn, database: Database, eid: EId, n: int)
    requires
        validated_through(txn, database),
        depends_on(txn, ElementId::Edge(eid)),
        txn.basis.0 - database.base_seq.0 <= n <= database.log@.len(),
    ensures
        database.edge_after_commits(eid, n) == database.edge_at_spec(eid, txn.basis),
    decreases n,
{
    if n > txn.basis.0 - database.base_seq.0 {
        lemma_current_edge(txn, database, eid, n - 1);
        assert(txn.has_dependencies());
        let rows = database.log@[n - 1].template.rows();
        lemma_commit_is_independent(txn, database, n - 1);
        law_no_conflict_iff_independent(txn, rows);
        lemma_untouched_edge(
            database.edge_after_commits(eid, n - 1),
            eid,
            rows,
            database.log@[n - 1].commit_seq,
        );
    }
}

proof fn lemma_current_vertex(txn: WriteTxn, database: Database, vid: VId, n: int)
    requires
        validated_through(txn, database),
        depends_on(txn, ElementId::Vertex(vid)),
        txn.basis.0 - database.base_seq.0 <= n <= database.log@.len(),
    ensures
        database.vertex_after_commits(vid, n) == database.vertex_at_spec(vid, txn.basis),
    decreases n,
{
    if n > txn.basis.0 - database.base_seq.0 {
        lemma_current_vertex(txn, database, vid, n - 1);
        assert(txn.has_dependencies());
        let rows = database.log@[n - 1].template.rows();
        lemma_commit_is_independent(txn, database, n - 1);
        law_no_conflict_iff_independent(txn, rows);
        lemma_untouched_vertex(database.vertex_after_commits(vid, n - 1), vid, rows);
    }
}

/// Whatever a validated transaction read, or means to write, is at the frontier
/// what it was at the pinned basis.
pub proof fn law_validated_reads_are_current(txn: WriteTxn, database: Database)
    requires
        database.wf(),
        validated_through(txn, database),
    ensures
        forall|eid: EId| #[trigger]
            depends_on(txn, ElementId::Edge(eid)) ==> database.edge_at_spec(
                eid,
                CommitSeq(database.tip() as u64),
            ) == database.edge_at_spec(eid, txn.basis),
        forall|vid: VId| #[trigger]
            depends_on(txn, ElementId::Vertex(vid)) ==> database.vertex_at_spec(
                vid,
                CommitSeq(database.tip() as u64),
            ) == database.vertex_at_spec(vid, txn.basis),
{
    let n = database.log@.len() as int;
    assert forall|eid: EId| #[trigger] depends_on(txn, ElementId::Edge(eid)) implies database.edge_at_spec(
        eid,
        CommitSeq(database.tip() as u64),
    ) == database.edge_at_spec(eid, txn.basis) by {
        lemma_current_edge(txn, database, eid, n);
    }
    assert forall|vid: VId| #[trigger] depends_on(txn, ElementId::Vertex(vid)) implies database.vertex_at_spec(
        vid,
        CommitSeq(database.tip() as u64),
    ) == database.vertex_at_spec(vid, txn.basis) by {
        lemma_current_vertex(txn, database, vid, n);
    }
}

/// Once a validated transaction is published, readers see of everything that it
/// read or wrote what the transaction itself saw, even where other commits came
/// first. Only the creation stamps are new.
pub proof fn law_committed_effects_are_what_was_read(
    txn: WriteTxn,
    before: Database,
    after: Database,
)
    requires
        before.wf(),
        before.tip() < u64::MAX,
        validated_through(txn, before),
        txn.prepared is Some,
        published(before, after, txn.prepared->0.template),
    ensures
        forall|eid: EId| #[trigger]
            depends_on(txn, ElementId::Edge(eid)) ==> same_edge(
                txn.overlay_edge(before, eid),
                after.edge_at_spec(eid, CommitSeq((before.tip() + 1) as u64)),
            ),
        forall|vid: VId| #[trigger]
            depends_on(txn, ElementId::Vertex(vid)) ==> txn.overlay_vertex(before, vid)
                == after.vertex_at_spec(vid, CommitSeq((before.tip() + 1) as u64)),
{
    let template = txn.prepared->0.template;
    let n = before.log@.len() as int;
    assert(after.log@[n].template == template);
    assert forall|eid: EId| #[trigger] depends_on(txn, ElementId::Edge(eid)) implies same_edge(
        txn.overlay_edge(before, eid),
        after.edge_at_spec(eid, CommitSeq((before.tip() + 1) as u64)),
    ) by {
        lemma_current_edge(txn, before, eid, n);
        lemma_edge_prefix(before, after, template, eid, n);
        let base = before.edge_after_commits(eid, n);
        lemma_same_edge_after_rows(
            base,
            base,
            eid,
            template.rows(),
            txn.basis,
            after.log@[n].commit_seq,
        );
    }
    assert forall|vid: VId| #[trigger] depends_on(txn, ElementId::Vertex(vid)) implies txn.overlay_vertex(
        before,
        vid,
    ) == after.vertex_at_spec(vid, CommitSeq((before.tip() + 1) as u64)) by {
        lemma_current_vertex(txn, before, vid, n);
        lemma_vertex_prefix(before, after, template, vid, n);
    }
}

/// A vertex that carries the label.
pub open spec fn labelled(vertex: Option<VertexView>, label: LabelId) -> bool {
    vertex matches Some(view) && view.labels.contains(label)
}

/// An edge that leaves the vertex in the relation.
pub open spec fn leaves(edge: Option<EdgeView>, src: VId, relation: RelationId) -> bool {
    edge matches Some(view) && view.entry.src == src && view.entry.relation == relation
}

proof fn lemma_no_new_vertex(
    txn: WriteTxn,
    current: Option<VertexView>,
    vid: VId,
    label: LabelId,
    rows: Seq<DeltaRow>,
)
    requires
        forall|i: int| 0 <= i < rows.len() ==> txn.row_phantom(#[trigger] rows[i]) is None,
    ensures
        txn.scanned_vertices && vertex_after_rows(current, vid, rows) is Some ==> current is Some,
        txn.scanned_label(label) && labelled(vertex_after_rows(current, vid, rows), label)
            ==> labelled(current, label),
    decreases rows.len(),
{
    if rows.len() > 0 {
        let rest = rows.drop_last();
        assert forall|i: int| 0 <= i < rest.len() implies txn.row_phantom(#[trigger] rest[i]) is None by {
            assert(rest[i] == rows[i]);
        }
        lemma_no_new_vertex(txn, current, vid, label, rest);
        let row = rows[rows.len() - 1];
        assert(txn.row_phantom(row) is None);
        if let DeltaRow::CreateVertex { labels, .. } = row {
            if labels@.to_set().contains(label) {
                let i = choose|i: int| 0 <= i < labels@.len() && labels@[i] == label;
                assert(labels@[i] == label);
            }
        }
    }
}

proof fn lemma_no_new_edge(
    txn: WriteTxn,
    current: Option<EdgeView>,
    eid: EId,
    src: VId,
    relation: RelationId,
    rows: Seq<DeltaRow>,
    at: CommitSeq,
)
    requires
        forall|i: int| 0 <= i < rows.len() ==> txn.row_phantom(#[trigger] rows[i]) is None,
    ensures
        txn.scanned_edges && edge_after_rows(current, eid, rows, at) is Some ==> current is Some,
        txn.match_expansions@.contains((src, relation)) && leaves(
            edge_after_rows(current, eid, rows, at),
            src,
            relation,
        ) ==> leaves(current, src, relation),
    decreases rows.len(),
{
    if rows.len() > 0 {
        let rest = rows.drop_last();
        assert forall|i: int| 0 <= i < rest.len() implies txn.row_phantom(#[trigger] rest[i]) is None by {
            assert(rest[i] == rows[i]);
        }
        lemma_no_new_edge(txn, current, eid, src, relation, rest, at);
        assert(txn.row_phantom(rows[rows.len() - 1]) is None);
    }
}

proof fn lemma_scanned_vertex(txn: WriteTxn, database: Database, vid: VId, label: LabelId, n: int)
    requires
        validated_through(txn, database),
        txn.scanned_vertices || txn.scanned_label(label),
        txn.basis.0 - database.base_seq.0 <= n <= database.log@.len(),
    ensures
        txn.scanned_vertices && database.vertex_after_commits(vid, n) is Some
            ==> database.vertex_at_spec(vid, txn.basis) is Some,
        txn.scanned_label(label) && labelled(database.vertex_after_commits(vid, n), label)
            ==> labelled(database.vertex_at_spec(vid, txn.basis), label),
    decreases n,
{
    if n > txn.basis.0 - database.base_seq.0 {
        lemma_scanned_vertex(txn, database, vid, label, n - 1);
        assert(txn.has_dependencies()) by {
            assert(txn.scanned_label(label) ==> txn.scanned_vertex_labels@.contains(label.0 as u128));
        }
        let rows = database.log@[n - 1].template.rows();
        lemma_commit_is_independent(txn, database, n - 1);
        law_no_conflict_iff_independent(txn, rows);
        lemma_no_new_vertex(txn, database.vertex_after_commits(vid, n - 1), vid, label, rows);
    }
}

proof fn lemma_scanned_edge(
    txn: WriteTxn,
    database: Database,
    eid: EId,
    src: VId,
    relation: RelationId,
    n: int,
)
    requires
        validated_through(txn, database),
        txn.scanned_edges || txn.match_expansions@.contains((src, relation)),
        txn.basis.0 - database.base_seq.0 <= n <= database.log@.len(),
    ensures
        txn.scanned_edges && database.edge_after_commits(eid, n) is Some ==> database.edge_at_spec(
            eid,
            txn.basis,
        ) is Some,
        txn.match_expansions@.contains((src, relation)) && leaves(
            database.edge_after_commits(eid, n),
            src,
            relation,
        ) ==> leaves(database.edge_at_spec(eid, txn.basis), src, relation),
    decreases n,
{
    if n > txn.basis.0 - database.base_seq.0 {
        lemma_scanned_edge(txn, database, eid, src, relation, n - 1);
        assert(txn.has_dependencies());
        let rows = database.log@[n - 1].template.rows();
        lemma_commit_is_independent(txn, database, n - 1);
        law_no_conflict_iff_independent(txn, rows);
        lemma_no_new_edge(
            txn,
            database.edge_after_commits(eid, n - 1),
            eid,
            src,
            relation,
            rows,
            database.log@[n - 1].commit_seq,
        );
    }
}

/// Nothing appeared under a validated scan: a vertex, a labelled vertex, an edge or
/// an expanded edge of the frontier stood at the pinned basis already.
pub proof fn law_validated_scans_meet_no_phantom(txn: WriteTxn, database: Database)
    requires
        database.wf(),
        validated_through(txn, database),
    ensures
        txn.scanned_vertices ==> forall|vid: VId|
            (#[trigger] database.vertex_at_spec(vid, CommitSeq(database.tip() as u64))) is Some
                ==> database.vertex_at_spec(vid, txn.basis) is Some,
        forall|vid: VId, label: LabelId|
            txn.scanned_label(label) && #[trigger] labelled(
                database.vertex_at_spec(vid, CommitSeq(database.tip() as u64)),
                label,
            ) ==> labelled(database.vertex_at_spec(vid, txn.basis), label),
        txn.scanned_edges ==> forall|eid: EId|
            (#[trigger] database.edge_at_spec(eid, CommitSeq(database.tip() as u64))) is Some
                ==> database.edge_at_spec(eid, txn.basis) is Some,
        forall|eid: EId, src: VId, relation: RelationId|
            txn.match_expansions@.contains((src, relation)) && #[trigger] leaves(
                database.edge_at_spec(eid, CommitSeq(database.tip() as u64)),
                src,
                relation,
            ) ==> leaves(database.edge_at_spec(eid, txn.basis), src, relation),
{
    let n = database.log@.len() as int;
    let tip = CommitSeq(database.tip() as u64);
    if txn.scanned_vertices {
        assert forall|vid: VId| (#[trigger] database.vertex_at_spec(vid, tip)) is Some implies database.vertex_at_spec(
            vid,
            txn.basis,
        ) is Some by {
            lemma_scanned_vertex(txn, database, vid, LabelId(0), n);
        }
    }
    assert forall|vid: VId, label: LabelId|
        txn.scanned_label(label) && #[trigger] labelled(
            database.vertex_at_spec(vid, tip),
            label,
        ) implies labelled(database.vertex_at_spec(vid, txn.basis), label) by {
        lemma_scanned_vertex(txn, database, vid, label, n);
    }
    if txn.scanned_edges {
        assert forall|eid: EId| (#[trigger] database.edge_at_spec(eid, tip)) is Some implies database.edge_at_spec(
            eid,
            txn.basis,
        ) is Some by {
            lemma_scanned_edge(txn, database, eid, VId(0), RelationId(0), n);
        }
    }
    assert forall|eid: EId, src: VId, relation: RelationId|
        txn.match_expansions@.contains((src, relation)) && #[trigger] leaves(
            database.edge_at_spec(eid, tip),
            src,
            relation,
        ) implies leaves(database.edge_at_spec(eid, txn.basis), src, relation) by {
        lemma_scanned_edge(txn, database, eid, src, relation, n);
    }
}

/// A write that completes is published exactly as it was prepared, under the next
/// commit sequence, and shows everything that the transaction read or wrote as the
/// transaction saw it.
pub proof fn law_commit_shows_what_was_read(
    txn: WriteTxn,
    ended: WriteTxn,
    before: Database,
    after: Database,
    require_write: bool,
    metered: Metering,
    log: Seq<Event>,
    log_after: Seq<Event>,
    run: CompletionRun,
    commit_seq: CommitSeq,
)
    requires
        before.wf(),
        before.tip() < u64::MAX,
        before.base_seq.0 <= txn.basis.0 <= before.tip(),
        closes(txn, run.accepted, before, require_write, metered, log, log_after, run.closed),
        concludes_completion(
            ended,
            before,
            after,
            run,
            Ok(EmbeddedTxnCompletion::WriteCommitted { commit_seq }),
        ),
    ensures
        commit_seq.0 == before.tip() + 1,
        txn.prepared is Some,
        published(before, after, txn.prepared->0.template),
        forall|eid: EId| #[trigger]
            depends_on(txn, ElementId::Edge(eid)) ==> same_edge(
                txn.overlay_edge(before, eid),
                after.edge_at_spec(eid, commit_seq),
            ),
        forall|vid: VId| #[trigger]
            depends_on(txn, ElementId::Vertex(vid)) ==> txn.overlay_vertex(before, vid)
                == after.vertex_at_spec(vid, commit_seq),
{
    law_committed_effects_are_what_was_read(txn, before, after);
}

/// A completion that fails, or that closes as a read, publishes nothing.
pub proof fn law_unsuccessful_completion_publishes_nothing(
    ended: WriteTxn,
    before: Database,
    after: Database,
    run: CompletionRun,
    done: Result<EmbeddedTxnCompletion, WriteTxnError>,
)
    requires
        concludes_completion(ended, before, after, run, done),
        !(done matches Ok(EmbeddedTxnCompletion::WriteCommitted { .. })),
    ensures
        same_history(before, after),
{
}

} // verus!
