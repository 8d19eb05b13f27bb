//! What the dependencies of staged writes are for: a validated write finds everything
//! that it names as it was, and leaves no edge without its endpoints.

use vstd::prelude::*;
use crate::append_rebase::{
    attaches, committed_rows, creates, first_crossing, intent_attaches, intent_creates,
    rebase_refusal, rebases,
};
use crate::authorized_run::lemma_intents_at;
use crate::batch::{intents, intents_upto, PendingRow};
use crate::commit::{concludes_completion, CompletionRun};
use crate::conflict::{endpoint, endpoint_of, intended, intent_touches, touched, touched_by};
use crate::conflict_laws::{
    law_no_conflict_iff_independent, law_rebase_crosses_only_independent_history,
};
use crate::database::{frontier_of, Database};
use crate::errors::WriteTxnError;
use crate::finish::closes;
use crate::graph::{
    edge_after, edge_after_rows, vertex_after, vertex_after_rows, DeltaRow, EdgeView, VertexView,
};
use crate::ids::{CommitSeq, EId, ElementId, LabelId, RelationId, VId};
use crate::read_laws::{lemma_edge_prefix, lemma_vertex_prefix, published, same_edge};
use crate::session::{Event, Metering};
use crate::txn::{EmbeddedTxnCompletion, WriteTxn};
use crate::validation_laws::{
    depends_on, labelled, law_commit_shows_what_was_read, law_committed_effects_are_what_was_read,
    law_validated_reads_are_current, leaves, lemma_commit_is_independent, lemma_untouched_edge,
    lemma_untouched_vertex, validated_through,
};

verus! {

/// The vertex is at the frontier what it was at the basis.
pub open spec fn vertex_stands(txn: WriteTxn, database: Database, vid: VId) -> bool {
    database.vertex_at_spec(vid, CommitSeq(database.tip() as u64)) == database.vertex_at_spec(
        vid,
        txn.basis,
    )
}

/// The edge is at the frontier what it was at the basis.
pub open spec fn edge_stands(txn: WriteTxn, database: Database, eid: EId) -> bool {
    database.edge_at_spec(eid, CommitSeq(database.tip() as u64)) == database.edge_at_spec(
        eid,
        txn.basis,
    )
}

/// Whatever a staged intent names is, once the transaction validates through the
/// frontier, still what it was at the basis: the written element, and both endpoints of
/// an edge.
pub proof fn law_staged_targets_are_current(txn: WriteTxn, database: Database, b: int, r: int)
    requires
        database.wf(),
        validated_through(txn, database),
        0 <= b < txn.staged@.len(),
        0 <= r < txn.staged@[b].rows@.len(),
    ensures
        match txn.staged@[b].rows@[r] {
            PendingRow::Edge { eid, src, dst, .. } => {
                &&& edge_stands(txn, database, eid)
                &&& vertex_stands(txn, database, src)
                &&& vertex_stands(txn, database, dst)
            },
            PendingRow::DeleteEdge { eid, .. } => edge_stands(txn, database, eid),
            PendingRow::SetEdgeProperty { eid, .. } => edge_stands(txn, database, eid),
            PendingRow::CompareAndSet { elem: ElementId::Edge(eid), .. } => edge_stands(
                txn,
                database,
                eid,
            ),
            PendingRow::CompareAndSet { elem: ElementId::Vertex(vid), .. } => vertex_stands(
                txn,
                database,
                vid,
            ),
            PendingRow::Vertex { vid, .. } => vertex_stands(txn, database, vid),
            PendingRow::DeleteVertex { vid } => vertex_stands(txn, database, vid),
            PendingRow::SetLabel { vid, .. } => vertex_stands(txn, database, vid),
            PendingRow::SetProperty { vid, .. } => vertex_stands(txn, database, vid),
        },
{
    law_validated_reads_are_current(txn, database);
    let row = txn.staged@[b].rows@[r];
    assert forall|element: ElementId| #[trigger] intent_touches(row, element) implies depends_on(
        txn,
        element,
    ) by {
        lemma_staged_is_a_dependency(txn, b, r, element);
    }
    match row {
        PendingRow::Edge { eid, src, dst, .. } => {
            assert(intent_touches(row, ElementId::Edge(eid)));
            assert(intent_touches(row, ElementId::Vertex(src)));
            assert(intent_touches(row, ElementId::Vertex(dst)));
        },
        PendingRow::DeleteEdge { eid, .. } => {
            assert(intent_touches(row, ElementId::Edge(eid)));
        },
        PendingRow::SetEdgeProperty { eid, .. } => {
            assert(intent_touches(row, ElementId::Edge(eid)));
        },
        PendingRow::CompareAndSet { elem, .. } => {
            assert(intent_touches(row, elem));
        },
        PendingRow::Vertex { vid, .. } => {
            assert(intent_touches(row, ElementId::Vertex(vid)));
        },
        PendingRow::DeleteVertex { vid } => {
            assert(intent_touches(row, ElementId::Vertex(vid)));
        },
        PendingRow::SetLabel { vid, .. } => {
            assert(intent_touches(row, ElementId::Vertex(vid)));
        },
        PendingRow::SetProperty { vid, .. } => {
            assert(intent_touches(row, ElementId::Vertex(vid)));
        },
    }
}

proof fn lemma_staged_is_a_dependency(txn: WriteTxn, b: int, r: int, element: ElementId)
    requires
        0 <= b < txn.staged@.len(),
        0 <= r < txn.staged@[b].rows@.len(),
        intent_touches(txn.staged@[b].rows@[r], element),
    ensures
        depends_on(txn, element),
{
    lemma_intents_at(txn.staged@, b);
    let at = intents_upto(txn.staged@, b).len() + r;
    assert(intents(txn.staged@)[at] == (txn.staged@[b].relation, txn.staged@[b].rows@[r]));
    assert(intended(intents(txn.staged@), element));
}

/// Every edge of the snapshot has both of its endpoints in it.
pub open spec fn attached(database: Database, seq: CommitSeq) -> bool {
    forall|eid: EId|
        (#[trigger] database.edge_at_spec(eid, seq)) matches Some(edge) ==> {
            &&& database.vertex_at_spec(edge.entry.src, seq) is Some
            &&& database.vertex_at_spec(edge.entry.dst, seq) is Some
        }
}

/// Every edge that the transaction sees has both of its endpoints in its sight.
pub open spec fn sees_attached(txn: WriteTxn, database: Database) -> bool {
    forall|eid: EId|
        (#[trigger] txn.overlay_edge(database, eid)) matches Some(edge) ==> {
            &&& txn.overlay_vertex(database, edge.entry.src) is Some
            &&& txn.overlay_vertex(database, edge.entry.dst) is Some
        }
}

/// An edge creation with these endpoints is staged.
pub open spec fn stages_edge(txn: WriteTxn, eid: EId, src: VId, dst: VId) -> bool {
    exists|b: int, r: int|
        {
            &&& 0 <= b < txn.staged@.len()
            &&& 0 <= r < txn.staged@[b].rows@.len()
            &&& (#[trigger] txn.staged@[b].rows@[r]) matches PendingRow::Edge {
                eid: e,
                src: s,
                dst: d,
                ..
            }
            &&& (e, s, d) == (eid, src, dst)
        }
}

/// Every edge that is prepared for creation was asked for.
pub open spec fn creates_what_is_staged(txn: WriteTxn) -> bool {
    forall|i: int|
        0 <= i < txn.prepared_rows().len() ==> ((#[trigger] txn.prepared_rows()[i]) matches
        DeltaRow::CreateEdge { eid, src, dst, .. } ==> stages_edge(txn, eid, src, dst))
}

/// An edge with an endpoint that no row attaches to was there before, between the same
/// vertices.
proof fn lemma_no_new_attachment(
    current: Option<EdgeView>,
    eid: EId,
    rows: Seq<DeltaRow>,
    at: CommitSeq,
    vid: VId,
)
    requires
        !endpoint(rows, ElementId::Vertex(vid)),
        edge_after_rows(current, eid, rows, at) matches Some(edge) && (edge.entry.src == vid
            || edge.entry.dst == vid),
    ensures
        current matches Some(before) && edge_after_rows(current, eid, rows, at)->0.entry
            == before.entry,
    decreases rows.len(),
{
    if rows.len() > 0 {
        let rest = rows.drop_last();
        if endpoint(rest, ElementId::Vertex(vid)) {
            let i = choose|i: int|
                0 <= i < rest.len() && endpoint_of(#[trigger] rest[i], ElementId::Vertex(vid));
            assert(endpoint_of(rows[i], ElementId::Vertex(vid)));
        }
        assert(!endpoint_of(rows[rows.len() - 1], ElementId::Vertex(vid)));
        lemma_no_new_attachment(current, eid, rest, at, vid);
    }
}

pub proof fn lemma_no_attachment_since(
    txn: WriteTxn,
    database: Database,
    eid: EId,
    vid: VId,
    n: int,
)
    requires
        validated_through(txn, database),
        depends_on(txn, ElementId::Vertex(vid)),
        txn.basis.0 - database.base_seq.0 <= n <= database.log@.len(),
        database.edge_after_commits(eid, n) matches Some(edge) && (edge.entry.src == vid
            || edge.entry.dst == vid),
    ensures
        database.edge_at_spec(eid, txn.basis) matches Some(before)
            && database.edge_after_commits(eid, n)->0.entry == before.entry,
    decreases n,
{
    if n > txn.basis.0 - database.base_seq.0 {
        assert(txn.has_dependencies());
        let rows = database.log@[n - 1].template.rows();
        lemma_commit_is_independent(txn, database, n - 1);
        law_no_conflict_iff_independent(txn, rows);
        assert(!endpoint(rows, ElementId::Vertex(vid)));
        lemma_no_new_attachment(
            database.edge_after_commits(eid, n - 1),
            eid,
            rows,
            database.log@[n - 1].commit_seq,
            vid,
        );
        lemma_no_attachment_since(txn, database, eid, vid, n - 1);
    }
}

/// An edge that its rows leave standing kept its entry, unless one of them creates it.
pub proof fn lemma_kept_or_created(
    current: Option<EdgeView>,
    eid: EId,
    rows: Seq<DeltaRow>,
    at: CommitSeq,
)
    requires
        edge_after_rows(current, eid, rows, at) is Some,
    ensures
        ({
            let after = edge_after_rows(current, eid, rows, at)->0.entry;
            ||| current matches Some(before) && before.entry == after
            ||| exists|i: int|
                0 <= i < rows.len() && ((#[trigger] rows[i]) matches DeltaRow::CreateEdge {
                    eid: e,
                    src,
                    dst,
                    ..
                } && (e, src, dst) == (eid, after.src, after.dst))
        }),
    decreases rows.len(),
{
    if rows.len() > 0 {
        let rest = rows.drop_last();
        let row = rows[rows.len() - 1];
        assert(row == rows.last());
        if row is CreateEdge && row->CreateEdge_eid == eid {
        } else {
            assert(edge_after_rows(current, eid, rest, at) is Some);
            lemma_kept_or_created(current, eid, rest, at);
            let after = edge_after_rows(current, eid, rest, at)->0.entry;
            if !(current matches Some(before) && before.entry == after) {
                let i = choose|i: int|
                    0 <= i < rest.len() && ((#[trigger] rest[i]) matches DeltaRow::CreateEdge {
                        eid: e,
                        src,
                        dst,
                        ..
                    } && (e, src, dst) == (eid, after.src, after.dst));
                assert(rows[i] == rest[i]);
            }
        }
    }
}

proof fn lemma_stays_attached(
    txn: WriteTxn,
    before: Database,
    after: Database,
    eid: EId,
    vid: VId,
)
    requires
        before.wf(),
        before.tip() < u64::MAX,
        validated_through(txn, before),
        txn.prepared is Some,
        published(before, after, txn.prepared->0.template),
        attached(before, CommitSeq(before.tip() as u64)),
        sees_attached(txn, before),
        creates_what_is_staged(txn),
        after.edge_at_spec(eid, CommitSeq((before.tip() + 1) as u64)) matches Some(edge) && (
        edge.entry.src == vid || edge.entry.dst == vid),
    ensures
        after.vertex_at_spec(vid, CommitSeq((before.tip() + 1) as u64)) is Some,
{
    let template = txn.prepared->0.template;
    let rows = template.rows();
    let n = before.log@.len() as int;
    let tip = CommitSeq(before.tip() as u64);
    let next = CommitSeq((before.tip() + 1) as u64);
    assert(after.log@[n].template == template);
    assert(txn.prepared_rows() == rows);
    law_committed_effects_are_what_was_read(txn, before, after);
    lemma_edge_prefix(before, after, template, eid, n);
    lemma_vertex_prefix(before, after, template, vid, n);
    let edge = after.edge_at_spec(eid, next)->0;
    let known = depends_on(txn, ElementId::Vertex(vid));
    if touched(rows, ElementId::Edge(eid)) {
        assert(depends_on(txn, ElementId::Edge(eid)));
        assert(same_edge(txn.overlay_edge(before, eid), after.edge_at_spec(eid, next)));
        assert(txn.overlay_vertex(before, vid) is Some);
        if !known {
            lemma_kept_or_created(
                before.edge_at_spec(eid, txn.basis),
                eid,
                rows,
                txn.basis,
            );
            let seen = txn.overlay_edge(before, eid)->0.entry;
            if before.edge_at_spec(eid, txn.basis) matches Some(old) && old.entry == seen {
                law_validated_reads_are_current(txn, before);
                assert(before.edge_at_spec(eid, tip) == before.edge_at_spec(eid, txn.basis));
            } else {
                let i = choose|i: int|
                    0 <= i < rows.len() && ((#[trigger] rows[i]) matches DeltaRow::CreateEdge {
                        eid: e,
                        src,
                        dst,
                        ..
                    } && (e, src, dst) == (eid, seen.src, seen.dst));
                assert(txn.prepared_rows()[i] is CreateEdge);
                assert(stages_edge(txn, eid, seen.src, seen.dst));
                let (b, r) = choose|b: int, r: int|
                    {
                        &&& 0 <= b < txn.staged@.len()
                        &&& 0 <= r < txn.staged@[b].rows@.len()
                        &&& (#[trigger] txn.staged@[b].rows@[r]) matches PendingRow::Edge {
                            eid: e,
                            src: s,
                            dst: d,
                            ..
                        }
                        &&& (e, s, d) == (eid, seen.src, seen.dst)
                    };
                lemma_staged_is_a_dependency(txn, b, r, ElementId::Vertex(vid));
            }
            assert(before.vertex_at_spec(vid, tip) is Some);
            lemma_untouched_vertex(before.vertex_after_commits(vid, n), vid, rows);
        }
    } else {
        lemma_untouched_edge(
            before.edge_after_commits(eid, n),
            eid,
            rows,
            after.log@[n].commit_seq,
        );
        assert(before.edge_at_spec(eid, tip) == Some(edge));
        assert(before.vertex_at_spec(vid, tip) is Some);
        if known {
            lemma_no_attachment_since(txn, before, eid, vid, n);
            lemma_untouched_edge(before.edge_at_spec(eid, txn.basis), eid, rows, txn.basis);
            assert(txn.overlay_edge(before, eid) == before.edge_at_spec(eid, txn.basis));
        } else {
            lemma_untouched_vertex(before.vertex_after_commits(vid, n), vid, rows);
        }
    }
}

/// Publishing a validated write on a graph whose edges all have their endpoints leaves
/// such a graph, whatever was committed since the basis: neither is an edge attached to
/// a vertex that has gone, nor does a deletion leave a concurrent edge behind. The
/// prepared rows must do so at the basis, and create only edges that were asked for.
pub proof fn law_publication_leaves_no_dangling_edge(
    txn: WriteTxn,
    before: Database,
    after: Database,
)
    requires
        before.wf(),
        before.tip() < u64::MAX,
        validated_through(txn, before),
        txn.prepared is Some,
        published(before, after, txn.prepared->0.template),
        attached(before, CommitSeq(before.tip() as u64)),
        sees_attached(txn, before),
        creates_what_is_staged(txn),
    ensures
        attached(after, CommitSeq((before.tip() + 1) as u64)),
{
    let next = CommitSeq((before.tip() + 1) as u64);
    assert forall|eid: EId|
        (#[trigger] after.edge_at_spec(eid, next)) is Some implies ({
        let edge = after.edge_at_spec(eid, next)->0;
        &&& after.vertex_at_spec(edge.entry.src, next) is Some
        &&& after.vertex_at_spec(edge.entry.dst, next) is Some
    }) by {
        let edge = after.edge_at_spec(eid, next)->0;
        lemma_stays_attached(txn, before, after, eid, edge.entry.src);
        lemma_stays_attached(txn, before, after, eid, edge.entry.dst);
    }
}

/// A write that commits with a staged edge creation found both endpoints as they were at
/// its basis, and the graph that it leaves has no dangling edge.
pub proof fn law_commit_finds_endpoints_as_they_were(
    txn: WriteTxn,
    ended: WriteTxn,
    before: Database,
    after: Database,
    require_write: bool,
    metered: Metering,
    log: Seq<Event>,
    log_after: Seq<Event>,
    run: CompletionRun,
    commit_seq: CommitSeq,
    eid: EId,
    src: VId,
    dst: VId,
)
    requires
        before.wf(),
        before.tip() < u64::MAX,
        before.base_seq.0 <= txn.basis.0 <= before.tip(),
        closes(txn, run.accepted, before, require_write, metered, log, log_after, run.closed),
        concludes_completion(
            ended,
            before,
            after,
            run,
            Ok(EmbeddedTxnCompletion::WriteCommitted { commit_seq }),
        ),
        stages_edge(txn, eid, src, dst),
    ensures
        edge_stands(txn, before, eid),
        vertex_stands(txn, before, src),
        vertex_stands(txn, before, dst),
        attached(before, CommitSeq(before.tip() as u64)) && sees_attached(txn, before)
            && creates_what_is_staged(txn) ==> attached(after, commit_seq),
{
    law_commit_shows_what_was_read(
        txn, ended, before, after, require_write, metered, log, log_after, run, commit_seq,
    );
    assert(validated_through(txn, before));
    let (b, r) = choose|b: int, r: int|
        {
            &&& 0 <= b < txn.staged@.len()
            &&& 0 <= r < txn.staged@[b].rows@.len()
            &&& (#[trigger] txn.staged@[b].rows@[r]) matches PendingRow::Edge {
                eid: e,
                src: s,
                dst: d,
                ..
            }
            &&& (e, s, d) == (eid, src, dst)
        };
    law_staged_targets_are_current(txn, before, b, r);
    if attached(before, CommitSeq(before.tip() as u64)) && sees_attached(txn, before)
        && creates_what_is_staged(txn) {
        law_publication_leaves_no_dangling_edge(txn, before, after);
    }
}

/// A row writes an element exactly when it changes some state of it, and attaches to a
/// vertex exactly when it brings an edge into being that has the vertex as an endpoint.
/// So no commit conflicts with what it leaves alone.
pub proof fn law_touches_are_changes(row: DeltaRow, at: CommitSeq)
    ensures
        forall|eid: EId| #[trigger]
            touched_by(row, ElementId::Edge(eid)) <==> exists|current: Option<EdgeView>|
                #[trigger] edge_after(current, eid, row, at) != current,
        forall|vid: VId| #[trigger]
            touched_by(row, ElementId::Vertex(vid)) <==> exists|current: Option<VertexView>|
                #[trigger] vertex_after(current, vid, row) != current,
        forall|vid: VId| #[trigger]
            endpoint_of(row, ElementId::Vertex(vid)) <==> exists|eid: EId|
                (#[trigger] edge_after(None, eid, row, at)) matches Some(edge) && (edge.entry.src
                    == vid || edge.entry.dst == vid),
        forall|eid: EId| !(#[trigger] endpoint_of(row, ElementId::Edge(eid))),
{
    assert forall|eid: EId| #[trigger]
        touched_by(row, ElementId::Edge(eid)) <==> exists|current: Option<EdgeView>|
            #[trigger] edge_after(current, eid, row, at) != current by {
        if touched_by(row, ElementId::Edge(eid)) {
            lemma_edge_is_changed(row, eid, at);
        }
    }
    assert forall|vid: VId| #[trigger]
        touched_by(row, ElementId::Vertex(vid)) <==> exists|current: Option<VertexView>|
            #[trigger] vertex_after(current, vid, row) != current by {
        if touched_by(row, ElementId::Vertex(vid)) {
            lemma_vertex_is_changed(row, vid);
        }
    }
    assert forall|vid: VId| #[trigger] endpoint_of(row, ElementId::Vertex(vid)) implies exists|
        eid: EId,
    |
        (#[trigger] edge_after(None, eid, row, at)) matches Some(edge) && (edge.entry.src == vid
            || edge.entry.dst == vid) by {
        let eid = row->CreateEdge_eid;
        assert(edge_after(None, eid, row, at) is Some);
    }
}

proof fn lemma_edge_is_changed(row: DeltaRow, eid: EId, at: CommitSeq)
    requires
        touched_by(row, ElementId::Edge(eid)),
    ensures
        exists|current: Option<EdgeView>| #[trigger] edge_after(current, eid, row, at) != current,
{
    let any: EdgeView = arbitrary();
    match row {
        DeltaRow::CreateEdge { .. } => {
            assert(edge_after(None, eid, row, at) is Some);
        },
        DeltaRow::Property { property, after, .. } => {
            let without = EdgeView { props: Map::empty(), ..any };
            let with = EdgeView { props: Map::empty().insert(property, arbitrary()), ..any };
            if after is Some {
                let changed = edge_after(Some(without), eid, row, at);
                assert(changed->0.props.dom().contains(property));
                assert(!without.props.dom().contains(property));
            } else {
                let changed = edge_after(Some(with), eid, row, at);
                assert(!changed->0.props.dom().contains(property));
                assert(with.props.dom().contains(property));
            }
        },
        _ => {
            assert(edge_after(Some(any), eid, row, at) is None);
        },
    }
}

proof fn lemma_vertex_is_changed(row: DeltaRow, vid: VId)
    requires
        touched_by(row, ElementId::Vertex(vid)),
    ensures
        exists|current: Option<VertexView>| #[trigger] vertex_after(current, vid, row) != current,
{
    let any: VertexView = arbitrary();
    match row {
        DeltaRow::CreateVertex { .. } => {
            assert(vertex_after(None, vid, row) is Some);
        },
        DeltaRow::LabelMembership { label, after, .. } => {
            let without = VertexView { labels: Set::empty(), ..any };
            let with = VertexView { labels: Set::empty().insert(label), ..any };
            if after {
                assert(vertex_after(Some(without), vid, row)->0.labels.contains(label));
                assert(!without.labels.contains(label));
            } else {
                assert(!vertex_after(Some(with), vid, row)->0.labels.contains(label));
                assert(with.labels.contains(label));
            }
        },
        DeltaRow::Property { property, after, .. } => {
            let without = VertexView { props: Map::empty(), ..any };
            let with = VertexView { props: Map::empty().insert(property, arbitrary()), ..any };
            if after is Some {
                let changed = vertex_after(Some(without), vid, row);
                assert(changed->0.props.dom().contains(property));
                assert(!without.props.dom().contains(property));
            } else {
                let changed = vertex_after(Some(with), vid, row);
                assert(!changed->0.props.dom().contains(property));
                assert(with.props.dom().contains(property));
            }
        },
        _ => {
            assert(vertex_after(Some(any), vid, row) is None);
        },
    }
}

/// An insertion conflicts with a scan exactly when the scan would have seen it: a new
/// vertex or edge under a complete scan, a vertex that gains a scanned label, or an edge
/// that leaves an expanded vertex in its relation.
pub proof fn law_phantoms_are_insertions_under_a_scan(txn: WriteTxn, row: DeltaRow, at: CommitSeq)
    ensures
        txn.row_phantom(row) is Some <==> {
            ||| txn.scanned_vertices && exists|vid: VId|
                (#[trigger] vertex_after(None, vid, row)) is Some
            ||| exists|vid: VId, label: LabelId, current: Option<VertexView>|
                txn.scanned_label(label) && !labelled(current, label) && #[trigger] labelled(
                    vertex_after(current, vid, row),
                    label,
                )
            ||| txn.scanned_edges && exists|eid: EId|
                (#[trigger] edge_after(None, eid, row, at)) is Some
            ||| exists|eid: EId, src: VId, relation: RelationId|
                txn.match_expansions@.contains((src, relation)) && #[trigger] leaves(
                    edge_after(None, eid, row, at),
                    src,
                    relation,
                )
        },
        txn.row_phantom(row) matches Some(element) ==> touched_by(row, element),
{
    if txn.row_phantom(row) is Some {
        match row {
            DeltaRow::CreateVertex { vid, labels, .. } => {
                assert(vertex_after(None, vid, row) is Some);
                if !txn.scanned_vertices {
                    let i = choose|i: int|
                        0 <= i < labels@.len() && txn.scanned_label(#[trigger] labels@[i]);
                    let none: Option<VertexView> = None;
                    assert(labels@.to_set().contains(labels@[i]));
                    assert(labelled(vertex_after(none, vid, row), labels@[i]));
                }
            },
            DeltaRow::LabelMembership { vid, label, .. } => {
                let bare = VertexView { labels: Set::empty(), ..arbitrary() };
                assert(labelled(vertex_after(Some(bare), vid, row), label));
            },
            DeltaRow::CreateEdge { eid, src, relation, .. } => {
                assert(edge_after(None, eid, row, at) is Some);
                assert(leaves(edge_after(None, eid, row, at), src, relation));
            },
            _ => {},
        }
    }
    if exists|vid: VId, label: LabelId, current: Option<VertexView>|
        txn.scanned_label(label) && !labelled(current, label) && #[trigger] labelled(
            vertex_after(current, vid, row),
            label,
        ) {
        let (vid, label, current) = choose|vid: VId, label: LabelId, current: Option<VertexView>|
            txn.scanned_label(label) && !labelled(current, label) && #[trigger] labelled(
                vertex_after(current, vid, row),
                label,
            );
        if let DeltaRow::CreateVertex { labels, .. } = row {
            assert(labels@.to_set().contains(label));
            let i = choose|i: int| 0 <= i < labels@.len() && labels@[i] == label;
            assert(txn.scanned_label(labels@[i]));
        }
    }
}

/// The vertex after rows that do not delete it is still there.
proof fn lemma_not_deleted(current: Option<VertexView>, vid: VId, rows: Seq<DeltaRow>)
    requires
        current is Some,
        forall|i: int|
            0 <= i < rows.len() ==> !((#[trigger] rows[i]) matches DeltaRow::DeleteVertex {
                vid: deleted,
                ..
            } && deleted == vid),
    ensures
        vertex_after_rows(current, vid, rows) is Some,
    decreases rows.len(),
{
    if rows.len() > 0 {
        let rest = rows.drop_last();
        assert forall|i: int| 0 <= i < rest.len() implies !((#[trigger] rest[i]) matches
        DeltaRow::DeleteVertex { vid: deleted, .. } && deleted == vid) by {
            assert(rest[i] == rows[i]);
        }
        lemma_not_deleted(current, vid, rest);
        assert(rows[rows.len() - 1] == rows.last());
    }
}

proof fn lemma_in_history(database: Database, start: int, end: int, n: int, i: int)
    requires
        start <= n < end,
        0 <= i < database.log@[n].template.rows().len(),
    ensures
        exists|k: int|
            0 <= k < committed_rows(database, start, end).len() && #[trigger] committed_rows(
                database,
                start,
                end,
            )[k] == database.log@[n].template.rows()[i],
    decreases end - start,
{
    let all = committed_rows(database, start, end);
    let rest = committed_rows(database, start, end - 1);
    if n == end - 1 {
        assert(all[rest.len() + i] == database.log@[n].template.rows()[i]);
    } else {
        lemma_in_history(database, start, end - 1, n, i);
        let k = choose|k: int|
            0 <= k < rest.len() && #[trigger] rest[k] == database.log@[n].template.rows()[i];
        assert(all[k] == rest[k]);
    }
}

proof fn lemma_kept_across(
    rows: Seq<(RelationId, PendingRow)>,
    database: Database,
    start: int,
    vid: VId,
    n: int,
)
    requires
        first_crossing(rows, committed_rows(database, start, database.log@.len() as int)) is None,
        attaches(rows, vid.0),
        0 <= start <= n <= database.log@.len(),
        database.vertex_after_commits(vid, start) is Some,
    ensures
        database.vertex_after_commits(vid, n) is Some,
    decreases n,
{
    if n > start {
        lemma_kept_across(rows, database, start, vid, n - 1);
        let end = database.log@.len() as int;
        let history = committed_rows(database, start, end);
        let own = database.log@[n - 1].template.rows();
        law_rebase_crosses_only_independent_history(rows, history);
        assert forall|i: int| 0 <= i < own.len() implies !((#[trigger] own[i]) matches
        DeltaRow::DeleteVertex { vid: deleted, .. } && deleted == vid) by {
            lemma_in_history(database, start, end, n - 1, i);
            let k = choose|k: int| 0 <= k < history.len() && #[trigger] history[k] == own[i];
            assert(!(history[k] matches DeltaRow::DeleteVertex { vid: deleted, .. } && attaches(
                rows,
                deleted.0,
            )));
        }
        lemma_not_deleted(database.vertex_after_commits(vid, n - 1), vid, own);
    }
}

proof fn lemma_unwritten_across(
    rows: Seq<(RelationId, PendingRow)>,
    database: Database,
    start: int,
    element: ElementId,
    n: int,
)
    requires
        first_crossing(rows, committed_rows(database, start, database.log@.len() as int)) is None,
        creates(rows, element),
        0 <= start <= n <= database.log@.len(),
    ensures
        element matches ElementId::Vertex(vid) ==> database.vertex_after_commits(vid, n)
            == database.vertex_after_commits(vid, start),
        element matches ElementId::Edge(eid) ==> database.edge_after_commits(eid, n)
            == database.edge_after_commits(eid, start),
    decreases n,
{
    if n > start {
        lemma_unwritten_across(rows, database, start, element, n - 1);
        let end = database.log@.len() as int;
        let history = committed_rows(database, start, end);
        let own = database.log@[n - 1].template.rows();
        law_rebase_crosses_only_independent_history(rows, history);
        if touched(own, element) {
            let i = choose|i: int| 0 <= i < own.len() && touched_by(#[trigger] own[i], element);
            lemma_in_history(database, start, end, n - 1, i);
            let k = choose|k: int| 0 <= k < history.len() && #[trigger] history[k] == own[i];
            assert(touched_by(history[k], element));
        }
        match element {
            ElementId::Vertex(vid) => lemma_untouched_vertex(
                database.vertex_after_commits(vid, n - 1),
                vid,
                own,
            ),
            ElementId::Edge(eid) => lemma_untouched_edge(
                database.edge_after_commits(eid, n - 1),
                eid,
                own,
                database.log@[n - 1].commit_seq,
            ),
        }
    }
}

/// An append that is moved to a newer basis finds there every endpoint that it had at
/// the old one, and every identity that it creates as it was.
pub proof fn law_rebase_keeps_endpoints(
    before: WriteTxn,
    after: WriteTxn,
    database: Database,
    max_expanded_rows: u64,
    metered: Metering,
    log: Seq<Event>,
    log_after: Seq<Event>,
    b: int,
    r: int,
)
    requires
        database.wf(),
        rebases(
            before,
            after,
            database,
            max_expanded_rows,
            metered,
            log,
            log_after,
            Ok::<(), WriteTxnError>(()),
        ),
        0 <= b < before.staged@.len(),
        0 <= r < before.staged@[b].rows@.len(),
    ensures
        match before.staged@[b].rows@[r] {
            PendingRow::Vertex { vid, ensure, .. } => {
                &&& !ensure
                &&& database.vertex_at_spec(vid, after.basis) == database.vertex_at_spec(
                    vid,
                    before.basis,
                )
            },
            PendingRow::Edge { eid, src, dst, ensure, .. } => {
                &&& !ensure
                &&& database.edge_at_spec(eid, after.basis) == database.edge_at_spec(
                    eid,
                    before.basis,
                )
                &&& database.vertex_at_spec(src, before.basis) is Some
                    ==> database.vertex_at_spec(src, after.basis) is Some
                &&& database.vertex_at_spec(dst, before.basis) is Some
                    ==> database.vertex_at_spec(dst, after.basis) is Some
            },
            _ => false,
        },
{
    let rows = intents(before.staged@);
    let row = before.staged@[b].rows@[r];
    lemma_intents_at(before.staged@, b);
    let at = intents_upto(before.staged@, b).len() + r;
    assert(rows[at] == (before.staged@[b].relation, row));
    assert(rebase_refusal(before, database, max_expanded_rows) is None);
    let start = before.basis.0 - database.base_seq.0;
    let end = database.log@.len() as int;
    assert(database.history_refusal(before.basis) is None);
    assert(frontier_of(database.state) == Ok::<CommitSeq, WriteTxnError>(after.basis));
    assert(after.basis.0 == database.tip());
    match row {
        PendingRow::Vertex { vid, .. } => {
            assert(intent_creates(rows[at].1, ElementId::Vertex(vid)));
            lemma_unwritten_across(rows, database, start, ElementId::Vertex(vid), end);
        },
        PendingRow::Edge { eid, src, dst, .. } => {
            assert(intent_creates(rows[at].1, ElementId::Edge(eid)));
            lemma_unwritten_across(rows, database, start, ElementId::Edge(eid), end);
            assert(intent_attaches(rows[at].1, src.0));
            assert(intent_attaches(rows[at].1, dst.0));
            if database.vertex_at_spec(src, before.basis) is Some {
                lemma_kept_across(rows, database, start, src, end);
            }
            if database.vertex_at_spec(dst, before.basis) is Some {
                lemma_kept_across(rows, database, start, dst, end);
            }
        },
        _ => {},
    }
}

} // verus!
