//! What a search runs over: exactly what the transaction sees.

use vstd::prelude::*;
use crate::beacon::{BeaconError, ReadError};
use crate::beacon_corpus::overlay_at;
use crate::beacon_entry::{
    candidates, documents_upto, examines, lemma_documents_ordered, lemma_members, members_of,
    projections, raw_ids, searches, Examined, SearchOptions, SearchRun,
};
use crate::beacon_graph::incidence_of;
use crate::beacon_overlay::{shows, Overlay, OverlayView};
use crate::database::Database;
use crate::engine::{EngineStep, Expansion, Hit};
use crate::graph::{EdgeView, VertexView};
use crate::ids::{EId, LabelId, PropertyKeyId, RelationId, VId};
use crate::idset::IdMap;
use crate::session::Event;
use crate::txn::WriteTxn;

verus! {

/// The vertex is there and, where a label is asked for, carries it.
pub open spec fn in_corpus(vertex: Option<VertexView>, label: Option<LabelId>) -> bool {
    match (vertex, label) {
        (Some(seen), Some(wanted)) => seen.labels.contains(wanted),
        (Some(_), None) => true,
        (None, _) => false,
    }
}

/// The edge is there, runs in the asked relation, if one is, and joins two documents.
pub open spec fn in_lane(
    edge: Option<EdgeView>,
    relation: Option<RelationId>,
    documents: Seq<VId>,
) -> bool {
    &&& edge matches Some(seen)
    &&& relation matches Some(wanted) ==> seen.entry.relation == wanted
    &&& documents.contains(seen.entry.src)
    &&& documents.contains(seen.entry.dst)
}

/// The graph lane has somewhere to start from, and a step to make.
pub open spec fn walks_edges(lane: Option<Expansion>) -> bool {
    lane matches Some(expansion) && expansion.max_hops > 0 && expansion.seeds@.len() > 0
}

/// The row carries the labels and values of the vertex, and no others.
pub open spec fn row_shows(row: OverlayView, vertex: VertexView) -> bool {
    &&& forall|label: LabelId| #[trigger] row.has(label) <==> vertex.labels.contains(label)
    &&& forall|key: PropertyKeyId| #[trigger]
        row.value(key) == (if vertex.props.dom().contains(key) {
            Some(vertex.props[key])
        } else {
            None
        })
}

/// The examined candidates that were projected are the documents, in order.
proof fn lemma_projected_documents(
    rows: IdMap<Overlay>,
    label: Option<LabelId>,
    examined: Seq<Examined>,
    n: int,
)
    requires
        examines(rows, label, examined, true),
        0 <= n <= examined.len(),
    ensures
        projections(examined, n).len() == documents_upto(rows, label, n).len(),
        forall|k: int|
            0 <= k < projections(examined, n).len() ==> ((#[trigger] projections(
                examined,
                n,
            )[k]) matches EngineStep::Project { document, row, .. } && document == documents_upto(
                rows,
                label,
                n,
            )[k] && row == overlay_at(rows, document)),
    decreases n,
{
    if n > 0 {
        lemma_projected_documents(rows, label, examined, n - 1);
        let item = examined[n - 1];
        assert(item.document == VId(rows.key_seq()[n - 1]));
        assert(item.overlay == candidates(rows)[n - 1]);
        assert forall|k: int| 0 <= k < projections(examined, n).len() implies ((
        #[trigger] projections(examined, n)[k]) matches EngineStep::Project { document, row, .. }
            && document == documents_upto(rows, label, n)[k] && row == overlay_at(
            rows,
            document,
        )) by {
            if k < projections(examined, n - 1).len() {
                assert(projections(examined, n)[k] == projections(examined, n - 1)[k]);
            }
        }
    }
}

/// A search that answers ran over what the transaction sees. Its documents, in order of
/// identity, are all vertices, or all that carry the asked label. Each was projected once
/// with exactly its labels and values before the engines evaluated them, over exactly the
/// edges of the asked relation between documents where the graph lane is in use. What the
/// engines found is what comes back.
#[verifier::rlimit(60)]
#[verifier::spinoff_prover]
pub proof fn law_searches_run_over_what_is_seen(
    before: WriteTxn,
    after: WriteTxn,
    database: Database,
    options: SearchOptions,
    lane: Option<Expansion>,
    run: SearchRun,
    log: Seq<Event>,
    log_after: Seq<Event>,
    asked: Seq<EngineStep>,
    asked_after: Seq<EngineStep>,
    hits: Vec<Hit>,
)
    requires
        searches(
            before,
            after,
            database,
            options,
            lane,
            run,
            log,
            log_after,
            asked,
            asked_after,
            Ok::<Vec<Hit>, ReadError>(hits),
        ),
    ensures
        asked_after.len() >= asked.len() + 2,
        asked_after.last() matches EngineStep::Evaluate { corpus, documents, lane: own, answer } && {
            &&& own == lane
            &&& answer.outcome == Ok::<Vec<Hit>, BeaconError>(hits)
            &&& forall|i: int, j: int|
                0 <= i < j < documents.len() ==> (#[trigger] documents[i]).0 < (
                #[trigger] documents[j]).0
            &&& forall|vid: VId| #[trigger]
                documents.contains(vid) <==> in_corpus(
                    before.overlay_vertex(database, vid),
                    options.vertex_label,
                )
            &&& asked_after.len() == asked.len() + 2 + documents.len()
            &&& forall|k: int|
                0 <= k < documents.len() ==> ((#[trigger] asked_after[asked.len() + 1
                    + k]) matches EngineStep::Project { document, row, .. } && document
                    == documents[k] && row_shows(row, before.overlay_vertex(database, document)->0))
            &&& walks_edges(lane) ==> forall|eid: EId|
                (exists|k: int| 0 <= k < corpus.emitted@.len() && (#[trigger] corpus.emitted@[k]).0
                    == eid) <==> in_lane(
                    #[trigger] before.overlay_edge(database, eid),
                    lane->0.relation,
                    documents,
                )
            &&& walks_edges(lane) ==> forall|k: int|
                0 <= k < corpus.emitted@.len() ==> ({
                    let found = #[trigger] corpus.emitted@[k];
                    let edge = before.overlay_edge(database, found.0)->0.entry;
                    (found.1.src, found.1.relation, found.1.dst) == (edge.src, edge.relation, edge.dst)
                })
        },
{
    let rows = run.read.rows;
    let n = rows.key_seq().len() as int;
    let documents = run.documents->Ok_0@;
    let projected = projections(run.examined, run.examined.len() as int);
    assert(documents == documents_upto(rows, options.vertex_label, n));
    lemma_documents_ordered(rows, options.vertex_label, n);
    lemma_projected_documents(rows, options.vertex_label, run.examined, n);
    assert forall|i: int, j: int| 0 <= i < j < documents.len() implies (#[trigger] documents[i]).0
        < (#[trigger] documents[j]).0 by {
        assert(raw_ids(documents)[i] < raw_ids(documents)[j]);
    }
    assert forall|vid: VId| #[trigger] documents.contains(vid) <==> in_corpus(
        before.overlay_vertex(database, vid),
        options.vertex_label,
    ) by {
        lemma_members(rows, options.vertex_label, vid);
        let seen = before.overlay_vertex(database, vid);
        assert(shows(overlay_at(rows, vid), seen));
        if let (Some(vertex), Some(label)) = (seen, options.vertex_label) {
            assert(vertex.labels.contains(label) == overlay_at(rows, vid).has(label));
        }
    }
    let validated = asked.push(EngineStep::Validate { answer: run.validated });
    assert(asked_after.drop_last() =~= validated + projected);
    assert forall|k: int| 0 <= k < documents.len() implies ((#[trigger] asked_after[asked.len() + 1
        + k]) matches EngineStep::Project { document, row, .. } && document == documents[k]
        && row_shows(row, before.overlay_vertex(database, document)->0)) by {
        assert(asked_after[asked.len() + 1 + k] == projected[k]);
        let vid = documents[k];
        assert(documents.contains(vid));
        let seen = before.overlay_vertex(database, vid);
        assert(shows(overlay_at(rows, vid), seen));
        let vertex = seen->0;
        let row = overlay_at(rows, vid);
        assert forall|label: LabelId| #[trigger] row.has(label) <==> vertex.labels.contains(
            label,
        ) by {
            assert(vertex.labels.contains(label) == row.has(label));
        }
        assert forall|key: PropertyKeyId| #[trigger]
            row.value(key) == (if vertex.props.dom().contains(key) {
                Some(vertex.props[key])
            } else {
                None
            }) by {
            assert(vertex.props.dom().contains(key) == (row.value(key) is Some));
        }
    }
    if walks_edges(lane) {
        let relation = lane->0.relation;
        let emitted = run.expanded.emitted@;
        assert forall|vid: VId| #[trigger] documents.contains(vid) == members_of(
            documents,
        ).contains(vid.0) by {}
        assert forall|eid: EId|
            (exists|k: int| 0 <= k < emitted.len() && (#[trigger] emitted[k]).0 == eid) <==> in_lane(
                #[trigger] before.overlay_edge(database, eid),
                relation,
                documents,
            ) by {
            assert(run.read_txn.overlay_edge(database, eid) == before.overlay_edge(database, eid));
            let incidence = incidence_of(run.read_txn.overlay_edge(database, eid));
            if exists|k: int| 0 <= k < emitted.len() && (#[trigger] emitted[k]).0 == eid {
                let k = choose|k: int| 0 <= k < emitted.len() && (#[trigger] emitted[k]).0 == eid;
                assert(incidence_of(run.read_txn.overlay_edge(database, emitted[k].0)) == Some(
                    emitted[k].1,
                ));
            }
        }
        assert forall|k: int| 0 <= k < emitted.len() implies ({
            let found = #[trigger] emitted[k];
            let edge = before.overlay_edge(database, found.0)->0.entry;
            (found.1.src, found.1.relation, found.1.dst) == (edge.src, edge.relation, edge.dst)
        }) by {
            let eid = emitted[k].0;
            assert(run.read_txn.overlay_edge(database, eid) == before.overlay_edge(database, eid));
        }
    }
}

} // verus!
