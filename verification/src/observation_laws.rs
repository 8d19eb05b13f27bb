//! What observations are for: whatever a validated transaction read, in whichever way,
//! reads the same at the frontier.

use vstd::prelude::*;
use crate::adjacency::{neighbours_read, Anchor};
use crate::database::Database;
use crate::dependency_laws::lemma_no_attachment_since;
use crate::edge_reads::point_witnesses;
use crate::errors::WriteTxnError;
use crate::ids::{CommitSeq, EId, ElementId, LabelId, VId};
use crate::selection::{edge_scan_witnesses, vertex_scan_witnesses};
use crate::txn::WriteTxn;
use crate::validation_laws::{
    depends_on, labelled, law_validated_reads_are_current, law_validated_scans_meet_no_phantom,
    validated_through,
};

verus! {

/// The transaction is a later state of another: what was observed then is observed now.
pub open spec fn remembers(earlier: WriteTxn, txn: WriteTxn) -> bool {
    &&& txn.basis == earlier.basis
    &&& earlier.read_set@.subset_of(txn.read_set@)
    &&& earlier.scanned_vertices ==> txn.scanned_vertices
    &&& earlier.scanned_edges ==> txn.scanned_edges
}

/// The neighbours that a transaction read are, if it validates, still the committed
/// neighbours at the frontier: no edge at the vertex came or went.
pub proof fn law_validated_neighbours_are_current(
    before: WriteTxn,
    read: WriteTxn,
    txn: WriteTxn,
    database: Database,
    anchor: Anchor,
    neighbours: Vec<VId>,
)
    requires
        database.wf(),
        neighbours_read(
            before,
            read,
            database,
            anchor,
            Ok::<Vec<VId>, WriteTxnError>(neighbours),
        ),
        remembers(read, txn),
        validated_through(txn, database),
    ensures
        forall|eid: EId|
            anchor.of(
                #[trigger] database.edge_at_spec(eid, CommitSeq(database.tip() as u64)),
            ) == anchor.of(database.edge_at_spec(eid, txn.basis)),
{
    let tip = CommitSeq(database.tip() as u64);
    let n = database.log@.len() as int;
    let basis = |eid: EId| database.edge_at_spec(eid, before.basis);
    law_validated_reads_are_current(txn, database);
    assert(txn.read_set@.contains(ElementId::Vertex(anchor.vertex))) by {
        assert(anchor.witnesses(basis, before.prepared_rows()).contains(
            ElementId::Vertex(anchor.vertex),
        ));
        assert(read.read_set@.contains(ElementId::Vertex(anchor.vertex)));
    }
    assert forall|eid: EId|
        anchor.of(#[trigger] database.edge_at_spec(eid, tip)) == anchor.of(
            database.edge_at_spec(eid, txn.basis),
        ) by {
        if anchor.of(basis(eid)) is Some {
            assert(anchor.witnesses(basis, before.prepared_rows()).contains(ElementId::Edge(eid)));
            assert(read.read_set@.contains(ElementId::Edge(eid)));
            assert(depends_on(txn, ElementId::Edge(eid)));
        } else if anchor.of(database.edge_at_spec(eid, tip)) is Some {
            assert(depends_on(txn, ElementId::Vertex(anchor.vertex)));
            lemma_no_attachment_since(txn, database, eid, anchor.vertex, n);
        }
    }
}

/// A point read of an edge still holds at the frontier, and the vertex that the edge
/// leaves is still as it was.
pub proof fn law_validated_point_reads_are_current(
    before: WriteTxn,
    txn: WriteTxn,
    database: Database,
    eid: EId,
)
    requires
        database.wf(),
        txn.basis == before.basis,
        point_witnesses(
            database.edge_at_spec(eid, before.basis),
            eid,
            before.prepared_rows(),
        ).subset_of(txn.read_set@),
        validated_through(txn, database),
    ensures
        database.edge_at_spec(eid, CommitSeq(database.tip() as u64)) == database.edge_at_spec(
            eid,
            txn.basis,
        ),
        database.edge_at_spec(eid, txn.basis) matches Some(edge) ==> database.vertex_at_spec(
            edge.entry.src,
            CommitSeq(database.tip() as u64),
        ) == database.vertex_at_spec(edge.entry.src, txn.basis),
{
    let witnesses = point_witnesses(
        database.edge_at_spec(eid, before.basis),
        eid,
        before.prepared_rows(),
    );
    law_validated_reads_are_current(txn, database);
    assert(witnesses.contains(ElementId::Edge(eid)));
    assert(depends_on(txn, ElementId::Edge(eid)));
    if let Some(edge) = database.edge_at_spec(eid, txn.basis) {
        assert(witnesses.contains(ElementId::Vertex(edge.entry.src)));
        assert(depends_on(txn, ElementId::Vertex(edge.entry.src)));
    }
}

/// A scan over all vertices, or over all edges, still holds at the frontier in full:
/// nothing that was there changed or went, and nothing came.
pub proof fn law_validated_scans_are_current(before: WriteTxn, txn: WriteTxn, database: Database)
    requires
        database.wf(),
        txn.basis == before.basis,
        validated_through(txn, database),
    ensures
        txn.scanned_vertices && vertex_scan_witnesses(before, database).subset_of(txn.read_set@)
            ==> forall|vid: VId|
            (#[trigger] database.vertex_at_spec(vid, CommitSeq(database.tip() as u64)))
                == database.vertex_at_spec(vid, txn.basis),
        txn.scanned_edges && edge_scan_witnesses(before, database).subset_of(txn.read_set@)
            ==> forall|eid: EId|
            (#[trigger] database.edge_at_spec(eid, CommitSeq(database.tip() as u64)))
                == database.edge_at_spec(eid, txn.basis),
{
    let tip = CommitSeq(database.tip() as u64);
    law_validated_reads_are_current(txn, database);
    law_validated_scans_meet_no_phantom(txn, database);
    if txn.scanned_vertices && vertex_scan_witnesses(before, database).subset_of(txn.read_set@) {
        assert forall|vid: VId|
            (#[trigger] database.vertex_at_spec(vid, tip)) == database.vertex_at_spec(
                vid,
                txn.basis,
            ) by {
            if database.vertex_at_spec(vid, txn.basis) is Some {
                assert(vertex_scan_witnesses(before, database).contains(ElementId::Vertex(vid)));
                assert(depends_on(txn, ElementId::Vertex(vid)));
            }
        }
    }
    if txn.scanned_edges && edge_scan_witnesses(before, database).subset_of(txn.read_set@) {
        assert forall|eid: EId|
            (#[trigger] database.edge_at_spec(eid, tip)) == database.edge_at_spec(
                eid,
                txn.basis,
            ) by {
            if database.edge_at_spec(eid, txn.basis) is Some {
                let basis = |edge: EId| database.edge_at_spec(edge, before.basis);
                assert(basis(EId(eid.0)) is Some);
                assert(edge_scan_witnesses(before, database).contains(ElementId::Edge(eid)));
                assert(depends_on(txn, ElementId::Edge(eid)));
            }
        }
    }
}

/// A search over one label that validates still finds the same vertices at the frontier,
/// unchanged.
pub proof fn law_validated_label_scans_are_current(
    txn: WriteTxn,
    database: Database,
    label: LabelId,
    vid: VId,
)
    requires
        database.wf(),
        validated_through(txn, database),
        txn.scanned_label(label),
        forall|vertex: VId| #[trigger]
            database.vertex_at_spec(vertex, txn.basis) is Some ==> txn.read_set@.contains(
                ElementId::Vertex(vertex),
            ),
    ensures
        labelled(database.vertex_at_spec(vid, CommitSeq(database.tip() as u64)), label) <==> labelled(
            database.vertex_at_spec(vid, txn.basis),
            label,
        ),
        labelled(database.vertex_at_spec(vid, txn.basis), label) ==> database.vertex_at_spec(
            vid,
            CommitSeq(database.tip() as u64),
        ) == database.vertex_at_spec(vid, txn.basis),
{
    law_validated_reads_are_current(txn, database);
    law_validated_scans_meet_no_phantom(txn, database);
    if database.vertex_at_spec(vid, txn.basis) is Some {
        assert(depends_on(txn, ElementId::Vertex(vid)));
    }
}

} // verus!
