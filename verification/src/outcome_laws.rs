//! What the end of a transaction tells: who publishes, what a failed publication leaves,
//! which commit a conflict names, and what a budget lets through.

use vstd::arithmetic::power2::{lemma2_to64, lemma_pow2, lemma_pow2_unfold, pow2};
use vstd::prelude::*;
use crate::admission::{
    addressed_edge, current_graph, expanded_rows, lands_in, slices, stages, vertex_intents,
};
use crate::batch::{intents, PendingRow, WriteBatch};
use crate::commit::settles;
use crate::conflict::{endpoint, intent_touches, touched};
use crate::database::{frontier_of, Database};
use crate::errors::{DatabaseState, Law, WriteTxnError};
use crate::finish::{completes, conflict_error, CompletionStep, TxnCompletionGuard};
use crate::graph::{vertex_after_rows, DeltaRow, EdgeView};
use crate::ids::{CommitSeq, EId, ElementId, RelationId, VId};
use crate::publisher::Publication;
use crate::selection::{row_names, vertex_scan_witnesses};
use crate::model_laws::law_intents_depend_on_what_they_can_change;
use crate::session::{followed, refused, Event, Metering, Request};
use crate::statement::{bit_length, search_price};
use crate::txn::{EmbeddedTxnCompletion, EmbeddedTxnState, PreparedWrite, WriteTxn};
use crate::vertex_map::row_vertex;

verus! {

/// A publication that is durable moves the database on by the one commit that the
/// transaction is told of, and leaves it open for the next. One that failed leaves the
/// history as it was, and its transaction ends aborted only where the database goes on as
/// before; where it is not known what was published, the database takes nothing more.
pub proof fn law_settled_publications_are_reported(
    handed: WriteTxn,
    ended: WriteTxn,
    before: Database,
    after: Database,
    prepared: PreparedWrite,
    guard: TxnCompletionGuard,
    report: Publication,
    done: Result<EmbeddedTxnCompletion, WriteTxnError>,
)
    requires
        before.wf(),
        before.state == (DatabaseState::Healthy {
            published_frontier: CommitSeq(before.tip() as u64),
        }),
        before.tip() < u64::MAX,
        guard.entered_commit,
        guard.starting_frontier.0 == before.tip(),
        settles(
            handed,
            ended,
            before,
            after,
            CompletionStep::Publish { prepared, guard },
            report,
            done,
        ),
    ensures
        ended.staged@.len() == 0,
        ended.prepared is None,
        ended.pin is None,
        ended.owner == handed.owner,
        done is Ok <==> report is Durable,
        done matches Ok(completion) ==> {
            &&& completion matches EmbeddedTxnCompletion::WriteCommitted { commit_seq }
            &&& commit_seq.0 == before.tip() + 1
            &&& commit_seq.0 == after.tip()
            &&& after.log@.len() == before.log@.len() + 1
            &&& frontier_of(after.state) == Ok::<CommitSeq, WriteTxnError>(commit_seq)
            &&& ended.state == EmbeddedTxnState::Completed(completion)
        },
        done is Err ==> {
            &&& after.log@ == before.log@
            &&& after.tip() == before.tip()
            &&& !(ended.state is Completed)
            &&& ended.state is Aborted <==> frontier_of(after.state) is Ok
            &&& ended.state is Aborted ==> after.state == before.state
            &&& ended.state is CommittedNeedsRecovery <==> after.state is NeedsAuthoritativeRecovery
            &&& ended.state matches EmbeddedTxnState::CommittedNeedsRecovery { commit_seq }
                ==> commit_seq.0 == before.tip() + 1
        },
{
}

/// A conflict names a commit that came after the basis, the first that conflicts, with an
/// element that the transaction depends on or whose insertion one of its scans would have
/// seen.
pub proof fn law_conflicts_name_the_first_committer(
    before: WriteTxn,
    after: WriteTxn,
    database: Database,
    metered: Metering,
    log: Seq<Event>,
    log_after: Seq<Event>,
    law: Law,
    element: ElementId,
    committed_at: CommitSeq,
    basis: CommitSeq,
)
    requires
        database.wf(),
        refused(log, log_after) is None,
        completes(
            before,
            after,
            database,
            metered,
            log,
            log_after,
            Err::<CompletionStep, WriteTxnError>(
                conflict_error(law, element, committed_at, basis),
            ),
        ),
    ensures
        basis == before.basis,
        before.basis.0 < committed_at.0 <= database.tip(),
        exists|j: int| #![trigger database.log@[j]]
            {
                let rows = database.log@[j].template.rows();
                &&& 0 <= j < database.log@.len()
                &&& database.log@[j].commit_seq == committed_at
                &&& match before.first_phantom(rows) {
                    Some(inserted) => law == Law::Read && element == inserted,
                    None => (touched(rows, element) || endpoint(rows, element)) && if law == Law::Read {
                        before.read_set@.contains(element)
                    } else {
                        before.depends_on_write(element)
                    },
                }
            },
        forall|k: int|
            0 <= k < database.log@.len() && before.basis.0 < (#[trigger] database.log@[k]).commit_seq.0
                < committed_at.0 ==> before.batch_conflict(database.log@[k].template.rows(), None),
        after.state is Aborted,
{
}

proof fn lemma_shown_vertex_is_named(vid: VId, rows: Seq<DeltaRow>)
    requires
        vertex_after_rows(None, vid, rows) is Some,
    ensures
        row_names(rows, vid),
    decreases rows.len(),
{
    if rows.len() > 0 {
        let rest = rows.drop_last();
        if vertex_after_rows(None, vid, rest) is Some {
            lemma_shown_vertex_is_named(vid, rest);
            let k = choose|k: int| 0 <= k < rest.len() && row_vertex(#[trigger] rest[k]) == Some(vid);
            assert(rows[k] == rest[k]);
        } else {
            assert(row_vertex(rows[rows.len() - 1]) == Some(vid));
        }
    }
}

/// A vertex scan watches every vertex that it can show and every vertex that the
/// transaction creates or deletes, and it watches no edge.
pub proof fn law_vertex_scans_watch_what_they_show(
    txn: WriteTxn,
    database: Database,
    vid: VId,
    eid: EId,
    k: int,
)
    ensures
        txn.overlay_vertex(database, vid) is Some ==> vertex_scan_witnesses(txn, database).contains(
            ElementId::Vertex(vid),
        ),
        database.vertex_at_spec(vid, txn.basis) is Some ==> vertex_scan_witnesses(
            txn,
            database,
        ).contains(ElementId::Vertex(vid)),
        0 <= k < intents(txn.staged@).len() ==> match intents(txn.staged@)[k].1 {
            PendingRow::Vertex { vid: own, .. } => vertex_scan_witnesses(txn, database).contains(
                ElementId::Vertex(own),
            ),
            PendingRow::DeleteVertex { vid: own } => vertex_scan_witnesses(txn, database).contains(
                ElementId::Vertex(own),
            ),
            _ => true,
        },
        !vertex_scan_witnesses(txn, database).contains(ElementId::Edge(eid)),
{
    if txn.overlay_vertex(database, vid) is Some && database.vertex_at_spec(vid, txn.basis) is None {
        lemma_shown_vertex_is_named(vid, txn.prepared_rows());
    }
    if 0 <= k < intents(txn.staged@).len() {
        assert(intents(txn.staged@)[k] == intents(txn.staged@)[k]);
    }
}

/// The price of a search among sorted entries is the number of halvings that leave none:
/// the entries fit below the power of two of the price, and not below the one before.
pub proof fn law_search_prices_are_logarithmic(n: nat)
    ensures
        n < pow2(search_price(n)),
        n > 0 ==> search_price(n) > 0 && pow2((search_price(n) - 1) as nat) <= n,
        search_price(0) == 1,
    decreases n,
{
    lemma_pow2(search_price(n));
    if n == 0 {
        lemma2_to64();
    } else if n == 1 {
        lemma2_to64();
        assert(n / 2 == 0);
        reveal_with_fuel(bit_length, 3);
    } else {
        law_search_prices_are_logarithmic(n / 2);
        let p = search_price(n);
        assert(search_price(n / 2) + 1 == p);
        lemma_pow2_unfold(p);
        lemma_pow2_unfold((p - 1) as nat);
    }
}

/// Whether an intent is about a vertex: it depends on one, and not as the end of an edge.
pub open spec fn about_vertex(row: PendingRow) -> bool {
    &&& !(row is Edge)
    &&& exists|vid: VId| #[trigger] intent_touches(row, ElementId::Vertex(vid))
}

/// How many of these intents are about vertices.
pub open spec fn about_vertices(rows: Seq<(RelationId, PendingRow)>) -> nat
    decreases rows.len(),
{
    if rows.len() == 0 {
        0
    } else {
        about_vertices(rows.drop_last()) + if about_vertex(rows.last().1) {
            1nat
        } else {
            0nat
        }
    }
}

/// Whether an edge is there and lies in this relation.
pub open spec fn lies_in(edge: Option<EdgeView>, relation: u128) -> bool {
    edge matches Some(found) && found.entry.relation.0 == relation
}

/// Whether an intent reaches this relation: it was staged there, or it changes an edge that
/// lies there now.
pub open spec fn reaches(
    database: Database,
    row: (RelationId, PendingRow),
    relation: u128,
) -> bool {
    ||| row.0.0 == relation
    ||| !(row.1 is Edge) && exists|eid: EId| #[trigger] intent_touches(row.1, ElementId::Edge(eid))
        && lies_in(database.edge_after_commits(eid, database.log@.len() as int), relation)
}

proof fn lemma_reaches(database: Database, row: (RelationId, PendingRow), relation: u128)
    ensures
        reaches(database, row, relation) == lands_in(current_graph(database), row, relation),
{
    match addressed_edge(row.1) {
        Some(eid) => {
            assert(intent_touches(row.1, ElementId::Edge(eid)));
        },
        None => {},
    }
}

proof fn lemma_about_vertices(rows: Seq<(RelationId, PendingRow)>)
    ensures
        about_vertices(rows) == vertex_intents(rows),
        about_vertices(rows) <= rows.len(),
    decreases rows.len(),
{
    if rows.len() > 0 {
        lemma_about_vertices(rows.drop_last());
        law_intents_depend_on_what_they_can_change(
            rows.last().1,
            rows.last().0,
            VId(0),
            EId(0),
            None,
            None,
        );
    }
}

proof fn lemma_slices_finite(
    graph: spec_fn(EId) -> Option<EdgeView>,
    rows: Seq<(RelationId, PendingRow)>,
)
    ensures
        slices(graph, rows).finite(),
    decreases rows.len(),
{
    if rows.len() == 0 {
        assert(slices(graph, rows) =~= Set::empty());
    } else {
        let last = rows.last();
        let rest = rows.drop_last();
        lemma_slices_finite(graph, rest);
        let addressed = match addressed_edge(last.1) {
            Some(eid) => match graph(eid) {
                Some(edge) => edge.entry.relation.0,
                None => last.0.0,
            },
            None => last.0.0,
        };
        let more = slices(graph, rest).insert(last.0.0 as u128).insert(addressed as u128);
        assert forall|relation: u128| slices(graph, rows).contains(relation) implies more.contains(
            relation,
        ) by {
            let i = choose|i: int| 0 <= i < rows.len() && lands_in(graph, #[trigger] rows[i], relation);
            if i < rest.len() {
                assert(lands_in(graph, rest[i], relation));
            }
        }
        vstd::set_lib::lemma_len_subset(slices(graph, rows), more);
    }
}

/// What is staged under a limit keeps to it: the intents, each about a vertex counted once
/// for every relation that the writes reach. Writes that reach one relation alone are put to
/// the evaluator whenever there are no more of them than the limit.
pub proof fn law_staged_writes_stay_within_their_limit(
    before: WriteTxn,
    after: WriteTxn,
    database: Database,
    batches: Seq<WriteBatch>,
    limit: u64,
    log: Seq<Event>,
    log_after: Seq<Event>,
    staged: Result<(), WriteTxnError>,
    relations: Set<u128>,
)
    requires
        stages(before, after, database, batches, Some(limit), log, log_after, staged),
        relations.finite(),
    ensures
        ({
            let rows = intents(before.staged@) + intents(batches);
            &&& staged is Ok ==> rows.len() <= limit
            &&& staged is Ok && (forall|relation: u128| #[trigger]
                relations.contains(relation) ==> exists|i: int|
                    0 <= i < rows.len() && reaches(database, #[trigger] rows[i], relation))
                ==> about_vertices(rows) * relations.len() + (rows.len() - about_vertices(rows))
                <= limit
            &&& before.staging_refusal(database, batches) is None && rows.len() <= limit
                && relations.len() == 1 && (forall|i: int, relation: u128|
                0 <= i < rows.len() && #[trigger] reaches(database, rows[i], relation)
                    ==> relations.contains(relation)) ==> followed(
                log,
                log_after,
                seq![Request::Prepare { database, staged: before.staged@ + batches }],
            )
        }),
{
    let rows = intents(before.staged@) + intents(batches);
    let graph = current_graph(database);
    lemma_about_vertices(rows);
    lemma_slices_finite(graph, rows);
    let count = slices(graph, rows).len();
    let v = about_vertices(rows);
    assert(expanded_rows(graph, rows) == v * count + (rows.len() - v));
    if staged is Ok && (forall|relation: u128| #[trigger]
        relations.contains(relation) ==> exists|i: int|
            0 <= i < rows.len() && reaches(database, #[trigger] rows[i], relation)) {
        assert forall|relation: u128| relations.contains(relation) implies slices(
            graph,
            rows,
        ).contains(relation) by {
            let i = choose|i: int|
                0 <= i < rows.len() && reaches(database, #[trigger] rows[i], relation);
            lemma_reaches(database, rows[i], relation);
        }
        vstd::set_lib::lemma_len_subset(relations, slices(graph, rows));
        assert(v * relations.len() <= v * count) by (nonlinear_arith)
            requires
                relations.len() <= count,
        ;
    }
    if relations.len() == 1 && (forall|i: int, relation: u128|
        0 <= i < rows.len() && #[trigger] reaches(database, rows[i], relation)
            ==> relations.contains(relation)) {
        assert forall|relation: u128| slices(graph, rows).contains(relation) implies relations.contains(
            relation,
        ) by {
            let i = choose|i: int| 0 <= i < rows.len() && lands_in(graph, #[trigger] rows[i], relation);
            lemma_reaches(database, rows[i], relation);
        }
        vstd::set_lib::lemma_len_subset(slices(graph, rows), relations);
        assert(v * count <= v) by (nonlinear_arith)
            requires
                count <= 1,
        ;
    }
}

} // verus!
