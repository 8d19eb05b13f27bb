//! Edge targets and detach cascades for authorized staging.
//!
//! The identity candidates are not a graph overlay: every candidate is resolved
//! through the same canonical point read that commit uses.

use vstd::prelude::*;
use crate::admission::current_graph;
use crate::authorized::{
    admit_field, admit_fields, attempted_keys, check_vertex_plan, check_vertex_write, denied,
    fields_plan, fields_steps, key_ids, keys_of, list_keys, lookup_plan, lookup_vertex, native_plan,
    pay_and_decide, retained, stage_native, staged_or_not, unit, visible,
};
use crate::batch::{intents, intents_upto, PendingRow, WriteBatch};
use crate::database::Database;
use crate::edge_reads::point_witnesses;
use crate::errors::{Denial, WriteTxnError};
use crate::graph::{edge_view, edge_wf, EdgeRecord, EdgeView, VertexRow, VertexView};
use crate::ids::{CanonicalScalar, EId, ElementId, LabelId, PropertyKeyId, RelationId, VId};
use crate::idset::{lemma_push_to_set, sorted_ids, IdSet};
use crate::plan::{
    ask, demand, failure, go, lemma_obeys_and, lemma_obeys_ask, lemma_obeys_failed,
    lemma_obeys_nothing, lemma_obeys_stop, lemma_step, obeys, repeated, same_error, stop, whole,
    Plan,
};
use crate::props::{has_key, props_map, props_sorted};
use crate::scope::Predicates;
use crate::session::{
    evaluations, followed, lemma_followed_compose, lemma_followed_extend, refused, seen_edge, work_plan,
    EdgeImage, EdgeImageView, Event, Fields, Host, Request, Session,
};
use crate::template::edge_in;
use crate::txn::{
    joint, keeps_observations, lemma_joint_more, lemma_joint_prefix, reads_only, reads_within,
    same_workspace, WriteTxn,
};

verus! {

/// Check the cancellation, then decide by the capability, unmetered.
pub open spec fn glance(admitted: bool) -> Plan<WriteTxnError> {
    ask(seq![Request::Poll]).and(demand(admitted, denied()))
}

/// Read one vertex without a charge, where it has to exist.
pub open spec fn present_plan(txn: WriteTxn, database: Database, vid: VId) -> Plan<WriteTxnError> {
    match txn.read_refusal(database) {
        Some(_) => stop(WriteTxnError::AuthorizedMutationRefused),
        None => demand(txn.overlay_vertex(database, vid) is Some, denied()),
    }
}

/// Admit, without mutating it, an endpoint that was already resolved.
pub open spec fn endpoint_check(vertex: Option<VertexView>) -> Plan<WriteTxnError> {
    check_vertex_plan(vertex, vertex, Set::empty(), Set::empty())
}

/// Look an endpoint up and admit it.
pub open spec fn endpoint_steps(
    txn: WriteTxn,
    database: Database,
    scope: Predicates,
    vid: VId,
) -> Seq<Plan<WriteTxnError>> {
    seq![
        lookup_plan(txn, database, scope, vid),
        demand(txn.overlay_vertex(database, vid) is Some, denied()),
        endpoint_check(txn.overlay_vertex(database, vid)),
    ]
}

/// Resolve an edge record into an image. Scope is decided with cancellation
/// checks only, before anything is billed: a hidden edge costs what an absent one
/// does.
pub open spec fn image_steps(
    txn: WriteTxn,
    database: Database,
    scope: Predicates,
    edge: EdgeView,
) -> Seq<Plan<WriteTxnError>> {
    let src = txn.overlay_vertex(database, edge.entry.src);
    let dst = txn.overlay_vertex(database, edge.entry.dst);
    seq![
        glance(scope.admits_relation(edge.entry.relation)),
        present_plan(txn, database, edge.entry.src),
        glance(visible(scope, src)),
        present_plan(txn, database, edge.entry.dst),
        glance(visible(scope, dst)),
        admit_field(scope.admits_relation(edge.entry.relation)),
        unit(),
        endpoint_check(src),
        unit(),
        endpoint_check(dst),
    ]
}

/// Read one edge record.
pub open spec fn record_plan(txn: WriteTxn, database: Database) -> Plan<WriteTxnError> {
    unit().and(
        match txn.read_refusal(database) {
            Some(_) => stop(WriteTxnError::AuthorizedMutationRefused),
            None => go(),
        },
    )
}

/// Read one edge record and resolve it if it exists.
pub open spec fn edge_steps(
    txn: WriteTxn,
    database: Database,
    scope: Predicates,
    eid: EId,
) -> Seq<Plan<WriteTxnError>> {
    seq![
        record_plan(txn, database),
        match txn.overlay_edge(database, eid) {
            Some(edge) => whole(image_steps(txn, database, scope, edge)),
            None => go(),
        },
    ]
}

/// The image of an edge as the transaction sees it.
pub open spec fn edge_image(txn: WriteTxn, database: Database, eid: EId) -> Option<EdgeImageView> {
    match txn.overlay_edge(database, eid) {
        Some(edge) => Some(image_of(txn, database, edge)),
        None => None,
    }
}

pub open spec fn image_of(txn: WriteTxn, database: Database, edge: EdgeView) -> EdgeImageView {
    EdgeImageView {
        edge,
        src: txn.overlay_vertex(database, edge.entry.src)->0,
        dst: txn.overlay_vertex(database, edge.entry.dst)->0,
    }
}

/// Pay, then have the capability check an edge write.
pub open spec fn check_edge_plan(
    before: Option<EdgeImageView>,
    after: Option<EdgeImageView>,
    properties: Set<u128>,
) -> Plan<WriteTxnError> {
    ask(work_plan(1) + seq![Request::CheckEdge { before, after, properties }])
}

/// Poll, then decide by the capability.
fn glance_at<H: Host>(admitted: bool, session: &mut Session<H>) -> (done: Result<(), WriteTxnError>)
    ensures
        final(session).metered() == old(session).metered(),
        evaluations(final(session).log()) == evaluations(old(session).log()),
        obeys(
            old(session).log(),
            final(session).log(),
            glance(admitted),
            same_error(),
            failure(done),
        ),
{
    let ghost start = session.log();
    let polled = session.poll();
    let ghost middle = session.log();
    let ghost decided: Plan<WriteTxnError> = demand(admitted, denied());
    proof {
        lemma_obeys_ask(start, middle, seq![Request::Poll], same_error());
    }
    if let Err(error) = polled {
        proof {
            lemma_obeys_failed(
                start,
                middle,
                ask(seq![Request::Poll]),
                decided,
                same_error(),
                Some(error),
            );
        }
        return Err(error);
    }
    proof {
        lemma_obeys_nothing(middle, same_error());
        lemma_obeys_stop(middle, same_error(), denied());
        lemma_obeys_and(
            start,
            middle,
            middle,
            ask(seq![Request::Poll]),
            decided,
            same_error(),
            decided.verdict,
        );
    }
    if !admitted {
        return Err(WriteTxnError::Authorization(Denial::ScopeDenied));
    }
    Ok(())
}

/// Read a vertex that has to exist, without a charge.
fn present_vertex<H: Host>(
    transaction: &mut WriteTxn,
    database: &Database,
    vid: VId,
    session: &mut Session<H>,
) -> (vertex: Result<VertexRow, WriteTxnError>)
    requires
        old(transaction).wf(),
        database.wf(),
    ensures
        final(transaction).wf(),
        same_workspace(*old(transaction), *final(transaction)),
        keeps_observations(*old(transaction), *final(transaction)),
        reads_only(
            *old(transaction),
            *final(transaction),
            if old(transaction).read_refusal(*database) is None {
                set![ElementId::Vertex(vid)]
            } else {
                Set::empty()
            },
        ),
        *final(session) == *old(session),
        obeys(
            old(session).log(),
            final(session).log(),
            present_plan(*old(transaction), *database, vid),
            same_error(),
            failure(vertex),
        ),
        vertex matches Ok(row) ==> row.wf() && old(transaction).overlay_vertex(*database, vid)
            == Some(row@),
{
    proof {
        lemma_obeys_nothing(session.log(), same_error());
        lemma_obeys_stop(session.log(), same_error(), denied());
        lemma_obeys_stop(session.log(), same_error(), WriteTxnError::AuthorizedMutationRefused);
    }
    match transaction.vertex(database, vid) {
        Ok(Some(row)) => Ok(row),
        Ok(None) => Err(WriteTxnError::Authorization(Denial::ScopeDenied)),
        Err(_) => Err(WriteTxnError::AuthorizedMutationRefused),
    }
}

/// Admit an endpoint without mutating it.
fn check_endpoint<H: Host>(row: &VertexRow, session: &mut Session<H>) -> (checked: Result<
    (),
    WriteTxnError,
>)
    ensures
        final(session).metered() == old(session).metered(),
        evaluations(final(session).log()) == evaluations(old(session).log()),
        obeys(
            old(session).log(),
            final(session).log(),
            endpoint_check(Some(row@)),
            same_error(),
            failure(checked),
        ),
{
    let none = Fields { labels: IdSet::new(), properties: IdSet::new() };
    proof {
        assert(none.labels@ =~= Set::<u128>::empty());
        assert(none.properties@ =~= Set::<u128>::empty());
    }
    check_vertex_write(Some(row), Some(row), &none, session)
}

/// Look an endpoint up and admit it.
fn endpoint<H: Host>(
    transaction: &mut WriteTxn,
    database: &Database,
    scope: &Predicates,
    vid: VId,
    session: &mut Session<H>,
) -> (done: Result<(), WriteTxnError>)
    requires
        old(transaction).wf(),
        database.wf(),
    ensures
        final(transaction).wf(),
        same_workspace(*old(transaction), *final(transaction)),
        keeps_observations(*old(transaction), *final(transaction)),
        final(session).metered() == old(session).metered(),
        evaluations(final(session).log()) == evaluations(old(session).log()),
        obeys(
            old(session).log(),
            final(session).log(),
            whole(endpoint_steps(*old(transaction), *database, *scope, vid)),
            same_error(),
            failure(done),
        ),
        done is Ok ==> {
            &&& old(transaction).read_refusal(*database) is None
            &&& reads_only(*old(transaction), *final(transaction), set![ElementId::Vertex(vid)])
        },
        reads_within(*old(transaction), *final(transaction), set![ElementId::Vertex(vid)]),
{
    let ghost start = session.log();
    let ghost steps = endpoint_steps(*transaction, *database, *scope, vid);
    proof {
        lemma_obeys_nothing(start, same_error());
    }
    let found = lookup_vertex(transaction, database, scope, vid, session);
    let ghost middle = session.log();
    proof {
        lemma_step(start, start, middle, steps, 0, same_error(), failure(found));
    }
    let row = match found {
        Ok(row) => row,
        Err(error) => return Err(error),
    };
    proof {
        lemma_obeys_nothing(middle, same_error());
        lemma_obeys_stop(middle, same_error(), denied());
        lemma_step(start, middle, middle, steps, 1, same_error(), steps[1].verdict);
    }
    match &row {
        Some(vertex) => {
            let checked = check_endpoint(vertex, session);
            proof {
                lemma_step(start, middle, session.log(), steps, 2, same_error(), failure(checked));
            }
            checked
        },
        None => Err(WriteTxnError::Authorization(Denial::ScopeDenied)),
    }
}

/// Read one edge record.
pub fn edge_record<H: Host>(
    transaction: &mut WriteTxn,
    database: &Database,
    eid: EId,
    session: &mut Session<H>,
) -> (record: Result<Option<EdgeRecord>, WriteTxnError>)
    requires
        old(transaction).wf(),
        database.wf(),
    ensures
        final(transaction).wf(),
        same_workspace(*old(transaction), *final(transaction)),
        keeps_observations(*old(transaction), *final(transaction)),
        reads_only(
            *old(transaction),
            *final(transaction),
            if refused(old(session).log(), final(session).log()) is None && old(
                transaction,
            ).read_refusal(*database) is None {
                record_reads(*old(transaction), *database, eid)
            } else {
                Set::empty()
            },
        ),
        final(session).metered() == old(session).metered(),
        evaluations(final(session).log()) == evaluations(old(session).log()),
        obeys(
            old(session).log(),
            final(session).log(),
            record_plan(*old(transaction), *database),
            same_error(),
            failure(record),
        ),
        record matches Ok(found) ==> edge_wf(found) && edge_view(found) == old(
            transaction,
        ).overlay_edge(*database, eid),
{
    let ghost start = session.log();
    let ghost decided: Plan<WriteTxnError> = match transaction.read_refusal(*database) {
        Some(_) => stop(WriteTxnError::AuthorizedMutationRefused),
        None => go(),
    };
    let paid = session.work(1);
    let ghost middle = session.log();
    proof {
        lemma_obeys_ask(start, middle, work_plan(1), same_error());
    }
    if let Err(error) = paid {
        proof {
            lemma_obeys_failed(start, middle, unit(), decided, same_error(), Some(error));
        }
        return Err(error);
    }
    proof {
        lemma_obeys_nothing(middle, same_error());
        lemma_obeys_stop(middle, same_error(), WriteTxnError::AuthorizedMutationRefused);
        lemma_obeys_and(start, middle, middle, unit(), decided, same_error(), decided.verdict);
    }
    match transaction.edge(database, eid) {
        Ok(record) => Ok(record),
        Err(_) => Err(WriteTxnError::AuthorizedMutationRefused),
    }
}

/// What resolving an edge record reads: its endpoints.
pub open spec fn image_reads(edge: EdgeView) -> Set<ElementId> {
    set![ElementId::Vertex(edge.entry.src), ElementId::Vertex(edge.entry.dst)]
}

/// What reading one edge record witnesses.
pub open spec fn record_reads(txn: WriteTxn, database: Database, eid: EId) -> Set<ElementId> {
    point_witnesses(database.edge_at_spec(eid, txn.basis), eid, txn.prepared_rows())
}

/// What looking one edge up reads: the edge, and its endpoints if it exists.
pub open spec fn edge_reads(txn: WriteTxn, database: Database, eid: EId) -> Set<ElementId> {
    match txn.overlay_edge(database, eid) {
        Some(edge) => record_reads(txn, database, eid).union(image_reads(edge)),
        None => record_reads(txn, database, eid),
    }
}

/// Resolve an edge record into an image.
pub fn edge_from_record<H: Host>(
    transaction: &mut WriteTxn,
    database: &Database,
    scope: &Predicates,
    record: EdgeRecord,
    session: &mut Session<H>,
) -> (image: Result<EdgeImage, WriteTxnError>)
    requires
        old(transaction).wf(),
        database.wf(),
        record.wf(),
    ensures
        final(transaction).wf(),
        same_workspace(*old(transaction), *final(transaction)),
        keeps_observations(*old(transaction), *final(transaction)),
        final(session).metered() == old(session).metered(),
        evaluations(final(session).log()) == evaluations(old(session).log()),
        obeys(
            old(session).log(),
            final(session).log(),
            whole(image_steps(*old(transaction), *database, *scope, record@)),
            same_error(),
            failure(image),
        ),
        image matches Ok(found) ==> {
            &&& found@ == image_of(*old(transaction), *database, record@)
            &&& found.edge == record
            &&& reads_only(*old(transaction), *final(transaction), image_reads(record@))
        },
        reads_within(*old(transaction), *final(transaction), image_reads(record@)),
{
    let ghost start = session.log();
    let ghost txn = *transaction;
    let ghost steps = image_steps(txn, *database, *scope, record@);
    proof {
        lemma_obeys_nothing(start, same_error());
    }
    let step = glance_at(scope.allows_relation(record.entry.relation), session);
    let ghost log0 = session.log();
    proof {
        lemma_step(start, start, log0, steps, 0, same_error(), failure(step));
    }
    if let Err(error) = step {
        return Err(error);
    }
    let found = present_vertex(transaction, database, record.entry.src, session);
    proof {
        lemma_step(start, log0, log0, steps, 1, same_error(), failure(found));
    }
    let src = match found {
        Ok(src) => src,
        Err(error) => return Err(error),
    };
    let step = glance_at(scope.allows_vertex(&src.labels), session);
    let ghost log2 = session.log();
    proof {
        lemma_step(start, log0, log2, steps, 2, same_error(), failure(step));
    }
    if let Err(error) = step {
        return Err(error);
    }
    let found = present_vertex(transaction, database, record.entry.dst, session);
    proof {
        lemma_step(start, log2, log2, steps, 3, same_error(), failure(found));
    }
    let dst = match found {
        Ok(dst) => dst,
        Err(error) => return Err(error),
    };
    let step = glance_at(scope.allows_vertex(&dst.labels), session);
    let ghost log4 = session.log();
    proof {
        lemma_step(start, log2, log4, steps, 4, same_error(), failure(step));
    }
    if let Err(error) = step {
        return Err(error);
    }
    // Charge the same admitted events, in the same order, as an ordinary
    // relation and two endpoint reads. Reuse the resolved rows.
    let step = pay_and_decide(scope.allows_relation(record.entry.relation), session);
    let ghost log5 = session.log();
    proof {
        lemma_step(start, log4, log5, steps, 5, same_error(), failure(step));
    }
    if let Err(error) = step {
        return Err(error);
    }
    let step = session.work(1);
    let ghost log6 = session.log();
    proof {
        lemma_obeys_ask(log5, log6, work_plan(1), same_error());
        lemma_step(start, log5, log6, steps, 6, same_error(), failure(step));
    }
    if let Err(error) = step {
        return Err(error);
    }
    let step = check_endpoint(&src, session);
    let ghost log7 = session.log();
    proof {
        lemma_step(start, log6, log7, steps, 7, same_error(), failure(step));
    }
    if let Err(error) = step {
        return Err(error);
    }
    let step = session.work(1);
    let ghost log8 = session.log();
    proof {
        lemma_obeys_ask(log7, log8, work_plan(1), same_error());
        lemma_step(start, log7, log8, steps, 8, same_error(), failure(step));
    }
    if let Err(error) = step {
        return Err(error);
    }
    let step = check_endpoint(&dst, session);
    proof {
        lemma_step(start, log8, session.log(), steps, 9, same_error(), failure(step));
    }
    if let Err(error) = step {
        return Err(error);
    }
    Ok(EdgeImage { edge: record, src, dst })
}

/// Read one edge and resolve it if it exists.
fn edge<H: Host>(
    transaction: &mut WriteTxn,
    database: &Database,
    scope: &Predicates,
    eid: EId,
    session: &mut Session<H>,
) -> (image: Result<Option<EdgeImage>, WriteTxnError>)
    requires
        old(transaction).wf(),
        database.wf(),
    ensures
        final(transaction).wf(),
        same_workspace(*old(transaction), *final(transaction)),
        keeps_observations(*old(transaction), *final(transaction)),
        final(session).metered() == old(session).metered(),
        evaluations(final(session).log()) == evaluations(old(session).log()),
        obeys(
            old(session).log(),
            final(session).log(),
            whole(edge_steps(*old(transaction), *database, *scope, eid)),
            same_error(),
            failure(image),
        ),
        image matches Ok(found) ==> {
            &&& image_view(found) == edge_image(*old(transaction), *database, eid)
            &&& found matches Some(it) ==> it.edge.wf()
            &&& reads_only(
                *old(transaction),
                *final(transaction),
                edge_reads(*old(transaction), *database, eid),
            )
        },
        reads_within(
            *old(transaction),
            *final(transaction),
            edge_reads(*old(transaction), *database, eid),
        ),
{
    let ghost start = session.log();
    let ghost txn = *transaction;
    let ghost steps = edge_steps(txn, *database, *scope, eid);
    proof {
        lemma_obeys_nothing(start, same_error());
    }
    let read = edge_record(transaction, database, eid, session);
    let ghost middle = session.log();
    proof {
        lemma_step(start, start, middle, steps, 0, same_error(), failure(read));
    }
    let record = match read {
        Ok(Some(record)) => record,
        Ok(None) => {
            proof {
                lemma_obeys_nothing(middle, same_error());
                lemma_step(start, middle, middle, steps, 1, same_error(), None);
            }
            return Ok(None);
        },
        Err(error) => return Err(error),
    };
    let ghost view = record@;
    let ghost read_txn = *transaction;
    let image = edge_from_record(transaction, database, scope, record, session);
    proof {
        lemma_same_image(txn, read_txn, *database, *scope, view);
        lemma_step(start, middle, session.log(), steps, 1, same_error(), failure(image));
    }
    match image {
        Ok(found) => Ok(Some(found)),
        Err(error) => Err(error),
    }
}

/// What an optional edge image says.
pub open spec fn image_view(image: Option<EdgeImage>) -> Option<EdgeImageView> {
    match image {
        Some(found) => Some(found@),
        None => None,
    }
}

/// Observations alone do not change what is asked or seen.
pub proof fn lemma_same_image(
    left: WriteTxn,
    right: WriteTxn,
    database: Database,
    scope: Predicates,
    view: EdgeView,
)
    requires
        same_workspace(left, right),
    ensures
        image_steps(left, database, scope, view) == image_steps(right, database, scope, view),
        image_of(left, database, view) == image_of(right, database, view),
{
    assert(image_steps(left, database, scope, view) =~= image_steps(right, database, scope, view));
}

/// Pay one unit and run a check of an edge write.
pub fn check_edge_write<H: Host>(
    before: Option<&EdgeImage>,
    after: Option<&EdgeImage>,
    properties: &IdSet,
    session: &mut Session<H>,
) -> (checked: Result<(), WriteTxnError>)
    ensures
        final(session).metered() == old(session).metered(),
        evaluations(final(session).log()) == evaluations(old(session).log()),
        obeys(
            old(session).log(),
            final(session).log(),
            check_edge_plan(seen_edge(before), seen_edge(after), properties@),
            same_error(),
            failure(checked),
        ),
{
    let ghost start = session.log();
    let ghost request = Request::CheckEdge {
        before: seen_edge(before),
        after: seen_edge(after),
        properties: properties@,
    };
    if let Err(error) = session.work(1) {
        proof {
            lemma_followed_extend(start, session.log(), work_plan(1), seq![request]);
        }
        return Err(error);
    }
    let ghost middle = session.log();
    let checked = session.check_edge(before, after, properties);
    proof {
        lemma_followed_compose(start, middle, session.log(), work_plan(1), seq![request]);
    }
    checked
}

/// The committed edges at a vertex.
pub open spec fn live_incident(database: Database, vid: VId) -> Set<u128> {
    Set::new(
        |raw: u128|
            current_graph(database)(EId(raw)) matches Some(edge) && (edge.entry.src == vid
                || edge.entry.dst == vid),
    )
}

/// An intent asks for an edge at the vertex.
pub open spec fn asks_incident(row: PendingRow, vid: VId, raw: u128) -> bool {
    row matches PendingRow::Edge { eid, src, dst, .. } && eid.0 == raw && (src == vid || dst == vid)
}

/// The edges that intents ask for at a vertex.
pub open spec fn staged_incident(rows: Seq<(RelationId, PendingRow)>, vid: VId) -> Set<u128> {
    Set::new(
        |raw: u128|
            exists|i: int| 0 <= i < rows.len() && asks_incident((#[trigger] rows[i]).1, vid, raw),
    )
}

/// The identities that may lie at a vertex: committed ones and asked-for ones.
pub open spec fn candidates(txn: WriteTxn, database: Database, vid: VId) -> Set<u128> {
    live_incident(database, vid).union(staged_incident(intents(txn.staged@), vid))
}

/// Walking the candidates only checks the cancellation. Hidden incidence is never
/// billed, so a signed limit cannot count it.
pub open spec fn candidates_plan(txn: WriteTxn, database: Database, vid: VId) -> Plan<WriteTxnError> {
    ask(
        repeated(
            Request::Poll,
            1 + sorted_ids(live_incident(database, vid)).len() + intents(txn.staged@).len(),
        ),
    )
}

proof fn lemma_repeated_more(n: nat)
    ensures
        repeated(Request::Poll, n) + seq![Request::Poll] == repeated(Request::Poll, n + 1),
{
    assert(repeated(Request::Poll, n) + seq![Request::Poll] =~= repeated(Request::Poll, n + 1));
}

proof fn lemma_repeated_refused(start: Seq<Event>, last: Seq<Event>, n: nat, m: nat)
    requires
        followed(start, last, repeated(Request::Poll, n)),
        refused(start, last) is Some,
        n <= m,
    ensures
        followed(start, last, repeated(Request::Poll, m)),
{
    let rest = repeated(Request::Poll, (m - n) as nat);
    lemma_followed_extend(start, last, repeated(Request::Poll, n), rest);
    assert(repeated(Request::Poll, n) + rest =~= repeated(Request::Poll, m));
}

/// One more poll of a run of polls.
fn poll_more<H: Host>(
    session: &mut Session<H>,
    Ghost(start): Ghost<Seq<Event>>,
    Ghost(n): Ghost<nat>,
) -> (polled: Result<(), WriteTxnError>)
    requires
        followed(start, old(session).log(), repeated(Request::Poll, n)),
        refused(start, old(session).log()) is None,
    ensures
        final(session).metered() == old(session).metered(),
        evaluations(final(session).log()) == evaluations(old(session).log()),
        followed(start, final(session).log(), repeated(Request::Poll, n + 1)),
        match polled {
            Ok(()) => refused(start, final(session).log()) is None,
            Err(error) => refused(start, final(session).log()) == Some(error),
        },
{
    let ghost middle = session.log();
    let polled = session.poll();
    proof {
        lemma_followed_compose(
            start,
            middle,
            session.log(),
            repeated(Request::Poll, n),
            seq![Request::Poll],
        );
        lemma_repeated_more(n);
    }
    polled
}

/// Collect the identities that may lie at a vertex.
pub fn incident_candidates<H: Host>(
    transaction: &WriteTxn,
    database: &Database,
    vid: VId,
    session: &mut Session<H>,
) -> (ids: Result<IdSet, WriteTxnError>)
    requires
        database.wf(),
    ensures
        final(session).metered() == old(session).metered(),
        evaluations(final(session).log()) == evaluations(old(session).log()),
        obeys(
            old(session).log(),
            final(session).log(),
            candidates_plan(*transaction, *database, vid),
            same_error(),
            failure(ids),
        ),
        ids matches Ok(found) ==> found.wf() && found@ == candidates(*transaction, *database, vid),
{
    let ghost start = session.log();
    let ghost live_set = live_incident(*database, vid);
    let ghost rows = intents(transaction.staged@);
    let ghost total: nat = 1 + sorted_ids(live_set).len() + rows.len();
    proof {
        crate::session::lemma_ran_nothing(start);
        assert(repeated(Request::Poll, 0) =~= Seq::<Request>::empty());
    }
    // The live incidence of a vertex, by identity.
    let mut live = IdSet::new();
    let frontier = database.snapshot_frontier();
    match database.edge_map_at(frontier) {
        Ok(edges) => {
            let mut k: usize = 0;
            while k < edges.len()
                invariant
                    database.wf(),
                    frontier.0 == database.tip(),
                    crate::template::edges_wf(edges),
                    k <= edges.key_seq().len(),
                    live.wf(),
                    forall|eid: EId| #[trigger]
                        edge_in(edges, eid) == database.edge_at_spec(eid, frontier),
                    forall|raw: u128| #[trigger]
                        live@.contains(raw) == (edges.key_seq().take(k as int).contains(raw)
                            && live_incident(*database, vid).contains(raw)),
                decreases edges.key_seq().len() - k,
            {
                let key: u128 = edges.key_at(k);
                let record = edges.value_at(k);
                let ghost before = live@;
                proof {
                    edges.lemma_position(k as int);
                    assert(edge_in(edges, EId(key)) == Some(record@));
                    assert(current_graph(*database)(EId(key)) == Some(record@));
                }
                if record.entry.src == vid || record.entry.dst == vid {
                    live.insert(key);
                }
                proof {
                    let seen = edges.key_seq().take(k as int);
                    let next = edges.key_seq().take(k + 1);
                    assert(next =~= seen.push(key));
                    lemma_push_to_set(seen, key);
                    assert forall|raw: u128| #[trigger] live@.contains(raw) == (next.contains(raw)
                        && live_incident(*database, vid).contains(raw)) by {
                        assert(next.to_set().contains(raw) == seen.to_set().insert(key).contains(
                            raw,
                        ));
                        assert(before.contains(raw) == (seen.contains(raw) && live_incident(
                            *database,
                            vid,
                        ).contains(raw)));
                    }
                }
                k += 1;
            }
            proof {
                assert(edges.key_seq().take(k as int) =~= edges.key_seq());
                assert forall|raw: u128| #[trigger] live@.contains(raw) == live_set.contains(raw) by {
                    assert(edge_in(edges, EId(raw)) == database.edge_at_spec(EId(raw), frontier));
                    assert(current_graph(*database)(EId(raw)) == edge_in(edges, EId(raw)));
                    assert(edges@.dom().contains(raw) == edges.key_seq().contains(raw));
                }
                assert(live@ =~= live_set);
            }
        },
        Err(_) => {
            assert(database.history_refusal(frontier) is None);
        },
    }
    let polled = poll_more(session, Ghost(start), Ghost(0));
    proof {
        live.lemma_sorted();
    }
    if let Err(error) = polled {
        proof {
            lemma_repeated_refused(start, session.log(), 1, total);
        }
        return Err(error);
    }
    let mut ids = IdSet::new();
    let mut i: usize = 0;
    while i < live.len()
        invariant
            i <= live.seq().len(),
            live.wf(),
            live@ == live_set,
            live.seq() == sorted_ids(live_set),
            live_set == live_incident(*database, vid),
            rows == intents(transaction.staged@),
            total == 1 + live.seq().len() + rows.len(),
            ids.wf(),
            ids@ =~= live.seq().take(i as int).to_set(),
            start == old(session).log(),
            session.metered() == old(session).metered(),
            evaluations(session.log()) == evaluations(old(session).log()),
            followed(start, session.log(), repeated(Request::Poll, (1 + i) as nat)),
            refused(start, session.log()) is None,
        decreases live.seq().len() - i,
    {
        if let Err(error) = poll_more(session, Ghost(start), Ghost((1 + i) as nat)) {
            proof {
                lemma_repeated_refused(start, session.log(), (2 + i) as nat, total);
            }
            return Err(error);
        }
        let id: u128 = live.at(i);
        ids.insert(id);
        proof {
            let seen = live.seq().take(i as int);
            assert(live.seq().take(i + 1) =~= seen.push(id));
            lemma_push_to_set(seen, id);
        }
        i += 1;
    }
    proof {
        assert(live.seq().take(i as int) =~= live.seq());
        assert(staged_incident(intents_upto(transaction.staged@, 0), vid) =~= Set::<u128>::empty());
        assert(ids@ =~= live_set.union(Set::<u128>::empty()));
    }
    let ghost walked: nat = (1 + live.seq().len()) as nat;
    let mut b: usize = 0;
    while b < transaction.staged.len()
        invariant
            b <= transaction.staged.len(),
            live_set == live_incident(*database, vid),
            rows == intents(transaction.staged@),
            total == walked + rows.len(),
            total == 1 + sorted_ids(live_set).len() + rows.len(),
            ids.wf(),
            ids@ =~= live_set.union(
                staged_incident(intents_upto(transaction.staged@, b as int), vid),
            ),
            start == old(session).log(),
            session.metered() == old(session).metered(),
            evaluations(session.log()) == evaluations(old(session).log()),
            followed(
                start,
                session.log(),
                repeated(
                    Request::Poll,
                    walked + intents_upto(transaction.staged@, b as int).len(),
                ),
            ),
            refused(start, session.log()) is None,
        decreases transaction.staged.len() - b,
    {
        let batch = &transaction.staged[b];
        let ghost seen = intents_upto(transaction.staged@, b as int);
        let ghost own = batch.rows@.map_values(|row: PendingRow| (batch.relation, row));
        proof {
            assert(seen + own.take(0) =~= seen);
            assert(seen + own =~= intents_upto(transaction.staged@, b + 1));
            crate::admission::lemma_intents_len(
                transaction.staged@,
                b + 1,
                transaction.staged@.len() as int,
            );
        }
        let mut r: usize = 0;
        while r < batch.rows.len()
            invariant
                b < transaction.staged.len(),
                *batch == transaction.staged@[b as int],
                r <= batch.rows.len(),
                own == batch.rows@.map_values(|row: PendingRow| (batch.relation, row)),
                seen.len() + own.len() <= rows.len(),
                live_set == live_incident(*database, vid),
                rows == intents(transaction.staged@),
                total == walked + rows.len(),
                total == 1 + sorted_ids(live_set).len() + rows.len(),
                ids.wf(),
                ids@ =~= live_set.union(staged_incident(seen + own.take(r as int), vid)),
                start == old(session).log(),
                session.metered() == old(session).metered(),
                evaluations(session.log()) == evaluations(old(session).log()),
                followed(
                    start,
                    session.log(),
                    repeated(Request::Poll, (walked + seen.len() + r) as nat),
                ),
                refused(start, session.log()) is None,
            decreases batch.rows.len() - r,
        {
            let ghost count: nat = (walked + seen.len() + r) as nat;
            if let Err(error) = poll_more(session, Ghost(start), Ghost(count)) {
                proof {
                    lemma_repeated_refused(start, session.log(), count + 1, total);
                }
                return Err(error);
            }
            let ghost before = seen + own.take(r as int);
            let ghost row = (batch.relation, batch.rows@[r as int]);
            proof {
                assert(seen + own.take(r + 1) =~= before.push(row));
                lemma_staged_incident_push(before, row, vid);
            }
            if let PendingRow::Edge { eid, src, dst, .. } = &batch.rows[r] {
                if *src == vid || *dst == vid {
                    ids.insert(eid.0);
                }
            }
            r += 1;
        }
        proof {
            assert(own.take(r as int) =~= own);
        }
        b += 1;
    }
    Ok(ids)
}

proof fn lemma_staged_incident_push(
    rows: Seq<(RelationId, PendingRow)>,
    row: (RelationId, PendingRow),
    vid: VId,
)
    ensures
        staged_incident(rows.push(row), vid) == staged_incident(rows, vid).union(
            Set::new(|raw: u128| asks_incident(row.1, vid, raw)),
        ),
{
    let all = rows.push(row);
    let own = Set::new(|raw: u128| asks_incident(row.1, vid, raw));
    assert(all[rows.len() as int] == row);
    assert forall|raw: u128| #[trigger] staged_incident(all, vid).contains(raw)
        == staged_incident(rows, vid).union(own).contains(raw) by {
        if staged_incident(rows, vid).contains(raw) {
            let i = choose|i: int|
                0 <= i < rows.len() && asks_incident((#[trigger] rows[i]).1, vid, raw);
            assert(asks_incident(all[i].1, vid, raw));
        }
        if own.contains(raw) {
            assert(asks_incident(all[rows.len() as int].1, vid, raw));
        }
        if staged_incident(all, vid).contains(raw) {
            let i = choose|i: int|
                0 <= i < all.len() && asks_incident((#[trigger] all[i]).1, vid, raw);
            if i < rows.len() {
                assert(asks_incident(rows[i].1, vid, raw));
            }
        }
    }
    assert(staged_incident(all, vid) =~= staged_incident(rows, vid).union(own));
}

/// The transaction sees this edge between these endpoints.
pub open spec fn is_triple(
    txn: WriteTxn,
    database: Database,
    raw: u128,
    src: VId,
    relation: RelationId,
    dst: VId,
) -> bool {
    txn.overlay_edge(database, EId(raw)) matches Some(edge) && edge.entry.src == src
        && edge.entry.relation == relation && edge.entry.dst == dst
}

/// The first listed edge between these endpoints at position `from` or later, or
/// the length of the list.
pub open spec fn first_triple(
    txn: WriteTxn,
    database: Database,
    list: Seq<u128>,
    src: VId,
    relation: RelationId,
    dst: VId,
    from: int,
) -> int
    decreases list.len() - from,
{
    if from >= list.len() {
        list.len() as int
    } else if is_triple(txn, database, list[from], src, relation, dst) {
        from
    } else {
        first_triple(txn, database, list, src, relation, dst, from + 1)
    }
}

/// The candidates at the source, in order.
pub open spec fn alias_list(txn: WriteTxn, database: Database, src: VId) -> Seq<u128> {
    sorted_ids(candidates(txn, database, src))
}

/// The edge that an ensure-by-triple stands for: the first live alias of its
/// triple, or else the requested identity.
pub open spec fn alias_of(
    txn: WriteTxn,
    database: Database,
    eid: EId,
    src: VId,
    relation: RelationId,
    dst: VId,
) -> EId {
    let list = alias_list(txn, database, src);
    let found = first_triple(txn, database, list, src, relation, dst, 0);
    if found < list.len() {
        EId(list[found])
    } else {
        eid
    }
}

/// Look for an alias: unmetered until one is selected, then one unit.
pub open spec fn alias_plan(
    txn: WriteTxn,
    database: Database,
    src: VId,
    relation: RelationId,
    dst: VId,
) -> Plan<WriteTxnError> {
    let list = alias_list(txn, database, src);
    let found = first_triple(txn, database, list, src, relation, dst, 0);
    if found < list.len() {
        ask::<WriteTxnError>(repeated(Request::Poll, (found + 1) as nat)).and(unit())
    } else {
        ask(repeated(Request::Poll, list.len()))
    }
}

/// What looking for an alias reads: the candidates up to the first alias.
pub open spec fn alias_reads(
    txn: WriteTxn,
    database: Database,
    src: VId,
    relation: RelationId,
    dst: VId,
) -> Seq<Set<ElementId>> {
    let list = alias_list(txn, database, src);
    let found = first_triple(txn, database, list, src, relation, dst, 0);
    Seq::new(
        (if found < list.len() {
            found + 1
        } else {
            list.len() as int
        }) as nat,
        |i: int| record_reads(txn, database, EId(list[i])),
    )
}

/// Look for a live alias of a triple among the candidates at its source.
fn find_alias<H: Host>(
    transaction: &mut WriteTxn,
    database: &Database,
    ids: &IdSet,
    eid: EId,
    src: VId,
    relation: RelationId,
    dst: VId,
    session: &mut Session<H>,
) -> (target: Result<EId, WriteTxnError>)
    requires
        old(transaction).wf(),
        database.wf(),
        ids.wf(),
        ids@ == candidates(*old(transaction), *database, src),
        old(transaction).read_refusal(*database) is None,
    ensures
        final(transaction).wf(),
        same_workspace(*old(transaction), *final(transaction)),
        keeps_observations(*old(transaction), *final(transaction)),
        final(session).metered() == old(session).metered(),
        evaluations(final(session).log()) == evaluations(old(session).log()),
        obeys(
            old(session).log(),
            final(session).log(),
            alias_plan(*old(transaction), *database, src, relation, dst),
            same_error(),
            failure(target),
        ),
        target matches Ok(found) ==> found == alias_of(
            *old(transaction),
            *database,
            eid,
            src,
            relation,
            dst,
        ) && reads_only(
            *old(transaction),
            *final(transaction),
            joint(alias_reads(*old(transaction), *database, src, relation, dst)),
        ),
        reads_within(
            *old(transaction),
            *final(transaction),
            joint(alias_reads(*old(transaction), *database, src, relation, dst)),
        ),
{
    let ghost start = session.log();
    let ghost txn = *transaction;
    let ghost list = alias_list(txn, *database, src);
    let ghost found = first_triple(txn, *database, list, src, relation, dst, 0);
    let ghost reads = alias_reads(txn, *database, src, relation, dst);
    proof {
        ids.lemma_sorted();
        crate::session::lemma_ran_nothing(start);
        assert(repeated(Request::Poll, 0) =~= Seq::<Request>::empty());
        lemma_first_triple_bound(txn, *database, list, src, relation, dst, 0);
        assert(joint(reads.take(0)) =~= Set::empty());
    }
    let mut i: usize = 0;
    while i < ids.len()
        invariant
            i <= ids.seq().len(),
            ids.wf(),
            ids.seq() == list,
            database.wf(),
            txn == *old(transaction),
            list == alias_list(txn, *database, src),
            found == first_triple(txn, *database, list, src, relation, dst, 0),
            found == first_triple(txn, *database, list, src, relation, dst, i as int),
            0 <= found <= list.len(),
            transaction.wf(),
            same_workspace(txn, *transaction),
            keeps_observations(txn, *transaction),
            reads == alias_reads(txn, *database, src, relation, dst),
            i <= reads.len(),
            i <= found,
            reads_only(txn, *transaction, joint(reads.take(i as int))),
            txn.read_refusal(*database) is None,
            start == old(session).log(),
            session.metered() == old(session).metered(),
            evaluations(session.log()) == evaluations(old(session).log()),
            followed(start, session.log(), repeated(Request::Poll, i as nat)),
            refused(start, session.log()) is None,
        decreases ids.seq().len() - i,
    {
        proof {
            lemma_first_triple_bound(txn, *database, list, src, relation, dst, i as int);
        }
        if let Err(error) = poll_more(session, Ghost(start), Ghost(i as nat)) {
            proof {
                if found < list.len() {
                    lemma_repeated_refused(start, session.log(), (i + 1) as nat, (found + 1) as nat);
                    lemma_obeys_failed(
                        start,
                        session.log(),
                        ask(repeated(Request::Poll, (found + 1) as nat)),
                        unit(),
                        same_error(),
                        Some(error),
                    );
                } else {
                    lemma_repeated_refused(start, session.log(), (i + 1) as nat, list.len());
                }
            }
            proof {
                lemma_joint_prefix(txn, *transaction, reads, i as int);
            }
            return Err(error);
        }
        let candidate = EId(ids.at(i));
        let ghost seen = *transaction;
        let read = transaction.edge(database, candidate);
        proof {
            assert(read is Ok);
            assert(reads[i as int] == record_reads(txn, *database, candidate));
            lemma_joint_more(txn, seen, *transaction, reads, i as int);
        }
        if let Ok(Some(edge)) = &read {
            if edge.entry.src == src && edge.entry.relation == relation && edge.entry.dst == dst {
                proof {
                    assert(is_triple(txn, *database, list[i as int], src, relation, dst));
                    assert(found == i);
                    assert(reads.take(i + 1) =~= reads);
                }
                let ghost middle = session.log();
                let paid = session.work(1);
                proof {
                    lemma_obeys_ask(
                        start,
                        middle,
                        repeated(Request::Poll, (found + 1) as nat),
                        same_error(),
                    );
                    lemma_obeys_ask(middle, session.log(), work_plan(1), same_error());
                    lemma_obeys_and(
                        start,
                        middle,
                        session.log(),
                        ask(repeated(Request::Poll, (found + 1) as nat)),
                        unit(),
                        same_error(),
                        failure(paid),
                    );
                }
                if let Err(error) = paid {
                    return Err(error);
                }
                return Ok(candidate);
            }
        }
        proof {
            assert(!is_triple(txn, *database, list[i as int], src, relation, dst));
            if i < list.len() {
                lemma_first_triple_bound(txn, *database, list, src, relation, dst, i + 1);
            }
        }
        i += 1;
    }
    proof {
        assert(reads.take(i as int) =~= reads);
    }
    Ok(eid)
}

proof fn lemma_first_triple_bound(
    txn: WriteTxn,
    database: Database,
    list: Seq<u128>,
    src: VId,
    relation: RelationId,
    dst: VId,
    from: int,
)
    requires
        0 <= from <= list.len(),
    ensures
        from <= first_triple(txn, database, list, src, relation, dst, from) <= list.len(),
    decreases list.len() - from,
{
    if from < list.len() && !is_triple(txn, database, list[from], src, relation, dst) {
        lemma_first_triple_bound(txn, database, list, src, relation, dst, from + 1);
    }
}

/// The edge that an intent writes by identity, and whether it deletes it.
pub open spec fn edge_target(row: PendingRow) -> Option<(EId, bool)> {
    match row {
        PendingRow::Edge { eid, .. } => Some((eid, false)),
        PendingRow::DeleteEdge { eid, .. } => Some((eid, true)),
        PendingRow::SetEdgeProperty { eid, .. } => Some((eid, false)),
        PendingRow::CompareAndSet { elem: ElementId::Edge(eid), .. } => Some((eid, false)),
        _ => None,
    }
}

/// The edge that an intent stands for once aliases are resolved.
pub open spec fn resolved_target(
    txn: WriteTxn,
    database: Database,
    relation: RelationId,
    row: PendingRow,
) -> EId {
    match row {
        PendingRow::Edge { eid, src, dst, ensure, .. } => if ensure {
            alias_of(txn, database, eid, src, relation, dst)
        } else {
            eid
        },
        _ => (edge_target(row)->0).0,
    }
}

/// The raw keys of a property map.
pub open spec fn raw_keys(props: Map<PropertyKeyId, CanonicalScalar>) -> Set<u128> {
    Set::new(|raw: u128| raw <= u64::MAX && props.dom().contains(PropertyKeyId(raw as u64)))
}

/// Admit `n` fields that no capability hides here.
pub open spec fn open_fields(n: nat) -> Plan<WriteTxnError> {
    whole(Seq::new(n, |i: int| admit_field(true)))
}

/// What an intent has to pass before its target is read. A whole-edge deletion
/// erases every property: it is decided by the capability before any lookup.
pub open spec fn edge_entry_steps(
    txn: WriteTxn,
    database: Database,
    scope: Predicates,
    relation: RelationId,
    row: PendingRow,
) -> Seq<Plan<WriteTxnError>> {
    match row {
        PendingRow::Edge { src, dst, ensure, .. } => seq![
            admit_field(scope.admits_relation(relation)),
            fields_plan(scope, Seq::empty(), attempted_keys(row)),
            whole(endpoint_steps(txn, database, scope, src)),
            whole(endpoint_steps(txn, database, scope, dst)),
            if ensure {
                candidates_plan(txn, database, src)
            } else {
                go()
            },
            if ensure {
                alias_plan(txn, database, src, relation, dst)
            } else {
                go()
            },
        ],
        PendingRow::DeleteEdge { .. } => seq![demand(scope.all_properties(), denied())],
        _ => seq![fields_plan(scope, Seq::empty(), attempted_keys(row))],
    }
}

/// What an intent reads before its target: the endpoints of a new edge, and the
/// candidates for its alias.
pub open spec fn entry_reads(
    txn: WriteTxn,
    database: Database,
    relation: RelationId,
    row: PendingRow,
) -> Set<ElementId> {
    match row {
        PendingRow::Edge { src, dst, ensure, .. } => set![
            ElementId::Vertex(src),
            ElementId::Vertex(dst),
        ].union(
            if ensure {
                joint(alias_reads(txn, database, src, relation, dst))
            } else {
                Set::empty()
            },
        ),
        _ => Set::empty(),
    }
}

/// What staging an edge intent reads: what admits it, the edge before, and the
/// edge after.
pub open spec fn edge_stage_reads(
    txn: WriteTxn,
    after: WriteTxn,
    database: Database,
    batch: WriteBatch,
) -> Set<ElementId> {
    let row = batch.rows@[0];
    let eid = resolved_target(txn, database, batch.relation, row);
    if edge_target(row) is None {
        Set::empty()
    } else {
        entry_reads(txn, database, batch.relation, row).union(
            edge_reads(txn, database, eid),
        ).union(edge_reads(after, database, eid))
    }
}

/// The property keys that an edge intent writes: those it attempts, or all of the
/// edge it deletes.
pub open spec fn written_keys(row: PendingRow, before: Option<EdgeImageView>) -> Set<u128> {
    match (row, before) {
        (PendingRow::DeleteEdge { .. }, Some(image)) => raw_keys(image.edge.props),
        _ => key_ids(attempted_keys(row)),
    }
}

/// Admit the target of an edge intent before the evaluator sees it.
pub open spec fn admit_edge_steps(
    row: PendingRow,
    before: Option<EdgeImageView>,
) -> Seq<Plan<WriteTxnError>> {
    match before {
        Some(image) => seq![
            if row is DeleteEdge {
                open_fields(image.edge.props.dom().len())
            } else {
                go()
            },
            check_edge_plan(before, before, written_keys(row, before)),
        ],
        None => seq![demand(row is Edge, denied())],
    }
}

/// An edge intent that the capability alone refuses, before anything is read.
pub open spec fn edge_barred(scope: Predicates, relation: RelationId, row: PendingRow) -> bool {
    match row {
        PendingRow::Edge { .. } => !scope.admits_relation(relation) || fields_plan(
            scope,
            Seq::empty(),
            attempted_keys(row),
        ).verdict is Some,
        PendingRow::DeleteEdge { .. } => !scope.all_properties(),
        _ => fields_plan(scope, Seq::empty(), attempted_keys(row)).verdict is Some,
    }
}

/// The steps of staging one edge intent.
pub open spec fn stage_edge_steps(
    txn: WriteTxn,
    after: WriteTxn,
    database: Database,
    scope: Predicates,
    batch: WriteBatch,
) -> Seq<Plan<WriteTxnError>> {
    let row = batch.rows@[0];
    let eid = resolved_target(txn, database, batch.relation, row);
    let before_image = edge_image(txn, database, eid);
    seq![
        whole(edge_entry_steps(txn, database, scope, batch.relation, row)),
        whole(edge_steps(txn, database, scope, eid)),
        whole(admit_edge_steps(row, before_image)),
        native_plan(txn, database, batch),
        whole(edge_steps(after, database, scope, eid)),
        check_edge_plan(
            before_image,
            edge_image(after, database, eid),
            written_keys(row, before_image),
        ),
    ]
}

pub open spec fn stage_edge_plan(
    txn: WriteTxn,
    after: WriteTxn,
    database: Database,
    scope: Predicates,
    batch: WriteBatch,
) -> Plan<WriteTxnError> {
    if edge_target(batch.rows@[0]) is None {
        stop(WriteTxnError::AuthorizedMutationRefused)
    } else {
        whole(stage_edge_steps(txn, after, database, scope, batch))
    }
}

/// A sorted list's keys are the keys of its map, each once.
pub proof fn lemma_map_keys(props: Seq<(PropertyKeyId, CanonicalScalar)>)
    requires
        props_sorted(props),
    ensures
        key_ids(keys_of(props)) == raw_keys(props_map(props)),
        props_map(props).dom().len() == props.len(),
{
    let keys = keys_of(props);
    let raw = keys.map_values(|key: PropertyKeyId| key.0 as u128);
    assert forall|x: u128| #[trigger] raw.to_set().contains(x) == raw_keys(
        props_map(props),
    ).contains(x) by {
        if raw.contains(x) {
            let i = raw.index_of(x);
            assert(props[i].0 == PropertyKeyId(x as u64));
            assert(has_key(props, PropertyKeyId(x as u64)));
        }
        if raw_keys(props_map(props)).contains(x) {
            let i = choose|i: int|
                0 <= i < props.len() && (#[trigger] props[i]).0 == PropertyKeyId(x as u64);
            assert(raw[i] == x);
        }
    }
    assert(key_ids(keys) =~= raw_keys(props_map(props)));
    assert(keys.no_duplicates()) by {
        assert forall|i: int, j: int|
            0 <= i < keys.len() && 0 <= j < keys.len() && i != j implies keys[i] != keys[j] by {
            if i < j {
                assert(props[i].0.0 < props[j].0.0);
            } else {
                assert(props[j].0.0 < props[i].0.0);
            }
        }
    }
    keys.unique_seq_to_set();
    assert(keys.to_set() =~= props_map(props).dom()) by {
        assert forall|key: PropertyKeyId| #[trigger] keys.to_set().contains(key) == props_map(
            props,
        ).dom().contains(key) by {
            if keys.contains(key) {
                let i = keys.index_of(key);
                assert(props[i].0 == key);
            }
            if has_key(props, key) {
                let i = choose|i: int| 0 <= i < props.len() && (#[trigger] props[i]).0 == key;
                assert(keys[i] == key);
            }
        }
    }
}

/// Without a hidden property, every key is admitted.
pub proof fn lemma_open_fields(
    scope: Predicates,
    labels: Seq<LabelId>,
    keys: Seq<PropertyKeyId>,
)
    requires
        scope.all_properties(),
        labels.len() > 0 ==> scope.all_fields(),
    ensures
        fields_plan(scope, labels, keys) == open_fields((labels.len() + keys.len()) as nat),
{
    assert(scope.denied_properties@ =~= Seq::<PropertyKeyId>::empty());
    assert(fields_steps(scope, labels, keys) =~= Seq::new(
        (labels.len() + keys.len()) as nat,
        |i: int| admit_field(true),
    ));
}

/// Pass everything that precedes the read of an edge target, and resolve it.
proof fn lemma_same_alias_reads(
    left: WriteTxn,
    right: WriteTxn,
    database: Database,
    src: VId,
    relation: RelationId,
    dst: VId,
)
    requires
        same_workspace(left, right),
    ensures
        alias_reads(left, database, src, relation, dst) == alias_reads(
            right,
            database,
            src,
            relation,
            dst,
        ),
{
    let list = alias_list(left, database, src);
    assert(candidates(left, database, src) =~= candidates(right, database, src));
    lemma_same_first(left, right, database, list, src, relation, dst, 0);
    assert(alias_reads(left, database, src, relation, dst) =~= alias_reads(
        right,
        database,
        src,
        relation,
        dst,
    ));
}

fn edge_entry<H: Host>(
    transaction: &mut WriteTxn,
    database: &Database,
    batch: &WriteBatch,
    scope: &Predicates,
    session: &mut Session<H>,
) -> (entered: Result<(EId, IdSet), WriteTxnError>)
    requires
        old(transaction).wf(),
        database.wf(),
        batch.rows@.len() == 1,
        edge_target(batch.rows@[0]) is Some,
    ensures
        final(transaction).wf(),
        same_workspace(*old(transaction), *final(transaction)),
        keeps_observations(*old(transaction), *final(transaction)),
        final(session).metered() == old(session).metered(),
        evaluations(final(session).log()) == evaluations(old(session).log()),
        obeys(
            old(session).log(),
            final(session).log(),
            whole(
                edge_entry_steps(
                    *old(transaction),
                    *database,
                    *scope,
                    batch.relation,
                    batch.rows@[0],
                ),
            ),
            same_error(),
            failure(entered),
        ),
        edge_barred(*scope, batch.relation, batch.rows@[0]) ==> entered is Err && *final(transaction)
            == *old(transaction),
        entered matches Ok((eid, properties)) ==> {
            &&& eid == resolved_target(
                *old(transaction),
                *database,
                batch.relation,
                batch.rows@[0],
            )
            &&& properties.wf()
            &&& properties@ == key_ids(attempted_keys(batch.rows@[0]))
            &&& batch.rows@[0] is DeleteEdge ==> scope.all_properties()
            &&& reads_only(
                *old(transaction),
                *final(transaction),
                entry_reads(*old(transaction), *database, batch.relation, batch.rows@[0]),
            )
        },
        reads_within(
            *old(transaction),
            *final(transaction),
            entry_reads(*old(transaction), *database, batch.relation, batch.rows@[0]),
        ),
{
    let ghost start = session.log();
    let ghost txn = *transaction;
    let row = &batch.rows[0];
    let ghost steps = edge_entry_steps(txn, *database, *scope, batch.relation, *row);
    let relation = batch.relation;
    let none: Vec<LabelId> = Vec::new();
    proof {
        lemma_obeys_nothing(start, same_error());
        assert(none@ =~= Seq::<LabelId>::empty());
    }
    match row {
        PendingRow::Edge { eid, src, dst, props, ensure } => {
            let keys = list_keys(props);
            let step = pay_and_decide(scope.allows_relation(relation), session);
            let ghost log0 = session.log();
            proof {
                lemma_step(start, start, log0, steps, 0, same_error(), failure(step));
            }
            if let Err(error) = step {
                return Err(error);
            }
            let admitted = admit_fields(scope, &none, &keys, session);
            let ghost log1 = session.log();
            proof {
                lemma_step(start, log0, log1, steps, 1, same_error(), failure(admitted));
            }
            let fields = match admitted {
                Ok(fields) => fields,
                Err(error) => return Err(error),
            };
            let step = endpoint(transaction, database, scope, *src, session);
            let ghost log2 = session.log();
            proof {
                lemma_step(start, log1, log2, steps, 2, same_error(), failure(step));
            }
            if let Err(error) = step {
                return Err(error);
            }
            let ghost read_txn = *transaction;
            let step = endpoint(transaction, database, scope, *dst, session);
            let ghost log3 = session.log();
            proof {
                assert(endpoint_steps(read_txn, *database, *scope, *dst) =~= endpoint_steps(
                    txn,
                    *database,
                    *scope,
                    *dst,
                ));
                lemma_step(start, log2, log3, steps, 3, same_error(), failure(step));
            }
            if let Err(error) = step {
                return Err(error);
            }
            if !*ensure {
                proof {
                    lemma_obeys_nothing(log3, same_error());
                    lemma_step(start, log3, log3, steps, 4, same_error(), None);
                    lemma_step(start, log3, log3, steps, 5, same_error(), None);
                }
                return Ok((*eid, fields.properties));
            }
            // Ensure-by-triple ignores the requested identity when a live alias
            // satisfies the triple. Authorize that actual edge.
            let ids = incident_candidates(transaction, database, *src, session);
            let ghost log4 = session.log();
            proof {
                assert(candidates_plan(*transaction, *database, *src) == candidates_plan(
                    txn,
                    *database,
                    *src,
                ));
                lemma_step(start, log3, log4, steps, 4, same_error(), failure(ids));
            }
            let ids = match ids {
                Ok(ids) => ids,
                Err(error) => return Err(error),
            };
            let ghost read_txn = *transaction;
            let target = find_alias(
                transaction,
                database,
                &ids,
                *eid,
                *src,
                relation,
                *dst,
                session,
            );
            proof {
                lemma_same_alias(txn, read_txn, *database, *eid, *src, relation, *dst);
                lemma_same_alias_reads(txn, read_txn, *database, *src, relation, *dst);
                lemma_step(start, log4, session.log(), steps, 5, same_error(), failure(target));
            }
            match target {
                Ok(target) => Ok((target, fields.properties)),
                Err(error) => Err(error),
            }
        },
        PendingRow::DeleteEdge { eid, .. } => {
            proof {
                lemma_obeys_stop(start, same_error(), denied());
                lemma_step(start, start, start, steps, 0, same_error(), steps[0].verdict);
            }
            if !scope.sees_all_properties() {
                return Err(WriteTxnError::Authorization(Denial::ScopeDenied));
            }
            let nothing = IdSet::new();
            proof {
                assert(nothing@ =~= key_ids(attempted_keys(*row)));
            }
            Ok((*eid, nothing))
        },
        PendingRow::SetEdgeProperty { eid, key, .. }
        | PendingRow::CompareAndSet { elem: ElementId::Edge(eid), key, .. } => {
            let mut keys: Vec<PropertyKeyId> = Vec::new();
            keys.push(*key);
            proof {
                assert(keys@ =~= attempted_keys(*row));
            }
            let admitted = admit_fields(scope, &none, &keys, session);
            proof {
                lemma_step(start, start, session.log(), steps, 0, same_error(), failure(admitted));
            }
            match admitted {
                Ok(fields) => Ok((*eid, fields.properties)),
                Err(error) => Err(error),
            }
        },
        _ => {
            assert(false);
            Err(WriteTxnError::AuthorizedMutationRefused)
        },
    }
}

proof fn lemma_same_alias(
    left: WriteTxn,
    right: WriteTxn,
    database: Database,
    eid: EId,
    src: VId,
    relation: RelationId,
    dst: VId,
)
    requires
        same_workspace(left, right),
    ensures
        alias_plan(left, database, src, relation, dst) == alias_plan(
            right,
            database,
            src,
            relation,
            dst,
        ),
        alias_of(left, database, eid, src, relation, dst) == alias_of(
            right,
            database,
            eid,
            src,
            relation,
            dst,
        ),
        alias_list(left, database, src) == alias_list(right, database, src),
{
    assert(candidates(left, database, src) =~= candidates(right, database, src));
    let list = alias_list(left, database, src);
    lemma_same_first(left, right, database, list, src, relation, dst, 0);
}

proof fn lemma_same_first(
    left: WriteTxn,
    right: WriteTxn,
    database: Database,
    list: Seq<u128>,
    src: VId,
    relation: RelationId,
    dst: VId,
    from: int,
)
    requires
        same_workspace(left, right),
    ensures
        first_triple(left, database, list, src, relation, dst, from) == first_triple(
            right,
            database,
            list,
            src,
            relation,
            dst,
            from,
        ),
    decreases list.len() - from,
{
    if from < list.len() {
        assert(left.overlay_edge(database, EId(list[from])) == right.overlay_edge(
            database,
            EId(list[from]),
        ));
        lemma_same_first(left, right, database, list, src, relation, dst, from + 1);
    }
}

/// Observations alone do not change what is asked or seen of an edge.
pub proof fn lemma_same_edge(
    left: WriteTxn,
    right: WriteTxn,
    database: Database,
    scope: Predicates,
    eid: EId,
)
    requires
        same_workspace(left, right),
    ensures
        edge_steps(left, database, scope, eid) == edge_steps(right, database, scope, eid),
        edge_image(left, database, eid) == edge_image(right, database, eid),
{
    if let Some(view) = left.overlay_edge(database, eid) {
        lemma_same_image(left, right, database, scope, view);
    }
    assert(edge_steps(left, database, scope, eid) =~= edge_steps(right, database, scope, eid));
}

/// Admit an existing edge target, with all its properties when it is deleted.
fn admit_edge<H: Host>(
    row: &PendingRow,
    before: &Option<EdgeImage>,
    attempted: IdSet,
    scope: &Predicates,
    session: &mut Session<H>,
) -> (admitted: Result<IdSet, WriteTxnError>)
    requires
        attempted.wf(),
        attempted@ == key_ids(attempted_keys(*row)),
        row is DeleteEdge ==> scope.all_properties(),
        before matches Some(image) ==> image.edge.wf(),
    ensures
        final(session).metered() == old(session).metered(),
        evaluations(final(session).log()) == evaluations(old(session).log()),
        obeys(
            old(session).log(),
            final(session).log(),
            whole(admit_edge_steps(*row, image_view(*before))),
            same_error(),
            failure(admitted),
        ),
        admitted matches Ok(properties) ==> properties@ == written_keys(*row, image_view(*before)),
{
    let ghost start = session.log();
    let ghost seen = image_view(*before);
    let ghost steps = admit_edge_steps(*row, seen);
    proof {
        lemma_obeys_nothing(start, same_error());
    }
    match before {
        Some(image) => {
            let mut properties = attempted;
            if let PendingRow::DeleteEdge { .. } = row {
                let none: Vec<LabelId> = Vec::new();
                let keys = list_keys(&image.edge.props);
                proof {
                    assert(none@ =~= Seq::<LabelId>::empty());
                    lemma_map_keys(image.edge.props@);
                    lemma_open_fields(*scope, none@, keys@);
                }
                let fields = admit_fields(scope, &none, &keys, session);
                proof {
                    lemma_step(start, start, session.log(), steps, 0, same_error(), failure(fields));
                }
                match fields {
                    Ok(fields) => {
                        properties = fields.properties;
                    },
                    Err(error) => return Err(error),
                }
            } else {
                proof {
                    lemma_step(start, start, start, steps, 0, same_error(), None);
                }
            }
            let ghost middle = session.log();
            let checked = check_edge_write(Some(image), Some(image), &properties, session);
            proof {
                lemma_step(start, middle, session.log(), steps, 1, same_error(), failure(checked));
            }
            match checked {
                Ok(()) => Ok(properties),
                Err(error) => Err(error),
            }
        },
        None => {
            proof {
                lemma_obeys_stop(start, same_error(), denied());
                lemma_step(start, start, start, steps, 0, same_error(), steps[0].verdict);
            }
            match row {
                PendingRow::Edge { .. } => Ok(attempted),
                _ => Err(WriteTxnError::Authorization(Denial::ScopeDenied)),
            }
        },
    }
}

/// Stage one edge intent: admit its fields, endpoints and target, evaluate it
/// natively, and check the image it produced.
pub fn stage_edge<H: Host>(
    transaction: &mut WriteTxn,
    database: &Database,
    batch: WriteBatch,
    scope: &Predicates,
    session: &mut Session<H>,
) -> (staged: Result<(), WriteTxnError>)
    requires
        old(transaction).wf(),
        database.wf(),
        batch.rows@.len() == 1,
    ensures
        final(transaction).wf(),
        staged_or_not(
            *old(transaction),
            *final(transaction),
            batch,
            old(session).log(),
            final(session).log(),
        ),
        staged is Ok ==> final(transaction).staged@ == old(transaction).staged@.push(batch),
        staged is Ok ==> reads_only(
            *old(transaction),
            *final(transaction),
            edge_stage_reads(*old(transaction), *final(transaction), *database, batch),
        ),
        reads_within(
            *old(transaction),
            *final(transaction),
            edge_stage_reads(*old(transaction), *final(transaction), *database, batch).union(
                retained(batch),
            ),
        ),
        edge_target(batch.rows@[0]) is None || edge_barred(*scope, batch.relation, batch.rows@[0])
            ==> staged is Err && *final(transaction) == *old(transaction),
        final(session).metered() == old(session).metered(),
        obeys(
            old(session).log(),
            final(session).log(),
            stage_edge_plan(*old(transaction), *final(transaction), *database, *scope, batch),
            same_error(),
            failure(staged),
        ),
{
    let ghost start = session.log();
    let ghost txn = *transaction;
    let known = match &batch.rows[0] {
        PendingRow::Edge { .. }
        | PendingRow::DeleteEdge { .. }
        | PendingRow::SetEdgeProperty { .. }
        | PendingRow::CompareAndSet { elem: ElementId::Edge(_), .. } => true,
        _ => false,
    };
    if !known {
        proof {
            lemma_obeys_stop(start, same_error(), WriteTxnError::AuthorizedMutationRefused);
        }
        return Err(WriteTxnError::AuthorizedMutationRefused);
    }
    proof {
        lemma_obeys_nothing(start, same_error());
    }
    let entered = edge_entry(transaction, database, &batch, scope, session);
    let ghost log_entry = session.log();
    let (eid, attempted) = match entered {
        Ok(entered) => entered,
        Err(error) => {
            proof {
                let steps = stage_edge_steps(txn, *transaction, *database, *scope, batch);
                lemma_step(start, start, log_entry, steps, 0, same_error(), Some(error));
            }
            return Err(error);
        },
    };
    let ghost entered_txn = *transaction;
    let found = edge(transaction, database, scope, eid, session);
    let ghost log_found = session.log();
    proof {
        lemma_same_edge(txn, entered_txn, *database, *scope, eid);
    }
    let before = match found {
        Ok(before) => before,
        Err(error) => {
            proof {
                let steps = stage_edge_steps(txn, *transaction, *database, *scope, batch);
                lemma_step(start, start, log_entry, steps, 0, same_error(), None);
                lemma_step(start, log_entry, log_found, steps, 1, same_error(), Some(error));
            }
            return Err(error);
        },
    };
    let target = admit_edge(&batch.rows[0], &before, attempted, scope, session);
    let ghost log_target = session.log();
    let properties = match target {
        Ok(properties) => properties,
        Err(error) => {
            proof {
                let steps = stage_edge_steps(txn, *transaction, *database, *scope, batch);
                lemma_step(start, start, log_entry, steps, 0, same_error(), None);
                lemma_step(start, log_entry, log_found, steps, 1, same_error(), None);
                lemma_step(start, log_found, log_target, steps, 2, same_error(), Some(error));
            }
            return Err(error);
        },
    };
    let ghost read_txn = *transaction;
    let native = stage_native(transaction, database, batch, session);
    let ghost log_native = session.log();
    proof {
        assert(native_plan(read_txn, *database, batch) == native_plan(txn, *database, batch));
    }
    if let Err(error) = native {
        proof {
            let steps = stage_edge_steps(txn, *transaction, *database, *scope, batch);
            lemma_step(start, start, log_entry, steps, 0, same_error(), None);
            lemma_step(start, log_entry, log_found, steps, 1, same_error(), None);
            lemma_step(start, log_found, log_target, steps, 2, same_error(), None);
            lemma_step(start, log_target, log_native, steps, 3, same_error(), Some(error));
        }
        return Err(error);
    }
    let ghost prepared = *transaction;
    let produced = edge(transaction, database, scope, eid, session);
    let ghost log_produced = session.log();
    proof {
        lemma_same_edge(prepared, *transaction, *database, *scope, eid);
    }
    let after = match produced {
        Ok(after) => after,
        Err(error) => {
            proof {
                let steps = stage_edge_steps(txn, *transaction, *database, *scope, batch);
                lemma_step(start, start, log_entry, steps, 0, same_error(), None);
                lemma_step(start, log_entry, log_found, steps, 1, same_error(), None);
                lemma_step(start, log_found, log_target, steps, 2, same_error(), None);
                lemma_step(start, log_target, log_native, steps, 3, same_error(), None);
                lemma_step(start, log_native, log_produced, steps, 4, same_error(), Some(error));
            }
            return Err(error);
        },
    };
    let checked = check_edge_write(before.as_ref(), after.as_ref(), &properties, session);
    proof {
        let steps = stage_edge_steps(txn, *transaction, *database, *scope, batch);
        lemma_step(start, start, log_entry, steps, 0, same_error(), None);
        lemma_step(start, log_entry, log_found, steps, 1, same_error(), None);
        lemma_step(start, log_found, log_target, steps, 2, same_error(), None);
        lemma_step(start, log_target, log_native, steps, 3, same_error(), None);
        lemma_step(start, log_native, log_produced, steps, 4, same_error(), None);
        lemma_step(start, log_produced, session.log(), steps, 5, same_error(), failure(checked));
    }
    checked
}

} // verus!
