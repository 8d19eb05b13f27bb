//! The statements of an authorized program: selected updates, creations, vertex
//! and relationship merges.

use vstd::prelude::*;
use crate::authorized::run_frame;
use crate::authorized_run::runs;
use crate::authorized_statement::{
    edge_targets, lead_plan, row_charge, stage_rows, vertex_targets, Lead,
};
use crate::batch::PendingRow;
use crate::controls::{controls_asks, pay_controls, stopped, Control};
use crate::database::Database;
use crate::errors::{LimitDimension, WriteTxnError};
use crate::ids::{CanonicalScalar, EId, LabelId, PropertyKeyId, RelationId, VId};
use crate::idset::{sorted_ids, IdSet};
use crate::plan::{ask, failure, lemma_obeys_ask, lemma_obeys_nothing, obeys};
use crate::scope::Predicates;
use crate::session::{
    followed, lemma_followed_compose, lemma_followed_extend, lemma_ran_nothing, refused, ticks,
    work_plan, Event, Host, Metering, Request, Session,
};
use crate::statement::{in_staging, source, Fault};
use crate::txn::WriteTxn;

verus! {

/// One selected update.
#[allow(inconsistent_fields)]
#[derive(Clone, Copy, PartialEq, Eq, Structural, Debug)]
pub enum MutationIntent {
    Property { vertex: VId, key: PropertyKeyId, value: Option<CanonicalScalar> },
    EdgeProperty { edge: EId, key: PropertyKeyId, value: Option<CanonicalScalar> },
    Label { vertex: VId, label: LabelId, present: bool },
    DetachDelete { vertex: VId },
}

/// The intent that an update stages.
pub open spec fn mutation_row(intent: MutationIntent) -> PendingRow {
    match intent {
        MutationIntent::Property { vertex, key, value } => PendingRow::SetProperty {
            vid: vertex,
            key,
            value,
        },
        MutationIntent::EdgeProperty { edge, key, value } => PendingRow::SetEdgeProperty {
            eid: edge,
            key,
            value,
        },
        MutationIntent::Label { vertex, label, present } => PendingRow::SetLabel {
            vid: vertex,
            label,
            present,
        },
        MutationIntent::DetachDelete { vertex } => PendingRow::DeleteVertex { vid: vertex },
    }
}

pub open spec fn mutation_rows(relation: RelationId, intents: Seq<MutationIntent>) -> Seq<
    (RelationId, PendingRow),
> {
    Seq::new(intents.len(), |i: int| (relation, mutation_row(intents[i])))
}

/// The rows of selected updates, in order.
pub fn list_mutations(relation: RelationId, intents: &Vec<MutationIntent>) -> (rows: Vec<
    (RelationId, PendingRow),
>)
    ensures
        rows@ == mutation_rows(relation, intents@),
{
    let mut rows: Vec<(RelationId, PendingRow)> = Vec::new();
    let mut i: usize = 0;
    while i < intents.len()
        invariant
            i <= intents.len(),
            rows@ == mutation_rows(relation, intents@).take(i as int),
        decreases intents.len() - i,
    {
        let row = match intents[i] {
            MutationIntent::Property { vertex, key, value } => PendingRow::SetProperty {
                vid: vertex,
                key,
                value,
            },
            MutationIntent::EdgeProperty { edge, key, value } => PendingRow::SetEdgeProperty {
                eid: edge,
                key,
                value,
            },
            MutationIntent::Label { vertex, label, present } => PendingRow::SetLabel {
                vid: vertex,
                label,
                present,
            },
            MutationIntent::DetachDelete { vertex } => PendingRow::DeleteVertex { vid: vertex },
        };
        rows.push((relation, row));
        i += 1;
        assert(rows@ =~= mutation_rows(relation, intents@).take(i as int));
    }
    assert(mutation_rows(relation, intents@).take(i as int) =~= mutation_rows(relation, intents@));
    rows
}

/// One creation.
#[derive(Debug)]
pub enum InsertIntent {
    Vertex {
        vertex: VId,
        labels: Vec<LabelId>,
        properties: Vec<(PropertyKeyId, CanonicalScalar)>,
    },
    Edge {
        edge: EId,
        relation: RelationId,
        source: VId,
        destination: VId,
        properties: Vec<(PropertyKeyId, CanonicalScalar)>,
    },
}

/// The intent that a creation stages: a vertex in the statement's relation, an
/// edge in its own.
pub open spec fn insert_row(relation: RelationId, intent: InsertIntent) -> (RelationId, PendingRow) {
    match intent {
        InsertIntent::Vertex { vertex, labels, properties } => (
            relation,
            PendingRow::Vertex { vid: vertex, labels, props: properties, ensure: false },
        ),
        InsertIntent::Edge { edge, relation: own, source, destination, properties } => (
            own,
            PendingRow::Edge {
                eid: edge,
                src: source,
                dst: destination,
                props: properties,
                ensure: false,
            },
        ),
    }
}

pub open spec fn insert_rows(relation: RelationId, intents: Seq<InsertIntent>) -> Seq<
    (RelationId, PendingRow),
> {
    Seq::new(intents.len(), |i: int| insert_row(relation, intents[i]))
}

/// The rows of creations, in order.
pub fn list_insertions(relation: RelationId, intents: Vec<InsertIntent>) -> (rows: Vec<
    (RelationId, PendingRow),
>)
    ensures
        rows@ == insert_rows(relation, intents@),
{
    let ghost all = insert_rows(relation, intents@);
    let ghost given = intents@;
    let mut intents = intents;
    let mut backwards: Vec<(RelationId, PendingRow)> = Vec::new();
    while intents.len() > 0
        invariant
            intents@.len() <= given.len(),
            intents@ == given.take(intents@.len() as int),
            all == insert_rows(relation, given),
            backwards@.len() == given.len() - intents@.len(),
            forall|k: int|
                0 <= k < backwards@.len() ==> #[trigger] backwards@[k] == all[given.len() - 1 - k],
        decreases intents.len(),
    {
        let ghost rest = intents@;
        if let Some(intent) = intents.pop() {
            proof {
                assert(intents@ =~= given.take(intents@.len() as int));
                assert(intent == given[rest.len() - 1]);
            }
            let row = match intent {
                InsertIntent::Vertex { vertex, labels, properties } => (
                    relation,
                    PendingRow::Vertex { vid: vertex, labels, props: properties, ensure: false },
                ),
                InsertIntent::Edge { edge, relation: own, source, destination, properties } => (
                    own,
                    PendingRow::Edge {
                        eid: edge,
                        src: source,
                        dst: destination,
                        props: properties,
                        ensure: false,
                    },
                ),
            };
            backwards.push(row);
        }
    }
    let mut rows: Vec<(RelationId, PendingRow)> = Vec::new();
    while backwards.len() > 0
        invariant
            all.len() == given.len(),
            backwards@.len() <= given.len(),
            rows@.len() == given.len() - backwards@.len(),
            forall|k: int|
                0 <= k < backwards@.len() ==> #[trigger] backwards@[k] == all[given.len() - 1 - k],
            forall|k: int| 0 <= k < rows@.len() ==> #[trigger] rows@[k] == all[k],
        decreases backwards.len(),
    {
        let ghost left = backwards@;
        if let Some(row) = backwards.pop() {
            assert(row == left[left.len() - 1]);
            rows.push(row);
        }
    }
    assert(rows@ =~= all);
    rows
}

/// Pay one unit of the query for each of `n` receipt entries.
fn pay_receipt<H: Host>(n: usize, session: &mut Session<H>) -> (paid: Result<(), WriteTxnError>)
    ensures
        final(session).metered() == old(session).metered(),
        followed(
            old(session).log(),
            final(session).log(),
            ticks(Metering::SignedQuery, n as nat),
        ),
        failure(paid) == refused(old(session).log(), final(session).log()),
{
    let ghost start = session.log();
    let ghost unit = crate::session::tick_plan(Metering::SignedQuery);
    proof {
        lemma_ran_nothing(start);
    }
    let mut i: usize = 0;
    while i < n
        invariant
            i <= n,
            start == old(session).log(),
            unit == crate::session::tick_plan(Metering::SignedQuery),
            session.metered() == old(session).metered(),
            followed(start, session.log(), ticks(Metering::SignedQuery, i as nat)),
            refused(start, session.log()) is None,
        decreases n - i,
    {
        let ghost middle = session.log();
        let step = session.query_work();
        proof {
            lemma_followed_compose(
                start, middle, session.log(), ticks(Metering::SignedQuery, i as nat), unit,
            );
            assert(ticks(Metering::SignedQuery, (i + 1) as nat) == ticks(
                Metering::SignedQuery,
                i as nat,
            ) + unit) by {
                assert(((i + 1) as nat - 1) as nat == i as nat);
            }
        }
        if let Err(error) = step {
            proof {
                lemma_ticks_prefix(start, session.log(), (i + 1) as nat, n as nat);
            }
            return Err(error);
        }
        i += 1;
    }
    Ok(())
}

/// A refused run of units has followed any longer run.
proof fn lemma_ticks_prefix(log: Seq<Event>, log_after: Seq<Event>, n: nat, m: nat)
    requires
        n <= m,
        followed(log, log_after, ticks(Metering::SignedQuery, n)),
        refused(log, log_after) is Some,
    ensures
        followed(log, log_after, ticks(Metering::SignedQuery, m)),
    decreases m - n,
{
    if n < m {
        let unit = crate::session::tick_plan(Metering::SignedQuery);
        lemma_followed_extend(log, log_after, ticks(Metering::SignedQuery, n), unit);
        assert(((n + 1) as nat - 1) as nat == n);
        lemma_ticks_prefix(log, log_after, n + 1, m);
    }
}

/// Raw identities as vertices.
pub open spec fn as_vertices(ids: Seq<u128>) -> Seq<VId> {
    ids.map_values(|raw: u128| VId(raw))
}

/// Raw identities as edges.
pub open spec fn as_edges(ids: Seq<u128>) -> Seq<EId> {
    ids.map_values(|raw: u128| EId(raw))
}

fn list_vertices(set: &IdSet) -> (list: Vec<VId>)
    requires
        set.wf(),
    ensures
        list@ == as_vertices(sorted_ids(set@)),
{
    let mut list: Vec<VId> = Vec::new();
    let mut i: usize = 0;
    while i < set.len()
        invariant
            set.wf(),
            i <= set.seq().len(),
            list@ == as_vertices(set.seq()).take(i as int),
        decreases set.seq().len() - i,
    {
        list.push(VId(set.at(i)));
        i += 1;
        assert(list@ =~= as_vertices(set.seq()).take(i as int));
    }
    proof {
        set.lemma_sorted();
        assert(as_vertices(set.seq()).take(i as int) =~= as_vertices(set.seq()));
    }
    list
}

fn list_edges(set: &IdSet) -> (list: Vec<EId>)
    requires
        set.wf(),
    ensures
        list@ == as_edges(sorted_ids(set@)),
{
    let mut list: Vec<EId> = Vec::new();
    let mut i: usize = 0;
    while i < set.len()
        invariant
            set.wf(),
            i <= set.seq().len(),
            list@ == as_edges(set.seq()).take(i as int),
        decreases set.seq().len() - i,
    {
        list.push(EId(set.at(i)));
        i += 1;
        assert(list@ =~= as_edges(set.seq()).take(i as int));
    }
    proof {
        set.lemma_sorted();
        assert(as_edges(set.seq()).take(i as int) =~= as_edges(set.seq()));
    }
    list
}

/// What a statement owes for a row: a receipt also pays for its targets.
pub open spec fn mutation_lead(returning: bool) -> Lead {
    if returning {
        Lead::Targets
    } else {
        Lead::Unit
    }
}

/// What the receipt of selected updates asks: one unit for each distinct target.
pub open spec fn receipt_asks(returning: bool, rows: Seq<(RelationId, PendingRow)>) -> Seq<Request> {
    let n = rows.len() as int;
    if returning {
        ticks(
            Metering::SignedQuery,
            vertex_targets(rows, n).len() + edge_targets(rows, n).len(),
        )
    } else {
        Seq::empty()
    }
}

/// The staging of selected updates, then their receipt.
pub open spec fn mutates(
    before: WriteTxn,
    after: WriteTxn,
    database: Database,
    rows: Seq<(RelationId, PendingRow)>,
    returning: bool,
    scope: Predicates,
    log: Seq<Event>,
    log_staged: Seq<Event>,
    log_after: Seq<Event>,
    failed: Option<Fault>,
    receipt: Result<(Vec<VId>, Vec<EId>), Fault>,
) -> bool {
    let n = rows.len() as int;
    &&& runs(
        rows,
        lead_plan(mutation_lead(returning), rows),
        source(),
        before,
        after,
        database,
        scope,
        log,
        log_staged,
        failed,
    )
    &&& match failed {
        Some(fault) => failure(receipt) == Some(fault) && log_after == log_staged,
        None => {
            &&& obeys(
                log_staged,
                log_after,
                ask(receipt_asks(returning, rows)),
                source(),
                failure(receipt),
            )
            &&& receipt matches Ok((vertices, edges)) ==> if returning {
                &&& vertices@ == as_vertices(sorted_ids(vertex_targets(rows, n)))
                &&& edges@ == as_edges(sorted_ids(edge_targets(rows, n)))
            } else {
                vertices@.len() == 0 && edges@.len() == 0
            }
        },
    }
}

/// Stage selected updates. A receipt lists the distinct targets, vertices and
/// edges each in increasing order, and is paid for before it is built.
pub fn apply_mutation<H: Host>(
    transaction: &mut WriteTxn,
    database: &Database,
    relation: RelationId,
    intents: &Vec<MutationIntent>,
    returning: bool,
    scope: &Predicates,
    session: &mut Session<H>,
) -> (receipt: Result<(Vec<VId>, Vec<EId>), Fault>)
    requires
        old(transaction).wf(),
        database.wf(),
    ensures
        final(transaction).wf(),
        run_frame(*old(transaction), *final(transaction)),
        final(session).metered() == old(session).metered(),
        exists|log_staged: Seq<Event>, failed: Option<Fault>| #[trigger]
            mutates(
                *old(transaction),
                *final(transaction),
                *database,
                mutation_rows(relation, intents@),
                returning,
                *scope,
                old(session).log(),
                log_staged,
                final(session).log(),
                failed,
                receipt,
            ),
{
    let ghost before = *transaction;
    let ghost start = session.log();
    let rows = list_mutations(relation, intents);
    let lead = if returning {
        Lead::Targets
    } else {
        Lead::Unit
    };
    let staged = stage_rows(transaction, database, &rows, lead, scope, session);
    let ghost log_staged = session.log();
    let targets = match staged {
        Ok(targets) => targets,
        Err(fault) => {
            proof {
                assert(mutates(
                    before, *transaction, *database, rows@, returning, *scope, start, log_staged,
                    session.log(), Some(fault), Err(fault),
                ));
            }
            return Err(fault);
        },
    };
    if !returning {
        let receipt: (Vec<VId>, Vec<EId>) = (Vec::new(), Vec::new());
        proof {
            lemma_obeys_nothing(log_staged, source());
            lemma_ran_nothing(log_staged);
            lemma_obeys_ask(log_staged, log_staged, Seq::empty(), source());
            assert(mutates(
                before, *transaction, *database, rows@, returning, *scope, start, log_staged,
                session.log(), None, Ok(receipt),
            ));
        }
        return Ok(receipt);
    }
    let paid = pay_targets(&targets.vertices, &targets.edges, session);
    proof {
        lemma_obeys_ask(
            log_staged, session.log(), receipt_asks(returning, rows@), source(),
        );
    }
    if let Err(error) = paid {
        proof {
            assert(mutates(
                before, *transaction, *database, rows@, returning, *scope, start, log_staged,
                session.log(), None, Err(Fault::Source(error)),
            ));
        }
        return Err(Fault::Source(error));
    }
    let receipt = (list_vertices(&targets.vertices), list_edges(&targets.edges));
    proof {
        assert(mutates(
            before, *transaction, *database, rows@, returning, *scope, start, log_staged,
            session.log(), None, Ok(receipt),
        ));
    }
    Ok(receipt)
}

/// Pay one unit for each target.
fn pay_targets<H: Host>(vertices: &IdSet, edges: &IdSet, session: &mut Session<H>) -> (paid: Result<
    (),
    WriteTxnError,
>)
    requires
        vertices.wf(),
        edges.wf(),
    ensures
        final(session).metered() == old(session).metered(),
        followed(
            old(session).log(),
            final(session).log(),
            ticks(Metering::SignedQuery, vertices@.len() + edges@.len()),
        ),
        failure(paid) == refused(old(session).log(), final(session).log()),
{
    let ghost start = session.log();
    proof {
        vertices.lemma_len();
        edges.lemma_len();
        crate::session::lemma_ticks_sum(
            Metering::SignedQuery,
            vertices@.len(),
            edges@.len(),
        );
    }
    let paid = pay_receipt(vertices.len(), session);
    let ghost middle = session.log();
    if let Err(error) = paid {
        proof {
            lemma_followed_extend(
                start,
                middle,
                ticks(Metering::SignedQuery, vertices@.len()),
                ticks(Metering::SignedQuery, edges@.len()),
            );
        }
        return Err(error);
    }
    let paid = pay_receipt(edges.len(), session);
    proof {
        lemma_followed_compose(
            start,
            middle,
            session.log(),
            ticks(Metering::SignedQuery, vertices@.len()),
            ticks(Metering::SignedQuery, edges@.len()),
        );
    }
    paid
}

/// The vertices that the first rows create, in order.
pub open spec fn created_vertices(rows: Seq<(RelationId, PendingRow)>, n: int) -> Seq<VId>
    decreases n,
{
    if n <= 0 {
        Seq::empty()
    } else {
        match rows[n - 1].1 {
            PendingRow::Vertex { vid, .. } => created_vertices(rows, n - 1).push(vid),
            _ => created_vertices(rows, n - 1),
        }
    }
}

/// The edges that the first rows create, in order.
pub open spec fn created_edges(rows: Seq<(RelationId, PendingRow)>, n: int) -> Seq<EId>
    decreases n,
{
    if n <= 0 {
        Seq::empty()
    } else {
        match rows[n - 1].1 {
            PendingRow::Edge { eid, .. } => created_edges(rows, n - 1).push(eid),
            _ => created_edges(rows, n - 1),
        }
    }
}

fn list_created(rows: &Vec<(RelationId, PendingRow)>) -> (created: (Vec<VId>, Vec<EId>))
    ensures
        created.0@ == created_vertices(rows@, rows@.len() as int),
        created.1@ == created_edges(rows@, rows@.len() as int),
{
    let mut vertices: Vec<VId> = Vec::new();
    let mut edges: Vec<EId> = Vec::new();
    let mut i: usize = 0;
    while i < rows.len()
        invariant
            i <= rows.len(),
            vertices@ == created_vertices(rows@, i as int),
            edges@ == created_edges(rows@, i as int),
        decreases rows.len() - i,
    {
        match &rows[i].1 {
            PendingRow::Vertex { vid, .. } => vertices.push(*vid),
            PendingRow::Edge { eid, .. } => edges.push(*eid),
            _ => {},
        }
        i += 1;
    }
    (vertices, edges)
}

/// What a creation owes for a row: a receipt pays one result row for each.
pub open spec fn insert_lead(returning: bool) -> Lead {
    if returning {
        Lead::Row
    } else {
        Lead::Unit
    }
}

/// Stage creations. A receipt lists the identities in the order they were
/// created, vertices and edges apart, each paid for before anything commits.
pub fn apply_insert<H: Host>(
    transaction: &mut WriteTxn,
    database: &Database,
    relation: RelationId,
    intents: Vec<InsertIntent>,
    returning: bool,
    scope: &Predicates,
    session: &mut Session<H>,
) -> (receipt: Result<(Vec<VId>, Vec<EId>), Fault>)
    requires
        old(transaction).wf(),
        database.wf(),
    ensures
        final(transaction).wf(),
        run_frame(*old(transaction), *final(transaction)),
        final(session).metered() == old(session).metered(),
        ({
            let rows = insert_rows(relation, intents@);
            let n = rows.len() as int;
            &&& runs(
                rows,
                lead_plan(insert_lead(returning), rows),
                source(),
                *old(transaction),
                *final(transaction),
                *database,
                *scope,
                old(session).log(),
                final(session).log(),
                failure(receipt),
            )
            &&& receipt matches Ok((vertices, edges)) ==> if returning {
                &&& vertices@ == created_vertices(rows, n)
                &&& edges@ == created_edges(rows, n)
            } else {
                vertices@.len() == 0 && edges@.len() == 0
            }
        }),
{
    let rows = list_insertions(relation, intents);
    let lead = if returning {
        Lead::Row
    } else {
        Lead::Unit
    };
    match stage_rows(transaction, database, &rows, lead, scope, session) {
        Err(fault) => Err(fault),
        Ok(_) => if returning {
            Ok(list_created(&rows))
        } else {
            Ok((Vec::new(), Vec::new()))
        },
    }
}

/// The delivery of one outcome: one signed unit and one signed result row.
pub open spec fn delivery_asks(returning: bool) -> Seq<Request> {
    if returning {
        work_plan(1) + row_charge()
    } else {
        Seq::empty()
    }
}

/// Rows were staged, then one outcome was delivered.
pub open spec fn merges_rows(
    before: WriteTxn,
    after: WriteTxn,
    database: Database,
    rows: Seq<(RelationId, PendingRow)>,
    returning: bool,
    scope: Predicates,
    log: Seq<Event>,
    log_staged: Seq<Event>,
    log_after: Seq<Event>,
    failed: Option<Fault>,
    done: Result<(), Fault>,
) -> bool {
    &&& runs(
        rows,
        lead_plan(Lead::Unit, rows),
        source(),
        before,
        after,
        database,
        scope,
        log,
        log_staged,
        failed,
    )
    &&& match failed {
        Some(fault) => failure(done) == Some(fault) && log_after == log_staged,
        None => obeys(
            log_staged,
            log_after,
            ask(delivery_asks(returning)),
            source(),
            failure(done),
        ),
    }
}

/// Stage the creation of a vertex MERGE, or the actions of its selected branch.
/// A delivered outcome pays one result row, whether it matched or created.
pub fn apply_vertex_merge<H: Host>(
    transaction: &mut WriteTxn,
    database: &Database,
    rows: &Vec<(RelationId, PendingRow)>,
    returning: bool,
    scope: &Predicates,
    session: &mut Session<H>,
) -> (done: Result<(), Fault>)
    requires
        old(transaction).wf(),
        database.wf(),
    ensures
        final(transaction).wf(),
        run_frame(*old(transaction), *final(transaction)),
        final(session).metered() == old(session).metered(),
        exists|log_staged: Seq<Event>, failed: Option<Fault>| #[trigger]
            merges_rows(
                *old(transaction),
                *final(transaction),
                *database,
                rows@,
                returning,
                *scope,
                old(session).log(),
                log_staged,
                final(session).log(),
                failed,
                done,
            ),
{
    let ghost before = *transaction;
    let ghost start = session.log();
    let staged = stage_rows(transaction, database, rows, Lead::Unit, scope, session);
    let ghost log_staged = session.log();
    if let Err(fault) = staged {
        proof {
            assert(merges_rows(
                before, *transaction, *database, rows@, returning, *scope, start, log_staged,
                session.log(), Some(fault), Err(fault),
            ));
        }
        return Err(fault);
    }
    let done = if returning {
        deliver(session)
    } else {
        proof {
            lemma_ran_nothing(log_staged);
        }
        Ok(())
    };
    let done = match done {
        Ok(()) => Ok(()),
        Err(error) => Err(Fault::Source(error)),
    };
    proof {
        lemma_obeys_ask(log_staged, session.log(), delivery_asks(returning), source());
        assert(merges_rows(
            before, *transaction, *database, rows@, returning, *scope, start, log_staged,
            session.log(), None, done,
        ));
    }
    done
}

/// The run of a vertex upsert: its creation, then the actions of one branch.
pub struct UpsertRun {
    pub merged: WriteTxn,
    pub creation: Result<(), Fault>,
    pub creation_failed: Option<Fault>,
    pub actions_failed: Option<Fault>,
    pub acted: Result<(), Fault>,
    pub log_created: Seq<Event>,
    pub log_merged: Seq<Event>,
    pub log_paid: Seq<Event>,
    pub log_acted: Seq<Event>,
}

/// A creation was staged without a delivery. Only then the selected branch pays its
/// controls and answers for its actions, which are staged and delivered.
pub open spec fn upserts_rows(
    before: WriteTxn,
    after: WriteTxn,
    database: Database,
    creation: Seq<(RelationId, PendingRow)>,
    controls: Seq<Control>,
    actions: Result<Vec<(RelationId, PendingRow)>, Fault>,
    returning: bool,
    scope: Predicates,
    log: Seq<Event>,
    log_after: Seq<Event>,
    run: UpsertRun,
    done: Result<(), Fault>,
) -> bool {
    &&& merges_rows(
        before,
        run.merged,
        database,
        creation,
        false,
        scope,
        log,
        run.log_created,
        run.log_merged,
        run.creation_failed,
        run.creation,
    )
    &&& run.creation is Ok ==> followed(run.log_merged, run.log_paid, controls_asks(controls))
    &&& match (run.creation, stopped(refused(run.log_merged, run.log_paid)), actions) {
        (Err(fault), _, _) => {
            &&& failure(done) == Some(fault)
            &&& after == run.merged
            &&& log_after == run.log_merged
        },
        (Ok(()), Some(fault), _) => {
            &&& failure(done) == Some(fault)
            &&& after == run.merged
            &&& log_after == run.log_paid
        },
        (Ok(()), None, Err(fault)) => {
            &&& failure(done) == Some(fault)
            &&& after == run.merged
            &&& log_after == run.log_paid
        },
        (Ok(()), None, Ok(rows)) => {
            &&& merges_rows(
                run.merged,
                after,
                database,
                rows@,
                returning,
                scope,
                run.log_paid,
                run.log_acted,
                log_after,
                run.actions_failed,
                run.acted,
            )
            &&& done == (match run.acted {
                Ok(()) => Ok::<(), Fault>(()),
                Err(fault) => Err(in_staging(fault)),
            })
        },
    }
}

/// Stage the creation of a vertex upsert where nothing matched, then the actions of
/// the selected branch.
pub fn apply_vertex_upsert<H: Host>(
    transaction: &mut WriteTxn,
    database: &Database,
    creation: &Vec<(RelationId, PendingRow)>,
    controls: &Vec<Control>,
    actions: &Result<Vec<(RelationId, PendingRow)>, Fault>,
    returning: bool,
    scope: &Predicates,
    session: &mut Session<H>,
) -> (done: Result<(), Fault>)
    requires
        old(transaction).wf(),
        database.wf(),
    ensures
        final(transaction).wf(),
        run_frame(*old(transaction), *final(transaction)),
        final(session).metered() == old(session).metered(),
        exists|run: UpsertRun| #[trigger]
            upserts_rows(
                *old(transaction),
                *final(transaction),
                *database,
                creation@,
                controls@,
                *actions,
                returning,
                *scope,
                old(session).log(),
                final(session).log(),
                run,
                done,
            ),
{
    let ghost before = *transaction;
    let ghost start = session.log();
    let ghost mut run: UpsertRun = arbitrary();
    let created = apply_vertex_merge(transaction, database, creation, false, scope, session);
    proof {
        let (log_staged, failed) = choose|log_staged: Seq<Event>, failed: Option<Fault>|
            #[trigger] merges_rows(
                before, *transaction, *database, creation@, false, *scope, start, log_staged,
                session.log(), failed, created,
            );
        run = UpsertRun {
            merged: *transaction,
            creation: created,
            creation_failed: failed,
            log_created: log_staged,
            log_merged: session.log(),
            ..run
        };
    }
    if let Err(fault) = created {
        assert(upserts_rows(
            before, *transaction, *database, creation@, controls@, *actions, returning, *scope, start,
            session.log(), run, Err(fault),
        ));
        return Err(fault);
    }
    let paid = pay_controls(controls, session);
    proof {
        run = UpsertRun { log_paid: session.log(), ..run };
    }
    if let Err(fault) = paid {
        assert(upserts_rows(
            before, *transaction, *database, creation@, controls@, *actions, returning, *scope,
            start, session.log(), run, Err(fault),
        ));
        return Err(fault);
    }
    let rows = match actions {
        Ok(rows) => rows,
        Err(fault) => {
            assert(upserts_rows(
                before, *transaction, *database, creation@, controls@, *actions, returning, *scope, start,
                session.log(), run, Err(*fault),
            ));
            return Err(*fault);
        },
    };
    let ghost merged = *transaction;
    let ghost log_paid = session.log();
    let acted = apply_vertex_merge(transaction, database, rows, returning, scope, session);
    let done = match acted {
        Ok(()) => Ok(()),
        Err(Fault::Source(error)) => Err(Fault::Staging(error)),
        Err(fault) => Err(fault),
    };
    proof {
        let (log_staged, failed) = choose|log_staged: Seq<Event>, failed: Option<Fault>|
            #[trigger] merges_rows(
                merged, *transaction, *database, rows@, returning, *scope, log_paid, log_staged,
                session.log(), failed, acted,
            );
        run = UpsertRun { actions_failed: failed, acted, log_acted: log_staged, ..run };
        assert(upserts_rows(
            before, *transaction, *database, creation@, controls@, *actions, returning, *scope, start,
            session.log(), run, done,
        ));
    }
    done
}

/// Pay for the delivery of one outcome.
pub fn deliver<H: Host>(session: &mut Session<H>) -> (paid: Result<(), WriteTxnError>)
    ensures
        final(session).metered() == old(session).metered(),
        followed(old(session).log(), final(session).log(), delivery_asks(true)),
        failure(paid) == refused(old(session).log(), final(session).log()),
{
    let ghost start = session.log();
    if let Err(error) = session.work(1) {
        proof {
            lemma_followed_extend(start, session.log(), work_plan(1), row_charge());
        }
        return Err(error);
    }
    let ghost middle = session.log();
    let charged = session.charge(LimitDimension::Rows, 1);
    proof {
        lemma_followed_compose(start, middle, session.log(), work_plan(1), row_charge());
    }
    charged
}

/// What a relationship MERGE delivers: one result row for an edge.
pub open spec fn edge_delivery(delivered: bool) -> Seq<Request> {
    if delivered {
        row_charge()
    } else {
        Seq::empty()
    }
}

/// Rows were staged, then an edge was delivered.
pub open spec fn merges_edge(
    before: WriteTxn,
    after: WriteTxn,
    database: Database,
    rows: Seq<(RelationId, PendingRow)>,
    delivered: bool,
    scope: Predicates,
    log: Seq<Event>,
    log_staged: Seq<Event>,
    log_after: Seq<Event>,
    failed: Option<Fault>,
    done: Result<(), Fault>,
) -> bool {
    &&& runs(
        rows,
        lead_plan(Lead::Unit, rows),
        source(),
        before,
        after,
        database,
        scope,
        log,
        log_staged,
        failed,
    )
    &&& match failed {
        Some(fault) => failure(done) == Some(fault) && log_after == log_staged,
        None => obeys(
            log_staged,
            log_after,
            ask(edge_delivery(delivered)),
            source(),
            failure(done),
        ),
    }
}

/// Stage the creation of a relationship MERGE and deliver its edge, if it has one.
pub fn apply_edge_merge<H: Host>(
    transaction: &mut WriteTxn,
    database: &Database,
    rows: &Vec<(RelationId, PendingRow)>,
    delivered: bool,
    scope: &Predicates,
    session: &mut Session<H>,
) -> (done: Result<(), Fault>)
    requires
        old(transaction).wf(),
        database.wf(),
    ensures
        final(transaction).wf(),
        run_frame(*old(transaction), *final(transaction)),
        final(session).metered() == old(session).metered(),
        exists|log_staged: Seq<Event>, failed: Option<Fault>| #[trigger]
            merges_edge(
                *old(transaction),
                *final(transaction),
                *database,
                rows@,
                delivered,
                *scope,
                old(session).log(),
                log_staged,
                final(session).log(),
                failed,
                done,
            ),
{
    let ghost before = *transaction;
    let ghost start = session.log();
    let staged = stage_rows(transaction, database, rows, Lead::Unit, scope, session);
    let ghost log_staged = session.log();
    if let Err(fault) = staged {
        proof {
            assert(merges_edge(
                before, *transaction, *database, rows@, delivered, *scope, start, log_staged,
                session.log(), Some(fault), Err(fault),
            ));
        }
        return Err(fault);
    }
    let done = if delivered {
        session.charge(LimitDimension::Rows, 1)
    } else {
        proof {
            lemma_ran_nothing(log_staged);
        }
        Ok(())
    };
    let done = match done {
        Ok(()) => Ok(()),
        Err(error) => Err(Fault::Source(error)),
    };
    proof {
        lemma_obeys_ask(log_staged, session.log(), edge_delivery(delivered), source());
        assert(merges_edge(
            before, *transaction, *database, rows@, delivered, *scope, start, log_staged,
            session.log(), None, done,
        ));
    }
    done
}

} // verus!
