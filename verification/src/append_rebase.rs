//! Re-evaluation of a narrow, decision-free append program on a newer frontier.

use vstd::prelude::*;
use crate::admission::{budget_refusal, current_graph};
use crate::batch::{intents, intents_upto, PendingRow, WriteBatch};
use crate::conflict::{touched_by, validation_touches};
use crate::database::{frontier_of, Database};
use crate::errors::{ConflictDetail, Law, WriteError, WriteTxnError};
use crate::graph::DeltaRow;
use crate::ids::{CommitSeq, EId, ElementId, RelationId, VId};
use crate::idset::{ElementSet, IdSet};
use crate::session::{
    followed, lemma_followed_compose, lemma_followed_extend, lemma_ticked_compose,
    lemma_ticked_nothing, refused, tick_plan, ticked, Event, Host, Metering, Request, Session,
};
use crate::template::{
    lemma_rows_bounds, lemma_rows_prefix, lemma_rows_step, rows_seen, rows_upto, same_template,
    Template,
};
use crate::txn::WriteTxn;

verus! {

/// An unconditional creation.
pub open spec fn plain_create(row: PendingRow) -> bool {
    match row {
        PendingRow::Vertex { ensure, .. } => !ensure,
        PendingRow::Edge { ensure, .. } => !ensure,
        _ => false,
    }
}

/// Only unconditional creations.
pub open spec fn all_plain(rows: Seq<(RelationId, PendingRow)>) -> bool {
    forall|i: int| 0 <= i < rows.len() ==> plain_create((#[trigger] rows[i]).1)
}

/// An intent creates the element.
pub open spec fn intent_creates(row: PendingRow, element: ElementId) -> bool {
    match row {
        PendingRow::Vertex { vid, .. } => element == ElementId::Vertex(vid),
        PendingRow::Edge { eid, .. } => element == ElementId::Edge(eid),
        _ => false,
    }
}

/// An intent attaches an edge to the vertex.
pub open spec fn intent_attaches(row: PendingRow, vid: u128) -> bool {
    match row {
        PendingRow::Edge { src, dst, .. } => src.0 == vid || dst.0 == vid,
        _ => false,
    }
}

pub open spec fn creates(rows: Seq<(RelationId, PendingRow)>, element: ElementId) -> bool {
    exists|i: int| 0 <= i < rows.len() && intent_creates((#[trigger] rows[i]).1, element)
}

pub open spec fn attaches(rows: Seq<(RelationId, PendingRow)>, vid: u128) -> bool {
    exists|i: int| 0 <= i < rows.len() && intent_attaches((#[trigger] rows[i]).1, vid)
}

/// The refusal of an append that crossed an identity write or an endpoint
/// retirement.
pub open spec fn crossed() -> WriteTxnError {
    WriteTxnError::Write(
        WriteError::FirstCommitterWins { law: Law::Write, detail: ConflictDetail::AppendRebase },
    )
}

/// Why a committed row may not lie between an append and its new basis. Schema
/// and other families need an independence law of their own.
pub open spec fn crossing_refusal(
    rows: Seq<(RelationId, PendingRow)>,
    row: DeltaRow,
) -> Option<WriteTxnError> {
    if row is Schema {
        Some(WriteTxnError::AppendRebaseIneligible)
    } else if (exists|element: ElementId| touched_by(row, element) && creates(rows, element)) || (
    row matches DeltaRow::DeleteVertex { vid, .. } && attaches(rows, vid.0)) {
        Some(crossed())
    } else {
        None
    }
}

/// The first refusal among committed rows.
pub open spec fn first_crossing(
    rows: Seq<(RelationId, PendingRow)>,
    history: Seq<DeltaRow>,
) -> Option<WriteTxnError>
    decreases history.len(),
{
    if history.len() == 0 {
        None
    } else {
        match first_crossing(rows, history.drop_last()) {
            Some(error) => Some(error),
            None => crossing_refusal(rows, history.last()),
        }
    }
}

/// The committed rows from position `start` of the log up to position `end`.
pub open spec fn committed_rows(database: Database, start: int, end: int) -> Seq<DeltaRow>
    decreases end - start,
{
    if end <= start {
        Seq::empty()
    } else {
        committed_rows(database, start, end - 1) + database.log@[end - 1].template.rows()
    }
}

/// The refusals that need no walk: health, a prepared write of this owner and
/// basis, and no observation, savepoint or mixed program.
pub open spec fn rebase_gate(txn: WriteTxn, database: Database) -> Option<WriteTxnError> {
    match frontier_of(database.state) {
        Err(error) => Some(error),
        Ok(_) => match txn.prepared {
            None => Some(WriteTxnError::NoPreparedWrite),
            Some(previous) => if txn.owner != previous.owner {
                Some(WriteTxnError::WrongDatabase)
            } else if previous.basis != txn.basis {
                Some(
                    WriteTxnError::SnapshotAdvanced { pinned: txn.basis, live: previous.basis },
                )
            } else if txn.observed() || txn.savepoints@.len() > 0 || txn.program_multi_relation {
                Some(WriteTxnError::AppendRebaseIneligible)
            } else {
                None
            },
        },
    }
}

/// The refusal of a rebase before it asks the evaluator.
pub open spec fn rebase_refusal(
    txn: WriteTxn,
    database: Database,
    max_expanded_rows: u64,
) -> Option<WriteTxnError> {
    let rows = intents(txn.staged@);
    match rebase_gate(txn, database) {
        Some(error) => Some(error),
        None => if !all_plain(rows) {
            Some(WriteTxnError::AppendRebaseIneligible)
        } else {
            match budget_refusal(current_graph(database), rows, max_expanded_rows) {
                Some(error) => Some(error),
                None => match database.history_refusal(txn.basis) {
                    Some(error) => Some(error),
                    None => first_crossing(
                        rows,
                        committed_rows(
                            database,
                            txn.basis.0 - database.base_seq.0,
                            database.log@.len() as int,
                        ),
                    ),
                },
            }
        },
    }
}

/// A rebase leaves everything but the prepared write and the basis alone.
pub open spec fn rebase_frame(before: WriteTxn, after: WriteTxn) -> bool {
    after == (WriteTxn { prepared: after.prepared, basis: after.basis, ..before })
}

/// What a rebase does, whatever the host answers.
pub open spec fn rebases(
    before: WriteTxn,
    after: WriteTxn,
    database: Database,
    max_expanded_rows: u64,
    metered: Metering,
    log: Seq<Event>,
    log_after: Seq<Event>,
    done: Result<(), WriteTxnError>,
) -> bool {
    match refused(log, log_after) {
        Some(error) => {
            &&& done == Err::<(), WriteTxnError>(error)
            &&& after == before
            &&& ticked(log, log_after, metered) || asked_evaluator(
                database,
                before.staged@,
                metered,
                log,
                log_after,
            )
        },
        None => match rebase_refusal(before, database, max_expanded_rows) {
            Some(error) => {
                &&& done == Err::<(), WriteTxnError>(error)
                &&& after == before
                &&& ticked(log, log_after, metered)
            },
            None => if frontier_of(database.state) == Ok::<CommitSeq, WriteTxnError>(before.basis) {
                &&& done is Ok
                &&& after == before
                &&& ticked(log, log_after, metered)
            } else {
                &&& asked_evaluator(database, before.staged@, metered, log, log_after)
                &&& ({
                    let fresh = log_after[log_after.len() - 1
                        - tick_plan(metered).len()].prepared->0;
                    if same_template(fresh.template, before.prepared->0.template) {
                        &&& done is Ok
                        &&& rebase_frame(before, after)
                        &&& after.prepared == Some(fresh)
                        &&& frontier_of(database.state) == Ok::<CommitSeq, WriteTxnError>(
                            after.basis,
                        )
                    } else {
                        &&& done == Err::<(), WriteTxnError>(WriteTxnError::AppendRebaseIneligible)
                        &&& after == before
                    }
                })
            },
        },
    }
}

/// Checkpoints, then one evaluation of the complete program, then a checkpoint.
pub open spec fn asked_evaluator(
    database: Database,
    staged: Seq<WriteBatch>,
    metered: Metering,
    log: Seq<Event>,
    log_after: Seq<Event>,
) -> bool {
    exists|middle: Seq<Event>|
        {
            &&& #[trigger] ticked(log, middle, metered)
            &&& refused(log, middle) is None
            &&& followed(middle, log_after, seq![Request::Prepare { database, staged }] + tick_plan(metered))
        }
}

proof fn lemma_creates_push(
    rows: Seq<(RelationId, PendingRow)>,
    row: (RelationId, PendingRow),
)
    ensures
        forall|element: ElementId| #[trigger]
            creates(rows.push(row), element) == (creates(rows, element) || intent_creates(
                row.1,
                element,
            )),
        forall|vid: u128| #[trigger]
            attaches(rows.push(row), vid) == (attaches(rows, vid) || intent_attaches(row.1, vid)),
        all_plain(rows.push(row)) == (all_plain(rows) && plain_create(row.1)),
{
    let all = rows.push(row);
    assert(all[rows.len() as int] == row);
    assert forall|element: ElementId| #[trigger]
        creates(all, element) == (creates(rows, element) || intent_creates(row.1, element)) by {
        if creates(rows, element) {
            let i = choose|i: int|
                0 <= i < rows.len() && intent_creates((#[trigger] rows[i]).1, element);
            assert(intent_creates(all[i].1, element));
        }
        if intent_creates(row.1, element) {
            assert(intent_creates(all[rows.len() as int].1, element));
        }
        if creates(all, element) {
            let i = choose|i: int|
                0 <= i < all.len() && intent_creates((#[trigger] all[i]).1, element);
            if i < rows.len() {
                assert(intent_creates(rows[i].1, element));
            }
        }
    }
    assert forall|vid: u128| #[trigger]
        attaches(all, vid) == (attaches(rows, vid) || intent_attaches(row.1, vid)) by {
        if attaches(rows, vid) {
            let i = choose|i: int|
                0 <= i < rows.len() && intent_attaches((#[trigger] rows[i]).1, vid);
            assert(intent_attaches(all[i].1, vid));
        }
        if intent_attaches(row.1, vid) {
            assert(intent_attaches(all[rows.len() as int].1, vid));
        }
        if attaches(all, vid) {
            let i = choose|i: int|
                0 <= i < all.len() && intent_attaches((#[trigger] all[i]).1, vid);
            if i < rows.len() {
                assert(intent_attaches(rows[i].1, vid));
            }
        }
    }
    if all_plain(all) {
        assert forall|i: int| 0 <= i < rows.len() implies plain_create((#[trigger] rows[i]).1) by {
            assert(plain_create(all[i].1));
        }
        assert(plain_create(all[rows.len() as int].1));
    }
}

/// A prefix with a refused intent refuses the whole.
proof fn lemma_plain_prefix(batches: Seq<WriteBatch>, n: int, m: int)
    requires
        0 <= n <= m <= batches.len(),
        !all_plain(intents_upto(batches, n)),
    ensures
        !all_plain(intents_upto(batches, m)),
    decreases m - n,
{
    if n < m {
        lemma_plain_prefix(batches, n, m - 1);
        let short = intents_upto(batches, m - 1);
        let long = intents_upto(batches, m);
        let i = choose|i: int| 0 <= i < short.len() && !plain_create((#[trigger] short[i]).1);
        assert(long[i] == short[i]);
    }
}

proof fn lemma_crossing_prefix(
    rows: Seq<(RelationId, PendingRow)>,
    history: Seq<DeltaRow>,
    n: int,
)
    requires
        0 <= n <= history.len(),
        first_crossing(rows, history.take(n)) is Some,
    ensures
        first_crossing(rows, history) == first_crossing(rows, history.take(n)),
    decreases history.len() - n,
{
    if n < history.len() {
        assert(history.take(n + 1).drop_last() =~= history.take(n));
        lemma_crossing_prefix(rows, history, n + 1);
    } else {
        assert(history.take(n) =~= history);
    }
}

proof fn lemma_committed_prefix(database: Database, start: int, n: int, m: int)
    requires
        0 <= start <= n <= m <= database.log@.len(),
    ensures
        committed_rows(database, start, n).len() <= committed_rows(database, start, m).len(),
        committed_rows(database, start, m).take(
            committed_rows(database, start, n).len() as int,
        ) == committed_rows(database, start, n),
    decreases m - n,
{
    if n < m {
        lemma_committed_prefix(database, start, n, m - 1);
        let len = committed_rows(database, start, n).len() as int;
        assert(committed_rows(database, start, m).take(len) =~= committed_rows(
            database,
            start,
            m - 1,
        ).take(len));
    } else {
        assert(committed_rows(database, start, m).take(
            committed_rows(database, start, m).len() as int,
        ) =~= committed_rows(database, start, n));
    }
}

impl WriteTxn {
    /// Whether every staged intent is an unconditional creation. Normalization
    /// must not turn an ensure or a compare-and-set into an eligible append.
    fn staged_plain<H: Host>(&self, session: &mut Session<H>) -> (plain: Result<bool, WriteTxnError>)
        ensures
            final(session).metered() == old(session).metered(),
            ticked(old(session).log(), final(session).log(), old(session).metered()),
            match plain {
                Ok(all) => refused(old(session).log(), final(session).log()) is None && all
                    == all_plain(intents(self.staged@)),
                Err(error) => refused(old(session).log(), final(session).log()) == Some(error),
            },
    {
        let ghost start = session.log();
        let ghost metered = session.metered();
        proof {
            lemma_ticked_nothing(start, metered);
        }
        let mut b: usize = 0;
        while b < self.staged.len()
            invariant
                b <= self.staged.len(),
                start == old(session).log(),
                metered == old(session).metered(),
                session.metered() == metered,
                ticked(start, session.log(), metered),
                refused(start, session.log()) is None,
                all_plain(intents_upto(self.staged@, b as int)),
            decreases self.staged.len() - b,
        {
            let ghost middle = session.log();
            let step = session.checkpoint();
            proof {
                lemma_ticked_compose(start, middle, session.log(), metered);
            }
            if let Err(error) = step {
                return Err(error);
            }
            let batch = &self.staged[b];
            let ghost seen = intents_upto(self.staged@, b as int);
            let ghost own = batch.rows@.map_values(|row: PendingRow| (batch.relation, row));
            let mut r: usize = 0;
            proof {
                assert(seen + own.take(0) =~= seen);
                assert(seen + own =~= intents_upto(self.staged@, b + 1));
            }
            while r < batch.rows.len()
                invariant
                    b < self.staged.len(),
                    *batch == self.staged@[b as int],
                    r <= batch.rows.len(),
                    start == old(session).log(),
                    metered == old(session).metered(),
                    session.metered() == metered,
                    ticked(start, session.log(), metered),
                    refused(start, session.log()) is None,
                    own == batch.rows@.map_values(|row: PendingRow| (batch.relation, row)),
                    seen + own == intents_upto(self.staged@, b + 1),
                    all_plain(seen + own.take(r as int)),
                decreases batch.rows.len() - r,
            {
                let ghost middle = session.log();
                let step = session.checkpoint();
                proof {
                    lemma_ticked_compose(start, middle, session.log(), metered);
                }
                if let Err(error) = step {
                    return Err(error);
                }
                let ghost row = (batch.relation, batch.rows@[r as int]);
                proof {
                    assert(seen + own.take(r + 1) =~= (seen + own.take(r as int)).push(row));
                    lemma_creates_push(seen + own.take(r as int), row);
                }
                let plain = match &batch.rows[r] {
                    PendingRow::Vertex { ensure, .. } => !*ensure,
                    PendingRow::Edge { ensure, .. } => !*ensure,
                    _ => false,
                };
                if !plain {
                    proof {
                        let whole = seen + own;
                        assert(whole[seen.len() + r] == row);
                        assert(!all_plain(whole));
                        lemma_plain_prefix(self.staged@, b + 1, self.staged@.len() as int);
                    }
                    return Ok(false);
                }
                r += 1;
            }
            proof {
                assert(own.take(r as int) =~= own);
            }
            b += 1;
        }
        Ok(true)
    }

    /// The identities that the staged intents create, and the vertices that they
    /// attach edges to.
    fn staged_creations<H: Host>(&self, session: &mut Session<H>) -> (found: Result<
        (ElementSet, IdSet),
        WriteTxnError,
    >)
        ensures
            final(session).metered() == old(session).metered(),
            ticked(old(session).log(), final(session).log(), old(session).metered()),
            match found {
                Ok((created, attached)) => {
                    &&& refused(old(session).log(), final(session).log()) is None
                    &&& created.wf()
                    &&& attached.wf()
                    &&& forall|element: ElementId| #[trigger]
                        created@.contains(element) == creates(intents(self.staged@), element)
                    &&& forall|vid: u128| #[trigger]
                        attached@.contains(vid) == attaches(intents(self.staged@), vid)
                },
                Err(error) => refused(old(session).log(), final(session).log()) == Some(error),
            },
    {
        let ghost start = session.log();
        let ghost metered = session.metered();
        proof {
            lemma_ticked_nothing(start, metered);
        }
        let mut created = ElementSet::new();
        let mut attached = IdSet::new();
        let mut b: usize = 0;
        while b < self.staged.len()
            invariant
                b <= self.staged.len(),
                start == old(session).log(),
                metered == old(session).metered(),
                session.metered() == metered,
                ticked(start, session.log(), metered),
                refused(start, session.log()) is None,
                created.wf(),
                attached.wf(),
                forall|element: ElementId| #[trigger]
                    created@.contains(element) == creates(
                        intents_upto(self.staged@, b as int),
                        element,
                    ),
                forall|vid: u128| #[trigger]
                    attached@.contains(vid) == attaches(intents_upto(self.staged@, b as int), vid),
            decreases self.staged.len() - b,
        {
            let batch = &self.staged[b];
            let ghost seen = intents_upto(self.staged@, b as int);
            let ghost own = batch.rows@.map_values(|row: PendingRow| (batch.relation, row));
            let mut r: usize = 0;
            proof {
                assert(seen + own.take(0) =~= seen);
            }
            while r < batch.rows.len()
                invariant
                    b < self.staged.len(),
                    *batch == self.staged@[b as int],
                    r <= batch.rows.len(),
                    start == old(session).log(),
                    metered == old(session).metered(),
                    session.metered() == metered,
                    ticked(start, session.log(), metered),
                    refused(start, session.log()) is None,
                    own == batch.rows@.map_values(|row: PendingRow| (batch.relation, row)),
                    created.wf(),
                    attached.wf(),
                    forall|element: ElementId| #[trigger]
                        created@.contains(element) == creates(seen + own.take(r as int), element),
                    forall|vid: u128| #[trigger]
                        attached@.contains(vid) == attaches(seen + own.take(r as int), vid),
                decreases batch.rows.len() - r,
            {
                let ghost middle = session.log();
                let step = session.checkpoint();
                proof {
                    lemma_ticked_compose(start, middle, session.log(), metered);
                }
                if let Err(error) = step {
                    return Err(error);
                }
                let ghost rows = seen + own.take(r as int);
                let ghost row = (batch.relation, batch.rows@[r as int]);
                let ghost created_before = created@;
                let ghost attached_before = attached@;
                proof {
                    assert(seen + own.take(r + 1) =~= rows.push(row));
                    lemma_creates_push(rows, row);
                }
                match &batch.rows[r] {
                    PendingRow::Vertex { vid, .. } => {
                        created.insert(ElementId::Vertex(*vid));
                    },
                    PendingRow::Edge { eid, src, dst, .. } => {
                        created.insert(ElementId::Edge(*eid));
                        attached.insert(src.0);
                        attached.insert(dst.0);
                    },
                    _ => {},
                }
                proof {
                    assert forall|element: ElementId| #[trigger]
                        created@.contains(element) == creates(rows.push(row), element) by {
                        assert(created_before.contains(element) == creates(rows, element));
                    }
                    assert forall|vid: u128| #[trigger]
                        attached@.contains(vid) == attaches(rows.push(row), vid) by {
                        assert(attached_before.contains(vid) == attaches(rows, vid));
                    }
                }
                r += 1;
            }
            proof {
                assert(own.take(r as int) =~= own);
                assert(seen + own =~= intents_upto(self.staged@, b + 1));
            }
            b += 1;
        }
        Ok((created, attached))
    }
}

/// Check one committed row against a proposed append.
fn check_crossing<H: Host>(
    row: &DeltaRow,
    created: &ElementSet,
    attached: &IdSet,
    session: &mut Session<H>,
    Ghost(rows): Ghost<Seq<(RelationId, PendingRow)>>,
) -> (crossing: Result<Option<WriteTxnError>, WriteTxnError>)
    requires
        created.wf(),
        attached.wf(),
        forall|element: ElementId| #[trigger]
            created@.contains(element) == creates(rows, element),
        forall|vid: u128| #[trigger] attached@.contains(vid) == attaches(rows, vid),
    ensures
        final(session).metered() == old(session).metered(),
        ticked(old(session).log(), final(session).log(), old(session).metered()),
        match crossing {
            Ok(refusal) => refused(old(session).log(), final(session).log()) is None && refusal
                == crossing_refusal(rows, *row),
            Err(error) => refused(old(session).log(), final(session).log()) == Some(error),
        },
{
    let ghost start = session.log();
    let ghost metered = session.metered();
    proof {
        lemma_ticked_nothing(start, metered);
    }
    if let DeltaRow::Schema { .. } = row {
        return Ok(Some(WriteTxnError::AppendRebaseIneligible));
    }
    let mut touches = ElementSet::new();
    if let Err(error) = validation_touches(row, &mut touches, session) {
        return Err(error);
    }
    let mut collision = false;
    let mut i: usize = 0;
    while i < touches.vertices.len()
        invariant
            i <= touches.vertices.seq().len(),
            touches.wf(),
            created.wf(),
            start == old(session).log(),
            metered == old(session).metered(),
            session.metered() == metered,
            ticked(start, session.log(), metered),
            refused(start, session.log()) is None,
            collision == exists|k: int|
                0 <= k < i && created@.contains(
                    ElementId::Vertex(VId(#[trigger] touches.vertices.seq()[k])),
                ),
        decreases touches.vertices.seq().len() - i,
    {
        let ghost middle = session.log();
        let step = session.checkpoint();
        proof {
            lemma_ticked_compose(start, middle, session.log(), metered);
        }
        if let Err(error) = step {
            return Err(error);
        }
        if created.contains(ElementId::Vertex(VId(touches.vertices.at(i)))) {
            assert(created@.contains(ElementId::Vertex(VId(touches.vertices.seq()[i as int]))));
            collision = true;
        }
        i += 1;
    }
    let vertex_collision = collision;
    let mut j: usize = 0;
    while j < touches.edges.len()
        invariant
            j <= touches.edges.seq().len(),
            touches.wf(),
            created.wf(),
            start == old(session).log(),
            metered == old(session).metered(),
            session.metered() == metered,
            ticked(start, session.log(), metered),
            refused(start, session.log()) is None,
            collision == (vertex_collision || exists|k: int|
                0 <= k < j && created@.contains(
                    ElementId::Edge(EId(#[trigger] touches.edges.seq()[k])),
                )),
        decreases touches.edges.seq().len() - j,
    {
        let ghost middle = session.log();
        let step = session.checkpoint();
        proof {
            lemma_ticked_compose(start, middle, session.log(), metered);
        }
        if let Err(error) = step {
            return Err(error);
        }
        if created.contains(ElementId::Edge(EId(touches.edges.at(j)))) {
            assert(created@.contains(ElementId::Edge(EId(touches.edges.seq()[j as int]))));
            collision = true;
        }
        j += 1;
    }
    let retired_endpoint = match row {
        DeltaRow::DeleteVertex { vid, .. } => attached.contains(vid.0),
        _ => false,
    };
    proof {
        let meets = exists|element: ElementId| touched_by(*row, element) && creates(rows, element);
        if collision {
            if vertex_collision {
                let k = choose|k: int|
                    0 <= k < touches.vertices.seq().len() && created@.contains(
                        ElementId::Vertex(VId(#[trigger] touches.vertices.seq()[k])),
                    );
                let element = ElementId::Vertex(VId(touches.vertices.seq()[k]));
                assert(touches@.contains(element));
                assert(touched_by(*row, element) && creates(rows, element));
            } else {
                let k = choose|k: int|
                    0 <= k < touches.edges.seq().len() && created@.contains(
                        ElementId::Edge(EId(#[trigger] touches.edges.seq()[k])),
                    );
                let element = ElementId::Edge(EId(touches.edges.seq()[k]));
                assert(touches@.contains(element));
                assert(touched_by(*row, element) && creates(rows, element));
            }
        }
        if meets {
            let element = choose|element: ElementId|
                touched_by(*row, element) && creates(rows, element);
            assert(touches@.contains(element));
            assert(created@.contains(element));
            match element {
                ElementId::Vertex(vid) => {
                    let k = touches.vertices.seq().index_of(vid.0);
                    assert(touches.vertices.seq()[k] == vid.0);
                },
                ElementId::Edge(eid) => {
                    let k = touches.edges.seq().index_of(eid.0);
                    assert(touches.edges.seq()[k] == eid.0);
                },
            }
        }
    }
    if collision || retired_endpoint {
        Ok(
            Some(
                WriteTxnError::Write(
                    WriteError::FirstCommitterWins {
                        law: Law::Write,
                        detail: ConflictDetail::AppendRebase,
                    },
                ),
            ),
        )
    } else {
        Ok(None)
    }
}

/// Check the rows of one commit against a proposed append.
fn check_template<H: Host>(
    template: &Template,
    created: &ElementSet,
    attached: &IdSet,
    session: &mut Session<H>,
    Ghost(rows): Ghost<Seq<(RelationId, PendingRow)>>,
) -> (crossing: Result<Option<WriteTxnError>, WriteTxnError>)
    requires
        created.wf(),
        attached.wf(),
        forall|element: ElementId| #[trigger]
            created@.contains(element) == creates(rows, element),
        forall|vid: u128| #[trigger] attached@.contains(vid) == attaches(rows, vid),
    ensures
        final(session).metered() == old(session).metered(),
        ticked(old(session).log(), final(session).log(), old(session).metered()),
        match crossing {
            Ok(refusal) => refused(old(session).log(), final(session).log()) is None && refusal
                == first_crossing(rows, template.rows()),
            Err(error) => refused(old(session).log(), final(session).log()) == Some(error),
        },
{
    let ghost start = session.log();
    let ghost metered = session.metered();
    proof {
        lemma_ticked_nothing(start, metered);
    }
    let mut c: usize = 0;
    while c < template.coordinates.len()
        invariant
            c <= template.coordinates.len(),
            created.wf(),
            attached.wf(),
            forall|element: ElementId| #[trigger]
                created@.contains(element) == creates(rows, element),
            forall|vid: u128| #[trigger] attached@.contains(vid) == attaches(rows, vid),
            start == old(session).log(),
            metered == old(session).metered(),
            session.metered() == metered,
            ticked(start, session.log(), metered),
            refused(start, session.log()) is None,
            first_crossing(rows, rows_upto(template.coordinates@, c as int)) is None,
        decreases template.coordinates.len() - c,
    {
        let ghost middle = session.log();
        let step = session.checkpoint();
        proof {
            lemma_ticked_compose(start, middle, session.log(), metered);
        }
        if let Err(error) = step {
            return Err(error);
        }
        let coordinate = &template.coordinates[c];
        let mut r: usize = 0;
        proof {
            lemma_rows_bounds(template.coordinates@, c as int);
        }
        while r < coordinate.rows.len()
            invariant
                c < template.coordinates.len(),
                *coordinate == template.coordinates@[c as int],
                r <= coordinate.rows.len(),
                created.wf(),
                attached.wf(),
                forall|element: ElementId| #[trigger]
                    created@.contains(element) == creates(rows, element),
                forall|vid: u128| #[trigger] attached@.contains(vid) == attaches(rows, vid),
                start == old(session).log(),
                metered == old(session).metered(),
                session.metered() == metered,
                ticked(start, session.log(), metered),
                refused(start, session.log()) is None,
                first_crossing(
                    rows,
                    rows_seen(template.coordinates@, c as int, r as int),
                ) is None,
            decreases coordinate.rows.len() - r,
        {
            let ghost middle = session.log();
            let step = session.checkpoint();
            proof {
                lemma_ticked_compose(start, middle, session.log(), metered);
            }
            if let Err(error) = step {
                return Err(error);
            }
            let row = &coordinate.rows[r];
            let ghost middle = session.log();
            let crossing = check_crossing(row, created, attached, session, Ghost(rows));
            proof {
                lemma_ticked_compose(start, middle, session.log(), metered);
                lemma_rows_step(template.coordinates@, c as int, r as int);
                let seen = rows_seen(template.coordinates@, c as int, r as int);
                assert(seen.push(*row).drop_last() =~= seen);
            }
            match crossing {
                Ok(Some(refusal)) => {
                    proof {
                        let coordinates = template.coordinates@;
                        let longer = rows_seen(coordinates, c as int, r + 1);
                        let whole = rows_upto(coordinates, c + 1);
                        assert(whole.take(longer.len() as int) =~= longer) by {
                            assert(whole =~= rows_upto(coordinates, c as int)
                                + coordinates[c as int].rows@);
                        }
                        lemma_crossing_prefix(rows, whole, longer.len() as int);
                        lemma_rows_prefix(coordinates, c + 1, coordinates.len() as int);
                        lemma_crossing_prefix(rows, template.rows(), whole.len() as int);
                    }
                    return Ok(Some(refusal));
                },
                Ok(None) => {},
                Err(error) => return Err(error),
            }
            r += 1;
        }
        proof {
            lemma_rows_bounds(template.coordinates@, c as int);
        }
        c += 1;
    }
    Ok(None)
}

proof fn lemma_crossing_join(
    rows: Seq<(RelationId, PendingRow)>,
    head: Seq<DeltaRow>,
    tail: Seq<DeltaRow>,
)
    requires
        first_crossing(rows, head) is None,
    ensures
        first_crossing(rows, head + tail) == first_crossing(rows, tail),
    decreases tail.len(),
{
    if tail.len() == 0 {
        assert(head + tail =~= head);
    } else {
        lemma_crossing_join(rows, head, tail.drop_last());
        assert((head + tail).drop_last() =~= head + tail.drop_last());
    }
}

impl WriteTxn {
    /// Move an append to the current frontier, or refuse.
    ///
    /// Only unconditional creations without recorded observations are eligible.
    /// The complete history since the basis must be independent of them, and
    /// re-evaluation must reproduce the exact canonical template.
    pub fn prepare_append_rebase<H: Host>(
        &mut self,
        database: &Database,
        max_expanded_rows: u64,
        session: &mut Session<H>,
    ) -> (done: Result<(), WriteTxnError>)
        requires
            old(self).wf(),
            database.wf(),
        ensures
            final(self).wf(),
            final(session).metered() == old(session).metered(),
            rebases(
                *old(self),
                *final(self),
                *database,
                max_expanded_rows,
                old(session).metered(),
                old(session).log(),
                final(session).log(),
                done,
            ),
    {
        let ghost start = session.log();
        let ghost metered = session.metered();
        let ghost rows = intents(self.staged@);
        proof {
            lemma_ticked_nothing(start, metered);
        }
        let frontier = match database.frontier() {
            Ok(frontier) => frontier,
            Err(error) => return Err(error),
        };
        let previous = match &self.prepared {
            Some(previous) => previous,
            None => return Err(WriteTxnError::NoPreparedWrite),
        };
        if self.owner != previous.owner {
            return Err(WriteTxnError::WrongDatabase);
        }
        if previous.basis != self.basis {
            return Err(
                WriteTxnError::SnapshotAdvanced { pinned: self.basis, live: previous.basis },
            );
        }
        if !self.read_set.is_empty() || !self.match_expansions.is_empty()
            || !self.scanned_vertex_labels.is_empty() || self.scanned_vertices
            || self.scanned_edges || self.savepoints.len() > 0 || self.program_multi_relation {
            return Err(WriteTxnError::AppendRebaseIneligible);
        }
        match self.staged_plain(session) {
            Ok(true) => {},
            Ok(false) => return Err(WriteTxnError::AppendRebaseIneligible),
            Err(error) => return Err(error),
        }
        let nothing: Vec<WriteBatch> = Vec::new();
        proof {
            assert(intents(nothing@) =~= Seq::<(RelationId, PendingRow)>::empty());
            assert(rows + intents(nothing@) =~= rows);
        }
        if let Err(error) = database.admit_ordered_write_rows(
            &self.staged,
            &nothing,
            max_expanded_rows,
        ) {
            return Err(error);
        }
        let ghost middle = session.log();
        let found = self.staged_creations(session);
        proof {
            lemma_ticked_compose(start, middle, session.log(), metered);
        }
        let (created, attached) = match found {
            Ok(found) => found,
            Err(error) => return Err(error),
        };
        // A current-state lookup alone misses create/delete identity races and
        // retired endpoints. Admission needs the complete original-basis tail.
        let first: usize = match database.delta_since(self.basis) {
            Ok(first) => first,
            Err(error) => return Err(error),
        };
        let mut i: usize = first;
        while i < database.log.len()
            invariant
                database.wf(),
                created.wf(),
                attached.wf(),
                rows == intents(self.staged@),
                *self == *old(self),
                forall|element: ElementId| #[trigger]
                    created@.contains(element) == creates(rows, element),
                forall|vid: u128| #[trigger] attached@.contains(vid) == attaches(rows, vid),
                start == old(session).log(),
                metered == old(session).metered(),
                session.metered() == metered,
                ticked(start, session.log(), metered),
                refused(start, session.log()) is None,
                first == self.basis.0 - database.base_seq.0,
                first <= i <= database.log.len(),
                first_crossing(rows, committed_rows(*database, first as int, i as int)) is None,
                self.wf(),
                rebase_gate(*self, *database) is None,
                all_plain(rows),
                budget_refusal(current_graph(*database), rows, max_expanded_rows) is None,
                database.history_refusal(self.basis) is None,
            decreases database.log.len() - i,
        {
            let ghost middle = session.log();
            let step = session.checkpoint();
            proof {
                lemma_ticked_compose(start, middle, session.log(), metered);
            }
            if let Err(error) = step {
                return Err(error);
            }
            let ghost middle = session.log();
            let crossing = check_template(
                &database.log[i].template,
                &created,
                &attached,
                session,
                Ghost(rows),
            );
            proof {
                lemma_ticked_compose(start, middle, session.log(), metered);
                lemma_crossing_join(
                    rows,
                    committed_rows(*database, first as int, i as int),
                    database.log@[i as int].template.rows(),
                );
            }
            match crossing {
                Ok(Some(refusal)) => {
                    proof {
                        let len = database.log@.len() as int;
                        let short = committed_rows(*database, first as int, i + 1);
                        lemma_committed_prefix(*database, first as int, i + 1, len);
                        lemma_crossing_prefix(
                            rows,
                            committed_rows(*database, first as int, len),
                            short.len() as int,
                        );
                    }
                    return Err(refusal);
                },
                Ok(None) => {},
                Err(error) => return Err(error),
            }
            i += 1;
        }
        let ghost middle = session.log();
        let step = session.checkpoint();
        proof {
            lemma_ticked_compose(start, middle, session.log(), metered);
        }
        if let Err(error) = step {
            return Err(error);
        }
        if frontier == self.basis {
            return Ok(());
        }
        let ghost middle = session.log();
        let ghost ask = seq![Request::Prepare { database: *database, staged: self.staged@ }];
        let fresh = match session.prepare(database, &self.staged, false) {
            Ok(fresh) => fresh,
            Err(error) => {
                proof {
                    lemma_followed_extend(middle, session.log(), ask, tick_plan(metered));
                    lemma_evaluator_asked(*database, self.staged@, metered, start, middle, session.log());
                }
                return Err(error);
            },
        };
        let ghost after_ask = session.log();
        let step = session.checkpoint();
        proof {
            lemma_followed_compose(
                middle,
                after_ask,
                session.log(),
                ask,
                tick_plan(metered),
            );
            lemma_evaluator_asked(*database, self.staged@, metered, start, middle, session.log());
        }
        if let Err(error) = step {
            return Err(error);
        }
        proof {
            let now = session.log();
            assert(now.take(after_ask.len() as int) =~= after_ask);
            assert(now[after_ask.len() - 1] == after_ask.last());
            assert(now.len() - tick_plan(metered).len() == after_ask.len());
        }
        let previous = match &self.prepared {
            Some(previous) => previous,
            None => return Err(WriteTxnError::NoPreparedWrite),
        };
        if !fresh.template.matches_template(&previous.template) {
            return Err(WriteTxnError::AppendRebaseIneligible);
        }
        self.prepared = Some(fresh);
        self.basis = frontier;
        Ok(())
    }
}

proof fn lemma_evaluator_asked(
    database: Database,
    staged: Seq<WriteBatch>,
    metered: Metering,
    start: Seq<Event>,
    middle: Seq<Event>,
    last: Seq<Event>,
)
    requires
        ticked(start, middle, metered),
        refused(start, middle) is None,
        followed(middle, last, seq![Request::Prepare { database, staged }] + tick_plan(metered)),
        last.len() > middle.len(),
    ensures
        asked_evaluator(database, staged, metered, start, last),
        refused(start, last) == refused(middle, last),
{
    lemma_ticked_compose_any(start, middle, metered);
}

proof fn lemma_ticked_compose_any(start: Seq<Event>, middle: Seq<Event>, metered: Metering)
    requires
        ticked(start, middle, metered),
    ensures
        start.len() <= middle.len(),
{
    let n = choose|n: nat|
        followed(start, middle, #[trigger] crate::session::ticks(metered, n));
}

} // verus!
