//! Ordered staging within a limit on relation-expanded evaluator input.

use vstd::prelude::*;
use crate::batch::{intents, intents_upto, PendingRow, WriteBatch};
use crate::conflict::intended;
use crate::database::{frontier_of, Database};
use crate::errors::{WriteError, WriteTxnError};
use crate::freshness::fresh_on;
use crate::graph::EdgeView;
use crate::ids::{EId, ElementId, RelationId};
use crate::idset::{ElementSet, IdSet};
use crate::session::{evaluations, followed, lemma_ran_nothing, refused, Host, Request, Session};
use crate::txn::{ownership_refusal, same_workspace, WriteTxn};

verus! {

/// Intents on vertices are evaluated once per relation slice.
pub open spec fn is_vertex_intent(row: PendingRow) -> bool {
    match row {
        PendingRow::Vertex { .. } => true,
        PendingRow::DeleteVertex { .. } => true,
        PendingRow::SetLabel { .. } => true,
        PendingRow::SetProperty { .. } => true,
        PendingRow::CompareAndSet { elem: ElementId::Vertex(_), .. } => true,
        _ => false,
    }
}

/// The existing edge that an intent addresses by identity.
pub open spec fn addressed_edge(row: PendingRow) -> Option<EId> {
    match row {
        PendingRow::DeleteEdge { eid, .. } => Some(eid),
        PendingRow::SetEdgeProperty { eid, .. } => Some(eid),
        PendingRow::CompareAndSet { elem: ElementId::Edge(eid), .. } => Some(eid),
        _ => None,
    }
}

/// How many of the intents are on vertices.
pub open spec fn vertex_intents(rows: Seq<(RelationId, PendingRow)>) -> nat
    decreases rows.len(),
{
    if rows.len() == 0 {
        0
    } else {
        vertex_intents(rows.drop_last()) + if is_vertex_intent(rows.last().1) {
            1nat
        } else {
            0nat
        }
    }
}

/// An intent lands in a relation slice: its default relation, and the actual
/// relation of an existing edge that it addresses.
pub open spec fn lands_in(
    graph: spec_fn(EId) -> Option<EdgeView>,
    row: (RelationId, PendingRow),
    relation: u128,
) -> bool {
    ||| row.0.0 == relation
    ||| addressed_edge(row.1) matches Some(eid) && graph(eid) matches Some(edge)
        && edge.entry.relation.0 == relation
}

/// The relation slices that the intents spread over.
pub open spec fn slices(
    graph: spec_fn(EId) -> Option<EdgeView>,
    rows: Seq<(RelationId, PendingRow)>,
) -> Set<u128> {
    Set::new(
        |relation: u128|
            exists|i: int| 0 <= i < rows.len() && lands_in(graph, #[trigger] rows[i], relation),
    )
}

/// The number of rows the evaluator is given: vertex intents once per slice, edge
/// intents once.
pub open spec fn expanded_rows(
    graph: spec_fn(EId) -> Option<EdgeView>,
    rows: Seq<(RelationId, PendingRow)>,
) -> nat {
    vertex_intents(rows) * slices(graph, rows).len() + (rows.len() - vertex_intents(rows)) as nat
}

/// The refusal of a program that is too large, counted raw first.
pub open spec fn budget_refusal(
    graph: spec_fn(EId) -> Option<EdgeView>,
    rows: Seq<(RelationId, PendingRow)>,
    limit: u64,
) -> Option<WriteTxnError> {
    let required = if rows.len() > limit {
        rows.len()
    } else {
        expanded_rows(graph, rows)
    };
    if required > limit {
        Some(
            WriteTxnError::OrderedWriteBudgetExceeded {
                limit,
                required: if required > u64::MAX {
                    u64::MAX
                } else {
                    required as u64
                },
            },
        )
    } else {
        None
    }
}

/// The committed graph that routing looks at.
pub open spec fn current_graph(database: Database) -> spec_fn(EId) -> Option<EdgeView> {
    |eid: EId| database.edge_after_commits(eid, database.log@.len() as int)
}

proof fn lemma_vertex_intents_bound(rows: Seq<(RelationId, PendingRow)>)
    ensures
        vertex_intents(rows) <= rows.len(),
    decreases rows.len(),
{
    if rows.len() > 0 {
        lemma_vertex_intents_bound(rows.drop_last());
    }
}

proof fn lemma_slices_push(
    graph: spec_fn(EId) -> Option<EdgeView>,
    rows: Seq<(RelationId, PendingRow)>,
    row: (RelationId, PendingRow),
)
    ensures
        slices(graph, rows.push(row)) == slices(graph, rows).union(
            Set::new(|relation: u128| lands_in(graph, row, relation)),
        ),
        vertex_intents(rows.push(row)) == vertex_intents(rows) + if is_vertex_intent(row.1) {
            1nat
        } else {
            0nat
        },
{
    let all = rows.push(row);
    assert(all.drop_last() =~= rows);
    assert(all[rows.len() as int] == row);
    let before = slices(graph, rows);
    let own = Set::new(|relation: u128| lands_in(graph, row, relation));
    assert forall|relation: u128| #[trigger] slices(graph, all).contains(relation)
        == before.union(own).contains(relation) by {
        if before.contains(relation) {
            let i = choose|i: int|
                0 <= i < rows.len() && lands_in(graph, #[trigger] rows[i], relation);
            assert(lands_in(graph, all[i], relation));
        }
        if own.contains(relation) {
            assert(lands_in(graph, all[rows.len() as int], relation));
        }
        if slices(graph, all).contains(relation) {
            let i = choose|i: int|
                0 <= i < all.len() && lands_in(graph, #[trigger] all[i], relation);
            if i < rows.len() {
                assert(lands_in(graph, rows[i], relation));
            }
        }
    }
    assert(slices(graph, all) =~= before.union(own));
}

/// A set hands out as many members as it has.
proof fn lemma_idset_len(set: IdSet)
    requires
        set.wf(),
    ensures
        set@.len() == set.seq().len(),
{
    assert forall|i: int, j: int|
        0 <= i < set.seq().len() && 0 <= j < set.seq().len() && i != j implies set.seq()[i]
        != set.seq()[j] by {
        if i < j {
            assert(set.seq()[i] < set.seq()[j]);
        } else {
            assert(set.seq()[j] < set.seq()[i]);
        }
    }
    set.seq().unique_seq_to_set();
}

/// The number of intents in a list of batches.
fn count_rows(batches: &Vec<WriteBatch>) -> (total: u128)
    ensures
        total == intents(batches@).len(),
{
    let mut total: u128 = 0;
    let mut b: usize = 0;
    while b < batches.len()
        invariant
            b <= batches.len(),
            total == intents_upto(batches@, b as int).len(),
            total <= b * (usize::MAX as u128),
        decreases batches.len() - b,
    {
        let rows: usize = batches[b].rows.len();
        assert((b + 1) * (usize::MAX as int) == b * (usize::MAX as int) + usize::MAX as int)
            by (nonlinear_arith);
        assert((b + 1) * (usize::MAX as int) <= (usize::MAX as int) * (usize::MAX as int))
            by (nonlinear_arith)
            requires
                b + 1 <= usize::MAX as int,
        ;
        assert((usize::MAX as int) * (usize::MAX as int) <= u128::MAX as int) by (nonlinear_arith)
            requires
                usize::MAX as int <= 0xffff_ffff_ffff_ffffint,
        ;
        total = total + rows as u128;
        b += 1;
    }
    total
}

impl Database {
    /// Count the slices and vertex intents of more batches.
    fn route_rows(&self, batches: &Vec<WriteBatch>, vertices: u128, relations: &mut IdSet, Ghost(
        seen,
    ): Ghost<Seq<(RelationId, PendingRow)>>) -> (counted: u128)
        requires
            self.wf(),
            old(relations).wf(),
            old(relations)@ == slices(current_graph(*self), seen),
            vertices == vertex_intents(seen),
            seen.len() + intents(batches@).len() <= u128::MAX,
        ensures
            final(relations).wf(),
            final(relations)@ == slices(current_graph(*self), seen + intents(batches@)),
            counted == vertex_intents(seen + intents(batches@)),
    {
        let ghost graph = current_graph(*self);
        let mut counted: u128 = vertices;
        let mut b: usize = 0;
        proof {
            assert(seen + intents_upto(batches@, 0) =~= seen);
        }
        while b < batches.len()
            invariant
                self.wf(),
                graph == current_graph(*self),
                b <= batches.len(),
                relations.wf(),
                seen.len() + intents(batches@).len() <= u128::MAX,
                relations@ == slices(graph, seen + intents_upto(batches@, b as int)),
                counted == vertex_intents(seen + intents_upto(batches@, b as int)),
            decreases batches.len() - b,
        {
            let batch = &batches[b];
            let ghost before = seen + intents_upto(batches@, b as int);
            let ghost own = batch.rows@.map_values(|row: PendingRow| (batch.relation, row));
            proof {
                assert(before + own.take(0) =~= before);
                lemma_intents_len(batches@, b + 1, batches@.len() as int);
            }
            let mut r: usize = 0;
            while r < batch.rows.len()
                invariant
                    self.wf(),
                    graph == current_graph(*self),
                    b < batches.len(),
                    *batch == batches@[b as int],
                    r <= batch.rows.len(),
                    relations.wf(),
                    own == batch.rows@.map_values(|row: PendingRow| (batch.relation, row)),
                    before.len() + own.len() <= u128::MAX,
                    relations@ == slices(graph, before + own.take(r as int)),
                    counted == vertex_intents(before + own.take(r as int)),
                decreases batch.rows.len() - r,
            {
                let ghost rows = before + own.take(r as int);
                let ghost row = (batch.relation, batch.rows@[r as int]);
                proof {
                    assert(before + own.take(r + 1) =~= rows.push(row));
                    lemma_slices_push(graph, rows, row);
                    lemma_vertex_intents_bound(rows);
                }
                relations.insert(batch.relation.0 as u128);
                match &batch.rows[r] {
                    PendingRow::Vertex { .. }
                    | PendingRow::DeleteVertex { .. }
                    | PendingRow::SetLabel { .. }
                    | PendingRow::SetProperty { .. }
                    | PendingRow::CompareAndSet { elem: ElementId::Vertex(_), .. } => {
                        counted = counted + 1;
                    },
                    PendingRow::DeleteEdge { eid, .. }
                    | PendingRow::SetEdgeProperty { eid, .. }
                    | PendingRow::CompareAndSet { elem: ElementId::Edge(eid), .. } => {
                        let frontier = self.snapshot_frontier();
                        let found = self.edge_at(*eid, frontier);
                        if let Ok(Some(record)) = &found {
                            relations.insert(record.entry.relation.0 as u128);
                        }
                        proof {
                            assert(self.history_refusal(frontier) is None);
                            assert(self.edge_at_spec(*eid, frontier) == graph(*eid));
                        }
                    },
                    PendingRow::Edge { .. } => {},
                }
                proof {
                    let own_slices = Set::new(|relation: u128| lands_in(graph, row, relation));
                    assert(relations@ =~= slices(graph, rows).union(own_slices));
                }
                r += 1;
            }
            proof {
                assert(own.take(r as int) =~= own);
                assert(before + own =~= seen + intents_upto(batches@, b + 1));
            }
            b += 1;
        }
        counted
    }

    /// Refuse a program whose raw or relation-expanded row count is over a limit.
    pub fn admit_ordered_write_rows(
        &self,
        staged: &Vec<WriteBatch>,
        suffix: &Vec<WriteBatch>,
        limit: u64,
    ) -> (admitted: Result<(), WriteTxnError>)
        requires
            self.wf(),
        ensures
            match admitted {
                Ok(()) => budget_refusal(
                    current_graph(*self),
                    intents(staged@) + intents(suffix@),
                    limit,
                ) is None,
                Err(error) => budget_refusal(
                    current_graph(*self),
                    intents(staged@) + intents(suffix@),
                    limit,
                ) == Some(error),
            },
    {
        let ghost graph = current_graph(*self);
        let ghost rows = intents(staged@) + intents(suffix@);
        let prefix: u128 = count_rows(staged);
        let added: u128 = count_rows(suffix);
        if prefix > limit as u128 || added > limit as u128 || prefix + added > limit as u128 {
            let required: u64 = if prefix > u64::MAX as u128 || added > u64::MAX as u128 || prefix
                + added > u64::MAX as u128 {
                u64::MAX
            } else {
                (prefix + added) as u64
            };
            return Err(WriteTxnError::OrderedWriteBudgetExceeded { limit, required });
        }
        let mut relations = IdSet::new();
        let ghost none = Seq::<(RelationId, PendingRow)>::empty();
        proof {
            assert(slices(graph, none) =~= Set::<u128>::empty());
            assert(none + intents(staged@) =~= intents(staged@));
        }
        let vertices: u128 = self.route_rows(staged, 0, &mut relations, Ghost(none));
        let vertices: u128 = self.route_rows(
            suffix,
            vertices,
            &mut relations,
            Ghost(intents(staged@)),
        );
        let slice_count: u128 = relations.len() as u128;
        proof {
            lemma_idset_len(relations);
            lemma_vertex_intents_bound(rows);
            assert(vertices * slice_count <= 0xffff_ffff_ffff_ffffint * 0xffff_ffff_ffff_ffffint)
                by (nonlinear_arith)
                requires
                    vertices <= 0xffff_ffff_ffff_ffffint,
                    slice_count <= 0xffff_ffff_ffff_ffffint,
            ;
            assert(vertices * slice_count == vertex_intents(rows) * slices(graph, rows).len());
        }
        let total: u128 = vertices * slice_count + (prefix + added - vertices);
        if total > limit as u128 {
            let required: u64 = if total > u64::MAX as u128 {
                u64::MAX
            } else {
                total as u64
            };
            return Err(WriteTxnError::OrderedWriteBudgetExceeded { limit, required });
        }
        Ok(())
    }
}

pub proof fn lemma_intents_len(batches: Seq<WriteBatch>, n: int, m: int)
    requires
        0 <= n <= m <= batches.len(),
    ensures
        intents_upto(batches, n).len() <= intents_upto(batches, m).len(),
    decreases m - n,
{
    if n < m {
        lemma_intents_len(batches, n, m - 1);
    }
}

/// Record every element that the intents of some batches depend on.
fn retain_observations(batches: &Vec<WriteBatch>, observations: &mut ElementSet)
    requires
        old(observations).wf(),
    ensures
        final(observations).wf(),
        forall|element: ElementId| #[trigger]
            final(observations)@.contains(element) == (old(observations)@.contains(element)
                || intended(intents(batches@), element)),
{
    let mut b: usize = 0;
    while b < batches.len()
        invariant
            b <= batches.len(),
            observations.wf(),
            forall|element: ElementId| #[trigger]
                observations@.contains(element) == (old(observations)@.contains(element)
                    || intended(intents_upto(batches@, b as int), element)),
        decreases batches.len() - b,
    {
        let batch = &batches[b];
        let ghost seen = intents_upto(batches@, b as int);
        let ghost own = batch.rows@.map_values(|row: PendingRow| (batch.relation, row));
        proof {
            assert(seen + own.take(0) =~= seen);
        }
        let mut r: usize = 0;
        while r < batch.rows.len()
            invariant
                b < batches.len(),
                *batch == batches@[b as int],
                r <= batch.rows.len(),
                observations.wf(),
                own == batch.rows@.map_values(|row: PendingRow| (batch.relation, row)),
                forall|element: ElementId| #[trigger]
                    observations@.contains(element) == (old(observations)@.contains(element)
                        || intended(seen + own.take(r as int), element)),
            decreases batch.rows.len() - r,
        {
            let ghost before = observations@;
            let ghost rows = seen + own.take(r as int);
            let ghost next = seen + own.take(r + 1);
            let ghost row = batch.rows@[r as int];
            proof {
                assert(next =~= rows.push((batch.relation, row)));
            }
            batch.rows[r].observe(observations);
            proof {
                assert forall|element: ElementId| #[trigger]
                    observations@.contains(element) == (old(observations)@.contains(element)
                        || intended(next, element)) by {
                    crate::conflict::lemma_intended_push(rows, (batch.relation, row), element);
                    assert(before.contains(element) == (old(observations)@.contains(element)
                        || intended(rows, element)));
                }
            }
            r += 1;
        }
        proof {
            assert(own.take(r as int) =~= own);
            assert(seen + own =~= intents_upto(batches@, b + 1));
        }
        b += 1;
    }
}

/// Whether some batch of a request is empty, or there is none.
pub open spec fn has_empty(batches: Seq<WriteBatch>) -> bool {
    ||| batches.len() == 0
    ||| exists|i: int| 0 <= i < batches.len() && (#[trigger] batches[i]).rows@.len() == 0
}

pub fn any_empty(batches: &Vec<WriteBatch>) -> (empty: bool)
    ensures
        empty == has_empty(batches@),
{
    if batches.len() == 0 {
        return true;
    }
    let mut i: usize = 0;
    while i < batches.len()
        invariant
            i <= batches.len(),
            forall|k: int| 0 <= k < i ==> (#[trigger] batches@[k]).rows@.len() > 0,
        decreases batches.len() - i,
    {
        if batches[i].is_empty() {
            return true;
        }
        i += 1;
    }
    false
}

impl WriteTxn {
    /// The refusal that ordered staging meets before it asks the evaluator.
    pub open spec fn staging_refusal(
        &self,
        database: Database,
        batches: Seq<WriteBatch>,
    ) -> Option<WriteTxnError> {
        match ownership_refusal(*self, database) {
            Some(error) => Some(error),
            None => match frontier_of(database.state) {
                Err(error) => Some(error),
                Ok(live) => if live != self.basis {
                    Some(WriteTxnError::SnapshotAdvanced { pinned: self.basis, live })
                } else if has_empty(batches) {
                    Some(WriteTxnError::Write(WriteError::EmptyBatch))
                } else {
                    None
                },
            },
        }
    }

    /// Stage an ordered suffix through the native evaluator, which is given the
    /// complete program. A refused suffix leaves the staged prefix and its
    /// prepared effects as they were, but its observations are retained.
    pub fn write_ordered<H: Host>(
        &mut self,
        database: &Database,
        batches: Vec<WriteBatch>,
        session: &mut Session<H>,
    ) -> (staged: Result<(), WriteTxnError>)
        requires
            old(self).wf(),
            database.wf(),
        ensures
            final(self).wf(),
            final(session).metered() == old(session).metered(),
            stages(
                *old(self),
                *final(self),
                *database,
                batches@,
                None,
                old(session).log(),
                final(session).log(),
                staged,
            ),
    {
        proof {
            lemma_ran_nothing(session.log());
        }
        if let Err(error) = self.check_staging(database, &batches) {
            return Err(error);
        }
        self.stage_admitted(database, batches, session, false)
    }

    /// The checks that precede every staging.
    pub fn check_staging(&self, database: &Database, batches: &Vec<WriteBatch>) -> (checked: Result<
        (),
        WriteTxnError,
    >)
        ensures
            match checked {
                Ok(()) => self.staging_refusal(*database, batches@) is None,
                Err(error) => self.staging_refusal(*database, batches@) == Some(error),
            },
    {
        if let Err(error) = self.ensure_database(database) {
            return Err(error);
        }
        let live = match database.frontier() {
            Ok(live) => live,
            Err(error) => return Err(error),
        };
        if live != self.basis {
            return Err(WriteTxnError::SnapshotAdvanced { pinned: self.basis, live });
        }
        if any_empty(batches) {
            return Err(WriteTxnError::Write(WriteError::EmptyBatch));
        }
        Ok(())
    }

    /// Hand the complete program to the evaluator and keep what it prepares.
    pub(crate) fn stage_admitted<H: Host>(
        &mut self,
        database: &Database,
        batches: Vec<WriteBatch>,
        session: &mut Session<H>,
        redact: bool,
    ) -> (staged: Result<(), WriteTxnError>)
        requires
            old(self).wf(),
            database.wf(),
        ensures
            final(self).wf(),
            final(session).metered() == old(session).metered(),
            evaluated(
                *old(self),
                *final(self),
                *database,
                batches@,
                old(session).log(),
                final(session).log(),
                staged,
            ),
            redact ==> staged == Ok::<(), WriteTxnError>(()) || staged == Err::<
                (),
                WriteTxnError,
            >(WriteTxnError::AuthorizedMutationRefused),
    {
        let kept: usize = self.staged.len();
        let mut suffix = batches;
        let mut observations = ElementSet::new();
        retain_observations(&suffix, &mut observations);
        self.staged.append(&mut suffix);
        match session.prepare(database, &self.staged, redact) {
            Ok(prepared) => {
                self.prepared = Some(prepared);
                Ok(())
            },
            Err(error) => {
                self.staged.truncate(kept);
                self.read_set.extend(&observations);
                proof {
                    assert(self.staged@ =~= old(self).staged@);
                }
                Err(error)
            },
        }
    }

    /// Stage an ordered suffix only when the complete program fits its limit.
    ///
    /// Counts cover all retained batches and their replication across relation
    /// slices. Refusal leaves staged effects, savepoints and the pin unchanged;
    /// the observations of a refused routing attempt are retained.
    pub fn write_ordered_bounded<H: Host>(
        &mut self,
        database: &Database,
        batches: Vec<WriteBatch>,
        max_expanded_rows: u64,
        session: &mut Session<H>,
    ) -> (staged: Result<(), WriteTxnError>)
        requires
            old(self).wf(),
            database.wf(),
        ensures
            final(self).wf(),
            final(session).metered() == old(session).metered(),
            stages(
                *old(self),
                *final(self),
                *database,
                batches@,
                Some(max_expanded_rows),
                old(session).log(),
                final(session).log(),
                staged,
            ),
    {
        proof {
            lemma_ran_nothing(session.log());
        }
        if let Err(error) = self.check_staging(database, &batches) {
            return Err(error);
        }
        if let Err(error) = database.admit_ordered_write_rows(
            &self.staged,
            &batches,
            max_expanded_rows,
        ) {
            // Routing may have observed an existing edge's actual relation. Do
            // not let discarding the attempted suffix discard that read.
            retain_observations(&batches, &mut self.read_set);
            return Err(error);
        }
        self.stage_admitted(database, batches, session, false)
    }
}

/// The transaction differs only by the retained observations of some batches.
pub open spec fn only_observed(
    before: WriteTxn,
    after: WriteTxn,
    batches: Seq<WriteBatch>,
) -> bool {
    &&& same_workspace(before, after)
    &&& after.match_expansions == before.match_expansions
    &&& after.scanned_vertex_labels == before.scanned_vertex_labels
    &&& after.scanned_vertices == before.scanned_vertices
    &&& after.scanned_edges == before.scanned_edges
    &&& forall|element: ElementId| #[trigger]
        after.read_set@.contains(element) == (before.read_set@.contains(element) || intended(
            intents(batches),
            element,
        ))
}

/// The evaluator was given the complete program, and its answer was kept: the
/// prepared write when it granted, and only the observations when it refused.
pub open spec fn evaluated(
    before: WriteTxn,
    after: WriteTxn,
    database: Database,
    batches: Seq<WriteBatch>,
    log: Seq<crate::session::Event>,
    log_after: Seq<crate::session::Event>,
    staged: Result<(), WriteTxnError>,
) -> bool {
    &&& followed(log, log_after, seq![Request::Prepare { database, staged: before.staged@ + batches }])
    &&& match refused(log, log_after) {
        Some(error) => staged == Err::<(), WriteTxnError>(error) && only_observed(
            before,
            after,
            batches,
        ) && evaluations(log_after) == evaluations(log),
        None => {
            &&& staged is Ok
            &&& evaluations(log_after) == evaluations(log).push(after.prepared->0)
            &&& after.staged@ == before.staged@ + batches
            &&& after.prepared is Some
            &&& fresh_on(database, after.prepared->0.template)
            &&& after.prepared == log_after.last().prepared
            &&& after.owner == before.owner
            &&& after.basis == before.basis
            &&& after.state == before.state
            &&& after.pin == before.pin
            &&& after.savepoints == before.savepoints
            &&& after.program_multi_relation == before.program_multi_relation
            &&& after.read_set == before.read_set
            &&& after.match_expansions == before.match_expansions
            &&& after.scanned_vertex_labels == before.scanned_vertex_labels
            &&& after.scanned_vertices == before.scanned_vertices
            &&& after.scanned_edges == before.scanned_edges
        },
    }
}

/// What ordered staging does, with an optional limit on expanded rows.
pub open spec fn stages(
    before: WriteTxn,
    after: WriteTxn,
    database: Database,
    batches: Seq<WriteBatch>,
    limit: Option<u64>,
    log: Seq<crate::session::Event>,
    log_after: Seq<crate::session::Event>,
    staged: Result<(), WriteTxnError>,
) -> bool {
    let rows = intents(before.staged@) + intents(batches);
    match before.staging_refusal(database, batches) {
        Some(error) => {
            &&& staged == Err::<(), WriteTxnError>(error)
            &&& after == before
            &&& log_after == log
        },
        None => match limit {
            Some(max) => match budget_refusal(current_graph(database), rows, max) {
                Some(error) => {
                    &&& staged == Err::<(), WriteTxnError>(error)
                    &&& only_observed(before, after, batches)
                    &&& log_after == log
                },
                None => evaluated(before, after, database, batches, log, log_after, staged),
            },
            None => evaluated(before, after, database, batches, log, log_after, staged),
        },
    }
}

} // verus!
