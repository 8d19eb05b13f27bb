//! Relationship MERGE with branch actions, inside one private rollback boundary.

use vstd::prelude::*;
use crate::admission::stages;
use crate::batch::{PendingRow, WriteBatch};
use crate::database::Database;
use crate::edge_merge::{
    copies_script, law_edge_merge_stages_once, merge_refusal, merges, pay_copies, GraphEdgeMerge,
    GraphEdgeMergeOutcome, GraphEdgeMergePolicy, GraphEdgeMergeStats, Selection,
};
use crate::errors::WriteTxnError;
use crate::governed::{event, governs, lemma_governs_failed, lemma_governs_then, Step};
use crate::ids::{CanonicalScalar, EId, PropertyKeyId, RelationId};
use crate::plan::failure;
use crate::queries::retained;
use crate::script::lemma_prefix_concat;
use crate::selector::{PairSelector, Selecting, SelectorRecord};
use crate::session::{Event, Host, Session};
use crate::statement::{Fault, GlaExecutionEvent, QueryPolicy, QueryStats};
use crate::template::same_template;
use crate::txn::{keeps_observations, ownership_refusal, PreparedWrite, WriteTxn};

verus! {

/// A prepared relationship MERGE with the property writes of each branch.
#[derive(Debug)]
pub struct GraphEdgeUpsert {
    pub merge: GraphEdgeMerge,
    pub on_match: Vec<(PropertyKeyId, CanonicalScalar)>,
    pub on_create: Vec<(PropertyKeyId, CanonicalScalar)>,
}

#[derive(Clone, Copy, PartialEq, Eq, Structural, Debug)]
pub struct GraphEdgeUpsertPolicy {
    pub merge: GraphEdgeMergePolicy,
    pub max_actions: u64,
}

#[derive(Clone, Copy, PartialEq, Eq, Structural, Debug)]
pub enum GraphEdgeUpsertBranch {
    NoInput,
    Match,
    Create,
}

#[derive(Clone, Copy, PartialEq, Eq, Structural, Debug)]
pub struct GraphEdgeUpsertStats {
    pub merge: GraphEdgeMergeStats,
    pub branch: GraphEdgeUpsertBranch,
    pub action_effects: u64,
    pub evaluator: QueryStats,
}

/// The branch that an outcome selects.
pub open spec fn branch_of(outcome: GraphEdgeMergeOutcome) -> GraphEdgeUpsertBranch {
    match outcome {
        GraphEdgeMergeOutcome::NoInput => GraphEdgeUpsertBranch::NoInput,
        GraphEdgeMergeOutcome::Matched(_) => GraphEdgeUpsertBranch::Match,
        GraphEdgeMergeOutcome::Created(_) => GraphEdgeUpsertBranch::Create,
    }
}

/// The property writes of the selected branch. Without input no branch runs.
pub open spec fn branch_actions(upsert: GraphEdgeUpsert, outcome: GraphEdgeMergeOutcome) -> Seq<
    (PropertyKeyId, CanonicalScalar),
> {
    match outcome {
        GraphEdgeMergeOutcome::NoInput => Seq::empty(),
        GraphEdgeMergeOutcome::Matched(_) => upsert.on_match@,
        GraphEdgeMergeOutcome::Created(_) => upsert.on_create@,
    }
}

/// The edge that the branch writes.
pub open spec fn branch_edge(outcome: GraphEdgeMergeOutcome) -> Option<EId> {
    match outcome {
        GraphEdgeMergeOutcome::NoInput => None,
        GraphEdgeMergeOutcome::Matched(eid) => Some(eid),
        GraphEdgeMergeOutcome::Created(eid) => Some(eid),
    }
}

/// Two prepared writes publish the same rows.
pub open spec fn same_prepared(left: Option<PreparedWrite>, right: Option<PreparedWrite>) -> bool {
    match (left, right) {
        (Some(l), Some(r)) => same_template(l.template, r.template) && l.basis == r.basis && l.owner
            == r.owner,
        (None, None) => true,
        _ => false,
    }
}

/// The staged prefix and its prepared effects are those of `before`, with every
/// observation that `reached` made.
pub open spec fn rolled_back(before: WriteTxn, reached: WriteTxn, after: WriteTxn) -> bool {
    &&& after.owner == before.owner
    &&& after.basis == before.basis
    &&& after.state == before.state
    &&& after.pin == before.pin
    &&& after.savepoints@ == before.savepoints@
    &&& after.program_multi_relation == before.program_multi_relation
    &&& after.staged@ == before.staged@
    &&& same_prepared(before.prepared, after.prepared)
    &&& after.read_set == reached.read_set
    &&& after.match_expansions == reached.match_expansions
    &&& after.scanned_vertex_labels == reached.scanned_vertex_labels
    &&& after.scanned_vertices == reached.scanned_vertices
    &&& after.scanned_edges == reached.scanned_edges
}

/// The batch that writes the branch's properties, in order.
pub open spec fn writes_actions(
    batch: WriteBatch,
    merge: GraphEdgeMerge,
    eid: EId,
    actions: Seq<(PropertyKeyId, CanonicalScalar)>,
) -> bool {
    &&& batch.relation == merge.relation
    &&& batch.rows@.len() == actions.len()
    &&& forall|i: int|
        0 <= i < actions.len() ==> #[trigger] batch.rows@[i] == (PendingRow::SetEdgeProperty {
            eid,
            key: actions[i].0,
            value: Some(actions[i].1),
        })
}

/// What the branch costs: one entry for each action and one unit at the end.
pub open spec fn branch_script(actions: nat) -> Seq<Step> {
    copies_script(actions as int) + seq![Step::Count(GlaExecutionEvent::Work)]
}

/// The report of a finished upsert.
pub open spec fn upsert_report(
    merged: (GraphEdgeMergeStats, GraphEdgeMergeOutcome),
    actions: nat,
    evaluator: QueryStats,
) -> (GraphEdgeUpsertStats, GraphEdgeMergeOutcome) {
    (
        GraphEdgeUpsertStats {
            merge: merged.0,
            branch: branch_of(merged.1),
            action_effects: actions as u64,
            evaluator,
        },
        merged.1,
    )
}

/// The branch was paid for and, where it writes anything, staged as one batch.
pub open spec fn branch_run(
    before: WriteTxn,
    middle: WriteTxn,
    reached: WriteTxn,
    after: WriteTxn,
    database: Database,
    upsert: GraphEdgeUpsert,
    policy: GraphEdgeUpsertPolicy,
    merged: (GraphEdgeMergeStats, GraphEdgeMergeOutcome),
    counted: QueryStats,
    batch: WriteBatch,
    staged: Result<(), WriteTxnError>,
    log: Seq<Event>,
    log_paid: Seq<Event>,
    log_after: Seq<Event>,
    failed: Option<Fault>,
    result: Result<(GraphEdgeUpsertStats, GraphEdgeMergeOutcome), Fault>,
) -> bool {
    let actions = branch_actions(upsert, merged.1);
    &&& governs(
        policy.merge.query,
        merged.0.evaluator,
        branch_script(actions.len()),
        counted,
        log,
        log_paid,
        failed,
    )
    &&& if failed is Some {
        &&& result == Err::<(GraphEdgeUpsertStats, GraphEdgeMergeOutcome), Fault>(failed->0)
        &&& rolled_back(before, middle, after)
        &&& log_after == log_paid
    } else if actions.len() == 0 {
        &&& result == Ok::<(GraphEdgeUpsertStats, GraphEdgeMergeOutcome), Fault>(
            upsert_report(merged, 0, counted),
        )
        &&& after == middle
        &&& log_after == log_paid
    } else {
        &&& branch_edge(merged.1) matches Some(eid) && writes_actions(
            batch,
            upsert.merge,
            eid,
            actions,
        )
        &&& stages(middle, reached, database, seq![batch], None, log_paid, log_after, staged)
        &&& match staged {
            Ok(()) => {
                &&& result == Ok::<(GraphEdgeUpsertStats, GraphEdgeMergeOutcome), Fault>(
                    upsert_report(merged, actions.len(), counted),
                )
                &&& after == reached
            },
            Err(error) => {
                &&& result == Err::<(GraphEdgeUpsertStats, GraphEdgeMergeOutcome), Fault>(
                    Fault::Staging(error),
                )
                &&& rolled_back(before, reached, after)
            },
        }
    }
}

/// The MERGE ran, and its branch after it.
pub open spec fn merge_run(
    before: WriteTxn,
    middle: WriteTxn,
    after: WriteTxn,
    database: Database,
    upsert: GraphEdgeUpsert,
    policy: GraphEdgeUpsertPolicy,
    selection: Selection,
    merged: Result<(GraphEdgeMergeStats, GraphEdgeMergeOutcome), Fault>,
    log: Seq<Event>,
    log_merged: Seq<Event>,
    log_after: Seq<Event>,
    result: Result<(GraphEdgeUpsertStats, GraphEdgeMergeOutcome), Fault>,
) -> bool {
    &&& merges(
        before,
        middle,
        database,
        upsert.merge,
        policy.merge,
        selection,
        log,
        log_merged,
        merged,
    )
    &&& match merged {
        Err(fault) => {
            &&& result == Err::<(GraphEdgeUpsertStats, GraphEdgeMergeOutcome), Fault>(fault)
            &&& rolled_back(before, middle, after)
            &&& log_after == log_merged
        },
        Ok(done) => {
            let actions = branch_actions(upsert, done.1);
            if actions.len() > policy.max_actions {
                &&& result == Err::<(GraphEdgeUpsertStats, GraphEdgeMergeOutcome), Fault>(
                    Fault::ActionLimit {
                        limit: policy.max_actions,
                        observed: actions.len() as u128,
                    },
                )
                &&& rolled_back(before, middle, after)
                &&& log_after == log_merged
            } else {
                exists|
                    reached: WriteTxn,
                    counted: QueryStats,
                    batch: WriteBatch,
                    staged: Result<(), WriteTxnError>,
                    log_paid: Seq<Event>,
                    failed: Option<Fault>,
                | #[trigger]
                    branch_run(
                        before,
                        middle,
                        reached,
                        after,
                        database,
                        upsert,
                        policy,
                        done,
                        counted,
                        batch,
                        staged,
                        log_merged,
                        log_paid,
                        log_after,
                        failed,
                        result,
                    )
            }
        },
    }
}

/// What an upsert does, whatever the host answers.
pub open spec fn upserts(
    before: WriteTxn,
    after: WriteTxn,
    database: Database,
    upsert: GraphEdgeUpsert,
    policy: GraphEdgeUpsertPolicy,
    selection: Selection,
    log: Seq<Event>,
    log_after: Seq<Event>,
    result: Result<(GraphEdgeUpsertStats, GraphEdgeMergeOutcome), Fault>,
) -> bool {
    if ownership_refusal(before, database) is Some {
        &&& result == Err::<(GraphEdgeUpsertStats, GraphEdgeMergeOutcome), Fault>(
            Fault::Staging(ownership_refusal(before, database)->0),
        )
        &&& after == before
        &&& log_after == log
    } else {
        exists|
            middle: WriteTxn,
            merged: Result<(GraphEdgeMergeStats, GraphEdgeMergeOutcome), Fault>,
            log_merged: Seq<Event>,
        | #[trigger]
            merge_run(
                before,
                middle,
                after,
                database,
                upsert,
                policy,
                selection,
                merged,
                log,
                log_merged,
                log_after,
                result,
            )
    }
}

impl PreparedWrite {
    fn copy(&self) -> (copy: PreparedWrite)
        requires
            self.template.wf(),
        ensures
            copy.template.wf(),
            same_template(self.template, copy.template),
            copy.basis == self.basis,
            copy.owner == self.owner,
    {
        PreparedWrite { template: self.template.copy(), basis: self.basis, owner: self.owner }
    }
}

/// The refusal before an upsert selects anything. A foreign or finished transaction is
/// the upsert's own refusal; what follows is that of its MERGE.
pub open spec fn upsert_refusal(txn: WriteTxn, database: Database, relation: RelationId) -> Option<
    Fault,
> {
    match ownership_refusal(txn, database) {
        Some(error) => Some(Fault::Staging(error)),
        None => match merge_refusal(txn, database, relation) {
            Some(error) => Some(Fault::Source(error)),
            None => None,
        },
    }
}

/// How an upsert asks for its endpoint pairs, and runs over them.
pub open spec fn asks_and_upserts(
    before: WriteTxn,
    after: WriteTxn,
    database: Database,
    upsert: GraphEdgeUpsert,
    policy: GraphEdgeUpsertPolicy,
    asked: Seq<Selecting>,
    asked_after: Seq<Selecting>,
    log: Seq<Event>,
    log_after: Seq<Event>,
    result: Result<(GraphEdgeUpsertStats, GraphEdgeMergeOutcome), Fault>,
) -> bool {
    let answer = asked_after.last().answer;
    match upsert_refusal(before, database, upsert.merge.relation) {
        Some(fault) => {
            &&& failure(result) == Some(fault)
            &&& after == before
            &&& asked_after == asked
            &&& log_after == log
        },
        None => {
            &&& asked_after == asked.push(
                Selecting {
                    pattern: upsert.merge.pattern,
                    policy: policy.merge.query,
                    transaction: before,
                    database,
                    answer,
                },
            )
            &&& match answer {
                Err(fault) => failure(result) == Some(fault) && after == before && log_after == log,
                Ok(found) => exists|read: WriteTxn|
                    retained(before, read, found.observed) && #[trigger] upserts(
                        read,
                        after,
                        database,
                        upsert,
                        policy,
                        found.selection,
                        log,
                        log_after,
                        result,
                    ),
            }
        },
    }
}

impl WriteTxn {
    /// Restore the staged prefix and its prepared effects. Observations stay.
    fn restore_prefix(&mut self, staged: usize, prepared: Option<PreparedWrite>)
        requires
            old(self).wf(),
            staged <= old(self).staged@.len(),
            prepared matches Some(write) ==> write.template.wf(),
        ensures
            final(self).wf(),
            final(self).staged@ == old(self).staged@.take(staged as int),
            final(self).prepared == prepared,
            final(self).owner == old(self).owner,
            final(self).basis == old(self).basis,
            final(self).state == old(self).state,
            final(self).pin == old(self).pin,
            final(self).savepoints == old(self).savepoints,
            final(self).program_multi_relation == old(self).program_multi_relation,
            final(self).read_set == old(self).read_set,
            final(self).match_expansions == old(self).match_expansions,
            final(self).scanned_vertex_labels == old(self).scanned_vertex_labels,
            final(self).scanned_vertices == old(self).scanned_vertices,
            final(self).scanned_edges == old(self).scanned_edges,
    {
        self.staged.truncate(staged);
        self.prepared = prepared;
        assert(self.staged@ =~= old(self).staged@.take(staged as int));
    }

    /// Ask for the endpoint pairs, and upsert over them. A refused statement asks for
    /// nothing; what the selection read stays observed.
    pub fn execute_graph_edge_upsert_governed<S: PairSelector, H: Host>(
        &mut self,
        database: &Database,
        upsert: &GraphEdgeUpsert,
        policy: GraphEdgeUpsertPolicy,
        selector: &mut SelectorRecord<S>,
        session: &mut Session<H>,
    ) -> (result: Result<(GraphEdgeUpsertStats, GraphEdgeMergeOutcome), Fault>)
        requires
            old(self).wf(),
            database.wf(),
            upsert.merge.wf(),
        ensures
            final(self).wf(),
            final(session).metered() == old(session).metered(),
            asks_and_upserts(
                *old(self),
                *final(self),
                *database,
                *upsert,
                policy,
                old(selector).asked(),
                final(selector).asked(),
                old(session).log(),
                final(session).log(),
                result,
            ),
    {
        if let Err(error) = self.ensure_database(database) {
            return Err(Fault::Staging(error));
        }
        if let Err(error) = self.check_edge_merge(database, upsert.merge.relation) {
            return Err(Fault::Source(error));
        }
        let ghost before = *self;
        let ghost start = session.log();
        let found = match selector.select(
            upsert.merge.pattern,
            policy.merge.query,
            self,
            database,
        ) {
            Ok(found) => found,
            Err(fault) => return Err(fault),
        };
        self.retain(&found.observed);
        let ghost read = *self;
        let result = self.settle_edge_upsert(database, upsert, policy, &found.selection, session);
        assert(retained(before, read, found.observed));
        assert(upserts(
            read,
            *self,
            *database,
            *upsert,
            policy,
            found.selection,
            start,
            session.log(),
            result,
        ));
        result
    }

    /// Execute a directed relationship MERGE and the selected branch's property
    /// writes atomically inside this transaction. Any refusal restores the exact
    /// staged prefix and keeps the read and absence witnesses. Issued identities
    /// are not reclaimed.
    pub fn settle_edge_upsert<H: Host>(
        &mut self,
        database: &Database,
        upsert: &GraphEdgeUpsert,
        policy: GraphEdgeUpsertPolicy,
        selection: &Selection,
        session: &mut Session<H>,
    ) -> (result: Result<(GraphEdgeUpsertStats, GraphEdgeMergeOutcome), Fault>)
        requires
            old(self).wf(),
            database.wf(),
            upsert.merge.wf(),
        ensures
            final(self).wf(),
            final(session).metered() == old(session).metered(),
            upserts(
                *old(self),
                *final(self),
                *database,
                *upsert,
                policy,
                *selection,
                old(session).log(),
                final(session).log(),
                result,
            ),
    {
        let ghost before = *self;
        let ghost start = session.log();
        if let Err(error) = self.ensure_database(database) {
            return Err(Fault::Staging(error));
        }
        let prefix: usize = self.staged.len();
        let saved = match &self.prepared {
            Some(write) => Some(write.copy()),
            None => None,
        };
        let merged = self.settle_edge_merge(
            database,
            &upsert.merge,
            policy.merge,
            selection,
            session,
        );
        let ghost middle = *self;
        let ghost log_merged = session.log();
        proof {
            law_edge_merge_stages_once(
                before, middle, *database, upsert.merge, policy.merge, *selection, start,
                log_merged, merged,
            );
            assert(middle.staged@.take(prefix as int) =~= before.staged@);
        }
        let (merge_stats, outcome) = match merged {
            Ok(done) => done,
            Err(fault) => {
                self.restore_prefix(prefix, saved);
                proof {
                    assert(merge_run(
                        before, middle, *self, *database, *upsert, policy, *selection, merged,
                        start, log_merged, session.log(), Err(fault),
                    ));
                }
                return Err(fault);
            },
        };
        let result = self.run_branch(
            database, upsert, policy, merge_stats, outcome, prefix, saved, session, Ghost(before),
        );
        proof {
            assert(merge_run(
                before, middle, *self, *database, *upsert, policy, *selection, merged, start,
                log_merged, session.log(), result,
            ));
        }
        result
    }

    /// Run the selected branch after its MERGE, or restore the prefix.
    fn run_branch<H: Host>(
        &mut self,
        database: &Database,
        upsert: &GraphEdgeUpsert,
        policy: GraphEdgeUpsertPolicy,
        merge_stats: GraphEdgeMergeStats,
        outcome: GraphEdgeMergeOutcome,
        prefix: usize,
        saved: Option<PreparedWrite>,
        session: &mut Session<H>,
        Ghost(before): Ghost<WriteTxn>,
    ) -> (result: Result<(GraphEdgeUpsertStats, GraphEdgeMergeOutcome), Fault>)
        requires
            old(self).wf(),
            database.wf(),
            prefix <= old(self).staged@.len(),
            old(self).staged@.take(prefix as int) == before.staged@,
            saved matches Some(write) ==> write.template.wf(),
            same_prepared(before.prepared, saved),
            old(self).owner == before.owner,
            old(self).basis == before.basis,
            old(self).state == before.state,
            old(self).pin == before.pin,
            old(self).savepoints@ == before.savepoints@,
            old(self).program_multi_relation == before.program_multi_relation,
        ensures
            final(self).wf(),
            final(session).metered() == old(session).metered(),
            ({
                let actions = branch_actions(*upsert, outcome);
                if actions.len() > policy.max_actions {
                    &&& result == Err::<(GraphEdgeUpsertStats, GraphEdgeMergeOutcome), Fault>(
                        Fault::ActionLimit {
                            limit: policy.max_actions,
                            observed: actions.len() as u128,
                        },
                    )
                    &&& rolled_back(before, *old(self), *final(self))
                    &&& final(session).log() == old(session).log()
                } else {
                    exists|
                        reached: WriteTxn,
                        counted: QueryStats,
                        batch: WriteBatch,
                        staged: Result<(), WriteTxnError>,
                        log_paid: Seq<Event>,
                        failed: Option<Fault>,
                    | #[trigger]
                        branch_run(
                            before,
                            *old(self),
                            reached,
                            *final(self),
                            *database,
                            *upsert,
                            policy,
                            (merge_stats, outcome),
                            counted,
                            batch,
                            staged,
                            old(session).log(),
                            log_paid,
                            final(session).log(),
                            failed,
                            result,
                        )
                }
            }),
    {
        let ghost middle = *self;
        let ghost start = session.log();
        let empty: Vec<(PropertyKeyId, CanonicalScalar)> = Vec::new();
        let actions = match outcome {
            GraphEdgeMergeOutcome::NoInput => &empty,
            GraphEdgeMergeOutcome::Matched(_) => &upsert.on_match,
            GraphEdgeMergeOutcome::Created(_) => &upsert.on_create,
        };
        let branch = match outcome {
            GraphEdgeMergeOutcome::NoInput => GraphEdgeUpsertBranch::NoInput,
            GraphEdgeMergeOutcome::Matched(_) => GraphEdgeUpsertBranch::Match,
            GraphEdgeMergeOutcome::Created(_) => GraphEdgeUpsertBranch::Create,
        };
        let ghost listed = branch_actions(*upsert, outcome);
        assert(actions@ =~= listed);
        let count: usize = actions.len();
        if count as u128 > policy.max_actions as u128 {
            self.restore_prefix(prefix, saved);
            return Err(
                Fault::ActionLimit { limit: policy.max_actions, observed: count as u128 },
            );
        }
        let ghost done = (merge_stats, outcome);
        let mut stats = merge_stats.evaluator;
        let paid = pay_branch(count, policy.merge.query, &mut stats, session);
        let ghost log_paid = session.log();
        if let Err(fault) = paid {
            self.restore_prefix(prefix, saved);
            proof {
                assert(branch_run(
                    before, middle, middle, *self, *database, *upsert, policy, done, stats,
                    arbitrary(), Ok(()), start, log_paid, session.log(), Some(fault), Err(fault),
                ));
            }
            return Err(fault);
        }
        let report = (
            GraphEdgeUpsertStats {
                merge: merge_stats,
                branch,
                action_effects: count as u64,
                evaluator: stats,
            },
            outcome,
        );
        let edge = match outcome {
            GraphEdgeMergeOutcome::NoInput => None,
            GraphEdgeMergeOutcome::Matched(eid) => Some(eid),
            GraphEdgeMergeOutcome::Created(eid) => Some(eid),
        };
        if let Some(eid) = edge {
            if count > 0 {
                let batch = action_batch(&upsert.merge, eid, actions);
                let ghost written = batch;
                let mut batches: Vec<WriteBatch> = Vec::new();
                batches.push(batch);
                assert(batches@ =~= seq![written]);
                let staged = self.write_ordered(database, batches, session);
                let ghost reached = *self;
                if let Err(error) = staged {
                    assert(reached.staged@ == middle.staged@);
                    self.restore_prefix(prefix, saved);
                    proof {
                        assert(branch_run(
                            before, middle, reached, *self, *database, *upsert, policy, done,
                            stats, written, staged, start, log_paid, session.log(), None,
                            Err(Fault::Staging(error)),
                        ));
                    }
                    return Err(Fault::Staging(error));
                }
                proof {
                    assert(report == upsert_report(done, listed.len(), stats));
                    assert(branch_run(
                        before, middle, reached, *self, *database, *upsert, policy, done, stats,
                        written, staged, start, log_paid, session.log(), None, Ok(report),
                    ));
                }
                return Ok(report);
            }
        }
        proof {
            assert(report == upsert_report(done, 0, stats));
            assert(branch_run(
                before, middle, middle, *self, *database, *upsert, policy, done, stats,
                arbitrary(), Ok(()), start, log_paid, session.log(), None, Ok(report),
            ));
        }
        Ok(report)
    }
}

/// The property writes of a branch as one batch.
fn action_batch(
    merge: &GraphEdgeMerge,
    eid: EId,
    actions: &Vec<(PropertyKeyId, CanonicalScalar)>,
) -> (batch: WriteBatch)
    ensures
        writes_actions(batch, *merge, eid, actions@),
{
    let mut batch = WriteBatch::new(merge.relation);
    let mut i: usize = 0;
    while i < actions.len()
        invariant
            i <= actions.len(),
            batch.relation == merge.relation,
            batch.rows@.len() == i,
            forall|k: int|
                0 <= k < i ==> #[trigger] batch.rows@[k] == (PendingRow::SetEdgeProperty {
                    eid,
                    key: actions@[k].0,
                    value: Some(actions@[k].1),
                }),
        decreases actions.len() - i,
    {
        let (key, value) = actions[i];
        batch.rows.push(PendingRow::SetEdgeProperty { eid, key, value: Some(value) });
        i += 1;
    }
    batch
}

/// Pay for the branch. Its last event is the last cancellable point.
fn pay_branch<H: Host>(
    actions: usize,
    policy: QueryPolicy,
    stats: &mut QueryStats,
    session: &mut Session<H>,
) -> (paid: Result<(), Fault>)
    ensures
        final(session).metered() == old(session).metered(),
        governs(
            policy,
            *old(stats),
            branch_script(actions as nat),
            *final(stats),
            old(session).log(),
            final(session).log(),
            failure(paid),
        ),
{
    let ghost start = session.log();
    let ghost before = *stats;
    let ghost copying = copies_script(actions as int);
    let ghost work = seq![Step::Count(GlaExecutionEvent::Work)];
    proof {
        lemma_prefix_concat(copying, work);
    }
    let paid = pay_copies(actions, policy, stats, session);
    let ghost middle = session.log();
    let ghost counted = *stats;
    if let Err(fault) = paid {
        proof {
            lemma_governs_failed(
                policy, before, copying, copying + work, *stats, start, session.log(), Some(fault),
            );
        }
        return Err(fault);
    }
    let done = event(stats, policy, session, GlaExecutionEvent::Work);
    proof {
        lemma_governs_then(
            policy, before, copying, counted, work, *stats, start, middle, session.log(),
            failure(done),
        );
    }
    done
}

/// A refused upsert leaves the staged prefix and its prepared effects exactly as
/// they were, and keeps every earlier observation.
pub proof fn law_refused_upserts_restore_the_prefix(
    before: WriteTxn,
    after: WriteTxn,
    database: Database,
    upsert: GraphEdgeUpsert,
    policy: GraphEdgeUpsertPolicy,
    selection: Selection,
    log: Seq<Event>,
    log_after: Seq<Event>,
    result: Result<(GraphEdgeUpsertStats, GraphEdgeMergeOutcome), Fault>,
)
    requires
        upserts(before, after, database, upsert, policy, selection, log, log_after, result),
        result is Err,
    ensures
        after.staged@ == before.staged@,
        after == before || same_prepared(before.prepared, after.prepared),
        after.owner == before.owner,
        after.basis == before.basis,
        after.state == before.state,
        after.pin == before.pin,
        after.savepoints@ == before.savepoints@,
        keeps_observations(before, after),
{
    if ownership_refusal(before, database) is None {
        let (middle, merged, log_merged) = choose|
            middle: WriteTxn,
            merged: Result<(GraphEdgeMergeStats, GraphEdgeMergeOutcome), Fault>,
            log_merged: Seq<Event>,
        | #[trigger]
            merge_run(
                before, middle, after, database, upsert, policy, selection, merged, log,
                log_merged, log_after, result,
            );
        law_edge_merge_stages_once(
            before, middle, database, upsert.merge, policy.merge, selection, log, log_merged,
            merged,
        );
        if merged is Ok {
            let done = merged->Ok_0;
            let actions = branch_actions(upsert, done.1);
            if actions.len() <= policy.max_actions {
                let (reached, counted, batch, staged, log_paid, failed) = choose|
                    reached: WriteTxn,
                    counted: QueryStats,
                    batch: WriteBatch,
                    staged: Result<(), WriteTxnError>,
                    log_paid: Seq<Event>,
                    failed: Option<Fault>,
                | #[trigger]
                    branch_run(
                        before, middle, reached, after, database, upsert, policy, done, counted,
                        batch, staged, log_merged, log_paid, log_after, failed, result,
                    );
                if failed is None {
                    assert(keeps_observations(middle, reached));
                }
            }
        }
    }
}

} // verus!
