//! Authorized statements and programs from end to end: open, collect under the
//! verified scope, stage, complete. A collector freezes what a statement does;
//! everything it proposes is authorized intent by intent.

use vstd::prelude::*;
use crate::authorized_apply::insert_rows;
use crate::authorized_entry::{begun, opening_steps};
use crate::authorized_execute::{executes, finishes, StatementRun};
use crate::authorized_laws::{lemma_unverified, lemma_unverified_program};
use crate::authorized_program::{
    preflighted, program_steps, steps_once, ProgramInterrupted, StatementKind,
    StepProposal, StepReceipt, WriteProgram,
};
use crate::authorized_run::runs;
use crate::authorized_statement::{lead_plan, Lead};
use crate::collection::collects;
use crate::collector::{Asked, Collector, Prepared, Recorder, Statement};
use crate::database::Database;
use crate::errors::{Denial, WriteTxnError};
use crate::finish::{closes, ready, CompletionStep};
use crate::identity::IdentityState;
use crate::ids::{RelationId, VId};
use crate::plan::{failure, lemma_obeys_lift, obeys, whole};
use crate::scope::Predicates;
use crate::session::{Event, Host, Metering, Session};
use crate::statement::{source, Fault, ProgramStats, StatementStats};
use crate::txn::WriteTxn;

verus! {

/// The statistics of a finished statement. A deletion has gone on counting over its
/// incidence proof.
pub open spec fn final_stats(stats: StatementStats, receipt: StepReceipt) -> StatementStats {
    match receipt {
        StepReceipt::Deleted { stats: usage, .. } => StatementStats { usage, ..stats },
        _ => stats,
    }
}

/// A statement whose workspace is open: what collecting it came to, staged and
/// completed.
pub open spec fn continues_statement(
    opened: WriteTxn,
    database: Database,
    prepared: Prepared,
    returning: bool,
    scope: Predicates,
    metered: Metering,
    identities: IdentityState,
    identities_after: IdentityState,
    log: Seq<Event>,
    log_after: Seq<Event>,
    asked: Seq<Asked>,
    asked_after: Seq<Asked>,
    done: Result<(StatementStats, StepReceipt, WriteTxn, CompletionStep), Fault>,
) -> bool {
    exists|
        read: WriteTxn,
        middle: Seq<Event>,
        collected: Result<(StepProposal, StatementStats), Fault>,
    |
        {
            &&& #[trigger] collects(
                opened,
                read,
                database,
                0,
                prepared,
                scope,
                identities,
                identities_after,
                log,
                middle,
                asked,
                asked_after,
                collected,
            )
            &&& match collected {
                Err(fault) => failure(done) == Some(fault) && log_after == middle,
                Ok((proposal, stats)) => exists|
                    run: StatementRun,
                    ended: Result<(StepReceipt, WriteTxn, CompletionStep), Fault>,
                |
                    {
                        &&& #[trigger] executes(
                            read,
                            database,
                            proposal,
                            returning,
                            scope,
                            metered,
                            middle,
                            log_after,
                            run,
                            ended,
                        )
                        &&& done == (match ended {
                            Ok((receipt, after, step)) => Ok(
                                (final_stats(stats, receipt), receipt, after, step),
                            ),
                            Err(fault) => Err(fault),
                        })
                    },
            }
        }
}

/// How an authorized statement runs, whatever the host and the collector answer.
pub open spec fn runs_statement(
    database: Database,
    namespace: u64,
    verified: Result<Predicates, Denial>,
    reading: bool,
    relation: Option<RelationId>,
    prepared: Prepared,
    returning: bool,
    metered: Metering,
    identities: IdentityState,
    identities_after: IdentityState,
    log: Seq<Event>,
    log_after: Seq<Event>,
    asked: Seq<Asked>,
    asked_after: Seq<Asked>,
    done: Result<(StatementStats, StepReceipt, WriteTxn, CompletionStep), Fault>,
) -> bool {
    let gate = whole(
        opening_steps(database, namespace, verified, reading, relation, false),
    ).lift(source());
    ||| done is Err && asked_after == asked && identities_after == identities && obeys(
        log,
        log_after,
        gate,
        source(),
        failure(done),
    )
    ||| exists|opened: WriteTxn, middle: Seq<Event>|
        {
            &&& #[trigger] obeys(log, middle, gate, source(), None)
            &&& begun(opened, database)
            &&& verified is Ok
            &&& #[trigger] continues_statement(
                opened,
                database,
                prepared,
                returning,
                verified->Ok_0,
                metered,
                identities,
                identities_after,
                middle,
                log_after,
                asked,
                asked_after,
                done,
            )
        }
}

/// A vertex MERGE whose workspace is open: what collecting it came to, staged and
/// completed.
pub open spec fn continues_vertex_merge(
    opened: WriteTxn,
    database: Database,
    prepared: Prepared,
    scope: Predicates,
    metered: Metering,
    identities: IdentityState,
    identities_after: IdentityState,
    log: Seq<Event>,
    log_after: Seq<Event>,
    asked: Seq<Asked>,
    asked_after: Seq<Asked>,
    done: Result<(StatementStats, VId, bool, WriteTxn, CompletionStep), Fault>,
) -> bool {
    exists|
        read: WriteTxn,
        middle: Seq<Event>,
        collected: Result<(StepProposal, StatementStats), Fault>,
    |
        {
            &&& #[trigger] collects(
                opened,
                read,
                database,
                0,
                prepared,
                scope,
                identities,
                identities_after,
                log,
                middle,
                asked,
                asked_after,
                collected,
            )
            &&& match collected {
                Err(fault) => failure(done) == Some(fault) && log_after == middle,
                Ok((StepProposal::VertexMerge { relation, creation, vertex, created }, stats)) => exists|
                    applied: WriteTxn,
                    log_applied: Seq<Event>,
                    failed: Option<Fault>,
                    ended: Result<(WriteTxn, CompletionStep), Fault>,
                |
                    {
                        &&& #[trigger] runs(
                            insert_rows(relation, creation@),
                            lead_plan(Lead::Poll, insert_rows(relation, creation@)),
                            source(),
                            read,
                            applied,
                            database,
                            scope,
                            middle,
                            log_applied,
                            failed,
                        )
                        &&& #[trigger] finishes(
                            applied,
                            database,
                            metered,
                            log_applied,
                            log_after,
                            failed,
                            ended,
                        )
                        &&& done == (match ended {
                            Ok((after, step)) => Ok((stats, vertex, created, after, step)),
                            Err(fault) => Err(fault),
                        })
                    },
                Ok(_) => false,
            }
        }
}

/// How an authorized vertex MERGE runs, whatever the host and the collector answer.
/// Its one result row is paid before the graph is read.
pub open spec fn runs_vertex_merge(
    database: Database,
    namespace: u64,
    verified: Result<Predicates, Denial>,
    statement: Statement,
    metered: Metering,
    identities: IdentityState,
    identities_after: IdentityState,
    log: Seq<Event>,
    log_after: Seq<Event>,
    asked: Seq<Asked>,
    asked_after: Seq<Asked>,
    done: Result<(StatementStats, VId, bool, WriteTxn, CompletionStep), Fault>,
) -> bool {
    let gate = whole(opening_steps(database, namespace, verified, true, None, true)).lift(source());
    ||| done is Err && asked_after == asked && identities_after == identities && obeys(
        log,
        log_after,
        gate,
        source(),
        failure(done),
    )
    ||| exists|opened: WriteTxn, middle: Seq<Event>|
        {
            &&& #[trigger] obeys(log, middle, gate, source(), None)
            &&& begun(opened, database)
            &&& verified is Ok
            &&& #[trigger] continues_vertex_merge(
                opened,
                database,
                Prepared { kind: StatementKind::VertexMerge, statement },
                verified->Ok_0,
                metered,
                identities,
                identities_after,
                middle,
                log_after,
                asked,
                asked_after,
                done,
            )
        }
}

impl Database {
    /// Match or create one vertex. The outcome and whether it was created come back.
    pub fn prepare_graph_vertex_merge_authorized<C: Collector, H: Host>(
        &self,
        namespace: u64,
        verified: &Result<Predicates, Denial>,
        statement: Statement,
        identities: &mut IdentityState,
        collector: &mut Recorder<C>,
        session: &mut Session<H>,
    ) -> (done: Result<(StatementStats, VId, bool, WriteTxn, CompletionStep), Fault>)
        requires
            self.wf(),
        ensures
            final(session).metered() == old(session).metered(),
            done matches Ok((_, _, _, ended, step)) ==> ready(ended, *self, step),
            runs_vertex_merge(
                *self,
                namespace,
                *verified,
                statement,
                old(session).metered(),
                *old(identities),
                *final(identities),
                old(session).log(),
                final(session).log(),
                old(collector).asked(),
                final(collector).asked(),
                done,
            ),
    {
        let ghost start = session.log();
        let ghost metered = session.metered();
        let ghost ids = *identities;
        let ghost asked = collector.asked();
        let prepared = Prepared { kind: StatementKind::VertexMerge, statement };
        let ghost gate = whole(opening_steps(*self, namespace, *verified, true, None, true));
        let opening = self.open_authorized(namespace, verified, true, None, true, session);
        let ghost middle = session.log();
        proof {
            lemma_obeys_lift(start, middle, gate, source(), failure(opening));
        }
        let mut transaction = match opening {
            Ok(transaction) => transaction,
            Err(error) => return Err(Fault::Source(error)),
        };
        let ghost opened = transaction;
        let scope = match verified {
            Ok(scope) => scope,
            Err(denial) => {
                proof {
                    lemma_unverified(
                        *self, namespace, *verified, true, None, true, start, middle,
                    );
                }
                return Err(Fault::Source(WriteTxnError::Authorization(*denial)));
            },
        };
        let collected = transaction.collect(
            self,
            0,
            &prepared,
            scope,
            identities,
            collector,
            session,
        );
        let ghost read = transaction;
        let ghost log_read = session.log();
        let ghost kept = collected;
        assert(obeys(start, middle, gate.lift(source()), source(), None));
        assert(collects(
            opened, read, *self, 0, prepared, *scope, ids, *identities, middle, log_read, asked,
            collector.asked(), kept,
        ));
        let (proposal, stats) = match collected {
            Ok(collected) => collected,
            Err(fault) => {
                assert(continues_vertex_merge(
                    opened, *self, prepared, *scope, metered, ids, *identities, middle,
                    session.log(), asked, collector.asked(), Err(fault),
                ));
                return Err(fault);
            },
        };
        match proposal {
            StepProposal::VertexMerge { relation, creation, vertex, created } => {
                let ghost rows = insert_rows(relation, creation@);
                let ended = self.complete_vertex_merge(
                    transaction,
                    relation,
                    creation,
                    scope,
                    session,
                );
                let ghost closed = ended;
                let done = match ended {
                    Ok((after, step)) => Ok((stats, vertex, created, after, step)),
                    Err(fault) => Err(fault),
                };
                proof {
                    let (applied, log_applied, failed) = choose|
                        applied: WriteTxn,
                        log_applied: Seq<Event>,
                        failed: Option<Fault>,
                    |
                        {
                            &&& #[trigger] runs(
                                rows, lead_plan(Lead::Poll, rows), source(), read, applied, *self,
                                *scope, log_read, log_applied, failed,
                            )
                            &&& finishes(
                                applied, *self, metered, log_applied, session.log(), failed,
                                closed,
                            )
                        };
                    assert(runs(
                        rows, lead_plan(Lead::Poll, rows), source(), read, applied, *self, *scope,
                        log_read, log_applied, failed,
                    ));
                    assert(finishes(
                        applied, *self, metered, log_applied, session.log(), failed, closed,
                    ));
                    assert(continues_vertex_merge(
                        opened, *self, prepared, *scope, metered, ids, *identities, middle,
                        session.log(), asked, collector.asked(), done,
                    ));
                }
                done
            },
            _ => {
                assert(false);
                Err(Fault::InvalidSourceShape)
            },
        }
    }
}

impl Database {
    fn statement_authorized_inner<C: Collector, H: Host>(
        &self,
        namespace: u64,
        verified: &Result<Predicates, Denial>,
        reading: bool,
        relation: Option<RelationId>,
        prepared: Prepared,
        returning: bool,
        identities: &mut IdentityState,
        collector: &mut Recorder<C>,
        session: &mut Session<H>,
    ) -> (done: Result<(StatementStats, StepReceipt, WriteTxn, CompletionStep), Fault>)
        requires
            self.wf(),
        ensures
            final(session).metered() == old(session).metered(),
            done matches Ok((_, _, ended, step)) ==> ready(ended, *self, step),
            runs_statement(
                *self,
                namespace,
                *verified,
                reading,
                relation,
                prepared,
                returning,
                old(session).metered(),
                *old(identities),
                *final(identities),
                old(session).log(),
                final(session).log(),
                old(collector).asked(),
                final(collector).asked(),
                done,
            ),
    {
        let ghost start = session.log();
        let ghost metered = session.metered();
        let ghost ids = *identities;
        let ghost asked = collector.asked();
        let ghost gate = whole(
            opening_steps(*self, namespace, *verified, reading, relation, false),
        );
        let opening = self.open_authorized(namespace, verified, reading, relation, false, session);
        let ghost middle = session.log();
        proof {
            lemma_obeys_lift(start, middle, gate, source(), failure(opening));
        }
        let mut transaction = match opening {
            Ok(transaction) => transaction,
            Err(error) => return Err(Fault::Source(error)),
        };
        let ghost opened = transaction;
        let scope = match verified {
            Ok(scope) => scope,
            Err(denial) => {
                proof {
                    lemma_unverified(
                        *self, namespace, *verified, reading, relation, false, start, middle,
                    );
                }
                return Err(Fault::Source(WriteTxnError::Authorization(*denial)));
            },
        };
        let collected = transaction.collect(
            self,
            0,
            &prepared,
            scope,
            identities,
            collector,
            session,
        );
        let ghost read = transaction;
        let ghost log_read = session.log();
        let ghost kept = collected;
        assert(obeys(start, middle, gate.lift(source()), source(), None));
        assert(collects(
            opened, read, *self, 0, prepared, *scope, ids, *identities, middle, log_read, asked,
            collector.asked(), kept,
        ));
        let (proposal, stats) = match collected {
            Ok(collected) => collected,
            Err(fault) => {
                assert(continues_statement(
                    opened, *self, prepared, returning, *scope, metered, ids, *identities, middle,
                    session.log(), asked, collector.asked(), Err(fault),
                ));
                return Err(fault);
            },
        };
        let ghost given = proposal;
        let ended = self.execute_statement(transaction, proposal, returning, scope, session);
        let ghost closed = ended;
        let done = match ended {
            Ok((receipt, after, step)) => {
                let counted = match &receipt {
                    StepReceipt::Deleted { stats: usage, .. } => StatementStats {
                        usage: *usage,
                        ..stats
                    },
                    _ => stats,
                };
                Ok((counted, receipt, after, step))
            },
            Err(fault) => Err(fault),
        };
        proof {
            let run = choose|run: StatementRun| #[trigger]
                executes(
                    read, *self, given, returning, *scope, metered, log_read, session.log(), run,
                    closed,
                );
            assert(executes(
                read, *self, given, returning, *scope, metered, log_read, session.log(), run,
                closed,
            ));
            assert(continues_statement(
                opened, *self, prepared, returning, *scope, metered, ids, *identities, middle,
                session.log(), asked, collector.asked(), done,
            ));
        }
        done
    }

    /// Update what a MATCH selects.
    pub fn prepare_graph_mutation_authorized<C: Collector, H: Host>(
        &self,
        namespace: u64,
        verified: &Result<Predicates, Denial>,
        statement: Statement,
        identities: &mut IdentityState,
        collector: &mut Recorder<C>,
        session: &mut Session<H>,
    ) -> (done: Result<(StatementStats, StepReceipt, WriteTxn, CompletionStep), Fault>)
        requires
            self.wf(),
        ensures
            final(session).metered() == old(session).metered(),
            done matches Ok((_, _, ended, step)) ==> ready(ended, *self, step),
            runs_statement(
                *self,
                namespace,
                *verified,
                true,
                None,
                Prepared { kind: StatementKind::Mutation, statement },
                false,
                old(session).metered(),
                *old(identities),
                *final(identities),
                old(session).log(),
                final(session).log(),
                old(collector).asked(),
                final(collector).asked(),
                done,
            ),
    {
        self.statement_authorized_inner(
            namespace,
            verified,
            true,
            None,
            Prepared { kind: StatementKind::Mutation, statement },
            false,
            identities,
            collector,
            session,
        )
    }

    /// Update what a MATCH selects, and return the identities.
    pub fn prepare_graph_mutation_returning_authorized<C: Collector, H: Host>(
        &self,
        namespace: u64,
        verified: &Result<Predicates, Denial>,
        statement: Statement,
        identities: &mut IdentityState,
        collector: &mut Recorder<C>,
        session: &mut Session<H>,
    ) -> (done: Result<(StatementStats, StepReceipt, WriteTxn, CompletionStep), Fault>)
        requires
            self.wf(),
        ensures
            final(session).metered() == old(session).metered(),
            done matches Ok((_, _, ended, step)) ==> ready(ended, *self, step),
            runs_statement(
                *self,
                namespace,
                *verified,
                true,
                None,
                Prepared { kind: StatementKind::Mutation, statement },
                true,
                old(session).metered(),
                *old(identities),
                *final(identities),
                old(session).log(),
                final(session).log(),
                old(collector).asked(),
                final(collector).asked(),
                done,
            ),
    {
        self.statement_authorized_inner(
            namespace,
            verified,
            true,
            None,
            Prepared { kind: StatementKind::Mutation, statement },
            true,
            identities,
            collector,
            session,
        )
    }

    /// Create what a statement describes, for each match where it selects.
    pub fn prepare_graph_insert_authorized<C: Collector, H: Host>(
        &self,
        namespace: u64,
        verified: &Result<Predicates, Denial>,
        selects: bool,
        statement: Statement,
        identities: &mut IdentityState,
        collector: &mut Recorder<C>,
        session: &mut Session<H>,
    ) -> (done: Result<(StatementStats, StepReceipt, WriteTxn, CompletionStep), Fault>)
        requires
            self.wf(),
        ensures
            final(session).metered() == old(session).metered(),
            done matches Ok((_, _, ended, step)) ==> ready(ended, *self, step),
            runs_statement(
                *self,
                namespace,
                *verified,
                selects,
                None,
                Prepared { kind: StatementKind::Insert { selects }, statement },
                false,
                old(session).metered(),
                *old(identities),
                *final(identities),
                old(session).log(),
                final(session).log(),
                old(collector).asked(),
                final(collector).asked(),
                done,
            ),
    {
        self.statement_authorized_inner(
            namespace,
            verified,
            selects,
            None,
            Prepared { kind: StatementKind::Insert { selects }, statement },
            false,
            identities,
            collector,
            session,
        )
    }

    /// Create what a statement describes, for each match where it selects, and return the identities.
    pub fn prepare_graph_insert_returning_authorized<C: Collector, H: Host>(
        &self,
        namespace: u64,
        verified: &Result<Predicates, Denial>,
        selects: bool,
        statement: Statement,
        identities: &mut IdentityState,
        collector: &mut Recorder<C>,
        session: &mut Session<H>,
    ) -> (done: Result<(StatementStats, StepReceipt, WriteTxn, CompletionStep), Fault>)
        requires
            self.wf(),
        ensures
            final(session).metered() == old(session).metered(),
            done matches Ok((_, _, ended, step)) ==> ready(ended, *self, step),
            runs_statement(
                *self,
                namespace,
                *verified,
                selects,
                None,
                Prepared { kind: StatementKind::Insert { selects }, statement },
                true,
                old(session).metered(),
                *old(identities),
                *final(identities),
                old(session).log(),
                final(session).log(),
                old(collector).asked(),
                final(collector).asked(),
                done,
            ),
    {
        self.statement_authorized_inner(
            namespace,
            verified,
            selects,
            None,
            Prepared { kind: StatementKind::Insert { selects }, statement },
            true,
            identities,
            collector,
            session,
        )
    }

    /// Delete what a MATCH selects, without detaching.
    pub fn prepare_graph_delete_authorized<C: Collector, H: Host>(
        &self,
        namespace: u64,
        verified: &Result<Predicates, Denial>,
        statement: Statement,
        identities: &mut IdentityState,
        collector: &mut Recorder<C>,
        session: &mut Session<H>,
    ) -> (done: Result<(StatementStats, StepReceipt, WriteTxn, CompletionStep), Fault>)
        requires
            self.wf(),
        ensures
            final(session).metered() == old(session).metered(),
            done matches Ok((_, _, ended, step)) ==> ready(ended, *self, step),
            runs_statement(
                *self,
                namespace,
                *verified,
                true,
                None,
                Prepared { kind: StatementKind::Delete, statement },
                false,
                old(session).metered(),
                *old(identities),
                *final(identities),
                old(session).log(),
                final(session).log(),
                old(collector).asked(),
                final(collector).asked(),
                done,
            ),
    {
        self.statement_authorized_inner(
            namespace,
            verified,
            true,
            None,
            Prepared { kind: StatementKind::Delete, statement },
            false,
            identities,
            collector,
            session,
        )
    }

    /// Delete what a MATCH selects, without detaching, and return the identities.
    pub fn prepare_graph_delete_returning_authorized<C: Collector, H: Host>(
        &self,
        namespace: u64,
        verified: &Result<Predicates, Denial>,
        statement: Statement,
        identities: &mut IdentityState,
        collector: &mut Recorder<C>,
        session: &mut Session<H>,
    ) -> (done: Result<(StatementStats, StepReceipt, WriteTxn, CompletionStep), Fault>)
        requires
            self.wf(),
        ensures
            final(session).metered() == old(session).metered(),
            done matches Ok((_, _, ended, step)) ==> ready(ended, *self, step),
            runs_statement(
                *self,
                namespace,
                *verified,
                true,
                None,
                Prepared { kind: StatementKind::Delete, statement },
                true,
                old(session).metered(),
                *old(identities),
                *final(identities),
                old(session).log(),
                final(session).log(),
                old(collector).asked(),
                final(collector).asked(),
                done,
            ),
    {
        self.statement_authorized_inner(
            namespace,
            verified,
            true,
            None,
            Prepared { kind: StatementKind::Delete, statement },
            true,
            identities,
            collector,
            session,
        )
    }
}

/// One statement of a program.
pub open spec fn steps_program(
    before: WriteProgram,
    read: WriteProgram,
    after: WriteProgram,
    database: Database,
    proposal: StepProposal,
    stats: StatementStats,
    scope: Predicates,
    log: Seq<Event>,
    log_after: Seq<Event>,
    done: Result<(), Fault>,
) -> bool {
    &&& read.stats == before.stats
    &&& read.receipts == before.receipts
    &&& read.returning == before.returning
    &&& exists|
        log_staged: Seq<Event>,
        failed: Option<Fault>,
        receipt: Result<StepReceipt, Fault>,
    |
        {
            &&& #[trigger] steps_once(
                read.transaction,
                after.transaction,
                database,
                proposal,
                before.returning,
                scope,
                log,
                log_staged,
                log_after,
                failed,
                receipt,
            )
            &&& failure(done) == failure(receipt)
            &&& receipt matches Ok(step) ==> {
                &&& after.stats == before.stats.and(stats)
                &&& after.receipts@ == (if before.returning {
                    before.receipts@.push(step)
                } else {
                    before.receipts@
                })
            }
        }
}

/// The states, logs, allocator states, questions and proposals of a program that went
/// well so far.
pub struct ProgramTrace {
    pub states: Seq<WriteProgram>,
    pub reads: Seq<WriteProgram>,
    pub logs: Seq<Seq<Event>>,
    pub middles: Seq<Seq<Event>>,
    pub identities: Seq<IdentityState>,
    pub asked: Seq<Seq<Asked>>,
    pub proposals: Seq<(StepProposal, StatementStats)>,
}

/// Statement `k` of a trace was collected under the scope and went well.
pub open spec fn traces_step(
    trace: ProgramTrace,
    k: int,
    database: Database,
    scope: Predicates,
    statements: Seq<Prepared>,
) -> bool {
    &&& collects(
        trace.states[k].transaction,
        trace.reads[k].transaction,
        database,
        k,
        statements[k],
        scope,
        trace.identities[k],
        trace.identities[k + 1],
        trace.logs[k],
        trace.middles[k],
        trace.asked[k],
        trace.asked[k + 1],
        Ok(trace.proposals[k]),
    )
    &&& steps_program(
        trace.states[k],
        trace.reads[k],
        trace.states[k + 1],
        database,
        trace.proposals[k].0,
        trace.proposals[k].1,
        scope,
        trace.middles[k],
        trace.logs[k + 1],
        Ok::<(), Fault>(()),
    )
}

/// The trace ran `n` statements, each after the ones before it.
pub open spec fn traces_program(
    trace: ProgramTrace,
    n: int,
    database: Database,
    scope: Predicates,
    statements: Seq<Prepared>,
) -> bool {
    &&& trace.states.len() == n + 1
    &&& trace.logs.len() == n + 1
    &&& trace.identities.len() == n + 1
    &&& trace.asked.len() == n + 1
    &&& trace.reads.len() == n
    &&& trace.middles.len() == n
    &&& trace.proposals.len() == n
    &&& forall|k: int| 0 <= k < n ==> #[trigger] traces_step(trace, k, database, scope, statements)
}

/// Why a program did not complete. Nothing of it is published.
#[derive(Clone, Copy, PartialEq, Eq, Structural, Debug)]
pub enum ProgramFault {
    /// It was refused before its workspace opened.
    Open(Fault),
    /// A statement failed after this many had finished.
    Step { completed: u64, fault: Fault },
    /// Its completion was refused.
    Interrupted(ProgramInterrupted),
}

/// A program whose first `n` statements went well, and what ended it.
pub open spec fn ends_program(
    trace: ProgramTrace,
    n: int,
    statements: Seq<Prepared>,
    database: Database,
    scope: Predicates,
    metered: Metering,
    identities_after: IdentityState,
    log_after: Seq<Event>,
    asked_after: Seq<Asked>,
    done: Result<(ProgramStats, Vec<StepReceipt>, WriteTxn, CompletionStep), ProgramFault>,
) -> bool {
    let last = trace.states[n];
    let log = trace.logs[n];
    match done {
        Ok((stats, receipts, ended, step)) => {
            &&& n == statements.len()
            &&& stats == last.stats
            &&& identities_after == trace.identities[n]
            &&& asked_after == trace.asked[n]
            &&& receipts == last.receipts
            &&& closes(
                last.transaction,
                ended,
                database,
                false,
                metered,
                log,
                log_after,
                Ok::<CompletionStep, WriteTxnError>(step),
            )
        },
        Err(ProgramFault::Interrupted(stopped)) => {
            &&& n == statements.len()
            &&& identities_after == trace.identities[n]
            &&& asked_after == trace.asked[n]
            &&& stopped.completed_statements == last.stats.completed_statements
            &&& exists|ended: WriteTxn| #[trigger]
                closes(
                    last.transaction,
                    ended,
                    database,
                    false,
                    metered,
                    log,
                    log_after,
                    Err::<CompletionStep, WriteTxnError>(stopped.source),
                )
        },
        Err(ProgramFault::Step { completed, fault }) => {
            &&& n < statements.len()
            &&& completed == last.stats.completed_statements
            &&& exists|
                read: WriteProgram,
                middle: Seq<Event>,
                collected: Result<(StepProposal, StatementStats), Fault>,
            |
                {
                    &&& #[trigger] collects(
                        last.transaction,
                        read.transaction,
                        database,
                        n,
                        statements[n],
                        scope,
                        trace.identities[n],
                        identities_after,
                        log,
                        middle,
                        trace.asked[n],
                        asked_after,
                        collected,
                    )
                    &&& match collected {
                        Err(refusal) => fault == refusal && log_after == middle,
                        Ok((proposal, stats)) => exists|after: WriteProgram| #[trigger]
                            steps_program(
                                last,
                                read,
                                after,
                                database,
                                proposal,
                                stats,
                                scope,
                                middle,
                                log_after,
                                Err::<(), Fault>(fault),
                            ),
                    }
                }
        },
        Err(ProgramFault::Open(_)) => false,
    }
}

/// A program whose workspace is open: its statements run one after the other, and
/// it is completed once.
pub open spec fn continues_program(
    opened: WriteProgram,
    database: Database,
    statements: Seq<Prepared>,
    scope: Predicates,
    metered: Metering,
    identities: IdentityState,
    identities_after: IdentityState,
    log: Seq<Event>,
    log_after: Seq<Event>,
    asked: Seq<Asked>,
    asked_after: Seq<Asked>,
    done: Result<(ProgramStats, Vec<StepReceipt>, WriteTxn, CompletionStep), ProgramFault>,
) -> bool {
    exists|trace: ProgramTrace, n: int|
        {
            &&& 0 <= n <= statements.len()
            &&& #[trigger] traces_program(trace, n, database, scope, statements)
            &&& trace.states[0] == opened
            &&& trace.logs[0] == log
            &&& trace.identities[0] == identities
            &&& trace.asked[0] == asked
            &&& ends_program(
                trace,
                n,
                statements,
                database,
                scope,
                metered,
                identities_after,
                log_after,
                asked_after,
                done,
            )
        }
}

/// How an authorized program runs, whatever the host and the collector answer: all
/// of its shape is decided before a workspace opens.
pub open spec fn runs_program(
    database: Database,
    namespace: u64,
    verified: Result<Predicates, Denial>,
    statements: Seq<Prepared>,
    returning: bool,
    metered: Metering,
    identities: IdentityState,
    identities_after: IdentityState,
    log: Seq<Event>,
    log_after: Seq<Event>,
    asked: Seq<Asked>,
    asked_after: Seq<Asked>,
    done: Result<(ProgramStats, Vec<StepReceipt>, WriteTxn, CompletionStep), ProgramFault>,
) -> bool {
    let gate = whole(program_steps(database, namespace, verified, kinds_of(statements))).lift(
        preflighted(),
    );
    ||| exists|fault: Fault|
        {
            &&& #[trigger] obeys(log, log_after, gate, preflighted(), Some(fault))
            &&& asked_after == asked
            &&& identities_after == identities
            &&& failure(done) == Some(ProgramFault::Open(fault))
        }
    ||| exists|opened: WriteProgram, middle: Seq<Event>|
        {
            &&& #[trigger] obeys(log, middle, gate, preflighted(), None)
            &&& verified is Ok
            &&& opened.stats == ProgramStats::none()
            &&& opened.receipts@.len() == 0
            &&& opened.returning == returning
            &&& opened.transaction.program_multi_relation
            &&& begun(
                WriteTxn { program_multi_relation: false, ..opened.transaction },
                database,
            )
            &&& #[trigger] continues_program(
                opened,
                database,
                statements,
                verified->Ok_0,
                metered,
                identities,
                identities_after,
                middle,
                log_after,
                asked,
                asked_after,
                done,
            )
        }
}

/// How an authorized mutation program runs: read and write rights first, then one
/// mutation after the other in one workspace of one relation at a time.
pub open spec fn runs_mutations(
    database: Database,
    namespace: u64,
    verified: Result<Predicates, Denial>,
    statements: Seq<Statement>,
    metered: Metering,
    identities: IdentityState,
    identities_after: IdentityState,
    log: Seq<Event>,
    log_after: Seq<Event>,
    asked: Seq<Asked>,
    asked_after: Seq<Asked>,
    done: Result<(ProgramStats, Vec<StepReceipt>, WriteTxn, CompletionStep), ProgramFault>,
) -> bool {
    let gate = whole(opening_steps(database, namespace, verified, true, None, false)).lift(
        preflighted(),
    );
    ||| exists|fault: Fault|
        {
            &&& #[trigger] obeys(log, log_after, gate, preflighted(), Some(fault))
            &&& asked_after == asked
            &&& identities_after == identities
            &&& failure(done) == Some(ProgramFault::Open(fault))
        }
    ||| exists|opened: WriteProgram, middle: Seq<Event>|
        {
            &&& #[trigger] obeys(log, middle, gate, preflighted(), None)
            &&& verified is Ok
            &&& opened.stats == ProgramStats::none()
            &&& opened.receipts@.len() == 0
            &&& !opened.returning
            &&& begun(opened.transaction, database)
            &&& #[trigger] continues_program(
                opened,
                database,
                mutations(statements),
                verified->Ok_0,
                metered,
                identities,
                identities_after,
                middle,
                log_after,
                asked,
                asked_after,
                done,
            )
        }
}

/// A program of mutations alone.
pub open spec fn mutations(statements: Seq<Statement>) -> Seq<Prepared> {
    Seq::new(
        statements.len(),
        |i: int| Prepared { kind: StatementKind::Mutation, statement: statements[i] },
    )
}

/// The kinds of the statements of a program.
pub open spec fn kinds_of(statements: Seq<Prepared>) -> Seq<StatementKind> {
    Seq::new(statements.len(), |i: int| statements[i].kind)
}

fn list_mutations(statements: &Vec<Statement>) -> (prepared: Vec<Prepared>)
    ensures
        prepared@ == mutations(statements@),
{
    let mut prepared: Vec<Prepared> = Vec::new();
    let mut i: usize = 0;
    while i < statements.len()
        invariant
            i <= statements.len(),
            prepared@ =~= mutations(statements@.take(i as int)),
        decreases statements.len() - i,
    {
        prepared.push(Prepared { kind: StatementKind::Mutation, statement: statements[i] });
        i += 1;
    }
    assert(statements@.take(i as int) =~= statements@);
    prepared
}

fn list_kinds(statements: &Vec<Prepared>) -> (kinds: Vec<StatementKind>)
    ensures
        kinds@ == kinds_of(statements@),
{
    let mut kinds: Vec<StatementKind> = Vec::new();
    let mut i: usize = 0;
    while i < statements.len()
        invariant
            i <= statements.len(),
            kinds@ =~= kinds_of(statements@.take(i as int)),
        decreases statements.len() - i,
    {
        kinds.push(statements[i].kind);
        i += 1;
    }
    assert(statements@.take(i as int) =~= statements@);
    kinds
}

impl Database {
    /// Run the statements of an open program, then complete it.
    fn run_steps<C: Collector, H: Host>(
        &self,
        opened: WriteProgram,
        statements: &Vec<Prepared>,
        scope: &Predicates,
        identities: &mut IdentityState,
        collector: &mut Recorder<C>,
        session: &mut Session<H>,
    ) -> (done: Result<(ProgramStats, Vec<StepReceipt>, WriteTxn, CompletionStep), ProgramFault>)
        requires
            self.wf(),
            opened.transaction.wf(),
            opened.stats == ProgramStats::none(),
        ensures
            final(session).metered() == old(session).metered(),
            done matches Ok((_, _, ended, step)) ==> ready(ended, *self, step),
            continues_program(
                opened,
                *self,
                statements@,
                *scope,
                old(session).metered(),
                *old(identities),
                *final(identities),
                old(session).log(),
                final(session).log(),
                old(collector).asked(),
                final(collector).asked(),
                done,
            ),
    {
        let ghost metered = session.metered();
        let ghost mut trace = ProgramTrace {
            states: seq![opened],
            reads: Seq::empty(),
            logs: seq![session.log()],
            middles: Seq::empty(),
            identities: seq![*identities],
            asked: seq![collector.asked()],
            proposals: Seq::empty(),
        };
        let mut program = opened;
        let mut i: usize = 0;
        while i < statements.len()
            invariant
                i <= statements.len(),
                self.wf(),
                metered == old(session).metered(),
                session.metered() == metered,
                program.transaction.wf(),
                program.stats.wf(),
                program.stats.completed_statements == i,
                traces_program(trace, i as int, *self, *scope, statements@),
                trace.states[0] == opened,
                trace.logs[0] == old(session).log(),
                trace.identities[0] == *old(identities),
                trace.asked[0] == old(collector).asked(),
                trace.states[i as int] == program,
                trace.logs[i as int] == session.log(),
                trace.identities[i as int] == *identities,
                trace.asked[i as int] == collector.asked(),
            decreases statements.len() - i,
        {
            let ghost before = program;
            let ghost log = session.log();
            let ghost ids = *identities;
            let ghost asked = collector.asked();
            let collected = program.transaction.collect(
                self,
                i,
                &statements[i],
                scope,
                identities,
                collector,
                session,
            );
            let ghost read = program;
            let ghost middle = session.log();
            let ghost kept = collected;
            assert(collects(
                before.transaction, read.transaction, *self, i as int, statements@[i as int],
                *scope, ids, *identities, log, middle, asked, collector.asked(), kept,
            ));
            let (proposal, stats) = match collected {
                Ok(collected) => collected,
                Err(fault) => {
                    assert(traces_program(trace, i as int, *self, *scope, statements@));
                    return Err(
                        ProgramFault::Step { completed: program.stats.completed_statements, fault },
                    );
                },
            };
            let ghost given = proposal;
            let stepped = program.step(self, proposal, stats, scope, session);
            assert(steps_program(
                before, read, program, *self, given, stats, *scope, middle, session.log(), stepped,
            ));
            if let Err(fault) = stepped {
                assert(traces_program(trace, i as int, *self, *scope, statements@));
                return Err(
                    ProgramFault::Step { completed: program.stats.completed_statements, fault },
                );
            }
            proof {
                let earlier = trace;
                trace = ProgramTrace {
                    states: trace.states.push(program),
                    reads: trace.reads.push(read),
                    logs: trace.logs.push(session.log()),
                    middles: trace.middles.push(middle),
                    identities: trace.identities.push(*identities),
                    asked: trace.asked.push(collector.asked()),
                    proposals: trace.proposals.push((given, stats)),
                };
                assert forall|k: int| 0 <= k < i + 1 implies #[trigger] traces_step(
                    trace,
                    k,
                    *self,
                    *scope,
                    statements@,
                ) by {
                    if k < i {
                        assert(traces_step(earlier, k, *self, *scope, statements@));
                    }
                }
            }
            i += 1;
        }
        let ghost last = program;
        let ghost log_last = session.log();
        let finished = program.finish(self, session);
        assert(traces_program(trace, i as int, *self, *scope, statements@));
        match finished {
            Ok(step) => Ok((program.stats, program.receipts, program.transaction, step)),
            Err(stopped) => {
                assert(closes(
                    last.transaction, program.transaction, *self, false, metered, log_last,
                    session.log(), Err::<CompletionStep, WriteTxnError>(stopped.source),
                ));
                Err(ProgramFault::Interrupted(stopped))
            },
        }
    }

    /// Run a write program in one private workspace and complete it once.
    fn write_program_authorized_inner<C: Collector, H: Host>(
        &self,
        namespace: u64,
        verified: &Result<Predicates, Denial>,
        statements: &Vec<Prepared>,
        returning: bool,
        identities: &mut IdentityState,
        collector: &mut Recorder<C>,
        session: &mut Session<H>,
    ) -> (done: Result<(ProgramStats, Vec<StepReceipt>, WriteTxn, CompletionStep), ProgramFault>)
        requires
            self.wf(),
        ensures
            final(session).metered() == old(session).metered(),
            done matches Ok((_, _, ended, step)) ==> ready(ended, *self, step),
            runs_program(
                *self,
                namespace,
                *verified,
                statements@,
                returning,
                old(session).metered(),
                *old(identities),
                *final(identities),
                old(session).log(),
                final(session).log(),
                old(collector).asked(),
                final(collector).asked(),
                done,
            ),
    {
        let ghost start = session.log();
        let kinds = list_kinds(statements);
        let ghost gate = whole(program_steps(*self, namespace, *verified, kinds@)).lift(
            preflighted(),
        );
        let opening = self.open_write_program(namespace, verified, &kinds, returning, session);
        let ghost middle = session.log();
        assert(obeys(start, middle, gate, preflighted(), failure(opening)));
        let program = match opening {
            Ok(program) => program,
            Err(fault) => return Err(ProgramFault::Open(fault)),
        };
        let scope = match verified {
            Ok(scope) => scope,
            Err(denial) => {
                proof {
                    lemma_unverified_program(*self, namespace, *verified, kinds@, start, middle);
                }
                return Err(
                    ProgramFault::Open(Fault::Preflight(WriteTxnError::Authorization(*denial))),
                );
            },
        };
        let ghost opened = program;
        let ghost asked = collector.asked();
        let ghost ids = *identities;
        let done = self.run_steps(program, statements, scope, identities, collector, session);
        assert(continues_program(
            opened, *self, statements@, *scope, session.metered(), ids, *identities, middle,
            session.log(), asked, collector.asked(), done,
        ));
        done
    }

    /// Run a program of mutations in one private workspace and complete it once.
    pub fn prepare_graph_mutation_program_authorized<C: Collector, H: Host>(
        &self,
        namespace: u64,
        verified: &Result<Predicates, Denial>,
        statements: &Vec<Statement>,
        identities: &mut IdentityState,
        collector: &mut Recorder<C>,
        session: &mut Session<H>,
    ) -> (done: Result<(ProgramStats, Vec<StepReceipt>, WriteTxn, CompletionStep), ProgramFault>)
        requires
            self.wf(),
        ensures
            final(session).metered() == old(session).metered(),
            done matches Ok((_, _, ended, step)) ==> ready(ended, *self, step),
            runs_mutations(
                *self,
                namespace,
                *verified,
                statements@,
                old(session).metered(),
                *old(identities),
                *final(identities),
                old(session).log(),
                final(session).log(),
                old(collector).asked(),
                final(collector).asked(),
                done,
            ),
    {
        let ghost start = session.log();
        let ghost plain = whole(opening_steps(*self, namespace, *verified, true, None, false));
        let opening = self.open_authorized(namespace, verified, true, None, false, session);
        let ghost middle = session.log();
        proof {
            lemma_obeys_lift(start, middle, plain, preflighted(), failure(opening));
        }
        let transaction = match opening {
            Ok(transaction) => transaction,
            Err(error) => {
                assert(obeys(
                    start,
                    middle,
                    plain.lift(preflighted()),
                    preflighted(),
                    Some(Fault::Preflight(error)),
                ));
                return Err(ProgramFault::Open(Fault::Preflight(error)));
            },
        };
        let scope = match verified {
            Ok(scope) => scope,
            Err(denial) => {
                proof {
                    lemma_unverified(
                        *self, namespace, *verified, true, None, false, start, middle,
                    );
                }
                return Err(
                    ProgramFault::Open(Fault::Preflight(WriteTxnError::Authorization(*denial))),
                );
            },
        };
        let program = WriteProgram {
            transaction,
            stats: ProgramStats::new(),
            receipts: Vec::new(),
            returning: false,
        };
        let ghost opened = program;
        let prepared = list_mutations(statements);
        let ghost asked = collector.asked();
        let ghost ids = *identities;
        let done = self.run_steps(program, &prepared, scope, identities, collector, session);
        assert(obeys(start, middle, plain.lift(preflighted()), preflighted(), None));
        assert(continues_program(
            opened, *self, mutations(statements@), *scope, session.metered(), ids, *identities,
            middle, session.log(), asked, collector.asked(), done,
        ));
        done
    }

    /// Run a write program without receipts.
    pub fn prepare_graph_write_program_authorized<C: Collector, H: Host>(
        &self,
        namespace: u64,
        verified: &Result<Predicates, Denial>,
        statements: &Vec<Prepared>,
        identities: &mut IdentityState,
        collector: &mut Recorder<C>,
        session: &mut Session<H>,
    ) -> (done: Result<(ProgramStats, Vec<StepReceipt>, WriteTxn, CompletionStep), ProgramFault>)
        requires
            self.wf(),
        ensures
            final(session).metered() == old(session).metered(),
            done matches Ok((_, _, ended, step)) ==> ready(ended, *self, step),
            runs_program(
                *self,
                namespace,
                *verified,
                statements@,
                false,
                old(session).metered(),
                *old(identities),
                *final(identities),
                old(session).log(),
                final(session).log(),
                old(collector).asked(),
                final(collector).asked(),
                done,
            ),
    {
        self.write_program_authorized_inner(
            namespace,
            verified,
            statements,
            false,
            identities,
            collector,
            session,
        )
    }

    /// Run a write program with one receipt for each statement. Receipts are built
    /// before completion is admitted.
    pub fn prepare_graph_write_program_returning_authorized<C: Collector, H: Host>(
        &self,
        namespace: u64,
        verified: &Result<Predicates, Denial>,
        statements: &Vec<Prepared>,
        identities: &mut IdentityState,
        collector: &mut Recorder<C>,
        session: &mut Session<H>,
    ) -> (done: Result<(ProgramStats, Vec<StepReceipt>, WriteTxn, CompletionStep), ProgramFault>)
        requires
            self.wf(),
        ensures
            final(session).metered() == old(session).metered(),
            done matches Ok((_, _, ended, step)) ==> ready(ended, *self, step),
            runs_program(
                *self,
                namespace,
                *verified,
                statements@,
                true,
                old(session).metered(),
                *old(identities),
                *final(identities),
                old(session).log(),
                final(session).log(),
                old(collector).asked(),
                final(collector).asked(),
                done,
            ),
    {
        self.write_program_authorized_inner(
            namespace,
            verified,
            statements,
            true,
            identities,
            collector,
            session,
        )
    }
}

} // verus!
