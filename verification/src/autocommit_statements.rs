//! Statements and programs of native executors, each committed on its own.

use vstd::prelude::*;
use crate::admission::stages;
use crate::authorized_entry::begun;
use crate::authorized_program::StatementKind;
use crate::autocommit::{concludes, lifecycle, lifecycle_fault, Reporter};
use crate::batch::WriteBatch;
use crate::collector::{Prepared, Statement};
use crate::database::{frontier_of, Database};
use crate::errors::WriteTxnError;
use crate::executor::{Executed, Executing, Executor, ExecutorRecord};
use crate::finish::{ready, CompletionStep};
use crate::plan::failure;
use crate::queries::retained;
use crate::session::{Event, Host, Metering, Session};
use crate::statement::Fault;
use crate::txn::{EmbeddedTxnCompletion, WriteTxn};

verus! {

/// The run of one autocommitted execution.
#[verifier::reject_recursive_types(T)]
pub struct AutocommitRun<T> {
    pub opened: WriteTxn,
    pub read: WriteTxn,
    pub applied: WriteTxn,
    pub ended: WriteTxn,
    pub answer: Executed<T>,
    pub executed: Result<T, Fault>,
    pub concluded: Result<(T, CompletionStep), Fault>,
    pub log_applied: Seq<Event>,
}

/// An error of staging, as it is reported.
pub open spec fn staging(reporter: Reporter, error: WriteTxnError) -> Fault {
    match reporter {
        Reporter::Program => Fault::Preflight(error),
        _ => Fault::Source(error),
    }
}

/// Report an error of staging.
fn staging_fault(reporter: Reporter, error: WriteTxnError) -> (fault: Fault)
    ensures
        fault == staging(reporter, error),
{
    match reporter {
        Reporter::Program => Fault::Preflight(error),
        _ => Fault::Source(error),
    }
}

/// How effects are staged: a refusal and an empty selection stage nothing.
pub open spec fn takes_effect<T>(
    read: WriteTxn,
    applied: WriteTxn,
    database: Database,
    reporter: Reporter,
    effects: Result<(Vec<WriteBatch>, T), Fault>,
    log: Seq<Event>,
    log_after: Seq<Event>,
    executed: Result<T, Fault>,
) -> bool {
    match effects {
        Err(fault) => {
            &&& applied == read
            &&& log_after == log
            &&& failure(executed) == Some(fault)
        },
        Ok((batches, value)) => if batches@.len() == 0 {
            &&& applied == read
            &&& log_after == log
            &&& executed == Ok::<T, Fault>(value)
        } else {
            exists|staged: Result<(), WriteTxnError>|
                {
                    &&& #[trigger] stages(
                        read,
                        applied,
                        database,
                        batches@,
                        None,
                        log,
                        log_after,
                        staged,
                    )
                    &&& match staged {
                        Ok(()) => executed == Ok::<T, Fault>(value),
                        Err(error) => failure(executed) == Some(staging(reporter, error)),
                    }
                }
        },
    }
}

/// An autocommitted execution: a transaction of its own, the executor's answer, and
/// its conclusion. Nothing of a receipt escapes but with a completion.
pub open spec fn autocommits<T>(
    database: Database,
    reporter: Reporter,
    statements: Seq<Prepared>,
    returning: bool,
    metered: Metering,
    log: Seq<Event>,
    log_after: Seq<Event>,
    asked: Seq<Executing<T>>,
    asked_after: Seq<Executing<T>>,
    run: AutocommitRun<T>,
    done: Result<(T, WriteTxn, CompletionStep), Fault>,
) -> bool {
    match frontier_of(database.state) {
        Err(error) => {
            &&& failure(done) == Some(lifecycle(reporter, error))
            &&& log_after == log
            &&& asked_after == asked
        },
        Ok(_) => {
            &&& begun(run.opened, database)
            &&& asked_after == asked.push(
                Executing {
                    statements,
                    returning,
                    transaction: run.opened,
                    database,
                    answer: run.answer,
                },
            )
            &&& retained(run.opened, run.read, run.answer.observed)
            &&& takes_effect(
                run.read,
                run.applied,
                database,
                reporter,
                run.answer.effects,
                log,
                run.log_applied,
                run.executed,
            )
            &&& concludes(
                run.applied,
                run.ended,
                database,
                reporter,
                metered,
                run.log_applied,
                log_after,
                run.executed,
                run.concluded,
            )
            &&& match run.concluded {
                Ok((value, step)) => done == Ok::<(T, WriteTxn, CompletionStep), Fault>(
                    (value, run.ended, step),
                ),
                Err(fault) => failure(done) == Some(fault),
            }
        },
    }
}

/// A list of one statement.
fn one(prepared: Prepared) -> (statements: Vec<Prepared>)
    ensures
        statements@ == seq![prepared],
{
    let mut statements: Vec<Prepared> = Vec::new();
    statements.push(prepared);
    statements
}

impl Database {
    /// Stage what an executor answered.
    fn take_effect<T, H: Host>(
        &self,
        transaction: &mut WriteTxn,
        reporter: Reporter,
        effects: Result<(Vec<WriteBatch>, T), Fault>,
        session: &mut Session<H>,
    ) -> (executed: Result<T, Fault>)
        requires
            self.wf(),
            old(transaction).wf(),
        ensures
            final(transaction).wf(),
            final(session).metered() == old(session).metered(),
            takes_effect(
                *old(transaction),
                *final(transaction),
                *self,
                reporter,
                effects,
                old(session).log(),
                final(session).log(),
                executed,
            ),
    {
        match effects {
            Err(fault) => Err(fault),
            Ok((batches, value)) => if batches.len() == 0 {
                Ok(value)
            } else {
                match transaction.write_ordered(self, batches, session) {
                    Ok(()) => Ok(value),
                    Err(error) => Err(staging_fault(reporter, error)),
                }
            },
        }
    }

    /// Begin, execute, complete.
    fn autocommit<T, E: Executor<T>, H: Host>(
        &self,
        reporter: Reporter,
        statements: &Vec<Prepared>,
        returning: bool,
        executor: &mut ExecutorRecord<T, E>,
        session: &mut Session<H>,
    ) -> (done: Result<(T, WriteTxn, CompletionStep), Fault>)
        requires
            self.wf(),
        ensures
            final(session).metered() == old(session).metered(),
            done matches Ok((_, ended, step)) ==> ready(ended, *self, step),
            exists|run: AutocommitRun<T>| #[trigger]
                autocommits(
                    *self,
                    reporter,
                    statements@,
                    returning,
                    old(session).metered(),
                    old(session).log(),
                    final(session).log(),
                    old(executor).asked(),
                    final(executor).asked(),
                    run,
                    done,
                ),
    {
        let ghost start = session.log();
        let ghost metered = session.metered();
        let ghost asked = executor.asked();
        let ghost mut run: AutocommitRun<T> = arbitrary();
        let mut transaction = match WriteTxn::begin(self) {
            Ok(transaction) => transaction,
            Err(error) => {
                let fault = lifecycle_fault(reporter, error);
                assert(autocommits(
                    *self, reporter, statements@, returning, metered, start, start, asked, asked,
                    run, Err(fault),
                ));
                return Err(fault);
            },
        };
        proof {
            run = AutocommitRun { opened: transaction, ..run };
        }
        let answer = executor.execute(statements, returning, &transaction, self);
        transaction.retain(&answer.observed);
        proof {
            run = AutocommitRun { read: transaction, answer, ..run };
        }
        let executed = self.take_effect(&mut transaction, reporter, answer.effects, session);
        proof {
            run = AutocommitRun { applied: transaction, executed, log_applied: session.log(), ..run };
        }
        let (ended, concluded) = self.conclude_autocommit(transaction, reporter, executed, session);
        proof {
            run = AutocommitRun { ended, concluded, ..run };
        }
        match concluded {
            Ok((value, step)) => {
                assert(autocommits(
                    *self, reporter, statements@, returning, metered, start, session.log(), asked,
                    executor.asked(), run,
                    Ok((value, ended, step)),
                ));
                Ok((value, ended, step))
            },
            Err(fault) => {
                assert(autocommits(
                    *self, reporter, statements@, returning, metered, start, session.log(), asked,
                    executor.asked(), run, Err(fault),
                ));
                Err(fault)
            },
        }
    }

    /// Execute one prepared mutation on its own. A statement that matches nothing closes
    /// read-only.
    pub fn prepare_graph_mutation_autocommit_governed<T, E: Executor<T>, H: Host>(
        &self,
        statement: Statement,
        executor: &mut ExecutorRecord<T, E>,
        session: &mut Session<H>,
    ) -> (done: Result<(T, WriteTxn, CompletionStep), Fault>)
        requires
            self.wf(),
        ensures
            final(session).metered() == old(session).metered(),
            done matches Ok((_, ended, step)) ==> ready(ended, *self, step),
            exists|run: AutocommitRun<T>| #[trigger]
                autocommits(
                    *self,
                    Reporter::Statement,
                    seq![Prepared { kind: StatementKind::Mutation, statement }],
                    false,
                    old(session).metered(),
                    old(session).log(),
                    final(session).log(),
                    old(executor).asked(),
                    final(executor).asked(),
                    run,
                    done,
                ),
    {
        self.autocommit(
            Reporter::Statement,
            &one(Prepared { kind: StatementKind::Mutation, statement }),
            false,
            executor,
            session,
        )
    }

    /// A mutation with the targets that it staged.
    pub fn prepare_graph_mutation_returning_autocommit_governed<T, E: Executor<T>, H: Host>(
        &self,
        statement: Statement,
        executor: &mut ExecutorRecord<T, E>,
        session: &mut Session<H>,
    ) -> (done: Result<(T, WriteTxn, CompletionStep), Fault>)
        requires
            self.wf(),
        ensures
            final(session).metered() == old(session).metered(),
            done matches Ok((_, ended, step)) ==> ready(ended, *self, step),
            exists|run: AutocommitRun<T>| #[trigger]
                autocommits(
                    *self,
                    Reporter::Statement,
                    seq![Prepared { kind: StatementKind::Mutation, statement }],
                    true,
                    old(session).metered(),
                    old(session).log(),
                    final(session).log(),
                    old(executor).asked(),
                    final(executor).asked(),
                    run,
                    done,
                ),
    {
        self.autocommit(
            Reporter::Statement,
            &one(Prepared { kind: StatementKind::Mutation, statement }),
            true,
            executor,
            session,
        )
    }

    /// Create graph structures. Issued identities are never taken back.
    pub fn prepare_graph_insert_autocommit_governed<T, E: Executor<T>, H: Host>(
        &self,
        selects: bool,
        statement: Statement,
        executor: &mut ExecutorRecord<T, E>,
        session: &mut Session<H>,
    ) -> (done: Result<(T, WriteTxn, CompletionStep), Fault>)
        requires
            self.wf(),
        ensures
            final(session).metered() == old(session).metered(),
            done matches Ok((_, ended, step)) ==> ready(ended, *self, step),
            exists|run: AutocommitRun<T>| #[trigger]
                autocommits(
                    *self,
                    Reporter::Statement,
                    seq![Prepared { kind: StatementKind::Insert { selects }, statement }],
                    false,
                    old(session).metered(),
                    old(session).log(),
                    final(session).log(),
                    old(executor).asked(),
                    final(executor).asked(),
                    run,
                    done,
                ),
    {
        self.autocommit(
            Reporter::Statement,
            &one(Prepared { kind: StatementKind::Insert { selects }, statement }),
            false,
            executor,
            session,
        )
    }

    /// A creation with the identities that it made.
    pub fn prepare_graph_insert_returning_autocommit_governed<T, E: Executor<T>, H: Host>(
        &self,
        selects: bool,
        statement: Statement,
        executor: &mut ExecutorRecord<T, E>,
        session: &mut Session<H>,
    ) -> (done: Result<(T, WriteTxn, CompletionStep), Fault>)
        requires
            self.wf(),
        ensures
            final(session).metered() == old(session).metered(),
            done matches Ok((_, ended, step)) ==> ready(ended, *self, step),
            exists|run: AutocommitRun<T>| #[trigger]
                autocommits(
                    *self,
                    Reporter::Statement,
                    seq![Prepared { kind: StatementKind::Insert { selects }, statement }],
                    true,
                    old(session).metered(),
                    old(session).log(),
                    final(session).log(),
                    old(executor).asked(),
                    final(executor).asked(),
                    run,
                    done,
                ),
    {
        self.autocommit(
            Reporter::Statement,
            &one(Prepared { kind: StatementKind::Insert { selects }, statement }),
            true,
            executor,
            session,
        )
    }

    /// Delete what a statement selects.
    pub fn prepare_graph_delete_autocommit_governed<T, E: Executor<T>, H: Host>(
        &self,
        statement: Statement,
        executor: &mut ExecutorRecord<T, E>,
        session: &mut Session<H>,
    ) -> (done: Result<(T, WriteTxn, CompletionStep), Fault>)
        requires
            self.wf(),
        ensures
            final(session).metered() == old(session).metered(),
            done matches Ok((_, ended, step)) ==> ready(ended, *self, step),
            exists|run: AutocommitRun<T>| #[trigger]
                autocommits(
                    *self,
                    Reporter::Statement,
                    seq![Prepared { kind: StatementKind::Delete, statement }],
                    false,
                    old(session).metered(),
                    old(session).log(),
                    final(session).log(),
                    old(executor).asked(),
                    final(executor).asked(),
                    run,
                    done,
                ),
    {
        self.autocommit(
            Reporter::Statement,
            &one(Prepared { kind: StatementKind::Delete, statement }),
            false,
            executor,
            session,
        )
    }

    /// A deletion with the targets that it removed.
    pub fn prepare_graph_delete_returning_autocommit_governed<T, E: Executor<T>, H: Host>(
        &self,
        statement: Statement,
        executor: &mut ExecutorRecord<T, E>,
        session: &mut Session<H>,
    ) -> (done: Result<(T, WriteTxn, CompletionStep), Fault>)
        requires
            self.wf(),
        ensures
            final(session).metered() == old(session).metered(),
            done matches Ok((_, ended, step)) ==> ready(ended, *self, step),
            exists|run: AutocommitRun<T>| #[trigger]
                autocommits(
                    *self,
                    Reporter::Statement,
                    seq![Prepared { kind: StatementKind::Delete, statement }],
                    true,
                    old(session).metered(),
                    old(session).log(),
                    final(session).log(),
                    old(executor).asked(),
                    final(executor).asked(),
                    run,
                    done,
                ),
    {
        self.autocommit(
            Reporter::Statement,
            &one(Prepared { kind: StatementKind::Delete, statement }),
            true,
            executor,
            session,
        )
    }

    /// Find or create one vertex. An existing one closes read-only.
    pub fn prepare_graph_vertex_merge_autocommit_governed<T, E: Executor<T>, H: Host>(
        &self,
        statement: Statement,
        executor: &mut ExecutorRecord<T, E>,
        session: &mut Session<H>,
    ) -> (done: Result<(T, WriteTxn, CompletionStep), Fault>)
        requires
            self.wf(),
        ensures
            final(session).metered() == old(session).metered(),
            done matches Ok((_, ended, step)) ==> ready(ended, *self, step),
            exists|run: AutocommitRun<T>| #[trigger]
                autocommits(
                    *self,
                    Reporter::Statement,
                    seq![Prepared { kind: StatementKind::VertexMerge, statement }],
                    false,
                    old(session).metered(),
                    old(session).log(),
                    final(session).log(),
                    old(executor).asked(),
                    final(executor).asked(),
                    run,
                    done,
                ),
    {
        self.autocommit(
            Reporter::Statement,
            &one(Prepared { kind: StatementKind::VertexMerge, statement }),
            false,
            executor,
            session,
        )
    }

    /// Find or create one vertex, then act on it.
    pub fn prepare_graph_vertex_upsert_autocommit_governed<T, E: Executor<T>, H: Host>(
        &self,
        statement: Statement,
        executor: &mut ExecutorRecord<T, E>,
        session: &mut Session<H>,
    ) -> (done: Result<(T, WriteTxn, CompletionStep), Fault>)
        requires
            self.wf(),
        ensures
            final(session).metered() == old(session).metered(),
            done matches Ok((_, ended, step)) ==> ready(ended, *self, step),
            exists|run: AutocommitRun<T>| #[trigger]
                autocommits(
                    *self,
                    Reporter::Upsert,
                    seq![Prepared { kind: StatementKind::VertexUpsert, statement }],
                    false,
                    old(session).metered(),
                    old(session).log(),
                    final(session).log(),
                    old(executor).asked(),
                    final(executor).asked(),
                    run,
                    done,
                ),
    {
        self.autocommit(
            Reporter::Upsert,
            &one(Prepared { kind: StatementKind::VertexUpsert, statement }),
            false,
            executor,
            session,
        )
    }

    /// Execute an ordered program through one completion.
    pub fn prepare_graph_write_program_autocommit_governed<T, E: Executor<T>, H: Host>(
        &self,
        statements: &Vec<Prepared>,
        executor: &mut ExecutorRecord<T, E>,
        session: &mut Session<H>,
    ) -> (done: Result<(T, WriteTxn, CompletionStep), Fault>)
        requires
            self.wf(),
        ensures
            final(session).metered() == old(session).metered(),
            done matches Ok((_, ended, step)) ==> ready(ended, *self, step),
            exists|run: AutocommitRun<T>| #[trigger]
                autocommits(
                    *self,
                    Reporter::Program,
                    statements@,
                    false,
                    old(session).metered(),
                    old(session).log(),
                    final(session).log(),
                    old(executor).asked(),
                    final(executor).asked(),
                    run,
                    done,
                ),
    {
        self.autocommit(Reporter::Program, statements, false, executor, session)
    }

    /// A program with the receipt of each step.
    pub fn prepare_graph_write_program_returning_autocommit_governed<T, E: Executor<T>, H: Host>(
        &self,
        statements: &Vec<Prepared>,
        executor: &mut ExecutorRecord<T, E>,
        session: &mut Session<H>,
    ) -> (done: Result<(T, WriteTxn, CompletionStep), Fault>)
        requires
            self.wf(),
        ensures
            final(session).metered() == old(session).metered(),
            done matches Ok((_, ended, step)) ==> ready(ended, *self, step),
            exists|run: AutocommitRun<T>| #[trigger]
                autocommits(
                    *self,
                    Reporter::Program,
                    statements@,
                    true,
                    old(session).metered(),
                    old(session).log(),
                    final(session).log(),
                    old(executor).asked(),
                    final(executor).asked(),
                    run,
                    done,
                ),
    {
        self.autocommit(Reporter::Program, statements, true, executor, session)
    }
}

/// A selection that stages nothing publishes nothing: it closes read-only.
pub proof fn law_empty_selection_closes_read_only<T>(
    database: Database,
    reporter: Reporter,
    statements: Seq<Prepared>,
    returning: bool,
    metered: Metering,
    log: Seq<Event>,
    log_after: Seq<Event>,
    asked: Seq<Executing<T>>,
    asked_after: Seq<Executing<T>>,
    run: AutocommitRun<T>,
    value: T,
    ended: WriteTxn,
    step: CompletionStep,
)
    requires
        autocommits(
            database,
            reporter,
            statements,
            returning,
            metered,
            log,
            log_after,
            asked,
            asked_after,
            run,
            Ok((value, ended, step)),
        ),
        run.answer.effects matches Ok((batches, _)) && batches@.len() == 0,
    ensures
        step matches CompletionStep::Closed(EmbeddedTxnCompletion::ReadClosed { .. }),
{
}

/// A refused execution or a refused staging publishes nothing: the transaction ends
/// without a workspace or a pin, and no receipt escapes.
pub proof fn law_refused_autocommit_discards<T>(
    database: Database,
    reporter: Reporter,
    statements: Seq<Prepared>,
    returning: bool,
    metered: Metering,
    log: Seq<Event>,
    log_after: Seq<Event>,
    asked: Seq<Executing<T>>,
    asked_after: Seq<Executing<T>>,
    run: AutocommitRun<T>,
    done: Result<(T, WriteTxn, CompletionStep), Fault>,
)
    requires
        frontier_of(database.state) is Ok,
        autocommits(
            database,
            reporter,
            statements,
            returning,
            metered,
            log,
            log_after,
            asked,
            asked_after,
            run,
            done,
        ),
        run.executed is Err,
    ensures
        done is Err,
        run.ended.discarded(),
{
}

} // verus!
