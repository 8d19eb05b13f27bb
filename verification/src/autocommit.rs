//! Autocommit: begin, execute, complete. A refused execution aborts the private
//! transaction, and nothing escapes before completion succeeds.

use vstd::prelude::*;
use crate::authorized_entry::begun;
use crate::database::{frontier_of, Database};
use crate::edge_merge::{
    asks_and_merges, GraphEdgeMerge, GraphEdgeMergeOutcome, GraphEdgeMergePolicy,
    GraphEdgeMergeStats,
};
use crate::edge_upsert::{
    asks_and_upserts, GraphEdgeUpsert, GraphEdgeUpsertPolicy, GraphEdgeUpsertStats,
};
use crate::errors::WriteTxnError;
use crate::finish::{closes, ready, CompletionStep};
use crate::plan::failure;
use crate::selector::{PairSelector, Selecting, SelectorRecord};
use crate::session::{Event, Host, Metering, Session};
use crate::statement::Fault;
use crate::txn::{EmbeddedTxnState, WriteTxn};

verus! {

/// Whose report an error of begin or completion goes into.
#[derive(Clone, Copy, PartialEq, Eq, Structural, Debug)]
pub enum Reporter {
    Statement,
    /// An upsert, which tells its own errors from those of its MERGE.
    Upsert,
    Program,
}

/// An error of begin or completion, as it is reported.
pub open spec fn lifecycle(reporter: Reporter, error: WriteTxnError) -> Fault {
    match reporter {
        Reporter::Statement => Fault::Source(error),
        Reporter::Upsert => Fault::Staging(error),
        Reporter::Program => Fault::Preflight(error),
    }
}

/// Report an error of begin or completion.
pub fn lifecycle_fault(reporter: Reporter, error: WriteTxnError) -> (fault: Fault)
    ensures
        fault == lifecycle(reporter, error),
{
    match reporter {
        Reporter::Statement => Fault::Source(error),
        Reporter::Upsert => Fault::Staging(error),
        Reporter::Program => Fault::Preflight(error),
    }
}

/// How an executed statement is concluded. A refusal aborts the transaction and
/// asks nothing; a success is completed, and its value escapes only with the step
/// that completion takes.
pub open spec fn concludes<T>(
    applied: WriteTxn,
    ended: WriteTxn,
    database: Database,
    reporter: Reporter,
    metered: Metering,
    log: Seq<Event>,
    log_after: Seq<Event>,
    executed: Result<T, Fault>,
    done: Result<(T, CompletionStep), Fault>,
) -> bool {
    match executed {
        Err(fault) => {
            &&& failure(done) == Some(fault)
            &&& log_after == log
            &&& ended.discarded()
            &&& ended.owner == applied.owner
            &&& ended.basis == applied.basis
            &&& ended.state == if applied.state.terminal() {
                applied.state
            } else {
                EmbeddedTxnState::Aborted
            }
        },
        Ok(value) => match done {
            Ok((kept, step)) => kept == value && closes(
                applied,
                ended,
                database,
                false,
                metered,
                log,
                log_after,
                Ok::<CompletionStep, WriteTxnError>(step),
            ),
            Err(fault) => exists|error: WriteTxnError|
                fault == lifecycle(reporter, error) && #[trigger] closes(
                    applied,
                    ended,
                    database,
                    false,
                    metered,
                    log,
                    log_after,
                    Err::<CompletionStep, WriteTxnError>(error),
                ),
        },
    }
}

/// How a relationship MERGE of its own runs: begun, executed, concluded.
pub open spec fn autocommits_merge(
    database: Database,
    merge: GraphEdgeMerge,
    policy: GraphEdgeMergePolicy,
    metered: Metering,
    asked: Seq<Selecting>,
    asked_after: Seq<Selecting>,
    log: Seq<Event>,
    log_after: Seq<Event>,
    done: Result<(GraphEdgeMergeStats, GraphEdgeMergeOutcome, WriteTxn, CompletionStep), Fault>,
) -> bool {
    match frontier_of(database.state) {
        Err(error) => failure(done) == Some(Fault::Source(error)) && log_after
            == log && asked_after == asked,
        Ok(_) => exists|
            opened: WriteTxn,
            applied: WriteTxn,
            ended: WriteTxn,
            log_applied: Seq<Event>,
            executed: Result<(GraphEdgeMergeStats, GraphEdgeMergeOutcome), Fault>,
            concluded: Result<
                ((GraphEdgeMergeStats, GraphEdgeMergeOutcome), CompletionStep),
                Fault,
            >,
        |
            {
                &&& begun(opened, database)
                &&& #[trigger] asks_and_merges(
                    opened,
                    applied,
                    database,
                    merge,
                    policy,
                    asked,
                    asked_after,
                    log,
                    log_applied,
                    executed,
                )
                &&& #[trigger] concludes(
                    applied,
                    ended,
                    database,
                    Reporter::Statement,
                    metered,
                    log_applied,
                    log_after,
                    executed,
                    concluded,
                )
                &&& match concluded {
                    Ok(((stats, outcome), step)) => done == Ok::<
                        (
                            GraphEdgeMergeStats,
                            GraphEdgeMergeOutcome,
                            WriteTxn,
                            CompletionStep,
                        ),
                        Fault,
                    >((stats, outcome, ended, step)),
                    Err(fault) => failure(done) == Some(fault),
                }
            },
    }
}

/// How a relationship upsert of its own runs: begun, executed, concluded.
pub open spec fn autocommits_upsert(
    database: Database,
    upsert: GraphEdgeUpsert,
    policy: GraphEdgeUpsertPolicy,
    metered: Metering,
    asked: Seq<Selecting>,
    asked_after: Seq<Selecting>,
    log: Seq<Event>,
    log_after: Seq<Event>,
    done: Result<(GraphEdgeUpsertStats, GraphEdgeMergeOutcome, WriteTxn, CompletionStep), Fault>,
) -> bool {
    match frontier_of(database.state) {
        Err(error) => failure(done) == Some(Fault::Staging(error)) && log_after
            == log && asked_after == asked,
        Ok(_) => exists|
            opened: WriteTxn,
            applied: WriteTxn,
            ended: WriteTxn,
            log_applied: Seq<Event>,
            executed: Result<(GraphEdgeUpsertStats, GraphEdgeMergeOutcome), Fault>,
            concluded: Result<
                ((GraphEdgeUpsertStats, GraphEdgeMergeOutcome), CompletionStep),
                Fault,
            >,
        |
            {
                &&& begun(opened, database)
                &&& #[trigger] asks_and_upserts(
                    opened,
                    applied,
                    database,
                    upsert,
                    policy,
                    asked,
                    asked_after,
                    log,
                    log_applied,
                    executed,
                )
                &&& #[trigger] concludes(
                    applied,
                    ended,
                    database,
                    Reporter::Upsert,
                    metered,
                    log_applied,
                    log_after,
                    executed,
                    concluded,
                )
                &&& match concluded {
                    Ok(((stats, outcome), step)) => done == Ok::<
                        (
                            GraphEdgeUpsertStats,
                            GraphEdgeMergeOutcome,
                            WriteTxn,
                            CompletionStep,
                        ),
                        Fault,
                    >((stats, outcome, ended, step)),
                    Err(fault) => failure(done) == Some(fault),
                }
            },
    }
}

impl Database {
    /// Conclude an executed statement.
    pub fn conclude_autocommit<T, H: Host>(
        &self,
        transaction: WriteTxn,
        reporter: Reporter,
        executed: Result<T, Fault>,
        session: &mut Session<H>,
    ) -> (concluded: (WriteTxn, Result<(T, CompletionStep), Fault>))
        requires
            self.wf(),
            transaction.wf(),
        ensures
            concluded.0.wf(),
            concluded.1 matches Ok((_, step)) ==> ready(concluded.0, *self, step),
            final(session).metered() == old(session).metered(),
            concludes(
                transaction,
                concluded.0,
                *self,
                reporter,
                old(session).metered(),
                old(session).log(),
                final(session).log(),
                executed,
                concluded.1,
            ),
    {
        match executed {
            Err(fault) => (transaction.abort(), Err(fault)),
            Ok(value) => {
                let mut ended = transaction;
                match ended.complete_controlled(self, false, session) {
                    Ok(step) => (ended, Ok((value, step))),
                    Err(error) => (ended, Err(lifecycle_fault(reporter, error))),
                }
            },
        }
    }

    /// Merge one relationship and complete the private transaction. The receipt
    /// comes with the transaction and the step that completion takes next.
    pub fn prepare_graph_edge_merge_autocommit_governed<S: PairSelector, H: Host>(
        &self,
        merge: &GraphEdgeMerge,
        policy: GraphEdgeMergePolicy,
        selector: &mut SelectorRecord<S>,
        session: &mut Session<H>,
    ) -> (done: Result<
        (GraphEdgeMergeStats, GraphEdgeMergeOutcome, WriteTxn, CompletionStep),
        Fault,
    >)
        requires
            self.wf(),
            merge.wf(),
        ensures
            final(session).metered() == old(session).metered(),
            done matches Ok((_, _, ended, step)) ==> ready(ended, *self, step),
            autocommits_merge(
                *self,
                *merge,
                policy,
                old(session).metered(),
                old(selector).asked(),
                final(selector).asked(),
                old(session).log(),
                final(session).log(),
                done,
            ),
    {
        let ghost start = session.log();
        let ghost asked = selector.asked();
        let mut transaction = match WriteTxn::begin(self) {
            Ok(transaction) => transaction,
            Err(error) => return Err(Fault::Source(error)),
        };
        let ghost opened = transaction;
        assert(begun(opened, *self));
        let executed = transaction.execute_graph_edge_merge_governed(
            self,
            merge,
            policy,
            selector,
            session,
        );
        let ghost applied = transaction;
        let ghost log_applied = session.log();
        let ghost outcome = executed;
        let (ended, concluded) = self.conclude_autocommit(
            transaction,
            Reporter::Statement,
            executed,
            session,
        );
        assert(asks_and_merges(
            opened,
            applied,
            *self,
            *merge,
            policy,
            asked,
            selector.asked(),
            start,
            log_applied,
            outcome,
        ));
        assert(concludes(
            applied,
            ended,
            *self,
            Reporter::Statement,
            session.metered(),
            log_applied,
            session.log(),
            outcome,
            concluded,
        ));
        match concluded {
            Ok(((stats, found), step)) => Ok((stats, found, ended, step)),
            Err(fault) => Err(fault),
        }
    }

    /// Upsert one relationship and complete the private transaction.
    pub fn prepare_graph_edge_upsert_autocommit_governed<S: PairSelector, H: Host>(
        &self,
        upsert: &GraphEdgeUpsert,
        policy: GraphEdgeUpsertPolicy,
        selector: &mut SelectorRecord<S>,
        session: &mut Session<H>,
    ) -> (done: Result<
        (GraphEdgeUpsertStats, GraphEdgeMergeOutcome, WriteTxn, CompletionStep),
        Fault,
    >)
        requires
            self.wf(),
            upsert.merge.wf(),
        ensures
            final(session).metered() == old(session).metered(),
            done matches Ok((_, _, ended, step)) ==> ready(ended, *self, step),
            autocommits_upsert(
                *self,
                *upsert,
                policy,
                old(session).metered(),
                old(selector).asked(),
                final(selector).asked(),
                old(session).log(),
                final(session).log(),
                done,
            ),
    {
        let ghost start = session.log();
        let ghost asked = selector.asked();
        let mut transaction = match WriteTxn::begin(self) {
            Ok(transaction) => transaction,
            Err(error) => return Err(Fault::Staging(error)),
        };
        let ghost opened = transaction;
        assert(begun(opened, *self));
        let executed = transaction.execute_graph_edge_upsert_governed(
            self,
            upsert,
            policy,
            selector,
            session,
        );
        let ghost applied = transaction;
        let ghost log_applied = session.log();
        let ghost outcome = executed;
        let (ended, concluded) = self.conclude_autocommit(
            transaction,
            Reporter::Upsert,
            executed,
            session,
        );
        assert(asks_and_upserts(
            opened,
            applied,
            *self,
            *upsert,
            policy,
            asked,
            selector.asked(),
            start,
            log_applied,
            outcome,
        ));
        assert(concludes(
            applied,
            ended,
            *self,
            Reporter::Upsert,
            session.metered(),
            log_applied,
            session.log(),
            outcome,
            concluded,
        ));
        match concluded {
            Ok(((stats, found), step)) => Ok((stats, found, ended, step)),
            Err(fault) => Err(fault),
        }
    }
}

/// A refused execution publishes nothing: the private transaction ends aborted,
/// without a workspace, a pin or a further question.
pub proof fn law_refused_execution_aborts<T>(
    applied: WriteTxn,
    ended: WriteTxn,
    database: Database,
    reporter: Reporter,
    metered: Metering,
    log: Seq<Event>,
    log_after: Seq<Event>,
    fault: Fault,
    done: Result<(T, CompletionStep), Fault>,
)
    requires
        !applied.state.terminal(),
        concludes(
            applied,
            ended,
            database,
            reporter,
            metered,
            log,
            log_after,
            Err::<T, Fault>(fault),
            done,
        ),
    ensures
        done is Err,
        ended.state == EmbeddedTxnState::Aborted,
        ended.pin is None,
        ended.prepared is None,
        log_after == log,
{
}

} // verus!
