//! Completion: validation, acceptance, publication outcome and cleanup.
//!
//! Publication itself is outside. Completion hands out the prepared write, and
//! later classifies what became of it.

use vstd::prelude::*;
use crate::append_rebase::rebases;
use crate::database::{frontier_of, Database};
use crate::errors::{ConflictDetail, DatabaseState, Law, WriteError, WriteTxnError};
use crate::ids::{CommitSeq, ElementId};
use crate::session::{lemma_ticked_compose, refused, ticked, Event, Host, Metering, Session};
use crate::txn::{
    ownership_refusal, EmbeddedTxnCompletion, EmbeddedTxnState, PreparedWrite, WriteTxn,
};

verus! {

/// What a completion attempt remembers for its cleanup: the frontier it started
/// from, and whether it entered publication.
#[derive(Clone, Copy, PartialEq, Eq, Structural, Debug)]
pub struct TxnCompletionGuard {
    pub starting_frontier: CommitSeq,
    pub entered_commit: bool,
}

/// How an attempt that did not report an outcome ended. An attempt that entered
/// publication is judged by the retained state of the database, never guessed to
/// have rolled back.
pub open spec fn interrupted_state(
    guard: TxnCompletionGuard,
    state: DatabaseState,
) -> EmbeddedTxnState {
    if !guard.entered_commit {
        EmbeddedTxnState::Aborted
    } else {
        match state {
            DatabaseState::Healthy { published_frontier } => if published_frontier
                == guard.starting_frontier {
                EmbeddedTxnState::Aborted
            } else if published_frontier.0 > guard.starting_frontier.0 {
                EmbeddedTxnState::Completed(
                    EmbeddedTxnCompletion::WriteCommitted { commit_seq: published_frontier },
                )
            } else {
                EmbeddedTxnState::CommitOutcomeUnknown { published_frontier }
            },
            DatabaseState::CommitOutcomeUnknown { published_frontier } => {
                EmbeddedTxnState::CommitOutcomeUnknown { published_frontier }
            },
            DatabaseState::NeedsAuthoritativeRecovery { durable_frontier } => {
                EmbeddedTxnState::CommittedNeedsRecovery { commit_seq: durable_frontier }
            },
        }
    }
}

impl TxnCompletionGuard {
    pub fn new(database: &Database) -> (guard: TxnCompletionGuard)
        requires
            database.wf(),
        ensures
            guard.starting_frontier.0 == database.tip(),
            !guard.entered_commit,
    {
        TxnCompletionGuard {
            starting_frontier: database.snapshot_frontier(),
            entered_commit: false,
        }
    }

    /// Clean up after an attempt, whether it returned, unwound or was dropped. A
    /// terminal outcome that was already recorded is kept.
    pub fn release(&self, transaction: &mut WriteTxn, database: &Database)
        requires
            old(transaction).wf(),
        ensures
            final(transaction).wf(),
            final(transaction).discarded(),
            final(transaction).owner == old(transaction).owner,
            final(transaction).basis == old(transaction).basis,
            final(transaction).state == (if old(transaction).state.terminal() {
                old(transaction).state
            } else {
                interrupted_state(*self, database.state)
            }),
    {
        if !transaction.state.is_terminal() {
            transaction.state = if self.entered_commit {
                match database.state {
                    DatabaseState::Healthy { published_frontier } => {
                        if published_frontier == self.starting_frontier {
                            EmbeddedTxnState::Aborted
                        } else if published_frontier.0 > self.starting_frontier.0 {
                            EmbeddedTxnState::Completed(
                                EmbeddedTxnCompletion::WriteCommitted {
                                    commit_seq: published_frontier,
                                },
                            )
                        } else {
                            EmbeddedTxnState::CommitOutcomeUnknown { published_frontier }
                        }
                    },
                    DatabaseState::CommitOutcomeUnknown { published_frontier } => {
                        EmbeddedTxnState::CommitOutcomeUnknown { published_frontier }
                    },
                    DatabaseState::NeedsAuthoritativeRecovery { durable_frontier } => {
                        EmbeddedTxnState::CommittedNeedsRecovery { commit_seq: durable_frontier }
                    },
                }
            } else {
                EmbeddedTxnState::Aborted
            };
        }
        transaction.discard_terminal_workspace();
    }
}

/// What an accepted completion asks for next.
pub enum CompletionStep {
    /// Nothing was prepared: the transaction is closed as a read.
    Closed(EmbeddedTxnCompletion),
    /// Publish this write, then settle with its outcome.
    Publish { prepared: PreparedWrite, guard: TxnCompletionGuard },
}

/// The refusal that names a conflict.
pub open spec fn conflict_error(
    law: Law,
    element: ElementId,
    committed_at: CommitSeq,
    basis: CommitSeq,
) -> WriteTxnError {
    WriteTxnError::Write(
        WriteError::FirstCommitterWins {
            law,
            detail: ConflictDetail::Dependency { element, committed_at, basis },
        },
    )
}

/// The refusals before any checkpoint: health, and a required write.
pub open spec fn entry_refusal(
    txn: WriteTxn,
    database: Database,
    require_write: bool,
) -> Option<WriteTxnError> {
    match frontier_of(database.state) {
        Err(error) => Some(error),
        Ok(_) => if require_write && txn.prepared is None {
            Some(WriteTxnError::NoPreparedWrite)
        } else {
            None
        },
    }
}

/// A refused attempt: the transaction is aborted and holds nothing.
pub open spec fn aborted(before: WriteTxn, after: WriteTxn) -> bool {
    &&& after.state == EmbeddedTxnState::Aborted
    &&& after.discarded()
    &&& after.owner == before.owner
}

/// What acceptance does with a transaction whose dependencies hold.
pub open spec fn accepted(
    before: WriteTxn,
    after: WriteTxn,
    database: Database,
    step: CompletionStep,
) -> bool {
    match before.prepared {
        None => {
            let completion = EmbeddedTxnCompletion::ReadClosed {
                snapshot_seq: before.basis,
                validated_through: frontier_of(database.state)->Ok_0,
            };
            &&& step == CompletionStep::Closed(completion)
            &&& after.state == EmbeddedTxnState::Completed(completion)
            &&& after.discarded()
            &&& after.owner == before.owner
            &&& after.basis == before.basis
        },
        Some(prepared) => {
            &&& step matches CompletionStep::Publish { prepared: handed, guard }
            &&& handed == prepared
            &&& guard.entered_commit
            &&& guard.starting_frontier.0 == database.tip()
            &&& after.prepared is None
            &&& after.staged@.len() == 0
            &&& after.state == before.state
            &&& after.pin == before.pin
            &&& after.owner == before.owner
            &&& after.basis == before.basis
        },
    }
}

/// What validation and acceptance do, whatever the host answers.
pub open spec fn completes(
    before: WriteTxn,
    after: WriteTxn,
    database: Database,
    metered: Metering,
    log: Seq<Event>,
    log_after: Seq<Event>,
    done: Result<CompletionStep, WriteTxnError>,
) -> bool {
    &&& ticked(log, log_after, metered)
    &&& match refused(log, log_after) {
        Some(error) => done == Err::<CompletionStep, WriteTxnError>(error) && aborted(before, after),
        None => match done {
            Ok(step) => {
                &&& before.validated(
                    database,
                    Ok::<Option<(Law, ElementId, CommitSeq)>, WriteTxnError>(None),
                )
                &&& accepted(before, after, database, step)
            },
            Err(error) => {
                &&& aborted(before, after)
                &&& ({
                    ||| before.validated(
                        database,
                        Err::<Option<(Law, ElementId, CommitSeq)>, WriteTxnError>(error),
                    )
                    ||| exists|law: Law, element: ElementId, seq: CommitSeq|
                        error == conflict_error(law, element, seq, before.basis)
                            && #[trigger] before.validated(
                            database,
                            Ok::<Option<(Law, ElementId, CommitSeq)>, WriteTxnError>(
                                Some((law, element, seq)),
                            ),
                        )
                })
            },
        },
    }
}

/// What completion does, whatever the host answers. Wrong-owner and finished calls
/// change nothing; every other refusal aborts.
pub open spec fn closes(
    before: WriteTxn,
    after: WriteTxn,
    database: Database,
    require_write: bool,
    metered: Metering,
    log: Seq<Event>,
    log_after: Seq<Event>,
    done: Result<CompletionStep, WriteTxnError>,
) -> bool {
    match ownership_refusal(before, database) {
        Some(error) => {
            &&& done == Err::<CompletionStep, WriteTxnError>(error)
            &&& after == before
            &&& log_after == log
        },
        None => match entry_refusal(before, database, require_write) {
            Some(error) => {
                &&& done == Err::<CompletionStep, WriteTxnError>(error)
                &&& aborted(before, after)
                &&& log_after == log
            },
            None => completes(before, after, database, metered, log, log_after, done),
        },
    }
}

/// An accepted workspace that publication may take over.
pub open spec fn ready(accepted: WriteTxn, database: Database, step: CompletionStep) -> bool {
    &&& accepted.wf()
    &&& step matches CompletionStep::Publish { prepared, .. } ==> {
        &&& !accepted.state.terminal()
        &&& database.state is Healthy
        &&& prepared.template.wf()
    }
}

impl WriteTxn {
    /// Validate dependencies and accept either kind of workspace. The last
    /// checkpoint precedes both kinds of acceptance: nothing is refused after a
    /// read close or once publication may start.
    fn validate_and_accept<H: Host>(
        &mut self,
        database: &Database,
        session: &mut Session<H>,
        guard: TxnCompletionGuard,
    ) -> (done: Result<CompletionStep, WriteTxnError>)
        requires
            old(self).wf(),
            database.wf(),
            frontier_of(database.state) is Ok,
            guard.starting_frontier.0 == database.tip(),
            !guard.entered_commit,
            !old(self).state.terminal(),
        ensures
            final(self).wf(),
            final(session).metered() == old(session).metered(),
            completes(
                *old(self),
                *final(self),
                *database,
                old(session).metered(),
                old(session).log(),
                final(session).log(),
                done,
            ),
    {
        let ghost start = session.log();
        let ghost metered = session.metered();
        let validated_through = match database.frontier() {
            Ok(frontier) => frontier,
            Err(error) => {
                guard.release(self, database);
                return Err(error);
            },
        };
        let found = self.transaction_conflict(database, session);
        match found {
            Ok(None) => {},
            Ok(Some((law, element, committed_at))) => {
                let error = WriteTxnError::Write(
                    WriteError::FirstCommitterWins {
                        law,
                        detail: ConflictDetail::Dependency {
                            element,
                            committed_at,
                            basis: self.basis,
                        },
                    },
                );
                assert(self.validated(
                    *database,
                    Ok::<Option<(Law, ElementId, CommitSeq)>, WriteTxnError>(
                        Some((law, element, committed_at)),
                    ),
                ));
                guard.release(self, database);
                return Err(error);
            },
            Err(error) => {
                guard.release(self, database);
                return Err(error);
            },
        }
        let ghost middle = session.log();
        let step = session.checkpoint();
        proof {
            lemma_ticked_compose(start, middle, session.log(), metered);
        }
        if let Err(error) = step {
            guard.release(self, database);
            return Err(error);
        }
        match self.prepared.take() {
            Some(prepared) => {
                self.staged.clear();
                Ok(
                    CompletionStep::Publish {
                        prepared,
                        guard: TxnCompletionGuard { entered_commit: true, ..guard },
                    },
                )
            },
            None => {
                let completion = EmbeddedTxnCompletion::ReadClosed {
                    snapshot_seq: self.basis,
                    validated_through,
                };
                self.state = EmbeddedTxnState::Completed(completion);
                guard.release(self, database);
                Ok(CompletionStep::Closed(completion))
            },
        }
    }

    /// Validate recorded dependencies and begin to complete the workspace.
    ///
    /// Wrong-owner and finished calls change nothing. Every other refusal aborts
    /// the transaction and releases its workspace and pin.
    pub fn complete_controlled<H: Host>(
        &mut self,
        database: &Database,
        require_write: bool,
        session: &mut Session<H>,
    ) -> (done: Result<CompletionStep, WriteTxnError>)
        requires
            old(self).wf(),
            database.wf(),
        ensures
            final(self).wf(),
            final(session).metered() == old(session).metered(),
            closes(
                *old(self),
                *final(self),
                *database,
                require_write,
                old(session).metered(),
                old(session).log(),
                final(session).log(),
                done,
            ),
    {
        let ghost start = session.log();
        let ghost metered = session.metered();
        if let Err(error) = self.ensure_database(database) {
            return Err(error);
        }
        let guard = TxnCompletionGuard::new(database);
        // Health is checked even for an empty read set: no snapshot observation
        // can bless a handle fenced by an earlier ambiguous write.
        if let Err(error) = database.frontier() {
            guard.release(self, database);
            return Err(error);
        }
        if require_write && self.prepared.is_none() {
            guard.release(self, database);
            return Err(WriteTxnError::NoPreparedWrite);
        }
        if let Err(error) = session.checkpoint() {
            guard.release(self, database);
            return Err(error);
        }
        let ghost middle = session.log();
        let done = self.validate_and_accept(database, session, guard);
        proof {
            lemma_ticked_compose(start, middle, session.log(), metered);
        }
        done
    }

    /// Begin to complete an append on the current frontier. The append is
    /// re-evaluated there first; any refusal aborts the transaction.
    pub fn complete_rebased_controlled<H: Host>(
        &mut self,
        database: &Database,
        max_expanded_rows: u64,
        session: &mut Session<H>,
    ) -> (done: Result<CompletionStep, WriteTxnError>)
        requires
            old(self).wf(),
            database.wf(),
        ensures
            final(self).wf(),
            final(session).metered() == old(session).metered(),
            match ownership_refusal(*old(self), *database) {
                Some(error) => {
                    &&& done == Err::<CompletionStep, WriteTxnError>(error)
                    &&& *final(self) == *old(self)
                    &&& final(session).log() == old(session).log()
                },
                None => match entry_refusal(*old(self), *database, true) {
                    Some(error) => {
                        &&& done == Err::<CompletionStep, WriteTxnError>(error)
                        &&& aborted(*old(self), *final(self))
                        &&& final(session).log() == old(session).log()
                    },
                    None => completes_rebased(
                        *old(self),
                        *final(self),
                        *database,
                        max_expanded_rows,
                        old(session).metered(),
                        old(session).log(),
                        final(session).log(),
                        done,
                    ),
                },
            },
    {
        let ghost start = session.log();
        let ghost metered = session.metered();
        if let Err(error) = self.ensure_database(database) {
            return Err(error);
        }
        let guard = TxnCompletionGuard::new(database);
        if let Err(error) = database.frontier() {
            guard.release(self, database);
            return Err(error);
        }
        if self.prepared.is_none() {
            guard.release(self, database);
            return Err(WriteTxnError::NoPreparedWrite);
        }
        if let Err(error) = session.checkpoint() {
            guard.release(self, database);
            return Err(error);
        }
        let ghost entered = session.log();
        let ghost original = *self;
        let rebased = self.prepare_append_rebase(database, max_expanded_rows, session);
        let ghost moved = *self;
        let ghost evaluated = session.log();
        if let Err(error) = rebased {
            guard.release(self, database);
            proof {
                assert(rebases(
                    original,
                    moved,
                    *database,
                    max_expanded_rows,
                    metered,
                    entered,
                    evaluated,
                    Err::<(), WriteTxnError>(error),
                ));
            }
            return Err(error);
        }
        let done = self.validate_and_accept(database, session, guard);
        proof {
            assert(rebases(
                original,
                moved,
                *database,
                max_expanded_rows,
                metered,
                entered,
                evaluated,
                Ok::<(), WriteTxnError>(()),
            ));
        }
        done
    }

    /// Settle an accepted publication with the outcome that was reported, or
    /// with none when the attempt unwound or was dropped.
    pub fn settle(
        &mut self,
        database: &Database,
        guard: TxnCompletionGuard,
        reported: Option<Result<CommitSeq, WriteTxnError>>,
    ) -> (done: Option<Result<EmbeddedTxnCompletion, WriteTxnError>>)
        requires
            old(self).wf(),
            !old(self).state.terminal(),
        ensures
            final(self).wf(),
            final(self).discarded(),
            final(self).owner == old(self).owner,
            match reported {
                Some(Ok(commit_seq)) => {
                    let completion = EmbeddedTxnCompletion::WriteCommitted { commit_seq };
                    &&& done == Some(Ok::<EmbeddedTxnCompletion, WriteTxnError>(completion))
                    &&& final(self).state == EmbeddedTxnState::Completed(completion)
                },
                Some(Err(error)) => {
                    &&& done == Some(Err::<EmbeddedTxnCompletion, WriteTxnError>(error))
                    &&& final(self).state == interrupted_state(guard, database.state)
                },
                None => {
                    &&& done is None
                    &&& final(self).state == interrupted_state(guard, database.state)
                },
            },
    {
        match reported {
            Some(Ok(commit_seq)) => {
                let completion = EmbeddedTxnCompletion::WriteCommitted { commit_seq };
                self.state = EmbeddedTxnState::Completed(completion);
                guard.release(self, database);
                Some(Ok(completion))
            },
            Some(Err(error)) => {
                guard.release(self, database);
                Some(Err(error))
            },
            None => {
                guard.release(self, database);
                None
            },
        }
    }
}

/// What a rebased completion does: an entry checkpoint, the rebase, and then
/// validation and acceptance of the rebased transaction.
pub open spec fn completes_rebased(
    before: WriteTxn,
    after: WriteTxn,
    database: Database,
    max_expanded_rows: u64,
    metered: Metering,
    log: Seq<Event>,
    log_after: Seq<Event>,
    done: Result<CompletionStep, WriteTxnError>,
) -> bool {
    ||| ({
        &&& ticked(log, log_after, metered)
        &&& refused(log, log_after) matches Some(error)
        &&& done == Err::<CompletionStep, WriteTxnError>(error)
        &&& aborted(before, after)
    })
    ||| exists|entered: Seq<Event>, moved: WriteTxn, error: WriteTxnError|
        {
            &&& ticked(log, entered, metered)
            &&& refused(log, entered) is None
            &&& #[trigger] rebases(
                before,
                moved,
                database,
                max_expanded_rows,
                metered,
                entered,
                log_after,
                Err::<(), WriteTxnError>(error),
            )
            &&& done == Err::<CompletionStep, WriteTxnError>(error)
            &&& aborted(before, after)
        }
    ||| exists|entered: Seq<Event>, moved: WriteTxn, evaluated: Seq<Event>|
        {
            &&& ticked(log, entered, metered)
            &&& refused(log, entered) is None
            &&& #[trigger] rebases(
                before,
                moved,
                database,
                max_expanded_rows,
                metered,
                entered,
                evaluated,
                Ok::<(), WriteTxnError>(()),
            )
            &&& completes(moved, after, database, metered, evaluated, log_after, done)
        }
}

/// Only an unpublished attempt is reported as aborted, and only a published one
/// as committed.
pub proof fn law_interruption_is_never_guessed(guard: TxnCompletionGuard, state: DatabaseState)
    requires
        guard.entered_commit,
    ensures
        interrupted_state(guard, state) == EmbeddedTxnState::Aborted <==> state
            == (DatabaseState::Healthy { published_frontier: guard.starting_frontier }),
        interrupted_state(guard, state) is Completed ==> (state matches DatabaseState::Healthy {
            published_frontier,
        } && published_frontier.0 > guard.starting_frontier.0),
        state is CommitOutcomeUnknown ==> interrupted_state(guard, state) is CommitOutcomeUnknown,
        state is NeedsAuthoritativeRecovery ==> interrupted_state(
            guard,
            state,
        ) is CommittedNeedsRecovery,
{
}

/// Every classification is terminal.
pub proof fn law_completion_is_terminal(guard: TxnCompletionGuard, state: DatabaseState)
    ensures
        interrupted_state(guard, state).terminal(),
{
}

} // verus!
