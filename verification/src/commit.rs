//! Commit and finish: completion, durable publication and its settlement.
//!
//! Durable publication is outside. Its report decides what the handle publishes, and
//! how far the handle may still be trusted.

use vstd::prelude::*;
use crate::database::Database;
use crate::errors::{DatabaseState, WriteTxnError};
use crate::finish::{
    aborted, closes, completes_rebased, entry_refusal, interrupted_state, ready, CompletionStep,
};
use crate::ids::CommitSeq;
use crate::publisher::{Fence, Publication, Publisher, PublisherRecord, Requested};
use crate::read_laws::published;
use crate::session::{Host, Session};
use crate::txn::{
    ownership_refusal, EmbeddedTxnCompletion, EmbeddedTxnState, PreparedWrite, WriteTxn,
};

verus! {

/// The handle, but for its state.
pub open spec fn same_history(before: Database, after: Database) -> bool {
    &&& after.owner == before.owner
    &&& after.namespace == before.namespace
    &&& after.base_seq == before.base_seq
    &&& after.base_edges == before.base_edges
    &&& after.base_vertices == before.base_vertices
    &&& after.standing == before.standing
    &&& after.log == before.log
}

/// What a report does to the handle.
pub open spec fn takes_report(
    before: Database,
    after: Database,
    prepared: PreparedWrite,
    report: Publication,
) -> bool {
    let seq = CommitSeq((before.tip() + 1) as u64);
    match report {
        Publication::Durable => {
            &&& published(before, after, prepared.template)
            &&& after.state == (DatabaseState::Healthy { published_frontier: seq })
            &&& after.owner == before.owner
            &&& after.namespace == before.namespace
            &&& after.standing@ == before.standing@
        },
        Publication::Failed { fence, .. } => {
            &&& same_history(before, after)
            &&& after.state == match fence {
                Fence::Clear => before.state,
                Fence::Unknown => DatabaseState::CommitOutcomeUnknown {
                    published_frontier: CommitSeq(before.tip() as u64),
                },
                Fence::Recovery => DatabaseState::NeedsAuthoritativeRecovery {
                    durable_frontier: seq,
                },
            }
        },
    }
}

/// How an accepted completion ends.
pub open spec fn settles(
    accepted: WriteTxn,
    ended: WriteTxn,
    before: Database,
    after: Database,
    step: CompletionStep,
    report: Publication,
    done: Result<EmbeddedTxnCompletion, WriteTxnError>,
) -> bool {
    match step {
        CompletionStep::Closed(completion) => {
            &&& done == Ok::<EmbeddedTxnCompletion, WriteTxnError>(completion)
            &&& ended == accepted
            &&& after == before
        },
        CompletionStep::Publish { prepared, guard } => {
            &&& takes_report(before, after, prepared, report)
            &&& ended.discarded()
            &&& ended.owner == accepted.owner
            &&& match report {
                Publication::Durable => {
                    let completion = EmbeddedTxnCompletion::WriteCommitted {
                        commit_seq: CommitSeq((before.tip() + 1) as u64),
                    };
                    &&& done == Ok::<EmbeddedTxnCompletion, WriteTxnError>(completion)
                    &&& ended.state == EmbeddedTxnState::Completed(completion)
                },
                Publication::Failed { error, .. } => {
                    &&& done == Err::<EmbeddedTxnCompletion, WriteTxnError>(error)
                    &&& ended.state == interrupted_state(guard, after.state)
                },
            }
        },
    }
}

/// The run of one completion: what validation accepted, and what was reported.
pub struct CompletionRun {
    pub accepted: WriteTxn,
    pub closed: Result<CompletionStep, WriteTxnError>,
    pub report: Publication,
}

/// How a completion runs once its validation has answered.
pub open spec fn concludes_completion(
    ended: WriteTxn,
    before: Database,
    after: Database,
    run: CompletionRun,
    done: Result<EmbeddedTxnCompletion, WriteTxnError>,
) -> bool {
    match run.closed {
        Err(error) => {
            &&& done == Err::<EmbeddedTxnCompletion, WriteTxnError>(error)
            &&& ended == run.accepted
            &&& after == before
        },
        Ok(step) => settles(run.accepted, ended, before, after, step, run.report, done),
    }
}

/// What was asked of the publisher: an accepted write, once, under the next commit
/// sequence, and nothing otherwise.
pub open spec fn requests(
    before: Database,
    run: CompletionRun,
    asked: Seq<Requested>,
    asked_after: Seq<Requested>,
) -> bool {
    match run.closed {
        Ok(CompletionStep::Publish { prepared, .. }) => asked_after == asked.push(
            Requested {
                prepared,
                commit_seq: CommitSeq((before.tip() + 1) as u64),
                report: run.report,
            },
        ),
        _ => asked_after == asked,
    }
}

/// The commit sequence of a completed write.
pub open spec fn sequence(done: Result<EmbeddedTxnCompletion, WriteTxnError>) -> Option<
    Result<CommitSeq, WriteTxnError>,
> {
    match done {
        Ok(EmbeddedTxnCompletion::WriteCommitted { commit_seq }) => Some(Ok(commit_seq)),
        Ok(EmbeddedTxnCompletion::ReadClosed { .. }) => None,
        Err(error) => Some(Err(error)),
    }
}

impl Database {
    /// Take a report in.
    pub fn take_report(&mut self, prepared: PreparedWrite, report: Publication) -> (reported: Result<
        CommitSeq,
        WriteTxnError,
    >)
        requires
            old(self).wf(),
            old(self).state is Healthy,
            old(self).tip() < u64::MAX,
            prepared.template.wf(),
        ensures
            final(self).wf(),
            takes_report(*old(self), *final(self), prepared, report),
            match report {
                Publication::Durable => reported == Ok::<CommitSeq, WriteTxnError>(
                    CommitSeq((old(self).tip() + 1) as u64),
                ),
                Publication::Failed { error, .. } => reported == Err::<CommitSeq, WriteTxnError>(
                    error,
                ),
            },
    {
        match report {
            Publication::Durable => Ok(self.publish(prepared.template)),
            Publication::Failed { error, fence } => {
                let at = self.snapshot_frontier();
                match fence {
                    Fence::Clear => {},
                    Fence::Unknown => {
                        self.state = DatabaseState::CommitOutcomeUnknown { published_frontier: at };
                    },
                    Fence::Recovery => {
                        self.state =
                        DatabaseState::NeedsAuthoritativeRecovery {
                            durable_frontier: CommitSeq(at.0 + 1),
                        };
                    },
                }
                Err(error)
            },
        }
    }
}

impl WriteTxn {
    /// Publish what completion accepted, and settle with the report.
    pub fn conclude<P: Publisher>(
        &mut self,
        database: &mut Database,
        step: CompletionStep,
        publisher: &mut PublisherRecord<P>,
    ) -> (concluded: (Result<EmbeddedTxnCompletion, WriteTxnError>, Ghost<Publication>))
        requires
            old(database).wf(),
            old(database).tip() < u64::MAX,
            ready(*old(self), *old(database), step),
        ensures
            final(self).wf(),
            final(database).wf(),
            settles(
                *old(self),
                *final(self),
                *old(database),
                *final(database),
                step,
                concluded.1@,
                concluded.0,
            ),
            match step {
                CompletionStep::Publish { prepared, .. } => final(publisher).asked() == old(publisher).asked().push(
                    Requested {
                        prepared,
                        commit_seq: CommitSeq((old(database).tip() + 1) as u64),
                        report: concluded.1@,
                    },
                ),
                _ => final(publisher).asked() == old(publisher).asked(),
            },
    {
        match step {
            CompletionStep::Closed(completion) => (Ok(completion), Ghost(arbitrary())),
            CompletionStep::Publish { prepared, guard } => {
                let seq = CommitSeq(database.snapshot_frontier().0 + 1);
                let report = publisher.publish(&prepared, seq);
                let reported = database.take_report(prepared, report);
                match self.settle(database, guard, Some(reported)) {
                    Some(done) => (done, Ghost(report)),
                    None => (Err(WriteTxnError::NoPreparedWrite), Ghost(report)),
                }
            },
        }
    }

    fn complete<P: Publisher, H: Host>(
        &mut self,
        database: &mut Database,
        require_write: bool,
        publisher: &mut PublisherRecord<P>,
        session: &mut Session<H>,
    ) -> (done: Result<EmbeddedTxnCompletion, WriteTxnError>)
        requires
            old(self).wf(),
            old(database).wf(),
            old(database).tip() < u64::MAX,
        ensures
            final(self).wf(),
            final(database).wf(),
            final(session).metered() == old(session).metered(),
            require_write ==> sequence(done) is Some,
            exists|run: CompletionRun|
                {
                    &&& #[trigger] closes(
                        *old(self),
                        run.accepted,
                        *old(database),
                        require_write,
                        old(session).metered(),
                        old(session).log(),
                        final(session).log(),
                        run.closed,
                    )
                    &&& concludes_completion(
                        *final(self),
                        *old(database),
                        *final(database),
                        run,
                        done,
                    )
                    &&& requests(
                        *old(database),
                        run,
                        old(publisher).asked(),
                        final(publisher).asked(),
                    )
                },
    {
        let ghost opened = *self;
        let ghost start = session.log();
        let ghost handle = *database;
        let closed = self.complete_controlled(database, require_write, session);
        let ghost mut run = CompletionRun { accepted: *self, closed, report: arbitrary() };
        match closed {
            Err(error) => {
                assert(closes(
                    opened, run.accepted, handle, require_write, session.metered(), start,
                    session.log(), run.closed,
                ));
                Err(error)
            },
            Ok(step) => {
                let (done, Ghost(report)) = self.conclude(database, step, publisher);
                proof {
                    run = CompletionRun { report, ..run };
                    assert(closes(
                        opened, run.accepted, handle, require_write, session.metered(), start,
                        session.log(), run.closed,
                    ));
                }
                done
            },
        }
    }

    /// Validate recorded dependencies and complete either kind of workspace. A
    /// prepared batch is published; without one, the transaction closes as a read
    /// and nothing is written.
    pub fn finish<P: Publisher, H: Host>(
        &mut self,
        database: &mut Database,
        publisher: &mut PublisherRecord<P>,
        session: &mut Session<H>,
    ) -> (done: Result<EmbeddedTxnCompletion, WriteTxnError>)
        requires
            old(self).wf(),
            old(database).wf(),
            old(database).tip() < u64::MAX,
        ensures
            final(self).wf(),
            final(database).wf(),
            final(session).metered() == old(session).metered(),
            exists|run: CompletionRun|
                {
                    &&& #[trigger] closes(
                        *old(self),
                        run.accepted,
                        *old(database),
                        false,
                        old(session).metered(),
                        old(session).log(),
                        final(session).log(),
                        run.closed,
                    )
                    &&& concludes_completion(
                        *final(self),
                        *old(database),
                        *final(database),
                        run,
                        done,
                    )
                    &&& requests(
                        *old(database),
                        run,
                        old(publisher).asked(),
                        final(publisher).asked(),
                    )
                },
    {
        self.complete(database, false, publisher, session)
    }

    /// Require a prepared write, validate it, publish it and release the pin.
    pub fn commit<P: Publisher, H: Host>(
        &mut self,
        database: &mut Database,
        publisher: &mut PublisherRecord<P>,
        session: &mut Session<H>,
    ) -> (committed: Result<CommitSeq, WriteTxnError>)
        requires
            old(self).wf(),
            old(database).wf(),
            old(database).tip() < u64::MAX,
        ensures
            final(self).wf(),
            final(database).wf(),
            final(session).metered() == old(session).metered(),
            exists|run: CompletionRun, done: Result<EmbeddedTxnCompletion, WriteTxnError>|
                {
                    &&& #[trigger] closes(
                        *old(self),
                        run.accepted,
                        *old(database),
                        true,
                        old(session).metered(),
                        old(session).log(),
                        final(session).log(),
                        run.closed,
                    )
                    &&& #[trigger] concludes_completion(
                        *final(self),
                        *old(database),
                        *final(database),
                        run,
                        done,
                    )
                    &&& requests(
                        *old(database),
                        run,
                        old(publisher).asked(),
                        final(publisher).asked(),
                    )
                    &&& sequence(done) == Some(committed)
                },
    {
        match self.complete(database, true, publisher, session) {
            Ok(EmbeddedTxnCompletion::WriteCommitted { commit_seq }) => Ok(commit_seq),
            Ok(EmbeddedTxnCompletion::ReadClosed { .. }) => {
                assert(false);
                Err(WriteTxnError::NoPreparedWrite)
            },
            Err(error) => Err(error),
        }
    }

    /// Commit an append on the current frontier. It is re-evaluated there first; any
    /// refusal aborts the transaction.
    pub fn commit_append_only_rebased<P: Publisher, H: Host>(
        &mut self,
        database: &mut Database,
        max_expanded_rows: u64,
        publisher: &mut PublisherRecord<P>,
        session: &mut Session<H>,
    ) -> (committed: Result<CommitSeq, WriteTxnError>)
        requires
            old(self).wf(),
            old(database).wf(),
            old(database).tip() < u64::MAX,
        ensures
            final(self).wf(),
            final(database).wf(),
            final(session).metered() == old(session).metered(),
            exists|run: CompletionRun, done: Result<EmbeddedTxnCompletion, WriteTxnError>|
                {
                    &&& #[trigger] closes_rebased(
                        *old(self),
                        *old(database),
                        max_expanded_rows,
                        *old(session),
                        *final(session),
                        run,
                    )
                    &&& #[trigger] concludes_completion(
                        *final(self),
                        *old(database),
                        *final(database),
                        run,
                        done,
                    )
                    &&& requests(
                        *old(database),
                        run,
                        old(publisher).asked(),
                        final(publisher).asked(),
                    )
                    &&& sequence(done) == Some(committed)
                },
    {
        let ghost opened = *self;
        let ghost before = *session;
        let ghost handle = *database;
        let closed = self.complete_rebased_controlled(database, max_expanded_rows, session);
        let ghost mut run = CompletionRun { accepted: *self, closed, report: arbitrary() };
        match closed {
            Err(error) => {
                proof {
                    assert(closes_rebased(
                        opened, handle, max_expanded_rows, before, *session, run,
                    ));
                    assert(concludes_completion(*self, handle, *database, run, Err(error)));
                }
                Err(error)
            },
            Ok(step) => {
                let (done, Ghost(report)) = self.conclude(database, step, publisher);
                proof {
                    run = CompletionRun { report, ..run };
                    assert(closes_rebased(
                        opened, handle, max_expanded_rows, before, *session, run,
                    ));
                    assert(concludes_completion(*self, handle, *database, run, done));
                }
                match done {
                    Ok(EmbeddedTxnCompletion::WriteCommitted { commit_seq }) => Ok(commit_seq),
                    Ok(EmbeddedTxnCompletion::ReadClosed { .. }) => {
                        assert(false);
                        Err(WriteTxnError::NoPreparedWrite)
                    },
                    Err(error) => Err(error),
                }
            },
        }
    }
}

/// How the validation of a rebased append answers.
pub open spec fn closes_rebased<H>(
    before: WriteTxn,
    database: Database,
    max_expanded_rows: u64,
    session: Session<H>,
    session_after: Session<H>,
    run: CompletionRun,
) -> bool {
    match ownership_refusal(before, database) {
        Some(error) => {
            &&& run.closed == Err::<CompletionStep, WriteTxnError>(error)
            &&& run.accepted == before
            &&& session_after.log() == session.log()
        },
        None => match entry_refusal(before, database, true) {
            Some(error) => {
                &&& run.closed == Err::<CompletionStep, WriteTxnError>(error)
                &&& aborted(before, run.accepted)
                &&& session_after.log() == session.log()
            },
            None => completes_rebased(
                before,
                run.accepted,
                database,
                max_expanded_rows,
                session.metered(),
                session.log(),
                session_after.log(),
                run.closed,
            ),
        },
    }
}

} // verus!
