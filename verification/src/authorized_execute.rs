//! Single authorized statements: frozen effects and one completion. A receipt is
//! handed out only once completion has accepted the workspace.

use vstd::prelude::*;
use crate::authorized_apply::{insert_rows, list_insertions, InsertIntent};
use crate::authorized_program::{apply_step, receipt_of, steps_once, StepProposal, StepReceipt};
use crate::authorized_run::runs;
use crate::authorized_statement::{lead_plan, stage_rows, Lead};
use crate::database::Database;
use crate::errors::WriteTxnError;
use crate::finish::{closes, ready, CompletionStep};
use crate::ids::RelationId;
use crate::plan::failure;
use crate::scope::Predicates;
use crate::session::{Event, Host, Metering, Session};
use crate::statement::{source, Fault};
use crate::txn::WriteTxn;

verus! {

/// Completion reported as a statement reports it.
pub open spec fn completed(
    before: WriteTxn,
    database: Database,
    metered: Metering,
    log: Seq<Event>,
    log_after: Seq<Event>,
    after: Option<(WriteTxn, CompletionStep)>,
    failed: Option<Fault>,
) -> bool {
    match after {
        Some((ended, step)) => failed is None && closes(
            before,
            ended,
            database,
            false,
            metered,
            log,
            log_after,
            Ok::<CompletionStep, WriteTxnError>(step),
        ),
        None => exists|ended: WriteTxn, error: WriteTxnError|
            failed == Some(Fault::Source(error)) && #[trigger] closes(
                before,
                ended,
                database,
                false,
                metered,
                log,
                log_after,
                Err::<CompletionStep, WriteTxnError>(error),
            ),
    }
}

/// The stages of a single statement.
pub struct StatementRun {
    pub applied: WriteTxn,
    pub log_staged: Seq<Event>,
    pub log_applied: Seq<Event>,
    pub failed: Option<Fault>,
    pub receipt: Result<StepReceipt, Fault>,
}

/// What a single statement does, whatever the host answers.
pub open spec fn executes(
    before: WriteTxn,
    database: Database,
    proposal: StepProposal,
    returning: bool,
    scope: Predicates,
    metered: Metering,
    log: Seq<Event>,
    log_after: Seq<Event>,
    run: StatementRun,
    done: Result<(StepReceipt, WriteTxn, CompletionStep), Fault>,
) -> bool {
    &&& steps_once(
        before,
        run.applied,
        database,
        proposal,
        returning,
        scope,
        log,
        run.log_staged,
        run.log_applied,
        run.failed,
        run.receipt,
    )
    &&& match run.receipt {
        Err(fault) => failure(done) == Some(fault) && log_after == run.log_applied,
        Ok(receipt) => match done {
            Ok((handed, ended, step)) => handed == receipt && completed(
                run.applied,
                database,
                metered,
                run.log_applied,
                log_after,
                Some((ended, step)),
                None,
            ),
            Err(fault) => completed(
                run.applied,
                database,
                metered,
                run.log_applied,
                log_after,
                None,
                Some(fault),
            ),
        },
    }
}

impl Database {
    /// Apply one frozen statement and complete its private workspace.
    pub fn execute_statement<H: Host>(
        &self,
        workspace: WriteTxn,
        proposal: StepProposal,
        returning: bool,
        scope: &Predicates,
        session: &mut Session<H>,
    ) -> (done: Result<(StepReceipt, WriteTxn, CompletionStep), Fault>)
        requires
            self.wf(),
            workspace.wf(),
            proposal matches StepProposal::Delete { proposal: targets, .. } ==> targets.wf(),
        ensures
            final(session).metered() == old(session).metered(),
            done matches Ok((receipt, ended, step)) ==> ready(ended, *self, step) && receipt_of(
                proposal,
                returning,
                receipt,
            ),
            exists|run: StatementRun| #[trigger]
                executes(
                    workspace,
                    *self,
                    proposal,
                    returning,
                    *scope,
                    old(session).metered(),
                    old(session).log(),
                    final(session).log(),
                    run,
                    done,
                ),
    {
        let ghost start = session.log();
        let ghost metered = session.metered();
        let ghost given = proposal;
        let ghost before = workspace;
        let mut transaction = workspace;
        let receipt = apply_step(&mut transaction, self, proposal, returning, scope, session);
        let ghost kept = receipt;
        let ghost log_applied = session.log();
        let ghost applied = transaction;
        let ghost (log_staged, failed) = choose|log_staged: Seq<Event>, failed: Option<Fault>|
            #[trigger] steps_once(
                before, applied, *self, given, returning, *scope, start, log_staged, log_applied,
                failed, kept,
            );
        let ghost run = StatementRun { applied, log_staged, log_applied, failed, receipt: kept };
        let receipt = match receipt {
            Ok(receipt) => receipt,
            Err(fault) => {
                proof {
                    assert(executes(
                        before, *self, given, returning, *scope, metered, start, session.log(),
                        run, Err(fault),
                    ));
                }
                return Err(fault);
            },
        };
        match transaction.complete_controlled(self, false, session) {
            Ok(step) => {
                proof {
                    assert(executes(
                        before, *self, given, returning, *scope, metered, start, session.log(),
                        run, Ok((receipt, transaction, step)),
                    ));
                }
                Ok((receipt, transaction, step))
            },
            Err(error) => {
                proof {
                    assert(closes(
                        applied, transaction, *self, false, metered, log_applied, session.log(),
                        Err::<CompletionStep, WriteTxnError>(error),
                    ));
                    assert(executes(
                        before, *self, given, returning, *scope, metered, start, session.log(),
                        run, Err(Fault::Source(error)),
                    ));
                }
                Err(Fault::Source(error))
            },
        }
    }

    /// Apply the creation of a single vertex MERGE, whose one result row was paid
    /// when its workspace opened, and complete.
    pub fn complete_vertex_merge<H: Host>(
        &self,
        workspace: WriteTxn,
        relation: RelationId,
        creation: Vec<InsertIntent>,
        scope: &Predicates,
        session: &mut Session<H>,
    ) -> (done: Result<(WriteTxn, CompletionStep), Fault>)
        requires
            self.wf(),
            workspace.wf(),
        ensures
            final(session).metered() == old(session).metered(),
            done matches Ok((ended, step)) ==> ready(ended, *self, step),
            exists|applied: WriteTxn, log_applied: Seq<Event>, failed: Option<Fault>|
                {
                    &&& #[trigger] runs(
                        insert_rows(relation, creation@),
                        lead_plan(Lead::Poll, insert_rows(relation, creation@)),
                        source(),
                        workspace,
                        applied,
                        *self,
                        *scope,
                        old(session).log(),
                        log_applied,
                        failed,
                    )
                    &&& finishes(
                        applied,
                        *self,
                        old(session).metered(),
                        log_applied,
                        final(session).log(),
                        failed,
                        done,
                    )
                },
    {
        let ghost start = session.log();
        let ghost before = workspace;
        let mut transaction = workspace;
        let rows = list_insertions(relation, creation);
        let staged = stage_rows(&mut transaction, self, &rows, Lead::Poll, scope, session);
        let ghost applied = transaction;
        let ghost log_applied = session.log();
        let ghost failed = failure(staged);
        proof {
            assert(runs(
                rows@, lead_plan(Lead::Poll, rows@), source(), before, applied, *self, *scope,
                start, log_applied, failed,
            ));
        }
        if let Err(fault) = staged {
            return Err(fault);
        }
        match transaction.complete_controlled(self, false, session) {
            Ok(step) => Ok((transaction, step)),
            Err(error) => {
                proof {
                    assert(closes(
                        applied, transaction, *self, false, old(session).metered(), log_applied,
                        session.log(), Err::<CompletionStep, WriteTxnError>(error),
                    ));
                }
                Err(Fault::Source(error))
            },
        }
    }
}

/// A statement that failed ends there; any other is completed.
pub open spec fn finishes(
    applied: WriteTxn,
    database: Database,
    metered: Metering,
    log: Seq<Event>,
    log_after: Seq<Event>,
    failed: Option<Fault>,
    done: Result<(WriteTxn, CompletionStep), Fault>,
) -> bool {
    match failed {
        Some(fault) => failure(done) == Some(fault) && log_after == log,
        None => match done {
            Ok((ended, step)) => completed(
                applied,
                database,
                metered,
                log,
                log_after,
                Some((ended, step)),
                None,
            ),
            Err(fault) => completed(
                applied,
                database,
                metered,
                log,
                log_after,
                None,
                Some(fault),
            ),
        },
    }
}

} // verus!
