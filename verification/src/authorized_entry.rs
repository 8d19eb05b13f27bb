//! Entry and exit of authorized statements: the checks before any graph access,
//! the private workspace, and its one completion.

use vstd::prelude::*;
use crate::authorized::denied;
use crate::authorized_run::{runs, stage_batches, unit_lead};
use crate::authorized_statement::row_charge;
use crate::batch::{intents, WriteBatch};
use crate::database::{frontier_of, Database};
use crate::errors::{Denial, LimitDimension, WriteError, WriteTxnError};
use crate::finish::{closes, ready, CompletionStep};
use crate::ids::RelationId;
use crate::plan::{
    ask, demand, failure, go, lemma_obeys_and, lemma_obeys_ask, lemma_obeys_failed,
    lemma_obeys_nothing, lemma_obeys_stop, lemma_step, obeys, same_error, stop, upto, whole, Plan,
};
use crate::scope::Predicates;
use crate::session::{lemma_ran_nothing, work_plan, Event, Host, Metering, Request, Session};
use crate::txn::{EmbeddedTxnState, WriteTxn};

verus! {

/// A private transaction that is aborted unless it was completed.
pub struct Workspace(pub Option<WriteTxn>);

impl Workspace {
    /// The transaction of an open workspace.
    pub fn transaction(&mut self) -> (transaction: &mut WriteTxn)
        requires
            old(self).0 is Some,
        ensures
            *transaction == old(self).0->0,
            final(self).0 == Some(*final(transaction)),
    {
        match &mut self.0 {
            Some(transaction) => transaction,
            None => vstd::pervasive::unreached(),
        }
    }

    /// Give the workspace up: its transaction is aborted.
    pub fn discard(self) -> (ended: Option<WriteTxn>)
        requires
            self.0 matches Some(txn) ==> txn.wf(),
        ensures
            match (self.0, ended) {
                (Some(txn), Some(after)) => after.wf() && after.state.terminal() && after.discarded(),
                (None, None) => true,
                _ => false,
            },
    {
        match self.0 {
            Some(transaction) => Some(transaction.abort()),
            None => None,
        }
    }
}

/// A freshly begun transaction.
pub open spec fn begun(txn: WriteTxn, database: Database) -> bool {
    &&& txn.wf()
    &&& txn.owner == database.owner
    &&& frontier_of(database.state) == Ok::<crate::ids::CommitSeq, WriteTxnError>(txn.basis)
    &&& txn.state == EmbeddedTxnState::Active
    &&& txn.pin == Some(txn.basis)
    &&& txn.staged@.len() == 0
    &&& txn.prepared is None
    &&& txn.savepoints@.len() == 0
    &&& !txn.observed()
}

/// What a verified capability says about a statement: its rights, then the scope
/// of a named relation.
pub open spec fn statement_refusal(
    scope: Predicates,
    reading: bool,
    relation: Option<RelationId>,
) -> Option<WriteTxnError> {
    if reading && !scope.can_read {
        Some(WriteTxnError::Authorization(Denial::PermissionDenied))
    } else if relation is Some && !scope.admits_relation(relation->0) {
        Some(denied())
    } else {
        None
    }
}

/// A refusal, or nothing.
pub open spec fn refusal_plan(refusal: Option<WriteTxnError>) -> Plan<WriteTxnError> {
    match refusal {
        Some(error) => stop(error),
        None => go(),
    }
}

/// The refusal of a handle on which nothing can begin.
pub open spec fn begin_refusal(database: Database) -> Option<WriteTxnError> {
    match frontier_of(database.state) {
        Ok(_) => None,
        Err(error) => Some(error),
    }
}

/// The refusal of a capability that could not be verified.
pub open spec fn verified_refusal(verified: Result<Predicates, Denial>) -> Option<WriteTxnError> {
    match verified {
        Ok(_) => None,
        Err(denial) => Some(WriteTxnError::Authorization(denial)),
    }
}

/// The checks before any graph access, in order: the issuer's namespace, the
/// capability, its rights, one signed unit, a prepaid result row where the
/// statement always delivers one, and the health of the handle.
pub open spec fn opening_steps(
    database: Database,
    namespace: u64,
    verified: Result<Predicates, Denial>,
    reading: bool,
    relation: Option<RelationId>,
    prepaid: bool,
) -> Seq<Plan<WriteTxnError>> {
    seq![
        demand(
            namespace == database.namespace,
            WriteTxnError::Authorization(Denial::WrongAuthority),
        ),
        refusal_plan(verified_refusal(verified)),
        refusal_plan(
            match verified {
                Ok(scope) => statement_refusal(scope, reading, relation),
                Err(_) => None,
            },
        ),
        ask(work_plan(1)),
        ask(
            if prepaid {
                row_charge()
            } else {
                Seq::empty()
            },
        ),
        refusal_plan(begin_refusal(database)),
    ]
}

pub proof fn lemma_refusal(log: Seq<Event>, refusal: Option<WriteTxnError>)
    ensures
        obeys(log, log, refusal_plan(refusal), same_error(), refusal),
{
    lemma_obeys_nothing(log, same_error());
    if refusal is Some {
        lemma_obeys_stop(log, same_error(), refusal->0);
    }
}

/// Check the capability against a statement.
fn check_statement(scope: &Predicates, reading: bool, relation: Option<RelationId>) -> (checked:
    Result<(), WriteTxnError>)
    ensures
        failure(checked) == statement_refusal(*scope, reading, relation),
{
    if reading && !scope.can_read {
        return Err(WriteTxnError::Authorization(Denial::PermissionDenied));
    }
    if let Some(named) = relation {
        if !scope.allows_relation(named) {
            return Err(WriteTxnError::Authorization(Denial::ScopeDenied));
        }
    }
    Ok(())
}

impl Database {
    /// Open the private workspace of an authorized statement. Rights are decided
    /// before anything is read, even where the statement would select nothing.
    pub fn open_authorized<H: Host>(
        &self,
        namespace: u64,
        verified: &Result<Predicates, Denial>,
        reading: bool,
        relation: Option<RelationId>,
        prepaid: bool,
        session: &mut Session<H>,
    ) -> (opened: Result<WriteTxn, WriteTxnError>)
        requires
            self.wf(),
        ensures
            final(session).metered() == old(session).metered(),
            obeys(
                old(session).log(),
                final(session).log(),
                whole(opening_steps(*self, namespace, *verified, reading, relation, prepaid)),
                same_error(),
                failure(opened),
            ),
            opened matches Ok(txn) ==> begun(txn, *self) && !txn.program_multi_relation,
    {
        let ghost start = session.log();
        let ghost steps = opening_steps(*self, namespace, *verified, reading, relation, prepaid);
        proof {
            lemma_obeys_nothing(start, same_error());
            lemma_obeys_stop(
                start,
                same_error(),
                WriteTxnError::Authorization(Denial::WrongAuthority),
            );
        }
        if namespace != self.namespace {
            let refusal = WriteTxnError::Authorization(Denial::WrongAuthority);
            proof {
                lemma_step(start, start, start, steps, 0, same_error(), Some(refusal));
            }
            return Err(refusal);
        }
        proof {
            lemma_step(start, start, start, steps, 0, same_error(), None);
            lemma_refusal(start, verified_refusal(*verified));
            lemma_step(
                start, start, start, steps, 1, same_error(), verified_refusal(*verified),
            );
        }
        let scope = match verified {
            Ok(scope) => scope,
            Err(denial) => return Err(WriteTxnError::Authorization(*denial)),
        };
        let checked = check_statement(scope, reading, relation);
        proof {
            lemma_refusal(start, failure(checked));
            lemma_step(start, start, start, steps, 2, same_error(), failure(checked));
        }
        if let Err(error) = checked {
            return Err(error);
        }
        let paid = session.work(1);
        let ghost log1 = session.log();
        proof {
            lemma_obeys_ask(start, log1, work_plan(1), same_error());
            lemma_step(start, start, log1, steps, 3, same_error(), failure(paid));
        }
        if let Err(error) = paid {
            return Err(error);
        }
        let paid = if prepaid {
            session.charge(LimitDimension::Rows, 1)
        } else {
            proof {
                lemma_ran_nothing(log1);
            }
            Ok(())
        };
        let ghost log2 = session.log();
        proof {
            lemma_obeys_ask(
                log1,
                log2,
                if prepaid {
                    row_charge()
                } else {
                    Seq::empty()
                },
                same_error(),
            );
            lemma_step(start, log1, log2, steps, 4, same_error(), failure(paid));
        }
        if let Err(error) = paid {
            return Err(error);
        }
        let opened = WriteTxn::begin(self);
        proof {
            lemma_refusal(log2, begin_refusal(*self));
            lemma_step(start, log2, log2, steps, 5, same_error(), begin_refusal(*self));
        }
        opened
    }
}

/// The refusal of a batch without intents.
pub open spec fn empty_batch() -> WriteTxnError {
    WriteTxnError::Write(WriteError::EmptyBatch)
}

/// The checks before an ordered write opens its workspace. Batch boundaries are
/// polled and cost nothing.
pub open spec fn ordered_steps(
    database: Database,
    namespace: u64,
    verified: Result<Predicates, Denial>,
    batches: Seq<WriteBatch>,
) -> Seq<Plan<WriteTxnError>> {
    seq![
        demand(
            namespace == database.namespace,
            WriteTxnError::Authorization(Denial::WrongAuthority),
        ),
        refusal_plan(verified_refusal(verified)),
        ask(work_plan(1)),
        demand(batches.len() > 0, empty_batch()),
    ] + Seq::new(
        batches.len(),
        |i: int|
            ask::<WriteTxnError>(seq![Request::Poll]).and(
                demand(batches[i].rows@.len() > 0, empty_batch()),
            ),
    ) + seq![refusal_plan(begin_refusal(database))]
}

impl Database {
    /// Open the private workspace of an ordered write.
    fn open_ordered<H: Host>(
        &self,
        namespace: u64,
        verified: &Result<Predicates, Denial>,
        batches: &Vec<WriteBatch>,
        session: &mut Session<H>,
    ) -> (opened: Result<WriteTxn, WriteTxnError>)
        requires
            self.wf(),
        ensures
            final(session).metered() == old(session).metered(),
            obeys(
                old(session).log(),
                final(session).log(),
                whole(ordered_steps(*self, namespace, *verified, batches@)),
                same_error(),
                failure(opened),
            ),
            opened matches Ok(txn) ==> begun(txn, *self) && verified is Ok,
    {
        let ghost start = session.log();
        let ghost steps = ordered_steps(*self, namespace, *verified, batches@);
        let ghost n = batches@.len() as int;
        proof {
            lemma_obeys_nothing(start, same_error());
            lemma_obeys_stop(
                start,
                same_error(),
                WriteTxnError::Authorization(Denial::WrongAuthority),
            );
        }
        if namespace != self.namespace {
            let refusal = WriteTxnError::Authorization(Denial::WrongAuthority);
            proof {
                lemma_step(start, start, start, steps, 0, same_error(), Some(refusal));
            }
            return Err(refusal);
        }
        proof {
            lemma_step(start, start, start, steps, 0, same_error(), None);
            lemma_refusal(start, verified_refusal(*verified));
            lemma_step(
                start, start, start, steps, 1, same_error(), verified_refusal(*verified),
            );
        }
        if let Err(denial) = verified {
            return Err(WriteTxnError::Authorization(*denial));
        }
        let paid = session.work(1);
        let ghost log1 = session.log();
        proof {
            lemma_obeys_ask(start, log1, work_plan(1), same_error());
            lemma_step(start, start, log1, steps, 2, same_error(), failure(paid));
        }
        if let Err(error) = paid {
            return Err(error);
        }
        proof {
            lemma_obeys_nothing(log1, same_error());
            lemma_obeys_stop(log1, same_error(), empty_batch());
        }
        if batches.len() == 0 {
            let refusal = WriteTxnError::Write(WriteError::EmptyBatch);
            proof {
                lemma_step(start, log1, log1, steps, 3, same_error(), Some(refusal));
            }
            return Err(refusal);
        }
        proof {
            lemma_step(start, log1, log1, steps, 3, same_error(), None);
        }
        let mut i: usize = 0;
        while i < batches.len()
            invariant
                i <= batches.len(),
                n == batches@.len(),
                start == old(session).log(),
                steps == ordered_steps(*self, namespace, *verified, batches@),
                session.metered() == old(session).metered(),
                obeys(start, session.log(), upto(steps, 4 + i), same_error(), None),
            decreases batches.len() - i,
        {
            let ghost log2 = session.log();
            let ghost poll = ask::<WriteTxnError>(seq![Request::Poll]);
            let ghost full = demand(batches@[i as int].rows@.len() > 0, empty_batch());
            assert(steps[4 + i] == poll.and(full));
            let polled = session.poll();
            let ghost log3 = session.log();
            proof {
                lemma_obeys_ask(log2, log3, seq![Request::Poll], same_error());
            }
            if let Err(error) = polled {
                proof {
                    lemma_obeys_failed(log2, log3, poll, full, same_error(), Some(error));
                    lemma_step(start, log2, log3, steps, 4 + i, same_error(), Some(error));
                }
                return Err(error);
            }
            proof {
                lemma_obeys_nothing(log3, same_error());
                lemma_obeys_stop(log3, same_error(), empty_batch());
            }
            if batches[i].is_empty() {
                let refusal = WriteTxnError::Write(WriteError::EmptyBatch);
                proof {
                    lemma_obeys_and(log2, log3, log3, poll, full, same_error(), Some(refusal));
                    lemma_step(start, log2, log3, steps, 4 + i, same_error(), Some(refusal));
                }
                return Err(refusal);
            }
            proof {
                lemma_obeys_and(log2, log3, log3, poll, full, same_error(), None);
                lemma_step(start, log2, log3, steps, 4 + i, same_error(), None);
            }
            i += 1;
        }
        let ghost log4 = session.log();
        let opened = WriteTxn::begin(self);
        proof {
            assert(steps[4 + n] == refusal_plan(begin_refusal(*self)));
            lemma_refusal(log4, begin_refusal(*self));
            lemma_step(start, log4, log4, steps, 4 + n, same_error(), begin_refusal(*self));
        }
        opened
    }

    /// Write source-ordered, dependent relation batches under one capability.
    /// Every original intent is authorized. A refusal anywhere discards the whole
    /// private workspace, and an empty program is refused before it opens.
    pub fn prepare_ordered_authorized<H: Host>(
        &self,
        namespace: u64,
        verified: &Result<Predicates, Denial>,
        batches: &Vec<WriteBatch>,
        session: &mut Session<H>,
    ) -> (done: Result<(WriteTxn, CompletionStep), WriteTxnError>)
        requires
            self.wf(),
        ensures
            final(session).metered() == old(session).metered(),
            done matches Ok((after, step)) ==> ready(after, *self, step) && step is Publish,
            exists|run: OrderedRun| #[trigger]
                writes_ordered(
                    *self,
                    namespace,
                    *verified,
                    batches@,
                    old(session).metered(),
                    old(session).log(),
                    final(session).log(),
                    run,
                    done,
                ),
    {
        let ghost start = session.log();
        let ghost metered = session.metered();
        let opened = self.open_ordered(namespace, verified, batches, session);
        let ghost log_opened = session.log();
        let ghost mut run = OrderedRun {
            log_opened,
            log_staged: log_opened,
            begun: arbitrary(),
            staged: arbitrary(),
            refused_open: None,
            refused_stage: None,
        };
        let mut transaction = match opened {
            Ok(transaction) => transaction,
            Err(error) => {
                proof {
                    run = OrderedRun { refused_open: Some(error), ..run };
                    assert(writes_ordered(
                        *self, namespace, *verified, batches@, metered, start, session.log(), run,
                        Err(error),
                    ));
                }
                return Err(error);
            },
        };
        proof {
            run = OrderedRun { begun: transaction, ..run };
        }
        let scope = match verified {
            Ok(scope) => scope,
            Err(denial) => {
                proof {
                    assert(false);
                }
                return Err(WriteTxnError::Authorization(*denial));
            },
        };
        let staged = stage_batches(&mut transaction, self, batches, scope, session);
        proof {
            run = OrderedRun {
                staged: transaction,
                log_staged: session.log(),
                refused_stage: failure(staged),
                ..run
            };
        }
        if let Err(error) = staged {
            proof {
                assert(writes_ordered(
                    *self, namespace, *verified, batches@, metered, start, session.log(), run,
                    Err(error),
                ));
            }
            return Err(error);
        }
        let step = transaction.complete_controlled(self, true, session);
        match step {
            Ok(step) => {
                proof {
                    assert(writes_ordered(
                        *self, namespace, *verified, batches@, metered, start, session.log(), run,
                        Ok((transaction, step)),
                    ));
                }
                Ok((transaction, step))
            },
            Err(error) => {
                proof {
                    assert(closes(
                        run.staged, transaction, *self, true, metered, run.log_staged,
                        session.log(), Err::<CompletionStep, WriteTxnError>(error),
                    ));
                    assert(writes_ordered(
                        *self, namespace, *verified, batches@, metered, start, session.log(), run,
                        Err(error),
                    ));
                }
                Err(error)
            },
        }
    }

    /// Write one batch under one capability.
    pub fn prepare_authorized<H: Host>(
        &self,
        namespace: u64,
        verified: &Result<Predicates, Denial>,
        batch: WriteBatch,
        session: &mut Session<H>,
    ) -> (done: Result<(WriteTxn, CompletionStep), WriteTxnError>)
        requires
            self.wf(),
        ensures
            final(session).metered() == old(session).metered(),
            done matches Ok((after, step)) ==> ready(after, *self, step) && step is Publish,
            exists|run: OrderedRun| #[trigger]
                writes_ordered(
                    *self,
                    namespace,
                    *verified,
                    seq![batch],
                    old(session).metered(),
                    old(session).log(),
                    final(session).log(),
                    run,
                    done,
                ),
    {
        let mut batches: Vec<WriteBatch> = Vec::new();
        batches.push(batch);
        assert(batches@ =~= seq![batch]);
        self.prepare_ordered_authorized(namespace, verified, &batches, session)
    }
}

/// The stages of an ordered write.
pub struct OrderedRun {
    pub log_opened: Seq<Event>,
    pub log_staged: Seq<Event>,
    pub begun: WriteTxn,
    pub staged: WriteTxn,
    pub refused_open: Option<WriteTxnError>,
    pub refused_stage: Option<WriteTxnError>,
}

/// What an ordered write does, whatever the host answers: it opens, stages every
/// intent in order, and completes once. It never closes as a read.
pub open spec fn writes_ordered(
    database: Database,
    namespace: u64,
    verified: Result<Predicates, Denial>,
    batches: Seq<WriteBatch>,
    metered: Metering,
    log: Seq<Event>,
    log_after: Seq<Event>,
    run: OrderedRun,
    done: Result<(WriteTxn, CompletionStep), WriteTxnError>,
) -> bool {
    &&& obeys(
        log,
        run.log_opened,
        whole(ordered_steps(database, namespace, verified, batches)),
        same_error(),
        run.refused_open,
    )
    &&& match run.refused_open {
        Some(error) => failure(done) == Some(error) && log_after == run.log_opened,
        None => {
            &&& begun(run.begun, database)
            &&& verified is Ok
            &&& runs(
                intents(batches),
                unit_lead(),
                same_error(),
                run.begun,
                run.staged,
                database,
                verified->Ok_0,
                run.log_opened,
                run.log_staged,
                run.refused_stage,
            )
            &&& match run.refused_stage {
                Some(error) => failure(done) == Some(error) && log_after == run.log_staged,
                None => match done {
                    Ok((after, step)) => closes(
                        run.staged,
                        after,
                        database,
                        true,
                        metered,
                        run.log_staged,
                        log_after,
                        Ok::<CompletionStep, WriteTxnError>(step),
                    ),
                    Err(error) => exists|after: WriteTxn| #[trigger]
                        closes(
                            run.staged,
                            after,
                            database,
                            true,
                            metered,
                            run.log_staged,
                            log_after,
                            Err::<CompletionStep, WriteTxnError>(error),
                        ),
                },
            }
        },
    }
}

} // verus!
