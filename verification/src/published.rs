//! Authorized and autocommitted statements and programs as one call each: prepared,
//! published, settled. What publication reports decides what the caller gets.

use vstd::prelude::*;
use crate::authorized_edge::runs_edge_merge;
use crate::authorized_entry::{writes_ordered, OrderedRun};
use crate::authorized_program::{ProgramInterrupted, StatementKind, StepReceipt};
use crate::authorized_statements::{
    runs_mutations, runs_program, runs_statement, runs_vertex_merge, ProgramFault,
};
use crate::autocommit::{
    autocommits_merge, autocommits_upsert, lifecycle, lifecycle_fault, Reporter,
};
use crate::autocommit_statements::{autocommits, AutocommitRun};
use crate::batch::WriteBatch;
use crate::collector::{Collector, Prepared, Recorder, Statement};
use crate::commit::{requests, sequence, settles, CompletionRun};
use crate::database::Database;
use crate::edge_merge::{
    GraphEdgeMerge, GraphEdgeMergeOutcome, GraphEdgeMergePolicy, GraphEdgeMergeStats,
};
use crate::edge_upsert::{GraphEdgeUpsert, GraphEdgeUpsertPolicy, GraphEdgeUpsertStats};
use crate::errors::{Denial, WriteTxnError};
use crate::executor::{Executor, ExecutorRecord};
use crate::finish::{ready, CompletionStep};
use crate::identity::IdentityState;
use crate::ids::{CommitSeq, VId};
use crate::plan::failure;
use crate::publisher::{Publication, Publisher, PublisherRecord, Requested};
use crate::scope::Predicates;
use crate::selector::{PairSelector, ScopedRecord, ScopedSelector, SelectorRecord};
use crate::session::{Host, Session};
use crate::statement::{Fault, ProgramStats, StatementStats};
use crate::txn::{EmbeddedTxnCompletion, WriteTxn};

verus! {

/// What publication makes of an accepted workspace: an accepted write is asked for
/// once, under the next commit sequence, and the report settles it; a closed read
/// asks nothing.
pub open spec fn publishes(
    accepted: WriteTxn,
    step: CompletionStep,
    before: Database,
    after: Database,
    asked: Seq<Requested>,
    asked_after: Seq<Requested>,
    done: Result<EmbeddedTxnCompletion, WriteTxnError>,
) -> bool {
    exists|ended: WriteTxn, report: Publication|
        {
            &&& #[trigger] settles(accepted, ended, before, after, step, report, done)
            &&& requests(
                before,
                CompletionRun { accepted, closed: Ok(step), report },
                asked,
                asked_after,
            )
        }
}

/// How a prepared call ends. A refused one publishes nothing; what an accepted one
/// hands over escapes only with a completion.
pub open spec fn ends_published<T, F>(
    before: Database,
    after: Database,
    wrap: spec_fn(T, WriteTxnError) -> F,
    prepared: Result<(T, WriteTxn, CompletionStep), F>,
    asked: Seq<Requested>,
    asked_after: Seq<Requested>,
    done: Result<(T, EmbeddedTxnCompletion), F>,
) -> bool {
    match prepared {
        Err(fault) => {
            &&& failure(done) == Some(fault)
            &&& after == before
            &&& asked_after == asked
        },
        Ok((value, accepted, step)) => exists|
            completed: Result<EmbeddedTxnCompletion, WriteTxnError>,
        |
            {
                &&& #[trigger] publishes(
                    accepted,
                    step,
                    before,
                    after,
                    asked,
                    asked_after,
                    completed,
                )
                &&& done == (match completed {
                    Ok(completion) => Ok((value, completion)),
                    Err(error) => Err(wrap(value, error)),
                })
            },
    }
}

/// A failed publication, as a statement reports it.
pub open spec fn statement_wrap<T>(reporter: Reporter) -> spec_fn(T, WriteTxnError) -> Fault {
    |value: T, error: WriteTxnError| lifecycle(reporter, error)
}

/// A failed publication, as an authorized program reports it: with the number of its
/// finished statements.
pub open spec fn program_wrap() -> spec_fn(
    (ProgramStats, Vec<StepReceipt>),
    WriteTxnError,
) -> ProgramFault {
    |value: (ProgramStats, Vec<StepReceipt>), error: WriteTxnError|
        ProgramFault::Interrupted(
            ProgramInterrupted {
                completed_statements: value.0.completed_statements,
                source: error,
            },
        )
}

/// Two parts of a receipt as one.
pub open spec fn paired<A, B, F>(prepared: Result<(A, B, WriteTxn, CompletionStep), F>) -> Result<
    ((A, B), WriteTxn, CompletionStep),
    F,
> {
    match prepared {
        Ok((first, second, accepted, step)) => Ok(((first, second), accepted, step)),
        Err(fault) => Err(fault),
    }
}

/// Three parts of a receipt as one.
pub open spec fn tripled<A, B, C, F>(
    prepared: Result<(A, B, C, WriteTxn, CompletionStep), F>,
) -> Result<((A, B, C), WriteTxn, CompletionStep), F> {
    match prepared {
        Ok((first, second, third, accepted, step)) => Ok(
            ((first, second, third), accepted, step),
        ),
        Err(fault) => Err(fault),
    }
}

impl Database {
    /// Publish an accepted workspace.
    fn publish_accepted<P: Publisher>(
        &mut self,
        accepted: WriteTxn,
        step: CompletionStep,
        publisher: &mut PublisherRecord<P>,
    ) -> (done: Result<EmbeddedTxnCompletion, WriteTxnError>)
        requires
            old(self).wf(),
            old(self).tip() < u64::MAX,
            ready(accepted, *old(self), step),
        ensures
            final(self).wf(),
            publishes(
                accepted,
                step,
                *old(self),
                *final(self),
                old(publisher).asked(),
                final(publisher).asked(),
                done,
            ),
    {
        let ghost before = *self;
        let ghost given = step;
        let mut ended = accepted;
        let (done, Ghost(report)) = ended.conclude(self, step, publisher);
        assert(settles(accepted, ended, before, *self, given, report, done));
        done
    }

    /// Publish a prepared statement.
    fn publish_statement<T, P: Publisher>(
        &mut self,
        reporter: Reporter,
        prepared: Result<(T, WriteTxn, CompletionStep), Fault>,
        publisher: &mut PublisherRecord<P>,
    ) -> (done: Result<(T, EmbeddedTxnCompletion), Fault>)
        requires
            old(self).wf(),
            old(self).tip() < u64::MAX,
            prepared matches Ok((_, accepted, step)) ==> ready(accepted, *old(self), step),
        ensures
            final(self).wf(),
            ends_published(
                *old(self),
                *final(self),
                statement_wrap(reporter),
                prepared,
                old(publisher).asked(),
                final(publisher).asked(),
                done,
            ),
    {
        match prepared {
            Err(fault) => Err(fault),
            Ok((value, accepted, step)) => match self.publish_accepted(accepted, step, publisher) {
                Ok(completion) => Ok((value, completion)),
                Err(error) => Err(lifecycle_fault(reporter, error)),
            },
        }
    }

    /// Publish a prepared program.
    fn publish_program<P: Publisher>(
        &mut self,
        prepared: Result<
            ((ProgramStats, Vec<StepReceipt>), WriteTxn, CompletionStep),
            ProgramFault,
        >,
        publisher: &mut PublisherRecord<P>,
    ) -> (done: Result<((ProgramStats, Vec<StepReceipt>), EmbeddedTxnCompletion), ProgramFault>)
        requires
            old(self).wf(),
            old(self).tip() < u64::MAX,
            prepared matches Ok((_, accepted, step)) ==> ready(accepted, *old(self), step),
        ensures
            final(self).wf(),
            ends_published(
                *old(self),
                *final(self),
                program_wrap(),
                prepared,
                old(publisher).asked(),
                final(publisher).asked(),
                done,
            ),
    {
        match prepared {
            Err(fault) => Err(fault),
            Ok((value, accepted, step)) => {
                let completed_statements = value.0.completed_statements;
                match self.publish_accepted(accepted, step, publisher) {
                    Ok(completion) => Ok((value, completion)),
                    Err(error) => Err(
                        ProgramFault::Interrupted(
                            ProgramInterrupted { completed_statements, source: error },
                        ),
                    ),
                }
            },
        }
    }
}

impl Database {
    /// Update what a MATCH selects.
    pub fn execute_graph_mutation_authorized<C: Collector, P: Publisher, H: Host>(
        &mut self,
        namespace: u64,
        verified: &Result<Predicates, Denial>,
        statement: Statement,
        identities: &mut IdentityState,
        collector: &mut Recorder<C>,
        publisher: &mut PublisherRecord<P>,
        session: &mut Session<H>,
    ) -> (done: Result<((StatementStats, StepReceipt), EmbeddedTxnCompletion), Fault>)
        requires
            old(self).wf(),
            old(self).tip() < u64::MAX,
        ensures
            final(self).wf(),
            final(session).metered() == old(session).metered(),
            exists|
                prepared: Result<(StatementStats, StepReceipt, WriteTxn, CompletionStep), Fault>,
            |
                {
                    &&& #[trigger] runs_statement(
                        *old(self),
                        namespace,
                        *verified,
                        true,
                        None,
                        Prepared { kind: StatementKind::Mutation, statement },
                        false,
                        old(session).metered(),
                        *old(identities),
                        *final(identities),
                        old(session).log(),
                        final(session).log(),
                        old(collector).asked(),
                        final(collector).asked(),
                        prepared,
                    )
                    &&& ends_published(
                        *old(self),
                        *final(self),
                        statement_wrap(Reporter::Statement),
                        paired(prepared),
                        old(publisher).asked(),
                        final(publisher).asked(),
                        done,
                    )
                },
    {
        let prepared = self.prepare_graph_mutation_authorized(
            namespace,
            verified,
            statement,
            identities,
            collector,
            session,
        );
        let ghost kept = prepared;
        let handed = match prepared {
            Ok((stats, receipt, accepted, step)) => Ok(((stats, receipt), accepted, step)),
            Err(fault) => Err(fault),
        };
        assert(handed == paired(kept));
        self.publish_statement(Reporter::Statement, handed, publisher)
    }

    /// Update what a MATCH selects, and return the identities.
    pub fn execute_graph_mutation_returning_authorized<C: Collector, P: Publisher, H: Host>(
        &mut self,
        namespace: u64,
        verified: &Result<Predicates, Denial>,
        statement: Statement,
        identities: &mut IdentityState,
        collector: &mut Recorder<C>,
        publisher: &mut PublisherRecord<P>,
        session: &mut Session<H>,
    ) -> (done: Result<((StatementStats, StepReceipt), EmbeddedTxnCompletion), Fault>)
        requires
            old(self).wf(),
            old(self).tip() < u64::MAX,
        ensures
            final(self).wf(),
            final(session).metered() == old(session).metered(),
            exists|
                prepared: Result<(StatementStats, StepReceipt, WriteTxn, CompletionStep), Fault>,
            |
                {
                    &&& #[trigger] runs_statement(
                        *old(self),
                        namespace,
                        *verified,
                        true,
                        None,
                        Prepared { kind: StatementKind::Mutation, statement },
                        true,
                        old(session).metered(),
                        *old(identities),
                        *final(identities),
                        old(session).log(),
                        final(session).log(),
                        old(collector).asked(),
                        final(collector).asked(),
                        prepared,
                    )
                    &&& ends_published(
                        *old(self),
                        *final(self),
                        statement_wrap(Reporter::Statement),
                        paired(prepared),
                        old(publisher).asked(),
                        final(publisher).asked(),
                        done,
                    )
                },
    {
        let prepared = self.prepare_graph_mutation_returning_authorized(
            namespace,
            verified,
            statement,
            identities,
            collector,
            session,
        );
        let ghost kept = prepared;
        let handed = match prepared {
            Ok((stats, receipt, accepted, step)) => Ok(((stats, receipt), accepted, step)),
            Err(fault) => Err(fault),
        };
        assert(handed == paired(kept));
        self.publish_statement(Reporter::Statement, handed, publisher)
    }

    /// Create what a statement describes, for each match where it selects.
    pub fn execute_graph_insert_authorized<C: Collector, P: Publisher, H: Host>(
        &mut self,
        namespace: u64,
        verified: &Result<Predicates, Denial>,
        selects: bool,
        statement: Statement,
        identities: &mut IdentityState,
        collector: &mut Recorder<C>,
        publisher: &mut PublisherRecord<P>,
        session: &mut Session<H>,
    ) -> (done: Result<((StatementStats, StepReceipt), EmbeddedTxnCompletion), Fault>)
        requires
            old(self).wf(),
            old(self).tip() < u64::MAX,
        ensures
            final(self).wf(),
            final(session).metered() == old(session).metered(),
            exists|
                prepared: Result<(StatementStats, StepReceipt, WriteTxn, CompletionStep), Fault>,
            |
                {
                    &&& #[trigger] runs_statement(
                        *old(self),
                        namespace,
                        *verified,
                        selects,
                        None,
                        Prepared { kind: StatementKind::Insert { selects }, statement },
                        false,
                        old(session).metered(),
                        *old(identities),
                        *final(identities),
                        old(session).log(),
                        final(session).log(),
                        old(collector).asked(),
                        final(collector).asked(),
                        prepared,
                    )
                    &&& ends_published(
                        *old(self),
                        *final(self),
                        statement_wrap(Reporter::Statement),
                        paired(prepared),
                        old(publisher).asked(),
                        final(publisher).asked(),
                        done,
                    )
                },
    {
        let prepared = self.prepare_graph_insert_authorized(
            namespace,
            verified,
            selects,
            statement,
            identities,
            collector,
            session,
        );
        let ghost kept = prepared;
        let handed = match prepared {
            Ok((stats, receipt, accepted, step)) => Ok(((stats, receipt), accepted, step)),
            Err(fault) => Err(fault),
        };
        assert(handed == paired(kept));
        self.publish_statement(Reporter::Statement, handed, publisher)
    }

    /// Create what a statement describes, and return the identities.
    pub fn execute_graph_insert_returning_authorized<C: Collector, P: Publisher, H: Host>(
        &mut self,
        namespace: u64,
        verified: &Result<Predicates, Denial>,
        selects: bool,
        statement: Statement,
        identities: &mut IdentityState,
        collector: &mut Recorder<C>,
        publisher: &mut PublisherRecord<P>,
        session: &mut Session<H>,
    ) -> (done: Result<((StatementStats, StepReceipt), EmbeddedTxnCompletion), Fault>)
        requires
            old(self).wf(),
            old(self).tip() < u64::MAX,
        ensures
            final(self).wf(),
            final(session).metered() == old(session).metered(),
            exists|
                prepared: Result<(StatementStats, StepReceipt, WriteTxn, CompletionStep), Fault>,
            |
                {
                    &&& #[trigger] runs_statement(
                        *old(self),
                        namespace,
                        *verified,
                        selects,
                        None,
                        Prepared { kind: StatementKind::Insert { selects }, statement },
                        true,
                        old(session).metered(),
                        *old(identities),
                        *final(identities),
                        old(session).log(),
                        final(session).log(),
                        old(collector).asked(),
                        final(collector).asked(),
                        prepared,
                    )
                    &&& ends_published(
                        *old(self),
                        *final(self),
                        statement_wrap(Reporter::Statement),
                        paired(prepared),
                        old(publisher).asked(),
                        final(publisher).asked(),
                        done,
                    )
                },
    {
        let prepared = self.prepare_graph_insert_returning_authorized(
            namespace,
            verified,
            selects,
            statement,
            identities,
            collector,
            session,
        );
        let ghost kept = prepared;
        let handed = match prepared {
            Ok((stats, receipt, accepted, step)) => Ok(((stats, receipt), accepted, step)),
            Err(fault) => Err(fault),
        };
        assert(handed == paired(kept));
        self.publish_statement(Reporter::Statement, handed, publisher)
    }

    /// Delete what a MATCH selects, without detaching.
    pub fn execute_graph_delete_authorized<C: Collector, P: Publisher, H: Host>(
        &mut self,
        namespace: u64,
        verified: &Result<Predicates, Denial>,
        statement: Statement,
        identities: &mut IdentityState,
        collector: &mut Recorder<C>,
        publisher: &mut PublisherRecord<P>,
        session: &mut Session<H>,
    ) -> (done: Result<((StatementStats, StepReceipt), EmbeddedTxnCompletion), Fault>)
        requires
            old(self).wf(),
            old(self).tip() < u64::MAX,
        ensures
            final(self).wf(),
            final(session).metered() == old(session).metered(),
            exists|
                prepared: Result<(StatementStats, StepReceipt, WriteTxn, CompletionStep), Fault>,
            |
                {
                    &&& #[trigger] runs_statement(
                        *old(self),
                        namespace,
                        *verified,
                        true,
                        None,
                        Prepared { kind: StatementKind::Delete, statement },
                        false,
                        old(session).metered(),
                        *old(identities),
                        *final(identities),
                        old(session).log(),
                        final(session).log(),
                        old(collector).asked(),
                        final(collector).asked(),
                        prepared,
                    )
                    &&& ends_published(
                        *old(self),
                        *final(self),
                        statement_wrap(Reporter::Statement),
                        paired(prepared),
                        old(publisher).asked(),
                        final(publisher).asked(),
                        done,
                    )
                },
    {
        let prepared = self.prepare_graph_delete_authorized(
            namespace,
            verified,
            statement,
            identities,
            collector,
            session,
        );
        let ghost kept = prepared;
        let handed = match prepared {
            Ok((stats, receipt, accepted, step)) => Ok(((stats, receipt), accepted, step)),
            Err(fault) => Err(fault),
        };
        assert(handed == paired(kept));
        self.publish_statement(Reporter::Statement, handed, publisher)
    }

    /// Delete what a MATCH selects, without detaching, and return the identities.
    pub fn execute_graph_delete_returning_authorized<C: Collector, P: Publisher, H: Host>(
        &mut self,
        namespace: u64,
        verified: &Result<Predicates, Denial>,
        statement: Statement,
        identities: &mut IdentityState,
        collector: &mut Recorder<C>,
        publisher: &mut PublisherRecord<P>,
        session: &mut Session<H>,
    ) -> (done: Result<((StatementStats, StepReceipt), EmbeddedTxnCompletion), Fault>)
        requires
            old(self).wf(),
            old(self).tip() < u64::MAX,
        ensures
            final(self).wf(),
            final(session).metered() == old(session).metered(),
            exists|
                prepared: Result<(StatementStats, StepReceipt, WriteTxn, CompletionStep), Fault>,
            |
                {
                    &&& #[trigger] runs_statement(
                        *old(self),
                        namespace,
                        *verified,
                        true,
                        None,
                        Prepared { kind: StatementKind::Delete, statement },
                        true,
                        old(session).metered(),
                        *old(identities),
                        *final(identities),
                        old(session).log(),
                        final(session).log(),
                        old(collector).asked(),
                        final(collector).asked(),
                        prepared,
                    )
                    &&& ends_published(
                        *old(self),
                        *final(self),
                        statement_wrap(Reporter::Statement),
                        paired(prepared),
                        old(publisher).asked(),
                        final(publisher).asked(),
                        done,
                    )
                },
    {
        let prepared = self.prepare_graph_delete_returning_authorized(
            namespace,
            verified,
            statement,
            identities,
            collector,
            session,
        );
        let ghost kept = prepared;
        let handed = match prepared {
            Ok((stats, receipt, accepted, step)) => Ok(((stats, receipt), accepted, step)),
            Err(fault) => Err(fault),
        };
        assert(handed == paired(kept));
        self.publish_statement(Reporter::Statement, handed, publisher)
    }

    /// Match or create one vertex. The outcome and whether it was created come back.
    pub fn execute_graph_vertex_merge_authorized<C: Collector, P: Publisher, H: Host>(
        &mut self,
        namespace: u64,
        verified: &Result<Predicates, Denial>,
        statement: Statement,
        identities: &mut IdentityState,
        collector: &mut Recorder<C>,
        publisher: &mut PublisherRecord<P>,
        session: &mut Session<H>,
    ) -> (done: Result<((StatementStats, VId, bool), EmbeddedTxnCompletion), Fault>)
        requires
            old(self).wf(),
            old(self).tip() < u64::MAX,
        ensures
            final(self).wf(),
            final(session).metered() == old(session).metered(),
            exists|
                prepared: Result<(StatementStats, VId, bool, WriteTxn, CompletionStep), Fault>,
            |
                {
                    &&& #[trigger] runs_vertex_merge(
                        *old(self),
                        namespace,
                        *verified,
                        statement,
                        old(session).metered(),
                        *old(identities),
                        *final(identities),
                        old(session).log(),
                        final(session).log(),
                        old(collector).asked(),
                        final(collector).asked(),
                        prepared,
                    )
                    &&& ends_published(
                        *old(self),
                        *final(self),
                        statement_wrap(Reporter::Statement),
                        tripled(prepared),
                        old(publisher).asked(),
                        final(publisher).asked(),
                        done,
                    )
                },
    {
        let prepared = self.prepare_graph_vertex_merge_authorized(
            namespace,
            verified,
            statement,
            identities,
            collector,
            session,
        );
        let ghost kept = prepared;
        let handed = match prepared {
            Ok((stats, vertex, created, accepted, step)) => Ok(
                ((stats, vertex, created), accepted, step),
            ),
            Err(fault) => Err(fault),
        };
        assert(handed == tripled(kept));
        self.publish_statement(Reporter::Statement, handed, publisher)
    }

    /// Match or create one directed relationship.
    pub fn execute_graph_edge_merge_authorized<S: ScopedSelector, P: Publisher, H: Host>(
        &mut self,
        namespace: u64,
        verified: &Result<Predicates, Denial>,
        merge: &GraphEdgeMerge,
        policy: GraphEdgeMergePolicy,
        identities: &mut IdentityState,
        selector: &mut ScopedRecord<S>,
        publisher: &mut PublisherRecord<P>,
        session: &mut Session<H>,
    ) -> (done: Result<((GraphEdgeMergeStats, GraphEdgeMergeOutcome), EmbeddedTxnCompletion), Fault>)
        requires
            old(self).wf(),
            old(self).tip() < u64::MAX,
            merge.wf(),
        ensures
            final(self).wf(),
            final(session).metered() == old(session).metered(),
            exists|
                prepared: Result<
                    (GraphEdgeMergeStats, GraphEdgeMergeOutcome, WriteTxn, CompletionStep),
                    Fault,
                >,
            |
                {
                    &&& #[trigger] runs_edge_merge(
                        *old(self),
                        namespace,
                        *verified,
                        *merge,
                        policy,
                        old(session).metered(),
                        *old(identities),
                        *final(identities),
                        old(session).log(),
                        final(session).log(),
                        old(selector).asked(),
                        final(selector).asked(),
                        prepared,
                    )
                    &&& ends_published(
                        *old(self),
                        *final(self),
                        statement_wrap(Reporter::Statement),
                        paired(prepared),
                        old(publisher).asked(),
                        final(publisher).asked(),
                        done,
                    )
                },
    {
        let prepared = self.prepare_graph_edge_merge_authorized(
            namespace,
            verified,
            merge,
            policy,
            identities,
            selector,
            session,
        );
        let ghost kept = prepared;
        let handed = match prepared {
            Ok((stats, outcome, accepted, step)) => Ok(((stats, outcome), accepted, step)),
            Err(fault) => Err(fault),
        };
        assert(handed == paired(kept));
        self.publish_statement(Reporter::Statement, handed, publisher)
    }

    /// Run a program of mutations in one private workspace and complete it once.
    pub fn execute_graph_mutation_program_authorized<C: Collector, P: Publisher, H: Host>(
        &mut self,
        namespace: u64,
        verified: &Result<Predicates, Denial>,
        statements: &Vec<Statement>,
        identities: &mut IdentityState,
        collector: &mut Recorder<C>,
        publisher: &mut PublisherRecord<P>,
        session: &mut Session<H>,
    ) -> (done: Result<((ProgramStats, Vec<StepReceipt>), EmbeddedTxnCompletion), ProgramFault>)
        requires
            old(self).wf(),
            old(self).tip() < u64::MAX,
        ensures
            final(self).wf(),
            final(session).metered() == old(session).metered(),
            exists|
                prepared: Result<
                    (ProgramStats, Vec<StepReceipt>, WriteTxn, CompletionStep),
                    ProgramFault,
                >,
            |
                {
                    &&& #[trigger] runs_mutations(
                        *old(self),
                        namespace,
                        *verified,
                        statements@,
                        old(session).metered(),
                        *old(identities),
                        *final(identities),
                        old(session).log(),
                        final(session).log(),
                        old(collector).asked(),
                        final(collector).asked(),
                        prepared,
                    )
                    &&& ends_published(
                        *old(self),
                        *final(self),
                        program_wrap(),
                        paired(prepared),
                        old(publisher).asked(),
                        final(publisher).asked(),
                        done,
                    )
                },
    {
        let prepared = self.prepare_graph_mutation_program_authorized(
            namespace,
            verified,
            statements,
            identities,
            collector,
            session,
        );
        let ghost kept = prepared;
        let handed = match prepared {
            Ok((stats, receipts, accepted, step)) => Ok(((stats, receipts), accepted, step)),
            Err(fault) => Err(fault),
        };
        assert(handed == paired(kept));
        self.publish_program(handed, publisher)
    }

    /// Run a write program without receipts.
    pub fn execute_graph_write_program_authorized<C: Collector, P: Publisher, H: Host>(
        &mut self,
        namespace: u64,
        verified: &Result<Predicates, Denial>,
        statements: &Vec<Prepared>,
        identities: &mut IdentityState,
        collector: &mut Recorder<C>,
        publisher: &mut PublisherRecord<P>,
        session: &mut Session<H>,
    ) -> (done: Result<((ProgramStats, Vec<StepReceipt>), EmbeddedTxnCompletion), ProgramFault>)
        requires
            old(self).wf(),
            old(self).tip() < u64::MAX,
        ensures
            final(self).wf(),
            final(session).metered() == old(session).metered(),
            exists|
                prepared: Result<
                    (ProgramStats, Vec<StepReceipt>, WriteTxn, CompletionStep),
                    ProgramFault,
                >,
            |
                {
                    &&& #[trigger] runs_program(
                        *old(self),
                        namespace,
                        *verified,
                        statements@,
                        false,
                        old(session).metered(),
                        *old(identities),
                        *final(identities),
                        old(session).log(),
                        final(session).log(),
                        old(collector).asked(),
                        final(collector).asked(),
                        prepared,
                    )
                    &&& ends_published(
                        *old(self),
                        *final(self),
                        program_wrap(),
                        paired(prepared),
                        old(publisher).asked(),
                        final(publisher).asked(),
                        done,
                    )
                },
    {
        let prepared = self.prepare_graph_write_program_authorized(
            namespace,
            verified,
            statements,
            identities,
            collector,
            session,
        );
        let ghost kept = prepared;
        let handed = match prepared {
            Ok((stats, receipts, accepted, step)) => Ok(((stats, receipts), accepted, step)),
            Err(fault) => Err(fault),
        };
        assert(handed == paired(kept));
        self.publish_program(handed, publisher)
    }

    /// Run a write program with one receipt for each statement. Receipts are built
    /// before completion is admitted.
    pub fn execute_graph_write_program_returning_authorized<C: Collector, P: Publisher, H: Host>(
        &mut self,
        namespace: u64,
        verified: &Result<Predicates, Denial>,
        statements: &Vec<Prepared>,
        identities: &mut IdentityState,
        collector: &mut Recorder<C>,
        publisher: &mut PublisherRecord<P>,
        session: &mut Session<H>,
    ) -> (done: Result<((ProgramStats, Vec<StepReceipt>), EmbeddedTxnCompletion), ProgramFault>)
        requires
            old(self).wf(),
            old(self).tip() < u64::MAX,
        ensures
            final(self).wf(),
            final(session).metered() == old(session).metered(),
            exists|
                prepared: Result<
                    (ProgramStats, Vec<StepReceipt>, WriteTxn, CompletionStep),
                    ProgramFault,
                >,
            |
                {
                    &&& #[trigger] runs_program(
                        *old(self),
                        namespace,
                        *verified,
                        statements@,
                        true,
                        old(session).metered(),
                        *old(identities),
                        *final(identities),
                        old(session).log(),
                        final(session).log(),
                        old(collector).asked(),
                        final(collector).asked(),
                        prepared,
                    )
                    &&& ends_published(
                        *old(self),
                        *final(self),
                        program_wrap(),
                        paired(prepared),
                        old(publisher).asked(),
                        final(publisher).asked(),
                        done,
                    )
                },
    {
        let prepared = self.prepare_graph_write_program_returning_authorized(
            namespace,
            verified,
            statements,
            identities,
            collector,
            session,
        );
        let ghost kept = prepared;
        let handed = match prepared {
            Ok((stats, receipts, accepted, step)) => Ok(((stats, receipts), accepted, step)),
            Err(fault) => Err(fault),
        };
        assert(handed == paired(kept));
        self.publish_program(handed, publisher)
    }

    /// Write source-ordered, dependent relation batches under one capability.
    pub fn write_ordered_authorized<P: Publisher, H: Host>(
        &mut self,
        namespace: u64,
        verified: &Result<Predicates, Denial>,
        batches: &Vec<WriteBatch>,
        publisher: &mut PublisherRecord<P>,
        session: &mut Session<H>,
    ) -> (committed: Result<CommitSeq, WriteTxnError>)
        requires
            old(self).wf(),
            old(self).tip() < u64::MAX,
        ensures
            final(self).wf(),
            final(session).metered() == old(session).metered(),
            exists|run: OrderedRun, prepared: Result<(WriteTxn, CompletionStep), WriteTxnError>|
                {
                    &&& #[trigger] writes_ordered(
                        *old(self),
                        namespace,
                        *verified,
                        batches@,
                        old(session).metered(),
                        old(session).log(),
                        final(session).log(),
                        run,
                        prepared,
                    )
                    &&& commits_ordered(
                        *old(self),
                        *final(self),
                        prepared,
                        old(publisher).asked(),
                        final(publisher).asked(),
                        committed,
                    )
                },
    {
        let prepared = self.prepare_ordered_authorized(namespace, verified, batches, session);
        self.publish_ordered(prepared, publisher)
    }

    /// Write one batch under one capability.
    pub fn write_authorized<P: Publisher, H: Host>(
        &mut self,
        namespace: u64,
        verified: &Result<Predicates, Denial>,
        batch: WriteBatch,
        publisher: &mut PublisherRecord<P>,
        session: &mut Session<H>,
    ) -> (committed: Result<CommitSeq, WriteTxnError>)
        requires
            old(self).wf(),
            old(self).tip() < u64::MAX,
        ensures
            final(self).wf(),
            final(session).metered() == old(session).metered(),
            exists|run: OrderedRun, prepared: Result<(WriteTxn, CompletionStep), WriteTxnError>|
                {
                    &&& #[trigger] writes_ordered(
                        *old(self),
                        namespace,
                        *verified,
                        seq![batch],
                        old(session).metered(),
                        old(session).log(),
                        final(session).log(),
                        run,
                        prepared,
                    )
                    &&& commits_ordered(
                        *old(self),
                        *final(self),
                        prepared,
                        old(publisher).asked(),
                        final(publisher).asked(),
                        committed,
                    )
                },
    {
        let prepared = self.prepare_authorized(namespace, verified, batch, session);
        self.publish_ordered(prepared, publisher)
    }

    fn publish_ordered<P: Publisher>(
        &mut self,
        prepared: Result<(WriteTxn, CompletionStep), WriteTxnError>,
        publisher: &mut PublisherRecord<P>,
    ) -> (committed: Result<CommitSeq, WriteTxnError>)
        requires
            old(self).wf(),
            old(self).tip() < u64::MAX,
            prepared matches Ok((accepted, step)) ==> ready(accepted, *old(self), step)
                && step is Publish,
        ensures
            final(self).wf(),
            commits_ordered(
                *old(self),
                *final(self),
                prepared,
                old(publisher).asked(),
                final(publisher).asked(),
                committed,
            ),
    {
        match prepared {
            Err(error) => Err(error),
            Ok((accepted, step)) => match self.publish_accepted(accepted, step, publisher) {
                Ok(EmbeddedTxnCompletion::WriteCommitted { commit_seq }) => Ok(commit_seq),
                Ok(EmbeddedTxnCompletion::ReadClosed { .. }) => {
                    assert(false);
                    Err(WriteTxnError::NoPreparedWrite)
                },
                Err(error) => Err(error),
            },
        }
    }
}

/// How an ordered write ends: its commit sequence, or why there is none.
pub open spec fn commits_ordered(
    before: Database,
    after: Database,
    prepared: Result<(WriteTxn, CompletionStep), WriteTxnError>,
    asked: Seq<Requested>,
    asked_after: Seq<Requested>,
    committed: Result<CommitSeq, WriteTxnError>,
) -> bool {
    match prepared {
        Err(error) => {
            &&& failure(committed) == Some(error)
            &&& after == before
            &&& asked_after == asked
        },
        Ok((accepted, step)) => exists|done: Result<EmbeddedTxnCompletion, WriteTxnError>|
            {
                &&& #[trigger] publishes(accepted, step, before, after, asked, asked_after, done)
                &&& sequence(done) == Some(committed)
            },
    }
}

impl Database {
    /// Execute one prepared mutation on its own.
    pub fn execute_graph_mutation_autocommit_governed<T, E: Executor<T>, P: Publisher, H: Host>(
        &mut self,
        statement: Statement,
        executor: &mut ExecutorRecord<T, E>,
        publisher: &mut PublisherRecord<P>,
        session: &mut Session<H>,
    ) -> (done: Result<(T, EmbeddedTxnCompletion), Fault>)
        requires
            old(self).wf(),
            old(self).tip() < u64::MAX,
        ensures
            final(self).wf(),
            final(session).metered() == old(session).metered(),
            exists|run: AutocommitRun<T>, prepared: Result<(T, WriteTxn, CompletionStep), Fault>|
                {
                    &&& #[trigger] autocommits(
                        *old(self),
                        Reporter::Statement,
                        seq![Prepared { kind: StatementKind::Mutation, statement }],
                        false,
                        old(session).metered(),
                        old(session).log(),
                        final(session).log(),
                        old(executor).asked(),
                        final(executor).asked(),
                        run,
                        prepared,
                    )
                    &&& ends_published(
                        *old(self),
                        *final(self),
                        statement_wrap(Reporter::Statement),
                        prepared,
                        old(publisher).asked(),
                        final(publisher).asked(),
                        done,
                    )
                },
    {
        let prepared = self.prepare_graph_mutation_autocommit_governed(statement, executor, session);
        self.publish_statement(Reporter::Statement, prepared, publisher)
    }

    /// A mutation on its own, with the targets that it staged.
    pub fn execute_graph_mutation_returning_autocommit_governed<T, E: Executor<T>, P: Publisher, H: Host>(
        &mut self,
        statement: Statement,
        executor: &mut ExecutorRecord<T, E>,
        publisher: &mut PublisherRecord<P>,
        session: &mut Session<H>,
    ) -> (done: Result<(T, EmbeddedTxnCompletion), Fault>)
        requires
            old(self).wf(),
            old(self).tip() < u64::MAX,
        ensures
            final(self).wf(),
            final(session).metered() == old(session).metered(),
            exists|run: AutocommitRun<T>, prepared: Result<(T, WriteTxn, CompletionStep), Fault>|
                {
                    &&& #[trigger] autocommits(
                        *old(self),
                        Reporter::Statement,
                        seq![Prepared { kind: StatementKind::Mutation, statement }],
                        true,
                        old(session).metered(),
                        old(session).log(),
                        final(session).log(),
                        old(executor).asked(),
                        final(executor).asked(),
                        run,
                        prepared,
                    )
                    &&& ends_published(
                        *old(self),
                        *final(self),
                        statement_wrap(Reporter::Statement),
                        prepared,
                        old(publisher).asked(),
                        final(publisher).asked(),
                        done,
                    )
                },
    {
        let prepared = self.prepare_graph_mutation_returning_autocommit_governed(statement, executor, session);
        self.publish_statement(Reporter::Statement, prepared, publisher)
    }

    /// Create graph structures on their own.
    pub fn execute_graph_insert_autocommit_governed<T, E: Executor<T>, P: Publisher, H: Host>(
        &mut self,
        selects: bool,
        statement: Statement,
        executor: &mut ExecutorRecord<T, E>,
        publisher: &mut PublisherRecord<P>,
        session: &mut Session<H>,
    ) -> (done: Result<(T, EmbeddedTxnCompletion), Fault>)
        requires
            old(self).wf(),
            old(self).tip() < u64::MAX,
        ensures
            final(self).wf(),
            final(session).metered() == old(session).metered(),
            exists|run: AutocommitRun<T>, prepared: Result<(T, WriteTxn, CompletionStep), Fault>|
                {
                    &&& #[trigger] autocommits(
                        *old(self),
                        Reporter::Statement,
                        seq![Prepared { kind: StatementKind::Insert { selects }, statement }],
                        false,
                        old(session).metered(),
                        old(session).log(),
                        final(session).log(),
                        old(executor).asked(),
                        final(executor).asked(),
                        run,
                        prepared,
                    )
                    &&& ends_published(
                        *old(self),
                        *final(self),
                        statement_wrap(Reporter::Statement),
                        prepared,
                        old(publisher).asked(),
                        final(publisher).asked(),
                        done,
                    )
                },
    {
        let prepared = self.prepare_graph_insert_autocommit_governed(selects, statement, executor, session);
        self.publish_statement(Reporter::Statement, prepared, publisher)
    }

    /// Create graph structures on their own, and return the identities.
    pub fn execute_graph_insert_returning_autocommit_governed<T, E: Executor<T>, P: Publisher, H: Host>(
        &mut self,
        selects: bool,
        statement: Statement,
        executor: &mut ExecutorRecord<T, E>,
        publisher: &mut PublisherRecord<P>,
        session: &mut Session<H>,
    ) -> (done: Result<(T, EmbeddedTxnCompletion), Fault>)
        requires
            old(self).wf(),
            old(self).tip() < u64::MAX,
        ensures
            final(self).wf(),
            final(session).metered() == old(session).metered(),
            exists|run: AutocommitRun<T>, prepared: Result<(T, WriteTxn, CompletionStep), Fault>|
                {
                    &&& #[trigger] autocommits(
                        *old(self),
                        Reporter::Statement,
                        seq![Prepared { kind: StatementKind::Insert { selects }, statement }],
                        true,
                        old(session).metered(),
                        old(session).log(),
                        final(session).log(),
                        old(executor).asked(),
                        final(executor).asked(),
                        run,
                        prepared,
                    )
                    &&& ends_published(
                        *old(self),
                        *final(self),
                        statement_wrap(Reporter::Statement),
                        prepared,
                        old(publisher).asked(),
                        final(publisher).asked(),
                        done,
                    )
                },
    {
        let prepared = self.prepare_graph_insert_returning_autocommit_governed(
            selects,
            statement,
            executor,
            session,
        );
        self.publish_statement(Reporter::Statement, prepared, publisher)
    }

    /// Delete what a MATCH selects, on its own.
    pub fn execute_graph_delete_autocommit_governed<T, E: Executor<T>, P: Publisher, H: Host>(
        &mut self,
        statement: Statement,
        executor: &mut ExecutorRecord<T, E>,
        publisher: &mut PublisherRecord<P>,
        session: &mut Session<H>,
    ) -> (done: Result<(T, EmbeddedTxnCompletion), Fault>)
        requires
            old(self).wf(),
            old(self).tip() < u64::MAX,
        ensures
            final(self).wf(),
            final(session).metered() == old(session).metered(),
            exists|run: AutocommitRun<T>, prepared: Result<(T, WriteTxn, CompletionStep), Fault>|
                {
                    &&& #[trigger] autocommits(
                        *old(self),
                        Reporter::Statement,
                        seq![Prepared { kind: StatementKind::Delete, statement }],
                        false,
                        old(session).metered(),
                        old(session).log(),
                        final(session).log(),
                        old(executor).asked(),
                        final(executor).asked(),
                        run,
                        prepared,
                    )
                    &&& ends_published(
                        *old(self),
                        *final(self),
                        statement_wrap(Reporter::Statement),
                        prepared,
                        old(publisher).asked(),
                        final(publisher).asked(),
                        done,
                    )
                },
    {
        let prepared = self.prepare_graph_delete_autocommit_governed(statement, executor, session);
        self.publish_statement(Reporter::Statement, prepared, publisher)
    }

    /// Delete what a MATCH selects, on its own, and return the identities.
    pub fn execute_graph_delete_returning_autocommit_governed<T, E: Executor<T>, P: Publisher, H: Host>(
        &mut self,
        statement: Statement,
        executor: &mut ExecutorRecord<T, E>,
        publisher: &mut PublisherRecord<P>,
        session: &mut Session<H>,
    ) -> (done: Result<(T, EmbeddedTxnCompletion), Fault>)
        requires
            old(self).wf(),
            old(self).tip() < u64::MAX,
        ensures
            final(self).wf(),
            final(session).metered() == old(session).metered(),
            exists|run: AutocommitRun<T>, prepared: Result<(T, WriteTxn, CompletionStep), Fault>|
                {
                    &&& #[trigger] autocommits(
                        *old(self),
                        Reporter::Statement,
                        seq![Prepared { kind: StatementKind::Delete, statement }],
                        true,
                        old(session).metered(),
                        old(session).log(),
                        final(session).log(),
                        old(executor).asked(),
                        final(executor).asked(),
                        run,
                        prepared,
                    )
                    &&& ends_published(
                        *old(self),
                        *final(self),
                        statement_wrap(Reporter::Statement),
                        prepared,
                        old(publisher).asked(),
                        final(publisher).asked(),
                        done,
                    )
                },
    {
        let prepared = self.prepare_graph_delete_returning_autocommit_governed(statement, executor, session);
        self.publish_statement(Reporter::Statement, prepared, publisher)
    }

    /// Match or create one vertex on its own.
    pub fn execute_graph_vertex_merge_autocommit_governed<T, E: Executor<T>, P: Publisher, H: Host>(
        &mut self,
        statement: Statement,
        executor: &mut ExecutorRecord<T, E>,
        publisher: &mut PublisherRecord<P>,
        session: &mut Session<H>,
    ) -> (done: Result<(T, EmbeddedTxnCompletion), Fault>)
        requires
            old(self).wf(),
            old(self).tip() < u64::MAX,
        ensures
            final(self).wf(),
            final(session).metered() == old(session).metered(),
            exists|run: AutocommitRun<T>, prepared: Result<(T, WriteTxn, CompletionStep), Fault>|
                {
                    &&& #[trigger] autocommits(
                        *old(self),
                        Reporter::Statement,
                        seq![Prepared { kind: StatementKind::VertexMerge, statement }],
                        false,
                        old(session).metered(),
                        old(session).log(),
                        final(session).log(),
                        old(executor).asked(),
                        final(executor).asked(),
                        run,
                        prepared,
                    )
                    &&& ends_published(
                        *old(self),
                        *final(self),
                        statement_wrap(Reporter::Statement),
                        prepared,
                        old(publisher).asked(),
                        final(publisher).asked(),
                        done,
                    )
                },
    {
        let prepared = self.prepare_graph_vertex_merge_autocommit_governed(statement, executor, session);
        self.publish_statement(Reporter::Statement, prepared, publisher)
    }

    /// Match or create one vertex on its own, and run the branch's actions.
    pub fn execute_graph_vertex_upsert_autocommit_governed<T, E: Executor<T>, P: Publisher, H: Host>(
        &mut self,
        statement: Statement,
        executor: &mut ExecutorRecord<T, E>,
        publisher: &mut PublisherRecord<P>,
        session: &mut Session<H>,
    ) -> (done: Result<(T, EmbeddedTxnCompletion), Fault>)
        requires
            old(self).wf(),
            old(self).tip() < u64::MAX,
        ensures
            final(self).wf(),
            final(session).metered() == old(session).metered(),
            exists|run: AutocommitRun<T>, prepared: Result<(T, WriteTxn, CompletionStep), Fault>|
                {
                    &&& #[trigger] autocommits(
                        *old(self),
                        Reporter::Upsert,
                        seq![Prepared { kind: StatementKind::VertexUpsert, statement }],
                        false,
                        old(session).metered(),
                        old(session).log(),
                        final(session).log(),
                        old(executor).asked(),
                        final(executor).asked(),
                        run,
                        prepared,
                    )
                    &&& ends_published(
                        *old(self),
                        *final(self),
                        statement_wrap(Reporter::Upsert),
                        prepared,
                        old(publisher).asked(),
                        final(publisher).asked(),
                        done,
                    )
                },
    {
        let prepared = self.prepare_graph_vertex_upsert_autocommit_governed(statement, executor, session);
        self.publish_statement(Reporter::Upsert, prepared, publisher)
    }

    /// Execute an ordered program through one completion.
    pub fn execute_graph_write_program_autocommit_governed<T, E: Executor<T>, P: Publisher, H: Host>(
        &mut self,
        statements: &Vec<Prepared>,
        executor: &mut ExecutorRecord<T, E>,
        publisher: &mut PublisherRecord<P>,
        session: &mut Session<H>,
    ) -> (done: Result<(T, EmbeddedTxnCompletion), Fault>)
        requires
            old(self).wf(),
            old(self).tip() < u64::MAX,
        ensures
            final(self).wf(),
            final(session).metered() == old(session).metered(),
            exists|run: AutocommitRun<T>, prepared: Result<(T, WriteTxn, CompletionStep), Fault>|
                {
                    &&& #[trigger] autocommits(
                        *old(self),
                        Reporter::Program,
                        statements@,
                        false,
                        old(session).metered(),
                        old(session).log(),
                        final(session).log(),
                        old(executor).asked(),
                        final(executor).asked(),
                        run,
                        prepared,
                    )
                    &&& ends_published(
                        *old(self),
                        *final(self),
                        statement_wrap(Reporter::Program),
                        prepared,
                        old(publisher).asked(),
                        final(publisher).asked(),
                        done,
                    )
                },
    {
        let prepared = self.prepare_graph_write_program_autocommit_governed(statements, executor, session);
        self.publish_statement(Reporter::Program, prepared, publisher)
    }

    /// Execute an ordered program through one completion, with receipts.
    pub fn execute_graph_write_program_returning_autocommit_governed<T, E: Executor<T>, P: Publisher, H: Host>(
        &mut self,
        statements: &Vec<Prepared>,
        executor: &mut ExecutorRecord<T, E>,
        publisher: &mut PublisherRecord<P>,
        session: &mut Session<H>,
    ) -> (done: Result<(T, EmbeddedTxnCompletion), Fault>)
        requires
            old(self).wf(),
            old(self).tip() < u64::MAX,
        ensures
            final(self).wf(),
            final(session).metered() == old(session).metered(),
            exists|run: AutocommitRun<T>, prepared: Result<(T, WriteTxn, CompletionStep), Fault>|
                {
                    &&& #[trigger] autocommits(
                        *old(self),
                        Reporter::Program,
                        statements@,
                        true,
                        old(session).metered(),
                        old(session).log(),
                        final(session).log(),
                        old(executor).asked(),
                        final(executor).asked(),
                        run,
                        prepared,
                    )
                    &&& ends_published(
                        *old(self),
                        *final(self),
                        statement_wrap(Reporter::Program),
                        prepared,
                        old(publisher).asked(),
                        final(publisher).asked(),
                        done,
                    )
                },
    {
        let prepared = self.prepare_graph_write_program_returning_autocommit_governed(
            statements,
            executor,
            session,
        );
        self.publish_statement(Reporter::Program, prepared, publisher)
    }

    /// Merge one relationship on its own.
    pub fn execute_graph_edge_merge_autocommit_governed<S: PairSelector, P: Publisher, H: Host>(
        &mut self,
        merge: &GraphEdgeMerge,
        policy: GraphEdgeMergePolicy,
        selector: &mut SelectorRecord<S>,
        publisher: &mut PublisherRecord<P>,
        session: &mut Session<H>,
    ) -> (done: Result<((GraphEdgeMergeStats, GraphEdgeMergeOutcome), EmbeddedTxnCompletion), Fault>)
        requires
            old(self).wf(),
            old(self).tip() < u64::MAX,
            merge.wf(),
        ensures
            final(self).wf(),
            final(session).metered() == old(session).metered(),
            exists|
                prepared: Result<
                    (GraphEdgeMergeStats, GraphEdgeMergeOutcome, WriteTxn, CompletionStep),
                    Fault,
                >,
            |
                {
                    &&& #[trigger] autocommits_merge(
                        *old(self),
                        *merge,
                        policy,
                        old(session).metered(),
                        old(selector).asked(),
                        final(selector).asked(),
                        old(session).log(),
                        final(session).log(),
                        prepared,
                    )
                    &&& ends_published(
                        *old(self),
                        *final(self),
                        statement_wrap(Reporter::Statement),
                        paired(prepared),
                        old(publisher).asked(),
                        final(publisher).asked(),
                        done,
                    )
                },
    {
        let prepared = self.prepare_graph_edge_merge_autocommit_governed(
            merge,
            policy,
            selector,
            session,
        );
        let ghost kept = prepared;
        let handed = match prepared {
            Ok((stats, outcome, accepted, step)) => Ok(((stats, outcome), accepted, step)),
            Err(fault) => Err(fault),
        };
        assert(handed == paired(kept));
        self.publish_statement(Reporter::Statement, handed, publisher)
    }

    /// Upsert one relationship on its own.
    pub fn execute_graph_edge_upsert_autocommit_governed<S: PairSelector, P: Publisher, H: Host>(
        &mut self,
        upsert: &GraphEdgeUpsert,
        policy: GraphEdgeUpsertPolicy,
        selector: &mut SelectorRecord<S>,
        publisher: &mut PublisherRecord<P>,
        session: &mut Session<H>,
    ) -> (done: Result<((GraphEdgeUpsertStats, GraphEdgeMergeOutcome), EmbeddedTxnCompletion), Fault>)
        requires
            old(self).wf(),
            old(self).tip() < u64::MAX,
            upsert.merge.wf(),
        ensures
            final(self).wf(),
            final(session).metered() == old(session).metered(),
            exists|
                prepared: Result<
                    (GraphEdgeUpsertStats, GraphEdgeMergeOutcome, WriteTxn, CompletionStep),
                    Fault,
                >,
            |
                {
                    &&& #[trigger] autocommits_upsert(
                        *old(self),
                        *upsert,
                        policy,
                        old(session).metered(),
                        old(selector).asked(),
                        final(selector).asked(),
                        old(session).log(),
                        final(session).log(),
                        prepared,
                    )
                    &&& ends_published(
                        *old(self),
                        *final(self),
                        statement_wrap(Reporter::Upsert),
                        paired(prepared),
                        old(publisher).asked(),
                        final(publisher).asked(),
                        done,
                    )
                },
    {
        let prepared = self.prepare_graph_edge_upsert_autocommit_governed(
            upsert,
            policy,
            selector,
            session,
        );
        let ghost kept = prepared;
        let handed = match prepared {
            Ok((stats, outcome, accepted, step)) => Ok(((stats, outcome), accepted, step)),
            Err(fault) => Err(fault),
        };
        assert(handed == paired(kept));
        self.publish_statement(Reporter::Upsert, handed, publisher)
    }
}

} // verus!
