//! Authorized write programs: complete preflight, one private workspace, one
//! statement after the other, one completion.

use vstd::prelude::*;
use crate::authorized::run_frame;
use crate::authorized_apply::{
    as_edges, as_vertices,
    apply_insert, apply_mutation, apply_vertex_merge, apply_vertex_upsert, created_edges,
    created_vertices, insert_lead, insert_rows, list_insertions, merges_rows, mutates,
    mutation_rows, upserts_rows, InsertIntent, MutationIntent, UpsertRun,
};
use crate::authorized_deletion::{
    apply_deletion, delete_rows, deletes, proved_stats, scratched, DeleteProposal,
};
use crate::authorized_entry::{
    begin_refusal, begun, lemma_refusal, refusal_plan, verified_refusal,
};
use crate::authorized_run::runs;
use crate::authorized_statement::{edge_targets, lead_plan, vertex_targets};
use crate::batch::PendingRow;
use crate::controls::Control;
use crate::database::Database;
use crate::errors::{Denial, WriteTxnError};
use crate::finish::{closes, ready, CompletionStep};
use crate::ids::{EId, RelationId, VId};
use crate::idset::sorted_ids;
use crate::plan::{
    ask, demand, failure, lemma_obeys_and, lemma_obeys_ask, lemma_obeys_failed, lemma_obeys_lift,
    lemma_obeys_nothing, lemma_obeys_stop, lemma_step, obeys, same_error, upto, whole, Plan,
};
use crate::scope::Predicates;
use crate::session::{
    lemma_followed_compose, lemma_followed_extend, work_plan, Event, Host, Request, Session,
};
use crate::statement::{source, Fault, ProgramStats, QueryPolicy, QueryStats, StatementStats};
use crate::txn::WriteTxn;

verus! {

/// The kind of one statement, as far as preflight needs it.
#[derive(Clone, Copy, PartialEq, Eq, Structural, Debug)]
pub enum StatementKind {
    /// A creation, selected by a MATCH or standalone.
    Insert { selects: bool },
    Mutation,
    Delete,
    VertexMerge,
    VertexUpsert,
    EdgeMerge,
    EdgeUpsert,
}

/// Whether a statement reads the graph.
pub open spec fn reads(kind: StatementKind) -> bool {
    match kind {
        StatementKind::Insert { selects } => selects,
        _ => true,
    }
}

/// Whether a statement selects from the graph.
pub fn selects_graph(kind: StatementKind) -> (selects: bool)
    ensures
        selects == reads(kind),
{
    match kind {
        StatementKind::Insert { selects } => selects,
        _ => true,
    }
}

/// The refusal of one statement: relationship merges are not admitted into
/// programs, and a reading statement needs the right to read.
pub open spec fn kind_refusal(kind: StatementKind, can_read: bool) -> Option<WriteTxnError> {
    match kind {
        StatementKind::EdgeMerge => Some(WriteTxnError::AuthorizedMutationRefused),
        StatementKind::EdgeUpsert => Some(WriteTxnError::AuthorizedMutationRefused),
        _ => if reads(kind) && !can_read {
            Some(WriteTxnError::Authorization(Denial::PermissionDenied))
        } else {
            None
        },
    }
}

/// Both polls, then the decision on one statement. Nothing is charged.
pub open spec fn preflight_plan(kind: StatementKind, can_read: bool) -> Plan<WriteTxnError> {
    ask::<WriteTxnError>(seq![Request::PollQuery, Request::Poll]).and(
        refusal_plan(kind_refusal(kind, can_read)),
    )
}

/// The checks before a program opens its workspace: every statement is decided
/// before the first of them can do anything.
pub open spec fn program_steps(
    database: Database,
    namespace: u64,
    verified: Result<Predicates, Denial>,
    kinds: Seq<StatementKind>,
) -> Seq<Plan<WriteTxnError>> {
    let can_read = verified matches Ok(scope) && scope.can_read;
    seq![
        demand(
            namespace == database.namespace,
            WriteTxnError::Authorization(Denial::WrongAuthority),
        ),
        refusal_plan(verified_refusal(verified)),
    ] + Seq::new(kinds.len(), |i: int| preflight_plan(kinds[i], can_read)) + seq![
        ask(work_plan(1)),
        refusal_plan(begin_refusal(database)),
    ]
}

/// Decide one statement.
fn preflight<H: Host>(kind: StatementKind, can_read: bool, session: &mut Session<H>) -> (decided:
    Result<(), WriteTxnError>)
    ensures
        final(session).metered() == old(session).metered(),
        obeys(
            old(session).log(),
            final(session).log(),
            preflight_plan(kind, can_read),
            same_error(),
            failure(decided),
        ),
{
    let ghost start = session.log();
    let ghost polls = seq![Request::PollQuery, Request::Poll];
    let ghost refusal = kind_refusal(kind, can_read);
    let ghost rest = refusal_plan(refusal);
    proof {
        assert(seq![Request::PollQuery] + seq![Request::Poll] =~= polls);
    }
    let polled = session.poll_query();
    let ghost log1 = session.log();
    if let Err(error) = polled {
        proof {
            lemma_followed_extend(start, log1, seq![Request::PollQuery], seq![Request::Poll]);
            lemma_obeys_ask(start, log1, polls, same_error());
            lemma_obeys_failed(start, log1, ask(polls), rest, same_error(), Some(error));
        }
        return Err(error);
    }
    let polled = session.poll();
    let ghost log2 = session.log();
    proof {
        lemma_followed_compose(
            start, log1, log2, seq![Request::PollQuery], seq![Request::Poll],
        );
        lemma_obeys_ask(start, log2, polls, same_error());
    }
    if let Err(error) = polled {
        proof {
            lemma_obeys_failed(start, log2, ask(polls), rest, same_error(), Some(error));
        }
        return Err(error);
    }
    proof {
        lemma_refusal(log2, refusal);
        lemma_obeys_and(start, log2, log2, ask(polls), rest, same_error(), refusal);
    }
    let reading = match kind {
        StatementKind::EdgeMerge | StatementKind::EdgeUpsert => {
            return Err(WriteTxnError::AuthorizedMutationRefused);
        },
        StatementKind::Insert { selects } => selects,
        _ => true,
    };
    if reading && !can_read {
        return Err(WriteTxnError::Authorization(Denial::PermissionDenied));
    }
    Ok(())
}

/// What one finished statement hands back.
#[derive(Debug)]
pub enum StepReceipt {
    Targets { vertices: Vec<VId>, edges: Vec<EId> },
    /// What a deletion used, its incidence proof included.
    Deleted { stats: QueryStats, vertices: Vec<VId>, edges: Vec<EId> },
    Vertex { vertex: VId, created: bool },
}

/// A write program in progress.
pub struct WriteProgram {
    pub transaction: WriteTxn,
    pub stats: ProgramStats,
    pub receipts: Vec<StepReceipt>,
    pub returning: bool,
}

/// Preflight failures.
pub open spec fn preflighted() -> spec_fn(WriteTxnError) -> Fault {
    |error: WriteTxnError| Fault::Preflight(error)
}

impl Database {
    /// Open a write program. The complete shape is decided before a workspace
    /// exists, so a valid prefix never runs ahead of a refused tail.
    pub fn open_write_program<H: Host>(
        &self,
        namespace: u64,
        verified: &Result<Predicates, Denial>,
        kinds: &Vec<StatementKind>,
        returning: bool,
        session: &mut Session<H>,
    ) -> (opened: Result<WriteProgram, Fault>)
        requires
            self.wf(),
        ensures
            final(session).metered() == old(session).metered(),
            obeys(
                old(session).log(),
                final(session).log(),
                whole(program_steps(*self, namespace, *verified, kinds@)).lift(preflighted()),
                preflighted(),
                failure(opened),
            ),
            opened matches Ok(program) ==> {
                &&& begun(WriteTxn { program_multi_relation: false, ..program.transaction }, *self)
                &&& program.transaction.wf()
                &&& program.transaction.program_multi_relation
                &&& program.stats == ProgramStats::none()
                &&& program.receipts@.len() == 0
                &&& program.returning == returning
            },
    {
        let ghost start = session.log();
        let opened = self.open_program(namespace, verified, kinds, session);
        proof {
            lemma_obeys_lift(
                start,
                session.log(),
                whole(program_steps(*self, namespace, *verified, kinds@)),
                preflighted(),
                failure(opened),
            );
        }
        match opened {
            Ok(transaction) => {
                let ghost fresh = transaction;
                let mut transaction = transaction;
                transaction.program_multi_relation = true;
                proof {
                    let plain = WriteTxn { program_multi_relation: false, ..transaction };
                    assert(plain.observed() == fresh.observed());
                }
                Ok(
                    WriteProgram {
                        transaction,
                        stats: ProgramStats::new(),
                        receipts: Vec::new(),
                        returning,
                    },
                )
            },
            Err(error) => Err(Fault::Preflight(error)),
        }
    }

    fn open_program<H: Host>(
        &self,
        namespace: u64,
        verified: &Result<Predicates, Denial>,
        kinds: &Vec<StatementKind>,
        session: &mut Session<H>,
    ) -> (opened: Result<WriteTxn, WriteTxnError>)
        requires
            self.wf(),
        ensures
            final(session).metered() == old(session).metered(),
            obeys(
                old(session).log(),
                final(session).log(),
                whole(program_steps(*self, namespace, *verified, kinds@)),
                same_error(),
                failure(opened),
            ),
            opened matches Ok(txn) ==> begun(txn, *self) && !txn.program_multi_relation,
    {
        let ghost start = session.log();
        let ghost steps = program_steps(*self, namespace, *verified, kinds@);
        let ghost n = kinds@.len() as int;
        proof {
            lemma_obeys_nothing(start, same_error());
            lemma_obeys_stop(
                start,
                same_error(),
                WriteTxnError::Authorization(Denial::WrongAuthority),
            );
        }
        if namespace != self.namespace {
            let refusal = WriteTxnError::Authorization(Denial::WrongAuthority);
            proof {
                lemma_step(start, start, start, steps, 0, same_error(), Some(refusal));
            }
            return Err(refusal);
        }
        proof {
            lemma_step(start, start, start, steps, 0, same_error(), None);
            lemma_refusal(start, verified_refusal(*verified));
            lemma_step(
                start, start, start, steps, 1, same_error(), verified_refusal(*verified),
            );
        }
        let can_read = match verified {
            Ok(scope) => scope.can_read,
            Err(denial) => return Err(WriteTxnError::Authorization(*denial)),
        };
        let mut i: usize = 0;
        while i < kinds.len()
            invariant
                i <= kinds.len(),
                n == kinds@.len(),
                start == old(session).log(),
                steps == program_steps(*self, namespace, *verified, kinds@),
                can_read == (verified matches Ok(scope) && scope.can_read),
                session.metered() == old(session).metered(),
                obeys(start, session.log(), upto(steps, 2 + i), same_error(), None),
            decreases kinds.len() - i,
        {
            let ghost log1 = session.log();
            assert(steps[2 + i] == preflight_plan(kinds@[i as int], can_read));
            let decided = preflight(kinds[i], can_read, session);
            proof {
                lemma_step(
                    start, log1, session.log(), steps, 2 + i, same_error(), failure(decided),
                );
            }
            if let Err(error) = decided {
                return Err(error);
            }
            i += 1;
        }
        let ghost log2 = session.log();
        let paid = session.work(1);
        let ghost log3 = session.log();
        proof {
            assert(steps[2 + n] == ask::<WriteTxnError>(work_plan(1)));
            assert(steps[3 + n] == refusal_plan(begin_refusal(*self)));
            lemma_obeys_ask(log2, log3, work_plan(1), same_error());
            lemma_step(start, log2, log3, steps, 2 + n, same_error(), failure(paid));
        }
        if let Err(error) = paid {
            return Err(error);
        }
        let opened = WriteTxn::begin(self);
        proof {
            lemma_refusal(log3, begin_refusal(*self));
            lemma_step(start, log3, log3, steps, 3 + n, same_error(), begin_refusal(*self));
        }
        opened
    }
}

/// What one statement proposes, frozen by its collector.
#[allow(inconsistent_fields)]
pub enum StepProposal {
    Mutation { relation: RelationId, intents: Vec<MutationIntent> },
    Insert { relation: RelationId, intents: Vec<InsertIntent> },
    Delete { proposal: DeleteProposal, policy: QueryPolicy },
    /// The creation of a vertex MERGE, empty where a vertex matched.
    VertexMerge { relation: RelationId, creation: Vec<InsertIntent>, vertex: VId, created: bool },
    /// The creation of a vertex upsert where nothing matched, then what the selected
    /// branch calls back, and its actions or why they were refused.
    VertexUpsert {
        relation: RelationId,
        creation: Vec<InsertIntent>,
        controls: Vec<Control>,
        actions: Result<Vec<(RelationId, PendingRow)>, Fault>,
        vertex: VId,
        created: bool,
    },
    /// A relationship MERGE, which no program may hold.
    Edge,
}

/// What a finished statement hands back: the identities of a vertex MERGE always, and
/// the others only where they are to be returned.
pub open spec fn receipt_of(proposal: StepProposal, returning: bool, receipt: StepReceipt) -> bool {
    match (proposal, receipt) {
        (StepProposal::VertexMerge { vertex, created, .. }, StepReceipt::Vertex {
            vertex: v,
            created: c,
        }) => v == vertex && c == created,
        (StepProposal::VertexUpsert { vertex, created, .. }, StepReceipt::Vertex {
            vertex: v,
            created: c,
        }) => v == vertex && c == created,
        (StepProposal::Mutation { relation, intents }, StepReceipt::Targets { vertices, edges }) => {
            let rows = mutation_rows(relation, intents@);
            let n = rows.len() as int;
            if returning {
                &&& vertices@ == as_vertices(sorted_ids(vertex_targets(rows, n)))
                &&& edges@ == as_edges(sorted_ids(edge_targets(rows, n)))
            } else {
                vertices@.len() == 0 && edges@.len() == 0
            }
        },
        (StepProposal::Insert { relation, intents }, StepReceipt::Targets { vertices, edges }) => {
            let rows = insert_rows(relation, intents@);
            if returning {
                &&& vertices@ == created_vertices(rows, rows.len() as int)
                &&& edges@ == created_edges(rows, rows.len() as int)
            } else {
                vertices@.len() == 0 && edges@.len() == 0
            }
        },
        (StepProposal::Delete { proposal, .. }, StepReceipt::Deleted { vertices, edges, .. }) => if returning {
            &&& vertices@ == proposal.vertices.seq().map_values(|raw: u128| VId(raw))
            &&& edges@ == proposal.edges.seq().map_values(|raw: u128| EId(raw))
        } else {
            vertices@.len() == 0 && edges@.len() == 0
        },
        _ => false,
    }
}

/// What one statement does, whatever the host answers.
pub open spec fn steps_once(
    before: WriteTxn,
    after: WriteTxn,
    database: Database,
    proposal: StepProposal,
    returning: bool,
    scope: Predicates,
    log: Seq<Event>,
    log_staged: Seq<Event>,
    log_after: Seq<Event>,
    failed: Option<Fault>,
    done: Result<StepReceipt, Fault>,
) -> bool {
    &&& done matches Ok(receipt) ==> receipt_of(proposal, returning, receipt)
    &&& match proposal {
        StepProposal::Mutation { relation, intents } => exists|
            receipt: Result<(Vec<VId>, Vec<EId>), Fault>,
        | {
            &&& #[trigger] mutates(
                before,
                after,
                database,
                mutation_rows(relation, intents@),
                returning,
                scope,
                log,
                log_staged,
                log_after,
                failed,
                receipt,
            )
            &&& match (receipt, done) {
                (Ok((vertices, edges)), Ok(step)) => step == (StepReceipt::Targets {
                    vertices,
                    edges,
                }),
                (Err(fault), Err(error)) => fault == error,
                _ => false,
            }
        },
        StepProposal::Insert { relation, intents } => runs(
            insert_rows(relation, intents@),
            lead_plan(insert_lead(returning), insert_rows(relation, intents@)),
            source(),
            before,
            after,
            database,
            scope,
            log,
            log_after,
            failure(done),
        ),
        StepProposal::Delete { proposal: targets, policy } => {
            &&& deletes(
                before,
                after,
                database,
                scope,
                targets,
                policy,
                returning,
                log,
                log_after,
                failure(done),
            )
            &&& done matches Ok(receipt) ==> (receipt matches StepReceipt::Deleted { stats, .. }
                && stats == scratched(
                proved_stats(before, database, targets),
                delete_rows(targets).len() as int,
            ))
        },
        StepProposal::VertexMerge { relation, creation, .. } => exists|
            staged: Result<(), Fault>,
        | {
            &&& #[trigger] merges_rows(
                before,
                after,
                database,
                insert_rows(relation, creation@),
                returning,
                scope,
                log,
                log_staged,
                log_after,
                failed,
                staged,
            )
            &&& failure(staged) == failure(done)
        },
        StepProposal::VertexUpsert { relation, creation, controls, actions, .. } => exists|
            run: UpsertRun,
            staged: Result<(), Fault>,
        | {
            &&& #[trigger] upserts_rows(
                before,
                after,
                database,
                insert_rows(relation, creation@),
                controls@,
                actions,
                returning,
                scope,
                log,
                log_after,
                run,
                staged,
            )
            &&& failure(staged) == failure(done)
        },
        StepProposal::Edge => {
            &&& failure(done) == Some(Fault::Source(WriteTxnError::AuthorizedMutationRefused))
            &&& after == before
            &&& log_after == log
        },
    }
}

/// Run one frozen statement in the private workspace.
pub fn apply_step<H: Host>(
    transaction: &mut WriteTxn,
    database: &Database,
    proposal: StepProposal,
    returning: bool,
    scope: &Predicates,
    session: &mut Session<H>,
) -> (done: Result<StepReceipt, Fault>)
    requires
        old(transaction).wf(),
        database.wf(),
        proposal matches StepProposal::Delete { proposal: targets, .. } ==> targets.wf(),
    ensures
        final(transaction).wf(),
        run_frame(*old(transaction), *final(transaction)),
        final(session).metered() == old(session).metered(),
        exists|log_staged: Seq<Event>, failed: Option<Fault>| #[trigger]
            steps_once(
                *old(transaction),
                *final(transaction),
                *database,
                proposal,
                returning,
                *scope,
                old(session).log(),
                log_staged,
                final(session).log(),
                failed,
                done,
            ),
{
    let ghost before = *transaction;
    let ghost start = session.log();
    let ghost given = proposal;
    match proposal {
        StepProposal::Mutation { relation, intents } => {
            let receipt = apply_mutation(
                transaction, database, relation, &intents, returning, scope, session,
            );
            let ghost kept = receipt;
            let ghost (log_staged, failed) = choose|
                log_staged: Seq<Event>,
                failed: Option<Fault>,
            | #[trigger]
                mutates(
                    before, *transaction, *database, mutation_rows(relation, intents@), returning,
                    *scope, start, log_staged, session.log(), failed, kept,
                );
            let done = match receipt {
                Ok((vertices, edges)) => Ok(StepReceipt::Targets { vertices, edges }),
                Err(fault) => Err(fault),
            };
            proof {
                assert(steps_once(
                    before, *transaction, *database, given, returning, *scope, start, log_staged,
                    session.log(), failed, done,
                ));
            }
            done
        },
        StepProposal::Insert { relation, intents } => {
            let receipt = apply_insert(
                transaction, database, relation, intents, returning, scope, session,
            );
            let done = match receipt {
                Ok((vertices, edges)) => Ok(StepReceipt::Targets { vertices, edges }),
                Err(fault) => Err(fault),
            };
            proof {
                assert(steps_once(
                    before, *transaction, *database, given, returning, *scope, start, start,
                    session.log(), None, done,
                ));
            }
            done
        },
        StepProposal::Delete { proposal: targets, policy } => {
            let receipt = apply_deletion(
                transaction, database, &targets, policy, scope, session, returning,
            );
            let done = match receipt {
                Ok((stats, vertices, edges)) => Ok(StepReceipt::Deleted { stats, vertices, edges }),
                Err(fault) => Err(fault),
            };
            proof {
                assert(steps_once(
                    before, *transaction, *database, given, returning, *scope, start, start,
                    session.log(), None, done,
                ));
            }
            done
        },
        StepProposal::VertexMerge { relation, creation, vertex, created } => {
            let rows = list_insertions(relation, creation);
            let staged = apply_vertex_merge(
                transaction, database, &rows, returning, scope, session,
            );
            let ghost (log_staged, failed) = choose|
                log_staged: Seq<Event>,
                failed: Option<Fault>,
            | #[trigger]
                merges_rows(
                    before, *transaction, *database, rows@, returning, *scope, start, log_staged,
                    session.log(), failed, staged,
                );
            let done = match staged {
                Ok(()) => Ok(StepReceipt::Vertex { vertex, created }),
                Err(fault) => Err(fault),
            };
            proof {
                assert(steps_once(
                    before, *transaction, *database, given, returning, *scope, start, log_staged,
                    session.log(), failed, done,
                ));
            }
            done
        },
        StepProposal::VertexUpsert { relation, creation, controls, actions, vertex, created } => {
            let rows = list_insertions(relation, creation);
            let staged = apply_vertex_upsert(
                transaction, database, &rows, &controls, &actions, returning, scope, session,
            );
            let done = match staged {
                Ok(()) => Ok(StepReceipt::Vertex { vertex, created }),
                Err(fault) => Err(fault),
            };
            proof {
                let run = choose|run: UpsertRun| #[trigger]
                    upserts_rows(
                        before, *transaction, *database, rows@, controls@, actions, returning, *scope, start,
                        session.log(), run, staged,
                    );
                assert(upserts_rows(
                    before, *transaction, *database, rows@, controls@, actions, returning, *scope, start,
                    session.log(), run, staged,
                ));
                assert(steps_once(
                    before, *transaction, *database, given, returning, *scope, start, start,
                    session.log(), None, done,
                ));
            }
            done
        },
        StepProposal::Edge => {
            let refusal = Fault::Source(WriteTxnError::AuthorizedMutationRefused);
            proof {
                assert(steps_once(
                    before, *transaction, *database, given, returning, *scope, start, start,
                    session.log(), None, Err(refusal),
                ));
            }
            Err(refusal)
        },
    }
}

impl WriteProgram {
    /// Run one frozen statement. A finished statement is counted, and its receipt
    /// kept where the program returns receipts.
    pub fn step<H: Host>(
        &mut self,
        database: &Database,
        proposal: StepProposal,
        stats: StatementStats,
        scope: &Predicates,
        session: &mut Session<H>,
    ) -> (done: Result<(), Fault>)
        requires
            old(self).transaction.wf(),
            old(self).stats.wf(),
            old(self).stats.completed_statements < u64::MAX,
            database.wf(),
            proposal matches StepProposal::Delete { proposal: targets, .. } ==> targets.wf(),
        ensures
            final(self).transaction.wf(),
            final(self).stats.wf(),
            final(self).returning == old(self).returning,
            run_frame(old(self).transaction, final(self).transaction),
            final(session).metered() == old(session).metered(),
            exists|
                log_staged: Seq<Event>,
                failed: Option<Fault>,
                receipt: Result<StepReceipt, Fault>,
            |
                {
                    &&& #[trigger] steps_once(
                        old(self).transaction,
                        final(self).transaction,
                        *database,
                        proposal,
                        old(self).returning,
                        *scope,
                        old(session).log(),
                        log_staged,
                        final(session).log(),
                        failed,
                        receipt,
                    )
                    &&& failure(done) == failure(receipt)
                    &&& match receipt {
                        Ok(step) => {
                            &&& final(self).stats == old(self).stats.and(stats)
                            &&& final(self).receipts@ == (if old(self).returning {
                                old(self).receipts@.push(step)
                            } else {
                                old(self).receipts@
                            })
                        },
                        Err(_) => {
                            &&& final(self).stats == old(self).stats
                            &&& final(self).receipts@ == old(self).receipts@
                        },
                    }
                },
    {
        let ghost before = self.transaction;
        let ghost start = session.log();
        let ghost given = proposal;
        let receipt = apply_step(
            &mut self.transaction,
            database,
            proposal,
            self.returning,
            scope,
            session,
        );
        let ghost kept = receipt;
        proof {
            let (log_staged, failed) = choose|log_staged: Seq<Event>, failed: Option<Fault>|
                #[trigger] steps_once(
                    before, self.transaction, *database, given, self.returning, *scope, start,
                    log_staged, session.log(), failed, kept,
                );
            assert(steps_once(
                before, self.transaction, *database, given, self.returning, *scope, start,
                log_staged, session.log(), failed, kept,
            ));
        }
        match receipt {
            Ok(step) => {
                self.stats = self.stats.count(stats);
                if self.returning {
                    self.receipts.push(step);
                }
                Ok(())
            },
            Err(fault) => Err(fault),
        }
    }

    /// Complete the program. A failure names how many statements had finished;
    /// none of them is published.
    pub fn finish<H: Host>(&mut self, database: &Database, session: &mut Session<H>) -> (done: Result<
        CompletionStep,
        ProgramInterrupted,
    >)
        requires
            old(self).transaction.wf(),
            database.wf(),
        ensures
            final(self).transaction.wf(),
            final(self).stats == old(self).stats,
            final(self).receipts == old(self).receipts,
            final(session).metered() == old(session).metered(),
            done matches Ok(step) ==> ready(final(self).transaction, *database, step),
            exists|step: Result<CompletionStep, WriteTxnError>|
                {
                    &&& #[trigger] closes(
                        old(self).transaction,
                        final(self).transaction,
                        *database,
                        false,
                        old(session).metered(),
                        old(session).log(),
                        final(session).log(),
                        step,
                    )
                    &&& match (step, done) {
                        (Ok(next), Ok(handed)) => next == handed,
                        (Err(error), Err(stopped)) => stopped == (ProgramInterrupted {
                            completed_statements: old(self).stats.completed_statements,
                            source: error,
                        }),
                        _ => false,
                    }
                },
    {
        let step = self.transaction.complete_controlled(database, false, session);
        match step {
            Ok(next) => {
                assert(closes(
                    old(self).transaction, self.transaction, *database, false,
                    old(session).metered(), old(session).log(), session.log(),
                    Ok::<CompletionStep, WriteTxnError>(next),
                ));
                Ok(next)
            },
            Err(error) => {
                assert(closes(
                    old(self).transaction, self.transaction, *database, false,
                    old(session).metered(), old(session).log(), session.log(),
                    Err::<CompletionStep, WriteTxnError>(error),
                ));
                Err(
                    ProgramInterrupted {
                        completed_statements: self.stats.completed_statements,
                        source: error,
                    },
                )
            },
        }
    }
}

/// A program that could not be completed.
#[derive(Clone, Copy, PartialEq, Eq, Structural, Debug)]
pub struct ProgramInterrupted {
    pub completed_statements: u64,
    pub source: WriteTxnError,
}

} // verus!
