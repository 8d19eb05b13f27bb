//! What a published statement promises its caller.

use vstd::prelude::*;
use crate::authorized::denied;
use crate::authorized_apply::{insert_rows, InsertIntent};
use crate::authorized_deletion::{deletable, delete_head_steps, deletes};
use crate::authorized_entry::{begun, opening_steps};
use crate::authorized_execute::{executes, finishes, StatementRun};
use crate::authorized_laws::lemma_undeletable;
use crate::authorized_program::{StatementKind, StepProposal, StepReceipt};
use crate::authorized_run::{run_of, runs, took, Trace};
use crate::authorized_statement::{lead_plan, Lead};
use crate::authorized_statements::{
    continues_statement, continues_vertex_merge, final_stats, runs_statement, runs_vertex_merge,
};
use crate::autocommit::Reporter;
use crate::batch::WriteBatch;
use crate::collection::{
    collects, collects_by, issued_upto, requested_upto, serves, serves_upto, Collecting, Service,
};
use crate::collector::{Asked, Callback, Prepared, Statement};
use crate::database::{frontier_of, Database};
use crate::draft::{acceptable, needs, StepDraft};
use crate::errors::{Denial, WriteTxnError};
use crate::finish::CompletionStep;
use crate::identity::{identity_of, refreshed, reserved, IdentityState};
use crate::ids::{CommitSeq, VId};
use crate::plan::{failure, obeys, stop, whole};
use crate::published::{ends_published, paired, statement_wrap, tripled};
use crate::publisher::Requested;
use crate::scope::Predicates;
use crate::session::{refused, Event, IdentityKind, Metering};
use crate::statement::{source, Fault, StatementStats};
use crate::txn::{EmbeddedTxnCompletion, WriteTxn};

verus! {

/// Callbacks that ask for no identity leave the allocator as it was.
proof fn lemma_no_request(
    database: Database,
    callbacks: Seq<Callback>,
    n: int,
    service: Service,
    k: int,
)
    requires
        serves_upto(database, callbacks, n, service),
        0 <= k <= n,
        requested_upto(callbacks, k).len() == 0,
    ensures
        service.states[k] == service.states[0],
        issued_upto(callbacks, service.states, k).len() == 0,
    decreases k,
{
    if k > 0 {
        assert(callbacks[k - 1] is Control);
        lemma_no_request(database, callbacks, n, service, k - 1);
        assert(serves(
            database, callbacks[k - 1], service.states[k - 1], service.states[k],
            service.logs[k - 1], service.logs[k], None,
        ));
    }
}

/// Callbacks that ask for one vertex take exactly the next identity.
proof fn lemma_one_request(
    database: Database,
    callbacks: Seq<Callback>,
    n: int,
    service: Service,
    k: int,
)
    requires
        serves_upto(database, callbacks, n, service),
        0 <= k <= n,
        requested_upto(callbacks, k) == seq![IdentityKind::Vertex],
    ensures
        service.states[k] == reserved(
            refreshed(service.states[0], database),
            IdentityKind::Vertex,
        ),
        issued_upto(callbacks, service.states, k) == seq![
            identity_of(IdentityKind::Vertex, service.states[k].vertex),
        ],
        refreshed(service.states[0], database).vertex < u128::MAX,
    decreases k,
{
    assert(requested_upto(callbacks, k).len() == 1);
    assert(serves(
        database, callbacks[k - 1], service.states[k - 1], service.states[k], service.logs[k - 1],
        service.logs[k], None,
    ));
    match callbacks[k - 1] {
        Callback::Control(_) => {
            lemma_one_request(database, callbacks, n, service, k - 1);
        },
        Callback::Issue(kind) => {
            let earlier = requested_upto(callbacks, k - 1);
            assert(earlier.push(kind).len() == 1);
            assert(earlier.push(kind)[0] == kind);
            lemma_no_request(database, callbacks, n, service, k - 1);
            assert(issued_upto(callbacks, service.states, k) =~= seq![
                identity_of(IdentityKind::Vertex, service.states[k].vertex),
            ]);
        },
    }
}

/// What collecting a vertex MERGE does to the allocator: a match takes nothing, and a
/// creation takes the next identity of the handle.
proof fn lemma_merge_identity(
    before: WriteTxn,
    after: WriteTxn,
    database: Database,
    prepared: Prepared,
    scope: Predicates,
    identities: IdentityState,
    identities_after: IdentityState,
    log: Seq<Event>,
    log_after: Seq<Event>,
    asked: Seq<Asked>,
    asked_after: Seq<Asked>,
    creation: Seq<InsertIntent>,
    vertex: VId,
    created: bool,
    done: Result<(StepProposal, StatementStats), Fault>,
)
    requires
        collects(
            before,
            after,
            database,
            0,
            prepared,
            scope,
            identities,
            identities_after,
            log,
            log_after,
            asked,
            asked_after,
            done,
        ),
        done matches Ok((StepProposal::VertexMerge { creation: c, vertex: v, created: n, .. }, _))
            && c@ == creation && v == vertex && n == created,
    ensures
        created ==> {
            &&& creation.len() == 1
            &&& vertex.0 == refreshed(identities, database).vertex + 1
            &&& identities_after == reserved(refreshed(identities, database), IdentityKind::Vertex)
        },
        !created ==> creation.len() == 0 && identities_after == identities,
{
    let run = choose|run: Collecting| #[trigger]
        collects_by(
            before, after, database, 0, prepared, scope, identities, identities_after, log,
            log_after, asked, asked_after, run, done,
        );
    let callbacks = run.answer.callbacks@;
    let n = callbacks.len() as int;
    let draft = run.answer.outcome->Ok_0.draft;
    assert(needs(draft) == requested_upto(callbacks, n));
    match draft {
        StepDraft::VertexMerge { relation, target } => {
            if target is Matched {
                lemma_no_request(database, callbacks, n, run.service, n);
            } else {
                assert(requested_upto(callbacks, n) == seq![IdentityKind::Vertex]);
                lemma_one_request(database, callbacks, n, run.service, n);
            }
        },
        _ => {},
    }
}

/// An authorized vertex MERGE that came back tells the truth: a created vertex has the
/// next identity of the handle and is durable under the next commit sequence; a
/// matched one took no identity, published nothing and left the database alone.
pub proof fn law_vertex_merge_outcome(
    before: Database,
    after: Database,
    namespace: u64,
    verified: Result<Predicates, Denial>,
    statement: Statement,
    metered: Metering,
    identities: IdentityState,
    identities_after: IdentityState,
    log: Seq<Event>,
    log_after: Seq<Event>,
    asked: Seq<Asked>,
    asked_after: Seq<Asked>,
    prepared: Result<(StatementStats, VId, bool, WriteTxn, CompletionStep), Fault>,
    requested: Seq<Requested>,
    requested_after: Seq<Requested>,
    stats: StatementStats,
    vertex: VId,
    created: bool,
    completion: EmbeddedTxnCompletion,
)
    requires
        runs_vertex_merge(
            before,
            namespace,
            verified,
            statement,
            metered,
            identities,
            identities_after,
            log,
            log_after,
            asked,
            asked_after,
            prepared,
        ),
        ends_published(
            before,
            after,
            statement_wrap(Reporter::Statement),
            tripled(prepared),
            requested,
            requested_after,
            Ok(((stats, vertex, created), completion)),
        ),
    ensures
        created ==> {
            &&& completion == (EmbeddedTxnCompletion::WriteCommitted {
                commit_seq: CommitSeq((before.tip() + 1) as u64),
            })
            &&& vertex.0 == refreshed(identities, before).vertex + 1
            &&& identities_after == reserved(refreshed(identities, before), IdentityKind::Vertex)
        },
        !created ==> {
            &&& completion == (EmbeddedTxnCompletion::ReadClosed {
                snapshot_seq: frontier_of(before.state)->Ok_0,
                validated_through: frontier_of(before.state)->Ok_0,
            })
            &&& identities_after == identities
            &&& after == before
            &&& requested_after == requested
        },
{
    let gate = whole(
        opening_steps(before, namespace, verified, true, None, true),
    ).lift(source());
    let form = Prepared { kind: StatementKind::VertexMerge, statement };
    let (opened, middle) = choose|opened: WriteTxn, middle: Seq<Event>|
        {
            &&& #[trigger] obeys(log, middle, gate, source(), None)
            &&& begun(opened, before)
            &&& verified is Ok
            &&& #[trigger] continues_vertex_merge(
                opened, before, form, verified->Ok_0, metered, identities, identities_after,
                middle, log_after, asked, asked_after, prepared,
            )
        };
    let scope = verified->Ok_0;
    let (read, log_read, collected) = choose|
        read: WriteTxn,
        log_read: Seq<Event>,
        collected: Result<(StepProposal, StatementStats), Fault>,
    |
        {
            &&& #[trigger] collects(
                opened, read, before, 0, form, scope, identities, identities_after, middle,
                log_read, asked, asked_after, collected,
            )
            &&& match collected {
                Err(fault) => failure(prepared) == Some(fault) && log_after == log_read,
                Ok((StepProposal::VertexMerge { relation, creation, vertex, created }, stats)) => exists|
                    applied: WriteTxn,
                    log_applied: Seq<Event>,
                    failed: Option<Fault>,
                    ended: Result<(WriteTxn, CompletionStep), Fault>,
                |
                    {
                        &&& #[trigger] runs(
                            insert_rows(relation, creation@),
                            lead_plan(Lead::Poll, insert_rows(relation, creation@)),
                            source(),
                            read,
                            applied,
                            before,
                            scope,
                            log_read,
                            log_applied,
                            failed,
                        )
                        &&& #[trigger] finishes(
                            applied, before, metered, log_applied, log_after, failed, ended,
                        )
                        &&& prepared == (match ended {
                            Ok((after, step)) => Ok((stats, vertex, created, after, step)),
                            Err(fault) => Err(fault),
                        })
                    },
                Ok(_) => false,
            }
        };
    let (proposal, counted) = collected->Ok_0;
    match proposal {
        StepProposal::VertexMerge { relation, creation, vertex: v, created: c } => {
            let rows = insert_rows(relation, creation@);
            let lead = lead_plan(Lead::Poll, rows);
            let (applied, log_applied, failed, ended) = choose|
                applied: WriteTxn,
                log_applied: Seq<Event>,
                failed: Option<Fault>,
                ended: Result<(WriteTxn, CompletionStep), Fault>,
            |
                {
                    &&& #[trigger] runs(
                        rows, lead, source(), read, applied, before, scope, log_read, log_applied,
                        failed,
                    )
                    &&& #[trigger] finishes(
                        applied, before, metered, log_applied, log_after, failed, ended,
                    )
                    &&& prepared == (match ended {
                        Ok((after, step)) => Ok((counted, v, c, after, step)),
                        Err(fault) => Err(fault),
                    })
                };
            lemma_merge_identity(
                opened, read, before, form, scope, identities, identities_after, middle, log_read,
                asked, asked_after, creation@, v, c, collected,
            );
            let (trace, failing) = choose|trace: Trace, failing: WriteBatch| #[trigger]
                run_of(
                    trace, failing, rows, lead, source(), read, applied, before, scope, log_read,
                    log_applied, failed,
                );
            let run = choose|run: Collecting| #[trigger]
                collects_by(
                    opened, read, before, 0, form, scope, identities, identities_after, middle,
                    log_read, asked, asked_after, run, collected,
                );
            assert(read == opened);
            if c {
                assert(took(
                    trace.states[0], trace.states[1], trace.singles[0], trace.logs[1],
                ));
                assert(applied.prepared is Some);
            } else {
                assert(applied == read);
                assert(applied.prepared is None);
            }
        },
        _ => {},
    }
}

/// Callbacks that are controls alone only lengthen the log, and ask for no identity.
proof fn lemma_controls_grow(
    database: Database,
    callbacks: Seq<Callback>,
    n: int,
    service: Service,
    k: int,
)
    requires
        serves_upto(database, callbacks, n, service),
        0 <= k <= n <= callbacks.len(),
        forall|i: int| 0 <= i < callbacks.len() ==> #[trigger] callbacks[i] is Control,
    ensures
        service.logs[0].len() <= service.logs[k].len(),
        requested_upto(callbacks, k).len() == 0,
    decreases k,
{
    if k > 0 {
        lemma_controls_grow(database, callbacks, n, service, k - 1);
        assert(callbacks[k - 1] is Control);
        assert(serves(
            database, callbacks[k - 1], service.states[k - 1], service.states[k],
            service.logs[k - 1], service.logs[k], None,
        ));
    }
}

proof fn lemma_requests_nothing(callbacks: Seq<Callback>, n: int)
    requires
        0 <= n <= callbacks.len(),
        forall|i: int| 0 <= i < callbacks.len() ==> #[trigger] callbacks[i] is Control,
    ensures
        requested_upto(callbacks, n) == Seq::<IdentityKind>::empty(),
    decreases n,
{
    if n > 0 {
        lemma_requests_nothing(callbacks, n - 1);
        assert(callbacks[n - 1] is Control);
    }
}

/// What was asked of a collector whose deletion the capability may not decide in full.
pub open spec fn proposes_undeletable(scope: Predicates, question: Asked) -> bool {
    &&& question.answer.outcome matches Ok(proposed)
    &&& proposed.draft matches StepDraft::Delete { proposal }
    &&& proposal.wf()
    &&& !deletable(scope, proposal)
    &&& forall|i: int|
        0 <= i < question.answer.callbacks@.len() ==> #[trigger] question.answer.callbacks@[i] is Control
}

/// A deletion that the capability may not decide in full, as a whole call: whatever the
/// database holds, the caller gets the same refusal unless a control was stopped first,
/// nothing is published and the database is left alone.
proof fn lemma_undeletable_call(
    before: Database,
    after: Database,
    namespace: u64,
    scope: Predicates,
    statement: Statement,
    returning: bool,
    metered: Metering,
    identities: IdentityState,
    identities_after: IdentityState,
    log: Seq<Event>,
    log_after: Seq<Event>,
    asked: Seq<Asked>,
    question: Asked,
    prepared: Result<(StatementStats, StepReceipt, WriteTxn, CompletionStep), Fault>,
    requested: Seq<Requested>,
    requested_after: Seq<Requested>,
    done: Result<((StatementStats, StepReceipt), EmbeddedTxnCompletion), Fault>,
)
    requires
        runs_statement(
            before,
            namespace,
            Ok(scope),
            true,
            None,
            Prepared { kind: StatementKind::Delete, statement },
            returning,
            metered,
            identities,
            identities_after,
            log,
            log_after,
            asked,
            asked.push(question),
            prepared,
        ),
        ends_published(
            before,
            after,
            statement_wrap(Reporter::Statement),
            paired(prepared),
            requested,
            requested_after,
            done,
        ),
        proposes_undeletable(scope, question),
        refused(log, log_after) is None,
    ensures
        failure(done) == Some(Fault::Source(denied())),
        after == before,
        requested_after == requested,
        identities_after == identities,
{
    let verified: Result<Predicates, Denial> = Ok(scope);
    let gate = whole(opening_steps(before, namespace, verified, true, None, false)).lift(source());
    let form = Prepared { kind: StatementKind::Delete, statement };
    let asked_after = asked.push(question);
    assert(asked_after.len() != asked.len());
    let (opened, middle) = choose|opened: WriteTxn, middle: Seq<Event>|
        {
            &&& #[trigger] obeys(log, middle, gate, source(), None)
            &&& begun(opened, before)
            &&& verified is Ok
            &&& #[trigger] continues_statement(
                opened, before, form, returning, scope, metered, identities, identities_after,
                middle, log_after, asked, asked_after, prepared,
            )
        };
    let (read, log_read, collected) = choose|
        read: WriteTxn,
        log_read: Seq<Event>,
        collected: Result<(StepProposal, StatementStats), Fault>,
    |
        {
            &&& #[trigger] collects(
                opened, read, before, 0, form, scope, identities, identities_after, middle,
                log_read, asked, asked_after, collected,
            )
            &&& match collected {
                Err(fault) => failure(prepared) == Some(fault) && log_after == log_read,
                Ok((proposal, stats)) => exists|
                    run: StatementRun,
                    ended: Result<(StepReceipt, WriteTxn, CompletionStep), Fault>,
                |
                    {
                        &&& #[trigger] executes(
                            read, before, proposal, returning, scope, metered, log_read, log_after,
                            run, ended,
                        )
                        &&& prepared == (match ended {
                            Ok((receipt, after, step)) => Ok(
                                (final_stats(stats, receipt), receipt, after, step),
                            ),
                            Err(fault) => Err(fault),
                        })
                    },
            }
        };
    let run = choose|run: Collecting| #[trigger]
        collects_by(
            opened, read, before, 0, form, scope, identities, identities_after, middle, log_read,
            asked, asked_after, run, collected,
        );
    assert(run.source is Ok);
    let other = Asked {
        index: 0,
        prepared: form,
        source: run.source->Ok_0,
        scope,
        transaction: read,
        database: before,
        answer: run.answer,
    };
    assert(asked_after == asked.push(other));
    assert(asked_after.last() == question);
    assert(asked.push(other).last() == other);
    let callbacks = run.answer.callbacks@;
    assert(callbacks == question.answer.callbacks@);
    let n = run.service.states.len() - 1;
    lemma_controls_grow(before, callbacks, n, run.service, n);
    lemma_requests_nothing(callbacks, callbacks.len() as int);
    if run.served is Err {
        assert(callbacks[n] is Control);
        assert(log_read.len() > run.service.logs[n].len());
        assert(log_read.last().refusal is Some);
        assert(refused(log, log_after) is Some);
        assert(false);
    }
    lemma_no_request(before, callbacks, n, run.service, n);
    let proposed = run.answer.outcome->Ok_0;
    let targets = proposed.draft->Delete_proposal;
    assert(needs(proposed.draft) =~= Seq::<IdentityKind>::empty());
    assert(acceptable(StatementKind::Delete, proposed.draft));
    let (proposal, counted) = collected->Ok_0;
    assert(proposal == (StepProposal::Delete { proposal: targets, policy: statement.policy }));
    let (ran, ended) = choose|
        ran: StatementRun,
        ended: Result<(StepReceipt, WriteTxn, CompletionStep), Fault>,
    |
        {
            &&& #[trigger] executes(
                read, before, proposal, returning, scope, metered, log_read, log_after, ran, ended,
            )
            &&& prepared == (match ended {
                Ok((receipt, after, step)) => Ok(
                    (final_stats(counted, receipt), receipt, after, step),
                ),
                Err(fault) => Err(fault),
            })
        };
    lemma_undeletable(read, before, scope, targets, statement.policy, returning);
    let head = whole(
        delete_head_steps(read, before, scope, targets, statement.policy, returning),
    );
    assert(head == stop::<Fault>(Fault::Source(denied())));
    assert(deletes(
        read, ran.applied, before, scope, targets, statement.policy, returning, log_read,
        ran.log_applied, failure(ran.receipt),
    ));
    assert(failure(ran.receipt) == Some(Fault::Source(denied())));
}

/// A deletion that the capability may not decide in full discloses nothing: over any two
/// databases, both whole calls end in the same refusal, publish nothing, take no
/// identity and leave their database as it was.
pub proof fn law_refused_deletion_calls_disclose_nothing(
    namespace: u64,
    scope: Predicates,
    statement: Statement,
    returning: bool,
    metered: Metering,
    seen: Database,
    seen_after: Database,
    seen_identities: IdentityState,
    seen_identities_after: IdentityState,
    seen_log: Seq<Event>,
    seen_log_after: Seq<Event>,
    seen_asked: Seq<Asked>,
    seen_question: Asked,
    seen_prepared: Result<(StatementStats, StepReceipt, WriteTxn, CompletionStep), Fault>,
    seen_requested: Seq<Requested>,
    seen_requested_after: Seq<Requested>,
    seen_done: Result<((StatementStats, StepReceipt), EmbeddedTxnCompletion), Fault>,
    bare: Database,
    bare_after: Database,
    bare_identities: IdentityState,
    bare_identities_after: IdentityState,
    bare_log: Seq<Event>,
    bare_log_after: Seq<Event>,
    bare_asked: Seq<Asked>,
    bare_question: Asked,
    bare_prepared: Result<(StatementStats, StepReceipt, WriteTxn, CompletionStep), Fault>,
    bare_requested: Seq<Requested>,
    bare_requested_after: Seq<Requested>,
    bare_done: Result<((StatementStats, StepReceipt), EmbeddedTxnCompletion), Fault>,
)
    requires
        runs_statement(
            seen,
            namespace,
            Ok(scope),
            true,
            None,
            Prepared { kind: StatementKind::Delete, statement },
            returning,
            metered,
            seen_identities,
            seen_identities_after,
            seen_log,
            seen_log_after,
            seen_asked,
            seen_asked.push(seen_question),
            seen_prepared,
        ),
        ends_published(
            seen,
            seen_after,
            statement_wrap(Reporter::Statement),
            paired(seen_prepared),
            seen_requested,
            seen_requested_after,
            seen_done,
        ),
        proposes_undeletable(scope, seen_question),
        refused(seen_log, seen_log_after) is None,
        runs_statement(
            bare,
            namespace,
            Ok(scope),
            true,
            None,
            Prepared { kind: StatementKind::Delete, statement },
            returning,
            metered,
            bare_identities,
            bare_identities_after,
            bare_log,
            bare_log_after,
            bare_asked,
            bare_asked.push(bare_question),
            bare_prepared,
        ),
        ends_published(
            bare,
            bare_after,
            statement_wrap(Reporter::Statement),
            paired(bare_prepared),
            bare_requested,
            bare_requested_after,
            bare_done,
        ),
        proposes_undeletable(scope, bare_question),
        refused(bare_log, bare_log_after) is None,
    ensures
        failure(seen_done) == Some(
            Fault::Source(WriteTxnError::Authorization(Denial::ScopeDenied)),
        ),
        failure(bare_done) == failure(seen_done),
        seen_after == seen,
        bare_after == bare,
        seen_requested_after == seen_requested,
        bare_requested_after == bare_requested,
        seen_identities_after == seen_identities,
        bare_identities_after == bare_identities,
{
    lemma_undeletable_call(
        seen, seen_after, namespace, scope, statement, returning, metered, seen_identities,
        seen_identities_after, seen_log, seen_log_after, seen_asked, seen_question, seen_prepared,
        seen_requested, seen_requested_after, seen_done,
    );
    lemma_undeletable_call(
        bare, bare_after, namespace, scope, statement, returning, metered, bare_identities,
        bare_identities_after, bare_log, bare_log_after, bare_asked, bare_question, bare_prepared,
        bare_requested, bare_requested_after, bare_done,
    );
}

} // verus!
