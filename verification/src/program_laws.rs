//! What authorized calls keep to: nothing opens without the right to, and a program runs
//! whole, in order, or not at all.

use vstd::prelude::*;
use crate::authorized_entry::{opening_steps, ordered_steps};
use crate::authorized_program::{
    preflighted, program_steps, StatementKind, StepReceipt, WriteProgram,
};
use crate::authorized_statements::{
    continues_program, ends_program, kinds_of, runs_program, traces_program, traces_step,
    ProgramFault, ProgramTrace,
};
use crate::batch::WriteBatch;
use crate::collector::{Asked, Prepared};
use crate::database::{frontier_of, Database};
use crate::errors::Denial;
use crate::finish::CompletionStep;
use crate::identity::IdentityState;
use crate::ids::RelationId;
use crate::plan::{obeys, upto, whole};
use crate::scope::Predicates;
use crate::session::{Event, Metering};
use crate::statement::ProgramStats;
use crate::statement_laws::lemma_every_step_goes;
use crate::txn::WriteTxn;

verus! {

/// Nothing opens a statement, an ordered write or a program but a verified capability of
/// the database's own authority, on a healthy handle. A statement that reads needs the
/// right to read, and one that names a relation needs it admitted. A program holds no
/// relationship MERGE or upsert, and without the right to read no statement that reads.
pub proof fn law_nothing_opens_without_the_right_to(
    database: Database,
    namespace: u64,
    verified: Result<Predicates, Denial>,
    reading: bool,
    relation: Option<RelationId>,
    prepaid: bool,
    batches: Seq<WriteBatch>,
    kinds: Seq<StatementKind>,
)
    ensures
        whole(
            opening_steps(database, namespace, verified, reading, relation, prepaid),
        ).verdict is None <==> {
            &&& namespace == database.namespace
            &&& verified matches Ok(scope)
            &&& reading ==> scope.can_read
            &&& relation matches Some(named) ==> scope.admits_relation(named)
            &&& frontier_of(database.state) is Ok
        },
        whole(ordered_steps(database, namespace, verified, batches)).verdict is None ==> {
            &&& namespace == database.namespace
            &&& verified is Ok
            &&& batches.len() > 0
            &&& forall|i: int| 0 <= i < batches.len() ==> (#[trigger] batches[i]).rows@.len() > 0
            &&& frontier_of(database.state) is Ok
        },
        whole(program_steps(database, namespace, verified, kinds)).verdict is None ==> {
            &&& namespace == database.namespace
            &&& verified is Ok
            &&& frontier_of(database.state) is Ok
            &&& forall|i: int|
                0 <= i < kinds.len() ==> match #[trigger] kinds[i] {
                    StatementKind::EdgeMerge => false,
                    StatementKind::EdgeUpsert => false,
                    StatementKind::Insert { selects } => selects ==> verified->Ok_0.can_read,
                    _ => verified->Ok_0.can_read,
                }
        },
{
    let opening = opening_steps(database, namespace, verified, reading, relation, prepaid);
    if whole(opening).verdict is None {
        lemma_every_step_goes(opening, 6, 0);
        lemma_every_step_goes(opening, 6, 1);
        lemma_every_step_goes(opening, 6, 2);
        lemma_every_step_goes(opening, 6, 5);
    } else {
        lemma_opening_goes(database, namespace, verified, reading, relation, prepaid);
    }
    let ordered = ordered_steps(database, namespace, verified, batches);
    if whole(ordered).verdict is None {
        let n = ordered.len() as int;
        lemma_every_step_goes(ordered, n, 0);
        lemma_every_step_goes(ordered, n, 1);
        lemma_every_step_goes(ordered, n, 3);
        lemma_every_step_goes(ordered, n, n - 1);
        assert forall|i: int| 0 <= i < batches.len() implies (#[trigger] batches[i]).rows@.len()
            > 0 by {
            lemma_every_step_goes(ordered, n, 4 + i);
        }
    }
    let program = program_steps(database, namespace, verified, kinds);
    if whole(program).verdict is None {
        let n = program.len() as int;
        lemma_every_step_goes(program, n, 0);
        lemma_every_step_goes(program, n, 1);
        lemma_every_step_goes(program, n, n - 1);
        assert forall|i: int| 0 <= i < kinds.len() implies match #[trigger] kinds[i] {
            StatementKind::EdgeMerge => false,
            StatementKind::EdgeUpsert => false,
            StatementKind::Insert { selects } => selects ==> verified->Ok_0.can_read,
            _ => verified->Ok_0.can_read,
        } by {
            lemma_every_step_goes(program, n, 2 + i);
        }
    }
}

proof fn lemma_opening_goes(
    database: Database,
    namespace: u64,
    verified: Result<Predicates, Denial>,
    reading: bool,
    relation: Option<RelationId>,
    prepaid: bool,
)
    ensures
        ({
            &&& namespace == database.namespace
            &&& verified matches Ok(scope)
            &&& reading ==> scope.can_read
            &&& relation matches Some(named) ==> scope.admits_relation(named)
            &&& frontier_of(database.state) is Ok
        }) ==> whole(
            opening_steps(database, namespace, verified, reading, relation, prepaid),
        ).verdict is None,
{
    reveal_with_fuel(upto, 7);
}

/// A trace counts each of its statements once.
proof fn lemma_trace_counts(
    trace: ProgramTrace,
    n: int,
    k: int,
    database: Database,
    scope: Predicates,
    statements: Seq<Prepared>,
)
    requires
        traces_program(trace, n, database, scope, statements),
        0 <= k <= n <= u64::MAX,
        trace.states[0].stats == ProgramStats::none(),
    ensures
        trace.states[k].stats.completed_statements == k,
    decreases k,
{
    if k > 0 {
        lemma_trace_counts(trace, n, k - 1, database, scope, statements);
        assert(traces_step(trace, k - 1, database, scope, statements));
    }
}

/// What is asked of a collector on behalf of a statement.
pub open spec fn asks_for(asked: Asked, index: int, statement: Prepared, scope: Predicates) -> bool {
    &&& asked.index == index
    &&& asked.prepared == statement
    &&& asked.scope == scope
}

proof fn lemma_trace_asks(
    trace: ProgramTrace,
    n: int,
    k: int,
    database: Database,
    scope: Predicates,
    statements: Seq<Prepared>,
)
    requires
        traces_program(trace, n, database, scope, statements),
        0 <= k <= n,
    ensures
        trace.asked[k].len() == trace.asked[0].len() + k,
        forall|i: int|
            0 <= i < k ==> asks_for(
                #[trigger] trace.asked[k][trace.asked[0].len() + i],
                i,
                statements[i],
                scope,
            ),
    decreases k,
{
    if k > 0 {
        lemma_trace_asks(trace, n, k - 1, database, scope, statements);
        assert(traces_step(trace, k - 1, database, scope, statements));
        let m = trace.asked[0].len() as int;
        assert forall|i: int| 0 <= i < k implies asks_for(
            #[trigger] trace.asked[k][m + i],
            i,
            statements[i],
            scope,
        ) by {
            if i < k - 1 {
                assert(trace.asked[k][m + i] == trace.asked[k - 1][m + i]);
            }
        }
    }
}

/// A program that completes ran every statement: it counts as many as it has, and each was
/// asked for once, in order and under the scope.
pub proof fn law_programs_run_every_statement_in_order(
    database: Database,
    namespace: u64,
    verified: Result<Predicates, Denial>,
    statements: Seq<Prepared>,
    returning: bool,
    metered: Metering,
    identities: IdentityState,
    identities_after: IdentityState,
    log: Seq<Event>,
    log_after: Seq<Event>,
    asked: Seq<Asked>,
    asked_after: Seq<Asked>,
    stats: ProgramStats,
    receipts: Vec<StepReceipt>,
    ended: WriteTxn,
    step: CompletionStep,
)
    requires
        statements.len() <= u64::MAX,
        runs_program(
            database,
            namespace,
            verified,
            statements,
            returning,
            metered,
            identities,
            identities_after,
            log,
            log_after,
            asked,
            asked_after,
            Ok::<_, ProgramFault>((stats, receipts, ended, step)),
        ),
    ensures
        stats.completed_statements == statements.len(),
        verified is Ok,
        asked_after.len() == asked.len() + statements.len(),
        forall|i: int|
            0 <= i < statements.len() ==> asks_for(
                #[trigger] asked_after[asked.len() + i],
                i,
                statements[i],
                verified->Ok_0,
            ),
{
    let (opened, middle) = choose|
        opened: WriteProgram,
        middle: Seq<Event>,
    |
        {
            &&& opened.stats == ProgramStats::none()
            &&& opened.receipts@.len() == 0
            &&& #[trigger] obeys(
                log,
                middle,
                whole(
                    program_steps(database, namespace, verified, kinds_of(statements)),
                ).lift(preflighted()),
                preflighted(),
                None,
            )
            &&& #[trigger] continues_program(
                opened,
                database,
                statements,
                verified->Ok_0,
                metered,
                identities,
                identities_after,
                middle,
                log_after,
                asked,
                asked_after,
                Ok::<_, ProgramFault>((stats, receipts, ended, step)),
            )
        };
    let scope = verified->Ok_0;
    let (trace, n) = choose|trace: ProgramTrace, n: int|
        {
            &&& 0 <= n <= statements.len()
            &&& #[trigger] traces_program(trace, n, database, scope, statements)
            &&& trace.states[0] == opened
            &&& trace.asked[0] == asked
            &&& ends_program(
                trace,
                n,
                statements,
                database,
                scope,
                metered,
                identities_after,
                log_after,
                asked_after,
                Ok::<_, ProgramFault>((stats, receipts, ended, step)),
            )
        };
    lemma_trace_counts(trace, n, n, database, scope, statements);
    lemma_trace_asks(trace, n, n, database, scope, statements);
}

} // verus!
