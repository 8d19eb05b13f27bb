//! Limits, statistics and faults shared by governed statements.

use vstd::prelude::*;
use crate::errors::WriteTxnError;
use crate::plan::{
    ask, failure, go, lemma_obeys_and, lemma_obeys_failed, lemma_obeys_nothing, lemma_obeys_stop,
    obeys, stop, Plan,
};
use crate::session::{work_plan, Host, Request, Session};

verus! {

/// A dimension of the evaluator's own allowance.
#[derive(Clone, Copy, PartialEq, Eq, Structural, Debug)]
pub enum GlaLimitDimension {
    WorkUnits,
    ScratchEntries,
}

/// A dimension of the row budget.
#[derive(Clone, Copy, PartialEq, Eq, Structural, Debug)]
pub enum GqlBudgetDimension {
    SnapshotRecords,
    ResultRows,
}

/// What one evaluator event uses up.
#[derive(Clone, Copy, PartialEq, Eq, Structural, Debug)]
pub enum GlaExecutionEvent {
    Work,
    ScratchEntry,
}

/// Why a governed statement failed.
#[allow(inconsistent_fields)]
#[derive(Clone, Copy, PartialEq, Eq, Structural, Debug)]
pub enum Fault {
    Source(WriteTxnError),
    /// What the actions of an upsert ran into, once its MERGE had gone well.
    Staging(WriteTxnError),
    Interrupted(WriteTxnError),
    Allocation(u64),
    Evaluator { dimension: GlaLimitDimension, limit: u64, observed: u128 },
    Rows { dimension: GqlBudgetDimension, limit: u64, observed: u64 },
    InvalidSourceStatistics,
    InvalidSourceShape,
    IncidentRelationships,
    InputSchema { row: u64, column: u64 },
    NullEndpoint { row: u64, column: u64 },
    AmbiguousEndpointPairs { observed: u64 },
    AmbiguousRelationships { observed: u64 },
    IdentitySource(WriteTxnError),
    IdentityKind,
    Preflight(WriteTxnError),
    ActionLimit { limit: u64, observed: u128 },
    CreationLimit { limit: u64, observed: u64 },
}

/// The native allowance of a statement.
#[derive(Clone, Copy, PartialEq, Eq, Structural, Debug)]
pub struct QueryPolicy {
    pub max_work_units: u64,
    pub max_scratch_entries: u64,
    /// Source records, where they are limited at all.
    pub max_snapshot_records: Option<u64>,
    /// Result rows, where they are limited at all.
    pub max_result_rows: Option<u64>,
    /// Whether every event pays one unit of the signed allowance too.
    pub signed: bool,
}

/// More than a limit allows. No limit allows everything.
pub open spec fn beyond(observed: int, limit: Option<u64>) -> bool {
    limit matches Some(most) && observed > most
}

/// Whether a count is more than a limit allows.
pub fn is_beyond(observed: u128, limit: Option<u64>) -> (exceeded: bool)
    ensures
        exceeded == beyond(observed as int, limit),
{
    match limit {
        Some(most) => observed > most as u128,
        None => false,
    }
}

/// What a statement has used so far.
#[derive(Clone, Copy, PartialEq, Eq, Structural, Debug)]
pub struct QueryStats {
    pub result_rows: u64,
    pub snapshot_records: u64,
    pub work_units: u64,
    pub scratch_entries: u64,
}

/// What a statement used and proposed, as its evaluation counted it.
#[derive(Clone, Copy, PartialEq, Eq, Structural, Debug)]
pub struct StatementStats {
    pub usage: QueryStats,
    pub effects: u64,
    pub created_vertices: u64,
    pub created_edges: u64,
    pub target_vertices: u64,
    pub target_edges: u64,
}

/// What the finished statements of a program proposed together.
#[derive(Clone, Copy, PartialEq, Eq, Structural, Debug)]
pub struct ProgramStats {
    pub completed_statements: u64,
    pub created_vertices: u128,
    pub created_edges: u128,
    pub mutation_effects: u128,
    /// The rows that the statements selected.
    pub result_rows: u128,
}

impl ProgramStats {
    /// No statement finished yet.
    pub open spec fn none() -> ProgramStats {
        ProgramStats {
            completed_statements: 0,
            created_vertices: 0,
            created_edges: 0,
            mutation_effects: 0,
            result_rows: 0,
        }
    }

    /// No more than the finished statements can have proposed.
    pub open spec fn wf(self) -> bool {
        &&& self.created_vertices <= self.completed_statements * 0xffff_ffff_ffff_ffff
        &&& self.created_edges <= self.completed_statements * 0xffff_ffff_ffff_ffff
        &&& self.mutation_effects <= self.completed_statements * 0xffff_ffff_ffff_ffff
        &&& self.result_rows <= self.completed_statements * 0xffff_ffff_ffff_ffff
    }

    /// With one more finished statement.
    pub open spec fn and(self, stats: StatementStats) -> ProgramStats {
        ProgramStats {
            completed_statements: (self.completed_statements + 1) as u64,
            created_vertices: (self.created_vertices + stats.created_vertices) as u128,
            created_edges: (self.created_edges + stats.created_edges) as u128,
            mutation_effects: (self.mutation_effects + stats.effects) as u128,
            result_rows: (self.result_rows + stats.usage.result_rows) as u128,
        }
    }

    pub fn new() -> (stats: ProgramStats)
        ensures
            stats == ProgramStats::none(),
            stats.wf(),
    {
        ProgramStats {
            completed_statements: 0,
            created_vertices: 0,
            created_edges: 0,
            mutation_effects: 0,
            result_rows: 0,
        }
    }

    /// Count one more finished statement.
    pub fn count(self, stats: StatementStats) -> (counted: ProgramStats)
        requires
            self.wf(),
            self.completed_statements < u64::MAX,
        ensures
            counted == self.and(stats),
            counted.wf(),
            counted.created_vertices == self.created_vertices + stats.created_vertices,
            counted.created_edges == self.created_edges + stats.created_edges,
            counted.mutation_effects == self.mutation_effects + stats.effects,
            counted.result_rows == self.result_rows + stats.usage.result_rows,
    {
        ProgramStats {
            completed_statements: self.completed_statements + 1,
            created_vertices: self.created_vertices + stats.created_vertices as u128,
            created_edges: self.created_edges + stats.created_edges as u128,
            mutation_effects: self.mutation_effects + stats.effects as u128,
            result_rows: self.result_rows + stats.usage.result_rows as u128,
        }
    }
}

/// The origin of what the actions of an upsert ran into.
pub open spec fn in_staging(fault: Fault) -> Fault {
    match fault {
        Fault::Source(error) => Fault::Staging(error),
        other => other,
    }
}

/// Transaction errors inside a statement.
pub open spec fn source() -> spec_fn(WriteTxnError) -> Fault {
    |error: WriteTxnError| Fault::Source(error)
}

/// Cancellation of a statement.
pub open spec fn interrupted() -> spec_fn(WriteTxnError) -> Fault {
    |error: WriteTxnError| Fault::Interrupted(error)
}

/// The counters after one event.
pub open spec fn counted(stats: QueryStats, event: GlaExecutionEvent) -> QueryStats {
    QueryStats {
        work_units: (stats.work_units + 1) as u64,
        scratch_entries: (stats.scratch_entries + if event == GlaExecutionEvent::ScratchEntry {
            1int
        } else {
            0int
        }) as u64,
        ..stats
    }
}

/// The limit that one more event would exceed. Work is checked before scratch.
pub open spec fn event_excess(
    stats: QueryStats,
    policy: QueryPolicy,
    event: GlaExecutionEvent,
) -> Option<Fault> {
    let work = stats.work_units + 1;
    let scratch = stats.scratch_entries + if event == GlaExecutionEvent::ScratchEntry {
        1int
    } else {
        0int
    };
    if work > policy.max_work_units {
        Some(
            Fault::Evaluator {
                dimension: GlaLimitDimension::WorkUnits,
                limit: policy.max_work_units,
                observed: work as u128,
            },
        )
    } else if scratch > policy.max_scratch_entries {
        Some(
            Fault::Evaluator {
                dimension: GlaLimitDimension::ScratchEntries,
                limit: policy.max_scratch_entries,
                observed: scratch as u128,
            },
        )
    } else {
        None
    }
}

/// A verdict as a plan.
pub open spec fn verdict(fault: Option<Fault>) -> Plan<Fault> {
    match fault {
        Some(error) => stop(error),
        None => go(),
    }
}

/// Poll the query and pay one signed unit.
pub open spec fn query_unit() -> Seq<Request> {
    seq![Request::PollQuery] + work_plan(1)
}

/// One event: poll the query, pay one signed unit, then count natively.
pub open spec fn event_plan(
    stats: QueryStats,
    policy: QueryPolicy,
    event: GlaExecutionEvent,
) -> Plan<Fault> {
    ask::<Fault>(query_unit()).and(verdict(event_excess(stats, policy, event)))
}

/// Count one event against the native limits. The counters move only when both
/// limits hold.
pub fn count_event(stats: &mut QueryStats, policy: QueryPolicy, event: GlaExecutionEvent) -> (done:
    Result<(), Fault>)
    ensures
        failure(done) == event_excess(*old(stats), policy, event),
        *final(stats) == (if done is Ok {
            counted(*old(stats), event)
        } else {
            *old(stats)
        }),
{
    let work: u128 = stats.work_units as u128 + 1;
    let scratch: u128 = stats.scratch_entries as u128 + match event {
        GlaExecutionEvent::ScratchEntry => 1u128,
        GlaExecutionEvent::Work => 0u128,
    };
    if work > policy.max_work_units as u128 {
        return Err(
            Fault::Evaluator {
                dimension: GlaLimitDimension::WorkUnits,
                limit: policy.max_work_units,
                observed: work,
            },
        );
    }
    if scratch > policy.max_scratch_entries as u128 {
        return Err(
            Fault::Evaluator {
                dimension: GlaLimitDimension::ScratchEntries,
                limit: policy.max_scratch_entries,
                observed: scratch,
            },
        );
    }
    stats.work_units = work as u64;
    stats.scratch_entries = scratch as u64;
    Ok(())
}

/// Poll the query and pay one signed unit.
pub fn pay_query_unit<H: Host>(session: &mut Session<H>) -> (done: Result<(), Fault>)
    ensures
        final(session).metered() == old(session).metered(),
        obeys(
            old(session).log(),
            final(session).log(),
            ask(query_unit()),
            source(),
            failure(done),
        ),
{
    match session.query_work() {
        Ok(()) => Ok(()),
        Err(error) => Err(Fault::Source(error)),
    }
}

/// Extend, never reset, the native allowance while the signed one pays too.
pub fn meter_event<H: Host>(
    stats: &mut QueryStats,
    policy: QueryPolicy,
    session: &mut Session<H>,
    event: GlaExecutionEvent,
) -> (done: Result<(), Fault>)
    ensures
        final(session).metered() == old(session).metered(),
        obeys(
            old(session).log(),
            final(session).log(),
            event_plan(*old(stats), policy, event),
            source(),
            failure(done),
        ),
        *final(stats) == (if done is Ok {
            counted(*old(stats), event)
        } else {
            *old(stats)
        }),
        done is Ok ==> event_excess(*old(stats), policy, event) is None,
{
    let ghost start = session.log();
    let ghost excess = event_excess(*stats, policy, event);
    let paid = pay_query_unit(session);
    let ghost middle = session.log();
    if let Err(fault) = paid {
        proof {
            lemma_obeys_failed(
                start,
                middle,
                ask(query_unit()),
                verdict(excess),
                source(),
                Some(fault),
            );
        }
        return Err(fault);
    }
    let done = count_event(stats, policy, event);
    proof {
        lemma_obeys_nothing(middle, source());
        if excess is Some {
            lemma_obeys_stop(middle, source(), excess->0);
        }
        lemma_obeys_and(
            start,
            middle,
            middle,
            ask(query_unit()),
            verdict(excess),
            source(),
            failure(done),
        );
    }
    done
}

/// The number of binary digits of a count.
pub open spec fn bit_length(n: nat) -> nat
    decreases n,
{
    if n == 0 {
        0
    } else {
        1 + bit_length(n / 2)
    }
}

/// The price of one search in a sorted list: its binary digits, at least one.
pub open spec fn search_price(n: nat) -> nat {
    if n == 0 {
        1
    } else {
        bit_length(n)
    }
}

proof fn lemma_bit_length_bound(n: nat, bits: nat)
    requires
        n < vstd::arithmetic::power2::pow2(bits),
    ensures
        bit_length(n) <= bits,
    decreases bits,
{
    if n > 0 {
        if bits == 0 {
            vstd::arithmetic::power2::lemma2_to64();
        } else {
            vstd::arithmetic::power2::lemma_pow2_unfold(bits);
            lemma_bit_length_bound(n / 2, (bits - 1) as nat);
        }
    }
}

/// The price of one search. Two lists together hold less than this bound.
pub fn price_search(n: u128) -> (price: u64)
    requires
        n < 0x2_0000_0000_0000_0000,
    ensures
        price == search_price(n as nat),
        1 <= price <= 65,
{
    if n == 0 {
        return 1;
    }
    proof {
        vstd::arithmetic::power2::lemma2_to64();
        vstd::arithmetic::power2::lemma2_to64_rest();
        vstd::arithmetic::power2::lemma_pow2_unfold(65);
        lemma_bit_length_bound(n as nat, 65);
    }
    let mut price: u64 = 0;
    let mut rest: u128 = n;
    while rest > 0
        invariant
            price + bit_length(rest as nat) == bit_length(n as nat),
            bit_length(n as nat) <= 65,
        decreases rest,
    {
        price = price + 1;
        rest = rest / 2;
    }
    price
}

} // verus!
