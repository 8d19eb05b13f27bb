//! Standing views: the meter that every maintained view pays through.

use vstd::prelude::*;
use crate::errors::WriteTxnError;
use crate::idset::IdMap;
use crate::plan::{
    ask, failure, go, lemma_obeys_and, lemma_obeys_ask, lemma_obeys_failed, lemma_obeys_nothing,
    lemma_obeys_stop, stop, Plan,
};
use crate::script::{
    lemma_performs_failed, lemma_performs_nothing, lemma_performs_one, lemma_performs_then,
    lemma_prefix_concat, performs, Rule,
};
use crate::session::{Event, Host, Request, Session};
use crate::statement::{beyond, QueryPolicy};
use crate::weight::{fits, Weight};
use crate::zset::ZSet;

verus! {

/// Why a view could not be built or maintained.
#[derive(Clone, Copy, PartialEq, Eq, Structural, Debug)]
pub enum StandingQueryFailure {
    Interrupted,
    DependencyUnavailable,
    InvalidDelta,
    Arithmetic,
    WorkBudget,
    ScratchBudget,
    SnapshotBudget,
    ResultBudget,
}

/// What the latest maintenance of a view used.
#[derive(Clone, Copy, PartialEq, Eq, Structural, Debug)]
pub struct StandingQueryStats {
    pub delta_rows: u64,
    pub work_units: u64,
    pub scratch_entries: u64,
}

/// What one logical event of the set algebra uses up.
#[derive(Clone, Copy, PartialEq, Eq, Structural, Debug)]
pub enum ZSetEvent {
    Work,
    ScratchEntry,
}

/// One step of maintenance.
#[derive(Clone, Copy, PartialEq, Eq, Structural, Debug)]
pub enum Charge {
    /// Poll the query, then count units of one event.
    Units(ZSetEvent, u64),
    /// Poll the query.
    Poll,
    /// Refuse.
    Refuse(StandingQueryFailure),
}

/// The budget that more units would exceed.
pub open spec fn unit_excess(
    stats: StandingQueryStats,
    policy: QueryPolicy,
    event: ZSetEvent,
    units: u64,
) -> Option<StandingQueryFailure> {
    match event {
        ZSetEvent::Work => if stats.work_units + units > policy.max_work_units {
            Some(StandingQueryFailure::WorkBudget)
        } else {
            None
        },
        ZSetEvent::ScratchEntry => if stats.scratch_entries + units > policy.max_scratch_entries {
            Some(StandingQueryFailure::ScratchBudget)
        } else {
            None
        },
    }
}

/// The counters after more units.
pub open spec fn spent(
    stats: StandingQueryStats,
    event: ZSetEvent,
    units: u64,
) -> StandingQueryStats {
    match event {
        ZSetEvent::Work => StandingQueryStats {
            work_units: (stats.work_units + units) as u64,
            ..stats
        },
        ZSetEvent::ScratchEntry => StandingQueryStats {
            scratch_entries: (stats.scratch_entries + units) as u64,
            ..stats
        },
    }
}

/// A failure as a plan.
pub open spec fn fault_plan(fault: Option<StandingQueryFailure>) -> Plan<StandingQueryFailure> {
    match fault {
        Some(error) => stop(error),
        None => go(),
    }
}

/// How maintenance counts: cancellation first, then the view's own budgets.
pub open spec fn metered(policy: QueryPolicy) -> Rule<
    StandingQueryStats,
    Charge,
    StandingQueryFailure,
> {
    Rule {
        plan: |stats: StandingQueryStats, charge: Charge|
            match charge {
                Charge::Units(event, units) => ask::<StandingQueryFailure>(
                    seq![Request::PollQuery],
                ).and(fault_plan(unit_excess(stats, policy, event, units))),
                Charge::Poll => ask::<StandingQueryFailure>(seq![Request::PollQuery]),
                Charge::Refuse(error) => stop(error),
            },
        next: |stats: StandingQueryStats, charge: Charge|
            match charge {
                Charge::Units(event, units) => spent(stats, event, units),
                _ => stats,
            },
    }
}

/// Cancellation of maintenance.
pub open spec fn stopped() -> spec_fn(WriteTxnError) -> StandingQueryFailure {
    |error: WriteTxnError| StandingQueryFailure::Interrupted
}

/// The script was performed on the meter.
pub open spec fn meters(
    before: Meter,
    script: Seq<Charge>,
    after: Meter,
    log: Seq<Event>,
    log_after: Seq<Event>,
    failed: Option<StandingQueryFailure>,
) -> bool {
    &&& after.policy == before.policy
    &&& performs(
        metered(before.policy),
        stopped(),
        before.stats,
        script,
        after.stats,
        log,
        log_after,
        failed,
    )
}

/// One view's budgets and counters.
#[derive(Clone, Copy, PartialEq, Eq, Structural, Debug)]
pub struct Meter {
    pub policy: QueryPolicy,
    pub stats: StandingQueryStats,
}

impl Meter {
    pub fn new(policy: QueryPolicy) -> (meter: Meter)
        ensures
            meter.policy == policy,
            meter.stats == (StandingQueryStats { delta_rows: 0, work_units: 0, scratch_entries: 0 }),
    {
        Meter {
            policy,
            stats: StandingQueryStats { delta_rows: 0, work_units: 0, scratch_entries: 0 },
        }
    }

    /// Poll the query, then count units of one event.
    pub fn units<H: Host>(&mut self, event: ZSetEvent, units: u64, session: &mut Session<H>) -> (done:
        Result<(), StandingQueryFailure>)
        ensures
            final(session).metered() == old(session).metered(),
            meters(
                *old(self),
                seq![Charge::Units(event, units)],
                *final(self),
                old(session).log(),
                final(session).log(),
                failure(done),
            ),
    {
        let ghost start = session.log();
        let ghost before = *self;
        let ghost excess = unit_excess(before.stats, before.policy, event, units);
        let ghost charge = Charge::Units(event, units);
        let polled = session.poll_query();
        let ghost middle = session.log();
        proof {
            lemma_obeys_ask(start, middle, seq![Request::PollQuery], stopped());
        }
        if polled.is_err() {
            proof {
                lemma_obeys_failed(
                    start,
                    middle,
                    ask(seq![Request::PollQuery]),
                    fault_plan(excess),
                    stopped(),
                    Some(StandingQueryFailure::Interrupted),
                );
                lemma_performs_one(
                    metered(before.policy),
                    stopped(),
                    before.stats,
                    charge,
                    self.stats,
                    start,
                    middle,
                    Some(StandingQueryFailure::Interrupted),
                );
            }
            return Err(StandingQueryFailure::Interrupted);
        }
        let done: Result<(), StandingQueryFailure> = match event {
            ZSetEvent::Work => if units > self.policy.max_work_units || self.stats.work_units
                > self.policy.max_work_units - units {
                Err(StandingQueryFailure::WorkBudget)
            } else {
                self.stats.work_units = self.stats.work_units + units;
                Ok(())
            },
            ZSetEvent::ScratchEntry => if units > self.policy.max_scratch_entries
                || self.stats.scratch_entries > self.policy.max_scratch_entries - units {
                Err(StandingQueryFailure::ScratchBudget)
            } else {
                self.stats.scratch_entries = self.stats.scratch_entries + units;
                Ok(())
            },
        };
        proof {
            lemma_obeys_nothing(middle, stopped());
            if excess is Some {
                lemma_obeys_stop(middle, stopped(), excess->0);
            }
            lemma_obeys_and(
                start,
                middle,
                middle,
                ask(seq![Request::PollQuery]),
                fault_plan(excess),
                stopped(),
                failure(done),
            );
            lemma_performs_one(
                metered(before.policy),
                stopped(),
                before.stats,
                charge,
                self.stats,
                start,
                middle,
                failure(done),
            );
        }
        done
    }

    /// Poll the query, then count one event.
    pub fn charge<H: Host>(&mut self, event: ZSetEvent, session: &mut Session<H>) -> (done: Result<
        (),
        StandingQueryFailure,
    >)
        ensures
            final(session).metered() == old(session).metered(),
            meters(
                *old(self),
                seq![Charge::Units(event, 1)],
                *final(self),
                old(session).log(),
                final(session).log(),
                failure(done),
            ),
    {
        self.units(event, 1, session)
    }

    /// Poll the query.
    pub fn checkpoint<H: Host>(&self, session: &mut Session<H>) -> (done: Result<
        (),
        StandingQueryFailure,
    >)
        ensures
            final(session).metered() == old(session).metered(),
            meters(
                *self,
                seq![Charge::Poll],
                *self,
                old(session).log(),
                final(session).log(),
                failure(done),
            ),
    {
        let ghost start = session.log();
        let done = match session.poll_query() {
            Ok(()) => Ok(()),
            Err(_) => Err(StandingQueryFailure::Interrupted),
        };
        proof {
            lemma_obeys_ask(start, session.log(), seq![Request::PollQuery], stopped());
            lemma_performs_one(
                metered(self.policy),
                stopped(),
                self.stats,
                Charge::Poll,
                self.stats,
                start,
                session.log(),
                failure(done),
            );
        }
        done
    }

    /// Pay for a list of events.
    pub fn charge_all<H: Host>(&mut self, events: &Vec<ZSetEvent>, session: &mut Session<H>) -> (done:
        Result<(), StandingQueryFailure>)
        ensures
            final(session).metered() == old(session).metered(),
            meters(
                *old(self),
                event_script(events@),
                *final(self),
                old(session).log(),
                final(session).log(),
                failure(done),
            ),
    {
        let ghost start = session.log();
        let ghost before = *self;
        let ghost full = event_script(events@);
        let mut i: usize = 0;
        proof {
            lemma_meters_nothing(before, start);
            assert(event_script(events@).take(0) =~= Seq::<Charge>::empty());
        }
        while i < events.len()
            invariant
                i <= events.len(),
                full == event_script(events@),
                session.metered() == old(session).metered(),
                start == old(session).log(),
                before == *old(self),
                meters(before, full.take(i as int), *self, start, session.log(), None),
            decreases events.len() - i,
        {
            let ghost middle = *self;
            let ghost middle_log = session.log();
            let paid = self.charge(events[i], session);
            proof {
                assert(full.take(i as int) + seq![Charge::Units(events@[i as int], 1)] =~= full.take(
                    i + 1,
                ));
                lemma_meters_then(
                    before,
                    full.take(i as int),
                    middle,
                    seq![Charge::Units(events@[i as int], 1)],
                    *self,
                    start,
                    middle_log,
                    session.log(),
                    failure(paid),
                );
            }
            if let Err(error) = paid {
                proof {
                    assert(full.take(i + 1).is_prefix_of(full)) by {
                        assert(full.take(i + 1) + full.skip(i + 1) =~= full);
                        lemma_prefix_concat(full.take(i + 1), full.skip(i + 1));
                    }
                    lemma_meters_failed(
                        before,
                        full.take(i + 1),
                        full,
                        *self,
                        start,
                        session.log(),
                        Some(error),
                    );
                }
                return Err(error);
            }
            i += 1;
        }
        proof {
            assert(full.take(i as int) =~= full);
        }
        Ok(())
    }
}

pub proof fn lemma_meters_nothing(meter: Meter, log: Seq<Event>)
    ensures
        meters(meter, Seq::empty(), meter, log, log, None),
{
    lemma_performs_nothing(metered(meter.policy), stopped(), meter.stats, log);
}

/// A refusal of the view's own.
pub proof fn lemma_meters_refusal(meter: Meter, log: Seq<Event>, error: StandingQueryFailure)
    ensures
        meters(meter, seq![Charge::Refuse(error)], meter, log, log, Some(error)),
{
    lemma_obeys_stop(log, stopped(), error);
    lemma_performs_one(
        metered(meter.policy),
        stopped(),
        meter.stats,
        Charge::Refuse(error),
        meter.stats,
        log,
        log,
        Some(error),
    );
}

/// Two parts of maintenance, one after the other.
pub proof fn lemma_meters_then(
    before: Meter,
    head: Seq<Charge>,
    middle: Meter,
    tail: Seq<Charge>,
    after: Meter,
    log: Seq<Event>,
    log_middle: Seq<Event>,
    log_after: Seq<Event>,
    failed: Option<StandingQueryFailure>,
)
    requires
        meters(before, head, middle, log, log_middle, None),
        meters(middle, tail, after, log_middle, log_after, failed),
    ensures
        meters(before, head + tail, after, log, log_after, failed),
{
    lemma_performs_then(
        metered(before.policy),
        stopped(),
        before.stats,
        head,
        middle.stats,
        tail,
        after.stats,
        log,
        log_middle,
        log_after,
        failed,
    );
}

/// Maintenance that failed has performed any continuation of its script.
pub proof fn lemma_meters_failed(
    before: Meter,
    script: Seq<Charge>,
    full: Seq<Charge>,
    after: Meter,
    log: Seq<Event>,
    log_after: Seq<Event>,
    failed: Option<StandingQueryFailure>,
)
    requires
        meters(before, script, after, log, log_after, failed),
        failed is Some,
        script.is_prefix_of(full),
    ensures
        meters(before, full, after, log, log_after, failed),
{
    lemma_performs_failed(
        metered(before.policy),
        stopped(),
        before.stats,
        script,
        full,
        after.stats,
        log,
        log_after,
        failed,
    );
}

/// A refusal of the view's own, or no step at all.
pub open spec fn unless_fault(fault: Option<StandingQueryFailure>) -> Seq<Charge> {
    match fault {
        Some(error) => seq![Charge::Refuse(error)],
        None => Seq::empty(),
    }
}

/// Nothing is asked where a script only refuses, or does not.
pub proof fn lemma_unless_fault(meter: Meter, log: Seq<Event>, fault: Option<StandingQueryFailure>)
    ensures
        meters(meter, unless_fault(fault), meter, log, log, fault),
{
    match fault {
        Some(error) => lemma_meters_refusal(meter, log, error),
        None => lemma_meters_nothing(meter, log),
    }
}

/// One unit for each event.
pub open spec fn event_script(events: Seq<ZSetEvent>) -> Seq<Charge> {
    Seq::new(events.len(), |i: int| Charge::Units(events[i], 1))
}

/// One unit of work.
pub open spec fn work_unit() -> Seq<Charge> {
    seq![Charge::Units(ZSetEvent::Work, 1)]
}

/// The payload of one value: a unit of work, then scratch for the value and its
/// payload.
pub open spec fn value_script(payload: u64) -> Seq<Charge> {
    work_unit() + if payload == u64::MAX {
        seq![Charge::Refuse(StandingQueryFailure::ScratchBudget)]
    } else {
        seq![Charge::Units(ZSetEvent::ScratchEntry, (payload + 1) as u64)]
    }
}

/// The payloads of the first `n` values.
pub open spec fn values_script(payloads: Seq<u64>, n: int) -> Seq<Charge>
    decreases n,
{
    if n <= 0 {
        Seq::empty()
    } else {
        values_script(payloads, n - 1) + value_script(payloads[n - 1])
    }
}

/// The room for one copy of a row.
pub open spec fn row_script(payloads: Seq<u64>) -> Seq<Charge> {
    seq![Charge::Units(ZSetEvent::ScratchEntry, 1)] + values_script(
        payloads,
        payloads.len() as int,
    )
}

/// The payload sizes of the values of each row, by the row's identity.
pub type Shapes = IdMap<Vec<u64>>;

/// The payload sizes of one row. A row without an entry has no values.
pub open spec fn shape_of(shapes: Shapes, row: u128) -> Seq<u64> {
    if shapes@.dom().contains(row) {
        shapes@[row]@
    } else {
        Seq::empty()
    }
}

proof fn lemma_values_prefix(payloads: Seq<u64>, n: int, m: int)
    requires
        0 <= n <= m,
    ensures
        values_script(payloads, n).is_prefix_of(values_script(payloads, m)),
    decreases m - n,
{
    if n < m {
        lemma_values_prefix(payloads, n, m - 1);
        lemma_prefix_concat(
            values_script(payloads, m - 1),
            value_script(payloads[m - 1]),
        );
        crate::script::lemma_prefix_transitive(
            values_script(payloads, n),
            values_script(payloads, m - 1),
            values_script(payloads, m),
        );
    } else {
        let script = values_script(payloads, n);
        assert(script =~= script.subrange(0, script.len() as int));
    }
}

/// Room for one value.
fn reserve_value<H: Host>(payload: u64, meter: &mut Meter, session: &mut Session<H>) -> (done: Result<
    (),
    StandingQueryFailure,
>)
    ensures
        final(session).metered() == old(session).metered(),
        meters(
            *old(meter),
            value_script(payload),
            *final(meter),
            old(session).log(),
            final(session).log(),
            failure(done),
        ),
{
    let ghost start = session.log();
    let ghost before = *meter;
    let paid = meter.charge(ZSetEvent::Work, session);
    let ghost middle = *meter;
    let ghost log1 = session.log();
    if let Err(error) = paid {
        proof {
            lemma_prefix_concat(
                work_unit(),
                if payload == u64::MAX {
                    seq![Charge::Refuse(StandingQueryFailure::ScratchBudget)]
                } else {
                    seq![Charge::Units(ZSetEvent::ScratchEntry, (payload + 1) as u64)]
                },
            );
            lemma_meters_failed(
                before,
                work_unit(),
                value_script(payload),
                middle,
                start,
                log1,
                Some(error),
            );
        }
        return Err(error);
    }
    if payload == u64::MAX {
        proof {
            lemma_meters_refusal(middle, log1, StandingQueryFailure::ScratchBudget);
            lemma_meters_then(
                before,
                work_unit(),
                middle,
                seq![Charge::Refuse(StandingQueryFailure::ScratchBudget)],
                middle,
                start,
                log1,
                log1,
                Some(StandingQueryFailure::ScratchBudget),
            );
        }
        return Err(StandingQueryFailure::ScratchBudget);
    }
    let done = meter.units(ZSetEvent::ScratchEntry, payload + 1, session);
    proof {
        lemma_meters_then(
            before,
            work_unit(),
            middle,
            seq![Charge::Units(ZSetEvent::ScratchEntry, (payload + 1) as u64)],
            *meter,
            start,
            log1,
            session.log(),
            failure(done),
        );
    }
    done
}

/// Room for one copy of a row, before the algebra may copy it.
pub fn reserve_row<H: Host>(
    shapes: &Shapes,
    row: u128,
    meter: &mut Meter,
    session: &mut Session<H>,
) -> (done: Result<(), StandingQueryFailure>)
    requires
        shapes.wf(),
    ensures
        final(session).metered() == old(session).metered(),
        meters(
            *old(meter),
            row_script(shape_of(*shapes, row)),
            *final(meter),
            old(session).log(),
            final(session).log(),
            failure(done),
        ),
{
    let ghost start = session.log();
    let ghost before = *meter;
    let ghost payloads = shape_of(*shapes, row);
    let ghost lead = seq![Charge::Units(ZSetEvent::ScratchEntry, 1)];
    let ghost values = values_script(payloads, payloads.len() as int);
    let ghost full = row_script(payloads);
    let paid = meter.charge(ZSetEvent::ScratchEntry, session);
    let ghost middle = *meter;
    let ghost log1 = session.log();
    if let Err(error) = paid {
        proof {
            lemma_prefix_concat(lead, values);
            lemma_meters_failed(before, lead, full, middle, start, log1, Some(error));
        }
        return Err(error);
    }
    proof {
        lemma_meters_nothing(middle, log1);
    }
    if let Some(shape) = shapes.get(row) {
        let mut i: usize = 0;
        while i < shape.len()
            invariant
                i <= shape.len(),
                shape@ == payloads,
                payloads == shape_of(*shapes, row),
                lead == seq![Charge::Units(ZSetEvent::ScratchEntry, 1)],
                values == values_script(payloads, payloads.len() as int),
                full == lead + values,
                session.metered() == old(session).metered(),
                start == old(session).log(),
                before == *old(meter),
                meters(before, lead, middle, start, log1, None),
                meters(
                    middle,
                    values_script(payloads, i as int),
                    *meter,
                    log1,
                    session.log(),
                    None,
                ),
            decreases shape.len() - i,
        {
            let ghost here = *meter;
            let ghost here_log = session.log();
            let paid = reserve_value(shape[i], meter, session);
            proof {
                lemma_meters_then(
                    middle,
                    values_script(payloads, i as int),
                    here,
                    value_script(payloads[i as int]),
                    *meter,
                    log1,
                    here_log,
                    session.log(),
                    failure(paid),
                );
                assert(values_script(payloads, i + 1) == values_script(payloads, i as int)
                    + value_script(payloads[i as int]));
            }
            if let Err(error) = paid {
                proof {
                    lemma_values_prefix(payloads, i + 1, payloads.len() as int);
                    lemma_meters_failed(
                        middle,
                        values_script(payloads, i + 1),
                        values,
                        *meter,
                        log1,
                        session.log(),
                        Some(error),
                    );
                    lemma_meters_then(
                        before, lead, middle, values, *meter, start, log1, session.log(),
                        Some(error),
                    );
                }
                return Err(error);
            }
            i += 1;
        }
    }
    proof {
        lemma_meters_then(before, lead, middle, values, *meter, start, log1, session.log(), None);
    }
    Ok(())
}

/// What each row of a change pays: work first where it does, then room for copies.
#[derive(Clone, Copy, PartialEq, Eq, Structural, Debug)]
pub struct Reserve {
    pub work: bool,
    pub twice: bool,
}

/// What one row pays.
pub open spec fn reserve_script(shapes: Shapes, row: u128, reserve: Reserve) -> Seq<Charge> {
    let copy = row_script(shape_of(shapes, row));
    (if reserve.work {
        work_unit()
    } else {
        Seq::empty()
    }) + copy + (if reserve.twice {
        copy
    } else {
        Seq::empty()
    })
}

/// What the first `n` rows of a change pay.
pub open spec fn rows_script(
    shapes: Shapes,
    entries: Seq<(u128, Weight)>,
    n: int,
    reserve: Reserve,
) -> Seq<Charge>
    decreases n,
{
    if n <= 0 {
        Seq::empty()
    } else {
        rows_script(shapes, entries, n - 1, reserve) + reserve_script(
            shapes,
            entries[n - 1].0,
            reserve,
        )
    }
}

/// What all rows of a change pay.
pub open spec fn change_script(shapes: Shapes, change: ZSet<u128>, reserve: Reserve) -> Seq<
    Charge,
> {
    rows_script(shapes, change.entries(), change.entries().len() as int, reserve)
}

proof fn lemma_rows_prefix(
    shapes: Shapes,
    entries: Seq<(u128, Weight)>,
    n: int,
    m: int,
    reserve: Reserve,
)
    requires
        0 <= n <= m,
    ensures
        rows_script(shapes, entries, n, reserve).is_prefix_of(
            rows_script(shapes, entries, m, reserve),
        ),
    decreases m - n,
{
    if n < m {
        lemma_rows_prefix(shapes, entries, n, m - 1, reserve);
        lemma_prefix_concat(
            rows_script(shapes, entries, m - 1, reserve),
            reserve_script(shapes, entries[m - 1].0, reserve),
        );
        crate::script::lemma_prefix_transitive(
            rows_script(shapes, entries, n, reserve),
            rows_script(shapes, entries, m - 1, reserve),
            rows_script(shapes, entries, m, reserve),
        );
    } else {
        let script = rows_script(shapes, entries, n, reserve);
        assert(script =~= script.subrange(0, script.len() as int));
    }
}

fn reserve_copies<H: Host>(
    shapes: &Shapes,
    row: u128,
    reserve: Reserve,
    meter: &mut Meter,
    session: &mut Session<H>,
) -> (done: Result<(), StandingQueryFailure>)
    requires
        shapes.wf(),
    ensures
        final(session).metered() == old(session).metered(),
        meters(
            *old(meter),
            reserve_script(*shapes, row, reserve),
            *final(meter),
            old(session).log(),
            final(session).log(),
            failure(done),
        ),
{
    let ghost start = session.log();
    let ghost before = *meter;
    let ghost copy = row_script(shape_of(*shapes, row));
    let ghost lead = if reserve.work {
        work_unit()
    } else {
        Seq::empty()
    };
    let ghost last = if reserve.twice {
        copy
    } else {
        Seq::empty()
    };
    let ghost full = reserve_script(*shapes, row, reserve);
    proof {
        lemma_prefix_concat(lead, copy);
        lemma_prefix_concat(lead + copy, last);
        crate::script::lemma_prefix_transitive(lead, lead + copy, full);
        lemma_meters_nothing(before, start);
    }
    if reserve.work {
        let paid = meter.charge(ZSetEvent::Work, session);
        if let Err(error) = paid {
            proof {
                lemma_meters_failed(
                    before, lead, full, *meter, start, session.log(), Some(error),
                );
            }
            return Err(error);
        }
    }
    let ghost middle = *meter;
    let ghost log1 = session.log();
    let paid = reserve_row(shapes, row, meter, session);
    let ghost after = *meter;
    let ghost log2 = session.log();
    proof {
        lemma_meters_then(before, lead, middle, copy, after, start, log1, log2, failure(paid));
    }
    if let Err(error) = paid {
        proof {
            lemma_meters_failed(before, lead + copy, full, after, start, log2, Some(error));
        }
        return Err(error);
    }
    if !reserve.twice {
        proof {
            assert(lead + copy + last =~= lead + copy);
        }
        return Ok(());
    }
    let paid = reserve_row(shapes, row, meter, session);
    proof {
        lemma_meters_then(
            before, lead + copy, after, copy, *meter, start, log2, session.log(), failure(paid),
        );
    }
    paid
}

/// Room for the rows of a change.
pub fn reserve_rows<H: Host>(
    shapes: &Shapes,
    change: &ZSet<u128>,
    reserve: Reserve,
    meter: &mut Meter,
    session: &mut Session<H>,
) -> (done: Result<(), StandingQueryFailure>)
    requires
        shapes.wf(),
    ensures
        final(session).metered() == old(session).metered(),
        meters(
            *old(meter),
            change_script(*shapes, *change, reserve),
            *final(meter),
            old(session).log(),
            final(session).log(),
            failure(done),
        ),
{
    let ghost start = session.log();
    let ghost before = *meter;
    let ghost entries = change.entries();
    let ghost total = change.entries().len() as int;
    let mut i: usize = 0;
    proof {
        lemma_meters_nothing(before, start);
    }
    while i < change.len()
        invariant
            i <= total,
            shapes.wf(),
            entries == change.entries(),
            total == entries.len(),
            session.metered() == old(session).metered(),
            start == old(session).log(),
            before == *old(meter),
            meters(
                before,
                rows_script(*shapes, entries, i as int, reserve),
                *meter,
                start,
                session.log(),
                None,
            ),
        decreases total - i,
    {
        let ghost here = *meter;
        let ghost here_log = session.log();
        let (row, _) = change.entry(i);
        let paid = reserve_copies(shapes, row, reserve, meter, session);
        proof {
            lemma_meters_then(
                before,
                rows_script(*shapes, entries, i as int, reserve),
                here,
                reserve_script(*shapes, row, reserve),
                *meter,
                start,
                here_log,
                session.log(),
                failure(paid),
            );
            assert(rows_script(*shapes, entries, i + 1, reserve) == rows_script(
                *shapes,
                entries,
                i as int,
                reserve,
            ) + reserve_script(*shapes, row, reserve));
        }
        if let Err(error) = paid {
            proof {
                lemma_rows_prefix(*shapes, entries, i + 1, total, reserve);
                lemma_meters_failed(
                    before,
                    rows_script(*shapes, entries, i + 1, reserve),
                    change_script(*shapes, *change, reserve),
                    *meter,
                    start,
                    session.log(),
                    Some(error),
                );
            }
            return Err(error);
        }
        i += 1;
    }
    Ok(())
}

/// The first `n` parts of a script.
pub open spec fn chain_upto(parts: Seq<Seq<Charge>>, n: int) -> Seq<Charge>
    decreases n,
{
    if n <= 0 {
        Seq::empty()
    } else {
        chain_upto(parts, n - 1) + parts[n - 1]
    }
}

/// All parts of a script.
pub open spec fn chain(parts: Seq<Seq<Charge>>) -> Seq<Charge> {
    chain_upto(parts, parts.len() as int)
}

proof fn lemma_chain_prefix(parts: Seq<Seq<Charge>>, n: int, m: int)
    requires
        0 <= n <= m,
    ensures
        chain_upto(parts, n).is_prefix_of(chain_upto(parts, m)),
    decreases m - n,
{
    if n < m {
        lemma_chain_prefix(parts, n, m - 1);
        lemma_prefix_concat(chain_upto(parts, m - 1), parts[m - 1]);
        crate::script::lemma_prefix_transitive(
            chain_upto(parts, n),
            chain_upto(parts, m - 1),
            chain_upto(parts, m),
        );
    } else {
        let script = chain_upto(parts, n);
        assert(script =~= script.subrange(0, script.len() as int));
    }
}

/// One more part was performed.
pub proof fn lemma_part(
    before: Meter,
    parts: Seq<Seq<Charge>>,
    n: int,
    middle: Meter,
    after: Meter,
    log: Seq<Event>,
    log_middle: Seq<Event>,
    log_after: Seq<Event>,
    failed: Option<StandingQueryFailure>,
)
    requires
        0 <= n < parts.len(),
        meters(before, chain_upto(parts, n), middle, log, log_middle, None),
        meters(middle, parts[n], after, log_middle, log_after, failed),
    ensures
        meters(before, chain_upto(parts, n + 1), after, log, log_after, failed),
        failed is Some || n + 1 == parts.len() ==> meters(
            before,
            chain(parts),
            after,
            log,
            log_after,
            failed,
        ),
{
    lemma_meters_then(
        before,
        chain_upto(parts, n),
        middle,
        parts[n],
        after,
        log,
        log_middle,
        log_after,
        failed,
    );
    if failed is Some {
        lemma_chain_prefix(parts, n + 1, parts.len() as int);
        lemma_meters_failed(
            before,
            chain_upto(parts, n + 1),
            chain(parts),
            after,
            log,
            log_after,
            failed,
        );
    }
}

/// A unit of work for each of `n` rows.
pub open spec fn works(n: nat) -> Seq<Charge> {
    Seq::new(n, |i: int| Charge::Units(ZSetEvent::Work, 1))
}

/// Pay a unit of work for each of `n` rows.
pub fn charge_rows<H: Host>(n: usize, meter: &mut Meter, session: &mut Session<H>) -> (done: Result<
    (),
    StandingQueryFailure,
>)
    ensures
        final(session).metered() == old(session).metered(),
        meters(
            *old(meter),
            works(n as nat),
            *final(meter),
            old(session).log(),
            final(session).log(),
            failure(done),
        ),
{
    let ghost start = session.log();
    let ghost before = *meter;
    let mut i: usize = 0;
    proof {
        lemma_meters_nothing(before, start);
        assert(works(0) =~= Seq::<Charge>::empty());
    }
    while i < n
        invariant
            i <= n,
            session.metered() == old(session).metered(),
            start == old(session).log(),
            before == *old(meter),
            meters(before, works(i as nat), *meter, start, session.log(), None),
        decreases n - i,
    {
        let ghost here = *meter;
        let ghost here_log = session.log();
        let paid = meter.charge(ZSetEvent::Work, session);
        proof {
            assert(works(i as nat) + work_unit() =~= works((i + 1) as nat));
            lemma_meters_then(
                before,
                works(i as nat),
                here,
                work_unit(),
                *meter,
                start,
                here_log,
                session.log(),
                failure(paid),
            );
        }
        if let Err(error) = paid {
            proof {
                assert(works((i + 1) as nat) =~= works(n as nat).subrange(0, i + 1));
                lemma_meters_failed(
                    before,
                    works((i + 1) as nat),
                    works(n as nat),
                    *meter,
                    start,
                    session.log(),
                    Some(error),
                );
            }
            return Err(error);
        }
        i += 1;
    }
    Ok(())
}

/// The refusal of a final occurrence count.
pub open spec fn bound_fault(total: int, policy: QueryPolicy) -> Option<StandingQueryFailure> {
    if !fits(total) {
        Some(StandingQueryFailure::Arithmetic)
    } else if total < 0 {
        Some(StandingQueryFailure::InvalidDelta)
    } else if beyond(total, policy.max_result_rows) {
        Some(StandingQueryFailure::ResultBudget)
    } else {
        None
    }
}

/// Bound the final occurrence count, not the distinct keys or a prefix.
pub fn result_bound(total: Weight, policy: QueryPolicy) -> (done: Result<
    (),
    StandingQueryFailure,
>)
    requires
        fits(total@),
    ensures
        failure(done) == bound_fault(total@, policy),
{
    if total.is_negative() {
        return Err(StandingQueryFailure::InvalidDelta);
    }
    if total.is_beyond(policy.max_result_rows) {
        return Err(StandingQueryFailure::ResultBudget);
    }
    Ok(())
}

} // verus!
