//! One commit's step of a dependent view: it consumes what its parents accepted
//! for that very commit, or changes nothing.

use vstd::prelude::*;
use crate::ids::CommitSeq;
use crate::kernel::{KernelRecord, KernelStep, ViewKernel};
use crate::plan::failure;
use crate::script::{script_plan, state_after};
use crate::session::{lemma_followed_compose, refused, Event, Host, Session};
use crate::standing::{
    chain, lemma_meters_nothing, lemma_part, lemma_unless_fault, metered, meters, unless_fault,
    work_unit, Charge, Meter, Shapes, StandingQueryFailure, StandingQueryStats, ZSetEvent,
};
use crate::standing_build::registry_wf;
use crate::standing_registry::{
    delta, input_at, operand_at, operand_fault, rows, source_fault, StandingQuery,
};
use crate::standing_sets::{
    combined, input_parts, output_parts, prepares_set, KernelEvents, SetUpdate, SetView,
};
use crate::standing_window::{applies_page, RowWindowPage, WindowView};
use crate::weight::fits;
use crate::zset::{lemma_determined, weight_in, ZSet};

verus! {

/// The refusal of a commit that does not follow the view's frontier.
pub open spec fn successor_fault(frontier: CommitSeq, at: CommitSeq) -> Option<
    StandingQueryFailure,
> {
    if frontier.0 + 1 == at.0 {
        None
    } else {
        Some(StandingQueryFailure::InvalidDelta)
    }
}

/// The refusal of a parent that has a baseline but no change.
pub open spec fn change_fault(query: StandingQuery) -> Option<StandingQueryFailure> {
    if query.latest() is Some {
        None
    } else {
        Some(StandingQueryFailure::DependencyUnavailable)
    }
}

/// The refusal of more changed rows than a counter holds.
pub open spec fn count_fault(changed: int) -> Option<StandingQueryFailure> {
    if changed <= u64::MAX {
        None
    } else {
        Some(StandingQueryFailure::WorkBudget)
    }
}

/// What a set view's step pays and decides before it prepares anything.
pub open spec fn set_step_parts(
    view: SetView,
    sources: Seq<StandingQuery>,
    before: int,
    at: CommitSeq,
) -> Seq<Seq<Charge>> {
    let left = sources[view.left_input as int];
    let right = sources[view.right_input as int];
    seq![
        work_unit(),
        unless_fault(successor_fault(view.frontier, at)),
        unless_fault(operand_fault(sources, before, view.left_input as int, at)),
        work_unit(),
        unless_fault(operand_fault(sources, before, view.right_input as int, at)),
        unless_fault(change_fault(left)),
        unless_fault(change_fault(right)),
        unless_fault(
            count_fault(
                (left.latest()->0.entries().len() + right.latest()->0.entries().len()) as int,
            ),
        ),
    ]
}

/// The meter with the number of changed input rows noted.
pub open spec fn noted(meter: Meter, changed: int) -> Meter {
    Meter {
        stats: StandingQueryStats { delta_rows: changed as u64, ..meter.stats },
        ..meter
    }
}

/// How a set view takes one commit in. Whatever refuses, the view is unchanged.
pub open spec fn maintains_set(
    view: SetView,
    after: SetView,
    sources: Seq<StandingQuery>,
    before: int,
    at: CommitSeq,
    shapes: Shapes,
    kernel: KernelEvents,
    meter: Meter,
    meter_after: Meter,
    log: Seq<Event>,
    log_after: Seq<Event>,
    done: Result<(), StandingQueryFailure>,
) -> bool {
    let gate = chain(set_step_parts(view, sources, before, at));
    let left = sources[view.left_input as int].latest()->0;
    let right = sources[view.right_input as int].latest()->0;
    let changed = (left.entries().len() + right.entries().len()) as int;
    ||| done is Err && after == view && meters(
        meter,
        gate,
        meter_after,
        log,
        log_after,
        failure(done),
    )
    ||| exists|
        admitted: Meter,
        middle: Seq<Event>,
        prepared: Result<SetUpdate, StandingQueryFailure>,
    |
        {
            &&& #[trigger] meters(meter, gate, admitted, log, middle, None)
            &&& #[trigger] prepares_set(
                view,
                left,
                right,
                shapes,
                kernel,
                noted(admitted, changed),
                meter_after,
                middle,
                log_after,
                prepared,
            )
            &&& match prepared {
                Ok(update) => done is Ok && view.updated(left, right, update, after),
                Err(error) => after == view && done == Err::<(), StandingQueryFailure>(error),
            }
        }
}

impl SetView {
    /// Take one commit in: both complete input changes, or neither.
    pub fn maintain<H: Host>(
        &mut self,
        at: CommitSeq,
        sources: &Vec<StandingQuery>,
        before: usize,
        shapes: &Shapes,
        kernel: &KernelEvents,
        meter: &mut Meter,
        session: &mut Session<H>,
    ) -> (done: Result<(), StandingQueryFailure>)
        requires
            old(self).wf(),
            registry_wf(sources@),
            shapes.wf(),
        ensures
            final(self).wf(),
            final(session).metered() == old(session).metered(),
            maintains_set(
                *old(self),
                *final(self),
                sources@,
                before as int,
                at,
                *shapes,
                *kernel,
                *old(meter),
                *final(meter),
                old(session).log(),
                final(session).log(),
                done,
            ),
    {
        let ghost start = session.log();
        let ghost start_meter = *meter;
        let ghost view = *self;
        let ghost parts = set_step_parts(view, sources@, before as int, at);
        proof {
            lemma_meters_nothing(start_meter, start);
        }
        let paid = meter.charge(ZSetEvent::Work, session);
        let ghost meter1 = *meter;
        let ghost log1 = session.log();
        proof {
            lemma_part(
                start_meter, parts, 0, start_meter, meter1, start, start, log1, failure(paid),
            );
        }
        if let Err(error) = paid {
            return Err(error);
        }
        proof {
            let fault = successor_fault(view.frontier, at);
            lemma_unless_fault(meter1, log1, fault);
            lemma_part(start_meter, parts, 1, meter1, meter1, start, log1, log1, fault);
        }
        if self.frontier.0 == u64::MAX || self.frontier.0 + 1 != at.0 {
            return Err(StandingQueryFailure::InvalidDelta);
        }
        let found = operand_at(sources, before, self.left_input, at);
        proof {
            lemma_unless_fault(meter1, log1, failure(found));
            lemma_part(start_meter, parts, 2, meter1, meter1, start, log1, log1, failure(found));
        }
        let left = match found {
            Ok(left) => left,
            Err(error) => return Err(error),
        };
        let paid = meter.charge(ZSetEvent::Work, session);
        let ghost meter2 = *meter;
        let ghost log2 = session.log();
        proof {
            lemma_part(start_meter, parts, 3, meter1, meter2, start, log1, log2, failure(paid));
        }
        if let Err(error) = paid {
            return Err(error);
        }
        let found = operand_at(sources, before, self.right_input, at);
        proof {
            lemma_unless_fault(meter2, log2, failure(found));
            lemma_part(start_meter, parts, 4, meter2, meter2, start, log2, log2, failure(found));
        }
        let right = match found {
            Ok(right) => right,
            Err(error) => return Err(error),
        };
        proof {
            let fault = change_fault(*left);
            lemma_unless_fault(meter2, log2, fault);
            lemma_part(start_meter, parts, 5, meter2, meter2, start, log2, log2, fault);
        }
        let left = match delta(left) {
            Some(change) => change,
            None => return Err(StandingQueryFailure::DependencyUnavailable),
        };
        proof {
            let fault = change_fault(*right);
            lemma_unless_fault(meter2, log2, fault);
            lemma_part(start_meter, parts, 6, meter2, meter2, start, log2, log2, fault);
        }
        let right = match delta(right) {
            Some(change) => change,
            None => return Err(StandingQueryFailure::DependencyUnavailable),
        };
        let ghost changed = (left.entries().len() + right.entries().len()) as int;
        proof {
            let fault = count_fault(changed);
            lemma_unless_fault(meter2, log2, fault);
            lemma_part(start_meter, parts, 7, meter2, meter2, start, log2, log2, fault);
        }
        match (left.len() as u64).checked_add(right.len() as u64) {
            Some(count) => {
                meter.stats.delta_rows = count;
            },
            None => return Err(StandingQueryFailure::WorkBudget),
        }
        assert(*meter == noted(meter2, changed));
        let prepared = self.prepare(left, right, shapes, kernel, meter, session);
        assert(meters(start_meter, chain(parts), meter2, start, log2, None));
        assert(prepares_set(
            view,
            *left,
            *right,
            *shapes,
            *kernel,
            noted(meter2, changed),
            *meter,
            log2,
            session.log(),
            prepared,
        ));
        match prepared {
            Err(error) => Err(error),
            Ok(update) => {
                self.commit(left, right, update);
                Ok(())
            },
        }
    }
}

/// What a window's step pays and decides before it takes a page in.
pub open spec fn window_step_parts(
    view: WindowView,
    sources: Seq<StandingQuery>,
    before: int,
    at: CommitSeq,
) -> Seq<Seq<Charge>> {
    seq![
        work_unit(),
        unless_fault(successor_fault(view.frontier, at)),
        unless_fault(source_fault(sources, before, view.input as int, at)),
        unless_fault(change_fault(sources[view.input as int])),
    ]
}

/// How a window takes one commit in. Whatever refuses, the view is unchanged. The
/// kernel is asked once, for the page over the parent's rows, and only of a step
/// that was admitted.
pub open spec fn maintains_window(
    view: WindowView,
    after: WindowView,
    sources: Seq<StandingQuery>,
    before: int,
    at: CommitSeq,
    page: RowWindowPage,
    shapes: Shapes,
    asked: Seq<KernelStep>,
    asked_after: Seq<KernelStep>,
    meter: Meter,
    meter_after: Meter,
    log: Seq<Event>,
    log_after: Seq<Event>,
    done: Result<(), StandingQueryFailure>,
) -> bool {
    let gate = chain(window_step_parts(view, sources, before, at));
    let changed = sources[view.input as int].latest()->0.entries().len() as int;
    ||| done is Err && after == view && asked_after == asked && meters(
        meter,
        gate,
        meter_after,
        log,
        log_after,
        failure(done),
    )
    ||| exists|admitted: Meter, middle: Seq<Event>|
        {
            &&& #[trigger] meters(meter, gate, admitted, log, middle, None)
            &&& asked_after == asked.push(
                KernelStep::Page {
                    source: sources[view.input as int].bag()->0,
                    spec: view.spec,
                    page,
                },
            )
            &&& applies_page(
                view,
                after,
                page,
                shapes,
                noted(admitted, changed),
                meter_after,
                middle,
                log_after,
                done,
            )
        }
}

impl WindowView {
    /// Take one commit in: the page that the kernel selected from the parent.
    pub fn maintain<K: ViewKernel, H: Host>(
        &mut self,
        at: CommitSeq,
        sources: &Vec<StandingQuery>,
        before: usize,
        kernel: &mut KernelRecord<K>,
        shapes: &Shapes,
        meter: &mut Meter,
        session: &mut Session<H>,
    ) -> (done: Result<(), StandingQueryFailure>)
        requires
            old(self).wf(),
            registry_wf(sources@),
            shapes.wf(),
        ensures
            final(self).wf(),
            final(session).metered() == old(session).metered(),
            exists|page: RowWindowPage| #[trigger]
                maintains_window(
                    *old(self),
                    *final(self),
                    sources@,
                    before as int,
                    at,
                    page,
                    *shapes,
                    old(kernel).asked(),
                    final(kernel).asked(),
                    *old(meter),
                    *final(meter),
                    old(session).log(),
                    final(session).log(),
                    done,
                ),
    {
        let ghost start = session.log();
        let ghost start_meter = *meter;
        let ghost view = *self;
        let ghost asked = kernel.asked();
        let ghost none: RowWindowPage = arbitrary();
        let ghost parts = window_step_parts(view, sources@, before as int, at);
        proof {
            lemma_meters_nothing(start_meter, start);
        }
        let paid = meter.charge(ZSetEvent::Work, session);
        let ghost meter1 = *meter;
        let ghost log1 = session.log();
        proof {
            lemma_part(
                start_meter, parts, 0, start_meter, meter1, start, start, log1, failure(paid),
            );
        }
        if let Err(error) = paid {
            proof {
                assert(maintains_window(
                    view, *self, sources@, before as int, at, none, *shapes, asked, asked,
                    start_meter, *meter, start, session.log(), Err(error),
                ));
            }
            return Err(error);
        }
        proof {
            let fault = successor_fault(view.frontier, at);
            lemma_unless_fault(meter1, log1, fault);
            lemma_part(start_meter, parts, 1, meter1, meter1, start, log1, log1, fault);
        }
        if self.frontier.0 == u64::MAX || self.frontier.0 + 1 != at.0 {
            proof {
                assert(maintains_window(
                    view, *self, sources@, before as int, at, none, *shapes, asked, asked,
                    start_meter, *meter, start, session.log(),
                    Err(StandingQueryFailure::InvalidDelta),
                ));
            }
            return Err(StandingQueryFailure::InvalidDelta);
        }
        let found = input_at(sources, before, self.input, at);
        proof {
            lemma_unless_fault(meter1, log1, failure(found));
            lemma_part(start_meter, parts, 2, meter1, meter1, start, log1, log1, failure(found));
        }
        let parent = match found {
            Ok(parent) => parent,
            Err(error) => {
                proof {
                    assert(maintains_window(
                        view, *self, sources@, before as int, at, none, *shapes, asked, asked,
                        start_meter, *meter, start, session.log(), Err(error),
                    ));
                }
                return Err(error);
            },
        };
        proof {
            let fault = change_fault(*parent);
            lemma_unless_fault(meter1, log1, fault);
            lemma_part(start_meter, parts, 3, meter1, meter1, start, log1, log1, fault);
        }
        let change = match delta(parent) {
            Some(change) => change,
            None => {
                proof {
                    assert(maintains_window(
                        view, *self, sources@, before as int, at, none, *shapes, asked, asked,
                        start_meter, *meter, start, session.log(),
                        Err(StandingQueryFailure::DependencyUnavailable),
                    ));
                }
                return Err(StandingQueryFailure::DependencyUnavailable);
            },
        };
        meter.stats.delta_rows = change.len() as u64;
        assert(*meter == noted(meter1, change.entries().len() as int));
        assert(meters(start_meter, chain(parts), meter1, start, log1, None));
        let source = match rows(parent) {
            Some(source) => source,
            None => {
                assert(false);
                return Err(StandingQueryFailure::DependencyUnavailable);
            },
        };
        let page = kernel.page(source, &self.spec);
        let done = self.apply(&page, shapes, meter, session);
        assert(maintains_window(
            view, *self, sources@, before as int, at, page, *shapes, asked, kernel.asked(),
            start_meter, *meter, start, session.log(), done,
        ));
        done
    }
}

/// The counts of an input are the rows of a view.
pub open spec fn counts_rows(counts: ZSet<u128>, bag: ZSet<u128>) -> bool {
    forall|row: u128| #[trigger] counts.at(row) == bag.at(row)
}

/// A bag took a change in.
pub open spec fn moved(before: ZSet<u128>, change: ZSet<u128>, after: ZSet<u128>) -> bool {
    forall|row: u128| #[trigger] after.at(row) == before.at(row) + change.at(row)
}

/// The change that a set view reports takes its rows from before a commit to after it,
/// and is what the parents' changes make of the combination.
pub proof fn law_set_change_takes_rows_from_before_to_after(
    view: SetView,
    after: SetView,
    sources: Seq<StandingQuery>,
    before: int,
    at: CommitSeq,
    shapes: Shapes,
    kernel: KernelEvents,
    meter: Meter,
    meter_after: Meter,
    log: Seq<Event>,
    log_after: Seq<Event>,
)
    requires
        maintains_set(
            view,
            after,
            sources,
            before,
            at,
            shapes,
            kernel,
            meter,
            meter_after,
            log,
            log_after,
            Ok::<(), StandingQueryFailure>(()),
        ),
    ensures
        after.last_delta is Some,
        moved(view.rows, after.last_delta->0, after.rows),
        forall|row: u128| #[trigger]
            after.rows.at(row) == view.after(
                sources[view.left_input as int].latest()->0,
                sources[view.right_input as int].latest()->0,
                row,
            ),
        after.total@ == view.total@ + after.last_delta->0.sum(),
{
    let left = sources[view.left_input as int].latest()->0;
    let right = sources[view.right_input as int].latest()->0;
    let changed = (left.entries().len() + right.entries().len()) as int;
    let gate = chain(set_step_parts(view, sources, before, at));
    let (admitted, middle, prepared) = choose|
        admitted: Meter,
        middle: Seq<Event>,
        prepared: Result<SetUpdate, StandingQueryFailure>,
    |
        {
            &&& #[trigger] meters(meter, gate, admitted, log, middle, None)
            &&& #[trigger] prepares_set(
                view, left, right, shapes, kernel, noted(admitted, changed), meter_after, middle,
                log_after, prepared,
            )
            &&& match prepared {
                Ok(update) => view.updated(left, right, update, after),
                Err(_) => false,
            }
        };
    let delta = (prepared->Ok_0).delta;
    assert(view.derives(left, right, delta));
    assert forall|row: u128| #[trigger] after.rows.at(row) == view.after(left, right, row) by {
        assert(delta.at(row) == view.after(left, right, row) - view.rows.at(row));
    }
}

/// Nothing in the script is refused on this meter.
pub open spec fn affords(meter: Meter, script: Seq<Charge>) -> bool {
    script_plan(metered(meter.policy), meter.stats, script).verdict is None
}

/// The meter once a script is paid for.
pub open spec fn paid(meter: Meter, script: Seq<Charge>) -> Meter {
    Meter { stats: state_after(metered(meter.policy), meter.stats, script), ..meter }
}

/// The meter is sufficient: to admit the step, to read its inputs, and to take in the
/// change that they make of the result.
pub open spec fn suffices(
    view: SetView,
    sources: Seq<StandingQuery>,
    before: int,
    at: CommitSeq,
    shapes: Shapes,
    kernel: KernelEvents,
    meter: Meter,
) -> bool {
    let gate = chain(set_step_parts(view, sources, before, at));
    let left = sources[view.left_input as int].latest()->0;
    let right = sources[view.right_input as int].latest()->0;
    let changed = (left.entries().len() + right.entries().len()) as int;
    let admitted = noted(paid(meter, gate), changed);
    let lead = chain(input_parts(view, left, right, shapes, kernel));
    &&& affords(meter, gate)
    &&& affords(admitted, lead)
    &&& forall|delta: ZSet<u128>| #[trigger]
        view.derives(left, right, delta) ==> affords(
            paid(admitted, lead),
            chain(output_parts(view, delta, meter.policy, shapes, kernel)),
        )
}

/// A script that the meter affords fails only where the host refuses.
proof fn lemma_affords(
    meter: Meter,
    script: Seq<Charge>,
    meter_after: Meter,
    log: Seq<Event>,
    log_after: Seq<Event>,
    failed: Option<StandingQueryFailure>,
)
    requires
        meters(meter, script, meter_after, log, log_after, failed),
        affords(meter, script),
    ensures
        failed is Some ==> refused(log, log_after) is Some,
        failed is None ==> refused(log, log_after) is None && meter_after == paid(meter, script),
{
}

/// Refused maintenance leaves the view as it was, and the same step succeeds when it is
/// retried with a sufficient meter and the host refuses nothing.
pub proof fn law_refused_set_maintenance_succeeds_with_a_sufficient_meter(
    view: SetView,
    between: SetView,
    after: SetView,
    sources: Seq<StandingQuery>,
    before: int,
    at: CommitSeq,
    shapes: Shapes,
    kernel: KernelEvents,
    stopped: (Meter, Meter, Seq<Event>, Seq<Event>),
    retried: (Meter, Meter, Seq<Event>, Seq<Event>),
    error: StandingQueryFailure,
    done: Result<(), StandingQueryFailure>,
)
    requires
        maintains_set(
            view,
            between,
            sources,
            before,
            at,
            shapes,
            kernel,
            stopped.0,
            stopped.1,
            stopped.2,
            stopped.3,
            Err::<(), StandingQueryFailure>(error),
        ),
        maintains_set(
            between,
            after,
            sources,
            before,
            at,
            shapes,
            kernel,
            retried.0,
            retried.1,
            retried.2,
            retried.3,
            done,
        ),
        suffices(view, sources, before, at, shapes, kernel, retried.0),
        refused(retried.2, retried.3) is None,
    ensures
        between == view,
        done is Ok,
{
    assert(between == view);
    let meter = retried.0;
    let log = retried.2;
    let log_after = retried.3;
    let gate = chain(set_step_parts(view, sources, before, at));
    let left = sources[view.left_input as int].latest()->0;
    let right = sources[view.right_input as int].latest()->0;
    let changed = (left.entries().len() + right.entries().len()) as int;
    let lead = chain(input_parts(view, left, right, shapes, kernel));
    if done is Err && after == view && meters(
        meter,
        gate,
        retried.1,
        log,
        log_after,
        failure(done),
    ) {
        lemma_affords(meter, gate, retried.1, log, log_after, failure(done));
    } else {
        let (admitted, middle, prepared) = choose|
            admitted: Meter,
            middle: Seq<Event>,
            prepared: Result<SetUpdate, StandingQueryFailure>,
        |
            {
                &&& #[trigger] meters(meter, gate, admitted, log, middle, None)
                &&& #[trigger] prepares_set(
                    view, left, right, shapes, kernel, noted(admitted, changed), retried.1, middle,
                    log_after, prepared,
                )
                &&& match prepared {
                    Ok(update) => done is Ok && view.updated(left, right, update, after),
                    Err(stop) => after == view && done == Err::<(), StandingQueryFailure>(stop),
                }
            };
        lemma_affords(meter, gate, admitted, log, middle, None);
        let first = script_plan(metered(meter.policy), meter.stats, gate).asks;
        let from = noted(admitted, changed);
        let second = script_plan(metered(from.policy), from.stats, lead).asks;
        if prepared is Err && meters(
            from,
            lead,
            retried.1,
            middle,
            log_after,
            failure(prepared),
        ) {
            lemma_affords(from, lead, retried.1, middle, log_after, failure(prepared));
            lemma_followed_compose(log, middle, log_after, first, second);
        } else {
            let (delta, spent, log_spent) = choose|
                delta: ZSet<u128>,
                spent: Meter,
                log_spent: Seq<Event>,
            |
                #![trigger view.derives(left, right, delta), meters(from, lead, spent, middle, log_spent, None)]
                {
                    &&& view.derives(left, right, delta)
                    &&& view.input_fault(left, right) is None
                    &&& meters(from, lead, spent, middle, log_spent, None)
                    &&& meters(
                        spent,
                        chain(output_parts(view, delta, from.policy, shapes, kernel)),
                        retried.1,
                        log_spent,
                        log_after,
                        failure(prepared),
                    )
                    &&& prepared is Ok ==> prepared->Ok_0.delta == delta
                        && prepared->Ok_0.next_total@ == view.total@ + delta.sum() && fits(
                        view.total@ + delta.sum(),
                    )
                };
            lemma_affords(from, lead, spent, middle, log_spent, None);
            let output = chain(output_parts(view, delta, from.policy, shapes, kernel));
            let third = script_plan(metered(spent.policy), spent.stats, output).asks;
            lemma_affords(spent, output, retried.1, log_spent, log_after, failure(prepared));
            lemma_followed_compose(log, middle, log_spent, first, second);
            lemma_followed_compose(log, log_spent, log_after, first + second, third);
        }
    }
}

/// Maintenance that was refused leaves the view as it was, so a later attempt at the
/// same commit that goes well reaches the state that a rebuild reaches.
pub proof fn law_refused_set_maintenance_is_retried_to_the_rebuilt_set(
    view: SetView,
    between: SetView,
    after: SetView,
    rebuilt: SetView,
    sources: Seq<StandingQuery>,
    before: int,
    at: CommitSeq,
    shapes: Shapes,
    kernel: KernelEvents,
    refused: (Meter, Meter, Seq<Event>, Seq<Event>),
    retried: (Meter, Meter, Seq<Event>, Seq<Event>),
    error: StandingQueryFailure,
    left_before: ZSet<u128>,
    right_before: ZSet<u128>,
    left_after: ZSet<u128>,
    right_after: ZSet<u128>,
)
    requires
        view.wf(),
        after.wf(),
        rebuilt.wf(),
        rebuilt.operation == view.operation,
        maintains_set(
            view,
            between,
            sources,
            before,
            at,
            shapes,
            kernel,
            refused.0,
            refused.1,
            refused.2,
            refused.3,
            Err::<(), StandingQueryFailure>(error),
        ),
        maintains_set(
            between,
            after,
            sources,
            before,
            at,
            shapes,
            kernel,
            retried.0,
            retried.1,
            retried.2,
            retried.3,
            Ok::<(), StandingQueryFailure>(()),
        ),
        counts_rows(view.left, left_before),
        counts_rows(view.right, right_before),
        moved(left_before, sources[view.left_input as int].latest()->0, left_after),
        moved(right_before, sources[view.right_input as int].latest()->0, right_after),
        counts_rows(rebuilt.left, left_after),
        counts_rows(rebuilt.right, right_after),
    ensures
        between == view,
        after.rows.entries() == rebuilt.rows.entries(),
        after.total@ == rebuilt.total@,
        moved(view.rows, after.last_delta->0, after.rows),
{
    assert(between == view);
    let left = sources[view.left_input as int].latest()->0;
    let right = sources[view.right_input as int].latest()->0;
    let changed = (left.entries().len() + right.entries().len()) as int;
    let gate = chain(set_step_parts(view, sources, before, at));
    let (admitted, middle, prepared) = choose|
        admitted: Meter,
        middle: Seq<Event>,
        prepared: Result<SetUpdate, StandingQueryFailure>,
    |
        {
            &&& #[trigger] meters(retried.0, gate, admitted, retried.2, middle, None)
            &&& #[trigger] prepares_set(
                view, left, right, shapes, kernel, noted(admitted, changed), retried.1, middle,
                retried.3, prepared,
            )
            &&& match prepared {
                Ok(update) => view.updated(left, right, update, after),
                Err(_) => false,
            }
        };
    law_maintained_set_is_the_rebuilt_set(
        view, after, left_before, right_before, left, right, left_after, right_after,
        prepared->Ok_0, rebuilt,
    );
}

/// A view that follows its parents' changes ends where a rebuild from their
/// current rows would: its result combines those rows, and its total counts it.
pub proof fn law_maintained_set_is_the_rebuilt_set(
    view: SetView,
    after: SetView,
    left_before: ZSet<u128>,
    right_before: ZSet<u128>,
    left_change: ZSet<u128>,
    right_change: ZSet<u128>,
    left_after: ZSet<u128>,
    right_after: ZSet<u128>,
    update: SetUpdate,
    rebuilt: SetView,
)
    requires
        view.wf(),
        after.wf(),
        rebuilt.wf(),
        rebuilt.operation == view.operation,
        counts_rows(view.left, left_before),
        counts_rows(view.right, right_before),
        moved(left_before, left_change, left_after),
        moved(right_before, right_change, right_after),
        view.updated(left_change, right_change, update, after),
        counts_rows(rebuilt.left, left_after),
        counts_rows(rebuilt.right, right_after),
    ensures
        counts_rows(after.left, left_after),
        counts_rows(after.right, right_after),
        counts_rows(after.rows, rebuilt.rows),
        forall|row: u128| #[trigger]
            after.rows.at(row) == combined(
                view.operation,
                left_after.at(row),
                right_after.at(row),
            ),
        after.rows.entries() == rebuilt.rows.entries(),
        after.total@ == rebuilt.total@,
        moved(view.rows, update.delta, after.rows),
{
    assert forall|row: u128| #[trigger] after.left.at(row) == left_after.at(row) by {
        assert(view.left.at(row) == left_before.at(row));
        assert(left_after.at(row) == left_before.at(row) + left_change.at(row));
    }
    assert forall|row: u128| #[trigger] after.right.at(row) == right_after.at(row) by {
        assert(view.right.at(row) == right_before.at(row));
        assert(right_after.at(row) == right_before.at(row) + right_change.at(row));
    }
    assert forall|row: u128| #[trigger] after.rows.at(row) == rebuilt.rows.at(row) by {
        assert(after.left.at(row) == left_after.at(row));
        assert(after.right.at(row) == right_after.at(row));
        assert(rebuilt.left.at(row) == left_after.at(row));
        assert(rebuilt.right.at(row) == right_after.at(row));
    }
    assert forall|row: u128| #[trigger]
        weight_in(after.rows.entries(), row) == weight_in(rebuilt.rows.entries(), row) by {
        assert(after.rows.at(row) == rebuilt.rows.at(row));
    }
    lemma_determined(after.rows.entries(), rebuilt.rows.entries());
    assert forall|row: u128| #[trigger]
        after.rows.at(row) == combined(view.operation, left_after.at(row), right_after.at(row)) by {
        assert(after.left.at(row) == left_after.at(row));
        assert(after.right.at(row) == right_after.at(row));
    }
}

} // verus!
