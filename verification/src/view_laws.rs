//! What maintained views keep to: their budgets, their limits, and the commit that their
//! parents stand at.

use vstd::prelude::*;
use crate::database::Database;
use crate::governed::{governed, governs, Step};
use crate::ids::CommitSeq;
use crate::kernel::KernelStep;
use crate::plan::{obeys, whole};
use crate::script::{script_plan, state_after};
use crate::session::Event;
use crate::standing::{
    bound_fault, chain, chain_upto, metered, meters, unless_fault, Charge, Meter, Shapes,
    StandingQueryFailure, StandingQueryStats,
};
use crate::standing_build::{
    agrees, builds_set, current, fills_set, first_mismatch, fresh, schema_error, set_gate,
};
use crate::standing_register::{
    builds_window, describes_window, empty_window, fills_window, judged, operand_steps,
    parent_parts, registered, registers_set, registers_window, window_baseline, window_gate,
    window_steps,
};
use crate::standing_registry::{
    operand_fault, query_stopped, source_fault, StandingQuery, StandingQueryError,
    StandingQueryHandle,
};
use crate::standing_sets::{
    input_parts, output_parts, prepares_set, GraphSetColumnType, KernelEvents, SetOperation,
    SetUpdate, SetView,
};
use crate::standing_step::{
    maintains_set, maintains_window, moved, noted, set_step_parts, successor_fault,
    window_step_parts,
};
use crate::standing_triangles::{
    change_fault, maintain_parts, maintains_triangles, TriangleChange, TriangleView,
};
use crate::standing_window::{
    applies_page, GraphSetQuantifier, GraphValueOrder, RowWindowPage, RowWindowSpec, WindowView,
};
use crate::statement::{GlaExecutionEvent, QueryPolicy, QueryStats};
use crate::statement_laws::lemma_every_step_goes;
use crate::weight::Weight;
use crate::zset::{listed, sum_of, weight_in, Triple, ZSet};

verus! {

/// No step of the script refuses.
pub open spec fn unfaulted(script: Seq<Charge>) -> bool {
    forall|i: int| 0 <= i < script.len() ==> !((#[trigger] script[i]) is Refuse)
}

/// The counters are within the budgets.
pub open spec fn within(stats: StandingQueryStats, policy: QueryPolicy) -> bool {
    &&& stats.work_units <= policy.max_work_units
    &&& stats.scratch_entries <= policy.max_scratch_entries
}

proof fn lemma_goes_unfaulted(policy: QueryPolicy, stats: StandingQueryStats, script: Seq<Charge>)
    requires
        script_plan(metered(policy), stats, script).verdict is None,
    ensures
        unfaulted(script),
        within(stats, policy) ==> within(state_after(metered(policy), stats, script), policy),
        state_after(metered(policy), stats, script).work_units >= stats.work_units,
        state_after(metered(policy), stats, script).scratch_entries >= stats.scratch_entries,
    decreases script.len(),
{
    if script.len() > 0 {
        let rest = script.drop_last();
        let rule = metered(policy);
        assert(script_plan(rule, stats, rest).verdict is None);
        lemma_goes_unfaulted(policy, stats, rest);
        let last = script[script.len() - 1];
        let middle = state_after(rule, stats, rest);
        assert((rule.plan)(middle, last).verdict is None);
        assert forall|i: int| 0 <= i < script.len() implies !((#[trigger] script[i]) is Refuse) by {
            if i < rest.len() {
                assert(rest[i] == script[i]);
            }
        }
    }
}

/// Maintenance that goes through stays within its budgets, and never counts down.
pub proof fn law_maintenance_stays_within_its_budgets(
    before: Meter,
    script: Seq<Charge>,
    after: Meter,
    log: Seq<Event>,
    log_after: Seq<Event>,
)
    requires
        meters(before, script, after, log, log_after, None),
        within(before.stats, before.policy),
    ensures
        after.policy == before.policy,
        within(after.stats, after.policy),
        after.stats.work_units >= before.stats.work_units,
        after.stats.scratch_entries >= before.stats.scratch_entries,
{
    lemma_goes_unfaulted(before.policy, before.stats, script);
}

/// How many events of a script are counted, and how many of them take scratch room.
pub open spec fn events_in(script: Seq<Step>) -> (nat, nat)
    decreases script.len(),
{
    if script.len() == 0 {
        (0, 0)
    } else {
        let (work, scratch) = events_in(script.drop_last());
        match script.last() {
            Step::Count(GlaExecutionEvent::ScratchEntry) => (work + 1, scratch + 1),
            Step::Count(GlaExecutionEvent::Work) => (work + 1, scratch),
            _ => (work, scratch),
        }
    }
}

proof fn lemma_counts(policy: QueryPolicy, stats: QueryStats, script: Seq<Step>)
    requires
        script_plan(governed(policy), stats, script).verdict is None,
    ensures
        ({
            let after = state_after(governed(policy), stats, script);
            &&& after.work_units == stats.work_units + events_in(script).0
            &&& after.scratch_entries == stats.scratch_entries + events_in(script).1
            &&& events_in(script).0 > 0 ==> after.work_units <= policy.max_work_units
            &&& events_in(script).1 > 0 ==> after.scratch_entries <= policy.max_scratch_entries
            &&& after.result_rows == stats.result_rows
            &&& after.snapshot_records == stats.snapshot_records
        }),
    decreases script.len(),
{
    if script.len() > 0 {
        let rest = script.drop_last();
        let rule = governed(policy);
        assert(script_plan(rule, stats, rest).verdict is None);
        lemma_counts(policy, stats, rest);
        let last = script[script.len() - 1];
        assert((rule.plan)(state_after(rule, stats, rest), last).verdict is None);
    }
}

/// A governed statement that goes through has counted each of its events once, none of
/// them beyond the limits of its policy.
pub proof fn law_governed_statements_stay_within_their_limits(
    policy: QueryPolicy,
    before: QueryStats,
    script: Seq<Step>,
    after: QueryStats,
    log: Seq<Event>,
    log_after: Seq<Event>,
)
    requires
        governs(policy, before, script, after, log, log_after, None),
    ensures
        after.work_units == before.work_units + events_in(script).0,
        after.scratch_entries == before.scratch_entries + events_in(script).1,
        events_in(script).0 > 0 ==> after.work_units <= policy.max_work_units,
        events_in(script).1 > 0 ==> after.scratch_entries <= policy.max_scratch_entries,
        after.result_rows == before.result_rows,
        after.snapshot_records == before.snapshot_records,
{
    lemma_counts(policy, before, script);
}

/// A chain that goes through has no refusal in any of its parts.
proof fn lemma_part_unfaulted(parts: Seq<Seq<Charge>>, n: int, i: int)
    requires
        0 <= i < n <= parts.len(),
        unfaulted(chain_upto(parts, n)),
    ensures
        unfaulted(parts[i]),
    decreases n,
{
    let earlier = chain_upto(parts, n - 1);
    let all = chain_upto(parts, n);
    if i < n - 1 {
        assert forall|k: int| 0 <= k < earlier.len() implies !((#[trigger] earlier[k]) is Refuse) by {
            assert(all[k] == earlier[k]);
        }
        lemma_part_unfaulted(parts, n - 1, i);
    } else {
        assert forall|k: int| 0 <= k < parts[i].len() implies !((#[trigger] parts[i][k]) is Refuse) by {
            assert(all[earlier.len() + k] == parts[i][k]);
        }
    }
}

proof fn lemma_no_fault(fault: Option<StandingQueryFailure>)
    requires
        unfaulted(unless_fault(fault)),
    ensures
        fault is None,
{
    if fault is Some {
        assert(unless_fault(fault)[0] is Refuse);
    }
}

proof fn lemma_part_goes(
    meter: Meter,
    parts: Seq<Seq<Charge>>,
    after: Meter,
    log: Seq<Event>,
    log_after: Seq<Event>,
    i: int,
    fault: Option<StandingQueryFailure>,
)
    requires
        meters(meter, chain(parts), after, log, log_after, None),
        0 <= i < parts.len(),
        parts[i] == unless_fault(fault),
    ensures
        fault is None,
{
    lemma_goes_unfaulted(meter.policy, meter.stats, chain(parts));
    lemma_part_unfaulted(parts, parts.len() as int, i);
    lemma_no_fault(fault);
}

/// The view stands, healthy and with rows, at a commit, ahead of what is built on it.
pub open spec fn stands_at(
    sources: Seq<StandingQuery>,
    index: int,
    before: int,
    at: CommitSeq,
) -> bool {
    &&& 0 <= index < before
    &&& index < sources.len()
    &&& sources[index].failure() is None
    &&& sources[index].frontier() == at
    &&& sources[index].bag() is Some
}

/// No more occurrences than the policy allows.
pub open spec fn within_result_limit(total: int, policy: QueryPolicy) -> bool {
    &&& total >= 0
    &&& policy.max_result_rows matches Some(most) ==> total <= most
}

/// A set view takes a commit in as the next one after its own, once both of its parents
/// have taken it in, and holds no more occurrences than its policy allows.
pub proof fn law_maintained_sets_follow_their_parents(
    view: SetView,
    after: SetView,
    sources: Seq<StandingQuery>,
    before: int,
    at: CommitSeq,
    shapes: Shapes,
    kernel: KernelEvents,
    meter: Meter,
    meter_after: Meter,
    log: Seq<Event>,
    log_after: Seq<Event>,
)
    requires
        maintains_set(
            view,
            after,
            sources,
            before,
            at,
            shapes,
            kernel,
            meter,
            meter_after,
            log,
            log_after,
            Ok::<(), StandingQueryFailure>(()),
        ),
    ensures
        at.0 == view.frontier.0 + 1,
        stands_at(sources, view.left_input as int, before, at),
        stands_at(sources, view.right_input as int, before, at),
        !(sources[view.left_input as int] is Window),
        !(sources[view.right_input as int] is Window),
        within_result_limit(after.total@, meter.policy),
{
    let left = sources[view.left_input as int].latest()->0;
    let right = sources[view.right_input as int].latest()->0;
    let changed = (left.entries().len() + right.entries().len()) as int;
    let parts = set_step_parts(view, sources, before, at);
    let (admitted, middle, prepared) = choose|
        admitted: Meter,
        middle: Seq<Event>,
        prepared: Result<SetUpdate, StandingQueryFailure>,
    |
        {
            &&& #[trigger] meters(meter, chain(parts), admitted, log, middle, None)
            &&& #[trigger] prepares_set(
                view, left, right, shapes, kernel, noted(admitted, changed), meter_after, middle,
                log_after, prepared,
            )
            &&& match prepared {
                Ok(update) => view.updated(left, right, update, after),
                Err(_) => false,
            }
        };
    lemma_part_goes(
        meter, parts, admitted, log, middle, 1,
        successor_fault(view.frontier, at),
    );
    lemma_part_goes(
        meter, parts, admitted, log, middle, 2,
        operand_fault(sources, before, view.left_input as int, at),
    );
    lemma_part_goes(
        meter, parts, admitted, log, middle, 4,
        operand_fault(sources, before, view.right_input as int, at),
    );
    let policy = meter.policy;
    let lead = chain(
        input_parts(view, left, right, shapes, kernel),
    );
    let (delta, paid, log_paid) = choose|delta: ZSet<u128>, paid: Meter, log_paid: Seq<Event>|
        #![trigger view.derives(left, right, delta), meters(noted(admitted, changed), lead, paid, middle, log_paid, None)]
        {
            &&& view.derives(left, right, delta)
            &&& meters(noted(admitted, changed), lead, paid, middle, log_paid, None)
            &&& meters(
                paid,
                chain(output_parts(view, delta, noted(admitted, changed).policy, shapes, kernel)),
                meter_after,
                log_paid,
                log_after,
                None,
            )
            &&& prepared->Ok_0.next_total@ == view.total@ + delta.sum()
        };
    lemma_part_goes(
        paid, output_parts(view, delta, policy, shapes, kernel), meter_after, log_paid, log_after,
        3, bound_fault(view.total@ + delta.sum(), policy),
    );
}

/// A window takes a commit in as the next one after its own, once its parent has taken it
/// in. It asks for one page, over the parent's rows at that commit, and holds exactly the
/// runs of that page, each of another row and none empty, no more than its policy allows.
/// The change that it reports takes its rows from before to after.
pub proof fn law_maintained_windows_hold_the_page_of_their_parent(
    view: WindowView,
    after: WindowView,
    sources: Seq<StandingQuery>,
    before: int,
    at: CommitSeq,
    page: RowWindowPage,
    shapes: Shapes,
    asked: Seq<KernelStep>,
    asked_after: Seq<KernelStep>,
    meter: Meter,
    meter_after: Meter,
    log: Seq<Event>,
    log_after: Seq<Event>,
)
    requires
        maintains_window(
            view,
            after,
            sources,
            before,
            at,
            page,
            shapes,
            asked,
            asked_after,
            meter,
            meter_after,
            log,
            log_after,
            Ok::<(), StandingQueryFailure>(()),
        ),
    ensures
        at.0 == view.frontier.0 + 1,
        stands_at(sources, view.input as int, before, at),
        asked_after == asked.push(
            KernelStep::Page {
                source: sources[view.input as int].bag()->0,
                spec: view.spec,
                page,
            },
        ),
        after.spec == view.spec,
        page.runs is Ok,
        after.ordered@ == page.runs->Ok_0@,
        forall|i: int| 0 <= i < after.ordered@.len() ==> (#[trigger] after.ordered@[i]).1@ > 0,
        forall|i: int, j: int|
            0 <= i < j < after.ordered@.len() ==> (#[trigger] after.ordered@[i]).0 != (
            #[trigger] after.ordered@[j]).0,
        forall|i: int|
            0 <= i < after.ordered@.len() ==> after.rows.at((#[trigger] after.ordered@[i]).0)
                == after.ordered@[i].1@,
        forall|row: u128|
            (forall|i: int| 0 <= i < after.ordered@.len() ==> (#[trigger] after.ordered@[i]).0 != row)
                ==> #[trigger] after.rows.at(row) == 0,
        within_result_limit(after.total@, meter.policy),
        after.last_delta is Some,
        moved(view.rows, after.last_delta->0, after.rows),
{
    let parts = window_step_parts(view, sources, before, at);
    let changed = sources[view.input as int].latest()->0.entries().len() as int;
    let (admitted, middle) = choose|admitted: Meter, middle: Seq<Event>|
        {
            &&& #[trigger] meters(meter, chain(parts), admitted, log, middle, None)
            &&& applies_page(
                view, after, page, shapes, noted(admitted, changed), meter_after, middle, log_after,
                Ok::<(), StandingQueryFailure>(()),
            )
        };
    lemma_part_goes(
        meter, parts, admitted, log, middle, 1,
        successor_fault(view.frontier, at),
    );
    lemma_part_goes(
        meter, parts, admitted, log, middle, 2,
        source_fault(sources, before, view.input as int, at),
    );
    let runs = page.runs->Ok_0@;
    lemma_page_total(runs, runs.len() as int);
    assert(runs.take(runs.len() as int) =~= runs);
    assert forall|i: int| 0 <= i < runs.len() implies after.rows.at((#[trigger] runs[i]).0)
        == runs[i].1@ by {
        assert(after.rows.at(runs[i].0) == weight_in(runs, runs[i].0));
        let k = choose|k: int| 0 <= k < runs.len() && (#[trigger] runs[k]).0 == runs[i].0;
        assert(listed(runs, runs[i].0));
        assert(k == i);
    }
    assert forall|row: u128|
        (forall|i: int| 0 <= i < after.ordered@.len() ==> (#[trigger] after.ordered@[i]).0 != row)
        implies #[trigger] after.rows.at(row) == 0 by {
        assert(!listed(runs, row));
    }
}

proof fn lemma_page_total(runs: Seq<(u128, Weight)>, n: int)
    requires
        0 <= n <= runs.len(),
        forall|i: int| 0 <= i < runs.len() ==> (#[trigger] runs[i]).1@ > 0,
    ensures
        sum_of(runs.take(n)) >= n,
    decreases n,
{
    if n > 0 {
        lemma_page_total(runs, n - 1);
        assert(runs.take(n).drop_last() =~= runs.take(n - 1));
        assert(runs.take(n).last() == runs[n - 1]);
    }
}

/// Triangles that take a commit in hold no more occurrences than their policy allows, and
/// follow what the kernel reported.
pub proof fn law_maintained_triangles_stay_within_their_limit(
    view: TriangleView,
    after: TriangleView,
    at: CommitSeq,
    change: TriangleChange,
    asked: Seq<KernelStep>,
    asked_after: Seq<KernelStep>,
    meter: Meter,
    meter_after: Meter,
    log: Seq<Event>,
    log_after: Seq<Event>,
)
    requires
        maintains_triangles(
            view,
            after,
            at,
            change,
            asked,
            asked_after,
            meter,
            meter_after,
            log,
            log_after,
            Ok::<(), StandingQueryFailure>(()),
        ),
    ensures
        view.frontier == view.input_frontier,
        after.input_frontier == at,
        change.triangles is Ok,
        within_result_limit(view.total@ + change.triangles->Ok_0.sum(), meter.policy),
        forall|triple: Triple| #[trigger]
            after.rows.at(triple) == view.rows.at(triple) + change.triangles->Ok_0.at(triple),
{
    let parts = maintain_parts(view, change, meter.policy);
    lemma_part_goes(
        meter, parts, meter_after, log, log_after, 3,
        change_fault(
            view.total@,
            change.triangles,
            false,
            meter.policy,
        ),
    );
}

/// Both lists have a domain for the column, and the same.
pub open spec fn same_domain(
    left: Seq<GraphSetColumnType>,
    right: Seq<GraphSetColumnType>,
    column: int,
) -> bool {
    &&& column < left.len()
    &&& column < right.len()
    &&& left[column] == right[column]
}

proof fn lemma_agreement(
    left: Seq<GraphSetColumnType>,
    right: Seq<GraphSetColumnType>,
    from: int,
    len: int,
)
    requires
        0 <= from <= len,
        first_mismatch(left, right, from, len) >= len,
    ensures
        forall|c: int| from <= c < len ==> #[trigger] same_domain(left, right, c),
    decreases len - from,
{
    if from < len {
        assert(agrees(left, right, from)) by {
            if !agrees(left, right, from) {
                assert(first_mismatch(left, right, from, len) == from);
            }
        }
        assert(same_domain(left, right, from));
        lemma_agreement(left, right, from + 1, len);
    }
}

/// A set view is registered only over two views of the same handle that are current,
/// healthy and no windows, with as many columns of the same domains.
#[verifier::rlimit(40)]
pub proof fn law_registered_sets_rest_on_current_operands(
    before: Database,
    after: Database,
    left: StandingQueryHandle,
    right: StandingQueryHandle,
    operation: SetOperation,
    policy: QueryPolicy,
    shapes: Shapes,
    kernel: KernelEvents,
    log: Seq<Event>,
    log_after: Seq<Event>,
    handle: StandingQueryHandle,
)
    requires
        before.standing@.len() <= usize::MAX,
        registers_set(
            before,
            after,
            left,
            right,
            operation,
            policy,
            shapes,
            kernel,
            log,
            log_after,
            Ok(handle),
        ),
    ensures
        left.owner == before.owner && right.owner == before.owner,
        ({
            let sources = before.standing@;
            let n = sources.len() as int;
            let l = sources[left.index as int];
            let r = sources[right.index as int];
            &&& stands_at(sources, left.index as int, n, current(before))
            &&& stands_at(sources, right.index as int, n, current(before))
            &&& !(l is Window) && !(r is Window)
            &&& l.names()->0.len() == r.names()->0.len()
            &&& forall|c: int|
                0 <= c < l.names()->0.len() ==> #[trigger] same_domain(l.types(), r.types(), c)
        }),
{
    let sources = before.standing@;
    let (middle, built) = choose|middle: Seq<Event>, built: Result<SetView, StandingQueryError>|
        {
            &&& #[trigger] obeys(
                log,
                middle,
                whole(operand_steps(before, left, right)),
                query_stopped(),
                None,
            )
            &&& #[trigger] builds_set(
                before,
                left.index,
                right.index,
                operation,
                policy,
                before.standing@.len() as usize,
                shapes,
                kernel,
                middle,
                log_after,
                built,
            )
            &&& built is Ok
        };
    lemma_every_step_goes(operand_steps(before, left, right), 6, 1);
    let gate = set_gate(before, left.index, right.index, sources.len() as usize);
    let paid = choose|paid: Seq<Event>|
        {
            &&& #[trigger] obeys(middle, paid, whole(gate), query_stopped(), None)
            &&& fills_set(
                left.index,
                right.index,
                sources[left.index as int],
                sources[right.index as int],
                operation,
                policy,
                current(before),
                shapes,
                kernel,
                paid,
                log_after,
                built,
            )
        };
    lemma_every_step_goes(gate, 6, 3);
    lemma_every_step_goes(gate, 6, 4);
    lemma_every_step_goes(gate, 6, 5);
    let l = sources[left.index as int];
    let r = sources[right.index as int];
    assert(schema_error(l, r) is None);
    lemma_agreement(l.types(), r.types(), 0, l.names()->0.len() as int);
}

/// A window is registered over a parent that stands at the current commit, with the order,
/// the quantifier and the bounds that were asked for. It starts with the page that the
/// kernel gave for them, within the result limit, and reports no change.
#[verifier::rlimit(40)]
pub proof fn law_registered_windows_hold_the_page_of_their_parent(
    before: Database,
    after: Database,
    input: StandingQueryHandle,
    order: Vec<GraphValueOrder>,
    quantifier: GraphSetQuantifier,
    offset: u64,
    count: u64,
    policy: QueryPolicy,
    page: RowWindowPage,
    shapes: Shapes,
    asked: Seq<KernelStep>,
    asked_after: Seq<KernelStep>,
    log: Seq<Event>,
    log_after: Seq<Event>,
    handle: StandingQueryHandle,
)
    requires
        before.standing@.len() <= usize::MAX,
        registers_window(
            before,
            after,
            input,
            order,
            quantifier,
            offset,
            count,
            policy,
            page,
            shapes,
            asked,
            asked_after,
            log,
            log_after,
            Ok(handle),
        ),
    ensures
        input.owner == before.owner,
        stands_at(
            before.standing@,
            input.index as int,
            before.standing@.len() as int,
            current(before),
        ),
        after.standing@.len() == before.standing@.len() + 1,
        after.standing@.drop_last() == before.standing@,
        handle.owner == before.owner && handle.index == before.standing@.len(),
        page.runs is Ok,
        after.standing@.last() matches StandingQuery::Window(view) && {
            &&& view.input == input.index
            &&& (view.spec.order, view.spec.quantifier) == (order, quantifier)
            &&& (view.spec.offset, view.spec.count) == (offset, count)
            &&& view.frontier == current(before)
            &&& view.failure is None
            &&& view.last_delta is None
            &&& view.policy == policy
            &&& asked_after == asked.push(
                KernelStep::Validate { spec: view.spec, invalid: None },
            ).push(
                KernelStep::Page {
                    source: before.standing@[input.index as int].bag()->0,
                    spec: view.spec,
                    page,
                },
            )
            &&& view.ordered@ == page.runs->Ok_0@
            &&& forall|row: u128| #[trigger] view.rows.at(row) == weight_in(page.runs->Ok_0@, row)
            &&& within_result_limit(view.total@, policy)
        },
{
    let sources = before.standing@;
    let parent = sources[input.index as int];
    let steps = window_steps(before, input);
    let (middle, spec, built) = choose|
        middle: Seq<Event>,
        spec: RowWindowSpec,
        built: Result<WindowView, StandingQueryError>,
    |
        {
            &&& #[trigger] obeys(log, middle, whole(steps), query_stopped(), None)
            &&& describes_window(parent, order, quantifier, offset, count, spec)
            &&& #[trigger] builds_window(
                before,
                input.index,
                spec,
                policy,
                before.standing@.len() as usize,
                page,
                shapes,
                judged(asked, spec, None),
                asked_after,
                middle,
                log_after,
                built,
            )
            &&& built is Ok
            &&& registered(before, after, StandingQuery::Window(built->Ok_0), handle)
        };
    lemma_every_step_goes(steps, 3, 0);
    let types = spec.input_types@;
    let gate = window_gate(before, input.index, types, sources.len() as usize);
    let paid = choose|paid: Seq<Event>|
        {
            &&& #[trigger] obeys(middle, paid, whole(gate), query_stopped(), None)
            &&& fills_window(
                input.index,
                parent,
                spec,
                policy,
                current(before),
                page,
                shapes,
                judged(asked, spec, None),
                asked_after,
                paid,
                log_after,
                built,
            )
        };
    lemma_every_step_goes(gate, 5, 3);
    let script = chain(parent_parts(parent, types, policy));
    let (empty, filled, admitted, spent, filling, done) = choose|
        empty: WindowView,
        filled: WindowView,
        admitted: Meter,
        spent: Meter,
        filling: Seq<Event>,
        done: Result<(), StandingQueryFailure>,
    |
        {
            &&& #[trigger] meters(fresh(policy), script, admitted, paid, filling, None)
            &&& empty_window(empty, input.index, parent, spec, policy, current(before))
            &&& asked_after == judged(asked, spec, None).push(
                KernelStep::Page { source: parent.bag()->0, spec, page },
            )
            &&& #[trigger] applies_page(
                empty,
                filled,
                page,
                shapes,
                admitted,
                spent,
                filling,
                log_after,
                done,
            )
            &&& done is Ok
            &&& window_baseline(built->Ok_0, filled, spent.stats)
        };
    let runs = page.runs->Ok_0@;
    lemma_page_total(runs, runs.len() as int);
    assert(runs.take(runs.len() as int) =~= runs);
    assert(admitted.policy == policy);
    assert(after.standing@.drop_last() =~= before.standing@);
}

} // verus!
