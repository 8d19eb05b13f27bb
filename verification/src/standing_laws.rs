//! Laws of set views as the registry holds them.

use vstd::prelude::*;
use crate::database::Database;
use crate::ids::CommitSeq;
use crate::session::Event;
use crate::standing::{Meter, Shapes, StandingQueryFailure};
use crate::standing_register::registers_set;
use crate::standing_registry::{StandingQuery, StandingQueryHandle};
use crate::standing_sets::{combined, KernelEvents, SetOperation, SetView};
use crate::standing_step::{
    counts_rows, law_refused_set_maintenance_is_retried_to_the_rebuilt_set,
    law_set_change_takes_rows_from_before_to_after, maintains_set, moved,
};
use crate::statement::QueryPolicy;
use crate::zset::ZSet;

verus! {

/// The change that the registry reports of a view.
pub open spec fn reported_change(database: Database, handle: StandingQueryHandle) -> Option<
    ZSet<u128>,
> {
    database.standing@[handle.index as int].latest()
}

/// A view took a commit in, and the registry holds it at that commit.
pub open spec fn entered(stepped: SetView, held: SetView, at: CommitSeq) -> bool {
    &&& held.rows == stepped.rows
    &&& held.last_delta == stepped.last_delta
    &&& held.left == stepped.left
    &&& held.right == stepped.right
    &&& held.total == stepped.total
    &&& held.frontier == at
    &&& held.failure is None
}

/// A set view that was just registered is a baseline: it stands at the current commit
/// and reports no change.
pub proof fn law_registered_set_reports_no_change(
    before: Database,
    after: Database,
    left: StandingQueryHandle,
    right: StandingQueryHandle,
    operation: SetOperation,
    policy: QueryPolicy,
    shapes: Shapes,
    kernel: KernelEvents,
    log: Seq<Event>,
    log_after: Seq<Event>,
    handle: StandingQueryHandle,
)
    requires
        before.standing@.len() <= usize::MAX,
        registers_set(
            before,
            after,
            left,
            right,
            operation,
            policy,
            shapes,
            kernel,
            log,
            log_after,
            Ok(handle),
        ),
    ensures
        after.standing@[handle.index as int] is Composition,
        reported_change(after, handle) is None,
        after.standing@[handle.index as int].frontier().0 == before.tip() as u64,
{
}

/// A set view that was just registered combines, under the operation that was asked for,
/// what its two operands hold.
pub proof fn law_registered_set_combines_its_operands(
    before: Database,
    after: Database,
    left: StandingQueryHandle,
    right: StandingQueryHandle,
    operation: SetOperation,
    policy: QueryPolicy,
    shapes: Shapes,
    kernel: KernelEvents,
    log: Seq<Event>,
    log_after: Seq<Event>,
    handle: StandingQueryHandle,
)
    requires
        before.standing@.len() <= usize::MAX,
        registers_set(
            before,
            after,
            left,
            right,
            operation,
            policy,
            shapes,
            kernel,
            log,
            log_after,
            Ok(handle),
        ),
    ensures
        after.standing@[handle.index as int] matches StandingQuery::Composition(view) && {
            &&& view.wf()
            &&& view.operation == operation
            &&& (view.left_input, view.right_input) == (left.index, right.index)
            &&& counts_rows(view.left, before.standing@[left.index as int].bag()->0)
            &&& counts_rows(view.right, before.standing@[right.index as int].bag()->0)
        },
        forall|i: int|
            0 <= i < before.standing@.len() ==> #[trigger] after.standing@[i]
                == before.standing@[i],
{
}

/// The change that the registry reports of a maintained set view takes its rows from
/// the commit before to the commit that it stands at.
pub proof fn law_reported_change_takes_rows_from_before_to_after(
    before: Database,
    after: Database,
    handle: StandingQueryHandle,
    stepped: SetView,
    sources: Seq<StandingQuery>,
    n: int,
    at: CommitSeq,
    shapes: Shapes,
    kernel: KernelEvents,
    meter: Meter,
    meter_after: Meter,
    log: Seq<Event>,
    log_after: Seq<Event>,
)
    requires
        before.standing@[handle.index as int] is Composition,
        after.standing@[handle.index as int] is Composition,
        maintains_set(
            before.standing@[handle.index as int]->Composition_0,
            stepped,
            sources,
            n,
            at,
            shapes,
            kernel,
            meter,
            meter_after,
            log,
            log_after,
            Ok::<(), StandingQueryFailure>(()),
        ),
        entered(stepped, after.standing@[handle.index as int]->Composition_0, at),
    ensures
        reported_change(after, handle) is Some,
        moved(
            before.standing@[handle.index as int].bag()->0,
            reported_change(after, handle)->0,
            after.standing@[handle.index as int].bag()->0,
        ),
{
    law_set_change_takes_rows_from_before_to_after(
        before.standing@[handle.index as int]->Composition_0, stepped, sources, n, at, shapes,
        kernel, meter, meter_after, log, log_after,
    );
}

/// A parent that took a commit in: the view before, the view after, and how.
pub struct ParentStep {
    pub view: SetView,
    pub stepped: SetView,
    pub sources: Seq<StandingQuery>,
    pub before: int,
    pub meter: Meter,
    pub meter_after: Meter,
    pub log: Seq<Event>,
    pub log_after: Seq<Event>,
}

/// The parent was maintained over the commit.
pub open spec fn stepped_at(
    parent: ParentStep,
    at: CommitSeq,
    shapes: Shapes,
    kernel: KernelEvents,
) -> bool {
    maintains_set(
        parent.view,
        parent.stepped,
        parent.sources,
        parent.before,
        at,
        shapes,
        kernel,
        parent.meter,
        parent.meter_after,
        parent.log,
        parent.log_after,
        Ok::<(), StandingQueryFailure>(()),
    )
}

/// A set view over set views that were maintained over the same commit: where its own
/// maintenance was refused, it is as it was, and a later attempt that goes well reaches
/// the state that a rebuild from its parents' current rows reaches.
pub proof fn law_refused_stacked_set_is_retried_to_the_rebuilt_set(
    view: SetView,
    between: SetView,
    after: SetView,
    rebuilt: SetView,
    left: ParentStep,
    right: ParentStep,
    sources: Seq<StandingQuery>,
    before: int,
    at: CommitSeq,
    shapes: Shapes,
    kernel: KernelEvents,
    refused: (Meter, Meter, Seq<Event>, Seq<Event>),
    retried: (Meter, Meter, Seq<Event>, Seq<Event>),
    error: StandingQueryFailure,
)
    requires
        view.wf(),
        after.wf(),
        rebuilt.wf(),
        rebuilt.operation == view.operation,
        stepped_at(left, at, shapes, kernel),
        stepped_at(right, at, shapes, kernel),
        sources[view.left_input as int] is Composition,
        sources[view.right_input as int] is Composition,
        entered(left.stepped, sources[view.left_input as int]->Composition_0, at),
        entered(right.stepped, sources[view.right_input as int]->Composition_0, at),
        counts_rows(view.left, left.view.rows),
        counts_rows(view.right, right.view.rows),
        counts_rows(rebuilt.left, left.stepped.rows),
        counts_rows(rebuilt.right, right.stepped.rows),
        maintains_set(
            view,
            between,
            sources,
            before,
            at,
            shapes,
            kernel,
            refused.0,
            refused.1,
            refused.2,
            refused.3,
            Err::<(), StandingQueryFailure>(error),
        ),
        maintains_set(
            between,
            after,
            sources,
            before,
            at,
            shapes,
            kernel,
            retried.0,
            retried.1,
            retried.2,
            retried.3,
            Ok::<(), StandingQueryFailure>(()),
        ),
    ensures
        between == view,
        after.rows.entries() == rebuilt.rows.entries(),
        after.total@ == rebuilt.total@,
        moved(view.rows, after.last_delta->0, after.rows),
{
    law_set_change_takes_rows_from_before_to_after(
        left.view, left.stepped, left.sources, left.before, at, shapes, kernel, left.meter,
        left.meter_after, left.log, left.log_after,
    );
    law_set_change_takes_rows_from_before_to_after(
        right.view, right.stepped, right.sources, right.before, at, shapes, kernel, right.meter,
        right.meter_after, right.log, right.log_after,
    );
    law_refused_set_maintenance_is_retried_to_the_rebuilt_set(
        view, between, after, rebuilt, sources, before, at, shapes, kernel, refused, retried,
        error, left.view.rows, right.view.rows, left.stepped.rows, right.stepped.rows,
    );
}

/// What a set view holds of each row, by how often its inputs hold it. A union of all
/// holds every occurrence of both. An intersection of all holds as many as both have in
/// common: no more than either, and all of one of them. A difference of all holds what is
/// left of the left input once every occurrence of the right one has cancelled one of it.
/// The distinct forms hold a row once, exactly where it belongs.
pub proof fn law_set_views_have_bag_semantics(view: SetView, row: u128)
    requires
        view.wf(),
    ensures
        ({
            let left = view.left.at(row);
            let right = view.right.at(row);
            let held = view.rows.at(row);
            &&& held >= 0
            &&& match view.operation {
                SetOperation::UnionAll => held == left + right,
                SetOperation::IntersectAll => {
                    &&& held <= left
                    &&& held <= right
                    &&& held == left || held == right
                },
                SetOperation::ExceptAll => {
                    &&& held + right >= left
                    &&& held == 0 || held + right == left
                },
                SetOperation::UnionDistinct => held <= 1 && (held == 1 <==> left + right > 0),
                SetOperation::IntersectDistinct => held <= 1 && (held == 1 <==> left > 0 && right
                    > 0),
                SetOperation::ExceptDistinct => held <= 1 && (held == 1 <==> left > 0 && !(right
                    > 0)),
            }
        }),
{
    assert(view.left.at(row) >= 0 && view.right.at(row) >= 0);
    assert(view.rows.at(row) == combined(view.operation, view.left.at(row), view.right.at(row)));
}

/// How set views over the same inputs, in either order, relate. Unions and intersections
/// do not depend on the order of their inputs. What both inputs share, with what only the
/// left one has, is the left input; with what only either has besides, it is the union.
/// The distinct forms split the distinct rows in the same way.
pub proof fn law_set_views_over_the_same_inputs(
    view: SetView,
    swapped: SetView,
    common: SetView,
    rest: SetView,
    other_rest: SetView,
    row: u128,
)
    requires
        view.wf(),
        swapped.wf(),
        common.wf(),
        rest.wf(),
        other_rest.wf(),
        counts_rows(view.left, common.left),
        counts_rows(view.right, common.right),
        counts_rows(view.left, rest.left),
        counts_rows(view.right, rest.right),
        counts_rows(view.right, other_rest.left),
        counts_rows(view.left, other_rest.right),
        counts_rows(view.right, swapped.left),
        counts_rows(view.left, swapped.right),
        swapped.operation == view.operation,
    ensures
        view.operation != SetOperation::ExceptAll && view.operation != SetOperation::ExceptDistinct
            ==> view.rows.at(row) == swapped.rows.at(row),
        common.operation == SetOperation::IntersectAll && rest.operation == SetOperation::ExceptAll
            ==> common.rows.at(row) + rest.rows.at(row) == view.left.at(row),
        view.operation == SetOperation::UnionAll && common.operation == SetOperation::IntersectAll
            && rest.operation == SetOperation::ExceptAll && other_rest.operation
            == SetOperation::ExceptAll ==> view.rows.at(row) == 2 * common.rows.at(row)
            + rest.rows.at(row) + other_rest.rows.at(row),
        view.operation == SetOperation::UnionDistinct && common.operation
            == SetOperation::IntersectDistinct && rest.operation == SetOperation::ExceptDistinct
            && other_rest.operation == SetOperation::ExceptDistinct ==> view.rows.at(row)
            == common.rows.at(row) + rest.rows.at(row) + other_rest.rows.at(row),
{
    law_set_views_have_bag_semantics(view, row);
    law_set_views_have_bag_semantics(swapped, row);
    law_set_views_have_bag_semantics(common, row);
    law_set_views_have_bag_semantics(rest, row);
    law_set_views_have_bag_semantics(other_rest, row);
    assert(common.left.at(row) == view.left.at(row));
    assert(common.right.at(row) == view.right.at(row));
    assert(rest.left.at(row) == view.left.at(row));
    assert(rest.right.at(row) == view.right.at(row));
    assert(other_rest.left.at(row) == view.right.at(row));
    assert(other_rest.right.at(row) == view.left.at(row));
    assert(swapped.left.at(row) == view.right.at(row));
    assert(swapped.right.at(row) == view.left.at(row));
}

} // verus!
