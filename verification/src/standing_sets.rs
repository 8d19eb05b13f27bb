//! Set views: UNION, INTERSECT and EXCEPT over two maintained row bags.
//!
//! A view keeps the counts of both inputs, its result and the result's total. A
//! change to either input is derived, paid for and bounded before any of them
//! moves.

use vstd::prelude::*;
use crate::ids::CommitSeq;
use crate::plan::failure;
use crate::session::{Event, Host, Session};
use crate::standing::{
    bound_fault, chain, change_script, charge_rows, event_script, lemma_meters_nothing, lemma_part,
    lemma_unless_fault, meters, reserve_rows, result_bound, unless_fault, work_unit, works, Charge,
    Meter, Reserve, Shapes, StandingQueryFailure, StandingQueryStats, ZSetEvent,
};
use crate::statement::QueryPolicy;
use crate::weight::{fits, lemma_reach, Weight};
use crate::zset::{lemma_weight_at, listed, ZSet};

verus! {

/// A set operation, with its bag semantics.
#[derive(Clone, Copy, PartialEq, Eq, Structural, Debug)]
pub enum SetOperation {
    UnionAll,
    UnionDistinct,
    IntersectAll,
    IntersectDistinct,
    ExceptAll,
    ExceptDistinct,
}

/// The domain of a result column.
#[derive(Clone, Copy, PartialEq, Eq, Structural, Debug)]
pub enum GraphSetColumnType {
    Scalar,
    Vertex,
}

/// The multiplicity of a row that occurs `left` and `right` times in the inputs.
pub open spec fn combined(operation: SetOperation, left: int, right: int) -> int {
    match operation {
        SetOperation::UnionAll => left + right,
        SetOperation::UnionDistinct => if left > 0 || right > 0 {
            1
        } else {
            0
        },
        SetOperation::IntersectAll => if left < right {
            left
        } else {
            right
        },
        SetOperation::IntersectDistinct => if left > 0 && right > 0 {
            1
        } else {
            0
        },
        SetOperation::ExceptAll => if left > right {
            left - right
        } else {
            0
        },
        SetOperation::ExceptDistinct => if left > 0 && right == 0 {
            1
        } else {
            0
        },
    }
}

/// What the algebra charges for its own steps, in order.
pub struct KernelEvents {
    pub input: Vec<ZSetEvent>,
    pub total: Vec<ZSetEvent>,
    pub sink: Vec<ZSetEvent>,
}

/// A maintained set view.
pub struct SetView {
    pub left_input: usize,
    pub right_input: usize,
    pub columns: Vec<String>,
    pub types: Vec<GraphSetColumnType>,
    pub operation: SetOperation,
    pub left: ZSet<u128>,
    pub right: ZSet<u128>,
    pub rows: ZSet<u128>,
    pub total: Weight,
    pub last_delta: Option<ZSet<u128>>,
    pub policy: QueryPolicy,
    pub frontier: CommitSeq,
    pub stats: StandingQueryStats,
    pub failure: Option<StandingQueryFailure>,
}

/// A prepared change. Dropping it preserves both accepted inputs and the output.
#[must_use]
pub struct SetUpdate {
    pub delta: ZSet<u128>,
    pub next_total: Weight,
}

/// A change after its sum with the counts is negative somewhere.
pub open spec fn undercuts(counts: ZSet<u128>, change: ZSet<u128>) -> bool {
    exists|row: u128| #[trigger] counts.at(row) + change.at(row) < 0
}

impl SetView {
    /// The result holds what the inputs combine to, and the total counts it.
    pub open spec fn wf(&self) -> bool {
        &&& self.left.wf()
        &&& self.right.wf()
        &&& self.rows.wf()
        &&& self.left.positive()
        &&& self.right.positive()
        &&& forall|row: u128| #[trigger]
            self.rows.at(row) == combined(
                self.operation,
                self.left.at(row),
                self.right.at(row),
            )
        &&& self.total@ == self.rows.sum()
        &&& match self.last_delta {
            Some(delta) => delta.wf(),
            None => true,
        }
    }

    /// The multiplicity of a row once both changes are in.
    pub open spec fn after(&self, left: ZSet<u128>, right: ZSet<u128>, row: u128) -> int {
        combined(
            self.operation,
            self.left.at(row) + left.at(row),
            self.right.at(row) + right.at(row),
        )
    }

    /// Why two changes cannot be taken in: a count below zero, or one too large.
    pub open spec fn input_fault(&self, left: ZSet<u128>, right: ZSet<u128>) -> Option<
        StandingQueryFailure,
    > {
        if undercuts(self.left, left) || undercuts(self.right, right) {
            Some(StandingQueryFailure::InvalidDelta)
        } else if !self.left.accepts(left) || !self.right.accepts(right) || exists|row: u128|
            !fits(#[trigger] self.after(left, right, row)) {
            Some(StandingQueryFailure::Arithmetic)
        } else {
            None
        }
    }

    /// The change of the result.
    pub open spec fn derives(
        &self,
        left: ZSet<u128>,
        right: ZSet<u128>,
        delta: ZSet<u128>,
    ) -> bool {
        &&& delta.wf()
        &&& forall|row: u128| #[trigger]
            delta.at(row) == self.after(left, right, row) - self.rows.at(row)
    }

    /// The view with both changes and the prepared update in.
    pub open spec fn updated(
        &self,
        left: ZSet<u128>,
        right: ZSet<u128>,
        update: SetUpdate,
        after: SetView,
    ) -> bool {
        &&& after.left_input == self.left_input
        &&& after.right_input == self.right_input
        &&& after.columns == self.columns
        &&& after.types == self.types
        &&& after.operation == self.operation
        &&& after.policy == self.policy
        &&& after.frontier == self.frontier
        &&& after.stats == self.stats
        &&& after.failure == self.failure
        &&& after.last_delta == Some(update.delta)
        &&& after.total == update.next_total
        &&& forall|row: u128| #[trigger]
            after.left.at(row) == self.left.at(row) + left.at(row)
        &&& forall|row: u128| #[trigger]
            after.right.at(row) == self.right.at(row) + right.at(row)
        &&& forall|row: u128| #[trigger]
            after.rows.at(row) == self.rows.at(row) + update.delta.at(row)
    }
}

/// What happens before the change of the result is known.
pub open spec fn input_parts(
    view: SetView,
    left: ZSet<u128>,
    right: ZSet<u128>,
    shapes: Shapes,
    kernel: KernelEvents,
) -> Seq<Seq<Charge>> {
    let reserve = Reserve { work: true, twice: true };
    seq![
        change_script(shapes, left, reserve),
        change_script(shapes, right, reserve),
        event_script(kernel.input@),
        unless_fault(view.input_fault(left, right)),
    ]
}

/// The refusal of a total that cannot be counted.
pub open spec fn total_fault(delta: ZSet<u128>) -> Option<StandingQueryFailure> {
    if delta.countable() {
        None
    } else {
        Some(StandingQueryFailure::Arithmetic)
    }
}

/// What happens once the change of the result is known.
pub open spec fn output_parts(
    view: SetView,
    delta: ZSet<u128>,
    policy: QueryPolicy,
    shapes: Shapes,
    kernel: KernelEvents,
) -> Seq<Seq<Charge>> {
    seq![
        event_script(kernel.total@),
        unless_fault(total_fault(delta)),
        work_unit(),
        unless_fault(bound_fault(view.total@ + delta.sum(), policy)),
        change_script(shapes, delta, Reserve { work: false, twice: false }),
        event_script(kernel.sink@),
        works(delta.entries().len()),
        seq![Charge::Poll],
    ]
}

/// How a change is prepared: it fails before the result's change is known, or that
/// change is derived, paid for and bounded.
pub open spec fn prepares_set(
    view: SetView,
    left: ZSet<u128>,
    right: ZSet<u128>,
    shapes: Shapes,
    kernel: KernelEvents,
    meter: Meter,
    meter_after: Meter,
    log: Seq<Event>,
    log_after: Seq<Event>,
    prepared: Result<SetUpdate, StandingQueryFailure>,
) -> bool {
    let lead = chain(input_parts(view, left, right, shapes, kernel));
    ||| prepared is Err && meters(meter, lead, meter_after, log, log_after, failure(prepared))
    ||| exists|delta: ZSet<u128>, middle: Meter, log_middle: Seq<Event>|
        #![trigger view.derives(left, right, delta), meters(meter, lead, middle, log, log_middle, None)]
        {
            &&& view.derives(left, right, delta)
            &&& view.input_fault(left, right) is None
            &&& meters(meter, lead, middle, log, log_middle, None)
            &&& meters(
                middle,
                chain(output_parts(view, delta, meter.policy, shapes, kernel)),
                meter_after,
                log_middle,
                log_after,
                failure(prepared),
            )
            &&& prepared is Ok ==> prepared->Ok_0.delta == delta && prepared->Ok_0.next_total@
                == view.total@ + delta.sum() && fits(view.total@ + delta.sum())
        }
}

/// Whether a sum is negative somewhere, and whether it does not fit somewhere.
fn check_counts(counts: &ZSet<u128>, change: &ZSet<u128>) -> (found: (bool, bool))
    requires
        counts.wf(),
        change.wf(),
        counts.positive(),
    ensures
        found.0 == undercuts(*counts, *change),
        found.1 == !counts.accepts(*change),
{
    let mut negative = false;
    let mut large = false;
    let ghost entries = change.entries();
    let mut i: usize = 0;
    while i < change.len()
        invariant
            i <= entries.len(),
            entries == change.entries(),
            counts.wf(),
            change.wf(),
            counts.positive(),
            negative ==> undercuts(*counts, *change),
            large ==> !counts.accepts(*change),
            forall|j: int|
                0 <= j < i ==> {
                    let key = (#[trigger] entries[j]).0;
                    &&& !negative ==> counts.at(key) + change.at(key) >= 0
                    &&& !large ==> fits(counts.at(key) + change.at(key))
                },
        decreases entries.len() - i,
    {
        let (row, weight) = change.entry(i);
        let count: Weight = counts.weight(row);
        proof {
            lemma_weight_at(entries, i as int);
            assert(counts.at(row) >= 0);
        }
        match count.checked_add(weight) {
            Some(next) => {
                assert(fits(counts.at(row) + change.at(row)));
                if next.is_negative() {
                    negative = true;
                    assert(counts.at(row) + change.at(row) < 0);
                }
            },
            None => {
                large = true;
                assert(!fits(counts.at(row) + change.at(row)));
            },
        }
        i += 1;
    }
    proof {
        assert forall|row: u128| !negative implies #[trigger] counts.at(row) + change.at(row)
            >= 0 by {
            if listed(entries, row) {
                let j = choose|j: int| 0 <= j < entries.len() && (#[trigger] entries[j]).0 == row;
                assert(entries[j].0 == row);
            } else {
                assert(counts.at(row) >= 0);
            }
        }
        assert forall|row: u128| !large implies fits(#[trigger] counts.at(row) + change.at(row)) by {
            if listed(entries, row) {
                let j = choose|j: int| 0 <= j < entries.len() && (#[trigger] entries[j]).0 == row;
                assert(entries[j].0 == row);
            } else {
                counts.lemma_fits(row);
            }
        }
    }
    (negative, large)
}

/// The multiplicity of a row, unless it does not fit.
fn combine(operation: SetOperation, left: Weight, right: Weight) -> (weight: Option<Weight>)
    requires
        left@ >= 0,
        right@ >= 0,
        fits(left@),
        fits(right@),
    ensures
        match weight {
            Some(found) => found@ == combined(operation, left@, right@) && fits(found@),
            None => !fits(combined(operation, left@, right@)),
        },
{
    let zero = Weight::zero();
    let one = Weight::one();
    let some_left = !left.is_zero();
    let some_right = !right.is_zero();
    proof {
        lemma_reach();
    }
    match operation {
        SetOperation::UnionAll => left.checked_add(right),
        SetOperation::UnionDistinct => Some(if some_left || some_right { one } else { zero }),
        SetOperation::IntersectAll => Some(if left.is_less(right) { left } else { right }),
        SetOperation::IntersectDistinct => Some(if some_left && some_right { one } else { zero }),
        SetOperation::ExceptAll => if right.is_less(left) { left.checked_sub(right) } else { Some(zero) },
        SetOperation::ExceptDistinct => Some(if some_left && !some_right { one } else { zero }),
    }
}

impl SetView {
    /// Add the change of the rows that one side touches.
    fn derive_side(
        &self,
        side: &ZSet<u128>,
        left: &ZSet<u128>,
        right: &ZSet<u128>,
        delta: &mut ZSet<u128>,
    ) -> (fit: bool)
        requires
            self.wf(),
            side.wf(),
            left.wf(),
            right.wf(),
            old(delta).wf(),
            self.left.accepts(*left),
            self.right.accepts(*right),
            !undercuts(self.left, *left),
            !undercuts(self.right, *right),
        ensures
            final(delta).wf(),
            !fit ==> exists|row: u128| !fits(#[trigger] self.after(*left, *right, row)),
            fit ==> forall|row: u128|
                listed(side.entries(), row) ==> fits(#[trigger] self.after(*left, *right, row)),
            fit ==> forall|row: u128| #[trigger]
                final(delta).at(row) == (if listed(side.entries(), row) {
                    self.after(*left, *right, row) - self.rows.at(row)
                } else {
                    old(delta).at(row)
                }),
    {
        let ghost entries = side.entries();
        let ghost start = *delta;
        let mut i: usize = 0;
        while i < side.len()
            invariant
                i <= entries.len(),
                entries == side.entries(),
                self.wf(),
                side.wf(),
                left.wf(),
                right.wf(),
                delta.wf(),
                start == *old(delta),
                self.left.accepts(*left),
                self.right.accepts(*right),
                !undercuts(self.left, *left),
                !undercuts(self.right, *right),
                forall|row: u128|
                    listed(entries.take(i as int), row) ==> fits(
                        #[trigger] self.after(*left, *right, row),
                    ),
                forall|row: u128| #[trigger]
                    delta.at(row) == (if listed(entries.take(i as int), row) {
                        self.after(*left, *right, row) - self.rows.at(row)
                    } else {
                        start.at(row)
                    }),
            decreases entries.len() - i,
        {
            let (row, _) = side.entry(i);
            proof {
                assert(fits(self.left.at(row) + left.at(row)));
                assert(fits(self.right.at(row) + right.at(row)));
                assert(self.left.at(row) + left.at(row) >= 0);
                assert(self.right.at(row) + right.at(row) >= 0);
                assert(self.left.at(row) >= 0 && self.right.at(row) >= 0);
                assert forall|other: u128| #[trigger]
                    listed(entries.take(i + 1), other) == (other == row || listed(
                        entries.take(i as int),
                        other,
                    )) by {
                    if listed(entries.take(i + 1), other) {
                        let j = choose|j: int|
                            0 <= j < i + 1 && (#[trigger] entries.take(i + 1)[j]).0 == other;
                        if j < i {
                            assert(entries.take(i as int)[j].0 == other);
                        }
                    }
                    if listed(entries.take(i as int), other) {
                        let j = choose|j: int|
                            0 <= j < i && (#[trigger] entries.take(i as int)[j]).0 == other;
                        assert(entries.take(i + 1)[j].0 == other);
                    }
                    assert(entries.take(i + 1)[i as int].0 == row);
                }
            }
            let sums = (
                self.left.weight(row).checked_add(left.weight(row)),
                self.right.weight(row).checked_add(right.weight(row)),
            );
            let (next_left, next_right) = match sums {
                (Some(next_left), Some(next_right)) => (next_left, next_right),
                _ => {
                    assert(false);
                    return false;
                },
            };
            let next: Weight = match combine(self.operation, next_left, next_right) {
                Some(next) => next,
                None => {
                    assert(!fits(self.after(*left, *right, row)));
                    return false;
                },
            };
            let current: Weight = self.rows.weight(row);
            assert(0 <= next@ && 0 <= current@);
            match next.checked_sub(current) {
                Some(change) => {
                    delta.assign(row, change);
                },
                None => {
                    assert(false);
                },
            }
            i += 1;
        }
        proof {
            assert(entries.take(i as int) =~= entries);
        }
        true
    }

    /// The change of the result, or why the inputs refuse it.
    fn derive(&self, left: &ZSet<u128>, right: &ZSet<u128>) -> (derived: Result<
        ZSet<u128>,
        StandingQueryFailure,
    >)
        requires
            self.wf(),
            left.wf(),
            right.wf(),
        ensures
            match derived {
                Ok(delta) => self.input_fault(*left, *right) is None && self.derives(
                    *left,
                    *right,
                    delta,
                ),
                Err(error) => self.input_fault(*left, *right) == Some(error),
            },
    {
        let (left_under, left_large) = check_counts(&self.left, left);
        let (right_under, right_large) = check_counts(&self.right, right);
        if left_under || right_under {
            return Err(StandingQueryFailure::InvalidDelta);
        }
        if left_large || right_large {
            return Err(StandingQueryFailure::Arithmetic);
        }
        let mut delta: ZSet<u128> = ZSet::new();
        if !self.derive_side(left, left, right, &mut delta) {
            return Err(StandingQueryFailure::Arithmetic);
        }
        if !self.derive_side(right, left, right, &mut delta) {
            return Err(StandingQueryFailure::Arithmetic);
        }
        proof {
            assert forall|row: u128| fits(#[trigger] self.after(*left, *right, row)) && delta.at(row)
                == self.after(*left, *right, row) - self.rows.at(row) by {
                if !listed(left.entries(), row) && !listed(right.entries(), row) {
                    assert(left.at(row) == 0 && right.at(row) == 0);
                    assert(self.after(*left, *right, row) == self.rows.at(row));
                    self.rows.lemma_fits(row);
                }
            }
            assert forall|row: u128| #[trigger]
                delta.at(row) == self.after(*left, *right, row) - self.rows.at(row) by {
                assert(fits(self.after(*left, *right, row)));
            }
        }
        Ok(delta)
    }

    /// Prepare a change of both inputs without moving anything.
    pub fn prepare<H: Host>(
        &self,
        left: &ZSet<u128>,
        right: &ZSet<u128>,
        shapes: &Shapes,
        kernel: &KernelEvents,
        meter: &mut Meter,
        session: &mut Session<H>,
    ) -> (prepared: Result<SetUpdate, StandingQueryFailure>)
        requires
            self.wf(),
            left.wf(),
            right.wf(),
            shapes.wf(),
        ensures
            final(session).metered() == old(session).metered(),
            final(meter).policy == old(meter).policy,
            prepares_set(
                *self,
                *left,
                *right,
                *shapes,
                *kernel,
                *old(meter),
                *final(meter),
                old(session).log(),
                final(session).log(),
                prepared,
            ),
    {
        let ghost start = session.log();
        let ghost before = *meter;
        let ghost parts = input_parts(*self, *left, *right, *shapes, *kernel);
        let reserve = Reserve { work: true, twice: true };
        proof {
            lemma_meters_nothing(before, start);
        }
        let paid = reserve_rows(shapes, left, reserve, meter, session);
        let ghost meter1 = *meter;
        let ghost log1 = session.log();
        proof {
            lemma_part(before, parts, 0, before, meter1, start, start, log1, failure(paid));
        }
        if let Err(error) = paid {
            return Err(error);
        }
        let paid = reserve_rows(shapes, right, reserve, meter, session);
        let ghost meter2 = *meter;
        let ghost log2 = session.log();
        proof {
            lemma_part(before, parts, 1, meter1, meter2, start, log1, log2, failure(paid));
        }
        if let Err(error) = paid {
            return Err(error);
        }
        let paid = meter.charge_all(&kernel.input, session);
        let ghost meter3 = *meter;
        let ghost log3 = session.log();
        proof {
            lemma_part(before, parts, 2, meter2, meter3, start, log2, log3, failure(paid));
        }
        if let Err(error) = paid {
            return Err(error);
        }
        proof {
            lemma_unless_fault(meter3, log3, self.input_fault(*left, *right));
            lemma_part(
                before, parts, 3, meter3, meter3, start, log3, log3,
                self.input_fault(*left, *right),
            );
        }
        let delta = match self.derive(left, right) {
            Ok(delta) => delta,
            Err(error) => return Err(error),
        };
        let ghost output = output_parts(*self, delta, before.policy, *shapes, *kernel);
        assert(self.derives(*left, *right, delta));
        assert(meters(before, chain(parts), meter3, start, log3, None));
        let done = self.admit_change(&delta, shapes, kernel, meter, session);
        match done {
            Ok(next_total) => Ok(SetUpdate { delta, next_total }),
            Err(error) => Err(error),
        }
    }

    /// Pay for and bound the change of the result. The next total comes back.
    fn admit_change<H: Host>(
        &self,
        delta: &ZSet<u128>,
        shapes: &Shapes,
        kernel: &KernelEvents,
        meter: &mut Meter,
        session: &mut Session<H>,
    ) -> (done: Result<Weight, StandingQueryFailure>)
        requires
            self.wf(),
            delta.wf(),
            shapes.wf(),
        ensures
            final(session).metered() == old(session).metered(),
            meters(
                *old(meter),
                chain(output_parts(*self, *delta, old(meter).policy, *shapes, *kernel)),
                *final(meter),
                old(session).log(),
                final(session).log(),
                failure(done),
            ),
            match done {
                Ok(total) => total@ == self.total@ + delta.sum() && fits(total@),
                Err(_) => true,
            },
    {
        let ghost start = session.log();
        let ghost before = *meter;
        let ghost parts = output_parts(*self, *delta, before.policy, *shapes, *kernel);
        proof {
            lemma_meters_nothing(before, start);
        }
        let paid = meter.charge_all(&kernel.total, session);
        let ghost meter1 = *meter;
        let ghost log1 = session.log();
        proof {
            lemma_part(before, parts, 0, before, meter1, start, start, log1, failure(paid));
        }
        if let Err(error) = paid {
            return Err(error);
        }
        proof {
            lemma_unless_fault(meter1, log1, total_fault(*delta));
            lemma_part(before, parts, 1, meter1, meter1, start, log1, log1, total_fault(*delta));
        }
        let change: Weight = match delta.total_weight() {
            Some(change) => change,
            None => return Err(StandingQueryFailure::Arithmetic),
        };
        let paid = meter.charge(ZSetEvent::Work, session);
        let ghost meter2 = *meter;
        let ghost log2 = session.log();
        proof {
            lemma_part(before, parts, 2, meter1, meter2, start, log1, log2, failure(paid));
        }
        if let Err(error) = paid {
            return Err(error);
        }
        let ghost fault = bound_fault(self.total@ + delta.sum(), before.policy);
        proof {
            lemma_unless_fault(meter2, log2, fault);
            lemma_part(before, parts, 3, meter2, meter2, start, log2, log2, fault);
        }
        let next_total: Weight = match self.total.checked_add(change) {
            Some(next_total) => next_total,
            None => return Err(StandingQueryFailure::Arithmetic),
        };
        if let Err(error) = result_bound(next_total, meter.policy) {
            return Err(error);
        }
        let paid = reserve_rows(
            shapes,
            delta,
            Reserve { work: false, twice: false },
            meter,
            session,
        );
        let ghost meter3 = *meter;
        let ghost log3 = session.log();
        proof {
            lemma_part(before, parts, 4, meter2, meter3, start, log2, log3, failure(paid));
        }
        if let Err(error) = paid {
            return Err(error);
        }
        let paid = meter.charge_all(&kernel.sink, session);
        let ghost meter4 = *meter;
        let ghost log4 = session.log();
        proof {
            lemma_part(before, parts, 5, meter3, meter4, start, log3, log4, failure(paid));
        }
        if let Err(error) = paid {
            return Err(error);
        }
        let paid = charge_rows(delta.len(), meter, session);
        let ghost meter5 = *meter;
        let ghost log5 = session.log();
        proof {
            lemma_part(before, parts, 6, meter4, meter5, start, log4, log5, failure(paid));
        }
        if let Err(error) = paid {
            return Err(error);
        }
        let polled = meter.checkpoint(session);
        proof {
            lemma_part(
                before, parts, 7, meter5, meter5, start, log5, session.log(), failure(polled),
            );
        }
        match polled {
            Ok(()) => Ok(next_total),
            Err(error) => Err(error),
        }
    }

    /// Put a prepared change in: both inputs, the result, its total and the latest
    /// change move together.
    pub fn commit(&mut self, left: &ZSet<u128>, right: &ZSet<u128>, update: SetUpdate)
        requires
            old(self).wf(),
            left.wf(),
            right.wf(),
            old(self).input_fault(*left, *right) is None,
            old(self).derives(*left, *right, update.delta),
            update.next_total@ == old(self).total@ + update.delta.sum(),
        ensures
            final(self).wf(),
            old(self).updated(*left, *right, update, *final(self)),
    {
        let ghost before = *self;
        proof {
            assert forall|row: u128| fits(#[trigger] self.rows.at(row) + update.delta.at(row)) by {
                assert(update.delta.at(row) == self.after(*left, *right, row) - self.rows.at(row));
                assert(fits(self.after(*left, *right, row)));
            }
        }
        self.left.accumulate(left);
        self.right.accumulate(right);
        self.rows.accumulate(&update.delta);
        self.total = update.next_total;
        self.last_delta = Some(update.delta);
        proof {
            assert forall|row: u128| #[trigger] self.left.at(row) >= 0 by {
                assert(before.left.at(row) + left.at(row) >= 0);
            }
            assert forall|row: u128| #[trigger] self.right.at(row) >= 0 by {
                assert(before.right.at(row) + right.at(row) >= 0);
            }
            assert forall|row: u128| #[trigger]
                self.rows.at(row) == combined(
                    self.operation,
                    self.left.at(row),
                    self.right.at(row),
                ) by {
                assert(update.delta.at(row) == before.after(*left, *right, row) - before.rows.at(
                    row,
                ));
            }
        }
    }
}

} // verus!
