//! Plans: which questions an execution asks, in order, and what it decides once
//! all of them are granted.

use vstd::prelude::*;
use crate::errors::{LimitDimension, WriteTxnError};
use crate::session::{
    followed, lemma_followed_compose, lemma_followed_extend, lemma_ran_nothing, refused, Event,
    Request,
};

verus! {

/// Questions in order, then a refusal of its own, or none.
pub struct Plan<E> {
    pub asks: Seq<Request>,
    pub verdict: Option<E>,
}

/// Ask nothing and go on.
pub open spec fn go<E>() -> Plan<E> {
    Plan { asks: Seq::empty(), verdict: None }
}

/// Ask and go on.
pub open spec fn ask<E>(asks: Seq<Request>) -> Plan<E> {
    Plan { asks, verdict: None }
}

/// Refuse without asking.
pub open spec fn stop<E>(error: E) -> Plan<E> {
    Plan { asks: Seq::empty(), verdict: Some(error) }
}

/// Go on only when a condition holds.
pub open spec fn demand<E>(condition: bool, error: E) -> Plan<E> {
    if condition {
        go()
    } else {
        stop(error)
    }
}

impl<E> Plan<E> {
    /// First this, then, unless it refuses, the next.
    pub open spec fn and(self, next: Plan<E>) -> Plan<E> {
        if self.verdict is Some {
            self
        } else {
            Plan { asks: self.asks + next.asks, verdict: next.verdict }
        }
    }

    /// The same plan under another error type.
    pub open spec fn lift<F>(self, wrap: spec_fn(E) -> F) -> Plan<F> {
        Plan {
            asks: self.asks,
            verdict: match self.verdict {
                Some(error) => Some(wrap(error)),
                None => None,
            },
        }
    }
}

/// The first `n` steps, one after the other.
pub open spec fn upto<E>(steps: Seq<Plan<E>>, n: int) -> Plan<E>
    decreases n,
{
    if n <= 0 {
        go()
    } else {
        upto(steps, n - 1).and(steps[n - 1])
    }
}

/// All steps, one after the other.
pub open spec fn whole<E>(steps: Seq<Plan<E>>) -> Plan<E> {
    upto(steps, steps.len() as int)
}

/// The run asked what the plan says. It failed with the first refusal, or with
/// the plan's own verdict, or not at all.
pub open spec fn obeys<E>(
    before: Seq<Event>,
    after: Seq<Event>,
    plan: Plan<E>,
    wrap: spec_fn(WriteTxnError) -> E,
    failed: Option<E>,
) -> bool {
    &&& followed(before, after, plan.asks)
    &&& failed == match refused(before, after) {
        Some(error) => Some(wrap(error)),
        None => plan.verdict,
    }
}

/// Transaction errors are reported as they are.
pub open spec fn same_error() -> spec_fn(WriteTxnError) -> WriteTxnError {
    |error: WriteTxnError| error
}

/// The failure that a result reports.
pub open spec fn failure<T, E>(result: Result<T, E>) -> Option<E> {
    match result {
        Ok(_) => None,
        Err(error) => Some(error),
    }
}

pub proof fn lemma_obeys_nothing<E>(log: Seq<Event>, wrap: spec_fn(WriteTxnError) -> E)
    ensures
        obeys(log, log, go::<E>(), wrap, None),
{
    lemma_ran_nothing(log);
}

pub proof fn lemma_obeys_stop<E>(log: Seq<Event>, wrap: spec_fn(WriteTxnError) -> E, error: E)
    ensures
        obeys(log, log, stop(error), wrap, Some(error)),
{
    lemma_ran_nothing(log);
}

pub proof fn lemma_obeys_ask<E>(
    before: Seq<Event>,
    after: Seq<Event>,
    asks: Seq<Request>,
    wrap: spec_fn(WriteTxnError) -> E,
)
    requires
        followed(before, after, asks),
    ensures
        obeys(
            before,
            after,
            ask::<E>(asks),
            wrap,
            match refused(before, after) {
                Some(error) => Some(wrap(error)),
                None => None,
            },
        ),
{
}

/// Plans compose.
pub proof fn lemma_obeys_and<E>(
    first: Seq<Event>,
    middle: Seq<Event>,
    last: Seq<Event>,
    plan: Plan<E>,
    next: Plan<E>,
    wrap: spec_fn(WriteTxnError) -> E,
    failed: Option<E>,
)
    requires
        obeys(first, middle, plan, wrap, None),
        obeys(middle, last, next, wrap, failed),
    ensures
        obeys(first, last, plan.and(next), wrap, failed),
{
    lemma_followed_compose(first, middle, last, plan.asks, next.asks);
}

/// A run that failed has obeyed any continuation of its plan.
pub proof fn lemma_obeys_failed<E>(
    first: Seq<Event>,
    last: Seq<Event>,
    plan: Plan<E>,
    next: Plan<E>,
    wrap: spec_fn(WriteTxnError) -> E,
    failed: Option<E>,
)
    requires
        obeys(first, last, plan, wrap, failed),
        failed is Some,
    ensures
        obeys(first, last, plan.and(next), wrap, failed),
{
    if plan.verdict is None {
        lemma_followed_extend(first, last, plan.asks, next.asks);
    }
}

/// A run that failed among the first steps has obeyed all of them.
pub proof fn lemma_upto_failed<E>(
    first: Seq<Event>,
    last: Seq<Event>,
    steps: Seq<Plan<E>>,
    n: int,
    m: int,
    wrap: spec_fn(WriteTxnError) -> E,
    failed: Option<E>,
)
    requires
        0 <= n <= m,
        obeys(first, last, upto(steps, n), wrap, failed),
        failed is Some,
    ensures
        obeys(first, last, upto(steps, m), wrap, failed),
    decreases m - n,
{
    if n < m {
        lemma_obeys_failed(first, last, upto(steps, n), steps[n], wrap, failed);
        lemma_upto_failed(first, last, steps, n + 1, m, wrap, failed);
    }
}

/// One more step was taken.
pub proof fn lemma_step<E>(
    first: Seq<Event>,
    middle: Seq<Event>,
    last: Seq<Event>,
    steps: Seq<Plan<E>>,
    n: int,
    wrap: spec_fn(WriteTxnError) -> E,
    failed: Option<E>,
)
    requires
        0 <= n < steps.len(),
        obeys(first, middle, upto(steps, n), wrap, None),
        obeys(middle, last, steps[n], wrap, failed),
    ensures
        obeys(first, last, upto(steps, n + 1), wrap, failed),
        failed is Some || n + 1 == steps.len() ==> obeys(first, last, whole(steps), wrap, failed),
{
    lemma_obeys_and(first, middle, last, upto(steps, n), steps[n], wrap, failed);
    if failed is Some {
        lemma_upto_failed(first, last, steps, n + 1, steps.len() as int, wrap, failed);
    }
}

/// A run under one error type obeys the lifted plan under another.
pub proof fn lemma_obeys_lift<F>(
    first: Seq<Event>,
    last: Seq<Event>,
    plan: Plan<WriteTxnError>,
    wrap: spec_fn(WriteTxnError) -> F,
    failed: Option<WriteTxnError>,
)
    requires
        obeys(first, last, plan, same_error(), failed),
    ensures
        obeys(
            first,
            last,
            plan.lift(wrap),
            wrap,
            match failed {
                Some(error) => Some(wrap(error)),
                None => None,
            },
        ),
{
}

/// The same question `n` times.
pub open spec fn repeated(request: Request, n: nat) -> Seq<Request> {
    Seq::new(n, |i: int| request)
}

/// The units of a dimension that a list of questions charges.
pub open spec fn charged(asks: Seq<Request>, dimension: LimitDimension) -> nat
    decreases asks.len(),
{
    if asks.len() == 0 {
        0
    } else {
        charged(asks.drop_last(), dimension) + match asks.last() {
            Request::Charge { dimension: charged_dimension, amount } => if charged_dimension
                == dimension {
                amount as nat
            } else {
                0
            },
            _ => 0,
        }
    }
}

} // verus!
