//! Scripts: plans whose steps depend on counters that the steps themselves move.

use vstd::prelude::*;
use crate::errors::WriteTxnError;
use crate::plan::{
    go, lemma_obeys_and, lemma_obeys_failed, lemma_obeys_nothing, obeys, Plan,
};
use crate::session::Event;

verus! {

/// What a step does under given counters, and how it moves them.
#[verifier::reject_recursive_types(S)]
#[verifier::reject_recursive_types(T)]
pub struct Rule<S, T, E> {
    pub plan: spec_fn(S, T) -> Plan<E>,
    pub next: spec_fn(S, T) -> S,
}

/// The counters after a script.
pub open spec fn state_after<S, T, E>(rule: Rule<S, T, E>, state: S, script: Seq<T>) -> S
    decreases script.len(),
{
    if script.len() == 0 {
        state
    } else {
        (rule.next)(state_after(rule, state, script.drop_last()), script.last())
    }
}

/// The plan of a script that starts under given counters.
pub open spec fn script_plan<S, T, E>(rule: Rule<S, T, E>, state: S, script: Seq<T>) -> Plan<E>
    decreases script.len(),
{
    if script.len() == 0 {
        go()
    } else {
        script_plan(rule, state, script.drop_last()).and(
            (rule.plan)(state_after(rule, state, script.drop_last()), script.last()),
        )
    }
}

/// The script was performed, and moved the counters unless it failed.
pub open spec fn performs<S, T, E>(
    rule: Rule<S, T, E>,
    wrap: spec_fn(WriteTxnError) -> E,
    before: S,
    script: Seq<T>,
    after: S,
    log: Seq<Event>,
    log_after: Seq<Event>,
    failed: Option<E>,
) -> bool {
    &&& obeys(log, log_after, script_plan(rule, before, script), wrap, failed)
    &&& failed is None ==> after == state_after(rule, before, script)
}

pub proof fn lemma_performs_nothing<S, T, E>(
    rule: Rule<S, T, E>,
    wrap: spec_fn(WriteTxnError) -> E,
    state: S,
    log: Seq<Event>,
)
    ensures
        performs(rule, wrap, state, Seq::<T>::empty(), state, log, log, None),
{
    lemma_obeys_nothing(log, wrap);
}

/// A single step.
pub proof fn lemma_performs_one<S, T, E>(
    rule: Rule<S, T, E>,
    wrap: spec_fn(WriteTxnError) -> E,
    before: S,
    step: T,
    after: S,
    log: Seq<Event>,
    log_after: Seq<Event>,
    failed: Option<E>,
)
    requires
        obeys(log, log_after, (rule.plan)(before, step), wrap, failed),
        failed is None ==> after == (rule.next)(before, step),
    ensures
        performs(rule, wrap, before, seq![step], after, log, log_after, failed),
{
    let script = seq![step];
    assert(script.drop_last() =~= Seq::<T>::empty());
    lemma_obeys_nothing(log, wrap);
    lemma_obeys_and(log, log, log_after, go::<E>(), (rule.plan)(before, step), wrap, failed);
    assert(script_plan(rule, before, script.drop_last()) == go::<E>());
    assert(state_after(rule, before, script.drop_last()) == before);
}

/// Scripts compose.
pub proof fn lemma_performs_then<S, T, E>(
    rule: Rule<S, T, E>,
    wrap: spec_fn(WriteTxnError) -> E,
    before: S,
    head: Seq<T>,
    middle: S,
    tail: Seq<T>,
    after: S,
    log: Seq<Event>,
    log_middle: Seq<Event>,
    log_after: Seq<Event>,
    failed: Option<E>,
)
    requires
        performs(rule, wrap, before, head, middle, log, log_middle, None),
        performs(rule, wrap, middle, tail, after, log_middle, log_after, failed),
    ensures
        performs(rule, wrap, before, head + tail, after, log, log_after, failed),
{
    lemma_script_concat(rule, before, head, tail);
    lemma_obeys_and(
        log,
        log_middle,
        log_after,
        script_plan(rule, before, head),
        script_plan(rule, middle, tail),
        wrap,
        failed,
    );
}

proof fn lemma_and_associative<E>(first: Plan<E>, second: Plan<E>, third: Plan<E>)
    ensures
        first.and(second).and(third) == first.and(second.and(third)),
{
    assert((first.asks + second.asks) + third.asks =~= first.asks + (second.asks + third.asks));
}

/// The plan of a script in two parts. The second part counts on from the first.
pub proof fn lemma_script_concat<S, T, E>(
    rule: Rule<S, T, E>,
    state: S,
    head: Seq<T>,
    tail: Seq<T>,
)
    ensures
        state_after(rule, state, head + tail) == state_after(
            rule,
            state_after(rule, state, head),
            tail,
        ),
        script_plan(rule, state, head + tail) == script_plan(rule, state, head).and(
            script_plan(rule, state_after(rule, state, head), tail),
        ),
    decreases tail.len(),
{
    let middle = state_after(rule, state, head);
    if tail.len() == 0 {
        assert(head + tail =~= head);
        let plan = script_plan(rule, state, head);
        assert(plan.asks + Seq::empty() =~= plan.asks);
    } else {
        lemma_script_concat(rule, state, head, tail.drop_last());
        assert((head + tail).drop_last() =~= head + tail.drop_last());
        lemma_and_associative(
            script_plan(rule, state, head),
            script_plan(rule, middle, tail.drop_last()),
            (rule.plan)(state_after(rule, middle, tail.drop_last()), tail.last()),
        );
    }
}

/// A script that failed has performed any continuation of it.
pub proof fn lemma_performs_failed<S, T, E>(
    rule: Rule<S, T, E>,
    wrap: spec_fn(WriteTxnError) -> E,
    before: S,
    script: Seq<T>,
    full: Seq<T>,
    after: S,
    log: Seq<Event>,
    log_after: Seq<Event>,
    failed: Option<E>,
)
    requires
        performs(rule, wrap, before, script, after, log, log_after, failed),
        failed is Some,
        script.is_prefix_of(full),
    ensures
        performs(rule, wrap, before, full, after, log, log_after, failed),
{
    let rest = full.skip(script.len() as int);
    assert(script + rest =~= full);
    lemma_script_concat(rule, before, script, rest);
    lemma_obeys_failed(
        log,
        log_after,
        script_plan(rule, before, script),
        script_plan(rule, state_after(rule, before, script), rest),
        wrap,
        failed,
    );
}

/// The script failed in step `k`, which left what the steps before it reached.
pub open spec fn fails_at<S, T, E>(
    rule: Rule<S, T, E>,
    wrap: spec_fn(WriteTxnError) -> E,
    before: S,
    script: Seq<T>,
    k: int,
    reached: S,
    log: Seq<Event>,
    log_after: Seq<Event>,
    failed: Option<E>,
) -> bool {
    &&& 0 <= k < script.len()
    &&& obeys(log, log_after, script_plan(rule, before, script.take(k + 1)), wrap, failed)
    &&& reached == state_after(rule, before, script.take(k))
}

/// The script was carried out, or it failed in one step after the steps before it
/// were carried out.
pub open spec fn carries_out<S, T, E>(
    rule: Rule<S, T, E>,
    wrap: spec_fn(WriteTxnError) -> E,
    before: S,
    script: Seq<T>,
    reached: S,
    log: Seq<Event>,
    log_after: Seq<Event>,
    failed: Option<E>,
) -> bool {
    match failed {
        None => performs(rule, wrap, before, script, reached, log, log_after, None),
        Some(_) => exists|k: int| #[trigger]
            fails_at(rule, wrap, before, script, k, reached, log, log_after, failed),
    }
}

/// A single step, which changes nothing when it fails.
pub proof fn lemma_carries_one<S, T, E>(
    rule: Rule<S, T, E>,
    wrap: spec_fn(WriteTxnError) -> E,
    before: S,
    step: T,
    reached: S,
    log: Seq<Event>,
    log_after: Seq<Event>,
    failed: Option<E>,
)
    requires
        obeys(log, log_after, (rule.plan)(before, step), wrap, failed),
        reached == (if failed is None {
            (rule.next)(before, step)
        } else {
            before
        }),
    ensures
        carries_out(rule, wrap, before, seq![step], reached, log, log_after, failed),
{
    lemma_performs_one(rule, wrap, before, step, reached, log, log_after, failed);
    if failed is Some {
        assert(seq![step].take(1) =~= seq![step]);
        assert(seq![step].take(0) =~= Seq::<T>::empty());
        assert(fails_at(rule, wrap, before, seq![step], 0, reached, log, log_after, failed));
    }
}

/// Scripts compose.
pub proof fn lemma_carries_then<S, T, E>(
    rule: Rule<S, T, E>,
    wrap: spec_fn(WriteTxnError) -> E,
    before: S,
    head: Seq<T>,
    middle: S,
    tail: Seq<T>,
    reached: S,
    log: Seq<Event>,
    log_middle: Seq<Event>,
    log_after: Seq<Event>,
    failed: Option<E>,
)
    requires
        carries_out(rule, wrap, before, head, middle, log, log_middle, None),
        carries_out(rule, wrap, middle, tail, reached, log_middle, log_after, failed),
    ensures
        carries_out(rule, wrap, before, head + tail, reached, log, log_after, failed),
{
    let full = head + tail;
    if failed is None {
        lemma_performs_then(
            rule, wrap, before, head, middle, tail, reached, log, log_middle, log_after, failed,
        );
    } else {
        let k = choose|k: int| #[trigger]
            fails_at(rule, wrap, middle, tail, k, reached, log_middle, log_after, failed);
        let at = head.len() + k;
        assert(full.take(at + 1) =~= head + tail.take(k + 1));
        assert(full.take(at) =~= head + tail.take(k));
        lemma_performs_then(
            rule, wrap, before, head, middle, tail.take(k + 1), reached, log, log_middle,
            log_after, failed,
        );
        lemma_script_concat(rule, before, head, tail.take(k));
        assert(fails_at(rule, wrap, before, full, at, reached, log, log_after, failed));
    }
}

/// A script that failed has failed in any continuation of it.
pub proof fn lemma_carries_failed<S, T, E>(
    rule: Rule<S, T, E>,
    wrap: spec_fn(WriteTxnError) -> E,
    before: S,
    script: Seq<T>,
    full: Seq<T>,
    reached: S,
    log: Seq<Event>,
    log_after: Seq<Event>,
    failed: Option<E>,
)
    requires
        carries_out(rule, wrap, before, script, reached, log, log_after, failed),
        failed is Some,
        script.is_prefix_of(full),
    ensures
        carries_out(rule, wrap, before, full, reached, log, log_after, failed),
{
    let k = choose|k: int| #[trigger]
        fails_at(rule, wrap, before, script, k, reached, log, log_after, failed);
    lemma_take_prefix(script, full, k + 1);
    lemma_take_prefix(script, full, k);
    assert(fails_at(rule, wrap, before, full, k, reached, log, log_after, failed));
}

proof fn lemma_take_prefix<T>(script: Seq<T>, full: Seq<T>, n: int)
    requires
        script.is_prefix_of(full),
        0 <= n <= script.len(),
    ensures
        full.take(n) == script.take(n),
{
    assert forall|i: int| 0 <= i < n implies full[i] == script[i] by {
        assert(full.subrange(0, script.len() as int)[i] == script[i]);
    }
    assert(full.take(n) =~= script.take(n));
}

/// A concatenation starts with its first part.
pub proof fn lemma_prefix_concat<T>(head: Seq<T>, tail: Seq<T>)
    ensures
        head.is_prefix_of(head + tail),
{
    assert(head =~= (head + tail).subrange(0, head.len() as int));
}

pub proof fn lemma_prefix_transitive<T>(first: Seq<T>, second: Seq<T>, third: Seq<T>)
    requires
        first.is_prefix_of(second),
        second.is_prefix_of(third),
    ensures
        first.is_prefix_of(third),
{
    assert forall|i: int| 0 <= i < first.len() implies first[i] == third[i] by {
        assert(first[i] == second.subrange(0, first.len() as int)[i]);
        assert(second[i] == third.subrange(0, second.len() as int)[i]);
    }
    assert(first =~= third.subrange(0, first.len() as int));
}

} // verus!
