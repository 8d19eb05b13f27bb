//! Governed statements: cancellation and native limits, counted step by step.

use vstd::prelude::*;
use crate::errors::WriteTxnError;
use crate::plan::{
    ask, failure, lemma_obeys_and, lemma_obeys_ask, lemma_obeys_failed, lemma_obeys_nothing,
    lemma_obeys_stop, stop,
};
use crate::script::{
    lemma_performs_failed, lemma_performs_nothing, lemma_performs_one, lemma_performs_then, performs,
    Rule,
};
use crate::session::{followed, outcome, work_plan, Event, Host, Request, Session};
use crate::statement::{
    count_event, counted, event_excess, interrupted, verdict, Fault, GlaExecutionEvent, QueryPolicy,
    QueryStats,
};

verus! {

/// One step of a governed statement.
pub enum Step {
    /// Ask, then count one event.
    Count(GlaExecutionEvent),
    /// Ask.
    Poll,
    /// Refuse.
    Refuse(Fault),
}

/// What one step asks of the host before it counts.
pub open spec fn step_asks(policy: QueryPolicy) -> Seq<Request> {
    if policy.signed {
        seq![Request::PollQuery] + work_plan(1)
    } else {
        seq![Request::PollQuery]
    }
}

/// Ask for one step.
fn pay_step<H: Host>(policy: QueryPolicy, session: &mut Session<H>) -> (paid: Result<
    (),
    WriteTxnError,
>)
    ensures
        final(session).metered() == old(session).metered(),
        followed(old(session).log(), final(session).log(), step_asks(policy)),
        paid == outcome(old(session).log(), final(session).log(), Ok::<(), WriteTxnError>(())),
{
    if policy.signed {
        session.query_work()
    } else {
        session.poll_query()
    }
}

/// How a governed statement counts: cancellation first, then its native limits.
pub open spec fn governed(policy: QueryPolicy) -> Rule<QueryStats, Step, Fault> {
    Rule {
        plan: |stats: QueryStats, step: Step|
            match step {
                Step::Count(event) => ask::<Fault>(step_asks(policy)).and(
                    verdict(event_excess(stats, policy, event)),
                ),
                Step::Poll => ask::<Fault>(step_asks(policy)),
                Step::Refuse(fault) => stop(fault),
            },
        next: |stats: QueryStats, step: Step|
            match step {
                Step::Count(event) => counted(stats, event),
                _ => stats,
            },
    }
}

/// The script was performed under the governed rule.
pub open spec fn governs(
    policy: QueryPolicy,
    before: QueryStats,
    script: Seq<Step>,
    after: QueryStats,
    log: Seq<Event>,
    log_after: Seq<Event>,
    failed: Option<Fault>,
) -> bool {
    performs(governed(policy), interrupted(), before, script, after, log, log_after, failed)
}

/// Ask, then count one event.
pub fn event<H: Host>(
    stats: &mut QueryStats,
    policy: QueryPolicy,
    session: &mut Session<H>,
    kind: GlaExecutionEvent,
) -> (done: Result<(), Fault>)
    ensures
        final(session).metered() == old(session).metered(),
        governs(
            policy,
            *old(stats),
            seq![Step::Count(kind)],
            *final(stats),
            old(session).log(),
            final(session).log(),
            failure(done),
        ),
{
    let ghost start = session.log();
    let ghost before = *stats;
    let ghost excess = event_excess(before, policy, kind);
    let ghost step = Step::Count(kind);
    let polled = pay_step(policy, session);
    let ghost middle = session.log();
    proof {
        lemma_obeys_ask(start, middle, step_asks(policy), interrupted());
    }
    if let Err(error) = polled {
        proof {
            lemma_obeys_failed(
                start,
                middle,
                ask(step_asks(policy)),
                verdict(excess),
                interrupted(),
                Some(Fault::Interrupted(error)),
            );
            lemma_performs_one(
                governed(policy),
                interrupted(),
                before,
                step,
                *stats,
                start,
                middle,
                Some(Fault::Interrupted(error)),
            );
        }
        return Err(Fault::Interrupted(error));
    }
    let done = count_event(stats, policy, kind);
    proof {
        lemma_obeys_nothing(middle, interrupted());
        if excess is Some {
            lemma_obeys_stop(middle, interrupted(), excess->0);
        }
        lemma_obeys_and(
            start,
            middle,
            middle,
            ask(step_asks(policy)),
            verdict(excess),
            interrupted(),
            failure(done),
        );
        lemma_performs_one(
            governed(policy),
            interrupted(),
            before,
            step,
            *stats,
            start,
            middle,
            failure(done),
        );
    }
    done
}

/// Poll the query.
pub fn checkpoint<H: Host>(stats: &QueryStats, policy: QueryPolicy, session: &mut Session<H>) -> (done:
    Result<(), Fault>)
    ensures
        final(session).metered() == old(session).metered(),
        governs(
            policy,
            *stats,
            seq![Step::Poll],
            *stats,
            old(session).log(),
            final(session).log(),
            failure(done),
        ),
{
    let ghost start = session.log();
    let done = match pay_step(policy, session) {
        Ok(()) => Ok(()),
        Err(error) => Err(Fault::Interrupted(error)),
    };
    proof {
        lemma_obeys_ask(start, session.log(), step_asks(policy), interrupted());
        lemma_performs_one(
            governed(policy),
            interrupted(),
            *stats,
            Step::Poll,
            *stats,
            start,
            session.log(),
            failure(done),
        );
    }
    done
}

/// A refusal, or no step at all.
pub open spec fn refusing(fault: Option<Fault>) -> Seq<Step> {
    match fault {
        Some(error) => seq![Step::Refuse(error)],
        None => Seq::empty(),
    }
}

/// Nothing is asked where a script only refuses, or does not.
pub proof fn lemma_refusing(
    policy: QueryPolicy,
    stats: QueryStats,
    log: Seq<Event>,
    fault: Option<Fault>,
)
    ensures
        governs(policy, stats, refusing(fault), stats, log, log, fault),
{
    match fault {
        Some(error) => {
            lemma_obeys_stop(log, interrupted(), error);
            lemma_performs_one(
                governed(policy),
                interrupted(),
                stats,
                Step::Refuse(error),
                stats,
                log,
                log,
                fault,
            );
        },
        None => {
            lemma_performs_nothing(governed(policy), interrupted(), stats, log);
        },
    }
}

/// An empty script asks nothing.
pub proof fn lemma_governs_nothing(policy: QueryPolicy, stats: QueryStats, log: Seq<Event>)
    ensures
        governs(policy, stats, Seq::empty(), stats, log, log, None),
{
    lemma_performs_nothing(governed(policy), interrupted(), stats, log);
}

/// Two parts of a governed script, one after the other.
pub proof fn lemma_governs_then(
    policy: QueryPolicy,
    before: QueryStats,
    head: Seq<Step>,
    middle: QueryStats,
    tail: Seq<Step>,
    after: QueryStats,
    log: Seq<Event>,
    log_middle: Seq<Event>,
    log_after: Seq<Event>,
    failed: Option<Fault>,
)
    requires
        governs(policy, before, head, middle, log, log_middle, None),
        governs(policy, middle, tail, after, log_middle, log_after, failed),
    ensures
        governs(policy, before, head + tail, after, log, log_after, failed),
{
    lemma_performs_then(
        governed(policy),
        interrupted(),
        before,
        head,
        middle,
        tail,
        after,
        log,
        log_middle,
        log_after,
        failed,
    );
}

/// A governed script that failed has performed any continuation of it.
pub proof fn lemma_governs_failed(
    policy: QueryPolicy,
    before: QueryStats,
    script: Seq<Step>,
    full: Seq<Step>,
    after: QueryStats,
    log: Seq<Event>,
    log_after: Seq<Event>,
    failed: Option<Fault>,
)
    requires
        governs(policy, before, script, after, log, log_after, failed),
        failed is Some,
        script.is_prefix_of(full),
    ensures
        governs(policy, before, full, after, log, log_after, failed),
{
    lemma_performs_failed(
        governed(policy),
        interrupted(),
        before,
        script,
        full,
        after,
        log,
        log_after,
        failed,
    );
}

} // verus!
