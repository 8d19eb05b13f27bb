//! Summaries and set queries over the overlay: one source, one allowance, and
//! observations that outlive whatever fails later.

use vstd::prelude::*;
use crate::database::Database;
use crate::evaluator::{
    AggregateSource, Evaluating, EvaluatorRecord, GraphEvaluator, QueryExecution, SetRun,
};
use crate::governed::{
    checkpoint, event, governs, lemma_governs_failed, lemma_governs_nothing, lemma_governs_then, Step,
};
use crate::plan::failure;
use crate::queries::{query_refusal, retained, Observations};
use crate::script::lemma_prefix_concat;
use crate::session::{Event, Host, Session};
use crate::statement::{Fault, GlaExecutionEvent, QueryPolicy, QueryStats};
use crate::txn::{keeps_observations, same_workspace, WriteTxn};

verus! {

/// The events of admitting a source.
pub open spec fn admission_script(admission: Seq<GlaExecutionEvent>) -> Seq<Step> {
    Seq::new(admission.len(), |i: int| Step::Count(admission[i]))
}

/// One count on top of another, at most the largest.
pub open spec fn added(left: u64, right: u64) -> u64 {
    if left + right > u64::MAX {
        u64::MAX
    } else {
        (left + right) as u64
    }
}

/// What admission and evaluation used together.
pub open spec fn total_stats(evaluated: QueryStats, used: QueryStats) -> QueryStats {
    QueryStats {
        work_units: added(evaluated.work_units, used.work_units),
        scratch_entries: added(evaluated.scratch_entries, used.scratch_entries),
        ..evaluated
    }
}

/// Nothing was used.
pub open spec fn unused() -> QueryStats {
    QueryStats { result_rows: 0, snapshot_records: 0, work_units: 0, scratch_entries: 0 }
}

/// The stages of a summary.
pub struct SummaryRun {
    pub log_polled: Seq<Event>,
    pub halted: Option<Fault>,
    pub source: AggregateSource,
    pub used: QueryStats,
    pub stopped: Option<Fault>,
    pub summary: Result<QueryExecution, Fault>,
}

/// How a summary runs. A refused source changes nothing and is not read; one that
/// was read is admitted event by event; an admitted one is observed, whatever
/// becomes of the summary. The evaluator is asked for nothing else.
pub open spec fn aggregates(
    before: WriteTxn,
    after: WriteTxn,
    database: Database,
    policy: QueryPolicy,
    run: SummaryRun,
    asked: Seq<Evaluating>,
    asked_after: Seq<Evaluating>,
    log: Seq<Event>,
    log_after: Seq<Event>,
    result: Result<QueryExecution, Fault>,
) -> bool {
    let sourced = asked.push(
        Evaluating::Source { transaction: before, database, read: run.source },
    );
    match query_refusal(before, database) {
        Some(error) => {
            &&& failure(result) == Some(Fault::Source(error))
            &&& after == before
            &&& log_after == log
            &&& asked_after == asked
        },
        None => {
            &&& governs(
                policy,
                unused(),
                seq![Step::Poll],
                unused(),
                log,
                run.log_polled,
                run.halted,
            )
            &&& match run.halted {
                Some(fault) => {
                    &&& failure(result) == Some(fault)
                    &&& after == before
                    &&& log_after == run.log_polled
                    &&& asked_after == asked
                },
                None => {
                    &&& governs(
                        policy,
                        unused(),
                        admission_script(run.source.admission@),
                        run.used,
                        run.log_polled,
                        log_after,
                        run.stopped,
                    )
                    &&& match run.stopped {
                        Some(fault) => {
                            &&& failure(result) == Some(fault)
                            &&& after == before
                            &&& asked_after == sourced
                        },
                        None => {
                            &&& retained(before, after, run.source.observed)
                            &&& asked_after == sourced.push(
                                Evaluating::Summary {
                                    transaction: after,
                                    database,
                                    policy,
                                    used: run.used,
                                    summary: run.summary,
                                },
                            )
                            &&& match run.summary {
                                Ok(found) => result is Ok && result->Ok_0.rows == found.rows
                                    && result->Ok_0.stats == total_stats(found.stats, run.used),
                                Err(fault) => failure(result) == Some(fault),
                            }
                        },
                    }
                },
            }
        },
    }
}

/// Pay for admitting a source, event by event.
fn pay_admission<H: Host>(
    admission: &Vec<GlaExecutionEvent>,
    used: &mut QueryStats,
    policy: QueryPolicy,
    session: &mut Session<H>,
) -> (paid: Result<(), Fault>)
    ensures
        final(session).metered() == old(session).metered(),
        governs(
            policy,
            *old(used),
            admission_script(admission@),
            *final(used),
            old(session).log(),
            final(session).log(),
            failure(paid),
        ),
{
    let ghost start = session.log();
    let ghost before = *used;
    let ghost full = admission_script(admission@);
    let mut i: usize = 0;
    proof {
        assert(full.take(0) =~= Seq::<Step>::empty());
        lemma_governs_nothing(policy, before, start);
    }
    while i < admission.len()
        invariant
            i <= admission.len(),
            full == admission_script(admission@),
            session.metered() == old(session).metered(),
            start == old(session).log(),
            before == *old(used),
            governs(policy, before, full.take(i as int), *used, start, session.log(), None),
        decreases admission.len() - i,
    {
        let ghost here = *used;
        let ghost here_log = session.log();
        let counted = event(used, policy, session, admission[i]);
        proof {
            let step = seq![Step::Count(admission@[i as int])];
            assert(full.take(i as int) + step =~= full.take(i + 1));
            lemma_governs_then(
                policy, before, full.take(i as int), here, step, *used, start, here_log,
                session.log(), failure(counted),
            );
        }
        if let Err(fault) = counted {
            proof {
                assert(full.take(i + 1) + full.skip(i + 1) =~= full);
                lemma_prefix_concat(full.take(i + 1), full.skip(i + 1));
                lemma_governs_failed(
                    policy, before, full.take(i + 1), full, *used, start, session.log(),
                    Some(fault),
                );
            }
            return Err(fault);
        }
        i += 1;
    }
    proof {
        assert(full.take(i as int) =~= full);
    }
    Ok(())
}

impl WriteTxn {
    /// Summarize complete matches over the pinned basis and the staged effects.
    pub fn execute_graph_aggregate_governed<E: GraphEvaluator, H: Host>(
        &mut self,
        database: &Database,
        evaluator: &mut EvaluatorRecord<E>,
        policy: QueryPolicy,
        session: &mut Session<H>,
    ) -> (result: Result<QueryExecution, Fault>)
        requires
            old(self).wf(),
            database.wf(),
        ensures
            final(self).wf(),
            final(session).metered() == old(session).metered(),
            exists|run: SummaryRun| #[trigger]
                aggregates(
                    *old(self),
                    *final(self),
                    *database,
                    policy,
                    run,
                    old(evaluator).asked(),
                    final(evaluator).asked(),
                    old(session).log(),
                    final(session).log(),
                    result,
                ),
    {
        let ghost before = *self;
        let ghost start = session.log();
        let ghost asked = evaluator.asked();
        let ghost mut run: SummaryRun = arbitrary();
        if let Err(error) = self.query_snapshot(database) {
            let refusal = Err(Fault::Source(error));
            assert(aggregates(
                before, *self, *database, policy, run, asked, asked, start, start, refusal,
            ));
            return refusal;
        }
        let mut used = QueryStats {
            result_rows: 0,
            snapshot_records: 0,
            work_units: 0,
            scratch_entries: 0,
        };
        let polled = checkpoint(&used, policy, session);
        proof {
            run.log_polled = session.log();
            run.halted = failure(polled);
        }
        if let Err(fault) = polled {
            assert(aggregates(
                before, *self, *database, policy, run, asked, asked, start, session.log(),
                Err(fault),
            ));
            return Err(fault);
        }
        let source = evaluator.source(self, database);
        let paid = pay_admission(&source.admission, &mut used, policy, session);
        proof {
            run.source = source;
            run.used = used;
            run.stopped = failure(paid);
        }
        if let Err(fault) = paid {
            assert(aggregates(
                before, *self, *database, policy, run, asked, evaluator.asked(), start,
                session.log(), Err(fault),
            ));
            return Err(fault);
        }
        self.retain(&source.observed);
        let summary = evaluator.summarize(self, database, policy, used);
        proof {
            run.summary = summary;
        }
        let result = match summary {
            Err(fault) => Err(fault),
            Ok(found) => Ok(
                QueryExecution {
                    rows: found.rows,
                    stats: QueryStats {
                        work_units: found.stats.work_units.saturating_add(used.work_units),
                        scratch_entries: found.stats.scratch_entries.saturating_add(
                            used.scratch_entries,
                        ),
                        ..found.stats
                    },
                },
            ),
        };
        assert(aggregates(
            before, *self, *database, policy, run, asked, evaluator.asked(), start, session.log(),
            result,
        ));
        result
    }
}

/// The operands were observed one after the other.
pub open spec fn retains_all(
    before: WriteTxn,
    states: Seq<WriteTxn>,
    operands: Seq<Observations>,
) -> bool {
    &&& states.len() == operands.len() + 1
    &&& states[0] == before
    &&& forall|i: int|
        0 <= i < operands.len() ==> retained(states[i], #[trigger] states[i + 1], operands[i])
}

/// How a set query runs. The evaluator is asked once, and only of a source that is
/// not refused. Whatever it ends with, every operand that was evaluated stays
/// observed.
pub open spec fn runs_set(
    before: WriteTxn,
    after: WriteTxn,
    database: Database,
    policy: QueryPolicy,
    run: SetRun,
    asked: Seq<Evaluating>,
    asked_after: Seq<Evaluating>,
    result: Result<QueryExecution, Fault>,
) -> bool {
    match query_refusal(before, database) {
        Some(error) => {
            &&& failure(result) == Some(Fault::Source(error))
            &&& after == before
            &&& asked_after == asked
        },
        None => {
            &&& asked_after == asked.push(
                Evaluating::Combine { transaction: before, database, policy, combined: run },
            )
            &&& result == run.evaluated
            &&& exists|states: Seq<WriteTxn>| #[trigger]
                retains_all(before, states, run.operands@) && states.last() == after
        },
    }
}

impl WriteTxn {
    /// Combine operands that were all evaluated against this basis and these staged
    /// effects. A wrong owner, a fenced handle or a moved frontier is refused before
    /// any allowance is looked at.
    pub fn execute_graph_set_governed<E: GraphEvaluator>(
        &mut self,
        database: &Database,
        evaluator: &mut EvaluatorRecord<E>,
        policy: QueryPolicy,
    ) -> (result: Result<QueryExecution, Fault>)
        requires
            old(self).wf(),
            database.wf(),
        ensures
            final(self).wf(),
            exists|run: SetRun| #[trigger]
                runs_set(
                    *old(self),
                    *final(self),
                    *database,
                    policy,
                    run,
                    old(evaluator).asked(),
                    final(evaluator).asked(),
                    result,
                ),
    {
        let ghost before = *self;
        let ghost asked = evaluator.asked();
        if let Err(error) = self.query_snapshot(database) {
            let refusal = Err(Fault::Source(error));
            assert(runs_set(
                before, *self, *database, policy, arbitrary(), asked, asked, refusal,
            ));
            return refusal;
        }
        let run = evaluator.combine(self, database, policy);
        let ghost mut states: Seq<WriteTxn> = seq![before];
        let mut i: usize = 0;
        while i < run.operands.len()
            invariant
                i <= run.operands.len(),
                self.wf(),
                before == *old(self),
                retains_all(before, states, run.operands@.take(i as int)),
                states.last() == *self,
            decreases run.operands.len() - i,
        {
            self.retain(&run.operands[i]);
            proof {
                let earlier = states;
                states = states.push(*self);
                assert forall|k: int| 0 <= k < i + 1 implies retained(
                    states[k],
                    #[trigger] states[k + 1],
                    run.operands@.take(i + 1)[k],
                ) by {
                    if k < i {
                        assert(retained(
                            earlier[k],
                            earlier[k + 1],
                            run.operands@.take(i as int)[k],
                        ));
                    }
                }
            }
            i += 1;
        }
        proof {
            assert(run.operands@.take(i as int) =~= run.operands@);
            assert(retains_all(before, states, run.operands@));
            assert(runs_set(
                before, *self, *database, policy, run, asked, evaluator.asked(), run.evaluated,
            ));
        }
        run.evaluated
    }
}

/// A query that failed after it observed something still depends on it: no
/// observation is lost, and nothing staged changes.
pub proof fn law_observations_outlive_failures(
    before: WriteTxn,
    after: WriteTxn,
    observed: Observations,
)
    requires
        retained(before, after, observed),
    ensures
        keeps_observations(before, after),
        same_workspace(before, after),
        forall|i: int|
            0 <= i < observed.elements@.len() ==> after.read_set@.contains(
                #[trigger] observed.elements@[i],
            ),
        observed.vertices ==> after.scanned_vertices,
        observed.edges ==> after.scanned_edges,
{
    assert forall|i: int| 0 <= i < observed.elements@.len() implies after.read_set@.contains(
        #[trigger] observed.elements@[i],
    ) by {
        assert(observed.elements@.to_set().contains(observed.elements@[i]));
    }
}

} // verus!
