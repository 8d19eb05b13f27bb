//! Authorized relationship MERGE from end to end: a scoped selection, one admitted
//! pair as the whole existence domain, one creation at most, one completion.

use vstd::prelude::*;
use crate::authorized_apply::{apply_edge_merge, merges_edge};
use crate::authorized_entry::{begun, opening_steps};
use crate::authorized_execute::finishes;
use crate::authorized_laws::lemma_unverified;
use crate::authorized_pair::{admits_pair, admitted_edges, PairRun};
use crate::batch::PendingRow;
use crate::controls::{controls_asks, pay_controls, stopped};
use crate::database::Database;
use crate::edge_merge::{
    decide_edge, edge_choice_script, input_script, matches_upto, merge_report, pairs_upto,
    read_input, runs_between, GraphEdgeMerge, GraphEdgeMergeOutcome, GraphEdgeMergePolicy,
    GraphEdgeMergeStats, Selection,
};
use crate::errors::{Denial, WriteTxnError};
use crate::finish::{closes, ready, CompletionStep};
use crate::governed::governs;
use crate::graph::{AdjacencyEntry, EdgeRecord};
use crate::identity::{reserve_steps, reserves, IdentityState};
use crate::ids::{CommitSeq, EId, ElementId, RelationId, VId};
use crate::plan::{failure, lemma_obeys_lift, obeys, same_error, whole};
use crate::props::clone_props;
use crate::scope::Predicates;
use crate::selection::{prepares_source, selection_error, selection_fault, SelectionSource};
use crate::selector::{Choosing, Chosen, ScopedRecord, ScopedSelector};
use crate::session::{followed, refused, Event, Host, IdentityKind, Metering, Session};
use crate::statement::{source, Fault, QueryPolicy, QueryStats};
use crate::txn::WriteTxn;

verus! {

/// The candidates that a relationship MERGE may match: one for each admitted edge.
pub open spec fn lists_candidates(
    candidates: Seq<EdgeRecord>,
    relation: RelationId,
    pair: (VId, VId),
    admitted: Seq<EId>,
) -> bool {
    &&& candidates.len() == admitted.len()
    &&& forall|i: int|
        0 <= i < admitted.len() ==> runs_between(
            #[trigger] candidates[i],
            relation,
            pair.0,
            pair.1,
        ) && candidates[i].entry.eid == admitted[i]
}

pub proof fn lemma_candidates_match(
    candidates: Seq<EdgeRecord>,
    relation: RelationId,
    pair: (VId, VId),
    admitted: Seq<EId>,
    n: int,
)
    requires
        lists_candidates(candidates, relation, pair, admitted),
        0 <= n <= admitted.len(),
    ensures
        matches_upto(candidates, relation, pair.0, pair.1, n) == admitted.take(n),
    decreases n,
{
    if n > 0 {
        lemma_candidates_match(candidates, relation, pair, admitted, n - 1);
        assert(runs_between(candidates[n - 1], relation, pair.0, pair.1));
        assert(admitted.take(n) =~= admitted.take(n - 1).push(admitted[n - 1]));
    } else {
        assert(admitted.take(0) =~= Seq::<EId>::empty());
    }
}

fn list_candidates(relation: RelationId, pair: (VId, VId), admitted: &Vec<EId>, at: CommitSeq) -> (candidates:
    Vec<EdgeRecord>)
    ensures
        lists_candidates(candidates@, relation, pair, admitted@),
{
    let mut candidates: Vec<EdgeRecord> = Vec::new();
    let mut i: usize = 0;
    while i < admitted.len()
        invariant
            i <= admitted.len(),
            lists_candidates(candidates@, relation, pair, admitted@.take(i as int)),
        decreases admitted.len() - i,
    {
        let entry = AdjacencyEntry {
            src: pair.0,
            relation,
            dst: pair.1,
            eid: admitted[i],
            created_at: at,
            retired_at: None,
        };
        candidates.push(EdgeRecord { entry, props: Vec::new() });
        i += 1;
    }
    proof {
        assert(admitted@.take(i as int) =~= admitted@);
    }
    candidates
}

/// The stages of a relationship MERGE over one selection.
pub struct EdgeMergeRun {
    pub counted: QueryStats,
    pub log_read: Seq<Event>,
    pub read_failed: Option<Fault>,
    pub seen: WriteTxn,
    pub pair_run: PairRun,
    pub admitted: Result<Vec<EId>, Fault>,
    pub log_admitted: Seq<Event>,
    pub candidates: Seq<EdgeRecord>,
    pub decided: QueryStats,
    pub log_decided: Seq<Event>,
    pub decide_failed: Option<Fault>,
    pub issued: Result<ElementId, WriteTxnError>,
    pub log_issued: Seq<Event>,
    pub rows: Seq<(RelationId, PendingRow)>,
    pub log_staged: Seq<Event>,
    pub row_failed: Option<Fault>,
    pub merged: Result<(), Fault>,
}

/// The one row of a creation.
pub open spec fn creation_rows(
    merge: GraphEdgeMerge,
    pair: (VId, VId),
    eid: EId,
    rows: Seq<(RelationId, PendingRow)>,
) -> bool {
    &&& rows.len() == 1
    &&& rows[0].0 == merge.relation
    &&& rows[0].1 matches PendingRow::Edge { eid: e, src, dst, props, ensure }
    &&& e == eid && src == pair.0 && dst == pair.1 && props@ == merge.properties@ && !ensure
}

/// An outcome was staged, paid for where a receipt is due, and reported.
pub open spec fn reports_outcome(
    after: WriteTxn,
    database: Database,
    selection: Selection,
    scope: Predicates,
    returning: bool,
    run: EdgeMergeRun,
    outcome: GraphEdgeMergeOutcome,
    log: Seq<Event>,
    log_after: Seq<Event>,
    result: Result<(GraphEdgeMergeStats, GraphEdgeMergeOutcome), Fault>,
) -> bool {
    &&& merges_edge(
        run.seen,
        after,
        database,
        run.rows,
        returning,
        scope,
        log,
        run.log_staged,
        log_after,
        run.row_failed,
        run.merged,
    )
    &&& result == (match run.merged {
        Ok(()) => Ok(
            merge_report(selection.stats, run.candidates.len(), run.decided, outcome),
        ),
        Err(fault) => Err(fault),
    })
}

/// What a decided pair does: match without a row, or take one identity from the
/// handle's allocator and stage one creation.
pub open spec fn settles_pair(
    after: WriteTxn,
    database: Database,
    merge: GraphEdgeMerge,
    pair: (VId, VId),
    selection: Selection,
    scope: Predicates,
    returning: bool,
    run: EdgeMergeRun,
    identities: IdentityState,
    identities_after: IdentityState,
    log_after: Seq<Event>,
    result: Result<(GraphEdgeMergeStats, GraphEdgeMergeOutcome), Fault>,
) -> bool {
    let found = run.admitted->Ok_0@;
    if found.len() > 0 {
        &&& identities_after == identities
        &&& run.rows.len() == 0
        &&& reports_outcome(
            after,
            database,
            selection,
            scope,
            returning,
            run,
            GraphEdgeMergeOutcome::Matched(found[0]),
            run.log_decided,
            log_after,
            result,
        )
    } else {
        &&& obeys(
            run.log_decided,
            run.log_issued,
            whole(reserve_steps(identities, database, IdentityKind::Edge)),
            same_error(),
            failure(run.issued),
        )
        &&& reserves(identities, identities_after, database, IdentityKind::Edge, run.issued)
        &&& match run.issued {
            Ok(ElementId::Edge(eid)) => {
                &&& creation_rows(merge, pair, eid, run.rows)
                &&& reports_outcome(
                    after,
                    database,
                    selection,
                    scope,
                    returning,
                    run,
                    GraphEdgeMergeOutcome::Created(eid),
                    run.log_issued,
                    log_after,
                    result,
                )
            },
            Ok(ElementId::Vertex(_)) => false,
            Err(error) => {
                &&& after == run.seen
                &&& log_after == run.log_issued
                &&& failure(result) == Some(Fault::IdentitySource(error))
            },
        }
    }
}

/// The limits of a statement that also pays signed work.
pub open spec fn signed_policy(policy: GraphEdgeMergePolicy) -> GraphEdgeMergePolicy {
    GraphEdgeMergePolicy { query: QueryPolicy { signed: true, ..policy.query }, ..policy }
}

/// What a relationship MERGE over one selection does, whatever the host answers.
pub open spec fn merges_selected(
    before: WriteTxn,
    after: WriteTxn,
    database: Database,
    merge: GraphEdgeMerge,
    policy: GraphEdgeMergePolicy,
    selection: Selection,
    scope: Predicates,
    returning: bool,
    run: EdgeMergeRun,
    identities: IdentityState,
    identities_after: IdentityState,
    log: Seq<Event>,
    log_after: Seq<Event>,
    result: Result<(GraphEdgeMergeStats, GraphEdgeMergeOutcome), Fault>,
) -> bool {
    let rows = selection.rows@;
    let pairs = pairs_upto(merge, rows, rows.len() as int);
    let bounded = signed_policy(policy);
    if rows.len() != selection.stats.result_rows {
        &&& failure(result) == Some(Fault::InvalidSourceStatistics)
        &&& after == before
        &&& identities_after == identities
        &&& log_after == log
    } else {
        &&& governs(
            bounded.query,
            selection.stats,
            input_script(merge, rows),
            run.counted,
            log,
            run.log_read,
            run.read_failed,
        )
        &&& if run.read_failed is Some {
            &&& failure(result) == run.read_failed
            &&& after == before
            &&& identities_after == identities
            &&& log_after == run.log_read
        } else if pairs.len() == 0 {
            &&& result == Ok::<(GraphEdgeMergeStats, GraphEdgeMergeOutcome), Fault>(
                merge_report(selection.stats, 0, run.counted, GraphEdgeMergeOutcome::NoInput),
            )
            &&& after == before
            &&& identities_after == identities
            &&& log_after == run.log_read
        } else {
            &&& admits_pair(
                before,
                run.seen,
                database,
                scope,
                merge.relation,
                pairs[0],
                run.pair_run,
                run.log_read,
                run.log_admitted,
                run.admitted,
            )
            &&& match run.admitted {
                Err(fault) => {
                    &&& failure(result) == Some(fault)
                    &&& after == run.seen
                    &&& identities_after == identities
                    &&& log_after == run.log_admitted
                },
                Ok(admitted) => {
                    &&& lists_candidates(run.candidates, merge.relation, pairs[0], admitted@)
                    &&& governs(
                        bounded.query,
                        run.counted,
                        edge_choice_script(
                            merge,
                            bounded,
                            selection.stats,
                            run.candidates,
                            pairs[0],
                        ),
                        run.decided,
                        run.log_admitted,
                        run.log_decided,
                        run.decide_failed,
                    )
                    &&& if run.decide_failed is Some {
                        &&& failure(result) == run.decide_failed
                        &&& after == run.seen
                        &&& identities_after == identities
                        &&& log_after == run.log_decided
                    } else {
                        settles_pair(
                            after,
                            database,
                            merge,
                            pairs[0],
                            selection,
                            scope,
                            returning,
                            run,
                            identities,
                            identities_after,
                            log_after,
                            result,
                        )
                    }
                },
            }
        }
    }
}

/// Match or create over one selection. Only the edges of the one relation
/// between the one admitted pair are counted; parallel edges stay ambiguous.
pub fn merge_selected<H: Host>(
    transaction: &mut WriteTxn,
    database: &Database,
    merge: &GraphEdgeMerge,
    policy: GraphEdgeMergePolicy,
    selection: &Selection,
    returning: bool,
    scope: &Predicates,
    identities: &mut IdentityState,
    session: &mut Session<H>,
) -> (result: Result<(GraphEdgeMergeStats, GraphEdgeMergeOutcome), Fault>)
    requires
        old(transaction).wf(),
        database.wf(),
        merge.wf(),
    ensures
        final(transaction).wf(),
        final(session).metered() == old(session).metered(),
        exists|run: EdgeMergeRun| #[trigger]
            merges_selected(
                *old(transaction),
                *final(transaction),
                *database,
                *merge,
                policy,
                *selection,
                *scope,
                returning,
                run,
                *old(identities),
                *final(identities),
                old(session).log(),
                final(session).log(),
                result,
            ),
{
    let ghost before = *transaction;
    let ghost start = session.log();
    let ghost ids = *identities;
    let ghost mut run: EdgeMergeRun = arbitrary();
    let ghost pairs = pairs_upto(*merge, selection.rows@, selection.rows@.len() as int);
    if selection.rows.len() as u64 != selection.stats.result_rows {
        assert(merges_selected(
            before, *transaction, *database, *merge, policy, *selection, *scope, returning, run,
            ids, *identities, start, start, Err(Fault::InvalidSourceStatistics),
        ));
        return Err(Fault::InvalidSourceStatistics);
    }
    let bounded = GraphEdgeMergePolicy {
        query: QueryPolicy { signed: true, ..policy.query },
        ..policy
    };
    let mut stats = selection.stats;
    let read = read_input(merge, bounded.query, &selection.rows, &mut stats, session);
    proof {
        run.counted = stats;
        run.log_read = session.log();
        run.read_failed = failure(read);
    }
    let pair = match read {
        Err(fault) => {
            assert(merges_selected(
                before, *transaction, *database, *merge, policy, *selection, *scope, returning, run,
                ids, *identities, start, session.log(), Err(fault),
            ));
            return Err(fault);
        },
        Ok(None) => {
            let report = (
                GraphEdgeMergeStats {
                    match_selection: selection.stats,
                    overlay_edges: 0,
                    evaluator: stats,
                    created_edges: 0,
                },
                GraphEdgeMergeOutcome::NoInput,
            );
            assert(merges_selected(
                before, *transaction, *database, *merge, policy, *selection, *scope, returning, run,
                ids, *identities, start, session.log(), Ok(report),
            ));
            return Ok(report);
        },
        Ok(Some(pair)) => pair,
    };
    assert(pairs[0] == pair);
    let found = admitted_edges(transaction, database, scope, merge.relation, pair, session);
    proof {
        run.seen = *transaction;
        run.pair_run = choose|pair_run: PairRun| #[trigger]
            admits_pair(
                before, *transaction, *database, *scope, merge.relation, pair, pair_run,
                run.log_read, session.log(), found,
            );
        run.admitted = found;
        run.log_admitted = session.log();
    }
    let admitted = match found {
        Ok(admitted) => admitted,
        Err(fault) => {
            assert(merges_selected(
                before, *transaction, *database, *merge, policy, *selection, *scope, returning, run,
                ids, *identities, start, session.log(), Err(fault),
            ));
            return Err(fault);
        },
    };
    let candidates = list_candidates(merge.relation, pair, &admitted, transaction.basis);
    proof {
        run.candidates = candidates@;
        lemma_candidates_match(
            candidates@, merge.relation, pair, admitted@, admitted@.len() as int,
        );
        assert(admitted@.take(admitted@.len() as int) =~= admitted@);
    }
    let overlay_edges: u64 = candidates.len() as u64;
    let decision = decide_edge(
        merge,
        bounded,
        selection.stats,
        pair,
        &candidates,
        &mut stats,
        session,
    );
    proof {
        run.decided = stats;
        run.log_decided = session.log();
        run.decide_failed = failure(decision);
    }
    let matched = match decision {
        Ok(matched) => matched,
        Err(fault) => {
            assert(merges_selected(
                before, *transaction, *database, *merge, policy, *selection, *scope, returning, run,
                ids, *identities, start, session.log(), Err(fault),
            ));
            return Err(fault);
        },
    };
    let mut rows: Vec<(RelationId, PendingRow)> = Vec::new();
    let outcome = match matched {
        Some(eid) => GraphEdgeMergeOutcome::Matched(eid),
        None => {
            let issued = database.allocate_identity(identities, IdentityKind::Edge, session);
            proof {
                run.issued = issued;
                run.log_issued = session.log();
            }
            let eid = match issued {
                Ok(ElementId::Edge(eid)) => eid,
                Ok(ElementId::Vertex(_)) => {
                    assert(false);
                    return Err(Fault::IdentityKind);
                },
                Err(error) => {
                    assert(merges_selected(
                        before, *transaction, *database, *merge, policy, *selection, *scope,
                        returning, run, ids, *identities, start, session.log(),
                        Err(Fault::IdentitySource(error)),
                    ));
                    return Err(Fault::IdentitySource(error));
                },
            };
            rows.push((
                merge.relation,
                PendingRow::Edge {
                    eid,
                    src: pair.0,
                    dst: pair.1,
                    props: clone_props(&merge.properties),
                    ensure: false,
                },
            ));
            GraphEdgeMergeOutcome::Created(eid)
        },
    };
    let ghost log_settled = session.log();
    let created_edges: u64 = if matched.is_some() {
        0
    } else {
        1
    };
    let merged = apply_edge_merge(transaction, database, &rows, returning, scope, session);
    proof {
        let (log_staged, row_failed) = choose|log_staged: Seq<Event>, row_failed: Option<Fault>|
            #[trigger] merges_edge(
                run.seen, *transaction, *database, rows@, returning, *scope, log_settled,
                log_staged, session.log(), row_failed, merged,
            );
        run.rows = rows@;
        run.log_staged = log_staged;
        run.row_failed = row_failed;
        run.merged = merged;
    }
    let result = match merged {
        Ok(()) => Ok(
            (
                GraphEdgeMergeStats {
                    match_selection: selection.stats,
                    overlay_edges,
                    evaluator: stats,
                    created_edges,
                },
                outcome,
            ),
        ),
        Err(fault) => Err(fault),
    };
    proof {
        assert(reports_outcome(
            *transaction, *database, *selection, *scope, returning, run, outcome, log_settled,
            session.log(), result,
        ));
        assert(settles_pair(
            *transaction, *database, *merge, pair, *selection, *scope, returning, run, ids,
            *identities,
            session.log(), result,
        ));
        assert(merges_selected(
            before, *transaction, *database, *merge, policy, *selection, *scope, returning, run,
            ids, *identities, start, session.log(), result,
        ));
    }
    result
}

/// What selecting the endpoints of a relationship MERGE went through.
pub struct ChoiceRun {
    pub source: Result<SelectionSource, Fault>,
    pub log_source: Seq<Event>,
    pub answer: Chosen,
}

/// How the endpoints are selected: over the source prepared on the same session,
/// under the scope, with every control paid.
pub open spec fn chooses(
    before: WriteTxn,
    after: WriteTxn,
    database: Database,
    merge: GraphEdgeMerge,
    policy: GraphEdgeMergePolicy,
    scope: Predicates,
    log: Seq<Event>,
    log_after: Seq<Event>,
    asked: Seq<Choosing>,
    asked_after: Seq<Choosing>,
    run: ChoiceRun,
    chosen: Result<Selection, Fault>,
) -> bool {
    &&& prepares_source(
        before,
        after,
        database,
        merge.reads_edges,
        log,
        run.log_source,
        run.source,
    )
    &&& match run.source {
        Err(fault) => {
            &&& failure(chosen) == Some(fault)
            &&& log_after == run.log_source
            &&& asked_after == asked
        },
        Ok(source) => {
            &&& asked_after == asked.push(
                Choosing {
                    pattern: merge.pattern,
                    policy: policy.query,
                    source,
                    scope,
                    transaction: after,
                    database,
                    answer: run.answer,
                },
            )
            &&& followed(run.log_source, log_after, controls_asks(run.answer.controls@))
            &&& chosen == (match (
                stopped(refused(run.log_source, log_after)),
                run.answer.outcome,
            ) {
                (Some(fault), _) => Err(fault),
                (None, Err(error)) => Err(selection_fault(error)),
                (None, Ok(selection)) => Ok(selection),
            })
        },
    }
}

/// Select the endpoints of a relationship MERGE under a scope.
fn choose_pairs<S: ScopedSelector, H: Host>(
    transaction: &mut WriteTxn,
    database: &Database,
    merge: &GraphEdgeMerge,
    policy: GraphEdgeMergePolicy,
    scope: &Predicates,
    selector: &mut ScopedRecord<S>,
    session: &mut Session<H>,
) -> (chosen: Result<Selection, Fault>)
    requires
        old(transaction).wf(),
        database.wf(),
    ensures
        final(transaction).wf(),
        final(session).metered() == old(session).metered(),
        exists|run: ChoiceRun| #[trigger]
            chooses(
                *old(transaction),
                *final(transaction),
                *database,
                *merge,
                policy,
                *scope,
                old(session).log(),
                final(session).log(),
                old(selector).asked(),
                final(selector).asked(),
                run,
                chosen,
            ),
{
    let ghost before = *transaction;
    let ghost start = session.log();
    let ghost asked = selector.asked();
    let ghost mut run: ChoiceRun = arbitrary();
    let source = transaction.select_overlay(database, merge.reads_edges, session);
    proof {
        run.source = source;
        run.log_source = session.log();
    }
    let source = match source {
        Ok(source) => source,
        Err(fault) => {
            assert(chooses(
                before, *transaction, *database, *merge, policy, *scope, start, session.log(),
                asked, selector.asked(), run, Err(fault),
            ));
            return Err(fault);
        },
    };
    let answer = selector.select(
        merge.pattern,
        policy.query,
        &source,
        scope,
        transaction,
        database,
    );
    proof {
        run.answer = answer;
    }
    let paid = pay_controls(&answer.controls, session);
    let Chosen { controls: _, outcome } = answer;
    let chosen = match paid {
        Err(fault) => Err(fault),
        Ok(()) => match outcome {
            Err(error) => Err(selection_error(error)),
            Ok(selection) => Ok(selection),
        },
    };
    assert(chooses(
        before, *transaction, *database, *merge, policy, *scope, start, session.log(), asked,
        selector.asked(), run, chosen,
    ));
    chosen
}

/// A relationship MERGE whose workspace is open: the selection's refusal, or the
/// merge over it, completed.
pub open spec fn continues_edge_merge(
    opened: WriteTxn,
    database: Database,
    merge: GraphEdgeMerge,
    policy: GraphEdgeMergePolicy,
    scope: Predicates,
    metered: Metering,
    identities: IdentityState,
    identities_after: IdentityState,
    log: Seq<Event>,
    log_after: Seq<Event>,
    asked: Seq<Choosing>,
    asked_after: Seq<Choosing>,
    done: Result<(GraphEdgeMergeStats, GraphEdgeMergeOutcome, WriteTxn, CompletionStep), Fault>,
) -> bool {
    exists|
        read: WriteTxn,
        middle: Seq<Event>,
        choice: ChoiceRun,
        chosen: Result<Selection, Fault>,
    |
        {
            &&& #[trigger] chooses(
                opened,
                read,
                database,
                merge,
                policy,
                scope,
                log,
                middle,
                asked,
                asked_after,
                choice,
                chosen,
            )
            &&& match chosen {
                Err(fault) => {
                    &&& failure(done) == Some(fault)
                    &&& log_after == middle
                    &&& identities_after == identities
                },
                Ok(selection) => exists|
                    applied: WriteTxn,
                    run: EdgeMergeRun,
                    log_applied: Seq<Event>,
                    result: Result<(GraphEdgeMergeStats, GraphEdgeMergeOutcome), Fault>,
                    ended: Result<(WriteTxn, CompletionStep), Fault>,
                |
                    {
                        &&& #[trigger] merges_selected(
                            read,
                            applied,
                            database,
                            merge,
                            policy,
                            selection,
                            scope,
                            true,
                            run,
                            identities,
                            identities_after,
                            middle,
                            log_applied,
                            result,
                        )
                        &&& #[trigger] finishes(
                            applied,
                            database,
                            metered,
                            log_applied,
                            log_after,
                            failure(result),
                            ended,
                        )
                        &&& done == (match (result, ended) {
                            (Ok((stats, outcome)), Ok((after, step))) => Ok(
                                (stats, outcome, after, step),
                            ),
                            (Ok(_), Err(fault)) => Err(fault),
                            (Err(fault), _) => Err(fault),
                        })
                    },
            }
        }
}

/// How an authorized relationship MERGE runs, whatever the host and the selection
/// answer. The relation is checked even where the selection would be empty.
pub open spec fn runs_edge_merge(
    database: Database,
    namespace: u64,
    verified: Result<Predicates, Denial>,
    merge: GraphEdgeMerge,
    policy: GraphEdgeMergePolicy,
    metered: Metering,
    identities: IdentityState,
    identities_after: IdentityState,
    log: Seq<Event>,
    log_after: Seq<Event>,
    asked: Seq<Choosing>,
    asked_after: Seq<Choosing>,
    done: Result<(GraphEdgeMergeStats, GraphEdgeMergeOutcome, WriteTxn, CompletionStep), Fault>,
) -> bool {
    let gate = whole(
        opening_steps(database, namespace, verified, true, Some(merge.relation), false),
    ).lift(source());
    ||| done is Err && asked_after == asked && identities_after == identities && obeys(
        log,
        log_after,
        gate,
        source(),
        failure(done),
    )
    ||| exists|opened: WriteTxn, middle: Seq<Event>|
        {
            &&& #[trigger] obeys(log, middle, gate, source(), None)
            &&& begun(opened, database)
            &&& verified is Ok
            &&& #[trigger] continues_edge_merge(
                opened,
                database,
                merge,
                policy,
                verified->Ok_0,
                metered,
                identities,
                identities_after,
                middle,
                log_after,
                asked,
                asked_after,
                done,
            )
        }
}

impl Database {
    /// Match or create one directed relationship. Each matched or created receipt
    /// costs one signed row before publication; no input costs none.
    pub fn prepare_graph_edge_merge_authorized<S: ScopedSelector, H: Host>(
        &self,
        namespace: u64,
        verified: &Result<Predicates, Denial>,
        merge: &GraphEdgeMerge,
        policy: GraphEdgeMergePolicy,
        identities: &mut IdentityState,
        selector: &mut ScopedRecord<S>,
        session: &mut Session<H>,
    ) -> (done: Result<(GraphEdgeMergeStats, GraphEdgeMergeOutcome, WriteTxn, CompletionStep), Fault>)
        requires
            self.wf(),
            merge.wf(),
        ensures
            final(session).metered() == old(session).metered(),
            done matches Ok((_, _, ended, step)) ==> ready(ended, *self, step),
            runs_edge_merge(
                *self,
                namespace,
                *verified,
                *merge,
                policy,
                old(session).metered(),
                *old(identities),
                *final(identities),
                old(session).log(),
                final(session).log(),
                old(selector).asked(),
                final(selector).asked(),
                done,
            ),
    {
        let ghost start = session.log();
        let ghost metered = session.metered();
        let ghost ids = *identities;
        let ghost asked = selector.asked();
        let relation = Some(merge.relation);
        let ghost gate = whole(
            opening_steps(*self, namespace, *verified, true, relation, false),
        );
        let opening = self.open_authorized(namespace, verified, true, relation, false, session);
        let ghost middle = session.log();
        proof {
            lemma_obeys_lift(start, middle, gate, source(), failure(opening));
        }
        let mut transaction = match opening {
            Ok(transaction) => transaction,
            Err(error) => return Err(Fault::Source(error)),
        };
        let ghost opened = transaction;
        let scope = match verified {
            Ok(scope) => scope,
            Err(denial) => {
                proof {
                    lemma_unverified(
                        *self, namespace, *verified, true, relation, false, start, middle,
                    );
                }
                return Err(Fault::Source(WriteTxnError::Authorization(*denial)));
            },
        };
        let chosen = choose_pairs(
            &mut transaction,
            self,
            merge,
            policy,
            scope,
            selector,
            session,
        );
        let ghost read = transaction;
        let ghost log_read = session.log();
        let ghost kept = chosen;
        let ghost choice = choose|choice: ChoiceRun| #[trigger]
            chooses(
                opened, read, *self, *merge, policy, *scope, middle, log_read, asked,
                selector.asked(), choice, kept,
            );
        assert(obeys(start, middle, gate.lift(source()), source(), None));
        assert(chooses(
            opened, read, *self, *merge, policy, *scope, middle, log_read, asked,
            selector.asked(), choice, kept,
        ));
        let selection = match chosen {
            Ok(selection) => selection,
            Err(fault) => {
                assert(continues_edge_merge(
                    opened, *self, *merge, policy, *scope, metered, ids, *identities, middle,
                    session.log(), asked, selector.asked(), Err(fault),
                ));
                return Err(fault);
            },
        };
        let result = merge_selected(
            &mut transaction,
            self,
            merge,
            policy,
            &selection,
            true,
            scope,
            identities,
            session,
        );
        let ghost applied = transaction;
        let ghost log_applied = session.log();
        let ghost run = choose|run: EdgeMergeRun| #[trigger]
            merges_selected(
                read, applied, *self, *merge, policy, selection, *scope, true, run, ids,
                *identities, log_read, log_applied, result,
            );
        let (stats, outcome) = match result {
            Ok(report) => report,
            Err(fault) => {
                proof {
                    let ended = Err::<(WriteTxn, CompletionStep), Fault>(fault);
                    assert(finishes(
                        applied, *self, metered, log_applied, session.log(), failure(result), ended,
                    ));
                    assert(continues_edge_merge(
                        opened, *self, *merge, policy, *scope, metered, ids, *identities, middle,
                        session.log(), asked, selector.asked(), Err(fault),
                    ));
                }
                return Err(fault);
            },
        };
        match transaction.complete_controlled(self, false, session) {
            Ok(step) => {
                proof {
                    let ended = Ok::<(WriteTxn, CompletionStep), Fault>((transaction, step));
                    assert(finishes(
                        applied, *self, metered, log_applied, session.log(), failure(result), ended,
                    ));
                    assert(continues_edge_merge(
                        opened, *self, *merge, policy, *scope, metered, ids, *identities, middle,
                        session.log(), asked, selector.asked(),
                        Ok((stats, outcome, transaction, step)),
                    ));
                }
                Ok((stats, outcome, transaction, step))
            },
            Err(error) => {
                proof {
                    assert(closes(
                        applied, transaction, *self, false, metered, log_applied, session.log(),
                        Err::<CompletionStep, WriteTxnError>(error),
                    ));
                    let ended = Err::<(WriteTxn, CompletionStep), Fault>(Fault::Source(error));
                    assert(finishes(
                        applied, *self, metered, log_applied, session.log(), failure(result), ended,
                    ));
                    assert(continues_edge_merge(
                        opened, *self, *merge, policy, *scope, metered, ids, *identities, middle,
                        session.log(), asked, selector.asked(), Err(Fault::Source(error)),
                    ));
                }
                Err(Fault::Source(error))
            },
        }
    }
}

} // verus!
