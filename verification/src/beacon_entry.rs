//! Searches from end to end: open, read the whole corpus, select documents, expand
//! the graph lane, evaluate, settle. Every lane shares one allowance.

use vstd::prelude::*;
use crate::beacon::{
    cancelled, charge_plan, drained, engine_plan, BeaconError, Control, Meter, ReadError,
    SearchLimits, SearchResource,
};
use crate::beacon_corpus::{overlay_at, Corpus, Incidence};
use crate::beacon_graph::{check_seeds, expands, scans_edges};
use crate::beacon_overlay::{blank, Overlay, OverlayView};
use crate::beacon_search::{
    law_staged_corpus_is_the_committed_corpus, opening_plan, reads_corpus, search_interrupted,
    select_plan, selected, selected_meter,
};
use crate::database::Database;
use crate::engine::{
    lane_of, EngineRecord, EngineStep, Expansion, Hit, SearchEngine, Worked,
};
use crate::errors::WriteTxnError;
use crate::graph::{EdgeRecord, VertexRow};
use crate::ids::{CommitSeq, LabelId, PropertyKeyId, VId};
use crate::idset::{increasing, lemma_sorted_unique, IdMap, IdSet};
use crate::plan::{
    failure, go, lemma_obeys_and, lemma_obeys_failed, lemma_obeys_nothing, obeys,
};
use crate::read_laws::published;
use crate::script::{
    lemma_performs_nothing, lemma_performs_one, lemma_performs_then, performs, Rule,
};
use crate::session::{refused, Event, Host, Session};
use crate::txn::{same_workspace, WriteTxn};

verus! {

/// What a search is allowed and restricted to.
#[derive(Clone, Copy, PartialEq, Eq, Structural, Debug)]
pub struct SearchOptions {
    pub as_of: Option<CommitSeq>,
    pub vertex_label: Option<LabelId>,
    pub max_work_units: u64,
    pub limits: SearchLimits,
    pub max_staging_rows: u64,
}

/// What the candidates show, in key order.
pub open spec fn candidates(rows: IdMap<Overlay>) -> Seq<OverlayView> {
    Seq::new(rows.key_seq().len(), |i: int| overlay_at(rows, VId(rows.key_seq()[i])))
}

/// The selected documents among the first `n` candidates.
pub open spec fn documents_upto(rows: IdMap<Overlay>, label: Option<LabelId>, n: int) -> Seq<VId>
    decreases n,
{
    if n <= 0 {
        Seq::empty()
    } else {
        let earlier = documents_upto(rows, label, n - 1);
        if selected(candidates(rows)[n - 1], label) {
            earlier.push(VId(rows.key_seq()[n - 1]))
        } else {
            earlier
        }
    }
}

/// One candidate as it was examined, with what the engines answered where they were
/// asked to project it.
pub struct Examined {
    pub document: VId,
    pub overlay: OverlayView,
    pub answer: Option<Worked<()>>,
}

/// How candidates are decided: one allowance, and one ceiling on documents. A selected
/// document is projected before the next candidate is looked at.
pub open spec fn selecting(label: Option<LabelId>, limit: u64) -> Rule<
    (Meter, u64),
    Examined,
    BeaconError,
> {
    Rule {
        plan: |state: (Meter, u64), item: Examined|
            select_plan(state.0, item.overlay, label, state.1, limit).and(
                match item.answer {
                    Some(answer) => engine_plan(
                        selected_meter(state.0, item.overlay),
                        answer.charges@,
                        failure(answer.outcome),
                    ),
                    None => go(),
                },
            ),
        next: |state: (Meter, u64), item: Examined|
            match item.answer {
                Some(answer) => (
                    drained(
                        selected_meter(state.0, item.overlay),
                        answer.charges@,
                        answer.charges@.len() as int,
                    ),
                    (state.1 + 1) as u64,
                ),
                None => (selected_meter(state.0, item.overlay), state.1),
            },
    }
}

/// The candidates were examined in key order. The engines are asked about the selected
/// ones; only about the last one examined may a refusal have come first.
pub open spec fn examines(
    rows: IdMap<Overlay>,
    label: Option<LabelId>,
    examined: Seq<Examined>,
    complete: bool,
) -> bool {
    &&& examined.len() <= rows.key_seq().len()
    &&& complete ==> examined.len() == rows.key_seq().len()
    &&& forall|i: int|
        0 <= i < examined.len() ==> {
            &&& (#[trigger] examined[i]).document == VId(rows.key_seq()[i])
            &&& examined[i].overlay == candidates(rows)[i]
            &&& examined[i].answer is Some ==> selected(examined[i].overlay, label)
            &&& complete || i < examined.len() - 1 ==> (examined[i].answer is Some
                <==> selected(examined[i].overlay, label))
        }
}

/// What the engines were asked over the first `n` examined candidates.
pub open spec fn projections(examined: Seq<Examined>, n: int) -> Seq<EngineStep>
    decreases n,
{
    if n <= 0 {
        Seq::empty()
    } else {
        let earlier = projections(examined, n - 1);
        let item = examined[n - 1];
        match item.answer {
            Some(answer) => earlier.push(
                EngineStep::Project { document: item.document, row: item.overlay, answer },
            ),
            None => earlier,
        }
    }
}

proof fn lemma_projections_push(examined: Seq<Examined>, item: Examined, n: int)
    requires
        0 <= n <= examined.len(),
    ensures
        projections(examined.push(item), n) == projections(examined, n),
    decreases n,
{
    if n > 0 {
        lemma_projections_push(examined, item, n - 1);
        assert(examined.push(item)[n - 1] == examined[n - 1]);
    }
}

/// Every candidate was decided in order, or the first refusal ended it.
pub open spec fn collects(
    before: Corpus,
    after: Corpus,
    label: Option<LabelId>,
    limit: u64,
    examined: Seq<Examined>,
    log: Seq<Event>,
    log_after: Seq<Event>,
    documents: Result<Vec<VId>, BeaconError>,
) -> bool {
    let n = before.rows.key_seq().len() as int;
    &&& examines(before.rows, label, examined, documents is Ok)
    &&& performs(
        selecting(label, limit),
        cancelled(),
        (before.control.meter, 0),
        examined,
        (after.control.meter, documents_upto(before.rows, label, n).len() as u64),
        log,
        log_after,
        failure(documents),
    )
    &&& after.rows == before.rows
    &&& after.changes == before.changes
    &&& after.emitted == before.emitted
    &&& after.control.limits == before.control.limits
    &&& after.control.interrupted == refused(log, log_after)
    &&& documents matches Ok(found) ==> found@ == documents_upto(before.rows, label, n)
}

impl Corpus {
    /// Decide one candidate, and have it projected where it is selected.
    fn examine<E: SearchEngine, H: Host>(
        &mut self,
        at: usize,
        label: Option<LabelId>,
        documents: u64,
        limit: u64,
        engine: &mut EngineRecord<E>,
        session: &mut Session<H>,
    ) -> (done: (Result<Option<VId>, BeaconError>, Ghost<Examined>))
        requires
            old(self).wf(),
            old(self).control.interrupted is None,
            at < old(self).rows.key_seq().len(),
            documents < u64::MAX,
        ensures
            final(self).wf(),
            final(self).rows == old(self).rows,
            final(self).changes == old(self).changes,
            final(self).emitted == old(self).emitted,
            final(self).control.limits == old(self).control.limits,
            final(session).metered() == old(session).metered(),
            final(self).control.interrupted == refused(old(session).log(), final(session).log()),
            crate::session::ran(old(session).log(), final(session).log()),
            done.0 is Ok ==> refused(old(session).log(), final(session).log()) is None,
            ({
                let item = done.1@;
                let rule = selecting(label, limit);
                let state = (old(self).control.meter, documents);
                &&& item.document == VId(old(self).rows.key_seq()[at as int])
                &&& item.overlay == candidates(old(self).rows)[at as int]
                &&& item.answer is Some ==> selected(item.overlay, label)
                &&& obeys(
                    old(session).log(),
                    final(session).log(),
                    (rule.plan)(state, item),
                    cancelled(),
                    failure(done.0),
                )
                &&& final(engine).asked() == (match item.answer {
                    Some(answer) => old(engine).asked().push(
                        EngineStep::Project { document: item.document, row: item.overlay, answer },
                    ),
                    None => old(engine).asked(),
                })
                &&& done.0 matches Ok(found) ==> {
                    &&& item.answer is Some <==> selected(item.overlay, label)
                    &&& found == (if selected(item.overlay, label) {
                        Some(item.document)
                    } else {
                        None
                    })
                    &&& (rule.next)(state, item) == (
                        final(self).control.meter,
                        if selected(item.overlay, label) {
                            (documents + 1) as u64
                        } else {
                            documents
                        },
                    )
                }
            }),
    {
        let ghost start = session.log();
        let ghost meter = self.control.meter;
        let ghost keys = self.rows.key_seq();
        let ghost mut item = Examined {
            document: VId(keys[at as int]),
            overlay: candidates(self.rows)[at as int],
            answer: None,
        };
        let ghost first = select_plan(meter, item.overlay, label, documents, limit);
        let found = self.select(at, label, documents, limit, session);
        let ghost middle = session.log();
        let vid = match found {
            Err(error) => {
                proof {
                    lemma_obeys_failed(
                        start, middle, first, go(), cancelled(), Some(error),
                    );
                }
                return (Err(error), Ghost(item));
            },
            Ok(None) => {
                proof {
                    lemma_obeys_nothing(middle, cancelled());
                    lemma_obeys_and(start, middle, middle, first, go(), cancelled(), None);
                }
                return (Ok(None), Ghost(item));
            },
            Ok(Some(vid)) => vid,
        };
        proof {
            self.rows.lemma_position(at as int);
        }
        let answer = engine.project(vid, self.rows.value_at(at));
        let stopped = match answer.outcome {
            Ok(()) => None,
            Err(error) => Some(error),
        };
        let ghost second = engine_plan(
            selected_meter(meter, item.overlay),
            answer.charges@,
            failure(answer.outcome),
        );
        let paid = self.control.pay_engine(&answer.charges, stopped, session);
        proof {
            item = Examined { answer: Some(answer), ..item };
            lemma_obeys_and(
                start, middle, session.log(), first, second, cancelled(), failure(paid),
            );
            crate::session::lemma_ran_compose(start, middle, session.log());
        }
        match paid {
            Ok(()) => (Ok(Some(vid)), Ghost(item)),
            Err(error) => (Err(error), Ghost(item)),
        }
    }

    /// Select and project the documents of a search.
    pub fn collect<E: SearchEngine, H: Host>(
        &mut self,
        label: Option<LabelId>,
        limit: u64,
        engine: &mut EngineRecord<E>,
        session: &mut Session<H>,
    ) -> (documents: Result<Vec<VId>, BeaconError>)
        requires
            old(self).wf(),
            old(self).control.interrupted is None,
        ensures
            final(self).wf(),
            final(session).metered() == old(session).metered(),
            exists|examined: Seq<Examined>|
                {
                    &&& #[trigger] collects(
                        *old(self),
                        *final(self),
                        label,
                        limit,
                        examined,
                        old(session).log(),
                        final(session).log(),
                        documents,
                    )
                    &&& final(engine).asked() == old(engine).asked() + projections(
                        examined,
                        examined.len() as int,
                    )
                },
    {
        let ghost before = *self;
        let ghost start = session.log();
        let ghost asked = engine.asked();
        let ghost rule = selecting(label, limit);
        let ghost n = before.rows.key_seq().len() as int;
        let ghost first = (before.control.meter, 0u64);
        let ghost mut examined: Seq<Examined> = Seq::empty();
        let mut documents: Vec<VId> = Vec::new();
        let mut i: usize = 0;
        proof {
            lemma_performs_nothing(rule, cancelled(), first, start);
            crate::session::lemma_ran_nothing(start);
            assert(asked + projections(examined, 0) =~= asked);
        }
        while i < self.rows.len()
            invariant
                i <= n,
                n == before.rows.key_seq().len(),
                before == *old(self),
                start == old(session).log(),
                asked == old(engine).asked(),
                rule == selecting(label, limit),
                first == (before.control.meter, 0u64),
                session.metered() == old(session).metered(),
                self.wf(),
                self.rows == before.rows,
                self.changes == before.changes,
                self.emitted == before.emitted,
                self.control.limits == before.control.limits,
                self.control.interrupted is None,
                crate::session::ran(start, session.log()),
                refused(start, session.log()) is None,
                documents@ == documents_upto(before.rows, label, i as int),
                documents@.len() <= i,
                examined.len() == i,
                forall|k: int|
                    0 <= k < i ==> {
                        &&& (#[trigger] examined[k]).document == VId(before.rows.key_seq()[k])
                        &&& examined[k].overlay == candidates(before.rows)[k]
                        &&& examined[k].answer is Some <==> selected(examined[k].overlay, label)
                    },
                engine.asked() == asked + projections(examined, i as int),
                performs(
                    rule,
                    cancelled(),
                    first,
                    examined,
                    (self.control.meter, documents@.len() as u64),
                    start,
                    session.log(),
                    None,
                ),
            decreases n - i,
        {
            let ghost log = session.log();
            let ghost state = (self.control.meter, documents@.len() as u64);
            let ghost seen = examined;
            let (found, item) = self.examine(
                i,
                label,
                documents.len() as u64,
                limit,
                engine,
                session,
            );
            proof {
                let next = (rule.next)(state, item@);
                lemma_performs_one(
                    rule, cancelled(), state, item@, next, log, session.log(), failure(found),
                );
                lemma_performs_then(
                    rule, cancelled(), first, seen, state, seq![item@], next, start, log,
                    session.log(), failure(found),
                );
                examined = seen.push(item@);
                assert(seen + seq![item@] =~= examined);
                lemma_projections_push(seen, item@, i as int);
                assert(engine.asked() =~= asked + projections(examined, i + 1));
                crate::session::lemma_ran_compose(start, log, session.log());
            }
            match found {
                Err(error) => {
                    assert(collects(
                        before, *self, label, limit, examined, start, session.log(), Err(error),
                    ));
                    return Err(error);
                },
                Ok(Some(vid)) => {
                    documents.push(vid);
                },
                Ok(None) => {},
            }
            i += 1;
        }
        assert(collects(
            before, *self, label, limit, examined, start, session.log(), Ok(documents),
        ));
        Ok(documents)
    }
}

/// What a search reports of a stage: the cause of its cancellation, or its own
/// refusal.
pub open spec fn reported(interrupted: Option<WriteTxnError>, error: BeaconError) -> ReadError {
    match interrupted {
        Some(cause) => ReadError::Interrupted(cause),
        None => ReadError::Index(error),
    }
}

/// The refusal of too many seeds.
pub open spec fn seeds_fault(expansion: Option<Expansion>) -> Option<BeaconError> {
    match expansion {
        Some(lane) => if lane.seeds@.len() > lane.max_seed_ids {
            Some(
                BeaconError::ResourceLimit {
                    resource: SearchResource::ExpansionSeeds,
                    limit: lane.max_seed_ids,
                },
            )
        } else {
            None
        },
        None => None,
    }
}

/// Whether the graph lane reads edges.
pub open spec fn expanding(expansion: Option<Expansion>) -> bool {
    expansion matches Some(lane) && lane.max_hops > 0 && lane.seeds@.len() > 0
}

/// The stages of a search.
pub struct SearchRun {
    pub opened: Corpus,
    pub ready: Corpus,
    pub read: Corpus,
    pub collected: Corpus,
    pub expanded: Corpus,
    pub read_txn: WriteTxn,
    pub winners: Seq<VertexRow>,
    pub records: Seq<EdgeRecord>,
    pub keys: Seq<u128>,
    pub log_opened: Seq<Event>,
    pub log_validated: Seq<Event>,
    pub log_read: Seq<Event>,
    pub log_collected: Seq<Event>,
    pub log_expanded: Seq<Event>,
    pub refused: Option<ReadError>,
    pub validated: Worked<u64>,
    pub invalid: Option<BeaconError>,
    pub examined: Seq<Examined>,
    pub read_failed: Option<BeaconError>,
    pub documents: Result<Vec<VId>, BeaconError>,
    pub expand_failed: Option<BeaconError>,
    pub answer: Worked<Vec<Hit>>,
}

/// A corpus that was just opened.
pub open spec fn fresh_corpus(corpus: Corpus, options: SearchOptions) -> bool {
    &&& corpus.wf()
    &&& corpus.rows@ =~= Map::<u128, Overlay>::empty()
    &&& corpus.changes@ =~= Map::<u128, Option<Incidence>>::empty()
    &&& corpus.emitted@.len() == 0
    &&& corpus.control.limits == options.limits
    &&& corpus.control.interrupted is None
    &&& corpus.control.meter == (Meter {
        remaining: (options.max_work_units - 1) as u64,
        scratch: 0,
        expansion: 0,
    })
}

/// The most documents that both the options and the index admit.
pub open spec fn document_limit(options: SearchOptions, admitted: u64) -> u64 {
    if options.max_staging_rows < admitted {
        options.max_staging_rows
    } else {
        admitted
    }
}

/// The raw identities of some documents.
pub open spec fn members_of(documents: Seq<VId>) -> Set<u128> {
    Set::new(|raw: u128| documents.contains(VId(raw)))
}

/// The end of a search whose documents and incidences are known: the engines' charges,
/// their outcome, and one last live gate.
pub open spec fn evaluates(
    meter: Meter,
    answer: Worked<Vec<Hit>>,
    log: Seq<Event>,
    log_after: Seq<Event>,
    result: Result<Vec<Hit>, ReadError>,
) -> bool {
    let charges = answer.charges@;
    exists|stop: Option<BeaconError>|
        {
            &&& #[trigger] obeys(
                log,
                log_after,
                engine_plan(meter, charges, failure(answer.outcome)).and(
                    charge_plan(drained(meter, charges, charges.len() as int), 1),
                ),
                cancelled(),
                stop,
            )
            &&& match stop {
                Some(error) => failure(result) == Some(reported(refused(log, log_after), error)),
                None => answer.outcome is Ok && result == Ok::<Vec<Hit>, ReadError>(
                    answer.outcome->Ok_0,
                ),
            }
        }
}

/// What the engines were asked: to validate once the search is open, to project each
/// selected document, and to evaluate once documents and incidences are known.
pub open spec fn consults(
    expansion: Option<Expansion>,
    run: SearchRun,
    asked: Seq<EngineStep>,
    asked_after: Seq<EngineStep>,
) -> bool {
    let validated = asked.push(EngineStep::Validate { answer: run.validated });
    let projected = validated + projections(run.examined, run.examined.len() as int);
    if run.refused is Some {
        asked_after == asked
    } else if run.invalid is Some || seeds_fault(expansion) is Some || run.read_failed is Some {
        asked_after == validated
    } else if run.documents is Err || (expanding(expansion) && run.expand_failed is Some) {
        asked_after == projected
    } else {
        asked_after == projected.push(
            EngineStep::Evaluate {
                corpus: run.expanded,
                documents: run.documents->Ok_0@,
                lane: expansion,
                answer: run.answer,
            },
        )
    }
}

/// How a search runs, whatever the host and the engines answer. A failed search
/// returns no prefix, and keeps what it observed.
pub open spec fn searches(
    before: WriteTxn,
    after: WriteTxn,
    database: Database,
    options: SearchOptions,
    expansion: Option<Expansion>,
    run: SearchRun,
    log: Seq<Event>,
    log_after: Seq<Event>,
    asked: Seq<EngineStep>,
    asked_after: Seq<EngineStep>,
    result: Result<Vec<Hit>, ReadError>,
) -> bool {
    &&& consults(expansion, run, asked, asked_after)
    &&& obeys(
        log,
        run.log_opened,
        opening_plan(before, database, options.as_of, options.max_work_units),
        search_interrupted(),
        run.refused,
    )
    &&& match run.refused {
        Some(error) => {
            &&& failure(result) == Some(error)
            &&& after == before
            &&& log_after == run.log_opened
        },
        None => {
            &&& fresh_corpus(run.opened, options)
            &&& validates(run)
            &&& if run.invalid is Some {
                &&& failure(result) == Some(
                    reported(refused(run.log_opened, run.log_validated), run.invalid->0),
                )
                &&& after == before
                &&& log_after == run.log_validated
            } else if seeds_fault(expansion) is Some {
                &&& failure(result) == Some(ReadError::Index(seeds_fault(expansion)->0))
                &&& after == before
                &&& log_after == run.log_validated
            } else {
                &&& reads_corpus(
                    before,
                    run.read_txn,
                    database,
                    options.vertex_label,
                    run.winners,
                    run.ready,
                    run.read,
                    run.log_validated,
                    run.log_read,
                    run.read_failed,
                )
                &&& run.read.rows.wf()
                &&& match run.read_failed {
                    Some(error) => {
                        &&& failure(result) == Some(
                            reported(run.read.control.interrupted, error),
                        )
                        &&& after == run.read_txn
                        &&& log_after == run.log_read
                    },
                    None => selects_and_evaluates(
                        after,
                        database,
                        options,
                        expansion,
                        run.validated.outcome->Ok_0,
                        run,
                        log_after,
                        result,
                    ),
                }
            }
        },
    }
}

/// The query was validated, and what that charged is paid before the corpus is read.
pub open spec fn validates(run: SearchRun) -> bool {
    let meter = run.opened.control.meter;
    let charges = run.validated.charges@;
    &&& obeys(
        run.log_opened,
        run.log_validated,
        engine_plan(meter, charges, failure(run.validated.outcome)),
        cancelled(),
        run.invalid,
    )
    &&& run.invalid is None ==> {
        &&& run.validated.outcome is Ok
        &&& run.ready == Corpus {
            control: Control {
                meter: drained(meter, charges, charges.len() as int),
                ..run.opened.control
            },
            ..run.opened
        }
    }
}

/// The second half of a search: documents, the graph lane, the engines.
pub open spec fn selects_and_evaluates(
    after: WriteTxn,
    database: Database,
    options: SearchOptions,
    expansion: Option<Expansion>,
    admitted: u64,
    run: SearchRun,
    log_after: Seq<Event>,
    result: Result<Vec<Hit>, ReadError>,
) -> bool {
    &&& collects(
        run.read,
        run.collected,
        options.vertex_label,
        document_limit(options, admitted),
        run.examined,
        run.log_read,
        run.log_collected,
        run.documents,
    )
    &&& match run.documents {
        Err(error) => {
            &&& failure(result) == Some(reported(run.collected.control.interrupted, error))
            &&& after == run.read_txn
            &&& log_after == run.log_collected
        },
        Ok(documents) => if expanding(expansion) {
            &&& expands(
                run.read_txn,
                after,
                database,
                expansion->0.relation,
                members_of(documents@),
                run.records,
                run.keys,
                run.collected,
                run.expanded,
                run.log_collected,
                run.log_expanded,
                run.expand_failed,
            )
            &&& match run.expand_failed {
                Some(error) => {
                    &&& failure(result) == Some(reported(run.expanded.control.interrupted, error))
                    &&& log_after == run.log_expanded
                },
                None => evaluates(
                    run.expanded.control.meter,
                    run.answer,
                    run.log_expanded,
                    log_after,
                    result,
                ),
            }
        } else {
            &&& after == run.read_txn
            &&& run.expanded == run.collected
            &&& run.log_expanded == run.log_collected
            &&& evaluates(
                run.expanded.control.meter,
                run.answer,
                run.log_expanded,
                log_after,
                result,
            )
        },
    }
}

fn list_members(documents: &Vec<VId>) -> (members: IdSet)
    ensures
        members.wf(),
        members@ == members_of(documents@),
{
    let mut members = IdSet::new();
    let mut i: usize = 0;
    proof {
        assert(members_of(documents@.take(0)) =~= Set::<u128>::empty());
    }
    while i < documents.len()
        invariant
            i <= documents.len(),
            members.wf(),
            members@ =~= members_of(documents@.take(i as int)),
        decreases documents.len() - i,
    {
        members.insert(documents[i].0);
        proof {
            let seen = documents@.take(i as int);
            let next = documents@.take(i + 1);
            assert(next =~= seen.push(documents@[i as int]));
            assert forall|raw: u128| #[trigger]
                members_of(next).contains(raw) == members_of(seen).insert(
                    documents@[i as int].0,
                ).contains(raw) by {
                if next.contains(VId(raw)) {
                    let k = next.index_of(VId(raw));
                    if k < i {
                        assert(seen[k] == VId(raw));
                    }
                }
                if seen.contains(VId(raw)) {
                    let k = seen.index_of(VId(raw));
                    assert(next[k] == VId(raw));
                }
                assert(next[i as int] == documents@[i as int]);
            }
            assert(members_of(next) =~= members_of(seen).insert(documents@[i as int].0));
        }
        i += 1;
    }
    proof {
        assert(documents@.take(i as int) =~= documents@);
    }
    members
}

impl Corpus {
    /// Have the query evaluated, pay for it, and pass the last gate.
    fn evaluate<E: SearchEngine, H: Host>(
        &mut self,
        documents: &Vec<VId>,
        lane: Option<&Expansion>,
        engine: &mut EngineRecord<E>,
        session: &mut Session<H>,
    ) -> (done: (Result<Vec<Hit>, ReadError>, Ghost<Worked<Vec<Hit>>>))
        requires
            old(self).wf(),
            old(self).control.interrupted is None,
        ensures
            final(session).metered() == old(session).metered(),
            final(engine).asked() == old(engine).asked().push(
                EngineStep::Evaluate {
                    corpus: *old(self),
                    documents: documents@,
                    lane: lane_of(lane),
                    answer: done.1@,
                },
            ),
            evaluates(
                old(self).control.meter,
                done.1@,
                old(session).log(),
                final(session).log(),
                done.0,
            ),
    {
        let ghost start = session.log();
        let answer = engine.evaluate(self, documents, lane);
        let ghost replied = answer;
        let stopped = match &answer.outcome {
            Ok(_) => None,
            Err(error) => Some(*error),
        };
        let ghost meter = self.control.meter;
        let ghost charges = answer.charges@;
        let ghost first = engine_plan(meter, charges, stopped);
        let ghost gate = charge_plan(drained(meter, charges, charges.len() as int), 1);
        let paid = self.control.pay_engine(&answer.charges, stopped, session);
        let ghost middle = session.log();
        if let Err(error) = paid {
            let refusal = self.control.settle::<Vec<Hit>>(Err(error));
            proof {
                lemma_obeys_failed(start, middle, first, gate, cancelled(), Some(error));
            }
            return (refusal, Ghost(replied));
        }
        let closed = self.control.charge(1, session);
        proof {
            lemma_obeys_and(
                start, middle, session.log(), first, gate, cancelled(), failure(closed),
            );
            crate::session::lemma_ran_compose(start, middle, session.log());
        }
        let result = match closed {
            Err(error) => self.control.settle::<Vec<Hit>>(Err(error)),
            Ok(()) => match answer.outcome {
                Ok(hits) => Ok(hits),
                Err(error) => Err(ReadError::Index(error)),
            },
        };
        (result, Ghost(replied))
    }
}

impl WriteTxn {
    #[verifier::spinoff_prover]
    #[verifier::rlimit(60)]
    fn beacon_read<E: SearchEngine, H: Host>(
        &mut self,
        database: &Database,
        options: SearchOptions,
        expansion: Option<&Expansion>,
        engine: &mut EngineRecord<E>,
        session: &mut Session<H>,
    ) -> (result: Result<Vec<Hit>, ReadError>)
        requires
            old(self).wf(),
            database.wf(),
        ensures
            final(self).wf(),
            final(session).metered() == old(session).metered(),
            exists|run: SearchRun| #[trigger]
                searches(
                    *old(self),
                    *final(self),
                    *database,
                    options,
                    lane_of(expansion),
                    run,
                    old(session).log(),
                    final(session).log(),
                    old(engine).asked(),
                    final(engine).asked(),
                    result,
                ),
    {
        let ghost before = *self;
        let ghost start = session.log();
        let ghost lane = lane_of(expansion);
        let ghost asked = engine.asked();
        let ghost mut run: SearchRun = arbitrary();
        let opening = self.begin_search(
            database,
            options.as_of,
            options.max_work_units,
            options.limits,
            session,
        );
        proof {
            run.log_opened = session.log();
            run.refused = failure(opening);
        }
        let mut corpus = match opening {
            Ok(corpus) => corpus,
            Err(error) => {
                assert(searches(
                    before, *self, *database, options, lane, run, start, session.log(), asked,
                    engine.asked(), Err(error),
                ));
                return Err(error);
            },
        };
        let validated = engine.validate();
        proof {
            run.opened = corpus;
            run.validated = validated;
        }
        let stopped = match validated.outcome {
            Ok(_) => None,
            Err(error) => Some(error),
        };
        let paid = corpus.control.pay_engine(&validated.charges, stopped, session);
        proof {
            run.ready = corpus;
            run.log_validated = session.log();
            run.invalid = failure(paid);
        }
        if let Err(error) = paid {
            let refusal = corpus.control.settle::<Vec<Hit>>(Err(error));
            assert(searches(
                before, *self, *database, options, lane, run, start, session.log(), asked,
                engine.asked(), refusal,
            ));
            return refusal;
        }
        let limit: u64 = match validated.outcome {
            Ok(admitted) => if options.max_staging_rows < admitted {
                options.max_staging_rows
            } else {
                admitted
            },
            Err(_) => 0,
        };
        if let Some(graph) = expansion {
            if let Err(error) = check_seeds(graph.seeds.len(), graph.max_seed_ids) {
                assert(searches(
                    before, *self, *database, options, lane, run, start, session.log(), asked,
                    engine.asked(), Err(ReadError::Index(error)),
                ));
                return Err(ReadError::Index(error));
            }
        }
        assert(seeds_fault(lane) is None);
        let read = self.read_corpus(database, options.vertex_label, &mut corpus, session);
        proof {
            let winners = choose|winners: Seq<VertexRow>| #[trigger]
                reads_corpus(
                    before, *self, *database, options.vertex_label, winners, run.ready, corpus,
                    run.log_validated, session.log(), failure(read),
                );
            run.winners = winners;
            run.read = corpus;
            run.read_txn = *self;
            run.log_read = session.log();
            run.read_failed = failure(read);
        }
        if let Err(error) = read {
            let refusal = corpus.control.settle::<Vec<Hit>>(Err(error));
            assert(searches(
                before, *self, *database, options, lane, run, start, session.log(), asked,
                    engine.asked(), refusal,
            ));
            return refusal;
        }
        proof {
            assert(refused(run.log_validated, run.log_read) is None);
        }
        let ghost asked_read = engine.asked();
        let collected = corpus.collect(options.vertex_label, limit, engine, session);
        proof {
            run.examined = choose|examined: Seq<Examined>|
                {
                    &&& #[trigger] collects(
                        run.read, corpus, options.vertex_label, limit, examined, run.log_read,
                        session.log(), collected,
                    )
                    &&& engine.asked() == asked_read + projections(
                        examined,
                        examined.len() as int,
                    )
                };
            run.collected = corpus;
            run.log_collected = session.log();
            run.documents = collected;
        }
        let documents = match collected {
            Ok(documents) => documents,
            Err(error) => {
                let refusal = corpus.control.settle::<Vec<Hit>>(Err(error));
                assert(searches(
                    before, *self, *database, options, lane, run, start, session.log(), asked,
                    engine.asked(), refusal,
                ));
                return refusal;
            },
        };
        let expand = match expansion {
            Some(graph) => scans_edges(graph.max_hops, graph.seeds.len()),
            None => false,
        };
        assert(expand == expanding(lane));
        assert(refused(run.log_read, run.log_collected) is None);
        if expand {
            let relation = match expansion {
                Some(graph) => graph.relation,
                None => None,
            };
            let members = list_members(&documents);
            let expanded = self.beacon_graph_edges(
                database,
                relation,
                &members,
                &mut corpus,
                session,
            );
            proof {
                let (records, keys) = choose|records: Seq<EdgeRecord>, keys: Seq<u128>| #[trigger]
                    expands(
                        run.read_txn, *self, *database, relation, members@, records, keys,
                        run.collected, corpus, run.log_collected, session.log(), failure(expanded),
                    );
                run.records = records;
                run.keys = keys;
                run.expanded = corpus;
                run.log_expanded = session.log();
                run.expand_failed = failure(expanded);
            }
            if let Err(error) = expanded {
                let refusal = corpus.control.settle::<Vec<Hit>>(Err(error));
                assert(searches(
                    before, *self, *database, options, lane, run, start, session.log(), asked,
                    engine.asked(), refusal,
                ));
                return refusal;
            }
        } else {
            proof {
                run.expanded = corpus;
                run.log_expanded = session.log();
            }
        }
        let (result, answer) = corpus.evaluate(&documents, expansion, engine, session);
        proof {
            run.answer = answer@;
        }
        assert(searches(
            before, *self, *database, options, lane, run, start, session.log(), asked,
            engine.asked(), result,
        ));
        result
    }

    /// Search the pinned snapshot and its canonical staged writes. The whole corpus
    /// is observed, not only the hits.
    pub fn beacon_search<E: SearchEngine, H: Host>(
        &mut self,
        database: &Database,
        options: SearchOptions,
        engine: &mut EngineRecord<E>,
        session: &mut Session<H>,
    ) -> (result: Result<Vec<Hit>, ReadError>)
        requires
            old(self).wf(),
            database.wf(),
        ensures
            final(self).wf(),
            final(session).metered() == old(session).metered(),
            exists|run: SearchRun| #[trigger]
                searches(
                    *old(self),
                    *final(self),
                    *database,
                    options,
                    None,
                    run,
                    old(session).log(),
                    final(session).log(),
                    old(engine).asked(),
                    final(engine).asked(),
                    result,
                ),
    {
        self.beacon_read(database, options, None, engine, session)
    }

    /// Fuse graph expansion with the other lanes. A lane without hops or without
    /// seeds reads no edge and keeps no edge witness. A disabled lane is no lane: its
    /// seeds are not even counted.
    pub fn beacon_search_graph<E: SearchEngine, H: Host>(
        &mut self,
        database: &Database,
        options: SearchOptions,
        expansion: Option<&Expansion>,
        engine: &mut EngineRecord<E>,
        session: &mut Session<H>,
    ) -> (result: Result<Vec<Hit>, ReadError>)
        requires
            old(self).wf(),
            database.wf(),
        ensures
            final(self).wf(),
            final(session).metered() == old(session).metered(),
            exists|run: SearchRun| #[trigger]
                searches(
                    *old(self),
                    *final(self),
                    *database,
                    options,
                    lane_of(expansion),
                    run,
                    old(session).log(),
                    final(session).log(),
                    old(engine).asked(),
                    final(engine).asked(),
                    result,
                ),
    {
        self.beacon_read(database, options, expansion, engine, session)
    }
}

/// The documents are the candidates that show what is wanted, and no others.
proof fn lemma_documents(rows: IdMap<Overlay>, label: Option<LabelId>, n: int, vid: VId)
    requires
        0 <= n <= rows.key_seq().len(),
    ensures
        documents_upto(rows, label, n).contains(vid) <==> exists|i: int|
            0 <= i < n && (#[trigger] rows.key_seq()[i]) == vid.0 && selected(
                candidates(rows)[i],
                label,
            ),
    decreases n,
{
    if n > 0 {
        lemma_documents(rows, label, n - 1, vid);
        let earlier = documents_upto(rows, label, n - 1);
        let last = VId(rows.key_seq()[n - 1]);
        if selected(candidates(rows)[n - 1], label) {
            assert(earlier.push(last)[earlier.len() as int] == last);
            assert forall|k: int| 0 <= k < earlier.len() implies earlier.push(last)[k]
                == earlier[k] by {}
            if earlier.contains(vid) {
                let k = earlier.index_of(vid);
                assert(earlier.push(last)[k] == vid);
            }
        }
        if exists|i: int|
            0 <= i < n && (#[trigger] rows.key_seq()[i]) == vid.0 && selected(
                candidates(rows)[i],
                label,
            ) {
            let i = choose|i: int|
                0 <= i < n && (#[trigger] rows.key_seq()[i]) == vid.0 && selected(
                    candidates(rows)[i],
                    label,
                );
            if i == n - 1 {
                assert(last == vid);
            }
        }
    }
}

pub proof fn lemma_members(rows: IdMap<Overlay>, label: Option<LabelId>, vid: VId)
    ensures
        documents_upto(rows, label, rows.key_seq().len() as int).contains(vid) <==> selected(
            overlay_at(rows, vid),
            label,
        ),
{
    let keys = rows.key_seq();
    lemma_documents(rows, label, keys.len() as int, vid);
    if selected(overlay_at(rows, vid), label) {
        assert(blank().contents() is None);
        assert(rows@.dom().contains(vid.0));
        let i = keys.index_of(vid.0);
        assert(keys[i] == vid.0);
        assert(candidates(rows)[i] == overlay_at(rows, VId(keys[i])));
    }
}

/// Documents are listed by identity.
pub proof fn lemma_documents_ordered(rows: IdMap<Overlay>, label: Option<LabelId>, n: int)
    requires
        rows.wf(),
        0 <= n <= rows.key_seq().len(),
    ensures
        increasing(raw_ids(documents_upto(rows, label, n))),
        forall|i: int|
            0 <= i < documents_upto(rows, label, n).len() ==> n > 0 && raw_ids(
                documents_upto(rows, label, n),
            )[i] <= rows.key_seq()[n - 1],
    decreases n,
{
    if n > 0 {
        lemma_documents_ordered(rows, label, n - 1);
        let earlier = raw_ids(documents_upto(rows, label, n - 1));
        let all = raw_ids(documents_upto(rows, label, n));
        if n > 1 {
            assert(rows.key_seq()[n - 2] < rows.key_seq()[n - 1]);
        }
        if selected(candidates(rows)[n - 1], label) {
            assert(all =~= earlier.push(rows.key_seq()[n - 1]));
        }
    }
}

/// The raw identities of some documents, in order.
pub open spec fn raw_ids(documents: Seq<VId>) -> Seq<u128> {
    documents.map_values(|vid: VId| vid.0)
}

/// Listings of the same documents by identity are the same.
proof fn lemma_same_documents(left: Seq<VId>, right: Seq<VId>)
    requires
        increasing(raw_ids(left)),
        increasing(raw_ids(right)),
        members_of(left) == members_of(right),
    ensures
        left == right,
{
    let l = raw_ids(left);
    let r = raw_ids(right);
    assert forall|raw: u128| #[trigger] l.to_set().contains(raw) == r.to_set().contains(raw) by {
        lemma_raw_member(left, raw);
        lemma_raw_member(right, raw);
        assert(members_of(left).contains(raw) == members_of(right).contains(raw));
    }
    assert(l.to_set() =~= r.to_set());
    lemma_sorted_unique(l, r);
    assert forall|i: int| 0 <= i < left.len() implies left[i] == right[i] by {
        assert(l[i] == r[i]);
    }
    assert(left.len() == l.len() && right.len() == r.len());
    assert(left =~= right);
}

proof fn lemma_raw_member(documents: Seq<VId>, raw: u128)
    ensures
        raw_ids(documents).to_set().contains(raw) == members_of(documents).contains(raw),
{
    let raws = raw_ids(documents);
    if raws.contains(raw) {
        let i = raws.index_of(raw);
        assert(documents[i] == VId(raw));
    }
    if documents.contains(VId(raw)) {
        let i = documents.index_of(VId(raw));
        assert(raws[i] == raw);
    }
}

/// A search inside a transaction runs over the corpus that a search after its commit
/// runs over: the same documents in the same order, with the same labels and the same
/// values. What each returns is what the engines answered of it, so that engines which
/// answer both alike make both return the same.
pub proof fn law_staged_search_sees_what_its_commit_publishes(
    txn: WriteTxn,
    txn_after: WriteTxn,
    before: Database,
    after: Database,
    fresh: WriteTxn,
    fresh_after: WriteTxn,
    options: SearchOptions,
    lane: Option<Expansion>,
    staged: SearchRun,
    committed: SearchRun,
    logs: (Seq<Event>, Seq<Event>, Seq<Event>, Seq<Event>),
    asked: (Seq<EngineStep>, Seq<EngineStep>, Seq<EngineStep>, Seq<EngineStep>),
    result: Result<Vec<Hit>, ReadError>,
    published_result: Result<Vec<Hit>, ReadError>,
)
    requires
        before.wf(),
        before.tip() < u64::MAX,
        txn.prepared is Some,
        txn.basis.0 == before.tip(),
        published(before, after, txn.prepared->0.template),
        fresh.prepared is None,
        fresh.basis.0 == before.tip() + 1,
        searches(
            txn, txn_after, before, options, lane, staged, logs.0, logs.1, asked.0, asked.1, result,
        ),
        searches(
            fresh, fresh_after, after, options, lane, committed, logs.2, logs.3, asked.2, asked.3,
            published_result,
        ),
        result is Ok,
        published_result is Ok,
    ensures
        staged.documents->Ok_0@ == committed.documents->Ok_0@,
        result->Ok_0 == staged.answer.outcome->Ok_0,
        published_result->Ok_0 == committed.answer.outcome->Ok_0,
        staged.answer.outcome == committed.answer.outcome ==> result == published_result,
        forall|vid: VId, label: LabelId| #[trigger]
            overlay_at(staged.read.rows, vid).has(label) == overlay_at(
                committed.read.rows,
                vid,
            ).has(label),
        forall|vid: VId, key: PropertyKeyId| #[trigger]
            overlay_at(staged.read.rows, vid).value(key) == overlay_at(
                committed.read.rows,
                vid,
            ).value(key),
{
    law_staged_corpus_is_the_committed_corpus(
        txn, before, after, fresh, staged.read, committed.read,
    );
    let label = options.vertex_label;
    assert forall|raw: u128| #[trigger]
        members_of(staged.documents->Ok_0@).contains(raw) == members_of(
            committed.documents->Ok_0@,
        ).contains(raw) by {
        let vid = VId(raw);
        lemma_members(staged.read.rows, label, vid);
        lemma_members(committed.read.rows, label, vid);
        assert(selected(overlay_at(staged.read.rows, vid), label) == selected(
            overlay_at(committed.read.rows, vid),
            label,
        ));
    }
    assert(members_of(staged.documents->Ok_0@) =~= members_of(committed.documents->Ok_0@));
    lemma_documents_ordered(staged.read.rows, label, staged.read.rows.key_seq().len() as int);
    lemma_documents_ordered(committed.read.rows, label, committed.read.rows.key_seq().len() as int);
    lemma_same_documents(staged.documents->Ok_0@, committed.documents->Ok_0@);
}

/// A disabled graph lane, one without hops and one without seeds read no edge: the
/// search leaves no edge witness behind, whatever became of it.
pub proof fn law_idle_graph_lanes_keep_no_edge_witness(
    before: WriteTxn,
    after: WriteTxn,
    database: Database,
    options: SearchOptions,
    lane: Option<Expansion>,
    run: SearchRun,
    log: Seq<Event>,
    log_after: Seq<Event>,
    asked: Seq<EngineStep>,
    asked_after: Seq<EngineStep>,
    result: Result<Vec<Hit>, ReadError>,
)
    requires
        searches(
            before, after, database, options, lane, run, log, log_after, asked, asked_after, result,
        ),
        !expanding(lane),
    ensures
        after.scanned_edges == before.scanned_edges,
        after.match_expansions == before.match_expansions,
{
}

/// Whatever became of a search, the workspace is untouched and what was observed is
/// kept. Once the corpus is being read, a search over all vertices holds their witness.
pub proof fn law_searches_keep_what_they_observed(
    before: WriteTxn,
    after: WriteTxn,
    database: Database,
    options: SearchOptions,
    lane: Option<Expansion>,
    run: SearchRun,
    log: Seq<Event>,
    log_after: Seq<Event>,
    asked: Seq<EngineStep>,
    asked_after: Seq<EngineStep>,
    result: Result<Vec<Hit>, ReadError>,
)
    requires
        searches(
            before, after, database, options, lane, run, log, log_after, asked, asked_after, result,
        ),
    ensures
        same_workspace(before, after),
        before.read_set@.subset_of(after.read_set@),
        before.scanned_vertices ==> after.scanned_vertices,
        before.scanned_edges ==> after.scanned_edges,
        run.refused is None && run.invalid is None && seeds_fault(lane) is None
            && options.vertex_label is None ==> after.scanned_vertices,
        result is Ok && expanding(lane) ==> after.scanned_edges,
{
}

} // verus!
