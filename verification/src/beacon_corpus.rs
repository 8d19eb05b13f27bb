//! The corpus of a search: every vertex of the pinned snapshot under the prepared
//! rows, read under one allowance and witnessed as it is read.

use vstd::prelude::*;
use crate::authorized_run::lemma_intents_at;
use crate::batch::{intents, intents_upto, PendingRow};
use crate::beacon::{
    cancelled, charge_plan, charged, expanded, expansion_plan, scratch_plan, scratched, BeaconError,
    Control, Meter, SearchLimits,
};
use crate::beacon_overlay::{
    apply_meter, apply_plan, blank, lemma_shows_after, shows, Contents, ContentsView, Overlay,
    OverlayView,
};
use crate::graph::{clone_labels, vertex_after_rows, DeltaRow, VertexRow, VertexView};
use crate::ids::{EId, ElementId, LabelId, RelationId, VId};
use crate::idset::IdMap;
use crate::plan::{
    failure, go, lemma_obeys_and, lemma_obeys_failed, lemma_obeys_nothing, obeys, stop, Plan,
};
use crate::props::clone_props;
use crate::script::{
    carries_out, lemma_carries_failed, lemma_carries_one, lemma_carries_then, lemma_performs_nothing,
    lemma_prefix_concat, lemma_prefix_transitive, Rule,
};
use crate::session::{refused, Event, Host, Session};
use crate::template::{
    lemma_rows_bounds, lemma_rows_step, rows_seen, rows_upto, Coordinate, Template,
};
use crate::txn::{same_workspace, WriteTxn};
use crate::vertex_map::{row_vertex, vertex_of_row};

verus! {

/// Where the reading of a corpus stands.
#[verifier::ext_equal]
pub struct Walk {
    pub meter: Meter,
    pub labels: Set<u128>,
    pub seen: Set<ElementId>,
    pub candidates: Map<u128, OverlayView>,
    pub changes: Map<u128, Option<Incidence>>,
    pub emitted: Seq<(EId, Incidence)>,
}

/// The endpoints and the relation of an edge.
#[derive(Clone, Copy, PartialEq, Eq, Structural, Debug)]
pub struct Incidence {
    pub src: VId,
    pub relation: RelationId,
    pub dst: VId,
}

/// One step of reading a corpus.
pub enum Action {
    /// Pay units of work.
    Charge(u64),
    /// Keep a label's insertion witness.
    Scan(LabelId),
    /// Keep a read witness.
    Observe(ElementId),
    /// Make room for a vertex.
    Candidate(VId),
    /// Apply a prepared row to its vertex.
    Apply(VId, DeltaRow),
    /// Put committed contents under a vertex.
    Base(VId, ContentsView),
    /// Keep a read witness of the graph lane.
    Trace(ElementId),
    /// Note what the prepared rows make of an edge.
    Replace(EId, Option<Incidence>),
    /// Emit an edge as the prepared rows leave it, unless it falls outside the
    /// requested relation or the selected vertices.
    Settle(EId, Option<Incidence>, Option<RelationId>, Set<u128>),
    /// Refuse.
    Refuse(BeaconError),
}

/// An edge as the noted changes leave it.
pub open spec fn settled(
    changes: Map<u128, Option<Incidence>>,
    eid: EId,
    native: Option<Incidence>,
) -> Option<Incidence> {
    if changes.dom().contains(eid.0) {
        changes[eid.0]
    } else {
        native
    }
}

/// The edge runs in the requested relation between selected vertices.
pub open spec fn admitted_edge(
    incidence: Incidence,
    relation: Option<RelationId>,
    members: Set<u128>,
) -> bool {
    &&& relation is None || relation == Some(incidence.relation)
    &&& members.contains(incidence.src.0)
    &&& members.contains(incidence.dst.0)
}

pub open spec fn action_plan(walk: Walk, action: Action, limits: SearchLimits) -> Plan<BeaconError> {
    match action {
        Action::Charge(units) => charge_plan(walk.meter, units),
        Action::Scan(label) => if walk.labels.contains(label.0 as u128) {
            go()
        } else {
            scratch_plan(walk.meter, limits)
        },
        Action::Observe(element) => charge_plan(walk.meter, 1).and(
            if walk.seen.contains(element) {
                go()
            } else {
                scratch_plan(charged(walk.meter, 1), limits)
            },
        ),
        Action::Candidate(vid) => if walk.candidates.dom().contains(vid.0) {
            go()
        } else {
            scratch_plan(walk.meter, limits)
        },
        Action::Apply(vid, row) => apply_plan(walk.candidates[vid.0], row, walk.meter, limits),
        Action::Base(_, _) => go(),
        Action::Trace(element) => charge_plan(walk.meter, 1).and(
            if walk.seen.contains(element) {
                go()
            } else {
                expansion_plan(charged(walk.meter, 1), limits)
            },
        ),
        Action::Replace(eid, _) => charge_plan(walk.meter, 1).and(
            if walk.changes.dom().contains(eid.0) {
                go()
            } else {
                expansion_plan(charged(walk.meter, 1), limits)
            },
        ),
        Action::Settle(eid, native, _, _) => if settled(walk.changes, eid, native) is Some {
            charge_plan(walk.meter, 1)
        } else {
            go()
        },
        Action::Refuse(error) => stop(error),
    }
}

pub open spec fn action_next(walk: Walk, action: Action) -> Walk {
    match action {
        Action::Charge(units) => Walk { meter: charged(walk.meter, units), ..walk },
        Action::Scan(label) => if walk.labels.contains(label.0 as u128) {
            walk
        } else {
            Walk {
                meter: scratched(walk.meter),
                labels: walk.labels.insert(label.0 as u128),
                ..walk
            }
        },
        Action::Observe(element) => if walk.seen.contains(element) {
            Walk { meter: charged(walk.meter, 1), ..walk }
        } else {
            Walk {
                meter: scratched(charged(walk.meter, 1)),
                seen: walk.seen.insert(element),
                ..walk
            }
        },
        Action::Candidate(vid) => if walk.candidates.dom().contains(vid.0) {
            walk
        } else {
            Walk {
                meter: scratched(walk.meter),
                candidates: walk.candidates.insert(vid.0, blank()),
                ..walk
            }
        },
        Action::Apply(vid, row) => Walk {
            meter: apply_meter(walk.candidates[vid.0], row, walk.meter),
            candidates: walk.candidates.insert(vid.0, walk.candidates[vid.0].after(row)),
            ..walk
        },
        Action::Base(vid, contents) => Walk {
            candidates: walk.candidates.insert(
                vid.0,
                walk.candidates[vid.0].over(Some(contents)),
            ),
            ..walk
        },
        Action::Trace(element) => if walk.seen.contains(element) {
            Walk { meter: charged(walk.meter, 1), ..walk }
        } else {
            Walk {
                meter: expanded(charged(walk.meter, 1)),
                seen: walk.seen.insert(element),
                ..walk
            }
        },
        Action::Replace(eid, after) => Walk {
            meter: if walk.changes.dom().contains(eid.0) {
                charged(walk.meter, 1)
            } else {
                expanded(charged(walk.meter, 1))
            },
            changes: walk.changes.insert(eid.0, after),
            ..walk
        },
        Action::Settle(eid, native, relation, members) => match settled(
            walk.changes,
            eid,
            native,
        ) {
            Some(incidence) => Walk {
                meter: charged(walk.meter, 1),
                changes: walk.changes.remove(eid.0),
                emitted: if admitted_edge(incidence, relation, members) {
                    walk.emitted.push((eid, incidence))
                } else {
                    walk.emitted
                },
                ..walk
            },
            None => Walk { changes: walk.changes.remove(eid.0), ..walk },
        },
        Action::Refuse(_) => walk,
    }
}

/// How a corpus is read.
pub open spec fn corpus_rule(limits: SearchLimits) -> Rule<Walk, Action, BeaconError> {
    Rule {
        plan: |walk: Walk, action: Action| action_plan(walk, action, limits),
        next: |walk: Walk, action: Action| action_next(walk, action),
    }
}

/// The vertices of a corpus, with the allowance that is left.
pub struct Corpus {
    pub control: Control,
    pub rows: IdMap<Overlay>,
    pub changes: IdMap<Option<Incidence>>,
    pub emitted: Vec<(EId, Incidence)>,
}

/// What the candidates show.
pub open spec fn overlays(rows: IdMap<Overlay>) -> Map<u128, OverlayView> {
    Map::new(|key: u128| rows@.dom().contains(key), |key: u128| rows@[key]@)
}

/// Where a transaction and its corpus stand.
pub open spec fn walk_of(txn: WriteTxn, corpus: Corpus) -> Walk {
    Walk {
        meter: corpus.control.meter,
        labels: txn.scanned_vertex_labels@,
        seen: txn.read_set@,
        candidates: overlays(corpus.rows),
        changes: corpus.changes@,
        emitted: corpus.emitted@,
    }
}

impl Corpus {
    pub open spec fn wf(&self) -> bool {
        &&& self.control.wf()
        &&& self.rows.wf()
        &&& self.changes.wf()
        &&& forall|key: u128| #[trigger] self.rows@.dom().contains(key) ==> self.rows@[key].wf()
    }

    pub fn new(control: Control) -> (corpus: Corpus)
        requires
            control.wf(),
        ensures
            corpus.wf(),
            corpus.control == control,
            corpus.rows@ =~= Map::<u128, Overlay>::empty(),
            corpus.changes@ =~= Map::<u128, Option<Incidence>>::empty(),
            corpus.emitted@ =~= Seq::<(EId, Incidence)>::empty(),
    {
        Corpus { control, rows: IdMap::new(), changes: IdMap::new(), emitted: Vec::new() }
    }
}

/// A search changes nothing but read witnesses and scanned labels.
pub open spec fn search_frame(before: WriteTxn, after: WriteTxn) -> bool {
    &&& same_workspace(before, after)
    &&& after.match_expansions == before.match_expansions
    &&& after.scanned_vertices == before.scanned_vertices
    &&& after.scanned_edges == before.scanned_edges
}

/// One action was taken, or refused without any new witness.
pub open spec fn acts(
    before: WriteTxn,
    after: WriteTxn,
    corpus: Corpus,
    corpus_after: Corpus,
    action: Action,
    log: Seq<Event>,
    log_after: Seq<Event>,
    failed: Option<BeaconError>,
) -> bool {
    let walk = walk_of(before, corpus);
    &&& after.wf()
    &&& corpus_after.wf()
    &&& search_frame(before, after)
    &&& corpus_after.control.limits == corpus.control.limits
    &&& corpus_after.control.interrupted == refused(log, log_after)
    &&& obeys(
        log,
        log_after,
        action_plan(walk, action, corpus.control.limits),
        cancelled(),
        failed,
    )
    &&& match failed {
        None => walk_of(after, corpus_after) =~= action_next(walk, action),
        Some(_) => after.read_set@ == before.read_set@ && after.scanned_vertex_labels@
            == before.scanned_vertex_labels@,
    }
}

/// A run of actions, and what it left behind.
pub open spec fn walked(
    limits: SearchLimits,
    before: Walk,
    script: Seq<Action>,
    txn: WriteTxn,
    corpus: Corpus,
    log: Seq<Event>,
    log_after: Seq<Event>,
    failed: Option<BeaconError>,
) -> bool {
    exists|reached: Walk|
        {
            &&& #[trigger] carries_out(
                corpus_rule(limits),
                cancelled(),
                before,
                script,
                reached,
                log,
                log_after,
                failed,
            )
            &&& reached.seen == txn.read_set@
            &&& reached.labels == txn.scanned_vertex_labels@
            &&& failed is None ==> reached == walk_of(txn, corpus)
        }
}

pub proof fn lemma_walked_nothing(limits: SearchLimits, txn: WriteTxn, corpus: Corpus, log: Seq<Event>)
    ensures
        walked(
            limits,
            walk_of(txn, corpus),
            Seq::empty(),
            txn,
            corpus,
            log,
            log,
            None,
        ),
{
    lemma_performs_nothing(corpus_rule(limits), cancelled(), walk_of(txn, corpus), log);
    assert(carries_out(
        corpus_rule(limits),
        cancelled(),
        walk_of(txn, corpus),
        Seq::<Action>::empty(),
        walk_of(txn, corpus),
        log,
        log,
        None,
    ));
}

pub proof fn lemma_walked_one(
    before: WriteTxn,
    after: WriteTxn,
    corpus: Corpus,
    corpus_after: Corpus,
    action: Action,
    log: Seq<Event>,
    log_after: Seq<Event>,
    failed: Option<BeaconError>,
)
    requires
        acts(before, after, corpus, corpus_after, action, log, log_after, failed),
    ensures
        walked(
            corpus.control.limits,
            walk_of(before, corpus),
            seq![action],
            after,
            corpus_after,
            log,
            log_after,
            failed,
        ),
{
    let walk = walk_of(before, corpus);
    let reached = if failed is None {
        action_next(walk, action)
    } else {
        walk
    };
    lemma_carries_one(
        corpus_rule(corpus.control.limits),
        cancelled(),
        walk,
        action,
        reached,
        log,
        log_after,
        failed,
    );
}

/// Runs compose.
pub proof fn lemma_walked_then(
    limits: SearchLimits,
    before: Walk,
    head: Seq<Action>,
    txn: WriteTxn,
    corpus: Corpus,
    tail: Seq<Action>,
    txn_after: WriteTxn,
    corpus_after: Corpus,
    log: Seq<Event>,
    log_middle: Seq<Event>,
    log_after: Seq<Event>,
    failed: Option<BeaconError>,
)
    requires
        walked(limits, before, head, txn, corpus, log, log_middle, None),
        walked(
            limits,
            walk_of(txn, corpus),
            tail,
            txn_after,
            corpus_after,
            log_middle,
            log_after,
            failed,
        ),
    ensures
        walked(limits, before, head + tail, txn_after, corpus_after, log, log_after, failed),
{
    let middle = walk_of(txn, corpus);
    let rule = corpus_rule(limits);
    let reached = choose|reached: Walk|
        {
            &&& #[trigger] carries_out(
                rule, cancelled(), middle, tail, reached, log_middle, log_after, failed,
            )
            &&& reached.seen == txn_after.read_set@
            &&& reached.labels == txn_after.scanned_vertex_labels@
            &&& failed is None ==> reached == walk_of(txn_after, corpus_after)
        };
    lemma_carries_then(
        rule, cancelled(), before, head, middle, tail, reached, log, log_middle, log_after, failed,
    );
}

/// A run that failed has failed in any continuation of it.
pub proof fn lemma_walked_failed(
    limits: SearchLimits,
    before: Walk,
    script: Seq<Action>,
    full: Seq<Action>,
    txn: WriteTxn,
    corpus: Corpus,
    log: Seq<Event>,
    log_after: Seq<Event>,
    failed: Option<BeaconError>,
)
    requires
        walked(limits, before, script, txn, corpus, log, log_after, failed),
        failed is Some,
        script.is_prefix_of(full),
    ensures
        walked(limits, before, full, txn, corpus, log, log_after, failed),
{
    let rule = corpus_rule(limits);
    let reached = choose|reached: Walk|
        {
            &&& #[trigger] carries_out(
                rule, cancelled(), before, script, reached, log, log_after, failed,
            )
            &&& reached.seen == txn.read_set@
            &&& reached.labels == txn.scanned_vertex_labels@
            &&& failed is None ==> reached == walk_of(txn, corpus)
        };
    lemma_carries_failed(
        rule, cancelled(), before, script, full, reached, log, log_after, failed,
    );
}

impl WriteTxn {
    pub(crate) fn pay_search<H: Host>(&mut self, corpus: &mut Corpus, units: u64, session: &mut Session<H>) -> (paid:
        Result<(), BeaconError>)
        requires
            old(self).wf(),
            old(corpus).wf(),
            old(corpus).control.interrupted is None,
        ensures
            final(session).metered() == old(session).metered(),
            final(corpus).rows == old(corpus).rows,
            final(corpus).changes == old(corpus).changes,
            final(corpus).emitted == old(corpus).emitted,
            acts(
                *old(self),
                *final(self),
                *old(corpus),
                *final(corpus),
                Action::Charge(units),
                old(session).log(),
                final(session).log(),
                failure(paid),
            ),
    {
        corpus.control.charge(units, session)
    }

    pub(crate) fn scan_label<H: Host>(
        &mut self,
        corpus: &mut Corpus,
        label: LabelId,
        session: &mut Session<H>,
    ) -> (scanned: Result<(), BeaconError>)
        requires
            old(self).wf(),
            old(corpus).wf(),
            old(corpus).control.interrupted is None,
        ensures
            final(session).metered() == old(session).metered(),
            final(corpus).rows == old(corpus).rows,
            acts(
                *old(self),
                *final(self),
                *old(corpus),
                *final(corpus),
                Action::Scan(label),
                old(session).log(),
                final(session).log(),
                failure(scanned),
            ),
    {
        proof {
            lemma_obeys_nothing(session.log(), cancelled());
        }
        if !self.scanned_vertex_labels.contains(label.0 as u128) {
            if let Err(error) = corpus.control.scratch(session) {
                return Err(error);
            }
            self.scanned_vertex_labels.insert(label.0 as u128);
        }
        Ok(())
    }

    pub(crate) fn observe_searched<H: Host>(
        &mut self,
        corpus: &mut Corpus,
        element: ElementId,
        session: &mut Session<H>,
    ) -> (observed: Result<(), BeaconError>)
        requires
            old(self).wf(),
            old(corpus).wf(),
            old(corpus).control.interrupted is None,
        ensures
            final(session).metered() == old(session).metered(),
            final(corpus).rows == old(corpus).rows,
            acts(
                *old(self),
                *final(self),
                *old(corpus),
                *final(corpus),
                Action::Observe(element),
                old(session).log(),
                final(session).log(),
                failure(observed),
            ),
    {
        let ghost start = session.log();
        let ghost meter = corpus.control.meter;
        let ghost limits = corpus.control.limits;
        let ghost rest = if self.read_set@.contains(element) {
            go()
        } else {
            scratch_plan(charged(meter, 1), limits)
        };
        let paid = corpus.control.charge(1, session);
        let ghost middle = session.log();
        if let Err(error) = paid {
            proof {
                lemma_obeys_failed(
                    start, middle, charge_plan(meter, 1), rest, cancelled(), Some(error),
                );
            }
            return Err(error);
        }
        proof {
            lemma_obeys_nothing(middle, cancelled());
        }
        let fresh = !self.read_set.contains(element);
        let mut done: Result<(), BeaconError> = Ok(());
        if fresh {
            done = corpus.control.scratch(session);
        }
        proof {
            lemma_obeys_and(
                start, middle, session.log(), charge_plan(meter, 1), rest, cancelled(),
                failure(done),
            );
        }
        if let Err(error) = done {
            return Err(error);
        }
        if fresh {
            self.read_set.insert(element);
        }
        Ok(())
    }

    pub(crate) fn admit_candidate<H: Host>(
        &mut self,
        corpus: &mut Corpus,
        vid: VId,
        session: &mut Session<H>,
    ) -> (admitted: Result<(), BeaconError>)
        requires
            old(self).wf(),
            old(corpus).wf(),
            old(corpus).control.interrupted is None,
        ensures
            final(session).metered() == old(session).metered(),
            acts(
                *old(self),
                *final(self),
                *old(corpus),
                *final(corpus),
                Action::Candidate(vid),
                old(session).log(),
                final(session).log(),
                failure(admitted),
            ),
    {
        proof {
            lemma_obeys_nothing(session.log(), cancelled());
        }
        if corpus.rows.get(vid.0).is_none() {
            if let Err(error) = corpus.control.scratch(session) {
                return Err(error);
            }
            corpus.rows.insert(vid.0, Overlay::new());
        }
        Ok(())
    }

    fn apply_candidate<H: Host>(
        &mut self,
        corpus: &mut Corpus,
        vid: VId,
        row: &DeltaRow,
        session: &mut Session<H>,
    ) -> (applied: Result<(), BeaconError>)
        requires
            old(self).wf(),
            old(corpus).wf(),
            old(corpus).control.interrupted is None,
            old(corpus).rows@.dom().contains(vid.0),
            row.wf(),
            row_vertex(*row) == Some(vid),
        ensures
            final(session).metered() == old(session).metered(),
            acts(
                *old(self),
                *final(self),
                *old(corpus),
                *final(corpus),
                Action::Apply(vid, *row),
                old(session).log(),
                final(session).log(),
                failure(applied),
            ),
    {
        let ghost before = *corpus;
        if let Some(mut overlay) = corpus.rows.remove(vid.0) {
            let applied = overlay.apply(row, &mut corpus.control, session);
            corpus.rows.insert(vid.0, overlay);
            return applied;
        }
        proof {
            assert(false);
        }
        Ok(())
    }

    pub(crate) fn base_candidate<H: Host>(
        &mut self,
        corpus: &mut Corpus,
        row: &VertexRow,
        session: &mut Session<H>,
    )
        requires
            old(self).wf(),
            old(corpus).wf(),
            old(corpus).control.interrupted is None,
            old(corpus).rows@.dom().contains(row.vid.0),
            row.wf(),
        ensures
            final(session).metered() == old(session).metered(),
            final(session).log() == old(session).log(),
            acts(
                *old(self),
                *final(self),
                *old(corpus),
                *final(corpus),
                Action::Base(row.vid, ContentsView { labels: row.labels@, props: row.props@ }),
                old(session).log(),
                final(session).log(),
                None,
            ),
    {
        proof {
            lemma_obeys_nothing(session.log(), cancelled());
        }
        if let Some(mut overlay) = corpus.rows.remove(row.vid.0) {
            overlay.basis = Some(
                Contents { labels: clone_labels(&row.labels), props: clone_props(&row.props) },
            );
            assert(overlay.wf());
            corpus.rows.insert(row.vid.0, overlay);
        } else {
            proof {
                assert(false);
            }
        }
    }
}

/// One more action of a part of a script.
pub proof fn lemma_walked_action(
    limits: SearchLimits,
    start: Walk,
    head: Seq<Action>,
    part: Seq<Action>,
    k: int,
    full: Seq<Action>,
    before: WriteTxn,
    after: WriteTxn,
    corpus: Corpus,
    corpus_after: Corpus,
    log: Seq<Event>,
    log_middle: Seq<Event>,
    log_after: Seq<Event>,
    failed: Option<BeaconError>,
)
    requires
        0 <= k < part.len(),
        (head + part).is_prefix_of(full),
        corpus.control.limits == limits,
        walked(limits, start, head + part.take(k), before, corpus, log, log_middle, None),
        acts(before, after, corpus, corpus_after, part[k], log_middle, log_after, failed),
    ensures
        walked(limits, start, head + part.take(k + 1), after, corpus_after, log, log_after, failed),
        k + 1 == part.len() ==> walked(
            limits,
            start,
            head + part,
            after,
            corpus_after,
            log,
            log_after,
            failed,
        ),
        failed is Some ==> walked(
            limits,
            start,
            full,
            after,
            corpus_after,
            log,
            log_after,
            failed,
        ),
{
    lemma_walked_one(before, after, corpus, corpus_after, part[k], log_middle, log_after, failed);
    lemma_walked_then(
        limits, start, head + part.take(k), before, corpus, seq![part[k]], after, corpus_after,
        log, log_middle, log_after, failed,
    );
    assert(head + part.take(k) + seq![part[k]] =~= head + part.take(k + 1));
    if k + 1 == part.len() {
        assert(part.take(k + 1) =~= part);
    }
    if failed is Some {
        assert((head + part.take(k + 1)).is_prefix_of(head + part)) by {
            assert(head + part.take(k + 1) =~= (head + part).subrange(
                0,
                head.len() + k + 1,
            ));
        }
        lemma_prefix_transitive(head + part.take(k + 1), head + part, full);
        lemma_walked_failed(
            limits, start, head + part.take(k + 1), full, after, corpus_after, log, log_after,
            failed,
        );
    }
}

/// Nothing of a part was done yet.
pub proof fn lemma_walked_part(
    limits: SearchLimits,
    start: Walk,
    head: Seq<Action>,
    part: Seq<Action>,
    txn: WriteTxn,
    corpus: Corpus,
    log: Seq<Event>,
    log_after: Seq<Event>,
)
    requires
        walked(limits, start, head, txn, corpus, log, log_after, None),
    ensures
        walked(limits, start, head + part.take(0), txn, corpus, log, log_after, None),
{
    assert(head + part.take(0) =~= head);
}

/// The vertex whose creation or deletion an intent asks for.
pub open spec fn intent_vertex(row: PendingRow) -> Option<VId> {
    match row {
        PendingRow::Vertex { vid, .. } => Some(vid),
        PendingRow::DeleteVertex { vid } => Some(vid),
        _ => None,
    }
}

/// The vertices of the first intents are observed.
pub open spec fn intents_observed(
    txn: WriteTxn,
    rows: Seq<(RelationId, PendingRow)>,
    n: int,
) -> bool {
    forall|k: int|
        0 <= k < n ==> (intent_vertex((#[trigger] rows[k]).1) matches Some(vid)
            ==> txn.read_set@.contains(ElementId::Vertex(vid)))
}

/// What one staged intent costs. Intents that normalize away still carry
/// observations.
pub open spec fn intent_part(row: PendingRow) -> Seq<Action> {
    vertex_part(intent_vertex(row))
}

/// One unit, and the observation of the vertex that is named.
pub open spec fn vertex_part(vid: Option<VId>) -> Seq<Action> {
    match vid {
        Some(seen) => seq![Action::Charge(1), Action::Observe(ElementId::Vertex(seen))],
        None => seq![Action::Charge(1)],
    }
}

pub open spec fn staged_script(rows: Seq<(RelationId, PendingRow)>, n: int) -> Seq<Action>
    decreases n,
{
    if n <= 0 {
        Seq::empty()
    } else {
        staged_script(rows, n - 1) + intent_part(rows[n - 1].1)
    }
}

proof fn lemma_staged_prefix(rows: Seq<(RelationId, PendingRow)>, n: int, m: int)
    requires
        0 <= n <= m,
    ensures
        staged_script(rows, n).is_prefix_of(staged_script(rows, m)),
    decreases m - n,
{
    if n < m {
        lemma_staged_prefix(rows, n, m - 1);
        lemma_prefix_concat(staged_script(rows, m - 1), intent_part(rows[m - 1].1));
        lemma_prefix_transitive(
            staged_script(rows, n),
            staged_script(rows, m - 1),
            staged_script(rows, m),
        );
    }
}

/// What one prepared row costs.
pub open spec fn row_part(row: DeltaRow) -> Seq<Action> {
    match row_vertex(row) {
        Some(vid) => seq![
            Action::Charge(1),
            Action::Observe(ElementId::Vertex(vid)),
            Action::Candidate(vid),
            Action::Apply(vid, row),
        ],
        None => seq![Action::Charge(1)],
    }
}

pub open spec fn rows_actions(rows: Seq<DeltaRow>, n: int) -> Seq<Action>
    decreases n,
{
    if n <= 0 {
        Seq::empty()
    } else {
        rows_actions(rows, n - 1) + row_part(rows[n - 1])
    }
}

/// What the prepared coordinates cost.
pub open spec fn prepared_script(coordinates: Seq<Coordinate>, n: int) -> Seq<Action>
    decreases n,
{
    if n <= 0 {
        Seq::empty()
    } else {
        let rows = coordinates[n - 1].rows@;
        prepared_script(coordinates, n - 1) + (seq![Action::Charge(1)] + rows_actions(
            rows,
            rows.len() as int,
        ))
    }
}

proof fn lemma_rows_actions_prefix(rows: Seq<DeltaRow>, n: int, m: int)
    requires
        0 <= n <= m,
    ensures
        rows_actions(rows, n).is_prefix_of(rows_actions(rows, m)),
    decreases m - n,
{
    if n < m {
        lemma_rows_actions_prefix(rows, n, m - 1);
        lemma_prefix_concat(rows_actions(rows, m - 1), row_part(rows[m - 1]));
        lemma_prefix_transitive(
            rows_actions(rows, n),
            rows_actions(rows, m - 1),
            rows_actions(rows, m),
        );
    }
}

proof fn lemma_prepared_prefix(coordinates: Seq<Coordinate>, n: int, m: int)
    requires
        0 <= n <= m,
    ensures
        prepared_script(coordinates, n).is_prefix_of(prepared_script(coordinates, m)),
    decreases m - n,
{
    if n < m {
        lemma_prepared_prefix(coordinates, n, m - 1);
        let rows = coordinates[m - 1].rows@;
        lemma_prefix_concat(
            prepared_script(coordinates, m - 1),
            seq![Action::Charge(1)] + rows_actions(rows, rows.len() as int),
        );
        lemma_prefix_transitive(
            prepared_script(coordinates, n),
            prepared_script(coordinates, m - 1),
            prepared_script(coordinates, m),
        );
    }
}

/// What one committed vertex costs.
pub open spec fn winner_part(row: VertexRow) -> Seq<Action> {
    seq![
        Action::Charge(1),
        Action::Observe(ElementId::Vertex(row.vid)),
        Action::Candidate(row.vid),
        Action::Base(row.vid, ContentsView { labels: row.labels@, props: row.props@ }),
    ]
}

pub open spec fn winners_script(rows: Seq<VertexRow>, n: int) -> Seq<Action>
    decreases n,
{
    if n <= 0 {
        Seq::empty()
    } else {
        winners_script(rows, n - 1) + winner_part(rows[n - 1])
    }
}

pub proof fn lemma_winners_prefix(rows: Seq<VertexRow>, n: int, m: int)
    requires
        0 <= n <= m,
    ensures
        winners_script(rows, n).is_prefix_of(winners_script(rows, m)),
    decreases m - n,
{
    if n < m {
        lemma_winners_prefix(rows, n, m - 1);
        lemma_prefix_concat(winners_script(rows, m - 1), winner_part(rows[m - 1]));
        lemma_prefix_transitive(
            winners_script(rows, n),
            winners_script(rows, m - 1),
            winners_script(rows, m),
        );
    }
}

/// The overlay of a vertex, blank where there is none.
pub open spec fn overlay_at(rows: IdMap<Overlay>, vid: VId) -> OverlayView {
    if rows@.dom().contains(vid.0) {
        rows@[vid.0]@
    } else {
        blank()
    }
}

/// Over whatever committed contents, the overlay shows the vertex after the rows.
pub open spec fn nets(overlay: OverlayView, vid: VId, rows: Seq<DeltaRow>) -> bool {
    &&& overlay.basis is None
    &&& overlay.wf()
    &&& forall|base: Option<ContentsView>, vertex: Option<VertexView>|
        crate::beacon_overlay::contents_wf(base) && #[trigger] shows(blank().over(base), vertex)
            ==> shows(overlay.over(base), vertex_after_rows(vertex, vid, rows))
}

proof fn lemma_nets_push(overlay: OverlayView, vid: VId, rows: Seq<DeltaRow>, row: DeltaRow)
    requires
        nets(overlay, vid, rows),
        row.wf(),
    ensures
        row_vertex(row) == Some(vid) ==> nets(overlay.after(row), vid, rows.push(row)),
        row_vertex(row) != Some(vid) ==> nets(overlay, vid, rows.push(row)),
{
    let next = if row_vertex(row) == Some(vid) {
        overlay.after(row)
    } else {
        overlay
    };
    assert(rows.push(row).drop_last() =~= rows);
    assert forall|base: Option<ContentsView>, vertex: Option<VertexView>|
        crate::beacon_overlay::contents_wf(base) && #[trigger] shows(
            blank().over(base),
            vertex,
        ) implies shows(next.over(base), vertex_after_rows(vertex, vid, rows.push(row))) by {
        assert(shows(overlay.over(base), vertex_after_rows(vertex, vid, rows)));
        if row_vertex(row) == Some(vid) {
            lemma_shows_after(
                overlay.over(base),
                vertex_after_rows(vertex, vid, rows),
                vid,
                row,
            );
            assert(overlay.over(base).after(row) =~= next.over(base));
        }
    }
    if row_vertex(row) == Some(vid) {
        lemma_shows_basis_none();
        assert(next.wf()) by {
            assert(shows(blank().over(None), None));
            lemma_shows_after(
                overlay.over(None),
                vertex_after_rows(None, vid, rows),
                vid,
                row,
            );
            assert(overlay.over(None) =~= overlay);
        }
    }
}

proof fn lemma_shows_basis_none()
    ensures
        shows(blank().over(None), None),
{
}

impl WriteTxn {
    /// Observe one staged intent.
    fn walk_intent<H: Host>(
        &mut self,
        corpus: &mut Corpus,
        vid: Option<VId>,
        session: &mut Session<H>,
    ) -> (done: Result<(), BeaconError>)
        requires
            old(self).wf(),
            old(corpus).wf(),
            old(corpus).control.interrupted is None,
        ensures
            final(self).wf(),
            final(corpus).wf(),
            final(corpus).rows == old(corpus).rows,
            final(corpus).control.limits == old(corpus).control.limits,
            done is Ok ==> final(corpus).control.interrupted is None,
            done is Err ==> final(corpus).control.interrupted == refused(
                old(session).log(),
                final(session).log(),
            ),
            done is Ok ==> refused(old(session).log(), final(session).log()) is None,
            crate::session::ran(old(session).log(), final(session).log()),
            final(session).metered() == old(session).metered(),
            search_frame(*old(self), *final(self)),
            old(self).read_set@.subset_of(final(self).read_set@),
            done is Ok ==> (vid matches Some(seen) ==> final(self).read_set@.contains(
                ElementId::Vertex(seen),
            )),
            walked(
                old(corpus).control.limits,
                walk_of(*old(self), *old(corpus)),
                vertex_part(vid),
                *final(self),
                *final(corpus),
                old(session).log(),
                final(session).log(),
                failure(done),
            ),
    {
        let ghost limits = corpus.control.limits;
        let ghost start = session.log();
        let ghost walk = walk_of(*self, *corpus);
        let ghost part = vertex_part(vid);
        let ghost nothing = Seq::<Action>::empty();
        proof {
            lemma_walked_nothing(limits, *self, *corpus, start);
            lemma_walked_part(limits, walk, nothing, part, *self, *corpus, start, start);
            assert(nothing + part =~= part);
        }
        let ghost txn0 = *self;
        let ghost corpus0 = *corpus;
        let paid = self.pay_search(corpus, 1, session);
        proof {
            lemma_walked_action(
                limits, walk, nothing, part, 0, part, txn0, *self, corpus0, *corpus, start, start,
                session.log(), failure(paid),
            );
        }
        if let Err(error) = paid {
            return Err(error);
        }
        if let Some(seen) = vid {
            let ghost txn1 = *self;
            let ghost corpus1 = *corpus;
            let ghost log1 = session.log();
            let observed = self.observe_searched(corpus, ElementId::Vertex(seen), session);
            proof {
                lemma_walked_action(
                    limits, walk, nothing, part, 1, part, txn1, *self, corpus1, *corpus, start,
                    log1, session.log(), failure(observed),
                );
                crate::session::lemma_ran_compose(start, log1, session.log());
            }
            if let Err(error) = observed {
                return Err(error);
            }
        }
        Ok(())
    }

    /// Observe the staged intents.
    #[verifier::spinoff_prover]
    #[verifier::rlimit(60)]
    pub(crate) fn walk_staged<H: Host>(&mut self, corpus: &mut Corpus, session: &mut Session<H>) -> (done:
        Result<(), BeaconError>)
        requires
            old(self).wf(),
            old(corpus).wf(),
            old(corpus).control.interrupted is None,
        ensures
            final(self).wf(),
            final(corpus).wf(),
            final(corpus).rows == old(corpus).rows,
            final(corpus).control.limits == old(corpus).control.limits,
            done is Ok ==> final(corpus).control.interrupted is None,
            done is Err ==> final(corpus).control.interrupted == refused(
                old(session).log(),
                final(session).log(),
            ),
            final(session).metered() == old(session).metered(),
            search_frame(*old(self), *final(self)),
            old(self).read_set@.subset_of(final(self).read_set@),
            done is Ok ==> intents_observed(
                *final(self),
                intents(old(self).staged@),
                intents(old(self).staged@).len() as int,
            ),
            walked(
                old(corpus).control.limits,
                walk_of(*old(self), *old(corpus)),
                staged_script(
                    intents(old(self).staged@),
                    intents(old(self).staged@).len() as int,
                ),
                *final(self),
                *final(corpus),
                old(session).log(),
                final(session).log(),
                failure(done),
            ),
    {
        let ghost origin = *self;
        let ghost limits = corpus.control.limits;
        let ghost start = session.log();
        let ghost walk = walk_of(*self, *corpus);
        let ghost rows = intents(self.staged@);
        let ghost full = staged_script(rows, rows.len() as int);
        let ghost mut n: int = 0;
        proof {
            lemma_walked_nothing(limits, *self, *corpus, start);
            crate::session::lemma_ran_nothing(start);
        }
        let mut b: usize = 0;
        while b < self.staged.len()
            invariant
                b <= self.staged.len(),
                origin == *old(self),
                limits == old(corpus).control.limits,
                corpus.control.limits == limits,
                corpus.control.interrupted is None,
                corpus.rows == old(corpus).rows,
                start == old(session).log(),
                walk == walk_of(*old(self), *old(corpus)),
                rows == intents(origin.staged@),
                full == staged_script(rows, rows.len() as int),
                session.metered() == old(session).metered(),
                self.wf(),
                corpus.wf(),
                search_frame(origin, *self),
                n == intents_upto(origin.staged@, b as int).len(),
                origin.read_set@.subset_of(self.read_set@),
                intents_observed(*self, rows, n),
                refused(start, session.log()) is None,
                crate::session::ran(start, session.log()),
                walked(
                    limits,
                    walk,
                    staged_script(rows, n),
                    *self,
                    *corpus,
                    start,
                    session.log(),
                    None,
                ),
            decreases self.staged.len() - b,
        {
            let ghost base = n;
            proof {
                lemma_intents_at(origin.staged@, b as int);
            }
            let mut r: usize = 0;
            let width: usize = self.staged[b].rows.len();
            while r < width
                invariant
                    b < self.staged.len(),
                    r <= width,
                    width == origin.staged@[b as int].rows@.len(),
                    origin == *old(self),
                    limits == old(corpus).control.limits,
                    corpus.control.limits == limits,
                    corpus.control.interrupted is None,
                    corpus.rows == old(corpus).rows,
                    start == old(session).log(),
                    walk == walk_of(*old(self), *old(corpus)),
                    rows == intents(origin.staged@),
                    full == staged_script(rows, rows.len() as int),
                    session.metered() == old(session).metered(),
                    self.wf(),
                    corpus.wf(),
                    search_frame(origin, *self),
                    base == intents_upto(origin.staged@, b as int).len(),
                    base + width <= rows.len(),
                    forall|k: int|
                        0 <= k < width ==> #[trigger] rows[base + k] == (
                            origin.staged@[b as int].relation,
                            origin.staged@[b as int].rows@[k],
                        ),
                    n == base + r,
                    origin.read_set@.subset_of(self.read_set@),
                    intents_observed(*self, rows, n),
                    refused(start, session.log()) is None,
                    crate::session::ran(start, session.log()),
                    walked(
                        limits,
                        walk,
                        staged_script(rows, n),
                        *self,
                        *corpus,
                        start,
                        session.log(),
                        None,
                    ),
                decreases width - r,
            {
                let ghost head = staged_script(rows, n);
                let ghost part = intent_part(rows[n].1);
                let vid = match &self.staged[b].rows[r] {
                    PendingRow::Vertex { vid, .. } | PendingRow::DeleteVertex { vid } => Some(*vid),
                    _ => None,
                };
                proof {
                    assert(rows[base + r] == (
                        origin.staged@[b as int].relation,
                        origin.staged@[b as int].rows@[r as int],
                    ));
                    assert(vid == intent_vertex(rows[n].1));
                    lemma_staged_prefix(rows, n + 1, rows.len() as int);
                    assert(staged_script(rows, n + 1) == head + part);
                }
                let ghost txn0 = *self;
                let ghost corpus0 = *corpus;
                let ghost log0 = session.log();
                let step = self.walk_intent(corpus, vid, session);
                proof {
                    lemma_walked_then(
                        limits, walk, head, txn0, corpus0, part, *self, *corpus, start, log0,
                        session.log(), failure(step),
                    );
                    crate::session::lemma_ran_compose(start, log0, session.log());
                }
                if let Err(error) = step {
                    proof {
                        lemma_walked_failed(
                            limits, walk, head + part, full, *self, *corpus, start, session.log(),
                            Some(error),
                        );
                    }
                    return Err(error);
                }
                proof {
                    n = n + 1;
                }
                r += 1;
            }
            b += 1;
        }
        Ok(())
    }
}

/// A run of actions that did not fail was refused nothing.
pub proof fn lemma_walked_ran(
    limits: SearchLimits,
    before: Walk,
    script: Seq<Action>,
    txn: WriteTxn,
    corpus: Corpus,
    log: Seq<Event>,
    log_after: Seq<Event>,
)
    requires
        walked(limits, before, script, txn, corpus, log, log_after, None),
    ensures
        crate::session::ran(log, log_after),
        refused(log, log_after) is None,
{
}

/// The overlays after one row.
proof fn lemma_all_net(
    before: IdMap<Overlay>,
    after: IdMap<Overlay>,
    seen: Seq<DeltaRow>,
    row: DeltaRow,
)
    requires
        row.wf(),
        forall|vid: VId| #[trigger] nets(overlay_at(before, vid), vid, seen),
        match row_vertex(row) {
            Some(changed) => {
                &&& overlay_at(after, changed) == overlay_at(before, changed).after(row)
                &&& forall|vid: VId|
                    vid != changed ==> #[trigger] overlay_at(after, vid) == overlay_at(before, vid)
            },
            None => forall|vid: VId| #[trigger] overlay_at(after, vid) == overlay_at(before, vid),
        },
    ensures
        forall|vid: VId| #[trigger] nets(overlay_at(after, vid), vid, seen.push(row)),
{
    assert forall|vid: VId| #[trigger] nets(overlay_at(after, vid), vid, seen.push(row)) by {
        assert(nets(overlay_at(before, vid), vid, seen));
        lemma_nets_push(overlay_at(before, vid), vid, seen, row);
    }
}

impl WriteTxn {
    /// Read one prepared row.
    fn walk_row<H: Host>(
        &mut self,
        corpus: &mut Corpus,
        row: &DeltaRow,
        session: &mut Session<H>,
    ) -> (done: Result<(), BeaconError>)
        requires
            old(self).wf(),
            old(corpus).wf(),
            old(corpus).control.interrupted is None,
            row.wf(),
        ensures
            final(self).wf(),
            final(corpus).wf(),
            final(corpus).control.limits == old(corpus).control.limits,
            final(corpus).control.interrupted == refused(
                old(session).log(),
                final(session).log(),
            ),
            final(session).metered() == old(session).metered(),
            search_frame(*old(self), *final(self)),
            old(self).read_set@.subset_of(final(self).read_set@),
            walked(
                old(corpus).control.limits,
                walk_of(*old(self), *old(corpus)),
                row_part(*row),
                *final(self),
                *final(corpus),
                old(session).log(),
                final(session).log(),
                failure(done),
            ),
            done is Ok ==> match row_vertex(*row) {
                Some(changed) => {
                    &&& overlay_at(final(corpus).rows, changed) == overlay_at(
                        old(corpus).rows,
                        changed,
                    ).after(*row)
                    &&& forall|vid: VId|
                        vid != changed ==> #[trigger] overlay_at(final(corpus).rows, vid)
                            == overlay_at(old(corpus).rows, vid)
                },
                None => forall|vid: VId| #[trigger]
                    overlay_at(final(corpus).rows, vid) == overlay_at(old(corpus).rows, vid),
            },
    {
        let ghost limits = corpus.control.limits;
        let ghost start = session.log();
        let ghost walk = walk_of(*self, *corpus);
        let ghost head = Seq::<Action>::empty();
        let ghost part = row_part(*row);
        let ghost rows0 = corpus.rows;
        proof {
            lemma_walked_nothing(limits, *self, *corpus, start);
            lemma_walked_part(limits, walk, head, part, *self, *corpus, start, start);
            assert(head + part =~= part);
            assert(part.is_prefix_of(part)) by {
                assert(part =~= part.subrange(0, part.len() as int));
            }
        }
        let ghost txn0 = *self;
        let ghost corpus0 = *corpus;
        let paid = self.pay_search(corpus, 1, session);
        proof {
            lemma_walked_action(
                limits, walk, head, part, 0, part, txn0, *self, corpus0, *corpus, start, start,
                session.log(), failure(paid),
            );
        }
        if let Err(error) = paid {
            return Err(error);
        }
        let vid = match vertex_of_row(row) {
            Some(vid) => vid,
            None => return Ok(()),
        };
        let ghost txn1 = *self;
        let ghost corpus1 = *corpus;
        let ghost log1 = session.log();
        let observed = self.observe_searched(corpus, ElementId::Vertex(vid), session);
        proof {
            lemma_walked_action(
                limits, walk, head, part, 1, part, txn1, *self, corpus1, *corpus, start, log1,
                session.log(), failure(observed),
            );
            lemma_walked_ran(limits, walk, head + part.take(1), txn1, corpus1, start, log1);
            crate::session::lemma_ran_compose(start, log1, session.log());
        }
        if let Err(error) = observed {
            return Err(error);
        }
        let ghost txn2 = *self;
        let ghost corpus2 = *corpus;
        let ghost log2 = session.log();
        let admitted = self.admit_candidate(corpus, vid, session);
        proof {
            lemma_walked_action(
                limits, walk, head, part, 2, part, txn2, *self, corpus2, *corpus, start, log2,
                session.log(), failure(admitted),
            );
            lemma_walked_ran(limits, walk, head + part.take(2), txn2, corpus2, start, log2);
            crate::session::lemma_ran_compose(start, log2, session.log());
        }
        if let Err(error) = admitted {
            return Err(error);
        }
        proof {
            lemma_candidate(walk_of(txn2, corpus2), *corpus, vid, corpus2);
        }
        let ghost txn3 = *self;
        let ghost corpus3 = *corpus;
        let ghost log3 = session.log();
        let applied = self.apply_candidate(corpus, vid, row, session);
        proof {
            lemma_walked_action(
                limits, walk, head, part, 3, part, txn3, *self, corpus3, *corpus, start, log3,
                session.log(), failure(applied),
            );
            lemma_walked_ran(limits, walk, head + part.take(3), txn3, corpus3, start, log3);
            crate::session::lemma_ran_compose(start, log3, session.log());
            if applied is Ok {
                lemma_overlaid(corpus3, *corpus, vid, overlay_at(corpus3.rows, vid).after(*row));
            }
        }
        applied
    }

    /// Read the prepared rows.
    pub(crate) fn walk_prepared<H: Host>(
        &mut self,
        corpus: &mut Corpus,
        template: &Template,
        session: &mut Session<H>,
    ) -> (done: Result<(), BeaconError>)
        requires
            old(self).wf(),
            old(corpus).wf(),
            old(corpus).control.interrupted is None,
            template.wf(),
            forall|vid: VId| #[trigger]
                nets(overlay_at(old(corpus).rows, vid), vid, Seq::<DeltaRow>::empty()),
        ensures
            final(self).wf(),
            final(corpus).wf(),
            final(corpus).control.limits == old(corpus).control.limits,
            final(corpus).control.interrupted == refused(
                old(session).log(),
                final(session).log(),
            ),
            final(session).metered() == old(session).metered(),
            search_frame(*old(self), *final(self)),
            old(self).read_set@.subset_of(final(self).read_set@),
            walked(
                old(corpus).control.limits,
                walk_of(*old(self), *old(corpus)),
                prepared_script(template.coordinates@, template.coordinates@.len() as int),
                *final(self),
                *final(corpus),
                old(session).log(),
                final(session).log(),
                failure(done),
            ),
            done is Ok ==> forall|vid: VId| #[trigger]
                nets(overlay_at(final(corpus).rows, vid), vid, template.rows()),
    {
        let ghost origin = *self;
        let ghost limits = corpus.control.limits;
        let ghost start = session.log();
        let ghost walk = walk_of(*self, *corpus);
        let ghost coordinates = template.coordinates@;
        let ghost full = prepared_script(coordinates, coordinates.len() as int);
        proof {
            lemma_walked_nothing(limits, *self, *corpus, start);
            lemma_walked_ran(limits, walk, Seq::empty(), *self, *corpus, start, start);
        }
        let mut c: usize = 0;
        while c < template.coordinates.len()
            invariant
                c <= template.coordinates.len(),
                coordinates == template.coordinates@,
                template.wf(),
                origin == *old(self),
                limits == old(corpus).control.limits,
                corpus.control.limits == limits,
                corpus.control.interrupted is None,
                start == old(session).log(),
                walk == walk_of(*old(self), *old(corpus)),
                full == prepared_script(coordinates, coordinates.len() as int),
                session.metered() == old(session).metered(),
                self.wf(),
                corpus.wf(),
                search_frame(origin, *self),
                origin.read_set@.subset_of(self.read_set@),
                walked(
                    limits,
                    walk,
                    prepared_script(coordinates, c as int),
                    *self,
                    *corpus,
                    start,
                    session.log(),
                    None,
                ),
                forall|vid: VId| #[trigger]
                    nets(overlay_at(corpus.rows, vid), vid, rows_upto(coordinates, c as int)),
            decreases template.coordinates.len() - c,
        {
            let coordinate = &template.coordinates[c];
            let ghost rows = coordinate.rows@;
            let ghost before = prepared_script(coordinates, c as int);
            let ghost unit = seq![Action::Charge(1)];
            let ghost body = rows_actions(rows, rows.len() as int);
            proof {
                lemma_prepared_prefix(coordinates, c + 1, coordinates.len() as int);
                assert(prepared_script(coordinates, c + 1) == before + (unit + body));
                assert(before + unit + body =~= before + (unit + body));
                lemma_prefix_concat(before + unit, body);
                lemma_prefix_transitive(before + unit, before + unit + body, full);
                lemma_walked_part(limits, walk, before, unit, *self, *corpus, start, session.log());
                lemma_rows_bounds(coordinates, c as int);
            }
            let ghost txn0 = *self;
            let ghost corpus0 = *corpus;
            let ghost log0 = session.log();
            let paid = self.pay_search(corpus, 1, session);
            proof {
                lemma_walked_action(
                    limits, walk, before, unit, 0, full, txn0, *self, corpus0, *corpus, start,
                    log0, session.log(), failure(paid),
                );
                lemma_walked_ran(limits, walk, before, txn0, corpus0, start, log0);
                crate::session::lemma_ran_compose(start, log0, session.log());
            }
            if let Err(error) = paid {
                return Err(error);
            }
            proof {
                assert(before + unit + rows_actions(rows, 0) =~= before + unit);
            }
            let mut r: usize = 0;
            while r < coordinate.rows.len()
                invariant
                    c < template.coordinates.len(),
                    coordinates == template.coordinates@,
                    *coordinate == coordinates[c as int],
                    rows == coordinate.rows@,
                    r <= coordinate.rows.len(),
                    template.wf(),
                    origin == *old(self),
                    limits == old(corpus).control.limits,
                    corpus.control.limits == limits,
                    corpus.control.interrupted is None,
                    start == old(session).log(),
                    walk == walk_of(*old(self), *old(corpus)),
                    full == prepared_script(coordinates, coordinates.len() as int),
                    body == rows_actions(rows, rows.len() as int),
                    (before + unit + body).is_prefix_of(full),
                    session.metered() == old(session).metered(),
                    self.wf(),
                    corpus.wf(),
                    search_frame(origin, *self),
                    origin.read_set@.subset_of(self.read_set@),
                    walked(
                        limits,
                        walk,
                        before + unit + rows_actions(rows, r as int),
                        *self,
                        *corpus,
                        start,
                        session.log(),
                        None,
                    ),
                    forall|vid: VId| #[trigger]
                        nets(
                            overlay_at(corpus.rows, vid),
                            vid,
                            rows_seen(coordinates, c as int, r as int),
                        ),
                decreases coordinate.rows.len() - r,
            {
                let ghost head = before + unit + rows_actions(rows, r as int);
                let ghost part = row_part(rows[r as int]);
                let ghost txn1 = *self;
                let ghost corpus1 = *corpus;
                let ghost log1 = session.log();
                proof {
                    assert(template.coordinates@[c as int].rows@[r as int].wf());
                    lemma_rows_step(coordinates, c as int, r as int);
                    lemma_rows_actions_prefix(rows, r + 1, rows.len() as int);
                    assert(before + unit + rows_actions(rows, r + 1) =~= head + part);
                    assert((head + part).is_prefix_of(before + unit + body)) by {
                        let longer = before + unit + body;
                        let shorter = before + unit + rows_actions(rows, r + 1);
                        let inner = rows_actions(rows, r + 1);
                        assert forall|i: int| 0 <= i < shorter.len() implies shorter[i]
                            == longer[i] by {
                            let at = i - (before + unit).len();
                            if at >= 0 {
                                assert(inner[at] == body.subrange(0, inner.len() as int)[at]);
                            }
                        }
                        assert(shorter =~= longer.subrange(0, shorter.len() as int));
                    }
                    lemma_prefix_transitive(head + part, before + unit + body, full);
                    lemma_walked_ran(limits, walk, head, txn1, corpus1, start, log1);
                }
                let step = self.walk_row(corpus, &coordinate.rows[r], session);
                proof {
                    lemma_walked_then(
                        limits, walk, head, txn1, corpus1, part, *self, *corpus, start, log1,
                        session.log(), failure(step),
                    );
                    crate::session::lemma_ran_compose(start, log1, session.log());
                    if step is Err {
                        lemma_walked_failed(
                            limits, walk, head + part, full, *self, *corpus, start, session.log(),
                            failure(step),
                        );
                    } else {
                        lemma_all_net(
                            corpus1.rows,
                            corpus.rows,
                            rows_seen(coordinates, c as int, r as int),
                            rows[r as int],
                        );
                    }
                }
                if let Err(error) = step {
                    return Err(error);
                }
                r += 1;
            }
            proof {
                lemma_rows_bounds(coordinates, c as int);
                assert(before + unit + body =~= prepared_script(coordinates, c + 1));
            }
            c += 1;
        }
        proof {
            lemma_walked_ran(limits, walk, full, *self, *corpus, start, session.log());
        }
        Ok(())
    }
}

/// Making room shows nothing new.
pub proof fn lemma_candidate(walk: Walk, corpus: Corpus, vid: VId, before: Corpus)
    requires
        walk.candidates == overlays(before.rows),
        overlays(corpus.rows) == action_next(walk, Action::Candidate(vid)).candidates,
    ensures
        corpus.rows@.dom().contains(vid.0),
        forall|other: VId| #[trigger]
            overlay_at(corpus.rows, other) == overlay_at(before.rows, other),
{
    assert(overlays(corpus.rows).dom().contains(vid.0));
    assert forall|other: VId| #[trigger]
        overlay_at(corpus.rows, other) == overlay_at(before.rows, other) by {
        assert(overlays(corpus.rows).dom().contains(other.0) == corpus.rows@.dom().contains(
            other.0,
        ));
        assert(overlays(before.rows).dom().contains(other.0) == before.rows@.dom().contains(
            other.0,
        ));
        if corpus.rows@.dom().contains(other.0) {
            assert(overlays(corpus.rows)[other.0] == corpus.rows@[other.0]@);
        }
        if before.rows@.dom().contains(other.0) {
            assert(overlays(before.rows)[other.0] == before.rows@[other.0]@);
        }
    }
}

/// Only one overlay changed.
pub proof fn lemma_overlaid(before: Corpus, after: Corpus, vid: VId, overlay: OverlayView)
    requires
        before.rows@.dom().contains(vid.0),
        overlays(after.rows) == overlays(before.rows).insert(vid.0, overlay),
    ensures
        overlay_at(after.rows, vid) == overlay,
        forall|other: VId|
            other != vid ==> #[trigger] overlay_at(after.rows, other) == overlay_at(
                before.rows,
                other,
            ),
{
    assert(overlays(after.rows).dom().contains(vid.0));
    assert(overlays(after.rows)[vid.0] == after.rows@[vid.0]@);
    assert forall|other: VId| other != vid implies #[trigger] overlay_at(after.rows, other)
        == overlay_at(before.rows, other) by {
        assert(other.0 != vid.0);
        assert(overlays(after.rows).dom().contains(other.0) == after.rows@.dom().contains(other.0));
        assert(overlays(before.rows).dom().contains(other.0) == before.rows@.dom().contains(
            other.0,
        ));
        if after.rows@.dom().contains(other.0) {
            assert(overlays(after.rows)[other.0] == after.rows@[other.0]@);
            assert(overlays(before.rows)[other.0] == before.rows@[other.0]@);
        }
    }
}

} // verus!
