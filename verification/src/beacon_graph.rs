//! The graph lane of a search: the edges of the pinned snapshot under the
//! prepared rows, between selected vertices.

use vstd::prelude::*;
use crate::authorized_run::lemma_intents_at;
use crate::batch::{intents, intents_upto, PendingRow};
use crate::beacon::{
    cancelled, charge_plan, charged, expansion_plan, BeaconError, InvalidQuery, SearchLimits,
    SearchResource,
};
use crate::beacon_corpus::{
    acts, admitted_edge, lemma_walked_failed, lemma_walked_nothing, lemma_walked_ran,
    lemma_walked_then, search_frame, settled, walk_of, walked, Action, Corpus, Incidence, Walk,
};
use crate::database::Database;
use crate::edge_reads::lists_edges;
use crate::graph::{edge_after_rows, DeltaRow, EdgeRecord, EdgeView};
use crate::ids::{CommitSeq, EId, ElementId, RelationId, VId};
use crate::idset::{increasing, lemma_sorted_exists, lemma_sorted_unique, sorted_ids, IdMap, IdSet};
use crate::plan::{
    failure, go, lemma_obeys_and, lemma_obeys_failed, lemma_obeys_nothing, lemma_obeys_stop,
};
use crate::read_laws::{law_reads_are_published, published, same_edge};
use crate::script::{lemma_prefix_concat, lemma_prefix_transitive};
use crate::session::{lemma_ran_compose, ran, refused, Event, Host, Session};
use crate::template::{edge_in, edges_wf, lemma_rows_bounds, rows_upto, Coordinate, Template};
use crate::txn::{same_workspace, WriteTxn};

verus! {

impl WriteTxn {
    /// Keep a read witness of the graph lane. It counts against the source
    /// allowance and the graph's own ceiling.
    fn trace<H: Host>(
        &mut self,
        corpus: &mut Corpus,
        element: ElementId,
        session: &mut Session<H>,
    ) -> (traced: Result<(), BeaconError>)
        requires
            old(self).wf(),
            old(corpus).wf(),
            old(corpus).control.interrupted is None,
        ensures
            final(session).metered() == old(session).metered(),
            final(corpus).changes == old(corpus).changes,
            final(corpus).emitted == old(corpus).emitted,
            acts(
                *old(self),
                *final(self),
                *old(corpus),
                *final(corpus),
                Action::Trace(element),
                old(session).log(),
                final(session).log(),
                failure(traced),
            ),
    {
        let ghost start = session.log();
        let ghost meter = corpus.control.meter;
        let ghost limits = corpus.control.limits;
        let ghost rest = if self.read_set@.contains(element) {
            go()
        } else {
            expansion_plan(charged(meter, 1), limits)
        };
        let paid = corpus.control.charge(1, session);
        let ghost middle = session.log();
        if let Err(error) = paid {
            proof {
                lemma_obeys_failed(
                    start, middle, charge_plan(meter, 1), rest, cancelled(), Some(error),
                );
            }
            return Err(error);
        }
        proof {
            lemma_obeys_nothing(middle, cancelled());
        }
        let fresh = !self.read_set.contains(element);
        let mut done: Result<(), BeaconError> = Ok(());
        if fresh {
            done = corpus.control.expansion(session);
        }
        proof {
            lemma_obeys_and(
                start, middle, session.log(), charge_plan(meter, 1), rest, cancelled(),
                failure(done),
            );
        }
        if let Err(error) = done {
            return Err(error);
        }
        if fresh {
            self.read_set.insert(element);
        }
        Ok(())
    }

    /// Note what the prepared rows make of an edge.
    fn replace<H: Host>(
        &mut self,
        corpus: &mut Corpus,
        eid: EId,
        after: Option<Incidence>,
        session: &mut Session<H>,
    ) -> (noted: Result<(), BeaconError>)
        requires
            old(self).wf(),
            old(corpus).wf(),
            old(corpus).control.interrupted is None,
        ensures
            final(session).metered() == old(session).metered(),
            acts(
                *old(self),
                *final(self),
                *old(corpus),
                *final(corpus),
                Action::Replace(eid, after),
                old(session).log(),
                final(session).log(),
                failure(noted),
            ),
    {
        let ghost start = session.log();
        let ghost meter = corpus.control.meter;
        let ghost limits = corpus.control.limits;
        let ghost rest = if corpus.changes@.dom().contains(eid.0) {
            go()
        } else {
            expansion_plan(charged(meter, 1), limits)
        };
        let paid = corpus.control.charge(1, session);
        let ghost middle = session.log();
        if let Err(error) = paid {
            proof {
                lemma_obeys_failed(
                    start, middle, charge_plan(meter, 1), rest, cancelled(), Some(error),
                );
            }
            return Err(error);
        }
        proof {
            lemma_obeys_nothing(middle, cancelled());
        }
        let fresh = corpus.changes.get(eid.0).is_none();
        let mut done: Result<(), BeaconError> = Ok(());
        if fresh {
            done = corpus.control.expansion(session);
        }
        proof {
            lemma_obeys_and(
                start, middle, session.log(), charge_plan(meter, 1), rest, cancelled(),
                failure(done),
            );
        }
        if let Err(error) = done {
            return Err(error);
        }
        corpus.changes.insert(eid.0, after);
        Ok(())
    }

    /// Emit an edge as the prepared rows leave it.
    fn settle_edge<H: Host>(
        &mut self,
        corpus: &mut Corpus,
        eid: EId,
        native: Option<Incidence>,
        relation: Option<RelationId>,
        members: &IdSet,
        session: &mut Session<H>,
    ) -> (emitted: Result<(), BeaconError>)
        requires
            old(self).wf(),
            old(corpus).wf(),
            old(corpus).control.interrupted is None,
            members.wf(),
        ensures
            final(session).metered() == old(session).metered(),
            acts(
                *old(self),
                *final(self),
                *old(corpus),
                *final(corpus),
                Action::Settle(eid, native, relation, members@),
                old(session).log(),
                final(session).log(),
                failure(emitted),
            ),
    {
        proof {
            lemma_obeys_nothing(session.log(), cancelled());
        }
        let ghost before = *corpus;
        let after = match corpus.changes.get(eid.0) {
            Some(changed) => *changed,
            None => native,
        };
        if let Some(incidence) = after {
            if let Err(error) = corpus.control.charge(1, session) {
                return Err(error);
            }
            let requested = match relation {
                Some(wanted) => wanted == incidence.relation,
                None => true,
            };
            if requested && members.contains(incidence.src.0) && members.contains(
                incidence.dst.0,
            ) {
                corpus.emitted.push((eid, incidence));
            }
        }
        corpus.changes.remove(eid.0);
        proof {
            assert(corpus.changes@ =~= before.changes@.remove(eid.0));
        }
        Ok(())
    }
}

/// The edge that an intent names.
pub open spec fn intent_edge(row: PendingRow) -> Option<EId> {
    match row {
        PendingRow::Edge { eid, .. } => Some(eid),
        PendingRow::DeleteEdge { eid, .. } => Some(eid),
        PendingRow::SetEdgeProperty { eid, .. } => Some(eid),
        PendingRow::CompareAndSet { elem: ElementId::Edge(eid), .. } => Some(eid),
        _ => None,
    }
}

fn edge_of_intent(row: &PendingRow) -> (eid: Option<EId>)
    ensures
        eid == intent_edge(*row),
{
    match row {
        PendingRow::Edge { eid, .. }
        | PendingRow::DeleteEdge { eid, .. }
        | PendingRow::SetEdgeProperty { eid, .. }
        | PendingRow::CompareAndSet { elem: ElementId::Edge(eid), .. } => Some(*eid),
        _ => None,
    }
}

/// What one staged intent costs the graph lane. The input's spelling supplies
/// dependencies only.
pub open spec fn edge_intent_part(row: PendingRow) -> Seq<Action> {
    match intent_edge(row) {
        Some(eid) => seq![Action::Charge(1), Action::Trace(ElementId::Edge(eid))],
        None => seq![Action::Charge(1)],
    }
}

pub open spec fn edge_intents_script(rows: Seq<(RelationId, PendingRow)>, n: int) -> Seq<Action>
    decreases n,
{
    if n <= 0 {
        Seq::empty()
    } else {
        edge_intents_script(rows, n - 1) + edge_intent_part(rows[n - 1].1)
    }
}

proof fn lemma_edge_intents_prefix(rows: Seq<(RelationId, PendingRow)>, n: int, m: int)
    requires
        0 <= n <= m,
    ensures
        edge_intents_script(rows, n).is_prefix_of(edge_intents_script(rows, m)),
    decreases m - n,
{
    if n < m {
        lemma_edge_intents_prefix(rows, n, m - 1);
        lemma_prefix_concat(edge_intents_script(rows, m - 1), edge_intent_part(rows[m - 1].1));
        lemma_prefix_transitive(
            edge_intents_script(rows, n),
            edge_intents_script(rows, m - 1),
            edge_intents_script(rows, m),
        );
    }
}

/// What the cascade of a deleted vertex costs.
pub open spec fn cascade_script(retired: Seq<EId>, n: int) -> Seq<Action>
    decreases n,
{
    if n <= 0 {
        Seq::empty()
    } else {
        cascade_script(retired, n - 1) + seq![
            Action::Trace(ElementId::Edge(retired[n - 1])),
            Action::Replace(retired[n - 1], None),
        ]
    }
}

proof fn lemma_cascade_prefix(retired: Seq<EId>, n: int, m: int)
    requires
        0 <= n <= m,
    ensures
        cascade_script(retired, n).is_prefix_of(cascade_script(retired, m)),
    decreases m - n,
{
    if n < m {
        lemma_cascade_prefix(retired, n, m - 1);
        lemma_prefix_concat(
            cascade_script(retired, m - 1),
            seq![
                Action::Trace(ElementId::Edge(retired[m - 1])),
                Action::Replace(retired[m - 1], None),
            ],
        );
        lemma_prefix_transitive(
            cascade_script(retired, n),
            cascade_script(retired, m - 1),
            cascade_script(retired, m),
        );
    }
}

/// What one prepared row costs the graph lane.
pub open spec fn edge_row_part(row: DeltaRow) -> Seq<Action> {
    match row {
        DeltaRow::CreateEdge { eid, src, relation, dst, .. } => seq![
            Action::Charge(1),
            Action::Trace(ElementId::Edge(eid)),
            Action::Trace(ElementId::Vertex(src)),
            Action::Replace(eid, Some(Incidence { src, relation, dst })),
        ],
        DeltaRow::DeleteEdge { eid } => seq![
            Action::Charge(1),
            Action::Trace(ElementId::Edge(eid)),
            Action::Replace(eid, None),
        ],
        DeltaRow::DeleteVertex { vid, sorted_retired_incident_edges } => seq![
            Action::Charge(1),
            Action::Trace(ElementId::Vertex(vid)),
        ] + cascade_script(
            sorted_retired_incident_edges@,
            sorted_retired_incident_edges@.len() as int,
        ),
        DeltaRow::Property { elem: ElementId::Edge(eid), .. } => seq![
            Action::Charge(1),
            Action::Trace(ElementId::Edge(eid)),
        ],
        _ => seq![Action::Charge(1)],
    }
}

/// The changes after a cascade.
pub open spec fn cascaded(
    changes: Map<u128, Option<Incidence>>,
    retired: Seq<EId>,
    n: int,
) -> Map<u128, Option<Incidence>>
    decreases n,
{
    if n <= 0 {
        changes
    } else {
        cascaded(changes, retired, n - 1).insert(retired[n - 1].0, None)
    }
}

/// The changes after one row.
pub open spec fn row_changes(
    changes: Map<u128, Option<Incidence>>,
    row: DeltaRow,
) -> Map<u128, Option<Incidence>> {
    match row {
        DeltaRow::CreateEdge { eid, src, relation, dst, .. } => changes.insert(
            eid.0,
            Some(Incidence { src, relation, dst }),
        ),
        DeltaRow::DeleteEdge { eid } => changes.insert(eid.0, None),
        DeltaRow::DeleteVertex { sorted_retired_incident_edges, .. } => cascaded(
            changes,
            sorted_retired_incident_edges@,
            sorted_retired_incident_edges@.len() as int,
        ),
        _ => changes,
    }
}

/// The endpoints and the relation of an edge, if there is one.
pub open spec fn incidence_of(edge: Option<EdgeView>) -> Option<Incidence> {
    match edge {
        Some(found) => Some(
            Incidence {
                src: found.entry.src,
                relation: found.entry.relation,
                dst: found.entry.dst,
            },
        ),
        None => None,
    }
}

/// Over whatever committed edge, the changes say what the rows leave of it.
pub open spec fn noted(
    changes: Map<u128, Option<Incidence>>,
    eid: EId,
    rows: Seq<DeltaRow>,
    at: CommitSeq,
) -> bool {
    forall|base: Option<EdgeView>| #[trigger]
        incidence_of(edge_after_rows(base, eid, rows, at)) == settled(
            changes,
            eid,
            incidence_of(base),
        )
}

proof fn lemma_cascaded(
    changes: Map<u128, Option<Incidence>>,
    retired: Seq<EId>,
    n: int,
    eid: EId,
)
    requires
        0 <= n <= retired.len(),
    ensures
        cascaded(changes, retired, n).dom().contains(eid.0) == (changes.dom().contains(eid.0)
            || retired.take(n).contains(eid)),
        cascaded(changes, retired, n).dom().contains(eid.0) ==> cascaded(
            changes,
            retired,
            n,
        )[eid.0] == (if retired.take(n).contains(eid) {
            None
        } else {
            changes[eid.0]
        }),
    decreases n,
{
    if n > 0 {
        lemma_cascaded(changes, retired, n - 1, eid);
        let shorter = retired.take(n - 1);
        let longer = retired.take(n);
        let last = retired[n - 1];
        assert(longer =~= shorter.push(last));
        assert(longer.contains(eid) == (shorter.contains(eid) || eid == last)) by {
            if shorter.contains(eid) {
                let k = shorter.index_of(eid);
                assert(longer[k] == eid);
            }
            if longer.contains(eid) && eid != last {
                let k = longer.index_of(eid);
                assert(shorter[k] == eid);
            }
            assert(longer[n - 1] == last);
        }
        assert((eid == last) == (eid.0 == last.0));
    } else {
        assert(!retired.take(0).contains(eid));
    }
}

/// A row moves the changes as it moves the edges.
proof fn lemma_noted_push(
    changes: Map<u128, Option<Incidence>>,
    eid: EId,
    rows: Seq<DeltaRow>,
    row: DeltaRow,
    at: CommitSeq,
)
    requires
        noted(changes, eid, rows, at),
    ensures
        noted(row_changes(changes, row), eid, rows.push(row), at),
{
    assert(rows.push(row).drop_last() =~= rows);
    assert forall|base: Option<EdgeView>| #[trigger]
        incidence_of(edge_after_rows(base, eid, rows.push(row), at)) == settled(
            row_changes(changes, row),
            eid,
            incidence_of(base),
        ) by {
        assert(incidence_of(edge_after_rows(base, eid, rows, at)) == settled(
            changes,
            eid,
            incidence_of(base),
        ));
        match row {
            DeltaRow::CreateEdge { eid: created, .. } => {
                assert((created == eid) == (created.0 == eid.0));
            },
            DeltaRow::DeleteEdge { eid: deleted } => {
                assert((deleted == eid) == (deleted.0 == eid.0));
            },
            DeltaRow::DeleteVertex { sorted_retired_incident_edges, .. } => {
                let retired = sorted_retired_incident_edges@;
                lemma_cascaded(changes, retired, retired.len() as int, eid);
                assert(retired.take(retired.len() as int) =~= retired);
            },
            _ => {},
        }
    }
}

/// A run of actions with everything it keeps.
pub open spec fn lane(
    before: WriteTxn,
    after: WriteTxn,
    corpus: Corpus,
    corpus_after: Corpus,
    script: Seq<Action>,
    log: Seq<Event>,
    log_after: Seq<Event>,
    failed: Option<BeaconError>,
) -> bool {
    &&& after.wf()
    &&& corpus_after.wf()
    &&& corpus_after.control.limits == corpus.control.limits
    &&& corpus_after.control.interrupted == refused(log, log_after)
    &&& search_frame(before, after)
    &&& before.read_set@.subset_of(after.read_set@)
    &&& walked(
        corpus.control.limits,
        walk_of(before, corpus),
        script,
        after,
        corpus_after,
        log,
        log_after,
        failed,
    )
}

proof fn lemma_lane_nothing(txn: WriteTxn, corpus: Corpus, log: Seq<Event>)
    requires
        txn.wf(),
        corpus.wf(),
        corpus.control.interrupted is None,
    ensures
        lane(txn, txn, corpus, corpus, Seq::empty(), log, log, None),
{
    lemma_walked_nothing(corpus.control.limits, txn, corpus, log);
    crate::session::lemma_ran_nothing(log);
}

proof fn lemma_lane_act(
    before: WriteTxn,
    after: WriteTxn,
    corpus: Corpus,
    corpus_after: Corpus,
    action: Action,
    log: Seq<Event>,
    log_after: Seq<Event>,
    failed: Option<BeaconError>,
)
    requires
        acts(before, after, corpus, corpus_after, action, log, log_after, failed),
    ensures
        lane(before, after, corpus, corpus_after, seq![action], log, log_after, failed),
{
    crate::beacon_corpus::lemma_walked_one(
        before, after, corpus, corpus_after, action, log, log_after, failed,
    );
}

proof fn lemma_lane_then(
    first: WriteTxn,
    middle: WriteTxn,
    last: WriteTxn,
    corpus_first: Corpus,
    corpus_middle: Corpus,
    corpus_last: Corpus,
    head: Seq<Action>,
    tail: Seq<Action>,
    log_first: Seq<Event>,
    log_middle: Seq<Event>,
    log_last: Seq<Event>,
    failed: Option<BeaconError>,
)
    requires
        lane(first, middle, corpus_first, corpus_middle, head, log_first, log_middle, None),
        lane(middle, last, corpus_middle, corpus_last, tail, log_middle, log_last, failed),
    ensures
        lane(first, last, corpus_first, corpus_last, head + tail, log_first, log_last, failed),
{
    let limits = corpus_first.control.limits;
    let walk = walk_of(first, corpus_first);
    lemma_walked_ran(limits, walk, head, middle, corpus_middle, log_first, log_middle);
    lemma_walked_then(
        limits, walk, head, middle, corpus_middle, tail, last, corpus_last, log_first, log_middle,
        log_last, failed,
    );
    lemma_walked_runs(
        limits, walk_of(middle, corpus_middle), tail, last, corpus_last, log_middle, log_last,
        failed,
    );
    lemma_ran_compose(log_first, log_middle, log_last);
}

/// Every run of actions ends at its first refusal.
proof fn lemma_walked_runs(
    limits: SearchLimits,
    before: Walk,
    script: Seq<Action>,
    txn: WriteTxn,
    corpus: Corpus,
    log: Seq<Event>,
    log_after: Seq<Event>,
    failed: Option<BeaconError>,
)
    requires
        walked(limits, before, script, txn, corpus, log, log_after, failed),
    ensures
        ran(log, log_after),
{
}

proof fn lemma_lane_failed(
    before: WriteTxn,
    after: WriteTxn,
    corpus: Corpus,
    corpus_after: Corpus,
    script: Seq<Action>,
    full: Seq<Action>,
    log: Seq<Event>,
    log_after: Seq<Event>,
    failed: Option<BeaconError>,
)
    requires
        lane(before, after, corpus, corpus_after, script, log, log_after, failed),
        failed is Some,
        script.is_prefix_of(full),
    ensures
        lane(before, after, corpus, corpus_after, full, log, log_after, failed),
{
    lemma_walked_failed(
        corpus.control.limits,
        walk_of(before, corpus),
        script,
        full,
        after,
        corpus_after,
        log,
        log_after,
        failed,
    );
}

impl WriteTxn {
    /// Observe the edges that staged intents name.
    fn trace_intents<H: Host>(&mut self, corpus: &mut Corpus, session: &mut Session<H>) -> (done:
        Result<(), BeaconError>)
        requires
            old(self).wf(),
            old(corpus).wf(),
            old(corpus).control.interrupted is None,
        ensures
            final(session).metered() == old(session).metered(),
            final(corpus).changes == old(corpus).changes,
            final(corpus).emitted == old(corpus).emitted,
            lane(
                *old(self),
                *final(self),
                *old(corpus),
                *final(corpus),
                edge_intents_script(
                    intents(old(self).staged@),
                    intents(old(self).staged@).len() as int,
                ),
                old(session).log(),
                final(session).log(),
                failure(done),
            ),
    {
        let ghost origin = *self;
        let ghost corpus0 = *corpus;
        let ghost start = session.log();
        let ghost rows = intents(self.staged@);
        let ghost full = edge_intents_script(rows, rows.len() as int);
        let ghost mut n: int = 0;
        proof {
            lemma_lane_nothing(*self, *corpus, start);
        }
        let mut b: usize = 0;
        while b < self.staged.len()
            invariant
                b <= self.staged.len(),
                origin == *old(self),
                corpus0 == *old(corpus),
                start == old(session).log(),
                rows == intents(origin.staged@),
                full == edge_intents_script(rows, rows.len() as int),
                session.metered() == old(session).metered(),
                corpus.changes == corpus0.changes,
                corpus.emitted == corpus0.emitted,
                n == intents_upto(origin.staged@, b as int).len(),
                corpus.control.interrupted is None,
                lane(
                    origin,
                    *self,
                    corpus0,
                    *corpus,
                    edge_intents_script(rows, n),
                    start,
                    session.log(),
                    None,
                ),
            decreases self.staged.len() - b,
        {
            let ghost base = n;
            proof {
                lemma_intents_at(origin.staged@, b as int);
            }
            let mut r: usize = 0;
            let width: usize = self.staged[b].rows.len();
            while r < width
                invariant
                    b < self.staged.len(),
                    r <= width,
                    width == origin.staged@[b as int].rows@.len(),
                    origin == *old(self),
                    corpus0 == *old(corpus),
                    start == old(session).log(),
                    rows == intents(origin.staged@),
                    full == edge_intents_script(rows, rows.len() as int),
                    session.metered() == old(session).metered(),
                    corpus.changes == corpus0.changes,
                    corpus.emitted == corpus0.emitted,
                    base == intents_upto(origin.staged@, b as int).len(),
                    base + width <= rows.len(),
                    forall|k: int|
                        0 <= k < width ==> #[trigger] rows[base + k] == (
                            origin.staged@[b as int].relation,
                            origin.staged@[b as int].rows@[k],
                        ),
                    n == base + r,
                    corpus.control.interrupted is None,
                    lane(
                        origin,
                        *self,
                        corpus0,
                        *corpus,
                        edge_intents_script(rows, n),
                        start,
                        session.log(),
                        None,
                    ),
                decreases width - r,
            {
                let ghost head = edge_intents_script(rows, n);
                let ghost part = edge_intent_part(rows[n].1);
                let eid = edge_of_intent(&self.staged[b].rows[r]);
                let ghost txn1 = *self;
                let ghost corpus1 = *corpus;
                let ghost log1 = session.log();
                proof {
                    assert(rows[base + r] == (
                        origin.staged@[b as int].relation,
                        origin.staged@[b as int].rows@[r as int],
                    ));
                    lemma_edge_intents_prefix(rows, n + 1, rows.len() as int);
                    assert(edge_intents_script(rows, n + 1) == head + part);
                }
                let done = self.trace_intent(corpus, eid, session);
                proof {
                    assert(part =~= match eid {
                        Some(found) => seq![
                            Action::Charge(1),
                            Action::Trace(ElementId::Edge(found)),
                        ],
                        None => seq![Action::Charge(1)],
                    });
                    lemma_lane_then(
                        origin, txn1, *self, corpus0, corpus1, *corpus, head, part, start, log1,
                        session.log(), failure(done),
                    );
                    if done is Err {
                        lemma_lane_failed(
                            origin, *self, corpus0, *corpus, head + part, full, start,
                            session.log(), failure(done),
                        );
                    }
                }
                if let Err(error) = done {
                    return Err(error);
                }
                proof {
                    n = n + 1;
                }
                r += 1;
            }
            b += 1;
        }
        Ok(())
    }

    /// Observe the edge that one intent names, if any.
    fn trace_intent<H: Host>(
        &mut self,
        corpus: &mut Corpus,
        eid: Option<EId>,
        session: &mut Session<H>,
    ) -> (done: Result<(), BeaconError>)
        requires
            old(self).wf(),
            old(corpus).wf(),
            old(corpus).control.interrupted is None,
        ensures
            final(session).metered() == old(session).metered(),
            final(corpus).changes == old(corpus).changes,
            final(corpus).emitted == old(corpus).emitted,
            done is Ok ==> final(corpus).control.interrupted is None,
            lane(
                *old(self),
                *final(self),
                *old(corpus),
                *final(corpus),
                match eid {
                    Some(found) => seq![Action::Charge(1), Action::Trace(ElementId::Edge(found))],
                    None => seq![Action::Charge(1)],
                },
                old(session).log(),
                final(session).log(),
                failure(done),
            ),
    {
        let ghost origin = *self;
        let ghost corpus0 = *corpus;
        let ghost start = session.log();
        let ghost unit = seq![Action::Charge(1)];
        let paid = self.pay_search(corpus, 1, session);
        let ghost txn1 = *self;
        let ghost corpus1 = *corpus;
        let ghost log1 = session.log();
        proof {
            assert(corpus.changes@ == corpus0.changes@);
            lemma_lane_act(
                origin, txn1, corpus0, corpus1, Action::Charge(1), start, log1, failure(paid),
            );
        }
        if let Some(found) = eid {
            let ghost tail = seq![Action::Trace(ElementId::Edge(found))];
            proof {
                assert(unit + tail =~= seq![
                    Action::Charge(1),
                    Action::Trace(ElementId::Edge(found)),
                ]);
                lemma_prefix_concat(unit, tail);
            }
            if let Err(error) = paid {
                proof {
                    lemma_lane_failed(
                        origin, *self, corpus0, *corpus, unit, unit + tail, start, log1,
                        Some(error),
                    );
                }
                return Err(error);
            }
            let traced = self.trace(corpus, ElementId::Edge(found), session);
            proof {
                lemma_lane_act(
                    txn1, *self, corpus1, *corpus, Action::Trace(ElementId::Edge(found)), log1,
                    session.log(), failure(traced),
                );
                lemma_lane_then(
                    origin, txn1, *self, corpus0, corpus1, *corpus, unit, tail, start, log1,
                    session.log(), failure(traced),
                );
                if traced is Ok {
                    lemma_lane_ok(
                        origin, *self, corpus0, *corpus, unit + tail, start, session.log(),
                    );
                }
            }
            return traced;
        }
        proof {
            if paid is Ok {
                lemma_lane_ok(origin, *self, corpus0, *corpus, unit, start, session.log());
            }
        }
        paid
    }
}

impl WriteTxn {
    /// Retire one edge of a cascade.
    fn retire<H: Host>(&mut self, corpus: &mut Corpus, eid: EId, session: &mut Session<H>) -> (done:
        Result<(), BeaconError>)
        requires
            old(self).wf(),
            old(corpus).wf(),
            old(corpus).control.interrupted is None,
        ensures
            final(session).metered() == old(session).metered(),
            done is Ok ==> final(corpus).control.interrupted is None,
            done is Ok ==> final(corpus).changes@ == old(corpus).changes@.insert(eid.0, None),
            done is Ok ==> final(corpus).emitted@ == old(corpus).emitted@,
            lane(
                *old(self),
                *final(self),
                *old(corpus),
                *final(corpus),
                seq![Action::Trace(ElementId::Edge(eid)), Action::Replace(eid, None)],
                old(session).log(),
                final(session).log(),
                failure(done),
            ),
    {
        let ghost origin = *self;
        let ghost corpus0 = *corpus;
        let ghost start = session.log();
        let ghost first = seq![Action::Trace(ElementId::Edge(eid))];
        let ghost second = seq![Action::Replace(eid, None)];
        let ghost full = seq![Action::Trace(ElementId::Edge(eid)), Action::Replace(eid, None)];
        proof {
            assert(first + second =~= full);
            lemma_prefix_concat(first, second);
        }
        let traced = self.trace(corpus, ElementId::Edge(eid), session);
        let ghost txn1 = *self;
        let ghost corpus1 = *corpus;
        let ghost log1 = session.log();
        proof {
            lemma_lane_act(
                origin, txn1, corpus0, corpus1, Action::Trace(ElementId::Edge(eid)), start, log1,
                failure(traced),
            );
        }
        if let Err(error) = traced {
            proof {
                lemma_lane_failed(
                    origin, *self, corpus0, *corpus, first, full, start, log1, Some(error),
                );
            }
            return Err(error);
        }
        let noted = self.replace(corpus, eid, None, session);
        proof {
            lemma_lane_act(
                txn1, *self, corpus1, *corpus, Action::Replace(eid, None), log1, session.log(),
                failure(noted),
            );
            lemma_lane_then(
                origin, txn1, *self, corpus0, corpus1, *corpus, first, second, start, log1,
                session.log(), failure(noted),
            );
            if noted is Ok {
                lemma_lane_ok(origin, *self, corpus0, *corpus, full, start, session.log());
            }
        }
        noted
    }

    /// Retire the edges of a cascade.
    fn retire_all<H: Host>(
        &mut self,
        corpus: &mut Corpus,
        retired: &Vec<EId>,
        session: &mut Session<H>,
    ) -> (done: Result<(), BeaconError>)
        requires
            old(self).wf(),
            old(corpus).wf(),
            old(corpus).control.interrupted is None,
        ensures
            final(session).metered() == old(session).metered(),
            done is Ok ==> final(corpus).control.interrupted is None,
            done is Ok ==> final(corpus).changes@ == cascaded(
                old(corpus).changes@,
                retired@,
                retired@.len() as int,
            ),
            done is Ok ==> final(corpus).emitted@ == old(corpus).emitted@,
            lane(
                *old(self),
                *final(self),
                *old(corpus),
                *final(corpus),
                cascade_script(retired@, retired@.len() as int),
                old(session).log(),
                final(session).log(),
                failure(done),
            ),
    {
        let ghost origin = *self;
        let ghost corpus0 = *corpus;
        let ghost start = session.log();
        let ghost full = cascade_script(retired@, retired@.len() as int);
        proof {
            lemma_lane_nothing(*self, *corpus, start);
        }
        let mut i: usize = 0;
        while i < retired.len()
            invariant
                i <= retired.len(),
                origin == *old(self),
                corpus0 == *old(corpus),
                start == old(session).log(),
                full == cascade_script(retired@, retired@.len() as int),
                session.metered() == old(session).metered(),
                corpus.control.interrupted is None,
                corpus.changes@ == cascaded(corpus0.changes@, retired@, i as int),
                corpus.emitted@ == corpus0.emitted@,
                lane(
                    origin,
                    *self,
                    corpus0,
                    *corpus,
                    cascade_script(retired@, i as int),
                    start,
                    session.log(),
                    None,
                ),
            decreases retired.len() - i,
        {
            let ghost head = cascade_script(retired@, i as int);
            let ghost txn1 = *self;
            let ghost corpus1 = *corpus;
            let ghost log1 = session.log();
            let eid = retired[i];
            let ghost part = seq![Action::Trace(ElementId::Edge(eid)), Action::Replace(eid, None)];
            let done = self.retire(corpus, eid, session);
            proof {
                lemma_lane_then(
                    origin, txn1, *self, corpus0, corpus1, *corpus, head, part, start, log1,
                    session.log(), failure(done),
                );
                assert(head + part == cascade_script(retired@, i + 1));
                if done is Err {
                    lemma_cascade_prefix(retired@, i + 1, retired@.len() as int);
                    lemma_lane_failed(
                        origin, *self, corpus0, *corpus, head + part, full, start, session.log(),
                        failure(done),
                    );
                }
            }
            if let Err(error) = done {
                return Err(error);
            }
            i += 1;
        }
        Ok(())
    }

    /// Read one prepared row into the changes.
    fn trace_row<H: Host>(
        &mut self,
        corpus: &mut Corpus,
        row: &DeltaRow,
        session: &mut Session<H>,
    ) -> (done: Result<(), BeaconError>)
        requires
            old(self).wf(),
            old(corpus).wf(),
            old(corpus).control.interrupted is None,
        ensures
            final(session).metered() == old(session).metered(),
            done is Ok ==> final(corpus).control.interrupted is None,
            done is Ok ==> final(corpus).changes@ == row_changes(old(corpus).changes@, *row),
            done is Ok ==> final(corpus).emitted@ == old(corpus).emitted@,
            lane(
                *old(self),
                *final(self),
                *old(corpus),
                *final(corpus),
                edge_row_part(*row),
                old(session).log(),
                final(session).log(),
                failure(done),
            ),
    {
        let ghost origin = *self;
        let ghost corpus0 = *corpus;
        let ghost start = session.log();
        let ghost unit = seq![Action::Charge(1)];
        let ghost full = edge_row_part(*row);
        let ghost rest = full.skip(1);
        proof {
            assert(full[0] == Action::Charge(1));
            assert(unit + rest =~= full);
            lemma_prefix_concat(unit, rest);
        }
        let paid = self.pay_search(corpus, 1, session);
        let ghost txn1 = *self;
        let ghost corpus1 = *corpus;
        let ghost log1 = session.log();
        proof {
            lemma_lane_act(
                origin, txn1, corpus0, corpus1, Action::Charge(1), start, log1, failure(paid),
            );
        }
        if let Err(error) = paid {
            proof {
                lemma_lane_failed(
                    origin, *self, corpus0, *corpus, unit, full, start, log1, Some(error),
                );
            }
            return Err(error);
        }
        let done = match row {
            DeltaRow::CreateEdge { eid, src, relation, dst, .. } => {
                let incidence = Incidence { src: *src, relation: *relation, dst: *dst };
                proof {
                    assert(rest =~= seq![
                        Action::Trace(ElementId::Edge(*eid)),
                        Action::Trace(ElementId::Vertex(*src)),
                        Action::Replace(*eid, Some(incidence)),
                    ]);
                }
                self.trace_creation(corpus, *eid, incidence, session)
            },
            DeltaRow::DeleteEdge { eid } => {
                proof {
                    assert(rest =~= seq![
                        Action::Trace(ElementId::Edge(*eid)),
                        Action::Replace(*eid, None),
                    ]);
                }
                self.retire(corpus, *eid, session)
            },
            DeltaRow::DeleteVertex { vid, sorted_retired_incident_edges } => {
                proof {
                    let cascade = cascade_script(
                        sorted_retired_incident_edges@,
                        sorted_retired_incident_edges@.len() as int,
                    );
                    assert(rest =~= seq![Action::Trace(ElementId::Vertex(*vid))] + cascade);
                }
                self.trace_deletion(corpus, *vid, sorted_retired_incident_edges, session)
            },
            DeltaRow::Property { elem: ElementId::Edge(eid), .. } => {
                let traced = self.trace(corpus, ElementId::Edge(*eid), session);
                proof {
                    assert(rest =~= seq![Action::Trace(ElementId::Edge(*eid))]);
                    lemma_lane_act(
                        txn1, *self, corpus1, *corpus, Action::Trace(ElementId::Edge(*eid)), log1,
                        session.log(), failure(traced),
                    );
                    if traced is Ok {
                        lemma_lane_ok(
                            txn1, *self, corpus1, *corpus, rest, log1, session.log(),
                        );
                    }
                }
                traced
            },
            _ => {
                proof {
                    assert(rest =~= Seq::<Action>::empty());
                    lemma_lane_nothing(*self, *corpus, log1);
                }
                Ok(())
            },
        };
        proof {
            lemma_lane_then(
                origin, txn1, *self, corpus0, corpus1, *corpus, unit, rest, start, log1,
                session.log(), failure(done),
            );
        }
        done
    }

    /// Note a created edge and what it depends on.
    fn trace_creation<H: Host>(
        &mut self,
        corpus: &mut Corpus,
        eid: EId,
        incidence: Incidence,
        session: &mut Session<H>,
    ) -> (done: Result<(), BeaconError>)
        requires
            old(self).wf(),
            old(corpus).wf(),
            old(corpus).control.interrupted is None,
        ensures
            final(session).metered() == old(session).metered(),
            done is Ok ==> final(corpus).control.interrupted is None,
            done is Ok ==> final(corpus).changes@ == old(corpus).changes@.insert(
                eid.0,
                Some(incidence),
            ),
            done is Ok ==> final(corpus).emitted@ == old(corpus).emitted@,
            lane(
                *old(self),
                *final(self),
                *old(corpus),
                *final(corpus),
                seq![
                    Action::Trace(ElementId::Edge(eid)),
                    Action::Trace(ElementId::Vertex(incidence.src)),
                    Action::Replace(eid, Some(incidence)),
                ],
                old(session).log(),
                final(session).log(),
                failure(done),
            ),
    {
        let ghost origin = *self;
        let ghost corpus0 = *corpus;
        let ghost start = session.log();
        let ghost one = Action::Trace(ElementId::Edge(eid));
        let ghost two = Action::Trace(ElementId::Vertex(incidence.src));
        let ghost three = Action::Replace(eid, Some(incidence));
        let ghost full = seq![one, two, three];
        proof {
            assert(seq![one] + seq![two] + seq![three] =~= full);
            lemma_prefix_concat(seq![one] + seq![two], seq![three]);
            lemma_prefix_concat(seq![one], seq![two]);
            lemma_prefix_transitive(seq![one], seq![one] + seq![two], full);
        }
        let traced = self.trace(corpus, ElementId::Edge(eid), session);
        let ghost txn1 = *self;
        let ghost corpus1 = *corpus;
        let ghost log1 = session.log();
        proof {
            lemma_lane_act(origin, txn1, corpus0, corpus1, one, start, log1, failure(traced));
        }
        if let Err(error) = traced {
            proof {
                lemma_lane_failed(
                    origin, *self, corpus0, *corpus, seq![one], full, start, log1, Some(error),
                );
            }
            return Err(error);
        }
        let traced = self.trace(corpus, ElementId::Vertex(incidence.src), session);
        let ghost txn2 = *self;
        let ghost corpus2 = *corpus;
        let ghost log2 = session.log();
        proof {
            lemma_lane_act(txn1, txn2, corpus1, corpus2, two, log1, log2, failure(traced));
            lemma_lane_then(
                origin, txn1, txn2, corpus0, corpus1, corpus2, seq![one], seq![two], start, log1,
                log2, failure(traced),
            );
        }
        if let Err(error) = traced {
            proof {
                lemma_lane_failed(
                    origin, *self, corpus0, *corpus, seq![one] + seq![two], full, start, log2,
                    Some(error),
                );
            }
            return Err(error);
        }
        let noted = self.replace(corpus, eid, Some(incidence), session);
        proof {
            lemma_lane_act(
                txn2, *self, corpus2, *corpus, three, log2, session.log(), failure(noted),
            );
            lemma_lane_then(
                origin, txn2, *self, corpus0, corpus2, *corpus, seq![one] + seq![two],
                seq![three], start, log2, session.log(), failure(noted),
            );
            if noted is Ok {
                lemma_lane_ok(origin, *self, corpus0, *corpus, full, start, session.log());
            }
        }
        noted
    }

    /// Note a deleted vertex with its cascade.
    fn trace_deletion<H: Host>(
        &mut self,
        corpus: &mut Corpus,
        vid: VId,
        retired: &Vec<EId>,
        session: &mut Session<H>,
    ) -> (done: Result<(), BeaconError>)
        requires
            old(self).wf(),
            old(corpus).wf(),
            old(corpus).control.interrupted is None,
        ensures
            final(session).metered() == old(session).metered(),
            done is Ok ==> final(corpus).control.interrupted is None,
            done is Ok ==> final(corpus).changes@ == cascaded(
                old(corpus).changes@,
                retired@,
                retired@.len() as int,
            ),
            done is Ok ==> final(corpus).emitted@ == old(corpus).emitted@,
            lane(
                *old(self),
                *final(self),
                *old(corpus),
                *final(corpus),
                seq![Action::Trace(ElementId::Vertex(vid))] + cascade_script(
                    retired@,
                    retired@.len() as int,
                ),
                old(session).log(),
                final(session).log(),
                failure(done),
            ),
    {
        let ghost origin = *self;
        let ghost corpus0 = *corpus;
        let ghost start = session.log();
        let ghost first = seq![Action::Trace(ElementId::Vertex(vid))];
        let ghost second = cascade_script(retired@, retired@.len() as int);
        proof {
            lemma_prefix_concat(first, second);
        }
        let traced = self.trace(corpus, ElementId::Vertex(vid), session);
        let ghost txn1 = *self;
        let ghost corpus1 = *corpus;
        let ghost log1 = session.log();
        proof {
            lemma_lane_act(
                origin, txn1, corpus0, corpus1, Action::Trace(ElementId::Vertex(vid)), start,
                log1, failure(traced),
            );
        }
        if let Err(error) = traced {
            proof {
                lemma_lane_failed(
                    origin, *self, corpus0, *corpus, first, first + second, start, log1,
                    Some(error),
                );
            }
            return Err(error);
        }
        let done = self.retire_all(corpus, retired, session);
        proof {
            lemma_lane_then(
                origin, txn1, *self, corpus0, corpus1, *corpus, first, second, start, log1,
                session.log(), failure(done),
            );
        }
        done
    }
}

/// A coordinate changes the schema.
pub open spec fn has_schema(rows: Seq<DeltaRow>) -> bool {
    exists|i: int| 0 <= i < rows.len() && #[trigger] rows[i] is Schema
}

fn changes_schema(rows: &Vec<DeltaRow>) -> (changes: bool)
    ensures
        changes == has_schema(rows@),
{
    let mut i: usize = 0;
    while i < rows.len()
        invariant
            i <= rows.len(),
            forall|k: int| 0 <= k < i ==> !(#[trigger] rows@[k] is Schema),
        decreases rows.len() - i,
    {
        if let DeltaRow::Schema { .. } = rows[i] {
            assert(rows@[i as int] is Schema);
            return true;
        }
        i += 1;
    }
    false
}

pub open spec fn edge_rows_script(rows: Seq<DeltaRow>, n: int) -> Seq<Action>
    decreases n,
{
    if n <= 0 {
        Seq::empty()
    } else {
        edge_rows_script(rows, n - 1) + edge_row_part(rows[n - 1])
    }
}

proof fn lemma_edge_rows_prefix(rows: Seq<DeltaRow>, n: int, m: int)
    requires
        0 <= n <= m,
    ensures
        edge_rows_script(rows, n).is_prefix_of(edge_rows_script(rows, m)),
    decreases m - n,
{
    if n < m {
        lemma_edge_rows_prefix(rows, n, m - 1);
        lemma_prefix_concat(edge_rows_script(rows, m - 1), edge_row_part(rows[m - 1]));
        lemma_prefix_transitive(
            edge_rows_script(rows, n),
            edge_rows_script(rows, m - 1),
            edge_rows_script(rows, m),
        );
    }
}

/// What one coordinate costs. One that changes the schema is refused.
pub open spec fn coordinate_part(rows: Seq<DeltaRow>) -> Seq<Action> {
    coordinate_head(rows) + edge_rows_script(rows, rows.len() as int)
}

pub open spec fn coordinate_head(rows: Seq<DeltaRow>) -> Seq<Action> {
    if has_schema(rows) {
        seq![
            Action::Charge(1),
            Action::Refuse(BeaconError::InvalidQuery(InvalidQuery::SchemaChanged)),
        ]
    } else {
        seq![Action::Charge(1)]
    }
}

pub open spec fn edge_delta_script(coordinates: Seq<Coordinate>, n: int) -> Seq<Action>
    decreases n,
{
    if n <= 0 {
        Seq::empty()
    } else {
        edge_delta_script(coordinates, n - 1) + coordinate_part(coordinates[n - 1].rows@)
    }
}

proof fn lemma_edge_delta_prefix(coordinates: Seq<Coordinate>, n: int, m: int)
    requires
        0 <= n <= m,
    ensures
        edge_delta_script(coordinates, n).is_prefix_of(edge_delta_script(coordinates, m)),
    decreases m - n,
{
    if n < m {
        lemma_edge_delta_prefix(coordinates, n, m - 1);
        lemma_prefix_concat(
            edge_delta_script(coordinates, m - 1),
            coordinate_part(coordinates[m - 1].rows@),
        );
        lemma_prefix_transitive(
            edge_delta_script(coordinates, n),
            edge_delta_script(coordinates, m - 1),
            edge_delta_script(coordinates, m),
        );
    }
}

impl WriteTxn {
    /// Open one coordinate.
    fn trace_coordinate<H: Host>(
        &mut self,
        corpus: &mut Corpus,
        coordinate: &Coordinate,
        session: &mut Session<H>,
    ) -> (done: Result<(), BeaconError>)
        requires
            old(self).wf(),
            old(corpus).wf(),
            old(corpus).control.interrupted is None,
        ensures
            final(session).metered() == old(session).metered(),
            final(corpus).changes == old(corpus).changes,
            final(corpus).emitted == old(corpus).emitted,
            done is Ok ==> final(corpus).control.interrupted is None,
            lane(
                *old(self),
                *final(self),
                *old(corpus),
                *final(corpus),
                coordinate_head(coordinate.rows@),
                old(session).log(),
                final(session).log(),
                failure(done),
            ),
    {
        let ghost origin = *self;
        let ghost corpus0 = *corpus;
        let ghost start = session.log();
        let ghost unit = seq![Action::Charge(1)];
        let error = BeaconError::InvalidQuery(InvalidQuery::SchemaChanged);
        let ghost refusal = seq![Action::Refuse(error)];
        let ghost full = coordinate_head(coordinate.rows@);
        let schema = changes_schema(&coordinate.rows);
        proof {
            if schema {
                assert(unit + refusal =~= full);
                lemma_prefix_concat(unit, refusal);
            } else {
                assert(unit =~= full);
                assert(unit.is_prefix_of(full)) by {
                    assert(unit =~= full.subrange(0, 1));
                }
            }
        }
        let paid = self.pay_search(corpus, 1, session);
        let ghost txn1 = *self;
        let ghost corpus1 = *corpus;
        let ghost log1 = session.log();
        proof {
            lemma_lane_act(
                origin, txn1, corpus0, corpus1, Action::Charge(1), start, log1, failure(paid),
            );
        }
        if let Err(error) = paid {
            proof {
                lemma_lane_failed(
                    origin, *self, corpus0, *corpus, unit, full, start, log1, Some(error),
                );
            }
            return Err(error);
        }
        if schema {
            proof {
                lemma_obeys_stop(log1, cancelled(), error);
                crate::session::lemma_ran_nothing(log1);
                lemma_lane_act(
                    txn1, txn1, corpus1, corpus1, Action::Refuse(error), log1, log1, Some(error),
                );
                lemma_lane_then(
                    origin, txn1, txn1, corpus0, corpus1, corpus1, unit, refusal, start, log1,
                    log1, Some(error),
                );
            }
            return Err(error);
        }
        proof {
            lemma_lane_ok(origin, *self, corpus0, *corpus, unit, start, log1);
        }
        Ok(())
    }

    /// Read the rows of one coordinate into the changes.
    fn trace_rows<H: Host>(
        &mut self,
        corpus: &mut Corpus,
        rows: &Vec<DeltaRow>,
        session: &mut Session<H>,
    ) -> (done: Result<(), BeaconError>)
        requires
            old(self).wf(),
            old(corpus).wf(),
            old(corpus).control.interrupted is None,
        ensures
            final(session).metered() == old(session).metered(),
            done is Ok ==> final(corpus).control.interrupted is None,
            done is Ok ==> final(corpus).changes@ == changes_after(old(corpus).changes@, rows@),
            done is Ok ==> final(corpus).emitted@ == old(corpus).emitted@,
            lane(
                *old(self),
                *final(self),
                *old(corpus),
                *final(corpus),
                edge_rows_script(rows@, rows@.len() as int),
                old(session).log(),
                final(session).log(),
                failure(done),
            ),
    {
        let ghost origin = *self;
        let ghost corpus0 = *corpus;
        let ghost start = session.log();
        let ghost full = edge_rows_script(rows@, rows@.len() as int);
        proof {
            lemma_lane_nothing(*self, *corpus, start);
            assert(rows@.take(0) =~= Seq::<DeltaRow>::empty());
        }
        let mut r: usize = 0;
        while r < rows.len()
            invariant
                r <= rows.len(),
                origin == *old(self),
                corpus0 == *old(corpus),
                start == old(session).log(),
                full == edge_rows_script(rows@, rows@.len() as int),
                session.metered() == old(session).metered(),
                corpus.control.interrupted is None,
                corpus.emitted@ == corpus0.emitted@,
                corpus.changes@ == changes_after(corpus0.changes@, rows@.take(r as int)),
                lane(
                    origin,
                    *self,
                    corpus0,
                    *corpus,
                    edge_rows_script(rows@, r as int),
                    start,
                    session.log(),
                    None,
                ),
            decreases rows.len() - r,
        {
            let ghost head = edge_rows_script(rows@, r as int);
            let ghost part = edge_row_part(rows@[r as int]);
            let ghost txn1 = *self;
            let ghost corpus1 = *corpus;
            let ghost log1 = session.log();
            let step = self.trace_row(corpus, &rows[r], session);
            proof {
                lemma_edge_rows_prefix(rows@, r + 1, rows@.len() as int);
                lemma_lane_then(
                    origin, txn1, *self, corpus0, corpus1, *corpus, head, part, start, log1,
                    session.log(), failure(step),
                );
                if step is Err {
                    lemma_lane_failed(
                        origin, *self, corpus0, *corpus, head + part, full, start, session.log(),
                        failure(step),
                    );
                } else {
                    assert(rows@.take(r + 1).drop_last() =~= rows@.take(r as int));
                }
            }
            if let Err(error) = step {
                return Err(error);
            }
            r += 1;
        }
        proof {
            assert(rows@.take(r as int) =~= rows@);
        }
        Ok(())
    }

    /// Read the prepared rows into the changes.
    fn trace_template<H: Host>(
        &mut self,
        corpus: &mut Corpus,
        template: &Template,
        session: &mut Session<H>,
    ) -> (done: Result<(), BeaconError>)
        requires
            old(self).wf(),
            old(corpus).wf(),
            old(corpus).control.interrupted is None,
        ensures
            final(session).metered() == old(session).metered(),
            done is Ok ==> final(corpus).control.interrupted is None,
            done is Ok ==> final(corpus).changes@ == changes_after(
                old(corpus).changes@,
                template.rows(),
            ),
            done is Ok ==> final(corpus).emitted@ == old(corpus).emitted@,
            lane(
                *old(self),
                *final(self),
                *old(corpus),
                *final(corpus),
                edge_delta_script(template.coordinates@, template.coordinates@.len() as int),
                old(session).log(),
                final(session).log(),
                failure(done),
            ),
    {
        let ghost origin = *self;
        let ghost corpus0 = *corpus;
        let ghost start = session.log();
        let ghost coordinates = template.coordinates@;
        let ghost full = edge_delta_script(coordinates, coordinates.len() as int);
        proof {
            lemma_lane_nothing(*self, *corpus, start);
        }
        let mut c: usize = 0;
        while c < template.coordinates.len()
            invariant
                c <= template.coordinates.len(),
                coordinates == template.coordinates@,
                origin == *old(self),
                corpus0 == *old(corpus),
                start == old(session).log(),
                full == edge_delta_script(coordinates, coordinates.len() as int),
                session.metered() == old(session).metered(),
                corpus.control.interrupted is None,
                corpus.emitted@ == corpus0.emitted@,
                corpus.changes@ == changes_after(
                    corpus0.changes@,
                    rows_upto(coordinates, c as int),
                ),
                lane(
                    origin,
                    *self,
                    corpus0,
                    *corpus,
                    edge_delta_script(coordinates, c as int),
                    start,
                    session.log(),
                    None,
                ),
            decreases template.coordinates.len() - c,
        {
            let coordinate = &template.coordinates[c];
            let ghost rows = coordinate.rows@;
            let ghost before = edge_delta_script(coordinates, c as int);
            let ghost opening = coordinate_head(rows);
            let ghost body = edge_rows_script(rows, rows.len() as int);
            let ghost txn1 = *self;
            let ghost corpus1 = *corpus;
            let ghost log1 = session.log();
            proof {
                lemma_edge_delta_prefix(coordinates, c + 1, coordinates.len() as int);
                assert(edge_delta_script(coordinates, c + 1) == before + (opening + body));
                assert(before + opening + body =~= before + (opening + body));
                lemma_prefix_concat(before + opening, body);
                lemma_prefix_transitive(before + opening, before + opening + body, full);
                lemma_rows_bounds(coordinates, c as int);
            }
            let done = self.trace_coordinate(corpus, coordinate, session);
            proof {
                lemma_lane_then(
                    origin, txn1, *self, corpus0, corpus1, *corpus, before, opening, start, log1,
                    session.log(), failure(done),
                );
                if done is Err {
                    lemma_lane_failed(
                        origin, *self, corpus0, *corpus, before + opening, full, start,
                        session.log(), failure(done),
                    );
                }
                assert(before + opening + edge_rows_script(rows, 0) =~= before + opening);
            }
            if let Err(error) = done {
                return Err(error);
            }
            let ghost txn2 = *self;
            let ghost corpus2 = *corpus;
            let ghost log2 = session.log();
            let ghost seen = rows_upto(coordinates, c as int);
            let step = self.trace_rows(corpus, &coordinate.rows, session);
            proof {
                lemma_lane_then(
                    origin, txn2, *self, corpus0, corpus2, *corpus, before + opening, body, start,
                    log2, session.log(), failure(step),
                );
                lemma_changes_concat(corpus0.changes@, seen, rows);
                if step is Err {
                    lemma_lane_failed(
                        origin, *self, corpus0, *corpus, before + opening + body, full, start,
                        session.log(), failure(step),
                    );
                }
            }
            if let Err(error) = step {
                return Err(error);
            }
            c += 1;
        }
        Ok(())
    }
}

/// The changes after a run of rows.
pub open spec fn changes_after(
    changes: Map<u128, Option<Incidence>>,
    rows: Seq<DeltaRow>,
) -> Map<u128, Option<Incidence>>
    decreases rows.len(),
{
    if rows.len() == 0 {
        changes
    } else {
        row_changes(changes_after(changes, rows.drop_last()), rows.last())
    }
}

proof fn lemma_changes_concat(
    changes: Map<u128, Option<Incidence>>,
    first: Seq<DeltaRow>,
    second: Seq<DeltaRow>,
)
    ensures
        changes_after(changes, first + second) == changes_after(
            changes_after(changes, first),
            second,
        ),
    decreases second.len(),
{
    if second.len() == 0 {
        assert(first + second =~= first);
    } else {
        lemma_changes_concat(changes, first, second.drop_last());
        assert((first + second).drop_last() =~= first + second.drop_last());
    }
}

/// Over whatever committed edge, the changes say what the rows leave of it.
proof fn lemma_changes_noted(eid: EId, rows: Seq<DeltaRow>, at: CommitSeq)
    ensures
        noted(changes_after(Map::empty(), rows), eid, rows, at),
    decreases rows.len(),
{
    if rows.len() > 0 {
        lemma_changes_noted(eid, rows.drop_last(), at);
        lemma_noted_push(
            changes_after(Map::empty(), rows.drop_last()),
            eid,
            rows.drop_last(),
            rows.last(),
            at,
        );
        assert(rows.drop_last().push(rows.last()) =~= rows);
    }
}

/// The emitted edges are exactly those among `done` that the changes leave and
/// the request admits, each once.
pub open spec fn emits(
    emitted: Seq<(EId, Incidence)>,
    changes: Map<u128, Option<Incidence>>,
    edges: IdMap<EdgeRecord>,
    done: Set<u128>,
    relation: Option<RelationId>,
    members: Set<u128>,
) -> bool {
    &&& forall|k: int|
        0 <= k < emitted.len() ==> {
            let found = #[trigger] emitted[k];
            &&& done.contains(found.0.0)
            &&& settled(changes, found.0, incidence_of(edge_in(edges, found.0))) == Some(found.1)
            &&& admitted_edge(found.1, relation, members)
        }
    &&& forall|i: int, j: int|
        0 <= i < j < emitted.len() ==> (#[trigger] emitted[i]).0 != (#[trigger] emitted[j]).0
    &&& forall|eid: EId|
        #![trigger done.contains(eid.0)]
        done.contains(eid.0) && (settled(changes, eid, incidence_of(edge_in(edges, eid))) matches
            Some(incidence) && admitted_edge(incidence, relation, members)) ==> exists|k: int|
            0 <= k < emitted.len() && (#[trigger] emitted[k]).0 == eid
}

proof fn lemma_emits_next(
    emitted: Seq<(EId, Incidence)>,
    changes: Map<u128, Option<Incidence>>,
    edges: IdMap<EdgeRecord>,
    done: Set<u128>,
    relation: Option<RelationId>,
    members: Set<u128>,
    eid: EId,
    after: Seq<(EId, Incidence)>,
)
    requires
        emits(emitted, changes, edges, done, relation, members),
        !done.contains(eid.0),
        after == (match settled(changes, eid, incidence_of(edge_in(edges, eid))) {
            Some(incidence) => if admitted_edge(incidence, relation, members) {
                emitted.push((eid, incidence))
            } else {
                emitted
            },
            None => emitted,
        }),
    ensures
        emits(after, changes, edges, done.insert(eid.0), relation, members),
{
    let next = done.insert(eid.0);
    assert forall|k: int| 0 <= k < after.len() implies {
        let found = #[trigger] after[k];
        &&& next.contains(found.0.0)
        &&& settled(changes, found.0, incidence_of(edge_in(edges, found.0))) == Some(found.1)
        &&& admitted_edge(found.1, relation, members)
    } by {
        if k < emitted.len() {
            assert(after[k] == emitted[k]);
        }
    }
    assert forall|i: int, j: int| 0 <= i < j < after.len() implies (#[trigger] after[i]).0 != (
    #[trigger] after[j]).0 by {
        assert(after[i] == emitted[i]);
        if j < emitted.len() {
            assert(after[j] == emitted[j]);
        } else {
            assert(done.contains(emitted[i].0.0));
        }
    }
    assert forall|other: EId|
        #![trigger next.contains(other.0)]
        next.contains(other.0) && (settled(
            changes,
            other,
            incidence_of(edge_in(edges, other)),
        ) matches Some(incidence) && admitted_edge(incidence, relation, members)) implies exists|
        k: int,
    | 0 <= k < after.len() && (#[trigger] after[k]).0 == other by {
        if other.0 == eid.0 {
            assert(other == eid);
            assert(after[emitted.len() as int].0 == eid);
        } else {
            assert(done.contains(other.0));
            let k = choose|k: int| 0 <= k < emitted.len() && (#[trigger] emitted[k]).0 == other;
            assert(after[k] == emitted[k]);
        }
    }
}

/// The endpoints and the relation of a record.
pub open spec fn record_incidence(record: EdgeRecord) -> Incidence {
    Incidence {
        src: record.entry.src,
        relation: record.entry.relation,
        dst: record.entry.dst,
    }
}

/// What one committed edge costs.
pub open spec fn edge_winner_part(
    record: EdgeRecord,
    relation: Option<RelationId>,
    members: Set<u128>,
) -> Seq<Action> {
    seq![
        Action::Trace(ElementId::Edge(record.entry.eid)),
        Action::Trace(ElementId::Vertex(record.entry.src)),
        Action::Settle(
            record.entry.eid,
            Some(record_incidence(record)),
            relation,
            members,
        ),
    ]
}

pub open spec fn edge_winners_script(
    records: Seq<EdgeRecord>,
    relation: Option<RelationId>,
    members: Set<u128>,
    n: int,
) -> Seq<Action>
    decreases n,
{
    if n <= 0 {
        Seq::empty()
    } else {
        edge_winners_script(records, relation, members, n - 1) + edge_winner_part(
            records[n - 1],
            relation,
            members,
        )
    }
}

proof fn lemma_edge_winners_prefix(
    records: Seq<EdgeRecord>,
    relation: Option<RelationId>,
    members: Set<u128>,
    n: int,
    m: int,
)
    requires
        0 <= n <= m,
    ensures
        edge_winners_script(records, relation, members, n).is_prefix_of(
            edge_winners_script(records, relation, members, m),
        ),
    decreases m - n,
{
    if n < m {
        lemma_edge_winners_prefix(records, relation, members, n, m - 1);
        lemma_prefix_concat(
            edge_winners_script(records, relation, members, m - 1),
            edge_winner_part(records[m - 1], relation, members),
        );
        lemma_prefix_transitive(
            edge_winners_script(records, relation, members, n),
            edge_winners_script(records, relation, members, m - 1),
            edge_winners_script(records, relation, members, m),
        );
    }
}

/// What the edges that only the prepared rows know cost.
pub open spec fn leftovers_script(
    keys: Seq<u128>,
    relation: Option<RelationId>,
    members: Set<u128>,
    n: int,
) -> Seq<Action>
    decreases n,
{
    if n <= 0 {
        Seq::empty()
    } else {
        leftovers_script(keys, relation, members, n - 1) + seq![
            Action::Charge(1),
            Action::Settle(EId(keys[n - 1]), None, relation, members),
        ]
    }
}

proof fn lemma_leftovers_prefix(
    keys: Seq<u128>,
    relation: Option<RelationId>,
    members: Set<u128>,
    n: int,
    m: int,
)
    requires
        0 <= n <= m,
    ensures
        leftovers_script(keys, relation, members, n).is_prefix_of(
            leftovers_script(keys, relation, members, m),
        ),
    decreases m - n,
{
    if n < m {
        lemma_leftovers_prefix(keys, relation, members, n, m - 1);
        lemma_prefix_concat(
            leftovers_script(keys, relation, members, m - 1),
            seq![
                Action::Charge(1),
                Action::Settle(EId(keys[m - 1]), None, relation, members),
            ],
        );
        lemma_prefix_transitive(
            leftovers_script(keys, relation, members, n),
            leftovers_script(keys, relation, members, m - 1),
            leftovers_script(keys, relation, members, m),
        );
    }
}

/// The changes that are not settled yet.
pub open spec fn unsettled(changes: Map<u128, Option<Incidence>>, done: Set<u128>) -> Map<
    u128,
    Option<Incidence>,
> {
    changes.remove_keys(done)
}

impl WriteTxn {
    /// Settle one committed edge.
    fn settle_winner<H: Host>(
        &mut self,
        corpus: &mut Corpus,
        record: &EdgeRecord,
        relation: Option<RelationId>,
        members: &IdSet,
        session: &mut Session<H>,
    ) -> (done: Result<(), BeaconError>)
        requires
            old(self).wf(),
            old(corpus).wf(),
            old(corpus).control.interrupted is None,
            members.wf(),
        ensures
            final(session).metered() == old(session).metered(),
            done is Ok ==> final(corpus).control.interrupted is None,
            done is Ok ==> final(corpus).changes@ == old(corpus).changes@.remove(
                record.entry.eid.0,
            ),
            done is Ok ==> final(corpus).emitted@ == emitted_next(
                old(corpus).emitted@,
                record.entry.eid,
                settled(
                    old(corpus).changes@,
                    record.entry.eid,
                    Some(record_incidence(*record)),
                ),
                relation,
                members@,
            ),
            lane(
                *old(self),
                *final(self),
                *old(corpus),
                *final(corpus),
                edge_winner_part(*record, relation, members@),
                old(session).log(),
                final(session).log(),
                failure(done),
            ),
    {
        let ghost origin = *self;
        let ghost corpus0 = *corpus;
        let ghost start = session.log();
        let eid = record.entry.eid;
        let src = record.entry.src;
        let native = Some(
            Incidence { src, relation: record.entry.relation, dst: record.entry.dst },
        );
        let ghost one = Action::Trace(ElementId::Edge(eid));
        let ghost two = Action::Trace(ElementId::Vertex(src));
        let ghost three = Action::Settle(eid, native, relation, members@);
        let ghost full = edge_winner_part(*record, relation, members@);
        proof {
            assert(seq![one] + seq![two] + seq![three] =~= full);
            lemma_prefix_concat(seq![one] + seq![two], seq![three]);
            lemma_prefix_concat(seq![one], seq![two]);
            lemma_prefix_transitive(seq![one], seq![one] + seq![two], full);
        }
        let traced = self.trace(corpus, ElementId::Edge(eid), session);
        let ghost txn1 = *self;
        let ghost corpus1 = *corpus;
        let ghost log1 = session.log();
        proof {
            lemma_lane_act(origin, txn1, corpus0, corpus1, one, start, log1, failure(traced));
        }
        if let Err(error) = traced {
            proof {
                lemma_lane_failed(
                    origin, *self, corpus0, *corpus, seq![one], full, start, log1, Some(error),
                );
            }
            return Err(error);
        }
        let traced = self.trace(corpus, ElementId::Vertex(src), session);
        let ghost txn2 = *self;
        let ghost corpus2 = *corpus;
        let ghost log2 = session.log();
        proof {
            lemma_lane_act(txn1, txn2, corpus1, corpus2, two, log1, log2, failure(traced));
            lemma_lane_then(
                origin, txn1, txn2, corpus0, corpus1, corpus2, seq![one], seq![two], start, log1,
                log2, failure(traced),
            );
        }
        if let Err(error) = traced {
            proof {
                lemma_lane_failed(
                    origin, *self, corpus0, *corpus, seq![one] + seq![two], full, start, log2,
                    Some(error),
                );
            }
            return Err(error);
        }
        let done = self.settle_edge(corpus, eid, native, relation, members, session);
        proof {
            lemma_lane_act(
                txn2, *self, corpus2, *corpus, three, log2, session.log(), failure(done),
            );
            lemma_lane_then(
                origin, txn2, *self, corpus0, corpus2, *corpus, seq![one] + seq![two],
                seq![three], start, log2, session.log(), failure(done),
            );
            if done is Ok {
                lemma_lane_ok(origin, *self, corpus0, *corpus, full, start, session.log());
                assert(corpus.changes@ =~= corpus0.changes@.remove(eid.0));
            }
        }
        done
    }

    /// Settle one edge that only the prepared rows know.
    fn settle_leftover<H: Host>(
        &mut self,
        corpus: &mut Corpus,
        eid: EId,
        relation: Option<RelationId>,
        members: &IdSet,
        session: &mut Session<H>,
    ) -> (done: Result<(), BeaconError>)
        requires
            old(self).wf(),
            old(corpus).wf(),
            old(corpus).control.interrupted is None,
            members.wf(),
        ensures
            final(session).metered() == old(session).metered(),
            done is Ok ==> final(corpus).control.interrupted is None,
            done is Ok ==> final(corpus).changes@ == old(corpus).changes@.remove(eid.0),
            done is Ok ==> final(corpus).emitted@ == emitted_next(
                old(corpus).emitted@,
                eid,
                settled(old(corpus).changes@, eid, None),
                relation,
                members@,
            ),
            lane(
                *old(self),
                *final(self),
                *old(corpus),
                *final(corpus),
                seq![Action::Charge(1), Action::Settle(eid, None, relation, members@)],
                old(session).log(),
                final(session).log(),
                failure(done),
            ),
    {
        let ghost origin = *self;
        let ghost corpus0 = *corpus;
        let ghost start = session.log();
        let ghost one = Action::Charge(1);
        let ghost two = Action::Settle(eid, None, relation, members@);
        let ghost full = seq![one, two];
        proof {
            assert(seq![one] + seq![two] =~= full);
            lemma_prefix_concat(seq![one], seq![two]);
        }
        let paid = self.pay_search(corpus, 1, session);
        let ghost txn1 = *self;
        let ghost corpus1 = *corpus;
        let ghost log1 = session.log();
        proof {
            lemma_lane_act(origin, txn1, corpus0, corpus1, one, start, log1, failure(paid));
        }
        if let Err(error) = paid {
            proof {
                lemma_lane_failed(
                    origin, *self, corpus0, *corpus, seq![one], full, start, log1, Some(error),
                );
            }
            return Err(error);
        }
        let done = self.settle_edge(corpus, eid, None, relation, members, session);
        proof {
            lemma_lane_act(
                txn1, *self, corpus1, *corpus, two, log1, session.log(), failure(done),
            );
            lemma_lane_then(
                origin, txn1, *self, corpus0, corpus1, *corpus, seq![one], seq![two], start, log1,
                session.log(), failure(done),
            );
            if done is Ok {
                lemma_lane_ok(origin, *self, corpus0, *corpus, full, start, session.log());
                assert(corpus.changes@ =~= corpus0.changes@.remove(eid.0));
            }
        }
        done
    }

    /// Settle the committed edges.
    fn settle_winners<H: Host>(
        &mut self,
        corpus: &mut Corpus,
        edges: &IdMap<EdgeRecord>,
        relation: Option<RelationId>,
        members: &IdSet,
        session: &mut Session<H>,
    ) -> (done: Result<(), BeaconError>)
        requires
            old(self).wf(),
            old(corpus).wf(),
            old(corpus).control.interrupted is None,
            old(corpus).emitted@.len() == 0,
            members.wf(),
            edges_wf(*edges),
        ensures
            final(session).metered() == old(session).metered(),
            done is Ok ==> final(corpus).control.interrupted is None,
            done is Ok ==> final(corpus).changes@ == unsettled(
                old(corpus).changes@,
                edges@.dom(),
            ),
            done is Ok ==> emits(
                final(corpus).emitted@,
                old(corpus).changes@,
                *edges,
                edges@.dom(),
                relation,
                members@,
            ),
            lane(
                *old(self),
                *final(self),
                *old(corpus),
                *final(corpus),
                edge_winners_script(
                    edges.value_seq(),
                    relation,
                    members@,
                    edges.value_seq().len() as int,
                ),
                old(session).log(),
                final(session).log(),
                failure(done),
            ),
    {
        let ghost origin = *self;
        let ghost corpus0 = *corpus;
        let ghost start = session.log();
        let ghost records = edges.value_seq();
        let ghost keys = edges.key_seq();
        let ghost full = edge_winners_script(records, relation, members@, records.len() as int);
        let ghost mut done_keys: Set<u128> = Set::empty();
        proof {
            lemma_lane_nothing(*self, *corpus, start);
            assert(unsettled(corpus0.changes@, done_keys) =~= corpus0.changes@);
        }
        let mut i: usize = 0;
        while i < edges.len()
            invariant
                i <= keys.len(),
                keys == edges.key_seq(),
                records == edges.value_seq(),
                keys.len() == records.len(),
                edges_wf(*edges),
                members.wf(),
                origin == *old(self),
                corpus0 == *old(corpus),
                start == old(session).log(),
                full == edge_winners_script(records, relation, members@, records.len() as int),
                session.metered() == old(session).metered(),
                corpus.control.interrupted is None,
                corpus.changes@ == unsettled(corpus0.changes@, done_keys),
                forall|key: u128| #[trigger]
                    done_keys.contains(key) <==> exists|k: int|
                        0 <= k < i && #[trigger] keys[k] == key,
                emits(
                    corpus.emitted@,
                    corpus0.changes@,
                    *edges,
                    done_keys,
                    relation,
                    members@,
                ),
                lane(
                    origin,
                    *self,
                    corpus0,
                    *corpus,
                    edge_winners_script(records, relation, members@, i as int),
                    start,
                    session.log(),
                    None,
                ),
            decreases keys.len() - i,
        {
            let record = edges.value_at(i);
            let ghost head = edge_winners_script(records, relation, members@, i as int);
            let ghost part = edge_winner_part(*record, relation, members@);
            let ghost txn1 = *self;
            let ghost corpus1 = *corpus;
            let ghost log1 = session.log();
            let ghost eid = record.entry.eid;
            proof {
                edges.lemma_position(i as int);
                assert(eid.0 == keys[i as int]);
                assert(edge_in(*edges, eid) == Some(record@));
                assert(!done_keys.contains(eid.0)) by {
                    if done_keys.contains(eid.0) {
                        let k = choose|k: int| 0 <= k < i && #[trigger] keys[k] == eid.0;
                        assert(keys[k] < keys[i as int]);
                    }
                }
            }
            let step = self.settle_winner(corpus, record, relation, members, session);
            proof {
                lemma_edge_winners_prefix(
                    records, relation, members@, i + 1, records.len() as int,
                );
                assert(head + part == edge_winners_script(records, relation, members@, i + 1));
                lemma_lane_then(
                    origin, txn1, *self, corpus0, corpus1, *corpus, head, part, start, log1,
                    session.log(), failure(step),
                );
                if step is Err {
                    lemma_lane_failed(
                        origin, *self, corpus0, *corpus, head + part, full, start, session.log(),
                        failure(step),
                    );
                } else {
                    assert(settled(
                        corpus1.changes@,
                        eid,
                        Some(record_incidence(*record)),
                    ) == settled(corpus0.changes@, eid, incidence_of(edge_in(*edges, eid))));
                    lemma_emits_next(
                        corpus1.emitted@, corpus0.changes@, *edges, done_keys, relation,
                        members@, eid, corpus.emitted@,
                    );
                    let next = done_keys.insert(eid.0);
                    assert(unsettled(corpus0.changes@, next) =~= unsettled(
                        corpus0.changes@,
                        done_keys,
                    ).remove(eid.0));
                    assert forall|key: u128| #[trigger] next.contains(key) <==> exists|k: int|
                        0 <= k < i + 1 && #[trigger] keys[k] == key by {
                        if next.contains(key) {
                            if key == eid.0 {
                                assert(keys[i as int] == key);
                            } else {
                                assert(done_keys.contains(key));
                                let k = choose|k: int| 0 <= k < i && #[trigger] keys[k] == key;
                                assert(keys[k] == key);
                            }
                        }
                        if exists|k: int| 0 <= k < i + 1 && #[trigger] keys[k] == key {
                            let k = choose|k: int| 0 <= k < i + 1 && #[trigger] keys[k] == key;
                            if k < i {
                                assert(done_keys.contains(key));
                            }
                        }
                    }
                    done_keys = next;
                }
            }
            if let Err(error) = step {
                return Err(error);
            }
            i += 1;
        }
        proof {
            assert(done_keys =~= edges@.dom()) by {
                assert forall|key: u128| done_keys.contains(key) == edges@.dom().contains(key) by {
                    if edges@.dom().contains(key) {
                        let k = keys.index_of(key);
                        assert(keys[k] == key);
                    }
                    if done_keys.contains(key) {
                        let k = choose|k: int| 0 <= k < i && #[trigger] keys[k] == key;
                        assert(keys.contains(key));
                    }
                }
            }
        }
        Ok(())
    }
}

/// The keys of the changes, in order.
fn change_keys(changes: &IdMap<Option<Incidence>>) -> (keys: Vec<u128>)
    requires
        changes.wf(),
    ensures
        keys@ == changes.key_seq(),
{
    let mut keys: Vec<u128> = Vec::new();
    let mut i: usize = 0;
    while i < changes.len()
        invariant
            changes.wf(),
            i <= changes.key_seq().len(),
            keys@ == changes.key_seq().take(i as int),
        decreases changes.key_seq().len() - i,
    {
        keys.push(changes.key_at(i));
        proof {
            assert(changes.key_seq().take(i + 1) =~= changes.key_seq().take(i as int).push(
                changes.key_seq()[i as int],
            ));
        }
        i += 1;
    }
    assert(changes.key_seq().take(i as int) =~= changes.key_seq());
    keys
}

impl WriteTxn {
    /// Settle the edges that only the prepared rows know.
    fn settle_leftovers<H: Host>(
        &mut self,
        corpus: &mut Corpus,
        relation: Option<RelationId>,
        members: &IdSet,
        session: &mut Session<H>,
        Ghost(changes): Ghost<Map<u128, Option<Incidence>>>,
        Ghost(edges): Ghost<IdMap<EdgeRecord>>,
    ) -> (done: Result<(), BeaconError>)
        requires
            old(self).wf(),
            old(corpus).wf(),
            old(corpus).control.interrupted is None,
            members.wf(),
            old(corpus).changes@ == unsettled(changes, edges@.dom()),
            emits(old(corpus).emitted@, changes, edges, edges@.dom(), relation, members@),
        ensures
            final(session).metered() == old(session).metered(),
            done is Ok ==> emits(
                final(corpus).emitted@,
                changes,
                edges,
                edges@.dom().union(changes.dom()),
                relation,
                members@,
            ),
            lane(
                *old(self),
                *final(self),
                *old(corpus),
                *final(corpus),
                leftovers_script(
                    old(corpus).changes.key_seq(),
                    relation,
                    members@,
                    old(corpus).changes.key_seq().len() as int,
                ),
                old(session).log(),
                final(session).log(),
                failure(done),
            ),
    {
        let ghost origin = *self;
        let ghost corpus0 = *corpus;
        let ghost start = session.log();
        let keys = change_keys(&corpus.changes);
        let ghost full = leftovers_script(keys@, relation, members@, keys@.len() as int);
        let ghost mut settled_keys: Set<u128> = edges@.dom();
        proof {
            lemma_lane_nothing(*self, *corpus, start);
        }
        let mut i: usize = 0;
        while i < keys.len()
            invariant
                i <= keys.len(),
                keys@ == corpus0.changes.key_seq(),
                corpus0.changes.wf(),
                members.wf(),
                origin == *old(self),
                corpus0 == *old(corpus),
                corpus0.changes@ == unsettled(changes, edges@.dom()),
                start == old(session).log(),
                full == leftovers_script(keys@, relation, members@, keys@.len() as int),
                session.metered() == old(session).metered(),
                corpus.control.interrupted is None,
                corpus.changes@ == unsettled(changes, settled_keys),
                forall|key: u128| #[trigger]
                    settled_keys.contains(key) <==> edges@.dom().contains(key) || exists|k: int|
                        0 <= k < i && #[trigger] keys@[k] == key,
                emits(corpus.emitted@, changes, edges, settled_keys, relation, members@),
                lane(
                    origin,
                    *self,
                    corpus0,
                    *corpus,
                    leftovers_script(keys@, relation, members@, i as int),
                    start,
                    session.log(),
                    None,
                ),
            decreases keys.len() - i,
        {
            let key: u128 = keys[i];
            let eid = EId(key);
            let ghost head = leftovers_script(keys@, relation, members@, i as int);
            let ghost part = seq![
                Action::Charge(1),
                Action::Settle(eid, None, relation, members@),
            ];
            let ghost txn1 = *self;
            let ghost corpus1 = *corpus;
            let ghost log1 = session.log();
            proof {
                corpus0.changes.lemma_position(i as int);
                assert(corpus0.changes@.dom().contains(key));
                assert(!edges@.dom().contains(key));
                assert(!settled_keys.contains(key)) by {
                    if settled_keys.contains(key) {
                        let k = choose|k: int| 0 <= k < i && #[trigger] keys@[k] == key;
                        assert(keys@[k] < keys@[i as int]);
                    }
                }
                assert(edge_in(edges, eid) is None);
            }
            let step = self.settle_leftover(corpus, eid, relation, members, session);
            proof {
                lemma_leftovers_prefix(keys@, relation, members@, i + 1, keys@.len() as int);
                assert(head + part == leftovers_script(keys@, relation, members@, i + 1));
                lemma_lane_then(
                    origin, txn1, *self, corpus0, corpus1, *corpus, head, part, start, log1,
                    session.log(), failure(step),
                );
                if step is Err {
                    lemma_lane_failed(
                        origin, *self, corpus0, *corpus, head + part, full, start, session.log(),
                        failure(step),
                    );
                } else {
                    assert(settled(corpus1.changes@, eid, None) == settled(
                        changes,
                        eid,
                        incidence_of(edge_in(edges, eid)),
                    ));
                    lemma_emits_next(
                        corpus1.emitted@, changes, edges, settled_keys, relation, members@, eid,
                        corpus.emitted@,
                    );
                    let next = settled_keys.insert(key);
                    assert(unsettled(changes, next) =~= unsettled(changes, settled_keys).remove(
                        key,
                    ));
                    assert forall|other: u128| #[trigger] next.contains(other) <==> edges@.dom().contains(
                        other,
                    ) || exists|k: int| 0 <= k < i + 1 && #[trigger] keys@[k] == other by {
                        if next.contains(other) {
                            if other == key {
                                assert(keys@[i as int] == other);
                            } else {
                                assert(settled_keys.contains(other));
                                if !edges@.dom().contains(other) {
                                    let k = choose|k: int|
                                        0 <= k < i && #[trigger] keys@[k] == other;
                                    assert(keys@[k] == other);
                                }
                            }
                        }
                        if exists|k: int| 0 <= k < i + 1 && #[trigger] keys@[k] == other {
                            let k = choose|k: int|
                                0 <= k < i + 1 && #[trigger] keys@[k] == other;
                            if k < i {
                                assert(settled_keys.contains(other));
                            }
                        }
                        if edges@.dom().contains(other) {
                            assert(settled_keys.contains(other));
                        }
                    }
                    settled_keys = next;
                }
            }
            if let Err(error) = step {
                return Err(error);
            }
            i += 1;
        }
        proof {
            let all = edges@.dom().union(changes.dom());
            assert forall|eid: EId|
                #![trigger all.contains(eid.0)]
                all.contains(eid.0) == settled_keys.contains(eid.0) by {
                let key = eid.0;
                if changes.dom().contains(key) && !edges@.dom().contains(key) {
                    assert(corpus0.changes@.dom().contains(key));
                    let k = keys@.index_of(key);
                    assert(keys@[k] == key);
                }
                if settled_keys.contains(key) && !edges@.dom().contains(key) {
                    let k = choose|k: int| 0 <= k < i && #[trigger] keys@[k] == key;
                    corpus0.changes.lemma_position(k);
                    assert(corpus0.changes@.dom().contains(key));
                }
            }
            assert(settled_keys =~= all) by {
                assert forall|key: u128| settled_keys.contains(key) == all.contains(key) by {
                    assert(all.contains(EId(key).0) == settled_keys.contains(EId(key).0));
                }
            }
        }
        Ok(())
    }

    /// Read the prepared rows into the changes, if there are any.
    fn trace_delta<H: Host>(&mut self, corpus: &mut Corpus, session: &mut Session<H>) -> (done:
        Result<(), BeaconError>)
        requires
            old(self).wf(),
            old(corpus).wf(),
            old(corpus).control.interrupted is None,
            old(corpus).changes@ =~= Map::<u128, Option<Incidence>>::empty(),
        ensures
            final(session).metered() == old(session).metered(),
            done is Ok ==> final(corpus).control.interrupted is None,
            done is Ok ==> final(corpus).changes@ == changes_after(
                Map::empty(),
                old(self).prepared_rows(),
            ),
            done is Ok ==> final(corpus).emitted@ == old(corpus).emitted@,
            lane(
                *old(self),
                *final(self),
                *old(corpus),
                *final(corpus),
                own_delta_script(*old(self)),
                old(session).log(),
                final(session).log(),
                failure(done),
            ),
    {
        let ghost log = session.log();
        let ghost before = *self;
        let ghost corpus0 = *corpus;
        assert(corpus.changes@ == Map::<u128, Option<Incidence>>::empty());
        let prepared = self.prepared.take();
        let ghost taken = *self;
        let done = match &prepared {
            Some(write) => self.trace_template(corpus, &write.template, session),
            None => {
                proof {
                    lemma_lane_nothing(*self, *corpus, log);
                }
                Ok(())
            },
        };
        let ghost walked_txn = *self;
        self.prepared = prepared;
        proof {
            assert(walk_of(taken, corpus0) == walk_of(before, corpus0));
            assert(walk_of(walked_txn, *corpus) == walk_of(*self, *corpus));
        }
        done
    }
}

/// What the prepared rows cost the graph lane, if there are any.
pub open spec fn own_delta_script(txn: WriteTxn) -> Seq<Action> {
    match txn.prepared {
        Some(write) => edge_delta_script(
            write.template.coordinates@,
            write.template.coordinates@.len() as int,
        ),
        None => Seq::empty(),
    }
}

/// The whole graph lane: one unit, the staged intents, the prepared rows, the
/// committed edges, then those that only the prepared rows know.
pub open spec fn graph_script(
    txn: WriteTxn,
    relation: Option<RelationId>,
    members: Set<u128>,
    records: Seq<EdgeRecord>,
    keys: Seq<u128>,
) -> Seq<Action> {
    let rows = intents(txn.staged@);
    seq![Action::Charge(1)] + edge_intents_script(rows, rows.len() as int) + own_delta_script(txn)
        + edge_winners_script(records, relation, members, records.len() as int)
        + leftovers_script(keys, relation, members, keys.len() as int)
}

/// The emitted edges are exactly the transaction's edges that the request admits.
pub open spec fn lists_incidences(
    emitted: Seq<(EId, Incidence)>,
    txn: WriteTxn,
    database: Database,
    relation: Option<RelationId>,
    members: Set<u128>,
) -> bool {
    &&& forall|k: int|
        0 <= k < emitted.len() ==> {
            let found = #[trigger] emitted[k];
            &&& incidence_of(txn.overlay_edge(database, found.0)) == Some(found.1)
            &&& admitted_edge(found.1, relation, members)
        }
    &&& forall|i: int, j: int|
        0 <= i < j < emitted.len() ==> (#[trigger] emitted[i]).0 != (#[trigger] emitted[j]).0
    &&& forall|eid: EId|
        (#[trigger] incidence_of(txn.overlay_edge(database, eid)) matches Some(incidence)
            && admitted_edge(incidence, relation, members)) ==> exists|k: int|
            0 <= k < emitted.len() && (#[trigger] emitted[k]).0 == eid
}

/// The committed edges that a transaction is pinned to.
pub open spec fn pinned_edges(txn: WriteTxn, database: Database) -> spec_fn(EId) -> Option<
    EdgeView,
> {
    |eid: EId| database.edge_at_spec(eid, txn.basis)
}

/// The edges that only the prepared rows know, in order.
pub open spec fn lists_leftovers(keys: Seq<u128>, txn: WriteTxn, database: Database) -> bool {
    &&& increasing(keys)
    &&& forall|eid: EId|
        #![trigger keys.contains(eid.0)]
        keys.contains(eid.0) <==> changes_after(
            Map::empty(),
            txn.prepared_rows(),
        ).dom().contains(eid.0) && database.edge_at_spec(eid, txn.basis) is None
}

/// What reading the graph lane does, whatever the host answers. Witnesses made
/// before a failure stay.
pub open spec fn expands(
    before: WriteTxn,
    after: WriteTxn,
    database: Database,
    relation: Option<RelationId>,
    members: Set<u128>,
    records: Seq<EdgeRecord>,
    keys: Seq<u128>,
    corpus: Corpus,
    corpus_after: Corpus,
    log: Seq<Event>,
    log_after: Seq<Event>,
    failed: Option<BeaconError>,
) -> bool {
    &&& lists_edges(records, pinned_edges(before, database))
    &&& lists_leftovers(keys, before, database)
    &&& walked(
        corpus.control.limits,
        Walk { changes: Map::empty(), emitted: Seq::empty(), ..walk_of(before, corpus) },
        graph_script(before, relation, members, records, keys),
        after,
        corpus_after,
        log,
        log_after,
        failed,
    )
    &&& corpus_after.control.interrupted == refused(log, log_after)
    &&& same_workspace(before, after)
    &&& before.read_set@.subset_of(after.read_set@)
    &&& after.match_expansions == before.match_expansions
    &&& after.scanned_vertices == before.scanned_vertices
    &&& before.scanned_edges ==> after.scanned_edges
    &&& after.scanned_edges || (failed is Some && walked(
        corpus.control.limits,
        Walk { changes: Map::empty(), emitted: Seq::empty(), ..walk_of(before, corpus) },
        seq![Action::Charge(1)],
        after,
        corpus_after,
        log,
        log_after,
        failed,
    ))
    &&& failed is None ==> after.scanned_edges && lists_incidences(
        corpus_after.emitted@,
        before,
        database,
        relation,
        members,
    )
}

proof fn lemma_records_list(
    edges: IdMap<EdgeRecord>,
    graph: spec_fn(EId) -> Option<EdgeView>,
)
    requires
        edges_wf(edges),
        forall|eid: EId| #[trigger] edge_in(edges, eid) == graph(eid),
    ensures
        lists_edges(edges.value_seq(), graph),
{
    let records = edges.value_seq();
    let keys = edges.key_seq();
    assert forall|i: int| 0 <= i < records.len() implies (#[trigger] records[i]).wf() && graph(
        records[i].entry.eid,
    ) == Some(records[i]@) && records[i].entry.eid.0 == keys[i] by {
        edges.lemma_position(i);
        assert(edges@.dom().contains(keys[i]));
        assert(edge_in(edges, records[i].entry.eid) == graph(records[i].entry.eid));
    }
    assert forall|i: int, j: int| 0 <= i < j < records.len() implies (
    #[trigger] records[i]).entry.eid.0 < (#[trigger] records[j]).entry.eid.0 by {
        assert(records[i].entry.eid.0 == keys[i]);
        assert(records[j].entry.eid.0 == keys[j]);
    }
    assert forall|eid: EId| #[trigger] graph(eid) is Some implies exists|i: int|
        0 <= i < records.len() && (#[trigger] records[i]).entry.eid == eid by {
        assert(edge_in(edges, eid) == graph(eid));
        assert(edges@.dom().contains(eid.0));
        let i = keys.index_of(eid.0);
        assert(keys[i] == eid.0);
        assert(records[i].entry.eid.0 == keys[i]);
        assert(records[i].entry.eid == eid);
    }
}

/// What was emitted is what the transaction sees.
proof fn lemma_emitted_listed(
    emitted: Seq<(EId, Incidence)>,
    edges: IdMap<EdgeRecord>,
    txn: WriteTxn,
    database: Database,
    relation: Option<RelationId>,
    members: Set<u128>,
)
    requires
        forall|eid: EId| #[trigger]
            edge_in(edges, eid) == database.edge_at_spec(eid, txn.basis),
        emits(
            emitted,
            changes_after(Map::empty(), txn.prepared_rows()),
            edges,
            edges@.dom().union(changes_after(Map::empty(), txn.prepared_rows()).dom()),
            relation,
            members,
        ),
    ensures
        lists_incidences(emitted, txn, database, relation, members),
{
    let changes = changes_after(Map::<u128, Option<Incidence>>::empty(), txn.prepared_rows());
    let done = edges@.dom().union(changes.dom());
    assert forall|eid: EId| #[trigger] incidence_of(txn.overlay_edge(database, eid)) == settled(
        changes,
        eid,
        incidence_of(edge_in(edges, eid)),
    ) by {
        lemma_changes_noted(eid, txn.prepared_rows(), txn.basis);
        assert(edge_in(edges, eid) == database.edge_at_spec(eid, txn.basis));
    }
    assert forall|k: int| 0 <= k < emitted.len() implies {
        let found = #[trigger] emitted[k];
        &&& incidence_of(txn.overlay_edge(database, found.0)) == Some(found.1)
        &&& admitted_edge(found.1, relation, members)
    } by {
        assert(done.contains(emitted[k].0.0));
    }
    assert forall|eid: EId|
        (#[trigger] incidence_of(txn.overlay_edge(database, eid)) matches Some(incidence)
            && admitted_edge(incidence, relation, members)) implies exists|k: int|
        0 <= k < emitted.len() && (#[trigger] emitted[k]).0 == eid by {
        assert(settled(changes, eid, incidence_of(edge_in(edges, eid))) is Some);
        assert(done.contains(eid.0));
    }
}

impl WriteTxn {
    /// Read the edges of the graph lane. The whole edge source is scanned, so the
    /// scan witness is kept before any edge is read. Parallel edges stay distinct,
    /// and a vertex deletion brings the cascade that the engine derived.
    #[verifier::rlimit(40)]
    pub fn beacon_graph_edges<H: Host>(
        &mut self,
        database: &Database,
        relation: Option<RelationId>,
        members: &IdSet,
        corpus: &mut Corpus,
        session: &mut Session<H>,
    ) -> (done: Result<(), BeaconError>)
        requires
            old(self).wf(),
            database.wf(),
            old(self).read_refusal(*database) is None,
            old(corpus).wf(),
            old(corpus).control.interrupted is None,
            members.wf(),
        ensures
            final(self).wf(),
            final(corpus).wf(),
            final(corpus).control.limits == old(corpus).control.limits,
            final(session).metered() == old(session).metered(),
            exists|records: Seq<EdgeRecord>, keys: Seq<u128>| #[trigger]
                expands(
                    *old(self),
                    *final(self),
                    *database,
                    relation,
                    members@,
                    records,
                    keys,
                    *old(corpus),
                    *final(corpus),
                    old(session).log(),
                    final(session).log(),
                    failure(done),
                ),
    {
        let ghost origin = *self;
        let ghost given = *corpus;
        let ghost start = session.log();
        corpus.changes = IdMap::new();
        corpus.emitted = Vec::new();
        let ghost corpus0 = *corpus;
        let edges = match database.edge_map_at(self.basis) {
            Ok(edges) => edges,
            Err(_) => {
                proof {
                    assert(false);
                }
                return Ok(());
            },
        };
        let ghost changes = changes_after(
            Map::<u128, Option<Incidence>>::empty(),
            origin.prepared_rows(),
        );
        let ghost records = edges.value_seq();
        let ghost rows = intents(origin.staged@);
        let ghost unit = seq![Action::Charge(1)];
        let ghost part2 = edge_intents_script(rows, rows.len() as int);
        let ghost part3 = own_delta_script(origin);
        let ghost part4 = edge_winners_script(records, relation, members@, records.len() as int);
        let ghost walk = Walk {
            changes: Map::empty(),
            emitted: Seq::empty(),
            ..walk_of(origin, given)
        };
        proof {
            lemma_records_list(edges, pinned_edges(origin, *database));
            assert(walk_of(origin, corpus0) =~= walk);
        }
        let ghost keys = leftover_keys(changes, edges@.dom());
        proof {
            lemma_changes_finite(origin.prepared_rows());
            lemma_leftover_keys(changes, edges@.dom());
            assert(lists_leftovers(keys, origin, *database)) by {
                assert forall|eid: EId|
                    #![trigger keys.contains(eid.0)]
                    keys.contains(eid.0) <==> changes.dom().contains(eid.0)
                        && database.edge_at_spec(eid, origin.basis) is None by {
                    assert(edge_in(edges, eid) == database.edge_at_spec(eid, origin.basis));
                }
            }
        }
        let ghost part5 = leftovers_script(keys, relation, members@, keys.len() as int);
        let ghost full = graph_script(origin, relation, members@, records, keys);
        proof {
            lemma_prefix_concat(unit + part2 + part3 + part4, part5);
            lemma_prefix_concat(unit + part2 + part3, part4);
            lemma_prefix_transitive(unit + part2 + part3, unit + part2 + part3 + part4, full);
            lemma_prefix_concat(unit + part2, part3);
            lemma_prefix_transitive(unit + part2, unit + part2 + part3, full);
            lemma_prefix_concat(unit, part2);
            lemma_prefix_transitive(unit, unit + part2, full);
        }
        let paid = self.pay_search(corpus, 1, session);
        let ghost log1 = session.log();
        proof {
            lemma_lane_act(
                origin, *self, corpus0, *corpus, Action::Charge(1), start, log1, failure(paid),
            );
        }
        if let Err(error) = paid {
            proof {
                lemma_lane_failed(
                    origin, *self, corpus0, *corpus, unit, full, start, log1, Some(error),
                );
                assert(expands(
                    origin, *self, *database, relation, members@, records, keys, given, *corpus,
                    start, session.log(), Some(error),
                ));
            }
            return Err(error);
        }
        self.scanned_edges = true;
        let ghost scanned = WriteTxn { scanned_edges: true, ..origin };
        let ghost txn1 = *self;
        let ghost corpus1 = *corpus;
        proof {
            assert(walk_of(scanned, corpus0) == walk_of(origin, corpus0));
            assert(lane(scanned, txn1, corpus0, corpus1, unit, start, log1, None));
            lemma_lane_ok(scanned, txn1, corpus0, corpus1, unit, start, log1);
        }
        let done = self.trace_intents(corpus, session);
        let ghost txn2 = *self;
        let ghost corpus2 = *corpus;
        let ghost log2 = session.log();
        proof {
            lemma_lane_then(
                scanned, txn1, txn2, corpus0, corpus1, corpus2, unit, part2, start, log1, log2,
                failure(done),
            );
        }
        if let Err(error) = done {
            proof {
                lemma_lane_failed(
                    scanned, *self, corpus0, *corpus, unit + part2, full, start, log2,
                    Some(error),
                );
                assert(expands(
                    origin, *self, *database, relation, members@, records, keys, given, *corpus,
                    start, session.log(), Some(error),
                ));
            }
            return Err(error);
        }
        proof {
            lemma_lane_ok(scanned, txn2, corpus0, corpus2, unit + part2, start, log2);
            assert(txn2.prepared == origin.prepared);
        }
        let done = self.trace_delta(corpus, session);
        let ghost txn3 = *self;
        let ghost corpus3 = *corpus;
        let ghost log3 = session.log();
        proof {
            lemma_lane_then(
                scanned, txn2, txn3, corpus0, corpus2, corpus3, unit + part2, part3, start, log2,
                log3, failure(done),
            );
        }
        if let Err(error) = done {
            proof {
                lemma_lane_failed(
                    scanned, *self, corpus0, *corpus, unit + part2 + part3, full, start, log3,
                    Some(error),
                );
                assert(expands(
                    origin, *self, *database, relation, members@, records, keys, given, *corpus,
                    start, session.log(), Some(error),
                ));
            }
            return Err(error);
        }
        proof {
            assert(txn2.prepared_rows() == origin.prepared_rows());
            assert(corpus3.changes@ == changes);
        }
        let done = self.settle_winners(corpus, &edges, relation, members, session);
        let ghost txn4 = *self;
        let ghost corpus4 = *corpus;
        let ghost log4 = session.log();
        proof {
            lemma_lane_then(
                scanned, txn3, txn4, corpus0, corpus3, corpus4, unit + part2 + part3, part4,
                start, log3, log4, failure(done),
            );
        }
        if let Err(error) = done {
            proof {
                lemma_lane_failed(
                    scanned, *self, corpus0, *corpus, unit + part2 + part3 + part4, full, start,
                    log4, Some(error),
                );
                assert(expands(
                    origin, *self, *database, relation, members@, records, keys, given, *corpus,
                    start, session.log(), Some(error),
                ));
            }
            return Err(error);
        }
        proof {
            lemma_map_keys_are(corpus4.changes, changes, edges@.dom());
        }
        let done = self.settle_leftovers(
            corpus,
            relation,
            members,
            session,
            Ghost(changes),
            Ghost(edges),
        );
        proof {
            lemma_lane_then(
                scanned, txn4, *self, corpus0, corpus4, *corpus, unit + part2 + part3 + part4,
                part5, start, log4, session.log(), failure(done),
            );
            if done is Ok {
                lemma_emitted_listed(
                    corpus.emitted@, edges, origin, *database, relation, members@,
                );
            }
            assert(expands(
                origin, *self, *database, relation, members@, records, keys, given, *corpus,
                start, session.log(), failure(done),
            ));
        }
        done
    }
}

/// The keys of the changes to edges outside `known`, in order.
spec fn leftover_keys(changes: Map<u128, Option<Incidence>>, known: Set<u128>) -> Seq<u128> {
    sorted_ids(unsettled(changes, known).dom())
}

proof fn lemma_cascaded_finite(
    changes: Map<u128, Option<Incidence>>,
    retired: Seq<EId>,
    n: int,
)
    requires
        changes.dom().finite(),
    ensures
        cascaded(changes, retired, n).dom().finite(),
    decreases n,
{
    if n > 0 {
        lemma_cascaded_finite(changes, retired, n - 1);
    }
}

proof fn lemma_changes_finite(rows: Seq<DeltaRow>)
    ensures
        changes_after(Map::empty(), rows).dom().finite(),
    decreases rows.len(),
{
    if rows.len() > 0 {
        lemma_changes_finite(rows.drop_last());
        let earlier = changes_after(Map::empty(), rows.drop_last());
        if let DeltaRow::DeleteVertex { sorted_retired_incident_edges, .. } = rows.last() {
            lemma_cascaded_finite(
                earlier,
                sorted_retired_incident_edges@,
                sorted_retired_incident_edges@.len() as int,
            );
        }
    }
}

proof fn lemma_leftover_keys(changes: Map<u128, Option<Incidence>>, known: Set<u128>)
    requires
        changes.dom().finite(),
    ensures
        increasing(leftover_keys(changes, known)),
        forall|key: u128| #[trigger]
            leftover_keys(changes, known).contains(key) <==> changes.dom().contains(key)
                && !known.contains(key),
{
    let left = unsettled(changes, known).dom();
    assert(left =~= changes.dom().difference(known));
    lemma_sorted_exists(left);
    let keys = leftover_keys(changes, known);
    assert forall|key: u128| #[trigger] keys.contains(key) <==> changes.dom().contains(key)
        && !known.contains(key) by {
        assert(keys.to_set().contains(key) == left.contains(key));
    }
}

proof fn lemma_map_keys_are(
    map: IdMap<Option<Incidence>>,
    changes: Map<u128, Option<Incidence>>,
    known: Set<u128>,
)
    requires
        map.wf(),
        map@ == unsettled(changes, known),
        changes.dom().finite(),
    ensures
        map.key_seq() == leftover_keys(changes, known),
{
    let left = unsettled(changes, known).dom();
    assert(left =~= changes.dom().difference(known));
    lemma_sorted_exists(left);
    assert(map.key_seq().to_set() =~= left);
    lemma_sorted_unique(map.key_seq(), leftover_keys(changes, known));
}

/// Refuse more seeds than a graph expansion may name.
pub fn check_seeds(seeds: usize, limit: u64) -> (checked: Result<(), BeaconError>)
    ensures
        failure(checked) == (if seeds > limit {
            Some(
                BeaconError::ResourceLimit { resource: SearchResource::ExpansionSeeds, limit },
            )
        } else {
            None
        }),
{
    if seeds as u64 > limit {
        Err(BeaconError::ResourceLimit { resource: SearchResource::ExpansionSeeds, limit })
    } else {
        Ok(())
    }
}

/// Whether an expansion reads any edge. Without hops or without seeds it reads
/// none and keeps no scan witness.
pub fn scans_edges(max_hops: u64, seeds: usize) -> (scans: bool)
    ensures
        scans == (max_hops > 0 && seeds > 0),
{
    max_hops != 0 && seeds != 0
}

/// The graph lane inside a transaction sees the endpoints that it sees after the
/// commit.
pub proof fn law_staged_incidence_is_the_committed_incidence(
    txn: WriteTxn,
    before: Database,
    after: Database,
    fresh: WriteTxn,
)
    requires
        before.wf(),
        before.tip() < u64::MAX,
        txn.prepared is Some,
        txn.basis.0 == before.tip(),
        published(before, after, txn.prepared->0.template),
        fresh.prepared is None,
        fresh.basis.0 == before.tip() + 1,
    ensures
        forall|eid: EId| #[trigger]
            incidence_of(txn.overlay_edge(before, eid)) == incidence_of(
                fresh.overlay_edge(after, eid),
            ),
{
    law_reads_are_published(txn, before, after);
    assert forall|eid: EId| #[trigger]
        incidence_of(txn.overlay_edge(before, eid)) == incidence_of(
            fresh.overlay_edge(after, eid),
        ) by {
        assert(fresh.basis == CommitSeq((before.tip() + 1) as u64));
        assert(fresh.overlay_edge(after, eid) == after.edge_at_spec(eid, fresh.basis));
        assert(same_edge(
            txn.overlay_edge(before, eid),
            after.edge_at_spec(eid, fresh.basis),
        ));
    }
}

/// The emitted edges after one more was settled.
pub open spec fn emitted_next(
    emitted: Seq<(EId, Incidence)>,
    eid: EId,
    after: Option<Incidence>,
    relation: Option<RelationId>,
    members: Set<u128>,
) -> Seq<(EId, Incidence)> {
    match after {
        Some(incidence) => if admitted_edge(incidence, relation, members) {
            emitted.push((eid, incidence))
        } else {
            emitted
        },
        None => emitted,
    }
}

/// A run that did not fail was not interrupted.
proof fn lemma_lane_ok(
    before: WriteTxn,
    after: WriteTxn,
    corpus: Corpus,
    corpus_after: Corpus,
    script: Seq<Action>,
    log: Seq<Event>,
    log_after: Seq<Event>,
)
    requires
        lane(before, after, corpus, corpus_after, script, log, log_after, None),
    ensures
        corpus_after.control.interrupted is None,
        walk_of(after, corpus_after) == crate::script::state_after(
            crate::beacon_corpus::corpus_rule(corpus.control.limits),
            walk_of(before, corpus),
            script,
        ),
{
}

} // verus!
