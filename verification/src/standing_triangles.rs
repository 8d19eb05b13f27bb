//! Triangle views: the weighted triangles of one relation's undirected projection.
//!
//! The topology kernel finds which triangles a commit changes. The view keeps the
//! triangles and their total, and takes a change in whole or not at all.

use vstd::prelude::*;
use crate::database::Database;
use crate::ids::{CommitSeq, EId, RelationId, VId};
use crate::kernel::{KernelRecord, KernelStep, ViewKernel};
use crate::plan::failure;
use crate::script::{lemma_prefix_concat, lemma_prefix_transitive};
use crate::session::{Event, Host, Session};
use crate::standing::{
    bound_fault, chain, event_script, lemma_meters_failed, lemma_meters_nothing, lemma_meters_then,
    lemma_part, lemma_unless_fault, meters, result_bound, unless_fault, work_unit, Charge, Meter,
    StandingQueryFailure, StandingQueryStats, ZSetEvent,
};
use crate::statement::QueryPolicy;
use crate::weight::{fits, Weight};
use crate::zset::{counted, lemma_determined, lemma_weight_at, listed, weight_in, Triple, ZSet};

verus! {

/// Whether a triangle counts once, or once for each choice of its three sides.
#[derive(Clone, Copy, PartialEq, Eq, Structural, Debug)]
pub enum TriangleQuantifier {
    All,
    Distinct,
}

/// Why the topology kernel refused.
#[derive(Clone, Copy, PartialEq, Eq, Structural, Debug)]
pub enum TriangleError {
    Delta(StandingQueryFailure),
    Topology,
}

/// The failure that a kernel error stands for.
pub open spec fn triangle_failure(error: TriangleError) -> StandingQueryFailure {
    match error {
        TriangleError::Delta(failure) => failure,
        TriangleError::Topology => StandingQueryFailure::InvalidDelta,
    }
}

/// The failure that a kernel error stands for.
pub fn input_error(error: TriangleError) -> (failure: StandingQueryFailure)
    ensures
        failure == triangle_failure(error),
{
    match error {
        TriangleError::Delta(failure) => failure,
        TriangleError::Topology => StandingQueryFailure::InvalidDelta,
    }
}

/// What the topology kernel answers: the triangles, or their change, and what it
/// charges for reading the source, for the triangles and for their listing.
pub struct TriangleChange {
    pub triangles: Result<ZSet<Triple>, TriangleError>,
    pub source: Vec<ZSetEvent>,
    pub input: Vec<ZSetEvent>,
    pub sink: Vec<ZSetEvent>,
}

/// Maintained triangles.
pub struct TriangleView {
    pub relation: RelationId,
    pub quantifier: TriangleQuantifier,
    pub input_frontier: CommitSeq,
    pub rows: ZSet<Triple>,
    pub total: Weight,
    pub policy: QueryPolicy,
    pub frontier: CommitSeq,
    pub stats: StandingQueryStats,
    pub failure: Option<StandingQueryFailure>,
}

/// Why a change cannot be counted on top of a total. One that is not in canonical
/// form is invalid, and so is a baseline with a negative weight.
pub open spec fn change_fault(
    total: int,
    triangles: Result<ZSet<Triple>, TriangleError>,
    baseline: bool,
    policy: QueryPolicy,
) -> Option<StandingQueryFailure> {
    match triangles {
        Err(error) => Some(triangle_failure(error)),
        Ok(change) => if !change.wf() || (baseline && !change.positive()) {
            Some(StandingQueryFailure::InvalidDelta)
        } else if !change.countable() {
            Some(StandingQueryFailure::Arithmetic)
        } else {
            bound_fault(total + change.sum(), policy)
        },
    }
}

/// Each changed triangle costs a unit of work, and must not fall below zero.
pub open spec fn settle_script(rows: ZSet<Triple>, entries: Seq<(Triple, Weight)>, n: int) -> Seq<
    Charge,
>
    decreases n,
{
    if n <= 0 {
        Seq::empty()
    } else {
        settle_script(rows, entries, n - 1) + work_unit() + unless_fault(
            if rows.at(entries[n - 1].0) + entries[n - 1].1@ < 0 {
                Some(StandingQueryFailure::InvalidDelta)
            } else {
                None
            },
        )
    }
}

/// The refusal of a sum that does not fit.
pub open spec fn sink_fault(rows: ZSet<Triple>, change: ZSet<Triple>) -> Option<
    StandingQueryFailure,
> {
    if rows.accepts(change) {
        None
    } else {
        Some(StandingQueryFailure::Arithmetic)
    }
}

/// How a change is prepared: the source's charges, the kernel's, the final bound,
/// the listing's, each changed triangle, a last poll.
pub open spec fn maintain_parts(view: TriangleView, change: TriangleChange, policy: QueryPolicy) -> Seq<
    Seq<Charge>,
> {
    let triangles = change.triangles->Ok_0;
    seq![
        unless_fault(
            if view.frontier == view.input_frontier {
                None
            } else {
                Some(StandingQueryFailure::InvalidDelta)
            },
        ),
        event_script(change.source@),
        event_script(change.input@),
        unless_fault(change_fault(view.total@, change.triangles, false, policy)),
        event_script(change.sink@),
        unless_fault(sink_fault(view.rows, triangles)),
        settle_script(view.rows, triangles.entries(), triangles.entries().len() as int),
        seq![Charge::Poll],
    ]
}

/// How a baseline is built.
pub open spec fn baseline_parts(built: TriangleChange, policy: QueryPolicy) -> Seq<Seq<Charge>> {
    seq![
        event_script(built.source@),
        event_script(built.input@),
        unless_fault(change_fault(0, built.triangles, true, policy)),
        event_script(built.sink@),
        seq![Charge::Poll],
    ]
}

impl TriangleView {
    /// The total counts the triangles, none of which has a negative weight.
    pub open spec fn wf(&self) -> bool {
        &&& self.rows.wf()
        &&& self.rows.positive()
        &&& self.total@ == self.rows.sum()
    }

    /// The view with a change in: its input identity, its triangles and its total.
    pub open spec fn changed(&self, change: ZSet<Triple>, at: CommitSeq, after: TriangleView) -> bool {
        &&& after.relation == self.relation
        &&& after.quantifier == self.quantifier
        &&& after.policy == self.policy
        &&& after.frontier == self.frontier
        &&& after.stats == self.stats
        &&& after.failure == self.failure
        &&& after.input_frontier == at
        &&& after.total@ == self.total@ + change.sum()
        &&& forall|triple: Triple| #[trigger]
            after.rows.at(triple) == self.rows.at(triple) + change.at(triple)
    }
}

proof fn lemma_settle_prefix(rows: ZSet<Triple>, entries: Seq<(Triple, Weight)>, n: int, m: int)
    requires
        0 <= n <= m,
    ensures
        settle_script(rows, entries, n).is_prefix_of(settle_script(rows, entries, m)),
    decreases m - n,
{
    let script = settle_script(rows, entries, m);
    if n < m {
        lemma_settle_prefix(rows, entries, n, m - 1);
        let earlier = settle_script(rows, entries, m - 1);
        assert(script =~= earlier + script.skip(earlier.len() as int));
        lemma_prefix_concat(earlier, script.skip(earlier.len() as int));
        lemma_prefix_transitive(settle_script(rows, entries, n), earlier, script);
    } else {
        assert(script =~= script.subrange(0, script.len() as int));
    }
}

/// Pay for each changed triangle, and refuse one that falls below zero.
fn settle<H: Host>(
    rows: &ZSet<Triple>,
    change: &ZSet<Triple>,
    meter: &mut Meter,
    session: &mut Session<H>,
) -> (done: Result<(), StandingQueryFailure>)
    requires
        rows.wf(),
        change.wf(),
        rows.positive(),
        rows.accepts(*change),
    ensures
        final(session).metered() == old(session).metered(),
        meters(
            *old(meter),
            settle_script(*rows, change.entries(), change.entries().len() as int),
            *final(meter),
            old(session).log(),
            final(session).log(),
            failure(done),
        ),
        done is Ok ==> forall|triple: Triple| #[trigger]
            rows.at(triple) + change.at(triple) >= 0,
{
    let ghost start = session.log();
    let ghost before = *meter;
    let ghost entries = change.entries();
    let ghost full = settle_script(*rows, entries, entries.len() as int);
    let mut i: usize = 0;
    proof {
        lemma_meters_nothing(before, start);
    }
    while i < change.len()
        invariant
            i <= entries.len(),
            entries == change.entries(),
            full == settle_script(*rows, entries, entries.len() as int),
            rows.wf(),
            change.wf(),
            rows.accepts(*change),
            session.metered() == old(session).metered(),
            start == old(session).log(),
            before == *old(meter),
            meters(
                before,
                settle_script(*rows, entries, i as int),
                *meter,
                start,
                session.log(),
                None,
            ),
            forall|j: int|
                0 <= j < i ==> rows.at((#[trigger] entries[j]).0) + entries[j].1@ >= 0,
        decreases entries.len() - i,
    {
        let ghost here = *meter;
        let ghost here_log = session.log();
        let ghost seen = settle_script(*rows, entries, i as int);
        let (triple, weight) = change.entry(i);
        let paid = meter.charge(ZSetEvent::Work, session);
        let ghost paid_log = session.log();
        let ghost fault = if rows.at(triple) + weight@ < 0 {
            Some(StandingQueryFailure::InvalidDelta)
        } else {
            None
        };
        proof {
            lemma_meters_then(
                before,
                seen,
                here,
                work_unit(),
                *meter,
                start,
                here_log,
                paid_log,
                failure(paid),
            );
            lemma_settle_prefix(*rows, entries, i + 1, entries.len() as int);
            lemma_prefix_concat(seen + work_unit(), unless_fault(fault));
            lemma_prefix_transitive(
                seen + work_unit(),
                settle_script(*rows, entries, i + 1),
                full,
            );
        }
        if let Err(error) = paid {
            proof {
                lemma_meters_failed(
                    before,
                    seen + work_unit(),
                    full,
                    *meter,
                    start,
                    paid_log,
                    Some(error),
                );
            }
            return Err(error);
        }
        proof {
            lemma_unless_fault(*meter, paid_log, fault);
            lemma_meters_then(
                before,
                seen + work_unit(),
                *meter,
                unless_fault(fault),
                *meter,
                start,
                paid_log,
                paid_log,
                fault,
            );
            lemma_weight_at(entries, i as int);
            assert(fits(rows.at(triple) + change.at(triple)));
        }
        let negative = match rows.weight(triple).checked_add(weight) {
            Some(next) => next.is_negative(),
            None => {
                assert(false);
                false
            },
        };
        if negative {
            proof {
                lemma_meters_failed(
                    before,
                    settle_script(*rows, entries, i + 1),
                    full,
                    *meter,
                    start,
                    paid_log,
                    fault,
                );
            }
            return Err(StandingQueryFailure::InvalidDelta);
        }
        i += 1;
    }
    proof {
        assert forall|triple: Triple| #[trigger] rows.at(triple) + change.at(triple) >= 0 by {
            if listed(entries, triple) {
                let j = choose|j: int| 0 <= j < entries.len() && (#[trigger] entries[j]).0 == triple;
                lemma_weight_at(entries, j);
            } else {
                assert(rows.at(triple) >= 0);
            }
        }
    }
    Ok(())
}

/// Count a change on top of a total, and bound the result.
fn count_change(
    total: Weight,
    triangles: &Result<ZSet<Triple>, TriangleError>,
    baseline: bool,
    policy: QueryPolicy,
) -> (counted: Result<Weight, StandingQueryFailure>)
    ensures
        failure(counted) == change_fault(total@, *triangles, baseline, policy),
        counted is Ok ==> triangles->Ok_0.wf() && (baseline ==> triangles->Ok_0.positive()),
        counted is Ok ==> *triangles is Ok && counted->Ok_0@ == total@ + triangles->Ok_0.sum(),
{
    let change = match triangles {
        Ok(change) => change,
        Err(error) => return Err(input_error(*error)),
    };
    if !change.is_wf() || (baseline && !change.is_positive()) {
        return Err(StandingQueryFailure::InvalidDelta);
    }
    let sum: Weight = match change.total_weight() {
        Some(sum) => sum,
        None => return Err(StandingQueryFailure::Arithmetic),
    };
    match total.checked_add(sum) {
        Some(next) => match result_bound(next, policy) {
            Ok(()) => Ok(next),
            Err(error) => Err(error),
        },
        None => Err(StandingQueryFailure::Arithmetic),
    }
}

/// Whether the sum with a change fits everywhere.
fn check_sink(rows: &ZSet<Triple>, change: &ZSet<Triple>) -> (fit: bool)
    requires
        rows.wf(),
        change.wf(),
    ensures
        fit == rows.accepts(*change),
{
    let ghost entries = change.entries();
    let mut i: usize = 0;
    while i < change.len()
        invariant
            i <= entries.len(),
            entries == change.entries(),
            rows.wf(),
            change.wf(),
            forall|j: int|
                0 <= j < i ==> fits(rows.at((#[trigger] entries[j]).0) + entries[j].1@),
        decreases entries.len() - i,
    {
        let (triple, weight) = change.entry(i);
        proof {
            lemma_weight_at(entries, i as int);
        }
        if rows.weight(triple).checked_add(weight).is_none() {
            assert(!fits(rows.at(triple) + change.at(triple)));
            return false;
        }
        i += 1;
    }
    proof {
        assert forall|triple: Triple| fits(#[trigger] rows.at(triple) + change.at(triple)) by {
            if listed(entries, triple) {
                let j = choose|j: int| 0 <= j < entries.len() && (#[trigger] entries[j]).0 == triple;
                lemma_weight_at(entries, j);
            } else {
                rows.lemma_fits(triple);
            }
        }
    }
    true
}

/// How triangles take one commit in. The kernel is asked once, for the change of
/// this view by this commit.
pub open spec fn maintains_triangles(
    view: TriangleView,
    after: TriangleView,
    at: CommitSeq,
    change: TriangleChange,
    asked: Seq<KernelStep>,
    asked_after: Seq<KernelStep>,
    meter: Meter,
    meter_after: Meter,
    log: Seq<Event>,
    log_after: Seq<Event>,
    done: Result<(), StandingQueryFailure>,
) -> bool {
    if view.frontier != view.input_frontier {
        &&& failure(done) == Some(StandingQueryFailure::InvalidDelta)
        &&& after == view
        &&& asked_after == asked
        &&& meter_after == meter
        &&& log_after == log
    } else {
        &&& asked_after == asked.push(KernelStep::Change { view, at, change })
        &&& meters(
            meter,
            chain(maintain_parts(view, change, meter.policy)),
            meter_after,
            log,
            log_after,
            failure(done),
        )
        &&& match done {
            Ok(()) => change.triangles is Ok && view.changed(change.triangles->Ok_0, at, after),
            Err(_) => after == view,
        }
    }
}

impl TriangleView {
    /// Ask for the change of one commit, and take it in or nothing of it. A view that
    /// is out of step asks for nothing.
    pub fn maintain<K: ViewKernel, H: Host>(
        &mut self,
        at: CommitSeq,
        kernel: &mut KernelRecord<K>,
        meter: &mut Meter,
        session: &mut Session<H>,
    ) -> (done: Result<(), StandingQueryFailure>)
        requires
            old(self).wf(),
        ensures
            final(self).wf(),
            final(session).metered() == old(session).metered(),
            exists|change: TriangleChange| #[trigger]
                maintains_triangles(
                    *old(self),
                    *final(self),
                    at,
                    change,
                    old(kernel).asked(),
                    final(kernel).asked(),
                    *old(meter),
                    *final(meter),
                    old(session).log(),
                    final(session).log(),
                    done,
                ),
    {
        let ghost view = *self;
        let ghost before = *meter;
        let ghost start = session.log();
        let ghost asked = kernel.asked();
        if self.frontier != self.input_frontier {
            let refusal = Err(StandingQueryFailure::InvalidDelta);
            assert(maintains_triangles(
                view, *self, at, arbitrary(), asked, asked, before, before, start, start, refusal,
            ));
            return refusal;
        }
        let change = kernel.change(self, at);
        let done = self.take_change(at, &change, meter, session);
        assert(maintains_triangles(
            view, *self, at, change, asked, kernel.asked(), before, *meter, start, session.log(),
            done,
        ));
        done
    }

    /// Take the change of one commit in, or nothing of it.
    pub fn take_change<H: Host>(
        &mut self,
        at: CommitSeq,
        change: &TriangleChange,
        meter: &mut Meter,
        session: &mut Session<H>,
    ) -> (done: Result<(), StandingQueryFailure>)
        requires
            old(self).wf(),
        ensures
            final(self).wf(),
            final(session).metered() == old(session).metered(),
            meters(
                *old(meter),
                chain(maintain_parts(*old(self), *change, old(meter).policy)),
                *final(meter),
                old(session).log(),
                final(session).log(),
                failure(done),
            ),
            match done {
                Ok(()) => change.triangles is Ok && old(self).changed(
                    change.triangles->Ok_0,
                    at,
                    *final(self),
                ),
                Err(_) => *final(self) == *old(self),
            },
    {
        let ghost start = session.log();
        let ghost before = *meter;
        let ghost parts = maintain_parts(*self, *change, before.policy);
        proof {
            lemma_meters_nothing(before, start);
            let fault = if self.frontier == self.input_frontier {
                None
            } else {
                Some(StandingQueryFailure::InvalidDelta)
            };
            lemma_unless_fault(before, start, fault);
            lemma_part(before, parts, 0, before, before, start, start, start, fault);
        }
        if self.frontier != self.input_frontier {
            return Err(StandingQueryFailure::InvalidDelta);
        }
        let paid = meter.charge_all(&change.source, session);
        let ghost meter1 = *meter;
        let ghost log1 = session.log();
        proof {
            lemma_part(before, parts, 1, before, meter1, start, start, log1, failure(paid));
        }
        if let Err(error) = paid {
            return Err(error);
        }
        let paid = meter.charge_all(&change.input, session);
        let ghost meter2 = *meter;
        let ghost log2 = session.log();
        proof {
            lemma_part(before, parts, 2, meter1, meter2, start, log1, log2, failure(paid));
        }
        if let Err(error) = paid {
            return Err(error);
        }
        let counted = count_change(self.total, &change.triangles, false, meter.policy);
        proof {
            lemma_unless_fault(meter2, log2, failure(counted));
            lemma_part(before, parts, 3, meter2, meter2, start, log2, log2, failure(counted));
        }
        let next_total: Weight = match counted {
            Ok(next_total) => next_total,
            Err(error) => return Err(error),
        };
        let triangles = match &change.triangles {
            Ok(triangles) => triangles,
            Err(error) => return Err(input_error(*error)),
        };
        let paid = meter.charge_all(&change.sink, session);
        let ghost meter3 = *meter;
        let ghost log3 = session.log();
        proof {
            lemma_part(before, parts, 4, meter2, meter3, start, log2, log3, failure(paid));
        }
        if let Err(error) = paid {
            return Err(error);
        }
        proof {
            let fault = sink_fault(self.rows, *triangles);
            lemma_unless_fault(meter3, log3, fault);
            lemma_part(before, parts, 5, meter3, meter3, start, log3, log3, fault);
        }
        if !check_sink(&self.rows, triangles) {
            return Err(StandingQueryFailure::Arithmetic);
        }
        let settled = settle(&self.rows, triangles, meter, session);
        let ghost meter4 = *meter;
        let ghost log4 = session.log();
        proof {
            lemma_part(before, parts, 6, meter3, meter4, start, log3, log4, failure(settled));
        }
        if let Err(error) = settled {
            return Err(error);
        }
        let polled = meter.checkpoint(session);
        proof {
            lemma_part(
                before, parts, 7, meter4, meter4, start, log4, session.log(), failure(polled),
            );
        }
        if let Err(error) = polled {
            return Err(error);
        }
        self.rows.accumulate(triangles);
        self.total = next_total;
        self.input_frontier = at;
        Ok(())
    }

    /// Build a view from the current topology.
    pub fn from_snapshot<H: Host>(
        relation: RelationId,
        quantifier: TriangleQuantifier,
        frontier: CommitSeq,
        built: TriangleChange,
        meter: &mut Meter,
        session: &mut Session<H>,
    ) -> (view: Result<TriangleView, StandingQueryFailure>)
        ensures
            final(session).metered() == old(session).metered(),
            meters(
                *old(meter),
                chain(baseline_parts(built, old(meter).policy)),
                *final(meter),
                old(session).log(),
                final(session).log(),
                failure(view),
            ),
            match view {
                Ok(view) => {
                    &&& view.wf()
                    &&& view.relation == relation
                    &&& view.quantifier == quantifier
                    &&& view.frontier == frontier
                    &&& view.input_frontier == frontier
                    &&& view.policy == old(meter).policy
                    &&& view.stats == final(meter).stats
                    &&& view.failure is None
                    &&& built.triangles == Ok::<ZSet<Triple>, TriangleError>(view.rows)
                },
                Err(_) => true,
            },
    {
        let ghost start = session.log();
        let ghost before = *meter;
        let ghost parts = baseline_parts(built, before.policy);
        proof {
            lemma_meters_nothing(before, start);
        }
        let paid = meter.charge_all(&built.source, session);
        let ghost meter1 = *meter;
        let ghost log1 = session.log();
        proof {
            lemma_part(before, parts, 0, before, meter1, start, start, log1, failure(paid));
        }
        if let Err(error) = paid {
            return Err(error);
        }
        let paid = meter.charge_all(&built.input, session);
        let ghost meter2 = *meter;
        let ghost log2 = session.log();
        proof {
            lemma_part(before, parts, 1, meter1, meter2, start, log1, log2, failure(paid));
        }
        if let Err(error) = paid {
            return Err(error);
        }
        let counted = count_change(Weight::zero(), &built.triangles, true, meter.policy);
        proof {
            lemma_unless_fault(meter2, log2, failure(counted));
            lemma_part(before, parts, 2, meter2, meter2, start, log2, log2, failure(counted));
        }
        let total: Weight = match counted {
            Ok(total) => total,
            Err(error) => return Err(error),
        };
        let paid = meter.charge_all(&built.sink, session);
        let ghost meter3 = *meter;
        let ghost log3 = session.log();
        proof {
            lemma_part(before, parts, 3, meter2, meter3, start, log2, log3, failure(paid));
        }
        if let Err(error) = paid {
            return Err(error);
        }
        let polled = meter.checkpoint(session);
        proof {
            lemma_part(
                before, parts, 4, meter3, meter3, start, log3, session.log(), failure(polled),
            );
        }
        if let Err(error) = polled {
            return Err(error);
        }
        let rows = match built.triangles {
            Ok(rows) => rows,
            Err(error) => return Err(input_error(error)),
        };
        Ok(
            TriangleView {
                relation,
                quantifier,
                input_frontier: frontier,
                rows,
                total,
                policy: meter.policy,
                frontier,
                stats: meter.stats,
                failure: None,
            },
        )
    }
}

/// The edges of a relation between two vertices, in either direction.
pub open spec fn edges_between(
    database: Database,
    at: CommitSeq,
    relation: RelationId,
    pair: (VId, VId),
) -> Set<u128> {
    Set::new(
        |raw: u128|
            {
                &&& database.edge_at_spec(EId(raw), at) is Some
                &&& database.edge_at_spec(EId(raw), at)->0.entry.relation == relation
                &&& {
                    let entry = database.edge_at_spec(EId(raw), at)->0.entry;
                    (entry.src, entry.dst) == pair || (entry.dst, entry.src) == pair
                }
            },
    )
}

/// The weight of three corners in the undirected projection of a relation: none unless
/// they are in increasing order and every two of them share an edge; one of distinct
/// triangles, and of all triangles one for each choice of three edges.
pub open spec fn triangle_weight(
    database: Database,
    at: CommitSeq,
    relation: RelationId,
    quantifier: TriangleQuantifier,
    corners: Triple,
) -> int {
    let ab = edges_between(database, at, relation, (corners.a, corners.b)).len();
    let ac = edges_between(database, at, relation, (corners.a, corners.c)).len();
    let bc = edges_between(database, at, relation, (corners.b, corners.c)).len();
    if !(corners.a.0 < corners.b.0 < corners.c.0) || ab == 0 || ac == 0 || bc == 0 {
        0
    } else {
        match quantifier {
            TriangleQuantifier::Distinct => 1,
            TriangleQuantifier::All => (ab * ac * bc) as int,
        }
    }
}

/// The rows are the triangles of a relation at a commit.
pub open spec fn counts_triangles(
    rows: ZSet<Triple>,
    database: Database,
    at: CommitSeq,
    relation: RelationId,
    quantifier: TriangleQuantifier,
) -> bool {
    forall|corners: Triple| #[trigger]
        rows.at(corners) == triangle_weight(database, at, relation, quantifier, corners)
}

/// Where the kernel counted the triangles of a relation, a view lists each triangle
/// once, by its corners in increasing order, with its weight, and nothing else; its
/// total is the sum of the weights.
pub proof fn law_triangle_views_list_the_triangles(
    view: TriangleView,
    database: Database,
    at: CommitSeq,
)
    requires
        view.wf(),
        counts_triangles(view.rows, database, at, view.relation, view.quantifier),
    ensures
        forall|corners: Triple| #[trigger]
            listed(view.rows.entries(), corners) == (triangle_weight(
                database,
                at,
                view.relation,
                view.quantifier,
                corners,
            ) != 0),
        forall|i: int|
            0 <= i < view.rows.entries().len() ==> {
                let corners = (#[trigger] view.rows.entries()[i]).0;
                &&& corners.a.0 < corners.b.0 < corners.c.0
                &&& view.rows.entries()[i].1@ == triangle_weight(
                    database,
                    at,
                    view.relation,
                    view.quantifier,
                    corners,
                )
            },
        view.total@ == view.rows.sum(),
{
    let entries = view.rows.entries();
    assert forall|corners: Triple| #[trigger]
        listed(entries, corners) == (triangle_weight(
            database,
            at,
            view.relation,
            view.quantifier,
            corners,
        ) != 0) by {
        assert(view.rows.at(corners) == triangle_weight(
            database,
            at,
            view.relation,
            view.quantifier,
            corners,
        ));
        if listed(entries, corners) {
            let i = choose|i: int| 0 <= i < entries.len() && (#[trigger] entries[i]).0 == corners;
            lemma_weight_at(entries, i);
            assert(counted(entries[i].1));
        }
    }
    assert forall|i: int| 0 <= i < entries.len() implies {
        let corners = (#[trigger] entries[i]).0;
        &&& corners.a.0 < corners.b.0 < corners.c.0
        &&& entries[i].1@ == triangle_weight(
            database,
            at,
            view.relation,
            view.quantifier,
            corners,
        )
    } by {
        let corners = entries[i].0;
        lemma_weight_at(entries, i);
        assert(view.rows.at(corners) == triangle_weight(
            database,
            at,
            view.relation,
            view.quantifier,
            corners,
        ));
        assert(listed(entries, corners));
    }
}

/// A view of the triangles at one commit that takes in what a later topology changes
/// is a view of the triangles at the later commit.
pub proof fn law_maintained_triangles_are_the_triangles(
    view: TriangleView,
    after: TriangleView,
    change: ZSet<Triple>,
    before: (Database, CommitSeq),
    later: (Database, CommitSeq),
    at: CommitSeq,
)
    requires
        view.changed(change, at, after),
        counts_triangles(view.rows, before.0, before.1, view.relation, view.quantifier),
        forall|corners: Triple| #[trigger]
            change.at(corners) == triangle_weight(
                later.0,
                later.1,
                view.relation,
                view.quantifier,
                corners,
            ) - triangle_weight(before.0, before.1, view.relation, view.quantifier, corners),
    ensures
        counts_triangles(after.rows, later.0, later.1, after.relation, after.quantifier),
{
    assert forall|corners: Triple| #[trigger]
        after.rows.at(corners) == triangle_weight(
            later.0,
            later.1,
            view.relation,
            view.quantifier,
            corners,
        ) by {
        assert(after.rows.at(corners) == view.rows.at(corners) + change.at(corners));
        assert(view.rows.at(corners) == triangle_weight(
            before.0,
            before.1,
            view.relation,
            view.quantifier,
            corners,
        ));
    }
}

/// A view that takes the change between two topologies in ends where a view built from
/// the later topology starts: the same triangles, counted the same.
pub proof fn law_maintained_triangles_are_the_rebuilt_triangles(
    view: TriangleView,
    after: TriangleView,
    rebuilt: TriangleView,
    change: ZSet<Triple>,
    at: CommitSeq,
)
    requires
        after.wf(),
        rebuilt.wf(),
        view.changed(change, at, after),
        forall|triple: Triple| #[trigger]
            rebuilt.rows.at(triple) == view.rows.at(triple) + change.at(triple),
    ensures
        after.rows.entries() == rebuilt.rows.entries(),
        after.total@ == rebuilt.total@,
{
    assert forall|triple: Triple| #[trigger]
        weight_in(after.rows.entries(), triple) == weight_in(rebuilt.rows.entries(), triple) by {
        assert(after.rows.at(triple) == view.rows.at(triple) + change.at(triple));
        assert(rebuilt.rows.at(triple) == view.rows.at(triple) + change.at(triple));
    }
    lemma_determined(after.rows.entries(), rebuilt.rows.entries());
}

} // verus!
