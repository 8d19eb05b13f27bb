//! Window views: a finite ordered page over one maintained row bag.
//!
//! The row kernel orders the source's rows and selects the page. The view keeps
//! the page as ordered runs and as a bag, with its total, and derives the page's
//! change itself.

use vstd::prelude::*;
use crate::ids::CommitSeq;
use crate::plan::failure;
use crate::session::{Event, Host, Session};
use crate::standing::{
    chain, change_script, event_script, lemma_meters_nothing, lemma_part, lemma_unless_fault,
    meters, reserve_rows, unless_fault, Charge, Meter, Reserve, Shapes, StandingQueryFailure,
    StandingQueryStats, ZSetEvent,
};
use crate::standing_sets::GraphSetColumnType;
use crate::statement::{beyond, QueryPolicy};
use crate::weight::{fits, lemma_reach, reach, Weight};
use crate::zset::{listed, sum_of, weight_in, ZSet};

verus! {

/// Whether whole-row duplicates count.
#[derive(Clone, Copy, PartialEq, Eq, Structural, Debug)]
pub enum GraphSetQuantifier {
    All,
    Distinct,
}

/// One column of an order. NULL placement does not depend on the direction.
#[derive(Clone, Copy, PartialEq, Eq, Structural, Debug)]
pub struct GraphValueOrder {
    pub column: usize,
    pub descending: bool,
    pub nulls_first: bool,
}

/// What a window selects.
pub struct RowWindowSpec {
    pub input_types: Vec<GraphSetColumnType>,
    pub order: Vec<GraphValueOrder>,
    pub quantifier: GraphSetQuantifier,
    pub offset: u64,
    pub count: u64,
}

/// Why the row kernel could not select a page.
#[derive(Clone, Copy, PartialEq, Eq, Structural, Debug)]
pub enum RowWindowError {
    Delta(StandingQueryFailure),
    ResultBudget,
    InputSchema,
    NegativeMultiplicity,
}

/// The failure that a kernel error stands for.
pub open spec fn window_failure(error: RowWindowError) -> StandingQueryFailure {
    match error {
        RowWindowError::Delta(failure) => failure,
        RowWindowError::ResultBudget => StandingQueryFailure::ResultBudget,
        RowWindowError::InputSchema => StandingQueryFailure::InvalidDelta,
        RowWindowError::NegativeMultiplicity => StandingQueryFailure::InvalidDelta,
    }
}

/// The failure that a kernel error stands for.
pub fn window_error(error: RowWindowError) -> (failure: StandingQueryFailure)
    ensures
        failure == window_failure(error),
{
    match error {
        RowWindowError::Delta(failure) => failure,
        RowWindowError::ResultBudget => StandingQueryFailure::ResultBudget,
        RowWindowError::InputSchema => StandingQueryFailure::InvalidDelta,
        RowWindowError::NegativeMultiplicity => StandingQueryFailure::InvalidDelta,
    }
}

/// What the row kernel answers: the ordered runs of the page, and what it charges
/// for selecting them and for the bag.
pub struct RowWindowPage {
    pub runs: Result<Vec<(u128, Weight)>, RowWindowError>,
    pub input: Vec<ZSetEvent>,
    pub sink: Vec<ZSetEvent>,
}

/// A maintained window.
pub struct WindowView {
    pub input: usize,
    pub columns: Vec<String>,
    pub spec: RowWindowSpec,
    pub ordered: Vec<(u128, Weight)>,
    pub total: Weight,
    pub rows: ZSet<u128>,
    pub last_delta: Option<ZSet<u128>>,
    pub policy: QueryPolicy,
    pub frontier: CommitSeq,
    pub stats: StandingQueryStats,
    pub failure: Option<StandingQueryFailure>,
}

/// No row has two runs, and no run is empty.
pub open spec fn is_page(runs: Seq<(u128, Weight)>) -> bool {
    &&& forall|i: int| 0 <= i < runs.len() ==> (#[trigger] runs[i]).1@ > 0
    &&& forall|i: int, j: int|
        0 <= i < j < runs.len() ==> (#[trigger] runs[i]).0 != (#[trigger] runs[j]).0
}

/// The bag holds the rows of the runs.
pub open spec fn holds(bag: ZSet<u128>, runs: Seq<(u128, Weight)>) -> bool {
    forall|row: u128| #[trigger] bag.at(row) == weight_in(runs, row)
}

/// Why a page is refused.
pub open spec fn page_fault(
    runs: Result<Vec<(u128, Weight)>, RowWindowError>,
    policy: QueryPolicy,
) -> Option<StandingQueryFailure> {
    match runs {
        Err(error) => Some(window_failure(error)),
        Ok(runs) => if !is_page(runs@) {
            Some(StandingQueryFailure::InvalidDelta)
        } else if beyond(sum_of(runs@), policy.max_result_rows) {
            Some(StandingQueryFailure::ResultBudget)
        } else if !fits(sum_of(runs@)) {
            Some(StandingQueryFailure::Arithmetic)
        } else {
            None
        },
    }
}

/// What happens before the page's change is known.
pub open spec fn page_parts(page: RowWindowPage, policy: QueryPolicy) -> Seq<Seq<Charge>> {
    seq![event_script(page.input@), unless_fault(page_fault(page.runs, policy))]
}

/// What happens once the page's change is known.
pub open spec fn bag_parts(page: RowWindowPage, delta: ZSet<u128>, shapes: Shapes) -> Seq<
    Seq<Charge>,
> {
    seq![
        change_script(shapes, delta, Reserve { work: false, twice: true }),
        event_script(page.sink@),
        seq![Charge::Poll],
    ]
}

impl WindowView {
    pub open spec fn wf(&self) -> bool {
        &&& self.rows.wf()
        &&& is_page(self.ordered@)
        &&& holds(self.rows, self.ordered@)
        &&& self.rows.sum() == sum_of(self.ordered@)
        &&& self.total@ == sum_of(self.ordered@)
        &&& match self.last_delta {
            Some(delta) => delta.wf(),
            None => true,
        }
    }

    /// The view over another page.
    pub open spec fn repaged(&self, runs: Seq<(u128, Weight)>, delta: ZSet<u128>, after: WindowView) -> bool {
        &&& after.input == self.input
        &&& after.columns == self.columns
        &&& after.spec == self.spec
        &&& after.policy == self.policy
        &&& after.frontier == self.frontier
        &&& after.stats == self.stats
        &&& after.failure == self.failure
        &&& after.ordered@ == runs
        &&& after.total@ == sum_of(runs)
        &&& holds(after.rows, runs)
        &&& after.last_delta == Some(delta)
    }

    /// The page's change.
    pub open spec fn turns(&self, runs: Seq<(u128, Weight)>, delta: ZSet<u128>) -> bool {
        &&& delta.wf()
        &&& forall|row: u128| #[trigger]
            delta.at(row) == weight_in(runs, row) - self.rows.at(row)
    }
}

/// How a page is taken in: refused, or its change is derived and paid for. The
/// ordered page, the bag, the total and the latest change move together.
pub open spec fn applies_page(
    view: WindowView,
    after: WindowView,
    page: RowWindowPage,
    shapes: Shapes,
    meter: Meter,
    meter_after: Meter,
    log: Seq<Event>,
    log_after: Seq<Event>,
    done: Result<(), StandingQueryFailure>,
) -> bool {
    let lead = chain(page_parts(page, meter.policy));
    ||| done is Err && after == view && meters(
        meter,
        lead,
        meter_after,
        log,
        log_after,
        failure(done),
    )
    ||| exists|delta: ZSet<u128>, middle: Meter, log_middle: Seq<Event>|
        #![trigger view.turns(page.runs->Ok_0@, delta), meters(meter, lead, middle, log, log_middle, None)]
        {
            &&& page_fault(page.runs, meter.policy) is None
            &&& view.turns(page.runs->Ok_0@, delta)
            &&& meters(meter, lead, middle, log, log_middle, None)
            &&& meters(
                middle,
                chain(bag_parts(page, delta, shapes)),
                meter_after,
                log_middle,
                log_after,
                failure(done),
            )
            &&& match done {
                Ok(()) => view.repaged(page.runs->Ok_0@, delta, after),
                Err(_) => after == view,
            }
        }
}

/// A run at the end of a page that has no other run of its row.
proof fn lemma_run_push(runs: Seq<(u128, Weight)>, n: int)
    requires
        0 <= n < runs.len(),
        is_page(runs.take(n + 1)),
    ensures
        forall|row: u128| #[trigger]
            weight_in(runs.take(n + 1), row) == (if row == runs[n].0 {
                runs[n].1@
            } else {
                weight_in(runs.take(n), row)
            }),
{
    let before = runs.take(n);
    let after = runs.take(n + 1);
    assert forall|row: u128| #[trigger]
        weight_in(after, row) == (if row == runs[n].0 {
            runs[n].1@
        } else {
            weight_in(before, row)
        }) by {
        if row == runs[n].0 {
            assert(after[n].0 == row);
            let i = choose|i: int| 0 <= i < after.len() && (#[trigger] after[i]).0 == row;
            if i < n {
                assert(after[i].0 != after[n].0);
            }
        } else if listed(before, row) {
            let i = choose|i: int| 0 <= i < before.len() && (#[trigger] before[i]).0 == row;
            assert(after[i].0 == row);
            let j = choose|j: int| 0 <= j < after.len() && (#[trigger] after[j]).0 == row;
            if i < j {
                assert(after[i].0 != after[j].0);
            }
            if j < i {
                assert(after[j].0 != after[i].0);
            }
        } else if listed(after, row) {
            let i = choose|i: int| 0 <= i < after.len() && (#[trigger] after[i]).0 == row;
            assert(before[i].0 == row);
        }
    }
}

proof fn lemma_page_sums(runs: Seq<(u128, Weight)>, n: int)
    requires
        0 <= n <= runs.len(),
        forall|i: int| 0 <= i < runs.len() ==> (#[trigger] runs[i]).1@ > 0,
    ensures
        0 <= sum_of(runs.take(n)) <= sum_of(runs),
    decreases runs.len(),
{
    if n < runs.len() {
        lemma_page_sums(runs.drop_last(), n);
        assert(runs.drop_last().take(n) =~= runs.take(n));
    } else {
        assert(runs.take(n) =~= runs);
        if n > 0 {
            lemma_page_sums(runs.drop_last(), n - 1);
            assert(runs.drop_last().take(n - 1) =~= runs.drop_last());
        }
    }
}

/// The bag of a page, unless the runs are no page.
fn gather(runs: &Vec<(u128, Weight)>) -> (bag: Option<ZSet<u128>>)
    ensures
        match bag {
            Some(bag) => bag.wf() && is_page(runs@) && holds(bag, runs@) && bag.sum() == sum_of(
                runs@,
            ),
            None => !is_page(runs@),
        },
{
    let mut bag: ZSet<u128> = ZSet::new();
    let mut i: usize = 0;
    proof {
        assert(runs@.take(0) =~= Seq::<(u128, Weight)>::empty());
    }
    while i < runs.len()
        invariant
            i <= runs.len(),
            bag.wf(),
            is_page(runs@.take(i as int)),
            holds(bag, runs@.take(i as int)),
            bag.sum() == sum_of(runs@.take(i as int)),
        decreases runs.len() - i,
    {
        let (row, weight) = runs[i];
        let ghost seen = runs@.take(i as int);
        let ghost next = runs@.take(i + 1);
        if weight.is_zero() || weight.is_negative() {
            assert(runs@[i as int].1@ <= 0);
            return None;
        }
        let known: Weight = bag.weight(row);
        if !known.is_zero() {
            proof {
                assert(listed(seen, row));
                let j = choose|j: int| 0 <= j < seen.len() && (#[trigger] seen[j]).0 == row;
                assert(runs@[j].0 == runs@[i as int].0);
            }
            return None;
        }
        proof {
            assert(bag.at(row) == 0);
            assert forall|j: int| 0 <= j < i implies (#[trigger] runs@[j]).0 != row by {
                if runs@[j].0 == row {
                    assert(seen[j].0 == row);
                    let k = choose|k: int| 0 <= k < seen.len() && (#[trigger] seen[k]).0 == row;
                    assert(seen[k].1@ > 0);
                }
            }
            assert(is_page(next)) by {
                assert forall|a: int, b: int| 0 <= a < b < next.len() implies (#[trigger] next[a]).0
                    != (#[trigger] next[b]).0 by {
                    if b < i {
                        assert(seen[a].0 != seen[b].0);
                    } else {
                        assert(runs@[a].0 != row);
                    }
                }
                assert forall|a: int| 0 <= a < next.len() implies (#[trigger] next[a]).1@ > 0 by {
                    if a < i {
                        assert(seen[a].1@ > 0);
                    }
                }
            }
            lemma_run_push(runs@, i as int);
            assert(next.drop_last() =~= seen);
            weight.lemma_range();
        }
        bag.assign(row, weight);
        i += 1;
    }
    proof {
        assert(runs@.take(i as int) =~= runs@);
    }
    Some(bag)
}

/// The total of a page, unless it does not fit.
fn page_total(runs: &Vec<(u128, Weight)>) -> (total: Option<Weight>)
    requires
        is_page(runs@),
    ensures
        match total {
            Some(total) => total@ == sum_of(runs@) && fits(total@),
            None => sum_of(runs@) >= reach(),
        },
{
    let mut total: Weight = Weight::zero();
    let mut i: usize = 0;
    proof {
        lemma_reach();
        assert(runs@.take(0) =~= Seq::<(u128, Weight)>::empty());
    }
    while i < runs.len()
        invariant
            i <= runs.len(),
            is_page(runs@),
            0 <= total@,
            fits(total@),
            total@ == sum_of(runs@.take(i as int)),
        decreases runs.len() - i,
    {
        proof {
            assert(runs@.take(i + 1).drop_last() =~= runs@.take(i as int));
            assert(runs@[i as int].1@ > 0);
            lemma_page_sums(runs@, i + 1);
        }
        match total.checked_add(runs[i].1) {
            Some(next) => {
                total = next;
            },
            None => return None,
        }
        i += 1;
    }
    proof {
        assert(runs@.take(i as int) =~= runs@);
    }
    Some(total)
}

fn copy_runs(runs: &Vec<(u128, Weight)>) -> (copy: Vec<(u128, Weight)>)
    ensures
        copy@ == runs@,
{
    let mut copy: Vec<(u128, Weight)> = Vec::new();
    let mut i: usize = 0;
    while i < runs.len()
        invariant
            i <= runs.len(),
            copy@ == runs@.take(i as int),
        decreases runs.len() - i,
    {
        copy.push(runs[i]);
        proof {
            assert(copy@ =~= runs@.take(i + 1));
        }
        i += 1;
    }
    proof {
        assert(copy@ =~= runs@);
    }
    copy
}

proof fn lemma_page_positive(bag: ZSet<u128>, runs: Seq<(u128, Weight)>)
    requires
        is_page(runs),
        holds(bag, runs),
    ensures
        bag.positive(),
{
    assert forall|row: u128| #[trigger] bag.at(row) >= 0 by {
        if listed(runs, row) {
            let i = choose|i: int| 0 <= i < runs.len() && (#[trigger] runs[i]).0 == row;
            assert(runs[i].1@ > 0);
        }
    }
}

impl WindowView {
    /// Take the page that the row kernel selected in.
    pub fn apply<H: Host>(
        &mut self,
        page: &RowWindowPage,
        shapes: &Shapes,
        meter: &mut Meter,
        session: &mut Session<H>,
    ) -> (done: Result<(), StandingQueryFailure>)
        requires
            old(self).wf(),
            shapes.wf(),
        ensures
            final(self).wf(),
            final(session).metered() == old(session).metered(),
            final(meter).policy == old(meter).policy,
            applies_page(
                *old(self),
                *final(self),
                *page,
                *shapes,
                *old(meter),
                *final(meter),
                old(session).log(),
                final(session).log(),
                done,
            ),
    {
        let ghost start = session.log();
        let ghost before = *meter;
        let ghost parts = page_parts(*page, before.policy);
        proof {
            lemma_meters_nothing(before, start);
        }
        let paid = meter.charge_all(&page.input, session);
        let ghost meter1 = *meter;
        let ghost log1 = session.log();
        proof {
            lemma_part(before, parts, 0, before, meter1, start, start, log1, failure(paid));
        }
        if let Err(error) = paid {
            return Err(error);
        }
        proof {
            let fault = page_fault(page.runs, before.policy);
            lemma_unless_fault(meter1, log1, fault);
            lemma_part(before, parts, 1, meter1, meter1, start, log1, log1, fault);
        }
        let runs = match &page.runs {
            Ok(runs) => runs,
            Err(error) => return Err(window_error(*error)),
        };
        let bag = match gather(runs) {
            Some(bag) => bag,
            None => return Err(StandingQueryFailure::InvalidDelta),
        };
        proof {
            lemma_reach();
        }
        let total: Weight = match page_total(runs) {
            Some(total) => total,
            None => return Err(
                if meter.policy.max_result_rows.is_some() {
                    StandingQueryFailure::ResultBudget
                } else {
                    StandingQueryFailure::Arithmetic
                },
            ),
        };
        if total.is_beyond(meter.policy.max_result_rows) {
            return Err(StandingQueryFailure::ResultBudget);
        }
        proof {
            lemma_page_positive(bag, runs@);
            lemma_page_positive(self.rows, self.ordered@);
        }
        let delta = bag.change_from(&self.rows);
        assert(self.turns(runs@, delta));
        assert(meters(before, chain(parts), meter1, start, log1, None));
        let ghost tail = bag_parts(*page, delta, *shapes);
        proof {
            lemma_meters_nothing(meter1, log1);
        }
        let paid = reserve_rows(shapes, &delta, Reserve { work: false, twice: true }, meter, session);
        let ghost meter2 = *meter;
        let ghost log2 = session.log();
        proof {
            lemma_part(meter1, tail, 0, meter1, meter2, log1, log1, log2, failure(paid));
        }
        if let Err(error) = paid {
            return Err(error);
        }
        let paid = meter.charge_all(&page.sink, session);
        let ghost meter3 = *meter;
        let ghost log3 = session.log();
        proof {
            lemma_part(meter1, tail, 1, meter2, meter3, log1, log2, log3, failure(paid));
        }
        if let Err(error) = paid {
            return Err(error);
        }
        let polled = meter.checkpoint(session);
        proof {
            lemma_part(meter1, tail, 2, meter3, meter3, log1, log3, session.log(), failure(polled));
        }
        if let Err(error) = polled {
            return Err(error);
        }
        self.ordered = copy_runs(runs);
        self.total = total;
        self.rows = bag;
        self.last_delta = Some(delta);
        Ok(())
    }
}

} // verus!
