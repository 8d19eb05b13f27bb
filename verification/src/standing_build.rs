//! Building and maintaining standing views: schema admission, baselines, and the
//! step from one commit to the next.

use vstd::prelude::*;
use vstd::utf8::encode_utf8;
use crate::database::{frontier_of, Database};
use crate::ids::CommitSeq;
use crate::plan::{
    ask, demand, failure, lemma_obeys_ask, lemma_obeys_nothing, lemma_obeys_stop, lemma_step, obeys,
    upto, whole, Plan,
};
use crate::script::{lemma_prefix_concat, lemma_prefix_transitive};
use crate::session::{Event, Host, Request, Session};
use crate::standing::{
    chain, lemma_meters_failed, lemma_meters_nothing, lemma_meters_then, lemma_part,
    lemma_unless_fault, meters, unless_fault, work_unit, Charge, Meter, Shapes,
    StandingQueryFailure, StandingQueryStats, ZSetEvent,
};
use crate::standing_registry::{
    column_type, columns, operand_at, operand_fault, query_stopped, refuse, rows, GraphSetBuildError,
    StandingQuery, StandingQueryError,
};
use crate::standing_sets::{
    combined, prepares_set, GraphSetColumnType, KernelEvents, SetOperation, SetUpdate, SetView,
};
use crate::statement::{beyond, is_beyond, QueryPolicy};
use crate::weight::Weight;
use crate::zset::ZSet;

verus! {

/// A meter that has counted nothing.
pub open spec fn fresh(policy: QueryPolicy) -> Meter {
    Meter {
        policy,
        stats: StandingQueryStats { delta_rows: 0, work_units: 0, scratch_entries: 0 },
    }
}

/// The room for a column name: `base` entries, and one for each begun block of
/// bytes.
pub open spec fn name_units(name: String, base: u64) -> int {
    let bytes = encode_utf8(name@).len() as usize;
    base + bytes / 64 + if bytes % 64 == 0 {
        0int
    } else {
        1int
    }
}

/// What copying the first `n` column names costs.
pub open spec fn names_script(names: Seq<String>, n: int, base: u64) -> Seq<Charge>
    decreases n,
{
    if n <= 0 {
        Seq::empty()
    } else {
        names_script(names, n - 1, base) + work_unit() + seq![
            Charge::Units(ZSetEvent::ScratchEntry, name_units(names[n - 1], base) as u64),
        ]
    }
}

pub proof fn lemma_names_prefix(names: Seq<String>, n: int, m: int, base: u64)
    requires
        0 <= n <= m,
    ensures
        names_script(names, n, base).is_prefix_of(names_script(names, m, base)),
    decreases m - n,
{
    let script = names_script(names, m, base);
    if n < m {
        lemma_names_prefix(names, n, m - 1, base);
        let earlier = names_script(names, m - 1, base);
        assert(script =~= earlier + script.skip(earlier.len() as int));
        lemma_prefix_concat(earlier, script.skip(earlier.len() as int));
        lemma_prefix_transitive(names_script(names, n, base), earlier, script);
    } else {
        assert(script =~= script.subrange(0, script.len() as int));
    }
}

/// Both lists have the same domain for a column.
pub open spec fn agrees(
    left: Seq<GraphSetColumnType>,
    right: Seq<GraphSetColumnType>,
    column: int,
) -> bool {
    column < left.len() && column < right.len() && left[column] == right[column]
}

/// The column at which two lists of domains first differ, or `len`.
pub open spec fn first_mismatch(
    left: Seq<GraphSetColumnType>,
    right: Seq<GraphSetColumnType>,
    from: int,
    len: int,
) -> int
    decreases len - from,
{
    if from >= len {
        len
    } else if agrees(left, right, from) {
        first_mismatch(left, right, from + 1, len)
    } else {
        from
    }
}

pub proof fn lemma_first_mismatch(
    left: Seq<GraphSetColumnType>,
    right: Seq<GraphSetColumnType>,
    from: int,
    at: int,
    len: int,
)
    requires
        0 <= from <= at <= len,
        forall|c: int| from <= c < at ==> #[trigger] agrees(left, right, c),
    ensures
        first_mismatch(left, right, from, len) == first_mismatch(left, right, at, len),
    decreases at - from,
{
    if from < at {
        assert(agrees(left, right, from));
        lemma_first_mismatch(left, right, from + 1, at, len);
    }
}

/// The refusal of a column whose domains differ.
pub open spec fn mismatch_error(
    left: Seq<GraphSetColumnType>,
    right: Seq<GraphSetColumnType>,
    column: int,
) -> StandingQueryError {
    if column < left.len() && column < right.len() {
        StandingQueryError::SetSchema(
            GraphSetBuildError::ColumnType {
                column: column as usize,
                left: left[column],
                right: right[column],
            },
        )
    } else {
        StandingQueryError::Unsupported
    }
}

/// Why two operands do not compose, beyond their column counts.
pub open spec fn schema_error(left: StandingQuery, right: StandingQuery) -> Option<
    StandingQueryError,
> {
    let len = left.names()->0.len() as int;
    let at = first_mismatch(left.types(), right.types(), 0, len);
    if at < len {
        Some(mismatch_error(left.types(), right.types(), at))
    } else {
        None
    }
}

/// What admitting the columns of two operands costs: each column is paid for as it
/// is compared and copied, up to the first that differs.
pub open spec fn schema_script(left: StandingQuery, right: StandingQuery) -> Seq<Charge> {
    let names = left.names()->0;
    let len = names.len() as int;
    let at = first_mismatch(left.types(), right.types(), 0, len);
    names_script(names, at, 2) + if at < len {
        work_unit()
    } else {
        Seq::empty()
    }
}

/// The room for one column name.
fn measure_name(name: &String, base: u64) -> (units: u64)
    requires
        base <= 2,
    ensures
        units == name_units(*name, base),
{
    let bytes: usize = name.as_str().len();
    base + (bytes / 64) as u64 + if bytes % 64 == 0 { 0u64 } else { 1u64 }
}

/// Pay for and copy one column name.
pub fn copy_name<H: Host>(name: &String, base: u64, meter: &mut Meter, session: &mut Session<H>) -> (copy:
    Result<String, StandingQueryFailure>)
    requires
        base <= 2,
    ensures
        final(session).metered() == old(session).metered(),
        meters(
            *old(meter),
            seq![Charge::Units(ZSetEvent::ScratchEntry, name_units(*name, base) as u64)],
            *final(meter),
            old(session).log(),
            final(session).log(),
            failure(copy),
        ),
        copy is Ok ==> copy->Ok_0 == *name,
{
    match meter.units(ZSetEvent::ScratchEntry, measure_name(name, base), session) {
        Ok(()) => Ok(name.clone()),
        Err(error) => Err(error),
    }
}

/// The admitted columns of two operands: names from the left, domains from both.
pub struct Columns {
    pub names: Vec<String>,
    pub types: Vec<GraphSetColumnType>,
}

/// Compare, pay for and copy the columns of two operands.
fn admit_columns<H: Host>(
    left: &StandingQuery,
    right: &StandingQuery,
    names: &Vec<String>,
    meter: &mut Meter,
    session: &mut Session<H>,
) -> (admitted: Result<Result<Columns, StandingQueryError>, StandingQueryFailure>)
    requires
        left.names() == Some(names@),
    ensures
        final(session).metered() == old(session).metered(),
        meters(
            *old(meter),
            schema_script(*left, *right),
            *final(meter),
            old(session).log(),
            final(session).log(),
            failure(admitted),
        ),
        admitted is Ok ==> failure(admitted->Ok_0) == schema_error(*left, *right),
        admitted is Ok && admitted->Ok_0 is Ok ==> {
            let columns = admitted->Ok_0->Ok_0;
            &&& columns.names@ == names@
            &&& columns.types@ == left.types().take(names@.len() as int)
            &&& names@.len() <= left.types().len()
        },
{
    let ghost start = session.log();
    let ghost before = *meter;
    let ghost lt = left.types();
    let ghost rt = right.types();
    let ghost len = names@.len() as int;
    let ghost full = schema_script(*left, *right);
    let mut found = Columns { names: Vec::new(), types: Vec::new() };
    let mut column: usize = 0;
    proof {
        lemma_meters_nothing(before, start);
    }
    while column < names.len()
        invariant
            column <= len,
            len == names@.len(),
            left.names() == Some(names@),
            lt == left.types(),
            rt == right.types(),
            full == schema_script(*left, *right),
            session.metered() == old(session).metered(),
            start == old(session).log(),
            before == *old(meter),
            meters(
                before,
                names_script(names@, column as int, 2),
                *meter,
                start,
                session.log(),
                None,
            ),
            forall|c: int| 0 <= c < column ==> #[trigger] agrees(lt, rt, c),
            column <= lt.len(),
            found.names@ == names@.take(column as int),
            found.types@ == lt.take(column as int),
        decreases len - column,
    {
        let ghost seen = names_script(names@, column as int, 2);
        let ghost here = *meter;
        let ghost here_log = session.log();
        let ghost at = first_mismatch(lt, rt, 0, len);
        proof {
            lemma_first_mismatch(lt, rt, 0, column as int, len);
            lemma_mismatch_bounds(lt, rt, column as int, len);
            assert(column <= at <= len);
        }
        let paid = meter.charge(ZSetEvent::Work, session);
        let ghost paid_meter = *meter;
        let ghost paid_log = session.log();
        proof {
            lemma_meters_then(
                before, seen, here, work_unit(), paid_meter, start, here_log, paid_log,
                failure(paid),
            );
            if at == column {
                assert(full == seen + work_unit());
                assert(full =~= full.subrange(0, full.len() as int));
            } else {
                let next = names_script(names@, column + 1, 2);
                assert(next =~= (seen + work_unit()) + next.skip((seen + work_unit()).len() as int));
                lemma_prefix_concat(
                    seen + work_unit(),
                    next.skip((seen + work_unit()).len() as int),
                );
                lemma_names_prefix(names@, column + 1, at, 2);
                lemma_prefix_concat(
                    names_script(names@, at, 2),
                    if at < len {
                        work_unit()
                    } else {
                        Seq::empty()
                    },
                );
                lemma_prefix_transitive(next, names_script(names@, at, 2), full);
                lemma_prefix_transitive(seen + work_unit(), next, full);
            }
        }
        if let Err(error) = paid {
            proof {
                lemma_meters_failed(
                    before, seen + work_unit(), full, paid_meter, start, paid_log, Some(error),
                );
            }
            return Err(error);
        }
        let (l, r) = match (column_type(left, column), column_type(right, column)) {
            (Some(l), Some(r)) => (l, r),
            _ => {
                return Ok(Err(StandingQueryError::Unsupported));
            },
        };
        if l != r {
            return Ok(
                Err(
                    StandingQueryError::SetSchema(
                        GraphSetBuildError::ColumnType { column, left: l, right: r },
                    ),
                ),
            );
        }
        let copied = copy_name(&names[column], 2, meter, session);
        let ghost unit = seq![
            Charge::Units(ZSetEvent::ScratchEntry, name_units(names@[column as int], 2) as u64),
        ];
        proof {
            lemma_meters_then(
                before, seen + work_unit(), paid_meter, unit, *meter, start, paid_log,
                session.log(), failure(copied),
            );
            assert(names_script(names@, column + 1, 2) == seen + work_unit() + unit);
            assert(agrees(lt, rt, column as int));
            lemma_mismatch_bounds(lt, rt, column + 1, len);
            assert(at != column);
        }
        match copied {
            Err(error) => {
                proof {
                    lemma_meters_failed(
                        before, names_script(names@, column + 1, 2), full, *meter, start,
                        session.log(), Some(error),
                    );
                }
                return Err(error);
            },
            Ok(name) => {
                found.names.push(name);
                found.types.push(l);
            },
        }
        proof {
            assert(found.names@ =~= names@.take(column + 1));
            assert(found.types@ =~= lt.take(column + 1));
        }
        column += 1;
    }
    proof {
        lemma_first_mismatch(lt, rt, 0, len, len);
        assert(names_script(names@, len, 2) + Seq::<Charge>::empty() =~= names_script(
            names@,
            len,
            2,
        ));
        assert(found.names@ =~= names@);
    }
    Ok(Ok(found))
}

pub proof fn lemma_mismatch_bounds(
    left: Seq<GraphSetColumnType>,
    right: Seq<GraphSetColumnType>,
    from: int,
    len: int,
)
    requires
        0 <= from <= len,
    ensures
        from <= first_mismatch(left, right, from, len) <= len,
    decreases len - from,
{
    if from < len {
        lemma_mismatch_bounds(left, right, from + 1, len);
    }
}

/// The refusal of a handle that is not healthy.
pub open spec fn read_error(database: Database) -> Option<StandingQueryError> {
    match frontier_of(database.state) {
        Ok(_) => None,
        Err(error) => Some(StandingQueryError::Read(error)),
    }
}

/// A failed dependency as a refusal.
pub open spec fn dependency_error(fault: Option<StandingQueryFailure>) -> Option<
    StandingQueryError,
> {
    match fault {
        Some(failure) => Some(StandingQueryError::Maintenance(failure)),
        None => None,
    }
}

/// The refusal of two operands of different widths.
pub open spec fn width_error(left: StandingQuery, right: StandingQuery) -> Option<
    StandingQueryError,
> {
    let l = left.names()->0.len();
    let r = right.names()->0.len();
    if l != r {
        Some(
            StandingQueryError::SetSchema(
                GraphSetBuildError::ColumnCount { left: l as usize, right: r as usize },
            ),
        )
    } else {
        None
    }
}

/// The current snapshot.
pub open spec fn current(database: Database) -> CommitSeq {
    CommitSeq(database.tip() as u64)
}

/// What must hold before a set view is built over two registered operands.
pub open spec fn set_gate(database: Database, left: usize, right: usize, before: usize) -> Seq<
    Plan<StandingQueryError>,
> {
    let sources = database.standing@;
    let at = current(database);
    seq![
        ask(seq![Request::PollQuery]),
        refuse(read_error(database)),
        demand(before <= sources.len(), StandingQueryError::UnknownHandle),
        refuse(dependency_error(operand_fault(sources, before as int, left as int, at))),
        refuse(dependency_error(operand_fault(sources, before as int, right as int, at))),
        refuse(width_error(sources[left as int], sources[right as int])),
    ]
}

/// The refusal of too many source rows: the compressed rows of both operands, a
/// shared operand twice.
pub open spec fn snapshot_fault(records: nat, policy: QueryPolicy) -> Option<
    StandingQueryFailure,
> {
    if beyond(records as int, policy.max_snapshot_records) {
        Some(StandingQueryFailure::SnapshotBudget)
    } else {
        None
    }
}

/// What admitting two operands costs before their rows are read.
pub open spec fn operand_parts(left: StandingQuery, right: StandingQuery, policy: QueryPolicy) -> Seq<
    Seq<Charge>,
> {
    if schema_error(left, right) is Some {
        seq![schema_script(left, right)]
    } else {
        seq![
            schema_script(left, right),
            unless_fault(
                snapshot_fault(
                    left.bag()->0.entries().len() + right.bag()->0.entries().len(),
                    policy,
                ),
            ),
            seq![Charge::Units(ZSetEvent::ScratchEntry, 1)],
        ]
    }
}

/// A view with no rows yet.
pub open spec fn empty_set_view(
    view: SetView,
    left_input: usize,
    right_input: usize,
    left: StandingQuery,
    operation: SetOperation,
    policy: QueryPolicy,
    at: CommitSeq,
) -> bool {
    &&& view.wf()
    &&& view.left_input == left_input
    &&& view.right_input == right_input
    &&& view.columns@ == left.names()->0
    &&& view.types@ == left.types().take(left.names()->0.len() as int)
    &&& view.operation == operation
    &&& view.total@ == 0
    &&& view.last_delta is None
    &&& view.policy == policy
    &&& view.frontier == at
    &&& view.failure is None
    &&& forall|row: u128| #[trigger] view.left.at(row) == 0
    &&& forall|row: u128| #[trigger] view.right.at(row) == 0
}

/// A baseline: the operands' current rows, combined. It is no successor of
/// anything.
pub open spec fn set_baseline(
    view: SetView,
    empty: SetView,
    left: StandingQuery,
    right: StandingQuery,
    stats: StandingQueryStats,
) -> bool {
    &&& view.wf()
    &&& view.left_input == empty.left_input
    &&& view.right_input == empty.right_input
    &&& view.columns == empty.columns
    &&& view.types == empty.types
    &&& view.operation == empty.operation
    &&& view.policy == empty.policy
    &&& view.frontier == empty.frontier
    &&& view.failure is None
    &&& view.last_delta is None
    &&& view.stats == stats
    &&& forall|row: u128| #[trigger] view.left.at(row) == left.bag()->0.at(row)
    &&& forall|row: u128| #[trigger] view.right.at(row) == right.bag()->0.at(row)
}

/// How a set view is built once its operands are known.
pub open spec fn fills_set(
    left_input: usize,
    right_input: usize,
    left: StandingQuery,
    right: StandingQuery,
    operation: SetOperation,
    policy: QueryPolicy,
    at: CommitSeq,
    shapes: Shapes,
    kernel: KernelEvents,
    log: Seq<Event>,
    log_after: Seq<Event>,
    built: Result<SetView, StandingQueryError>,
) -> bool {
    let script = chain(operand_parts(left, right, policy));
    ||| exists|spent: Meter, stop: StandingQueryFailure| #[trigger]
        meters(fresh(policy), script, spent, log, log_after, Some(stop)) && built == Err::<
            SetView,
            StandingQueryError,
        >(StandingQueryError::Maintenance(stop))
    ||| schema_error(left, right) is Some && exists|spent: Meter| #[trigger]
        meters(fresh(policy), script, spent, log, log_after, None) && failure(built)
            == schema_error(left, right)
    ||| schema_error(left, right) is None && exists|
        empty: SetView,
        admitted: Meter,
        spent: Meter,
        middle: Seq<Event>,
        prepared: Result<SetUpdate, StandingQueryFailure>,
    |
        {
            &&& #[trigger] meters(fresh(policy), script, admitted, log, middle, None)
            &&& empty_set_view(empty, left_input, right_input, left, operation, policy, at)
            &&& #[trigger] prepares_set(
                empty,
                left.bag()->0,
                right.bag()->0,
                shapes,
                kernel,
                admitted,
                spent,
                middle,
                log_after,
                prepared,
            )
            &&& match prepared {
                Ok(_) => built is Ok && set_baseline(
                    built->Ok_0,
                    empty,
                    left,
                    right,
                    spent.stats,
                ),
                Err(stop) => built == Err::<SetView, StandingQueryError>(
                    StandingQueryError::Maintenance(stop),
                ),
            }
        }
}

/// How a set view is built: its gate first, then its contents.
pub open spec fn builds_set(
    database: Database,
    left_input: usize,
    right_input: usize,
    operation: SetOperation,
    policy: QueryPolicy,
    before: usize,
    shapes: Shapes,
    kernel: KernelEvents,
    log: Seq<Event>,
    log_after: Seq<Event>,
    built: Result<SetView, StandingQueryError>,
) -> bool {
    let gate = whole(set_gate(database, left_input, right_input, before));
    ||| built is Err && obeys(log, log_after, gate, query_stopped(), failure(built))
    ||| exists|middle: Seq<Event>|
        {
            &&& #[trigger] obeys(log, middle, gate, query_stopped(), None)
            &&& fills_set(
                left_input,
                right_input,
                database.standing@[left_input as int],
                database.standing@[right_input as int],
                operation,
                policy,
                current(database),
                shapes,
                kernel,
                middle,
                log_after,
                built,
            )
        }
}

/// Every registered view is well formed.
pub open spec fn registry_wf(sources: Seq<StandingQuery>) -> bool {
    forall|i: int| 0 <= i < sources.len() ==> (#[trigger] sources[i]).wf()
}

fn fill_set<H: Host>(
    left_input: usize,
    right_input: usize,
    left: &StandingQuery,
    right: &StandingQuery,
    operation: SetOperation,
    policy: QueryPolicy,
    at: CommitSeq,
    shapes: &Shapes,
    kernel: &KernelEvents,
    session: &mut Session<H>,
) -> (built: Result<SetView, StandingQueryError>)
    requires
        left.wf(),
        right.wf(),
        left.bag() is Some,
        right.bag() is Some,
        shapes.wf(),
    ensures
        final(session).metered() == old(session).metered(),
        fills_set(
            left_input,
            right_input,
            *left,
            *right,
            operation,
            policy,
            at,
            *shapes,
            *kernel,
            old(session).log(),
            final(session).log(),
            built,
        ),
        built is Ok ==> built->Ok_0.wf(),
{
    let ghost start = session.log();
    let ghost before = fresh(policy);
    let ghost parts = operand_parts(*left, *right, policy);
    let mut meter = Meter::new(policy);
    let names = match columns(left) {
        Some(names) => names,
        None => {
            assert(false);
            return Err(StandingQueryError::Unsupported);
        },
    };
    proof {
        lemma_meters_nothing(before, start);
    }
    let admitted = admit_columns(left, right, names, &mut meter, session);
    let ghost meter1 = meter;
    let ghost log1 = session.log();
    proof {
        lemma_part(before, parts, 0, before, meter1, start, start, log1, failure(admitted));
    }
    let found = match admitted {
        Err(error) => {
            assert(meters(before, chain(parts), meter1, start, log1, Some(error)));
            return Err(StandingQueryError::Maintenance(error));
        },
        Ok(Err(error)) => {
            assert(meters(before, chain(parts), meter1, start, log1, None));
            return Err(error);
        },
        Ok(Ok(found)) => found,
    };
    let (left_rows, right_rows) = match (rows(left), rows(right)) {
        (Some(left_rows), Some(right_rows)) => (left_rows, right_rows),
        _ => {
            assert(false);
            return Err(StandingQueryError::Unsupported);
        },
    };
    let records: u128 = left_rows.len() as u128 + right_rows.len() as u128;
    proof {
        let fault = snapshot_fault(records as nat, policy);
        lemma_unless_fault(meter1, log1, fault);
        lemma_part(before, parts, 1, meter1, meter1, start, log1, log1, fault);
    }
    if is_beyond(records, policy.max_snapshot_records) {
        assert(meters(
            before,
            chain(parts),
            meter1,
            start,
            log1,
            Some(StandingQueryFailure::SnapshotBudget),
        ));
        return Err(StandingQueryError::Maintenance(StandingQueryFailure::SnapshotBudget));
    }
    let paid = meter.charge(ZSetEvent::ScratchEntry, session);
    let ghost meter2 = meter;
    let ghost log2 = session.log();
    proof {
        lemma_part(before, parts, 2, meter1, meter2, start, log1, log2, failure(paid));
    }
    if let Err(error) = paid {
        assert(meters(before, chain(parts), meter2, start, log2, Some(error)));
        return Err(StandingQueryError::Maintenance(error));
    }
    let mut query = SetView {
        left_input,
        right_input,
        columns: found.names,
        types: found.types,
        operation,
        left: ZSet::new(),
        right: ZSet::new(),
        rows: ZSet::new(),
        total: Weight::zero(),
        last_delta: None,
        policy,
        frontier: at,
        stats: StandingQueryStats { delta_rows: 0, work_units: 0, scratch_entries: 0 },
        failure: None,
    };
    let ghost empty = query;
    proof {
        assert forall|row: u128| #[trigger]
            query.rows.at(row) == combined(
                operation,
                query.left.at(row),
                query.right.at(row),
            ) by {
            assert(query.left.at(row) == 0 && query.right.at(row) == 0);
        }
        assert(empty_set_view(empty, left_input, right_input, *left, operation, policy, at));
    }
    let prepared = query.prepare(left_rows, right_rows, shapes, kernel, &mut meter, session);
    assert(prepares_set(
        empty,
        *left_rows,
        *right_rows,
        *shapes,
        *kernel,
        meter2,
        meter,
        log2,
        session.log(),
        prepared,
    ));
    assert(meters(before, chain(parts), meter2, start, log2, None));
    match prepared {
        Err(error) => Err(StandingQueryError::Maintenance(error)),
        Ok(update) => {
            query.commit(left_rows, right_rows, update);
            query.last_delta = None;
            query.stats = meter.stats;
            assert(set_baseline(query, empty, *left, *right, meter.stats));
            Ok(query)
        },
    }
}

impl Database {
    /// Build a set view over two operands that stand before `before`.
    pub fn prepare_standing_set<H: Host>(
        &self,
        left_input: usize,
        right_input: usize,
        operation: SetOperation,
        policy: QueryPolicy,
        before: usize,
        shapes: &Shapes,
        kernel: &KernelEvents,
        session: &mut Session<H>,
    ) -> (built: Result<SetView, StandingQueryError>)
        requires
            self.wf(),
            registry_wf(self.standing@),
            shapes.wf(),
        ensures
            final(session).metered() == old(session).metered(),
            builds_set(
                *self,
                left_input,
                right_input,
                operation,
                policy,
                before,
                *shapes,
                *kernel,
                old(session).log(),
                final(session).log(),
                built,
            ),
            built is Ok ==> built->Ok_0.wf(),
    {
        let ghost start = session.log();
        let ghost steps = set_gate(*self, left_input, right_input, before);
        proof {
            lemma_obeys_nothing(start, query_stopped());
        }
        let polled = session.poll_query();
        let ghost log1 = session.log();
        proof {
            lemma_obeys_ask(start, log1, seq![Request::PollQuery], query_stopped());
            let failed = match polled {
                Ok(_) => None,
                Err(error) => Some(StandingQueryError::Interrupted(error)),
            };
            lemma_step(start, start, log1, steps, 0, query_stopped(), failed);
        }
        if let Err(error) = polled {
            return Err(StandingQueryError::Interrupted(error));
        }
        proof {
            lemma_refusal(start, log1, steps, 1, read_error(*self));
        }
        if let Err(error) = self.frontier() {
            return Err(StandingQueryError::Read(error));
        }
        let ghost known = if before <= self.standing@.len() {
            None
        } else {
            Some(StandingQueryError::UnknownHandle)
        };
        proof {
            lemma_refusal(start, log1, steps, 2, known);
        }
        if before > self.standing.len() {
            return Err(StandingQueryError::UnknownHandle);
        }
        let at = self.snapshot_frontier();
        let found = operand_at(&self.standing, before, left_input, at);
        proof {
            lemma_refusal(start, log1, steps, 3, dependency_error(failure(found)));
        }
        let left = match found {
            Ok(left) => left,
            Err(error) => return Err(StandingQueryError::Maintenance(error)),
        };
        let found = operand_at(&self.standing, before, right_input, at);
        proof {
            lemma_refusal(start, log1, steps, 4, dependency_error(failure(found)));
        }
        let right = match found {
            Ok(right) => right,
            Err(error) => return Err(StandingQueryError::Maintenance(error)),
        };
        let (left_names, right_names) = match (columns(left), columns(right)) {
            (Some(left_names), Some(right_names)) => (left_names, right_names),
            _ => {
                assert(false);
                return Err(StandingQueryError::Unsupported);
            },
        };
        proof {
            lemma_refusal(start, log1, steps, 5, width_error(*left, *right));
        }
        if left_names.len() != right_names.len() {
            return Err(
                StandingQueryError::SetSchema(
                    GraphSetBuildError::ColumnCount {
                        left: left_names.len(),
                        right: right_names.len(),
                    },
                ),
            );
        }
        assert(obeys(start, log1, whole(steps), query_stopped(), None));
        fill_set(
            left_input,
            right_input,
            left,
            right,
            operation,
            policy,
            at,
            shapes,
            kernel,
            session,
        )
    }
}

/// A decision of the registry's own was taken.
pub proof fn lemma_refusal(
    first: Seq<Event>,
    last: Seq<Event>,
    steps: Seq<Plan<StandingQueryError>>,
    n: int,
    error: Option<StandingQueryError>,
)
    requires
        0 <= n < steps.len(),
        obeys(first, last, upto(steps, n), query_stopped(), None),
        steps[n] == refuse(error),
    ensures
        obeys(first, last, upto(steps, n + 1), query_stopped(), error),
        error is Some || n + 1 == steps.len() ==> obeys(
            first,
            last,
            whole(steps),
            query_stopped(),
            error,
        ),
{
    lemma_obeys_nothing(last, query_stopped());
    if error is Some {
        lemma_obeys_stop(last, query_stopped(), error->0);
    }
    lemma_step(first, last, last, steps, n, query_stopped(), error);
}

} // verus!
