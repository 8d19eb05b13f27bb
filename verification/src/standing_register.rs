//! Registering standing views: sets over two views, windows over one, triangles
//! over a relation.

use vstd::prelude::*;
use crate::database::Database;
use crate::ids::{CommitSeq, RelationId};
use crate::kernel::{KernelRecord, KernelStep, ViewKernel};
use crate::plan::{
    ask, demand, failure, go, lemma_obeys_and, lemma_obeys_ask, lemma_obeys_failed,
    lemma_obeys_nothing, lemma_obeys_stop, lemma_step, obeys, whole, Plan,
};
use crate::script::{lemma_prefix_concat, lemma_prefix_transitive};
use crate::session::{Event, Host, Request, Session};
use crate::standing::{
    chain, lemma_meters_failed, lemma_meters_nothing, lemma_meters_then, lemma_part,
    lemma_unless_fault, meters, unless_fault, work_unit, works, Charge, Meter, Shapes,
    StandingQueryFailure, StandingQueryStats, ZSetEvent,
};
use crate::standing_build::{
    agrees, builds_set, copy_name, current, dependency_error, first_mismatch, fresh,
    lemma_first_mismatch, lemma_mismatch_bounds, lemma_names_prefix, lemma_refusal, name_units,
    names_script, read_error, registry_wf, snapshot_fault,
};
use crate::standing_registry::{
    column_type, columns, handle_plan, input_at, is_operand, query_stopped, refuse, rows, source_fault,
    StandingQuery, StandingQueryError, StandingQueryHandle,
};
use crate::standing_sets::{GraphSetColumnType, KernelEvents, SetOperation, SetView};
use crate::standing_triangles::{
    baseline_parts, TriangleChange, TriangleQuantifier, TriangleView,
};
use crate::standing_window::{
    applies_page, GraphSetQuantifier, GraphValueOrder, RowWindowPage, RowWindowSpec, WindowView,
};
use crate::statement::{is_beyond, QueryPolicy};
use crate::weight::Weight;
use crate::zset::ZSet;

verus! {

/// Nothing but the registry changed, and the registry got this view.
pub open spec fn registered(
    before: Database,
    after: Database,
    query: StandingQuery,
    handle: StandingQueryHandle,
) -> bool {
    &&& handle == (StandingQueryHandle {
        owner: before.owner,
        index: before.standing@.len() as usize,
    })
    &&& after.standing@ == before.standing@.push(query)
    &&& after.owner == before.owner
    &&& after.namespace == before.namespace
    &&& after.state == before.state
    &&& after.base_seq == before.base_seq
    &&& after.base_vertices == before.base_vertices
    &&& after.base_edges == before.base_edges
    &&& after.log == before.log
}

/// What must hold of two handles before a set view is built over them.
pub open spec fn operand_steps(
    database: Database,
    left: StandingQueryHandle,
    right: StandingQueryHandle,
) -> Seq<Plan<StandingQueryError>> {
    seq![
        ask(seq![Request::PollQuery]),
        demand(
            left.owner == database.owner && right.owner == database.owner,
            StandingQueryError::ForeignHandle,
        ),
        handle_plan(database, left),
        demand(
            database.standing@[left.index as int].operand(),
            StandingQueryError::Unsupported,
        ),
        handle_plan(database, right),
        demand(
            database.standing@[right.index as int].operand(),
            StandingQueryError::Unsupported,
        ),
    ]
}

/// How a set view is registered.
pub open spec fn registers_set(
    before: Database,
    after: Database,
    left: StandingQueryHandle,
    right: StandingQueryHandle,
    operation: SetOperation,
    policy: QueryPolicy,
    shapes: Shapes,
    kernel: KernelEvents,
    log: Seq<Event>,
    log_after: Seq<Event>,
    handle: Result<StandingQueryHandle, StandingQueryError>,
) -> bool {
    let gate = whole(operand_steps(before, left, right));
    ||| handle is Err && after == before && obeys(
        log,
        log_after,
        gate,
        query_stopped(),
        failure(handle),
    )
    ||| exists|middle: Seq<Event>, built: Result<SetView, StandingQueryError>|
        {
            &&& #[trigger] obeys(log, middle, gate, query_stopped(), None)
            &&& #[trigger] builds_set(
                before,
                left.index,
                right.index,
                operation,
                policy,
                before.standing@.len() as usize,
                shapes,
                kernel,
                middle,
                log_after,
                built,
            )
            &&& match built {
                Ok(view) => handle is Ok && registered(
                    before,
                    after,
                    StandingQuery::Composition(view),
                    handle->Ok_0,
                ),
                Err(error) => after == before && handle == Err::<
                    StandingQueryHandle,
                    StandingQueryError,
                >(error),
            }
        }
}

impl Database {
    /// Compose two registered views by a set operation. Their columns must agree in
    /// number and domain; the names come from the left one. One handle may supply
    /// both operands.
    pub fn register_standing_set<H: Host>(
        &mut self,
        left: &StandingQueryHandle,
        right: &StandingQueryHandle,
        operation: SetOperation,
        policy: QueryPolicy,
        shapes: &Shapes,
        kernel: &KernelEvents,
        session: &mut Session<H>,
    ) -> (handle: Result<StandingQueryHandle, StandingQueryError>)
        requires
            old(self).wf(),
            registry_wf(old(self).standing@),
            shapes.wf(),
        ensures
            final(self).wf(),
            registry_wf(final(self).standing@),
            final(session).metered() == old(session).metered(),
            registers_set(
                *old(self),
                *final(self),
                *left,
                *right,
                operation,
                policy,
                *shapes,
                *kernel,
                old(session).log(),
                final(session).log(),
                handle,
            ),
    {
        let ghost start = session.log();
        let ghost before = *self;
        let ghost steps = operand_steps(before, *left, *right);
        proof {
            lemma_obeys_nothing(start, query_stopped());
        }
        let polled = session.poll_query();
        let ghost log1 = session.log();
        proof {
            lemma_obeys_ask(start, log1, seq![Request::PollQuery], query_stopped());
            let failed = match polled {
                Ok(_) => None,
                Err(error) => Some(StandingQueryError::Interrupted(error)),
            };
            lemma_step(start, start, log1, steps, 0, query_stopped(), failed);
        }
        if let Err(error) = polled {
            return Err(StandingQueryError::Interrupted(error));
        }
        let owned = left.owner == self.owner && right.owner == self.owner;
        proof {
            let fault = if owned {
                None
            } else {
                Some(StandingQueryError::ForeignHandle)
            };
            lemma_refusal(start, log1, steps, 1, fault);
        }
        if !owned {
            return Err(StandingQueryError::ForeignHandle);
        }
        let found = self.admitted_standing_query(left, session);
        let ghost log2 = session.log();
        proof {
            lemma_step(start, log1, log2, steps, 2, query_stopped(), failure(found));
        }
        let kept = match found {
            Ok(query) => is_operand(query),
            Err(error) => return Err(error),
        };
        proof {
            let fault = if kept {
                None
            } else {
                Some(StandingQueryError::Unsupported)
            };
            lemma_refusal(start, log2, steps, 3, fault);
        }
        if !kept {
            return Err(StandingQueryError::Unsupported);
        }
        let found = self.admitted_standing_query(right, session);
        let ghost log3 = session.log();
        proof {
            lemma_step(start, log2, log3, steps, 4, query_stopped(), failure(found));
        }
        let kept = match found {
            Ok(query) => is_operand(query),
            Err(error) => return Err(error),
        };
        proof {
            let fault = if kept {
                None
            } else {
                Some(StandingQueryError::Unsupported)
            };
            lemma_refusal(start, log3, steps, 5, fault);
        }
        if !kept {
            return Err(StandingQueryError::Unsupported);
        }
        let built = self.prepare_standing_set(
            left.index,
            right.index,
            operation,
            policy,
            self.standing.len(),
            shapes,
            kernel,
            session,
        );
        assert(obeys(start, log3, whole(steps), query_stopped(), None));
        assert(builds_set(
            before,
            left.index,
            right.index,
            operation,
            policy,
            before.standing@.len() as usize,
            *shapes,
            *kernel,
            log3,
            session.log(),
            built,
        ));
        match built {
            Err(error) => Err(error),
            Ok(view) => {
                let handle = self.store_standing_query(StandingQuery::Composition(view));
                Ok(handle)
            },
        }
    }
}

/// Pay for and copy the names of a parent's columns.
fn copy_names<H: Host>(names: &Vec<String>, meter: &mut Meter, session: &mut Session<H>) -> (copied: Result<
    Vec<String>,
    StandingQueryFailure,
>)
    ensures
        final(session).metered() == old(session).metered(),
        meters(
            *old(meter),
            names_script(names@, names@.len() as int, 1),
            *final(meter),
            old(session).log(),
            final(session).log(),
            failure(copied),
        ),
        copied is Ok ==> copied->Ok_0@ == names@,
{
    let ghost start = session.log();
    let ghost before = *meter;
    let ghost len = names@.len() as int;
    let ghost full = names_script(names@, len, 1);
    let mut copy: Vec<String> = Vec::new();
    let mut column: usize = 0;
    proof {
        lemma_meters_nothing(before, start);
    }
    while column < names.len()
        invariant
            column <= len,
            len == names@.len(),
            full == names_script(names@, len, 1),
            session.metered() == old(session).metered(),
            start == old(session).log(),
            before == *old(meter),
            meters(
                before,
                names_script(names@, column as int, 1),
                *meter,
                start,
                session.log(),
                None,
            ),
            copy@ == names@.take(column as int),
        decreases len - column,
    {
        let ghost seen = names_script(names@, column as int, 1);
        let ghost here = *meter;
        let ghost here_log = session.log();
        let ghost unit = seq![
            Charge::Units(ZSetEvent::ScratchEntry, name_units(names@[column as int], 1) as u64),
        ];
        let paid = meter.charge(ZSetEvent::Work, session);
        let ghost paid_meter = *meter;
        let ghost paid_log = session.log();
        proof {
            lemma_meters_then(
                before, seen, here, work_unit(), paid_meter, start, here_log, paid_log,
                failure(paid),
            );
            lemma_names_prefix(names@, column + 1, len, 1);
            assert(names_script(names@, column + 1, 1) == seen + work_unit() + unit);
            lemma_prefix_concat(seen + work_unit(), unit);
            lemma_prefix_transitive(
                seen + work_unit(),
                names_script(names@, column + 1, 1),
                full,
            );
        }
        if let Err(error) = paid {
            proof {
                lemma_meters_failed(
                    before, seen + work_unit(), full, paid_meter, start, paid_log, Some(error),
                );
            }
            return Err(error);
        }
        let copied = copy_name(&names[column], 1, meter, session);
        proof {
            lemma_meters_then(
                before, seen + work_unit(), paid_meter, unit, *meter, start, paid_log,
                session.log(), failure(copied),
            );
        }
        match copied {
            Err(error) => {
                proof {
                    lemma_meters_failed(
                        before, names_script(names@, column + 1, 1), full, *meter, start,
                        session.log(), Some(error),
                    );
                }
                return Err(error);
            },
            Ok(name) => {
                copy.push(name);
            },
        }
        proof {
            assert(copy@ =~= names@.take(column + 1));
        }
        column += 1;
    }
    proof {
        assert(copy@ =~= names@);
    }
    Ok(copy)
}

/// The columns that are compared: up to and with the first that differs.
pub open spec fn compared(parent: StandingQuery, types: Seq<GraphSetColumnType>) -> nat {
    let len = types.len() as int;
    let at = first_mismatch(parent.types(), types, 0, len);
    (if at < len {
        at + 1
    } else {
        len
    }) as nat
}

/// A window's columns are its parent's.
pub open spec fn same_domains(parent: StandingQuery, types: Seq<GraphSetColumnType>) -> bool {
    first_mismatch(parent.types(), types, 0, types.len() as int) == types.len()
}

/// Compare a window's columns with its parent's, a unit of work each.
fn match_types<H: Host>(
    parent: &StandingQuery,
    types: &Vec<GraphSetColumnType>,
    meter: &mut Meter,
    session: &mut Session<H>,
) -> (matched: Result<bool, StandingQueryFailure>)
    ensures
        final(session).metered() == old(session).metered(),
        meters(
            *old(meter),
            works(compared(*parent, types@)),
            *final(meter),
            old(session).log(),
            final(session).log(),
            failure(matched),
        ),
        matched is Ok ==> matched->Ok_0 == same_domains(*parent, types@),
{
    let ghost start = session.log();
    let ghost before = *meter;
    let ghost len = types@.len() as int;
    let ghost pt = parent.types();
    let ghost count = compared(*parent, types@);
    let mut column: usize = 0;
    proof {
        lemma_meters_nothing(before, start);
        assert(works(0) =~= Seq::<Charge>::empty());
    }
    while column < types.len()
        invariant
            column <= len,
            len == types@.len(),
            pt == parent.types(),
            count == compared(*parent, types@),
            session.metered() == old(session).metered(),
            start == old(session).log(),
            before == *old(meter),
            meters(before, works(column as nat), *meter, start, session.log(), None),
            forall|c: int| 0 <= c < column ==> #[trigger] agrees(pt, types@, c),
        decreases len - column,
    {
        let ghost here = *meter;
        let ghost here_log = session.log();
        let paid = meter.charge(ZSetEvent::Work, session);
        proof {
            lemma_first_mismatch(pt, types@, 0, column as int, len);
            lemma_mismatch_bounds(pt, types@, column as int, len);
            assert(works(column as nat) + work_unit() =~= works((column + 1) as nat));
            lemma_meters_then(
                before,
                works(column as nat),
                here,
                work_unit(),
                *meter,
                start,
                here_log,
                session.log(),
                failure(paid),
            );
            assert(column + 1 <= count);
        }
        if let Err(error) = paid {
            proof {
                assert(works((column + 1) as nat) =~= works(count).subrange(0, column + 1));
                lemma_meters_failed(
                    before,
                    works((column + 1) as nat),
                    works(count),
                    *meter,
                    start,
                    session.log(),
                    Some(error),
                );
            }
            return Err(error);
        }
        match column_type(parent, column) {
            Some(kind) => if kind != types[column] {
                return Ok(false);
            },
            None => {
                return Ok(false);
            },
        }
        assert(agrees(pt, types@, column as int));
        column += 1;
    }
    proof {
        lemma_first_mismatch(pt, types@, 0, len, len);
    }
    Ok(true)
}

/// What must hold before a window is built over a registered parent.
pub open spec fn window_gate(
    database: Database,
    input: usize,
    types: Seq<GraphSetColumnType>,
    before: usize,
) -> Seq<Plan<StandingQueryError>> {
    let sources = database.standing@;
    seq![
        ask(seq![Request::PollQuery]),
        refuse(read_error(database)),
        demand(before <= sources.len(), StandingQueryError::UnknownHandle),
        refuse(
            dependency_error(
                source_fault(sources, before as int, input as int, current(database)),
            ),
        ),
        demand(
            sources[input as int].names()->0.len() == types.len(),
            StandingQueryError::Unsupported,
        ),
    ]
}

/// What admitting a parent costs before its rows are read.
pub open spec fn parent_parts(
    parent: StandingQuery,
    types: Seq<GraphSetColumnType>,
    policy: QueryPolicy,
) -> Seq<Seq<Charge>> {
    if same_domains(parent, types) {
        seq![
            works(compared(parent, types)),
            unless_fault(snapshot_fault(parent.bag()->0.entries().len(), policy)),
            names_script(parent.names()->0, parent.names()->0.len() as int, 1),
        ]
    } else {
        seq![works(compared(parent, types))]
    }
}

/// A window with an empty page.
pub open spec fn empty_window(
    view: WindowView,
    input: usize,
    parent: StandingQuery,
    spec: RowWindowSpec,
    policy: QueryPolicy,
    at: CommitSeq,
) -> bool {
    &&& view.wf()
    &&& view.input == input
    &&& view.columns@ == parent.names()->0
    &&& view.spec == spec
    &&& view.ordered@.len() == 0
    &&& view.last_delta is None
    &&& view.policy == policy
    &&& view.frontier == at
    &&& view.failure is None
}

/// A fresh window: the page of the parent's current rows, no successor of
/// anything.
pub open spec fn window_baseline(
    view: WindowView,
    filled: WindowView,
    stats: StandingQueryStats,
) -> bool {
    view == (WindowView { last_delta: None, stats, ..filled })
}

/// How a window is built once its parent is known.
pub open spec fn fills_window(
    input: usize,
    parent: StandingQuery,
    spec: RowWindowSpec,
    policy: QueryPolicy,
    at: CommitSeq,
    page: RowWindowPage,
    shapes: Shapes,
    asked: Seq<KernelStep>,
    asked_after: Seq<KernelStep>,
    log: Seq<Event>,
    log_after: Seq<Event>,
    built: Result<WindowView, StandingQueryError>,
) -> bool {
    let types = spec.input_types@;
    let script = chain(parent_parts(parent, types, policy));
    ||| asked_after == asked && exists|spent: Meter, stop: StandingQueryFailure| #[trigger]
        meters(fresh(policy), script, spent, log, log_after, Some(stop)) && built == Err::<
            WindowView,
            StandingQueryError,
        >(StandingQueryError::Maintenance(stop))
    ||| asked_after == asked && !same_domains(parent, types) && exists|spent: Meter| #[trigger]
        meters(fresh(policy), script, spent, log, log_after, None) && built == Err::<
            WindowView,
            StandingQueryError,
        >(StandingQueryError::Unsupported)
    ||| same_domains(parent, types) && exists|
        empty: WindowView,
        filled: WindowView,
        admitted: Meter,
        spent: Meter,
        middle: Seq<Event>,
        done: Result<(), StandingQueryFailure>,
    |
        {
            &&& #[trigger] meters(fresh(policy), script, admitted, log, middle, None)
            &&& empty_window(empty, input, parent, spec, policy, at)
            &&& asked_after == asked.push(
                KernelStep::Page { source: parent.bag()->0, spec, page },
            )
            &&& #[trigger] applies_page(
                empty,
                filled,
                page,
                shapes,
                admitted,
                spent,
                middle,
                log_after,
                done,
            )
            &&& match done {
                Ok(()) => built is Ok && window_baseline(built->Ok_0, filled, spent.stats),
                Err(stop) => built == Err::<WindowView, StandingQueryError>(
                    StandingQueryError::Maintenance(stop),
                ),
            }
        }
}

/// How a window is built: its gate first, then its contents.
pub open spec fn builds_window(
    database: Database,
    input: usize,
    spec: RowWindowSpec,
    policy: QueryPolicy,
    before: usize,
    page: RowWindowPage,
    shapes: Shapes,
    asked: Seq<KernelStep>,
    asked_after: Seq<KernelStep>,
    log: Seq<Event>,
    log_after: Seq<Event>,
    built: Result<WindowView, StandingQueryError>,
) -> bool {
    let gate = whole(window_gate(database, input, spec.input_types@, before));
    ||| built is Err && asked_after == asked && obeys(log, log_after, gate, query_stopped(), failure(built))
    ||| exists|middle: Seq<Event>|
        {
            &&& #[trigger] obeys(log, middle, gate, query_stopped(), None)
            &&& fills_window(
                input,
                database.standing@[input as int],
                spec,
                policy,
                current(database),
                page,
                shapes,
                asked,
                asked_after,
                middle,
                log_after,
                built,
            )
        }
}

fn fill_window<K: ViewKernel, H: Host>(
    input: usize,
    parent: &StandingQuery,
    spec: RowWindowSpec,
    policy: QueryPolicy,
    at: CommitSeq,
    kernel: &mut KernelRecord<K>,
    shapes: &Shapes,
    session: &mut Session<H>,
) -> (built: Result<WindowView, StandingQueryError>)
    requires
        parent.wf(),
        parent.bag() is Some,
        shapes.wf(),
    ensures
        final(session).metered() == old(session).metered(),
        exists|page: RowWindowPage| #[trigger]
            fills_window(
                input,
                *parent,
                spec,
                policy,
                at,
                page,
                *shapes,
                old(kernel).asked(),
                final(kernel).asked(),
                old(session).log(),
                final(session).log(),
                built,
            ),
        built is Ok ==> built->Ok_0.wf(),
{
    let ghost start = session.log();
    let ghost asked = kernel.asked();
    let ghost chosen = spec;
    let ghost none: RowWindowPage = arbitrary();
    let ghost before = fresh(policy);
    let ghost parts = parent_parts(*parent, spec.input_types@, policy);
    let mut meter = Meter::new(policy);
    proof {
        lemma_meters_nothing(before, start);
    }
    let matched = match_types(parent, &spec.input_types, &mut meter, session);
    let ghost meter1 = meter;
    let ghost log1 = session.log();
    proof {
        lemma_part(before, parts, 0, before, meter1, start, start, log1, failure(matched));
    }
    match matched {
        Err(error) => {
            assert(meters(before, chain(parts), meter1, start, log1, Some(error)));
            assert(fills_window(
                input, *parent, chosen, policy, at, none, *shapes, asked, asked, start, session.log(),
                Err(StandingQueryError::Maintenance(error)),
            ));
            return Err(StandingQueryError::Maintenance(error));
        },
        Ok(same) => if !same {
            assert(meters(before, chain(parts), meter1, start, log1, None));
            assert(fills_window(
                input, *parent, chosen, policy, at, none, *shapes, asked, asked, start, session.log(),
                Err(StandingQueryError::Unsupported),
            ));
            return Err(StandingQueryError::Unsupported);
        },
    }
    let (source, names) = match (rows(parent), columns(parent)) {
        (Some(source), Some(names)) => (source, names),
        _ => {
            assert(false);
            return Err(StandingQueryError::Unsupported);
        },
    };
    proof {
        let fault = snapshot_fault(source.entries().len(), policy);
        lemma_unless_fault(meter1, log1, fault);
        lemma_part(before, parts, 1, meter1, meter1, start, log1, log1, fault);
    }
    if is_beyond(source.len() as u128, policy.max_snapshot_records) {
        assert(meters(
            before,
            chain(parts),
            meter1,
            start,
            log1,
            Some(StandingQueryFailure::SnapshotBudget),
        ));
        assert(fills_window(
            input, *parent, chosen, policy, at, none, *shapes, asked, asked, start, session.log(),
            Err(StandingQueryError::Maintenance(StandingQueryFailure::SnapshotBudget)),
        ));
        return Err(StandingQueryError::Maintenance(StandingQueryFailure::SnapshotBudget));
    }
    let copied = copy_names(names, &mut meter, session);
    let ghost meter2 = meter;
    let ghost log2 = session.log();
    proof {
        lemma_part(before, parts, 2, meter1, meter2, start, log1, log2, failure(copied));
    }
    let names = match copied {
        Ok(names) => names,
        Err(error) => {
            assert(meters(before, chain(parts), meter2, start, log2, Some(error)));
            assert(fills_window(
                input, *parent, chosen, policy, at, none, *shapes, asked, asked, start, session.log(),
                Err(StandingQueryError::Maintenance(error)),
            ));
            return Err(StandingQueryError::Maintenance(error));
        },
    };
    let mut query = WindowView {
        input,
        columns: names,
        spec,
        ordered: Vec::new(),
        total: Weight::zero(),
        rows: ZSet::new(),
        last_delta: None,
        policy,
        frontier: at,
        stats: StandingQueryStats { delta_rows: 0, work_units: 0, scratch_entries: 0 },
        failure: None,
    };
    let ghost empty = query;
    assert(empty_window(empty, input, *parent, spec, policy, at));
    let page = kernel.page(source, &query.spec);
    let done = query.apply(&page, shapes, &mut meter, session);
    let ghost filled = query;
    assert(applies_page(
        empty,
        filled,
        page,
        *shapes,
        meter2,
        meter,
        log2,
        session.log(),
        done,
    ));
    assert(meters(before, chain(parts), meter2, start, log2, None));
    match done {
        Err(error) => {
            assert(fills_window(
                input, *parent, chosen, policy, at, page, *shapes, asked, kernel.asked(), start,
                session.log(), Err(StandingQueryError::Maintenance(error)),
            ));
            Err(StandingQueryError::Maintenance(error))
        },
        Ok(()) => {
            query.last_delta = None;
            query.stats = meter.stats;
            assert(window_baseline(query, filled, meter.stats));
            assert(fills_window(
                input, *parent, chosen, policy, at, page, *shapes, asked, kernel.asked(), start,
                session.log(), Ok(query),
            ));
            Ok(query)
        },
    }
}

/// What one column of a parent asks before a window over it is specified.
pub open spec fn columns_plan(known: int, n: int) -> Plan<StandingQueryError>
    decreases n,
{
    if n <= 0 {
        go()
    } else {
        columns_plan(known, n - 1).and(ask(seq![Request::PollQuery])).and(
            demand(n - 1 < known, StandingQueryError::Unsupported),
        )
    }
}

proof fn lemma_columns_failed(
    first: Seq<Event>,
    last: Seq<Event>,
    known: int,
    n: int,
    m: int,
    failed: Option<StandingQueryError>,
)
    requires
        0 <= n <= m,
        obeys(first, last, columns_plan(known, n), query_stopped(), failed),
        failed is Some,
    ensures
        obeys(first, last, columns_plan(known, m), query_stopped(), failed),
    decreases m - n,
{
    if n < m {
        let polls = ask::<StandingQueryError>(seq![Request::PollQuery]);
        lemma_obeys_failed(first, last, columns_plan(known, n), polls, query_stopped(), failed);
        lemma_obeys_failed(
            first,
            last,
            columns_plan(known, n).and(polls),
            demand(n < known, StandingQueryError::Unsupported),
            query_stopped(),
            failed,
        );
        assert(columns_plan(known, n + 1) == columns_plan(known, n).and(polls).and(
            demand(n < known, StandingQueryError::Unsupported),
        ));
        lemma_columns_failed(first, last, known, n + 1, m, failed);
    }
}

/// The domains of a parent's columns, polling before each.
fn read_types<H: Host>(parent: &StandingQuery, count: usize, session: &mut Session<H>) -> (types: Result<
    Vec<GraphSetColumnType>,
    StandingQueryError,
>)
    ensures
        final(session).metered() == old(session).metered(),
        obeys(
            old(session).log(),
            final(session).log(),
            columns_plan(parent.types().len() as int, count as int),
            query_stopped(),
            failure(types),
        ),
        types is Ok ==> types->Ok_0@ == parent.types().take(count as int) && count
            <= parent.types().len(),
{
    let ghost start = session.log();
    let ghost known = parent.types().len() as int;
    let ghost polls = ask::<StandingQueryError>(seq![Request::PollQuery]);
    let mut types: Vec<GraphSetColumnType> = Vec::new();
    let mut column: usize = 0;
    proof {
        lemma_obeys_nothing(start, query_stopped());
    }
    while column < count
        invariant
            column <= count,
            column <= known,
            known == parent.types().len(),
            polls == ask::<StandingQueryError>(seq![Request::PollQuery]),
            session.metered() == old(session).metered(),
            start == old(session).log(),
            obeys(start, session.log(), columns_plan(known, column as int), query_stopped(), None),
            types@ == parent.types().take(column as int),
        decreases count - column,
    {
        let ghost here = session.log();
        let ghost seen = columns_plan(known, column as int);
        let ghost rest = demand(column < known, StandingQueryError::Unsupported);
        let polled = session.poll_query();
        proof {
            lemma_obeys_ask(here, session.log(), seq![Request::PollQuery], query_stopped());
            let failed = match polled {
                Ok(_) => None,
                Err(error) => Some(StandingQueryError::Interrupted(error)),
            };
            lemma_obeys_and(start, here, session.log(), seen, polls, query_stopped(), failed);
            assert(columns_plan(known, column + 1) == seen.and(polls).and(rest));
            if failed is Some {
                lemma_obeys_failed(
                    start, session.log(), seen.and(polls), rest, query_stopped(), failed,
                );
                lemma_columns_failed(
                    start, session.log(), known, column + 1, count as int, failed,
                );
            }
        }
        if let Err(error) = polled {
            return Err(StandingQueryError::Interrupted(error));
        }
        proof {
            lemma_obeys_nothing(session.log(), query_stopped());
            lemma_obeys_stop(session.log(), query_stopped(), StandingQueryError::Unsupported);
            let failed = if column < known {
                None
            } else {
                Some(StandingQueryError::Unsupported)
            };
            lemma_obeys_and(
                start,
                session.log(),
                session.log(),
                seen.and(polls),
                rest,
                query_stopped(),
                failed,
            );
            if failed is Some {
                lemma_columns_failed(
                    start, session.log(), known, column + 1, count as int, failed,
                );
            }
        }
        match column_type(parent, column) {
            Some(kind) => {
                types.push(kind);
            },
            None => {
                return Err(StandingQueryError::Unsupported);
            },
        }
        assert(types@ =~= parent.types().take(column + 1));
        column += 1;
    }
    Ok(types)
}

/// What must hold of a handle before a window over it is built.
pub open spec fn window_steps(
    database: Database,
    input: StandingQueryHandle,
) -> Seq<Plan<StandingQueryError>> {
    let parent = database.standing@[input.index as int];
    seq![
        handle_plan(database, input),
        demand(parent.names() is Some, StandingQueryError::Unsupported),
        columns_plan(parent.types().len() as int, parent.names()->0.len() as int),
    ]
}

/// A window over a parent: all of its columns, and what the caller asked for.
pub open spec fn describes_window(
    parent: StandingQuery,
    order: Vec<GraphValueOrder>,
    quantifier: GraphSetQuantifier,
    offset: u64,
    count: u64,
    spec: RowWindowSpec,
) -> bool {
    &&& spec.input_types@ == parent.types().take(parent.names()->0.len() as int)
    &&& spec.order == order
    &&& spec.quantifier == quantifier
    &&& spec.offset == offset
    &&& spec.count == count
}

/// The kernel was asked to judge a window.
pub open spec fn judged(
    asked: Seq<KernelStep>,
    spec: RowWindowSpec,
    invalid: Option<u64>,
) -> Seq<KernelStep> {
    asked.push(KernelStep::Validate { spec, invalid })
}

/// How a window is registered. A window that the kernel finds invalid is not built.
pub open spec fn registers_window(
    before: Database,
    after: Database,
    input: StandingQueryHandle,
    order: Vec<GraphValueOrder>,
    quantifier: GraphSetQuantifier,
    offset: u64,
    count: u64,
    policy: QueryPolicy,
    page: RowWindowPage,
    shapes: Shapes,
    asked: Seq<KernelStep>,
    asked_after: Seq<KernelStep>,
    log: Seq<Event>,
    log_after: Seq<Event>,
    handle: Result<StandingQueryHandle, StandingQueryError>,
) -> bool {
    let gate = whole(window_steps(before, input));
    let parent = before.standing@[input.index as int];
    ||| handle is Err && after == before && asked_after == asked && obeys(
        log,
        log_after,
        gate,
        query_stopped(),
        failure(handle),
    )
    ||| exists|middle: Seq<Event>, spec: RowWindowSpec, code: u64|
        {
            &&& #[trigger] obeys(log, middle, gate, query_stopped(), None)
            &&& describes_window(parent, order, quantifier, offset, count, spec)
            &&& asked_after == #[trigger] judged(asked, spec, Some(code))
            &&& after == before
            &&& log_after == middle
            &&& handle == Err::<StandingQueryHandle, StandingQueryError>(
                StandingQueryError::WindowSchema(code),
            )
        }
    ||| exists|
        middle: Seq<Event>,
        spec: RowWindowSpec,
        built: Result<WindowView, StandingQueryError>,
    |
        {
            &&& #[trigger] obeys(log, middle, gate, query_stopped(), None)
            &&& describes_window(parent, order, quantifier, offset, count, spec)
            &&& #[trigger] builds_window(
                before,
                input.index,
                spec,
                policy,
                before.standing@.len() as usize,
                page,
                shapes,
                judged(asked, spec, None),
                asked_after,
                middle,
                log_after,
                built,
            )
            &&& match built {
                Ok(view) => handle is Ok && registered(
                    before,
                    after,
                    StandingQuery::Window(view),
                    handle->Ok_0,
                ),
                Err(error) => after == before && handle == Err::<
                    StandingQueryHandle,
                    StandingQueryError,
                >(error),
            }
        }
}

/// How triangles are built: the handle's health first, then the topology.
pub open spec fn builds_triangles(
    database: Database,
    relation: RelationId,
    quantifier: TriangleQuantifier,
    policy: QueryPolicy,
    change: TriangleChange,
    asked: Seq<KernelStep>,
    asked_after: Seq<KernelStep>,
    log: Seq<Event>,
    log_after: Seq<Event>,
    built: Result<TriangleView, StandingQueryError>,
) -> bool {
    let gate = ask::<StandingQueryError>(seq![Request::PollQuery]).and(
        refuse(read_error(database)),
    );
    ||| built is Err && asked_after == asked && obeys(log, log_after, gate, query_stopped(), failure(built))
    ||| exists|middle: Seq<Event>, spent: Meter, stop: Option<StandingQueryFailure>|
        {
            &&& #[trigger] obeys(log, middle, gate, query_stopped(), None)
            &&& asked_after == asked.push(
                KernelStep::Triangles { database, relation, quantifier, counted: change },
            )
            &&& #[trigger] meters(
                fresh(policy),
                chain(baseline_parts(change, policy)),
                spent,
                middle,
                log_after,
                stop,
            )
            &&& match stop {
                Some(error) => built == Err::<TriangleView, StandingQueryError>(
                    StandingQueryError::Maintenance(error),
                ),
                None => {
                    &&& built is Ok
                    &&& built->Ok_0.relation == relation
                    &&& built->Ok_0.quantifier == quantifier
                    &&& built->Ok_0.frontier == current(database)
                    &&& built->Ok_0.input_frontier == current(database)
                    &&& built->Ok_0.policy == policy
                    &&& built->Ok_0.stats == spent.stats
                    &&& built->Ok_0.failure is None
                    &&& change.triangles is Ok
                    &&& built->Ok_0.rows == change.triangles->Ok_0
                },
            }
        }
}

impl Database {
    /// Build a window over a parent that stands before `before`.
    pub fn prepare_standing_window<K: ViewKernel, H: Host>(
        &self,
        input: usize,
        spec: RowWindowSpec,
        policy: QueryPolicy,
        before: usize,
        kernel: &mut KernelRecord<K>,
        shapes: &Shapes,
        session: &mut Session<H>,
    ) -> (built: Result<WindowView, StandingQueryError>)
        requires
            self.wf(),
            registry_wf(self.standing@),
            shapes.wf(),
        ensures
            final(session).metered() == old(session).metered(),
            exists|page: RowWindowPage| #[trigger]
                builds_window(
                    *self,
                    input,
                    spec,
                    policy,
                    before,
                    page,
                    *shapes,
                    old(kernel).asked(),
                    final(kernel).asked(),
                    old(session).log(),
                    final(session).log(),
                    built,
                ),
            built is Ok ==> built->Ok_0.wf(),
    {
        let ghost start = session.log();
        let ghost asked = kernel.asked();
        let ghost chosen = spec;
        let ghost none: RowWindowPage = arbitrary();
        let ghost steps = window_gate(*self, input, spec.input_types@, before);
        proof {
            lemma_obeys_nothing(start, query_stopped());
        }
        let polled = session.poll_query();
        let ghost log1 = session.log();
        proof {
            lemma_obeys_ask(start, log1, seq![Request::PollQuery], query_stopped());
            let failed = match polled {
                Ok(_) => None,
                Err(error) => Some(StandingQueryError::Interrupted(error)),
            };
            lemma_step(start, start, log1, steps, 0, query_stopped(), failed);
        }
        if let Err(error) = polled {
            assert(builds_window(
                *self, input, chosen, policy, before, none, *shapes, asked, asked, start, session.log(),
                Err(StandingQueryError::Interrupted(error)),
            ));
            return Err(StandingQueryError::Interrupted(error));
        }
        proof {
            lemma_refusal(start, log1, steps, 1, read_error(*self));
        }
        if let Err(error) = self.frontier() {
            assert(builds_window(
                *self, input, chosen, policy, before, none, *shapes, asked, asked, start, session.log(),
                Err(StandingQueryError::Read(error)),
            ));
            return Err(StandingQueryError::Read(error));
        }
        proof {
            let fault = if before <= self.standing@.len() {
                None
            } else {
                Some(StandingQueryError::UnknownHandle)
            };
            lemma_refusal(start, log1, steps, 2, fault);
        }
        if before > self.standing.len() {
            assert(builds_window(
                *self, input, chosen, policy, before, none, *shapes, asked, asked, start, session.log(),
                Err(StandingQueryError::UnknownHandle),
            ));
            return Err(StandingQueryError::UnknownHandle);
        }
        let at = self.snapshot_frontier();
        let found = input_at(&self.standing, before, input, at);
        proof {
            lemma_refusal(start, log1, steps, 3, dependency_error(failure(found)));
        }
        let parent = match found {
            Ok(parent) => parent,
            Err(error) => {
                assert(builds_window(
                    *self, input, chosen, policy, before, none, *shapes, asked, asked, start, session.log(),
                    Err(StandingQueryError::Maintenance(error)),
                ));
                return Err(StandingQueryError::Maintenance(error));
            },
        };
        let names = match columns(parent) {
            Some(names) => names,
            None => {
                assert(false);
                return Err(StandingQueryError::Unsupported);
            },
        };
        proof {
            let fault = if names@.len() == spec.input_types@.len() {
                None
            } else {
                Some(StandingQueryError::Unsupported)
            };
            lemma_refusal(start, log1, steps, 4, fault);
        }
        if names.len() != spec.input_types.len() {
            assert(builds_window(
                *self, input, chosen, policy, before, none, *shapes, asked, asked, start, session.log(),
                Err(StandingQueryError::Unsupported),
            ));
            return Err(StandingQueryError::Unsupported);
        }
        assert(obeys(start, log1, whole(steps), query_stopped(), None));
        let ghost log2 = session.log();
        let built = fill_window(input, parent, spec, policy, at, kernel, shapes, session);
        proof {
            let page = choose|page: RowWindowPage| #[trigger]
                fills_window(
                    input, *parent, chosen, policy, at, page, *shapes, asked, kernel.asked(), log2,
                    session.log(), built,
                );
            assert(builds_window(
                *self, input, chosen, policy, before, page, *shapes, asked, kernel.asked(), start,
                session.log(), built,
            ));
        }
        built
    }

    /// Maintain a finite ordered page over a registered view. The kernel judges the
    /// order's schema and selects the page.
    pub fn register_standing_window<K: ViewKernel, H: Host>(
        &mut self,
        input: &StandingQueryHandle,
        order: Vec<GraphValueOrder>,
        quantifier: GraphSetQuantifier,
        offset: u64,
        count: u64,
        policy: QueryPolicy,
        kernel: &mut KernelRecord<K>,
        shapes: &Shapes,
        session: &mut Session<H>,
    ) -> (handle: Result<StandingQueryHandle, StandingQueryError>)
        requires
            old(self).wf(),
            registry_wf(old(self).standing@),
            shapes.wf(),
        ensures
            final(self).wf(),
            registry_wf(final(self).standing@),
            final(session).metered() == old(session).metered(),
            exists|page: RowWindowPage| #[trigger]
                registers_window(
                    *old(self),
                    *final(self),
                    *input,
                    order,
                    quantifier,
                    offset,
                    count,
                    policy,
                    page,
                    *shapes,
                    old(kernel).asked(),
                    final(kernel).asked(),
                    old(session).log(),
                    final(session).log(),
                    handle,
                ),
    {
        let ghost start = session.log();
        let ghost asked = kernel.asked();
        let ghost none: RowWindowPage = arbitrary();
        let ghost before = *self;
        let ghost steps = window_steps(before, *input);
        proof {
            lemma_obeys_nothing(start, query_stopped());
        }
        let found = self.admitted_standing_query(input, session);
        let ghost log1 = session.log();
        proof {
            lemma_step(start, start, log1, steps, 0, query_stopped(), failure(found));
        }
        let parent = match found {
            Ok(parent) => parent,
            Err(error) => {
                assert(registers_window(
                    before, *self, *input, order, quantifier, offset, count, policy, none, *shapes, asked,
                    asked, start, session.log(), Err(error),
                ));
                return Err(error);
            },
        };
        let listed = columns(parent);
        proof {
            let fault = if listed is Some {
                None
            } else {
                Some(StandingQueryError::Unsupported)
            };
            lemma_refusal(start, log1, steps, 1, fault);
        }
        let names = match listed {
            Some(names) => names,
            None => {
                assert(registers_window(
                    before, *self, *input, order, quantifier, offset, count, policy, none, *shapes, asked,
                    asked, start, session.log(), Err(StandingQueryError::Unsupported),
                ));
                return Err(StandingQueryError::Unsupported);
            },
        };
        let read = read_types(parent, names.len(), session);
        let ghost log2 = session.log();
        proof {
            lemma_step(start, log1, log2, steps, 2, query_stopped(), failure(read));
        }
        let types = match read {
            Ok(types) => types,
            Err(error) => {
                assert(registers_window(
                    before, *self, *input, order, quantifier, offset, count, policy, none, *shapes, asked,
                    asked, start, session.log(), Err(error),
                ));
                return Err(error);
            },
        };
        assert(obeys(start, log2, whole(steps), query_stopped(), None));
        let spec = RowWindowSpec { input_types: types, order, quantifier, offset, count };
        if let Some(code) = kernel.validate(&spec) {
            proof {
                assert(describes_window(*parent, spec.order, quantifier, offset, count, spec));
                assert(kernel.asked() == judged(asked, spec, Some(code)));
                assert(registers_window(
                    before, *self, *input, spec.order, quantifier, offset, count, policy, none,
                    *shapes, asked, kernel.asked(), start, session.log(),
                    Err(StandingQueryError::WindowSchema(code)),
                ));
            }
            return Err(StandingQueryError::WindowSchema(code));
        }
        let ghost chosen = spec;
        let ghost asked_built = kernel.asked();
        assert(asked_built == judged(asked, chosen, None));
        let built = self.prepare_standing_window(
            input.index,
            spec,
            policy,
            self.standing.len(),
            kernel,
            shapes,
            session,
        );
        assert(obeys(start, log2, whole(steps), query_stopped(), None));
        let ghost page = choose|page: RowWindowPage| #[trigger]
            builds_window(
                before, input.index, chosen, policy, before.standing@.len() as usize, page, *shapes,
                asked_built, kernel.asked(), log2, session.log(), built,
            );
        let ghost outcome = built;
        let handle = match built {
            Err(error) => Err(error),
            Ok(view) => {
                let handle = self.store_standing_query(StandingQuery::Window(view));
                Ok(handle)
            },
        };
        assert(builds_window(
            before, input.index, chosen, policy, before.standing@.len() as usize, page, *shapes,
            asked_built, kernel.asked(), log2, session.log(), outcome,
        ));
        assert(registers_window(
            before, *self, *input, chosen.order, quantifier, offset, count, policy, page,
            *shapes, asked, kernel.asked(), start, session.log(), handle,
        ));
        handle
    }

    /// Build a triangle view from the current topology of one relation.
    pub fn prepare_standing_triangles<K: ViewKernel, H: Host>(
        &self,
        relation: RelationId,
        quantifier: TriangleQuantifier,
        policy: QueryPolicy,
        kernel: &mut KernelRecord<K>,
        session: &mut Session<H>,
    ) -> (built: Result<TriangleView, StandingQueryError>)
        requires
            self.wf(),
        ensures
            final(session).metered() == old(session).metered(),
            exists|change: TriangleChange| #[trigger]
                builds_triangles(
                    *self,
                    relation,
                    quantifier,
                    policy,
                    change,
                    old(kernel).asked(),
                    final(kernel).asked(),
                    old(session).log(),
                    final(session).log(),
                    built,
                ),
            built is Ok ==> built->Ok_0.wf(),
    {
        let ghost start = session.log();
        let ghost asked = kernel.asked();
        let ghost none: TriangleChange = arbitrary();
        let ghost polls = ask::<StandingQueryError>(seq![Request::PollQuery]);
        let ghost health = refuse(read_error(*self));
        let polled = session.poll_query();
        let ghost log1 = session.log();
        proof {
            lemma_obeys_ask(start, log1, seq![Request::PollQuery], query_stopped());
        }
        if let Err(error) = polled {
            proof {
                lemma_obeys_failed(
                    start,
                    log1,
                    polls,
                    health,
                    query_stopped(),
                    Some(StandingQueryError::Interrupted(error)),
                );
            }
            assert(builds_triangles(
                *self, relation, quantifier, policy, none, asked, asked, start, session.log(),
                Err(StandingQueryError::Interrupted(error)),
            ));
            return Err(StandingQueryError::Interrupted(error));
        }
        proof {
            lemma_obeys_nothing(log1, query_stopped());
            if let Some(error) = read_error(*self) {
                lemma_obeys_stop(log1, query_stopped(), error);
            }
            lemma_obeys_and(start, log1, log1, polls, health, query_stopped(), read_error(*self));
        }
        if let Err(error) = self.frontier() {
            assert(builds_triangles(
                *self, relation, quantifier, policy, none, asked, asked, start, session.log(),
                Err(StandingQueryError::Read(error)),
            ));
            return Err(StandingQueryError::Read(error));
        }
        let mut meter = Meter::new(policy);
        let at = self.snapshot_frontier();
        let change = kernel.triangles(self, relation, quantifier);
        let ghost counted = change;
        let built = TriangleView::from_snapshot(
            relation,
            quantifier,
            at,
            change,
            &mut meter,
            session,
        );
        assert(meters(
            fresh(policy),
            chain(baseline_parts(counted, policy)),
            meter,
            log1,
            session.log(),
            failure(built),
        ));
        assert(obeys(start, log1, polls.and(health), query_stopped(), None));
        let built = match built {
            Ok(view) => Ok(view),
            Err(error) => Err(StandingQueryError::Maintenance(error)),
        };
        assert(builds_triangles(
            *self, relation, quantifier, policy, counted, asked, kernel.asked(), start,
            session.log(), built,
        ));
        built
    }

    /// Register the triangles of one relation's undirected projection.
    pub fn register_standing_triangles<K: ViewKernel, H: Host>(
        &mut self,
        relation: RelationId,
        quantifier: TriangleQuantifier,
        policy: QueryPolicy,
        kernel: &mut KernelRecord<K>,
        session: &mut Session<H>,
    ) -> (handle: Result<StandingQueryHandle, StandingQueryError>)
        requires
            old(self).wf(),
            registry_wf(old(self).standing@),
        ensures
            final(self).wf(),
            registry_wf(final(self).standing@),
            final(session).metered() == old(session).metered(),
            exists|built: Result<TriangleView, StandingQueryError>, change: TriangleChange|
                {
                    &&& #[trigger] builds_triangles(
                        *old(self),
                        relation,
                        quantifier,
                        policy,
                        change,
                        old(kernel).asked(),
                        final(kernel).asked(),
                        old(session).log(),
                        final(session).log(),
                        built,
                    )
                    &&& match built {
                        Ok(view) => handle is Ok && registered(
                            *old(self),
                            *final(self),
                            StandingQuery::Triangles(view),
                            handle->Ok_0,
                        ),
                        Err(error) => *final(self) == *old(self) && handle == Err::<
                            StandingQueryHandle,
                            StandingQueryError,
                        >(error),
                    }
                },
    {
        let ghost start = session.log();
        let ghost before = *self;
        let ghost asked = kernel.asked();
        let built = self.prepare_standing_triangles(relation, quantifier, policy, kernel, session);
        proof {
            let change = choose|change: TriangleChange| #[trigger]
                builds_triangles(
                    before, relation, quantifier, policy, change, asked, kernel.asked(), start,
                    session.log(), built,
                );
            assert(builds_triangles(
                before, relation, quantifier, policy, change, asked, kernel.asked(), start,
                session.log(), built,
            ));
        }
        match built {
            Err(error) => Err(error),
            Ok(view) => {
                let handle = self.store_standing_query(StandingQuery::Triangles(view));
                Ok(handle)
            },
        }
    }
}

} // verus!
