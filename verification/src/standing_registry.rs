//! The registry of standing views: handles, dependencies and current reads.

use vstd::prelude::*;
use crate::database::{frontier_of, Database};
use crate::errors::WriteTxnError;
use crate::ids::CommitSeq;
use crate::plan::{
    ask, demand, failure, go, lemma_obeys_ask, lemma_obeys_nothing, lemma_obeys_stop, obeys, stop,
    Plan,
};
use crate::session::{Event, Host, Request, Session};
use crate::standing::{StandingQueryFailure, StandingQueryStats};
use crate::standing_sets::{GraphSetColumnType, SetView};
use crate::standing_triangles::TriangleView;
use crate::standing_window::WindowView;
use crate::weight::Weight;
use crate::zset::{Triple, ZSet};

verus! {

/// A maintained row bag: a row, join, projection or filter view.
pub struct RowView {
    pub columns: Vec<String>,
    pub types: Vec<GraphSetColumnType>,
    pub rows: ZSet<u128>,
    pub last_delta: Option<ZSet<u128>>,
    pub frontier: CommitSeq,
    pub stats: StandingQueryStats,
    pub failure: Option<StandingQueryFailure>,
}

impl RowView {
    pub open spec fn wf(&self) -> bool {
        &&& self.rows.wf()
        &&& match self.last_delta {
            Some(delta) => delta.wf(),
            None => true,
        }
    }
}

/// One registered view.
pub enum StandingQuery {
    Rows(RowView),
    Composition(SetView),
    Window(WindowView),
    Triangles(TriangleView),
}

impl StandingQuery {
    pub open spec fn wf(&self) -> bool {
        match *self {
            StandingQuery::Rows(view) => view.wf(),
            StandingQuery::Composition(view) => view.wf(),
            StandingQuery::Window(view) => view.wf(),
            StandingQuery::Triangles(view) => view.wf(),
        }
    }

    /// The commit that the view has taken in last.
    pub open spec fn frontier(&self) -> CommitSeq {
        match *self {
            StandingQuery::Rows(view) => view.frontier,
            StandingQuery::Composition(view) => view.frontier,
            StandingQuery::Window(view) => view.frontier,
            StandingQuery::Triangles(view) => view.frontier,
        }
    }

    /// Why the view is unavailable.
    pub open spec fn failure(&self) -> Option<StandingQueryFailure> {
        match *self {
            StandingQuery::Rows(view) => view.failure,
            StandingQuery::Composition(view) => view.failure,
            StandingQuery::Window(view) => view.failure,
            StandingQuery::Triangles(view) => view.failure,
        }
    }

    /// The names of the view's columns, where it holds rows.
    pub open spec fn names(&self) -> Option<Seq<String>> {
        match *self {
            StandingQuery::Rows(view) => Some(view.columns@),
            StandingQuery::Composition(view) => Some(view.columns@),
            StandingQuery::Window(view) => Some(view.columns@),
            StandingQuery::Triangles(_) => None,
        }
    }

    /// The domains of the view's columns.
    pub open spec fn types(&self) -> Seq<GraphSetColumnType> {
        match *self {
            StandingQuery::Rows(view) => view.types@,
            StandingQuery::Composition(view) => view.types@,
            StandingQuery::Window(view) => view.spec.input_types@,
            StandingQuery::Triangles(_) => Seq::empty(),
        }
    }

    /// The view's rows, where it holds rows.
    pub open spec fn bag(&self) -> Option<ZSet<u128>> {
        match *self {
            StandingQuery::Rows(view) => Some(view.rows),
            StandingQuery::Composition(view) => Some(view.rows),
            StandingQuery::Window(view) => Some(view.rows),
            StandingQuery::Triangles(_) => None,
        }
    }

    /// Whether the view may be an operand of a set view: a window may not.
    pub open spec fn operand(&self) -> bool {
        self is Rows || self is Composition
    }

    /// The change that the latest commit made to the view's rows.
    pub open spec fn latest(&self) -> Option<ZSet<u128>> {
        match *self {
            StandingQuery::Rows(view) => view.last_delta,
            StandingQuery::Composition(view) => view.last_delta,
            StandingQuery::Window(view) => view.last_delta,
            StandingQuery::Triangles(_) => None,
        }
    }
}

/// Whether a view may be an operand of a set view.
pub fn is_operand(query: &StandingQuery) -> (admitted: bool)
    ensures
        admitted == query.operand(),
{
    match query {
        StandingQuery::Rows(_) => true,
        StandingQuery::Composition(_) => true,
        StandingQuery::Window(_) => false,
        StandingQuery::Triangles(_) => false,
    }
}

/// The frontier of a view, and why it is unavailable.
pub fn status(query: &StandingQuery) -> (found: (CommitSeq, Option<StandingQueryFailure>))
    ensures
        found == (query.frontier(), query.failure()),
{
    match query {
        StandingQuery::Rows(view) => (view.frontier, view.failure),
        StandingQuery::Composition(view) => (view.frontier, view.failure),
        StandingQuery::Window(view) => (view.frontier, view.failure),
        StandingQuery::Triangles(view) => (view.frontier, view.failure),
    }
}

/// The names of a view's columns.
pub fn columns(query: &StandingQuery) -> (found: Option<&Vec<String>>)
    ensures
        match found {
            Some(names) => query.names() == Some(names@),
            None => query.names() is None,
        },
{
    match query {
        StandingQuery::Rows(view) => Some(&view.columns),
        StandingQuery::Composition(view) => Some(&view.columns),
        StandingQuery::Window(view) => Some(&view.columns),
        StandingQuery::Triangles(_) => None,
    }
}

/// The domain of one column of a view.
pub fn column_type(query: &StandingQuery, column: usize) -> (found: Option<GraphSetColumnType>)
    ensures
        found == (if column < query.types().len() {
            Some(query.types()[column as int])
        } else {
            None
        }),
{
    match query {
        StandingQuery::Rows(view) => if column < view.types.len() {
            Some(view.types[column])
        } else {
            None
        },
        StandingQuery::Composition(view) => if column < view.types.len() {
            Some(view.types[column])
        } else {
            None
        },
        StandingQuery::Window(view) => if column < view.spec.input_types.len() {
            Some(view.spec.input_types[column])
        } else {
            None
        },
        StandingQuery::Triangles(_) => None,
    }
}

/// The rows of a view.
pub fn rows(query: &StandingQuery) -> (found: Option<&ZSet<u128>>)
    ensures
        match found {
            Some(bag) => query.bag() == Some(*bag),
            None => query.bag() is None,
        },
{
    match query {
        StandingQuery::Rows(view) => Some(&view.rows),
        StandingQuery::Composition(view) => Some(&view.rows),
        StandingQuery::Window(view) => Some(&view.rows),
        StandingQuery::Triangles(_) => None,
    }
}

/// The latest change of a view. A fresh baseline has none.
pub fn delta(query: &StandingQuery) -> (found: Option<&ZSet<u128>>)
    ensures
        match found {
            Some(change) => query.latest() == Some(*change),
            None => query.latest() is None,
        },
{
    match query {
        StandingQuery::Rows(view) => view.last_delta.as_ref(),
        StandingQuery::Composition(view) => view.last_delta.as_ref(),
        StandingQuery::Window(view) => view.last_delta.as_ref(),
        StandingQuery::Triangles(_) => None,
    }
}

/// Why a dependency cannot be read at a commit: it must stand before its
/// dependent, be healthy, have taken in that very commit, and hold rows.
pub open spec fn source_fault(
    sources: Seq<StandingQuery>,
    before: int,
    index: int,
    at: CommitSeq,
) -> Option<StandingQueryFailure> {
    if 0 <= index < before && index < sources.len() && sources[index].failure() is None
        && sources[index].frontier() == at && sources[index].bag() is Some {
        None
    } else {
        Some(StandingQueryFailure::DependencyUnavailable)
    }
}

/// A dependency at a commit.
pub fn input_at(sources: &Vec<StandingQuery>, before: usize, index: usize, at: CommitSeq) -> (found:
    Result<&StandingQuery, StandingQueryFailure>)
    ensures
        failure(found) == source_fault(sources@, before as int, index as int, at),
        found is Ok ==> *found->Ok_0 == sources@[index as int],
{
    if index >= before || index >= sources.len() {
        return Err(StandingQueryFailure::DependencyUnavailable);
    }
    let query = &sources[index];
    let (frontier, fault) = status(query);
    if fault.is_some() || frontier.0 != at.0 || rows(query).is_none() {
        return Err(StandingQueryFailure::DependencyUnavailable);
    }
    Ok(query)
}

/// Why a dependency cannot be an operand of a set view at a commit. A window is none.
pub open spec fn operand_fault(
    sources: Seq<StandingQuery>,
    before: int,
    index: int,
    at: CommitSeq,
) -> Option<StandingQueryFailure> {
    if source_fault(sources, before, index, at) is None && sources[index].operand() {
        None
    } else {
        Some(StandingQueryFailure::DependencyUnavailable)
    }
}

/// An operand of a set view at a commit.
pub fn operand_at(sources: &Vec<StandingQuery>, before: usize, index: usize, at: CommitSeq) -> (found:
    Result<&StandingQuery, StandingQueryFailure>)
    ensures
        failure(found) == operand_fault(sources@, before as int, index as int, at),
        found is Ok ==> *found->Ok_0 == sources@[index as int],
{
    match input_at(sources, before, index, at) {
        Ok(query) => if is_operand(query) {
            Ok(query)
        } else {
            Err(StandingQueryFailure::DependencyUnavailable)
        },
        Err(error) => Err(error),
    }
}

/// A reference to one registered view.
#[derive(Clone, Copy, PartialEq, Eq, Structural, Debug)]
pub struct StandingQueryHandle {
    pub owner: u64,
    pub index: usize,
}

/// Why the columns of two operands do not compose.
#[allow(inconsistent_fields)]
#[derive(Clone, Copy, PartialEq, Eq, Structural, Debug)]
pub enum GraphSetBuildError {
    ColumnCount { left: usize, right: usize },
    ColumnType { column: usize, left: GraphSetColumnType, right: GraphSetColumnType },
}

/// Why a view cannot be registered or read.
#[derive(Clone, Copy, PartialEq, Eq, Structural, Debug)]
pub enum StandingQueryError {
    Interrupted(WriteTxnError),
    Read(WriteTxnError),
    ForeignHandle,
    UnknownHandle,
    Unsupported,
    Unavailable(Option<StandingQueryFailure>),
    SetSchema(GraphSetBuildError),
    WindowSchema(u64),
    Maintenance(StandingQueryFailure),
}

/// Cancellation of a read.
pub open spec fn query_stopped() -> spec_fn(WriteTxnError) -> StandingQueryError {
    |error: WriteTxnError| StandingQueryError::Interrupted(error)
}

/// A refusal as a plan.
pub open spec fn refuse(error: Option<StandingQueryError>) -> Plan<StandingQueryError> {
    match error {
        Some(error) => stop(error),
        None => go(),
    }
}

/// The refusal of a handle that does not name a current view of this database:
/// a view that failed, or that has not taken in the latest commit, is unavailable.
pub open spec fn handle_error(database: Database, handle: StandingQueryHandle) -> Option<
    StandingQueryError,
> {
    if handle.owner != database.owner {
        Some(StandingQueryError::ForeignHandle)
    } else if handle.index >= database.standing@.len() {
        Some(StandingQueryError::UnknownHandle)
    } else {
        match frontier_of(database.state) {
            Err(error) => Some(StandingQueryError::Read(error)),
            Ok(frontier) => {
                let query = database.standing@[handle.index as int];
                if query.failure() is Some {
                    Some(StandingQueryError::Unavailable(query.failure()))
                } else if query.frontier() != frontier {
                    Some(StandingQueryError::Unavailable(None))
                } else {
                    None
                }
            },
        }
    }
}

/// What reading through a handle asks and decides.
pub open spec fn handle_plan(database: Database, handle: StandingQueryHandle) -> Plan<
    StandingQueryError,
> {
    ask::<StandingQueryError>(seq![Request::PollQuery]).and(refuse(handle_error(database, handle)))
}

/// What reading one kind of view asks and decides.
pub open spec fn kind_plan(database: Database, handle: StandingQueryHandle, kind: bool) -> Plan<
    StandingQueryError,
> {
    handle_plan(database, handle).and(demand(kind, StandingQueryError::Unsupported))
}

/// The current contents of a view.
pub struct StandingQueryView<'a, K> {
    pub rows: &'a ZSet<K>,
    pub frontier: CommitSeq,
    pub stats: StandingQueryStats,
}

/// A read that stops after its handle was checked obeys the rest of its plan.
proof fn lemma_kind(
    database: Database,
    handle: StandingQueryHandle,
    kind: bool,
    log: Seq<Event>,
    log_after: Seq<Event>,
    failed: Option<StandingQueryError>,
)
    requires
        obeys(log, log_after, handle_plan(database, handle), query_stopped(), failed),
    ensures
        obeys(
            log,
            log_after,
            kind_plan(database, handle, kind),
            query_stopped(),
            if failed is Some {
                failed
            } else if kind {
                None
            } else {
                Some(StandingQueryError::Unsupported)
            },
        ),
{
    let rest = demand(kind, StandingQueryError::Unsupported);
    if failed is Some {
        crate::plan::lemma_obeys_failed(
            log,
            log_after,
            handle_plan(database, handle),
            rest,
            query_stopped(),
            failed,
        );
    } else {
        lemma_obeys_nothing(log_after, query_stopped());
        lemma_obeys_stop(log_after, query_stopped(), StandingQueryError::Unsupported);
        crate::plan::lemma_obeys_and(
            log,
            log_after,
            log_after,
            handle_plan(database, handle),
            rest,
            query_stopped(),
            if kind {
                None
            } else {
                Some(StandingQueryError::Unsupported)
            },
        );
    }
}

impl Database {
    /// The view that a handle names, current and healthy.
    pub fn admitted_standing_query<H: Host>(
        &self,
        handle: &StandingQueryHandle,
        session: &mut Session<H>,
    ) -> (found: Result<&StandingQuery, StandingQueryError>)
        ensures
            final(session).metered() == old(session).metered(),
            obeys(
                old(session).log(),
                final(session).log(),
                handle_plan(*self, *handle),
                query_stopped(),
                failure(found),
            ),
            found is Ok ==> handle_error(*self, *handle) is None && *found->Ok_0
                == self.standing@[handle.index as int],
    {
        let ghost start = session.log();
        let polled = session.poll_query();
        let ghost middle = session.log();
        let ghost polls = ask::<StandingQueryError>(seq![Request::PollQuery]);
        let ghost error = handle_error(*self, *handle);
        proof {
            lemma_obeys_ask(start, middle, seq![Request::PollQuery], query_stopped());
        }
        if let Err(stopped) = polled {
            proof {
                crate::plan::lemma_obeys_failed(
                    start,
                    middle,
                    polls,
                    refuse(error),
                    query_stopped(),
                    Some(StandingQueryError::Interrupted(stopped)),
                );
            }
            return Err(StandingQueryError::Interrupted(stopped));
        }
        proof {
            lemma_obeys_nothing(middle, query_stopped());
            if error is Some {
                lemma_obeys_stop(middle, query_stopped(), error->0);
            }
            crate::plan::lemma_obeys_and(
                start,
                middle,
                middle,
                polls,
                refuse(error),
                query_stopped(),
                error,
            );
        }
        if handle.owner != self.owner {
            return Err(StandingQueryError::ForeignHandle);
        }
        if handle.index >= self.standing.len() {
            return Err(StandingQueryError::UnknownHandle);
        }
        let frontier = match self.frontier() {
            Ok(frontier) => frontier,
            Err(error) => return Err(StandingQueryError::Read(error)),
        };
        let query = &self.standing[handle.index];
        let (at, fault) = status(query);
        if fault.is_some() {
            return Err(StandingQueryError::Unavailable(fault));
        }
        if at != frontier {
            return Err(StandingQueryError::Unavailable(None));
        }
        Ok(query)
    }

    /// The current compressed result of a set view, in canonical key order.
    pub fn standing_set<'a, H: Host>(
        &'a self,
        handle: &StandingQueryHandle,
        session: &mut Session<H>,
    ) -> (view: Result<StandingQueryView<'a, u128>, StandingQueryError>)
        ensures
            final(session).metered() == old(session).metered(),
            obeys(
                old(session).log(),
                final(session).log(),
                kind_plan(*self, *handle, self.standing@[handle.index as int] is Composition),
                query_stopped(),
                failure(view),
            ),
            match view {
                Ok(found) => {
                    let set = self.standing@[handle.index as int]->Composition_0;
                    &&& *found.rows == set.rows
                    &&& found.frontier == set.frontier
                    &&& found.stats == set.stats
                },
                Err(_) => true,
            },
    {
        let ghost start = session.log();
        let found = self.admitted_standing_query(handle, session);
        proof {
            let kind = self.standing@[handle.index as int] is Composition;
            lemma_kind(*self, *handle, kind, start, session.log(), failure(found));
        }
        match found {
            Err(error) => Err(error),
            Ok(StandingQuery::Composition(query)) => Ok(
                StandingQueryView {
                    rows: &query.rows,
                    frontier: query.frontier,
                    stats: query.stats,
                },
            ),
            Ok(_) => Err(StandingQueryError::Unsupported),
        }
    }

    /// The latest change of a set view. `None` is a fresh baseline, not an empty
    /// change.
    pub fn standing_set_delta<'a, H: Host>(
        &'a self,
        handle: &StandingQueryHandle,
        session: &mut Session<H>,
    ) -> (view: Result<Option<StandingQueryView<'a, u128>>, StandingQueryError>)
        ensures
            final(session).metered() == old(session).metered(),
            obeys(
                old(session).log(),
                final(session).log(),
                kind_plan(*self, *handle, self.standing@[handle.index as int] is Composition),
                query_stopped(),
                failure(view),
            ),
            match view {
                Ok(found) => {
                    let set = self.standing@[handle.index as int]->Composition_0;
                    match found {
                        Some(change) => set.last_delta == Some(*change.rows) && change.frontier
                            == set.frontier && change.stats == set.stats,
                        None => set.last_delta is None,
                    }
                },
                Err(_) => true,
            },
    {
        let ghost start = session.log();
        let found = self.admitted_standing_query(handle, session);
        proof {
            let kind = self.standing@[handle.index as int] is Composition;
            lemma_kind(*self, *handle, kind, start, session.log(), failure(found));
        }
        match found {
            Err(error) => Err(error),
            Ok(StandingQuery::Composition(query)) => match &query.last_delta {
                Some(rows) => Ok(
                    Some(
                        StandingQueryView { rows, frontier: query.frontier, stats: query.stats },
                    ),
                ),
                None => Ok(None),
            },
            Ok(_) => Err(StandingQueryError::Unsupported),
        }
    }

    /// The column names of a set view: those of its left operand.
    pub fn standing_set_columns<'a, H: Host>(
        &'a self,
        handle: &StandingQueryHandle,
        session: &mut Session<H>,
    ) -> (names: Result<&'a Vec<String>, StandingQueryError>)
        ensures
            final(session).metered() == old(session).metered(),
            obeys(
                old(session).log(),
                final(session).log(),
                kind_plan(*self, *handle, self.standing@[handle.index as int] is Composition),
                query_stopped(),
                failure(names),
            ),
            match names {
                Ok(found) => *found == self.standing@[handle.index as int]->Composition_0.columns,
                Err(_) => true,
            },
    {
        let ghost start = session.log();
        let found = self.admitted_standing_query(handle, session);
        proof {
            let kind = self.standing@[handle.index as int] is Composition;
            lemma_kind(*self, *handle, kind, start, session.log(), failure(found));
        }
        match found {
            Err(error) => Err(error),
            Ok(StandingQuery::Composition(query)) => Ok(&query.columns),
            Ok(_) => Err(StandingQueryError::Unsupported),
        }
    }

    /// The exact occurrence count of a set view, without expanding anything.
    pub fn standing_set_total<H: Host>(
        &self,
        handle: &StandingQueryHandle,
        session: &mut Session<H>,
    ) -> (total: Result<Weight, StandingQueryError>)
        ensures
            final(session).metered() == old(session).metered(),
            obeys(
                old(session).log(),
                final(session).log(),
                kind_plan(*self, *handle, self.standing@[handle.index as int] is Composition),
                query_stopped(),
                failure(total),
            ),
            match total {
                Ok(found) => found == self.standing@[handle.index as int]->Composition_0.total,
                Err(_) => true,
            },
    {
        let ghost start = session.log();
        let found = self.admitted_standing_query(handle, session);
        proof {
            let kind = self.standing@[handle.index as int] is Composition;
            lemma_kind(*self, *handle, kind, start, session.log(), failure(found));
        }
        match found {
            Err(error) => Err(error),
            Ok(StandingQuery::Composition(query)) => Ok(query.total),
            Ok(_) => Err(StandingQueryError::Unsupported),
        }
    }

    /// The page of a window as a bag, in canonical key order.
    pub fn standing_window<'a, H: Host>(
        &'a self,
        handle: &StandingQueryHandle,
        session: &mut Session<H>,
    ) -> (view: Result<StandingQueryView<'a, u128>, StandingQueryError>)
        ensures
            final(session).metered() == old(session).metered(),
            obeys(
                old(session).log(),
                final(session).log(),
                kind_plan(*self, *handle, self.standing@[handle.index as int] is Window),
                query_stopped(),
                failure(view),
            ),
            match view {
                Ok(found) => {
                    let window = self.standing@[handle.index as int]->Window_0;
                    &&& *found.rows == window.rows
                    &&& found.frontier == window.frontier
                    &&& found.stats == window.stats
                },
                Err(_) => true,
            },
    {
        let ghost start = session.log();
        let found = self.admitted_standing_query(handle, session);
        proof {
            let kind = self.standing@[handle.index as int] is Window;
            lemma_kind(*self, *handle, kind, start, session.log(), failure(found));
        }
        match found {
            Err(error) => Err(error),
            Ok(StandingQuery::Window(query)) => Ok(
                StandingQueryView {
                    rows: &query.rows,
                    frontier: query.frontier,
                    stats: query.stats,
                },
            ),
            Ok(_) => Err(StandingQueryError::Unsupported),
        }
    }

    /// The ordered runs of a window: each distinct row once, with its count.
    pub fn standing_window_ordered<'a, H: Host>(
        &'a self,
        handle: &StandingQueryHandle,
        session: &mut Session<H>,
    ) -> (runs: Result<&'a Vec<(u128, Weight)>, StandingQueryError>)
        ensures
            final(session).metered() == old(session).metered(),
            obeys(
                old(session).log(),
                final(session).log(),
                kind_plan(*self, *handle, self.standing@[handle.index as int] is Window),
                query_stopped(),
                failure(runs),
            ),
            match runs {
                Ok(found) => *found == self.standing@[handle.index as int]->Window_0.ordered,
                Err(_) => true,
            },
    {
        let ghost start = session.log();
        let found = self.admitted_standing_query(handle, session);
        proof {
            let kind = self.standing@[handle.index as int] is Window;
            lemma_kind(*self, *handle, kind, start, session.log(), failure(found));
        }
        match found {
            Err(error) => Err(error),
            Ok(StandingQuery::Window(query)) => Ok(&query.ordered),
            Ok(_) => Err(StandingQueryError::Unsupported),
        }
    }

    /// The latest change of a window's page. `None` is a fresh baseline.
    pub fn standing_window_delta<'a, H: Host>(
        &'a self,
        handle: &StandingQueryHandle,
        session: &mut Session<H>,
    ) -> (view: Result<Option<StandingQueryView<'a, u128>>, StandingQueryError>)
        ensures
            final(session).metered() == old(session).metered(),
            obeys(
                old(session).log(),
                final(session).log(),
                kind_plan(*self, *handle, self.standing@[handle.index as int] is Window),
                query_stopped(),
                failure(view),
            ),
            match view {
                Ok(found) => {
                    let window = self.standing@[handle.index as int]->Window_0;
                    match found {
                        Some(change) => window.last_delta == Some(*change.rows) && change.frontier
                            == window.frontier && change.stats == window.stats,
                        None => window.last_delta is None,
                    }
                },
                Err(_) => true,
            },
    {
        let ghost start = session.log();
        let found = self.admitted_standing_query(handle, session);
        proof {
            let kind = self.standing@[handle.index as int] is Window;
            lemma_kind(*self, *handle, kind, start, session.log(), failure(found));
        }
        match found {
            Err(error) => Err(error),
            Ok(StandingQuery::Window(query)) => match &query.last_delta {
                Some(rows) => Ok(
                    Some(
                        StandingQueryView { rows, frontier: query.frontier, stats: query.stats },
                    ),
                ),
                None => Ok(None),
            },
            Ok(_) => Err(StandingQueryError::Unsupported),
        }
    }

    /// The column names of a window.
    pub fn standing_window_columns<'a, H: Host>(
        &'a self,
        handle: &StandingQueryHandle,
        session: &mut Session<H>,
    ) -> (names: Result<&'a Vec<String>, StandingQueryError>)
        ensures
            final(session).metered() == old(session).metered(),
            obeys(
                old(session).log(),
                final(session).log(),
                kind_plan(*self, *handle, self.standing@[handle.index as int] is Window),
                query_stopped(),
                failure(names),
            ),
            match names {
                Ok(found) => *found == self.standing@[handle.index as int]->Window_0.columns,
                Err(_) => true,
            },
    {
        let ghost start = session.log();
        let found = self.admitted_standing_query(handle, session);
        proof {
            let kind = self.standing@[handle.index as int] is Window;
            lemma_kind(*self, *handle, kind, start, session.log(), failure(found));
        }
        match found {
            Err(error) => Err(error),
            Ok(StandingQuery::Window(query)) => Ok(&query.columns),
            Ok(_) => Err(StandingQueryError::Unsupported),
        }
    }

    /// The occurrence count of a window's page.
    pub fn standing_window_total<H: Host>(
        &self,
        handle: &StandingQueryHandle,
        session: &mut Session<H>,
    ) -> (total: Result<Weight, StandingQueryError>)
        ensures
            final(session).metered() == old(session).metered(),
            obeys(
                old(session).log(),
                final(session).log(),
                kind_plan(*self, *handle, self.standing@[handle.index as int] is Window),
                query_stopped(),
                failure(total),
            ),
            match total {
                Ok(found) => found == self.standing@[handle.index as int]->Window_0.total,
                Err(_) => true,
            },
    {
        let ghost start = session.log();
        let found = self.admitted_standing_query(handle, session);
        proof {
            let kind = self.standing@[handle.index as int] is Window;
            lemma_kind(*self, *handle, kind, start, session.log(), failure(found));
        }
        match found {
            Err(error) => Err(error),
            Ok(StandingQuery::Window(query)) => Ok(query.total),
            Ok(_) => Err(StandingQueryError::Unsupported),
        }
    }

    /// The current weighted triangles, in canonical order of their corners.
    pub fn standing_triangles<'a, H: Host>(
        &'a self,
        handle: &StandingQueryHandle,
        session: &mut Session<H>,
    ) -> (view: Result<StandingQueryView<'a, Triple>, StandingQueryError>)
        ensures
            final(session).metered() == old(session).metered(),
            obeys(
                old(session).log(),
                final(session).log(),
                kind_plan(*self, *handle, self.standing@[handle.index as int] is Triangles),
                query_stopped(),
                failure(view),
            ),
            match view {
                Ok(found) => {
                    let triangles = self.standing@[handle.index as int]->Triangles_0;
                    &&& *found.rows == triangles.rows
                    &&& found.frontier == triangles.frontier
                    &&& found.stats == triangles.stats
                },
                Err(_) => true,
            },
    {
        let ghost start = session.log();
        let found = self.admitted_standing_query(handle, session);
        proof {
            let kind = self.standing@[handle.index as int] is Triangles;
            lemma_kind(*self, *handle, kind, start, session.log(), failure(found));
        }
        match found {
            Err(error) => Err(error),
            Ok(StandingQuery::Triangles(query)) => Ok(
                StandingQueryView {
                    rows: &query.rows,
                    frontier: query.frontier,
                    stats: query.stats,
                },
            ),
            Ok(_) => Err(StandingQueryError::Unsupported),
        }
    }

    /// The exact number of triangles, without scanning them.
    pub fn standing_triangle_total<H: Host>(
        &self,
        handle: &StandingQueryHandle,
        session: &mut Session<H>,
    ) -> (total: Result<Weight, StandingQueryError>)
        ensures
            final(session).metered() == old(session).metered(),
            obeys(
                old(session).log(),
                final(session).log(),
                kind_plan(*self, *handle, self.standing@[handle.index as int] is Triangles),
                query_stopped(),
                failure(total),
            ),
            match total {
                Ok(found) => found == self.standing@[handle.index as int]->Triangles_0.total,
                Err(_) => true,
            },
    {
        let ghost start = session.log();
        let found = self.admitted_standing_query(handle, session);
        proof {
            let kind = self.standing@[handle.index as int] is Triangles;
            lemma_kind(*self, *handle, kind, start, session.log(), failure(found));
        }
        match found {
            Err(error) => Err(error),
            Ok(StandingQuery::Triangles(query)) => Ok(query.total),
            Ok(_) => Err(StandingQueryError::Unsupported),
        }
    }

    /// Keep a prepared view. Its handle names it from now on.
    pub fn store_standing_query(&mut self, query: StandingQuery) -> (handle: StandingQueryHandle)
        ensures
            handle.owner == old(self).owner,
            handle.index == old(self).standing@.len(),
            final(self).standing@ == old(self).standing@.push(query),
            final(self).owner == old(self).owner,
            final(self).namespace == old(self).namespace,
            final(self).state == old(self).state,
            final(self).base_seq == old(self).base_seq,
            final(self).base_vertices == old(self).base_vertices,
            final(self).base_edges == old(self).base_edges,
            final(self).log == old(self).log,
    {
        let index: usize = self.standing.len();
        self.standing.push(query);
        StandingQueryHandle { owner: self.owner, index }
    }
}

} // verus!
