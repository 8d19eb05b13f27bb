//! The live side of an execution: cancellation, signed allowances, the native
//! evaluator and the identity allocator, with a record of what they were asked.
//!
//! A host may answer anything at any time. Every contract therefore speaks of the
//! recorded questions and answers, and holds whatever the answers are.

use vstd::prelude::*;
use crate::batch::WriteBatch;
use crate::database::Database;
use crate::errors::{Denial, LimitDimension, WriteError, WriteTxnError};
use crate::freshness::{fresh_on, is_fresh};
use crate::graph::{EdgeRecord, EdgeView, VertexRow, VertexView};
use crate::ids::ElementId;
use crate::idset::IdSet;
use crate::queries::{bind_error, bind_failure, BindError, BoundPlan, QueryAnswer};
use crate::txn::{PreparedWrite, WriteTxn};

verus! {

/// What one checkpoint of an execution costs.
#[derive(Clone, Copy, PartialEq, Eq, Structural, Debug)]
pub enum Metering {
    /// Cancellation only.
    Free,
    /// Cancellation and one unit of signed work.
    Signed,
    /// Cancellation of the query and of the commit, and one unit of signed work.
    SignedQuery,
}

/// The fields that an intent attempts to write, by raw identity.
pub struct Fields {
    pub labels: IdSet,
    pub properties: IdSet,
}

/// An edge with both of its endpoints, as an authority sees it.
#[derive(Debug)]
pub struct EdgeImage {
    pub edge: EdgeRecord,
    pub src: VertexRow,
    pub dst: VertexRow,
}

/// What an edge image says.
pub struct EdgeImageView {
    pub edge: EdgeView,
    pub src: VertexView,
    pub dst: VertexView,
}

impl EdgeImage {
    pub open spec fn view(&self) -> EdgeImageView {
        EdgeImageView { edge: self.edge@, src: self.src@, dst: self.dst@ }
    }
}

/// The view of a borrowed vertex, if there is one.
pub open spec fn seen_vertex(vertex: Option<&VertexRow>) -> Option<VertexView> {
    match vertex {
        Some(row) => Some(row@),
        None => None,
    }
}

/// The view of a borrowed edge image, if there is one.
pub open spec fn seen_edge(image: Option<&EdgeImage>) -> Option<EdgeImageView> {
    match image {
        Some(found) => Some(found@),
        None => None,
    }
}

/// Which kind of identity a program asks for.
#[derive(Clone, Copy, PartialEq, Eq, Structural, Debug)]
pub enum IdentityKind {
    Vertex,
    Edge,
}

/// What the surrounding process answers. Nothing is promised of the answers.
pub trait Host {
    /// Whether the execution may go on.
    fn poll(&mut self) -> Result<(), WriteTxnError>;

    /// Whether the query that feeds the execution may go on.
    fn poll_query(&mut self) -> Result<(), WriteTxnError>;

    /// Charge a signed allowance.
    fn charge(&mut self, dimension: LimitDimension, amount: u64) -> Result<(), Denial>;

    /// Check a vertex write against the capability.
    fn check_vertex(
        &mut self,
        before: Option<&VertexRow>,
        after: Option<&VertexRow>,
        fields: &Fields,
    ) -> Result<(), Denial>;

    /// Check an edge write against the capability.
    fn check_edge(
        &mut self,
        before: Option<&EdgeImage>,
        after: Option<&EdgeImage>,
        properties: &IdSet,
    ) -> Result<(), Denial>;

    /// Evaluate all staged intents against the current writer.
    fn prepare(&mut self, database: &Database, staged: &Vec<WriteBatch>) -> Result<
        PreparedWrite,
        WriteTxnError,
    >;

    /// Issue a fresh identity for a proposed creation.
    fn allocate(&mut self, kind: IdentityKind, ordinal: u64) -> Result<ElementId, WriteTxnError>;

    /// Parse and bind one statement.
    fn bind(&mut self, source: &String) -> Result<BoundPlan, BindError>;

    /// Evaluate one bound statement over the pinned basis and the staged effects.
    fn evaluate(
        &mut self,
        transaction: &WriteTxn,
        database: &Database,
        plan: &BoundPlan,
    ) -> QueryAnswer;
}

/// One question put to the host.
#[allow(inconsistent_fields)]
pub enum Request {
    Poll,
    PollQuery,
    Charge { dimension: LimitDimension, amount: u64 },
    CheckVertex {
        before: Option<VertexView>,
        after: Option<VertexView>,
        labels: Set<u128>,
        properties: Set<u128>,
    },
    CheckEdge {
        before: Option<EdgeImageView>,
        after: Option<EdgeImageView>,
        properties: Set<u128>,
    },
    Prepare { database: Database, staged: Seq<WriteBatch> },
    Allocate { kind: IdentityKind, ordinal: u64 },
    Bind { source: Seq<char> },
    Evaluate { transaction: WriteTxn, database: Database, plan: BoundPlan },
}

/// One question with its answer: granted, with what was handed back, or refused
/// with an error.
pub struct Event {
    pub request: Request,
    pub refusal: Option<WriteTxnError>,
    pub prepared: Option<PreparedWrite>,
    pub issued: Option<ElementId>,
    pub bound: Option<BoundPlan>,
    pub unbound: Option<BindError>,
    pub answered: Option<QueryAnswer>,
}

/// A question that is granted or refused without handing anything back.
pub open spec fn plain(request: Request, refusal: Option<WriteTxnError>) -> Event {
    Event {
        request,
        refusal,
        prepared: None,
        issued: None,
        bound: None,
        unbound: None,
        answered: None,
    }
}

/// `after` continues `before`.
pub open spec fn extends(before: Seq<Event>, after: Seq<Event>) -> bool {
    &&& before.len() <= after.len()
    &&& after.take(before.len() as int) == before
}

/// The refusal that ended the run, if one did. A run ends at its first refusal.
pub open spec fn refused(before: Seq<Event>, after: Seq<Event>) -> Option<WriteTxnError> {
    if after.len() > before.len() {
        after.last().refusal
    } else {
        None
    }
}

/// Only the last new event may be a refusal.
pub open spec fn ran(before: Seq<Event>, after: Seq<Event>) -> bool {
    &&& extends(before, after)
    &&& forall|i: int| before.len() <= i < after.len() - 1 ==> (#[trigger] after[i]).refusal is None
}

/// The new events ask the questions of `plan` in order, up to the first refusal,
/// and all of them when there is no refusal.
pub open spec fn followed(before: Seq<Event>, after: Seq<Event>, plan: Seq<Request>) -> bool {
    &&& ran(before, after)
    &&& after.len() - before.len() <= plan.len()
    &&& forall|i: int|
        0 <= i < after.len() - before.len() ==> (#[trigger] after[before.len() + i]).request
            == plan[i]
    &&& refused(before, after) is None ==> after.len() - before.len() == plan.len()
}

/// The result of a run: its refusal, or what it decides once all is granted.
pub open spec fn outcome<T>(
    before: Seq<Event>,
    after: Seq<Event>,
    decided: Result<T, WriteTxnError>,
) -> Result<T, WriteTxnError> {
    match refused(before, after) {
        Some(error) => Err(error),
        None => decided,
    }
}

/// Nothing was asked.
pub proof fn lemma_ran_nothing(log: Seq<Event>)
    ensures
        ran(log, log),
        refused(log, log) is None,
        followed(log, log, Seq::empty()),
{
    assert(log.take(log.len() as int) =~= log);
}

/// Runs compose while nothing is refused.
pub proof fn lemma_ran_compose(first: Seq<Event>, middle: Seq<Event>, last: Seq<Event>)
    requires
        ran(first, middle),
        refused(first, middle) is None,
        ran(middle, last),
    ensures
        ran(first, last),
        refused(first, last) == refused(middle, last),
{
    assert(last.take(first.len() as int) =~= middle.take(first.len() as int)) by {
        assert forall|i: int| 0 <= i < first.len() implies last[i] == middle[i] by {
            assert(last.take(middle.len() as int)[i] == middle[i]);
        }
    }
    assert forall|i: int| first.len() <= i < last.len() - 1 implies (
    #[trigger] last[i]).refusal is None by {
        if i < middle.len() {
            assert(last.take(middle.len() as int)[i] == middle[i]);
            if i == middle.len() - 1 {
                assert(middle.last() == middle[i]);
            }
        }
    }
    if last.len() == middle.len() {
        assert(last =~= middle) by {
            assert(last.take(middle.len() as int) =~= last);
        }
    }
}

/// Plans compose while nothing is refused.
pub proof fn lemma_followed_compose(
    first: Seq<Event>,
    middle: Seq<Event>,
    last: Seq<Event>,
    head: Seq<Request>,
    tail: Seq<Request>,
)
    requires
        followed(first, middle, head),
        refused(first, middle) is None,
        followed(middle, last, tail),
    ensures
        followed(first, last, head + tail),
        refused(first, last) == refused(middle, last),
{
    lemma_ran_compose(first, middle, last);
    let plan = head + tail;
    assert forall|i: int| 0 <= i < last.len() - first.len() implies (#[trigger] last[first.len()
        + i]).request == plan[i] by {
        if i < head.len() {
            assert(last.take(middle.len() as int)[first.len() + i] == middle[first.len() + i]);
        } else {
            let k = i - head.len();
            assert(last[middle.len() + k].request == tail[k]);
        }
    }
}

/// A refused run has followed any longer plan too.
pub proof fn lemma_followed_extend(
    first: Seq<Event>,
    last: Seq<Event>,
    head: Seq<Request>,
    tail: Seq<Request>,
)
    requires
        followed(first, last, head),
        refused(first, last) is Some,
    ensures
        followed(first, last, head + tail),
{
    assert forall|i: int| 0 <= i < last.len() - first.len() implies (#[trigger] last[first.len()
        + i]).request == (head + tail)[i] by {}
}

/// One question was asked and answered.
pub open spec fn asked(
    before: Seq<Event>,
    after: Seq<Event>,
    request: Request,
    refusal: Option<WriteTxnError>,
) -> bool {
    &&& after.len() == before.len() + 1
    &&& after.take(before.len() as int) =~= before
    &&& after.last().request == request
    &&& after.last().refusal == refusal
}

pub proof fn lemma_asked(
    before: Seq<Event>,
    after: Seq<Event>,
    request: Request,
    refusal: Option<WriteTxnError>,
)
    requires
        asked(before, after, request, refusal),
    ensures
        followed(before, after, seq![request]),
        ran(before, after),
        refused(before, after) == refusal,
{
    assert(after[before.len() as int].request == request);
}

/// The write that an evaluation handed back.
pub open spec fn granted_write(prepared: Result<PreparedWrite, WriteTxnError>) -> Option<
    PreparedWrite,
> {
    match prepared {
        Ok(write) => Some(write),
        Err(_) => None,
    }
}

/// The writes that evaluations of staged intents handed back, in order.
#[verifier::opaque]
pub open spec fn evaluations(log: Seq<Event>) -> Seq<PreparedWrite>
    decreases log.len(),
{
    if log.len() == 0 {
        Seq::empty()
    } else {
        match log.last().prepared {
            Some(write) => evaluations(log.drop_last()).push(write),
            None => evaluations(log.drop_last()),
        }
    }
}

/// The write that the latest evaluation handed back.
pub open spec fn latest(log: Seq<Event>) -> Option<PreparedWrite> {
    if evaluations(log).len() == 0 {
        None
    } else {
        Some(evaluations(log).last())
    }
}

proof fn lemma_evaluated(log: Seq<Event>, event: Event)
    ensures
        evaluations(log.push(event)) == match event.prepared {
            Some(write) => evaluations(log).push(write),
            None => evaluations(log),
        },
{
    reveal(evaluations);
    assert(log.push(event).drop_last() =~= log);
}

/// A live execution, with what each of its checkpoints costs.
pub struct Session<H> {
    host: H,
    metered: Metering,
    log: Ghost<Seq<Event>>,
}

impl<H> Session<H> {
    /// Every question so far with its answer, in order. Asking is the only way to
    /// add to it.
    pub closed spec fn log(&self) -> Seq<Event> {
        self.log@
    }

    /// What each checkpoint costs.
    pub closed spec fn metered(&self) -> Metering {
        self.metered
    }

    /// The process behind the execution.
    pub closed spec fn behind(&self) -> H {
        self.host
    }

    /// Look at the process behind the execution.
    pub fn host(&self) -> (host: &H)
        ensures
            *host == self.behind(),
    {
        &self.host
    }
}

/// The questions that one charge of work asks.
pub open spec fn work_plan(amount: u64) -> Seq<Request> {
    seq![Request::Poll, Request::Charge { dimension: LimitDimension::Work, amount }]
}

/// The questions that one checkpoint asks.
pub open spec fn tick_plan(metered: Metering) -> Seq<Request> {
    match metered {
        Metering::Free => seq![Request::Poll],
        Metering::Signed => work_plan(1),
        Metering::SignedQuery => seq![Request::PollQuery] + work_plan(1),
    }
}

/// The questions that `n` checkpoints ask.
pub open spec fn ticks(metered: Metering, n: nat) -> Seq<Request>
    decreases n,
{
    if n == 0 {
        Seq::empty()
    } else {
        ticks(metered, (n - 1) as nat) + tick_plan(metered)
    }
}

/// Only checkpoints were asked for.
pub open spec fn ticked(before: Seq<Event>, after: Seq<Event>, metered: Metering) -> bool {
    exists|n: nat| followed(before, after, #[trigger] ticks(metered, n))
}

pub proof fn lemma_ticks_sum(metered: Metering, n: nat, m: nat)
    ensures
        ticks(metered, n) + ticks(metered, m) == ticks(metered, n + m),
    decreases m,
{
    if m == 0 {
        assert(ticks(metered, n) + ticks(metered, 0) =~= ticks(metered, n));
    } else {
        lemma_ticks_sum(metered, n, (m - 1) as nat);
        assert(ticks(metered, n) + ticks(metered, m) =~= (ticks(metered, n) + ticks(
            metered,
            (m - 1) as nat,
        )) + tick_plan(metered));
        assert((n + m - 1) as nat == n + (m - 1) as nat);
    }
}

/// No checkpoint yet.
pub proof fn lemma_ticked_nothing(log: Seq<Event>, metered: Metering)
    ensures
        ticked(log, log, metered),
        refused(log, log) is None,
{
    lemma_ran_nothing(log);
    assert(followed(log, log, ticks(metered, 0)));
}

/// One checkpoint is a run of checkpoints.
pub proof fn lemma_ticked_once(before: Seq<Event>, after: Seq<Event>, metered: Metering)
    requires
        followed(before, after, tick_plan(metered)),
    ensures
        ticked(before, after, metered),
{
    assert(ticks(metered, 0) + tick_plan(metered) =~= tick_plan(metered));
    assert(ticks(metered, 1) == tick_plan(metered)) by {
        assert((1 - 1) as nat == 0nat);
    }
    assert(followed(before, after, ticks(metered, 1)));
}

/// So many checkpoints, then so many more.
pub proof fn lemma_ticks_compose(
    first: Seq<Event>,
    middle: Seq<Event>,
    last: Seq<Event>,
    metered: Metering,
    n: nat,
    m: nat,
)
    requires
        followed(first, middle, ticks(metered, n)),
        refused(first, middle) is None,
        followed(middle, last, ticks(metered, m)),
    ensures
        followed(first, last, ticks(metered, n + m)),
        refused(first, last) == refused(middle, last),
{
    lemma_followed_compose(first, middle, last, ticks(metered, n), ticks(metered, m));
    lemma_ticks_sum(metered, n, m);
}

/// A run of checkpoints that was refused is the start of every longer one.
pub proof fn lemma_ticks_refused(
    first: Seq<Event>,
    last: Seq<Event>,
    metered: Metering,
    n: nat,
    m: nat,
)
    requires
        n <= m,
        followed(first, last, ticks(metered, n)),
        refused(first, last) is Some,
    ensures
        followed(first, last, ticks(metered, m)),
{
    lemma_followed_extend(
        first,
        last,
        ticks(metered, n),
        ticks(metered, (m - n) as nat),
    );
    lemma_ticks_sum(metered, n, (m - n) as nat);
}

/// One checkpoint.
pub proof fn lemma_one_tick(metered: Metering)
    ensures
        ticks(metered, 1) == tick_plan(metered),
{
    assert(ticks(metered, 0) + tick_plan(metered) =~= tick_plan(metered));
    assert((1 - 1) as nat == 0nat);
}

/// Runs of checkpoints compose while nothing is refused.
pub proof fn lemma_ticked_compose(
    first: Seq<Event>,
    middle: Seq<Event>,
    last: Seq<Event>,
    metered: Metering,
)
    requires
        ticked(first, middle, metered),
        refused(first, middle) is None,
        ticked(middle, last, metered),
    ensures
        ticked(first, last, metered),
        refused(first, last) == refused(middle, last),
        first.len() <= middle.len() <= last.len(),
{
    let n = choose|n: nat| followed(first, middle, #[trigger] ticks(metered, n));
    let m = choose|m: nat| followed(middle, last, #[trigger] ticks(metered, m));
    lemma_followed_compose(first, middle, last, ticks(metered, n), ticks(metered, m));
    lemma_ticks_sum(metered, n, m);
    assert(followed(first, last, ticks(metered, n + m)));
}

impl<H: Host> Session<H> {
    pub fn new(host: H, metered: Metering) -> (session: Session<H>)
        ensures
            session.metered() == metered,
            session.log().len() == 0,
    {
        Session { host, metered, log: Ghost(Seq::empty()) }
    }

    /// Cancellation only, no charge: for walking candidates that a capability may
    /// not see, so their count never reaches a signed limit.
    pub fn poll(&mut self) -> (answer: Result<(), WriteTxnError>)
        ensures
            evaluations(final(self).log()) == evaluations(old(self).log()),
            final(self).metered() == old(self).metered(),
            followed(old(self).log(), final(self).log(), seq![Request::Poll]),
            answer == outcome(old(self).log(), final(self).log(), Ok::<(), WriteTxnError>(())),
    {
        let ghost before = self.log();
        let answer = match self.host.poll() {
            Ok(()) => Ok(()),
            Err(error) => Err(error),
        };
        let ghost refusal = match answer {
            Ok(()) => None,
            Err(error) => Some(error),
        };
        self.log = Ghost(before.push(plain(Request::Poll, refusal)));
        proof {
            lemma_evaluated(before, self.log().last());
            assert(before.push(self.log().last()) =~= self.log());
            assert(self.log().take(before.len() as int) =~= before);
            lemma_asked(before, self.log(), Request::Poll, refusal);
        }
        answer
    }

    /// Charge a signed allowance.
    pub fn charge(&mut self, dimension: LimitDimension, amount: u64) -> (answer: Result<
        (),
        WriteTxnError,
    >)
        ensures
            evaluations(final(self).log()) == evaluations(old(self).log()),
            final(self).metered() == old(self).metered(),
            followed(
                old(self).log(),
                final(self).log(),
                seq![Request::Charge { dimension, amount }],
            ),
            answer == outcome(old(self).log(), final(self).log(), Ok::<(), WriteTxnError>(())),
    {
        let ghost before = self.log();
        let answer = match self.host.charge(dimension, amount) {
            Ok(()) => Ok(()),
            Err(denial) => Err(WriteTxnError::Authorization(denial)),
        };
        let ghost refusal = match answer {
            Ok(()) => None,
            Err(error) => Some(error),
        };
        self.log = Ghost(
            before.push(plain(Request::Charge { dimension, amount }, refusal)),
        );
        proof {
            lemma_evaluated(before, self.log().last());
            assert(before.push(self.log().last()) =~= self.log());
            assert(self.log().take(before.len() as int) =~= before);
            lemma_asked(before, self.log(), Request::Charge { dimension, amount }, refusal);
        }
        answer
    }

    /// Poll, then charge work.
    pub fn work(&mut self, amount: u64) -> (answer: Result<(), WriteTxnError>)
        ensures
            evaluations(final(self).log()) == evaluations(old(self).log()),
            final(self).metered() == old(self).metered(),
            followed(old(self).log(), final(self).log(), work_plan(amount)),
            answer == outcome(old(self).log(), final(self).log(), Ok::<(), WriteTxnError>(())),
    {
        let ghost start = self.log();
        let ghost charge = Request::Charge { dimension: LimitDimension::Work, amount };
        proof {
            assert(seq![Request::Poll] + seq![charge] =~= work_plan(amount));
        }
        if let Err(error) = self.poll() {
            proof {
                lemma_followed_extend(start, self.log(), seq![Request::Poll], seq![charge]);
            }
            return Err(error);
        }
        let ghost middle = self.log();
        let answer = self.charge(LimitDimension::Work, amount);
        proof {
            lemma_followed_compose(start, middle, self.log(), seq![Request::Poll], seq![charge]);
        }
        answer
    }

    /// Cancellation of the query that feeds the execution.
    pub fn poll_query(&mut self) -> (answer: Result<(), WriteTxnError>)
        ensures
            evaluations(final(self).log()) == evaluations(old(self).log()),
            final(self).metered() == old(self).metered(),
            followed(old(self).log(), final(self).log(), seq![Request::PollQuery]),
            answer == outcome(old(self).log(), final(self).log(), Ok::<(), WriteTxnError>(())),
    {
        let ghost before = self.log();
        let answer = match self.host.poll_query() {
            Ok(()) => Ok(()),
            Err(error) => Err(error),
        };
        let ghost refusal = match answer {
            Ok(()) => None,
            Err(error) => Some(error),
        };
        self.log = Ghost(before.push(plain(Request::PollQuery, refusal)));
        proof {
            lemma_evaluated(before, self.log().last());
            assert(before.push(self.log().last()) =~= self.log());
            assert(self.log().take(before.len() as int) =~= before);
            lemma_asked(before, self.log(), Request::PollQuery, refusal);
        }
        answer
    }

    /// Poll the query, then charge one unit of work.
    pub fn query_work(&mut self) -> (answer: Result<(), WriteTxnError>)
        ensures
            evaluations(final(self).log()) == evaluations(old(self).log()),
            final(self).metered() == old(self).metered(),
            followed(
                old(self).log(),
                final(self).log(),
                seq![Request::PollQuery] + work_plan(1),
            ),
            answer == outcome(old(self).log(), final(self).log(), Ok::<(), WriteTxnError>(())),
    {
        let ghost start = self.log();
        if let Err(error) = self.poll_query() {
            proof {
                lemma_followed_extend(start, self.log(), seq![Request::PollQuery], work_plan(1));
            }
            return Err(error);
        }
        let ghost middle = self.log();
        let answer = self.work(1);
        proof {
            lemma_followed_compose(
                start,
                middle,
                self.log(),
                seq![Request::PollQuery],
                work_plan(1),
            );
        }
        answer
    }

    /// One cancellation point, charged when the execution is metered.
    pub fn checkpoint(&mut self) -> (answer: Result<(), WriteTxnError>)
        ensures
            evaluations(final(self).log()) == evaluations(old(self).log()),
            final(self).metered() == old(self).metered(),
            followed(old(self).log(), final(self).log(), tick_plan(old(self).metered())),
            ticked(old(self).log(), final(self).log(), old(self).metered()),
            answer == outcome(old(self).log(), final(self).log(), Ok::<(), WriteTxnError>(())),
            answer is Ok ==> final(self).log().len() > old(self).log().len(),
    {
        let answer = match self.metered {
            Metering::Free => self.poll(),
            Metering::Signed => self.work(1),
            Metering::SignedQuery => self.query_work(),
        };
        proof {
            lemma_ticked_once(old(self).log(), self.log(), self.metered);
        }
        answer
    }

    /// Check a vertex write against the capability.
    pub fn check_vertex(
        &mut self,
        before: Option<&VertexRow>,
        after: Option<&VertexRow>,
        fields: &Fields,
    ) -> (answer: Result<(), WriteTxnError>)
        ensures
            evaluations(final(self).log()) == evaluations(old(self).log()),
            final(self).metered() == old(self).metered(),
            followed(
                old(self).log(),
                final(self).log(),
                seq![
                    Request::CheckVertex {
                        before: seen_vertex(before),
                        after: seen_vertex(after),
                        labels: fields.labels@,
                        properties: fields.properties@,
                    },
                ],
            ),
            answer == outcome(old(self).log(), final(self).log(), Ok::<(), WriteTxnError>(())),
    {
        let ghost log = self.log();
        let ghost request = Request::CheckVertex {
            before: seen_vertex(before),
            after: seen_vertex(after),
            labels: fields.labels@,
            properties: fields.properties@,
        };
        let answer = match self.host.check_vertex(before, after, fields) {
            Ok(()) => Ok(()),
            Err(denial) => Err(WriteTxnError::Authorization(denial)),
        };
        let ghost refusal = match answer {
            Ok(()) => None,
            Err(error) => Some(error),
        };
        self.log = Ghost(log.push(plain(request, refusal)));
        proof {
            lemma_evaluated(log, self.log().last());
            assert(log.push(self.log().last()) =~= self.log());
            assert(self.log().take(log.len() as int) =~= log);
            lemma_asked(log, self.log(), request, refusal);
        }
        answer
    }

    /// Check an edge write against the capability.
    pub fn check_edge(
        &mut self,
        before: Option<&EdgeImage>,
        after: Option<&EdgeImage>,
        properties: &IdSet,
    ) -> (answer: Result<(), WriteTxnError>)
        ensures
            evaluations(final(self).log()) == evaluations(old(self).log()),
            final(self).metered() == old(self).metered(),
            followed(
                old(self).log(),
                final(self).log(),
                seq![
                    Request::CheckEdge {
                        before: seen_edge(before),
                        after: seen_edge(after),
                        properties: properties@,
                    },
                ],
            ),
            answer == outcome(old(self).log(), final(self).log(), Ok::<(), WriteTxnError>(())),
    {
        let ghost log = self.log();
        let ghost request = Request::CheckEdge {
            before: seen_edge(before),
            after: seen_edge(after),
            properties: properties@,
        };
        let answer = match self.host.check_edge(before, after, properties) {
            Ok(()) => Ok(()),
            Err(denial) => Err(WriteTxnError::Authorization(denial)),
        };
        let ghost refusal = match answer {
            Ok(()) => None,
            Err(error) => Some(error),
        };
        self.log = Ghost(log.push(plain(request, refusal)));
        proof {
            lemma_evaluated(log, self.log().last());
            assert(log.push(self.log().last()) =~= self.log());
            assert(self.log().take(log.len() as int) =~= log);
            lemma_asked(log, self.log(), request, refusal);
        }
        answer
    }

    /// Evaluate all staged intents. A template that is not in canonical form, or that
    /// creates an edge while it is there, is refused. A redacted evaluation reports no
    /// reason of its own: an evaluation error may carry protected values or identities.
    pub fn prepare(
        &mut self,
        database: &Database,
        staged: &Vec<WriteBatch>,
        redact: bool,
    ) -> (prepared: Result<PreparedWrite, WriteTxnError>)
        requires
            database.wf(),
        ensures
            evaluations(final(self).log()) == match prepared {
                Ok(write) => evaluations(old(self).log()).push(write),
                Err(_) => evaluations(old(self).log()),
            },
            final(self).metered() == old(self).metered(),
            followed(
                old(self).log(),
                final(self).log(),
                seq![Request::Prepare { database: *database, staged: staged@ }],
            ),
            match prepared {
                Ok(write) => refused(old(self).log(), final(self).log()) is None
                    && write.template.wf() && fresh_on(*database, write.template)
                    && final(self).log().last().prepared == Some(write),
                Err(error) => refused(old(self).log(), final(self).log()) == Some(error) && (redact
                    ==> error == WriteTxnError::AuthorizedMutationRefused),
            },
    {
        let ghost before = self.log();
        let mut prepared = self.host.prepare(database, staged);
        if let Ok(write) = &prepared {
            if !write.template.is_wf() || !is_fresh(database, &write.template) {
                prepared = Err(WriteTxnError::Write(WriteError::MalformedTemplate));
            }
        }
        if redact && prepared.is_err() {
            prepared = Err(WriteTxnError::AuthorizedMutationRefused);
        }
        let ghost refusal = match prepared {
            Ok(_) => None,
            Err(error) => Some(error),
        };
        let ghost reply = granted_write(prepared);
        self.log = Ghost(
            before.push(
                Event {
                    prepared: reply,
                    ..plain(Request::Prepare { database: *database, staged: staged@ }, refusal)
                },
            ),
        );
        proof {
            lemma_evaluated(before, self.log().last());
            assert(before.push(self.log().last()) =~= self.log());
            assert(self.log().take(before.len() as int) =~= before);
            lemma_asked(before, self.log(), Request::Prepare { database: *database, staged: staged@ }, refusal);
        }
        prepared
    }

    /// Ask for a fresh identity.
    pub fn allocate(&mut self, kind: IdentityKind, ordinal: u64) -> (issued: Result<
        ElementId,
        WriteTxnError,
    >)
        ensures
            evaluations(final(self).log()) == evaluations(old(self).log()),
            final(self).metered() == old(self).metered(),
            followed(
                old(self).log(),
                final(self).log(),
                seq![Request::Allocate { kind, ordinal }],
            ),
            match issued {
                Ok(element) => {
                    &&& refused(old(self).log(), final(self).log()) is None
                    &&& final(self).log().last().issued == Some(element)
                },
                Err(error) => refused(old(self).log(), final(self).log()) == Some(error),
            },
    {
        let ghost before = self.log();
        let ghost request = Request::Allocate { kind, ordinal };
        let issued = self.host.allocate(kind, ordinal);
        let ghost refusal = match issued {
            Ok(_) => None,
            Err(error) => Some(error),
        };
        let ghost reply = match issued {
            Ok(element) => Some(element),
            Err(_) => None,
        };
        self.log = Ghost(before.push(Event { issued: reply, ..plain(request, refusal) }));
        proof {
            lemma_evaluated(before, self.log().last());
            assert(before.push(self.log().last()) =~= self.log());
            assert(self.log().take(before.len() as int) =~= before);
            lemma_asked(before, self.log(), request, refusal);
        }
        issued
    }

    /// Parse and bind one statement.
    pub fn bind(&mut self, source: &String) -> (bound: Result<BoundPlan, WriteTxnError>)
        ensures
            evaluations(final(self).log()) == evaluations(old(self).log()),
            final(self).metered() == old(self).metered(),
            followed(old(self).log(), final(self).log(), seq![Request::Bind { source: source@ }]),
            match bound {
                Ok(plan) => refused(old(self).log(), final(self).log()) is None
                    && final(self).log().last().bound == Some(plan),
                Err(error) => {
                    &&& refused(old(self).log(), final(self).log()) == Some(error)
                    &&& final(self).log().last().bound is None
                    &&& final(self).log().last().unbound is Some
                    &&& error == WriteTxnError::Gql(
                        bind_failure(final(self).log().last().unbound->0),
                    )
                },
            },
    {
        let ghost before = self.log();
        let ghost request = Request::Bind { source: source@ };
        let raw = self.host.bind(source);
        let bound = match raw {
            Ok(plan) => Ok(plan),
            Err(error) => Err(WriteTxnError::Gql(bind_error(error))),
        };
        let ghost refusal = match bound {
            Ok(_) => None,
            Err(error) => Some(error),
        };
        let ghost reply = match raw {
            Ok(plan) => Event { bound: Some(plan), ..plain(request, refusal) },
            Err(error) => Event { unbound: Some(error), ..plain(request, refusal) },
        };
        self.log = Ghost(before.push(reply));
        proof {
            lemma_evaluated(before, self.log().last());
            assert(before.push(self.log().last()) =~= self.log());
            assert(self.log().take(before.len() as int) =~= before);
            lemma_asked(before, self.log(), request, refusal);
        }
        bound
    }

    /// Evaluate one bound statement. What it observed comes back even if it failed.
    pub fn evaluate(&mut self, transaction: &WriteTxn, database: &Database, plan: &BoundPlan) -> (answer:
        QueryAnswer)
        ensures
            evaluations(final(self).log()) == evaluations(old(self).log()),
            final(self).metered() == old(self).metered(),
            followed(old(self).log(), final(self).log(), seq![Request::Evaluate {
                transaction: *transaction,
                database: *database,
                plan: *plan,
            }]),
            final(self).log().last().answered == Some(answer),
            final(self).log().len() == old(self).log().len() + 1,
            refused(old(self).log(), final(self).log()) == (match answer.rows {
                Ok(_) => None,
                Err(error) => Some(error),
            }),
    {
        let ghost before = self.log();
        let ghost request = Request::Evaluate {
                transaction: *transaction,
                database: *database,
                plan: *plan,
            };
        let answer = self.host.evaluate(transaction, database, plan);
        let ghost refusal = match answer.rows {
            Ok(_) => None,
            Err(error) => Some(error),
        };
        self.log = Ghost(before.push(Event { answered: Some(answer), ..plain(request, refusal) }));
        proof {
            lemma_evaluated(before, self.log().last());
            assert(before.push(self.log().last()) =~= self.log());
            assert(self.log().take(before.len() as int) =~= before);
            lemma_asked(before, self.log(), request, refusal);
        }
        answer
    }
}

} // verus!
