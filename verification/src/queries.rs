//! Queries over the pinned basis and the staged effects: bound once, evaluated
//! once, certified at the basis. What a query observed stays observed even when
//! the query fails afterwards.

use vstd::prelude::*;
use crate::database::{frontier_of, Database};
use crate::errors::{GqlError, WriteTxnError};
use crate::ids::{CommitSeq, ElementId, LabelId, RelationId, VId};
use crate::idset::lemma_push_to_set;
use crate::plan::{
    ask, demand, failure, go, lemma_obeys_ask, lemma_obeys_nothing, lemma_obeys_stop, lemma_step,
    obeys, same_error, stop, upto, whole, Plan,
};
use crate::session::{followed, Event, Host, Request, Session};
use crate::statement::source;
use crate::txn::{ownership_refusal, same_workspace, WriteTxn};

verus! {

/// A parsed and bound statement: the relation that it matches, where it matches
/// one, and what identifies the rest of it.
#[derive(Clone, Copy, PartialEq, Eq, Structural, Debug)]
pub struct BoundPlan {
    pub relation: Option<RelationId>,
    pub digest: u64,
}

/// Why a statement could not be bound.
#[derive(Clone, Copy, PartialEq, Eq, Structural, Debug)]
pub enum BindError {
    Parse(u64),
    Unbound(u64),
}

/// Evidence of a plan at a durable basis.
#[derive(Clone, Copy, PartialEq, Eq, Structural, Debug)]
pub struct GqlPlanCertificate {
    pub plan: BoundPlan,
    pub basis: CommitSeq,
}

/// What an evaluation observed: rows and absences, expanded adjacencies, and the
/// domains whose insertions it depends on.
pub struct Observations {
    pub elements: Vec<ElementId>,
    pub expansions: Vec<(VId, RelationId)>,
    pub labels: Vec<LabelId>,
    pub vertices: bool,
    pub edges: bool,
}

/// What an evaluation handed back.
pub struct QueryAnswer {
    pub observed: Observations,
    pub rows: Result<Vec<VId>, WriteTxnError>,
}

/// A binding refusal as the transaction reports it.
pub open spec fn bind_failure(error: BindError) -> GqlError {
    match error {
        BindError::Parse(code) => GqlError::Parse(code),
        BindError::Unbound(code) => GqlError::Bind(code),
    }
}

/// A binding refusal as the transaction reports it.
pub fn bind_error(error: BindError) -> (reported: GqlError)
    ensures
        reported == bind_failure(error),
{
    match error {
        BindError::Parse(code) => GqlError::Parse(code),
        BindError::Unbound(code) => GqlError::Bind(code),
    }
}

/// The labels as raw identities.
pub open spec fn raw_labels(labels: Seq<LabelId>) -> Set<u128> {
    Set::new(|raw: u128| exists|i: int| 0 <= i < labels.len() && (#[trigger] labels[i]).0 == raw)
}

/// The observations were added, and nothing else changed.
pub open spec fn retained(before: WriteTxn, after: WriteTxn, observed: Observations) -> bool {
    &&& same_workspace(before, after)
    &&& after.read_set@ == before.read_set@.union(observed.elements@.to_set())
    &&& after.match_expansions@ == before.match_expansions@.union(observed.expansions@.to_set())
    &&& after.scanned_vertex_labels@ == before.scanned_vertex_labels@.union(
        raw_labels(observed.labels@),
    )
    &&& after.scanned_vertices == (before.scanned_vertices || observed.vertices)
    &&& after.scanned_edges == (before.scanned_edges || observed.edges)
}

/// The refusals before a query reads its basis.
pub open spec fn query_refusal(txn: WriteTxn, database: Database) -> Option<WriteTxnError> {
    match ownership_refusal(txn, database) {
        Some(error) => Some(error),
        None => match frontier_of(database.state) {
            Err(error) => Some(error),
            Ok(_) => database.history_refusal(txn.basis),
        },
    }
}

impl WriteTxn {
    /// Add what a query observed to what the transaction depends on.
    pub fn retain(&mut self, observed: &Observations)
        requires
            old(self).wf(),
        ensures
            final(self).wf(),
            retained(*old(self), *final(self), *observed),
    {
        let ghost before = *self;
        let mut i: usize = 0;
        proof {
            assert(observed.elements@.take(0).to_set() =~= Set::<ElementId>::empty());
        }
        while i < observed.elements.len()
            invariant
                i <= observed.elements.len(),
                self.wf(),
                same_workspace(before, *self),
                self.match_expansions == before.match_expansions,
                self.scanned_vertex_labels == before.scanned_vertex_labels,
                self.scanned_vertices == before.scanned_vertices,
                self.scanned_edges == before.scanned_edges,
                self.read_set@ =~= before.read_set@.union(
                    observed.elements@.take(i as int).to_set(),
                ),
            decreases observed.elements.len() - i,
        {
            self.read_set.insert(observed.elements[i]);
            proof {
                let seen = observed.elements@.take(i as int);
                assert(observed.elements@.take(i + 1) =~= seen.push(observed.elements@[i as int]));
                lemma_push_to_set(seen, observed.elements@[i as int]);
            }
            i += 1;
        }
        proof {
            assert(observed.elements@.take(i as int) =~= observed.elements@);
            assert(observed.expansions@.take(0).to_set() =~= Set::<(VId, RelationId)>::empty());
        }
        let ghost read = self.read_set@;
        let mut j: usize = 0;
        while j < observed.expansions.len()
            invariant
                j <= observed.expansions.len(),
                self.wf(),
                same_workspace(before, *self),
                self.read_set@ == read,
                self.scanned_vertex_labels == before.scanned_vertex_labels,
                self.scanned_vertices == before.scanned_vertices,
                self.scanned_edges == before.scanned_edges,
                self.match_expansions@ =~= before.match_expansions@.union(
                    observed.expansions@.take(j as int).to_set(),
                ),
            decreases observed.expansions.len() - j,
        {
            let pair = observed.expansions[j];
            self.match_expansions.insert(pair.0, pair.1);
            proof {
                let seen = observed.expansions@.take(j as int);
                assert(observed.expansions@.take(j + 1) =~= seen.push(
                    observed.expansions@[j as int],
                ));
                lemma_push_to_set(seen, observed.expansions@[j as int]);
            }
            j += 1;
        }
        proof {
            assert(observed.expansions@.take(j as int) =~= observed.expansions@);
        }
        let ghost expanded = self.match_expansions@;
        let mut k: usize = 0;
        proof {
            assert(raw_labels(observed.labels@.take(0)) =~= Set::<u128>::empty());
        }
        while k < observed.labels.len()
            invariant
                k <= observed.labels.len(),
                self.wf(),
                same_workspace(before, *self),
                self.read_set@ == read,
                self.match_expansions@ == expanded,
                self.scanned_vertices == before.scanned_vertices,
                self.scanned_edges == before.scanned_edges,
                self.scanned_vertex_labels@ =~= before.scanned_vertex_labels@.union(
                    raw_labels(observed.labels@.take(k as int)),
                ),
            decreases observed.labels.len() - k,
        {
            let label = observed.labels[k];
            self.scanned_vertex_labels.insert(label.0 as u128);
            proof {
                lemma_raw_push(observed.labels@, k as int);
            }
            k += 1;
        }
        proof {
            assert(observed.labels@.take(k as int) =~= observed.labels@);
        }
        self.scanned_vertices = self.scanned_vertices || observed.vertices;
        self.scanned_edges = self.scanned_edges || observed.edges;
    }
}

proof fn lemma_raw_push(labels: Seq<LabelId>, n: int)
    requires
        0 <= n < labels.len(),
    ensures
        raw_labels(labels.take(n + 1)) == raw_labels(labels.take(n)).insert(
            labels[n].0 as u128,
        ),
{
    let seen = labels.take(n);
    let next = labels.take(n + 1);
    assert forall|raw: u128| #[trigger]
        raw_labels(next).contains(raw) == raw_labels(seen).insert(labels[n].0 as u128).contains(
            raw,
        ) by {
        if raw_labels(next).contains(raw) {
            let i = choose|i: int| 0 <= i < next.len() && (#[trigger] next[i]).0 == raw;
            if i < n {
                assert(seen[i].0 == raw);
            }
        }
        if raw_labels(seen).contains(raw) {
            let i = choose|i: int| 0 <= i < seen.len() && (#[trigger] seen[i]).0 == raw;
            assert(next[i].0 == raw);
        }
        assert(next[n] == labels[n]);
    }
    assert(raw_labels(next) =~= raw_labels(seen).insert(labels[n].0 as u128));
}

/// What a query over the overlay asks: it must be pinned in its own healthy database,
/// and is evaluated exactly once, over this transaction and this database.
pub open spec fn query_steps(txn: WriteTxn, database: Database, plan: BoundPlan) -> Seq<
    Plan<WriteTxnError>,
> {
    seq![
        demand(txn.pin is Some, WriteTxnError::Finished),
        match query_refusal(txn, database) {
            Some(error) => stop(error),
            None => go(),
        },
        ask(seq![Request::Evaluate { transaction: txn, database, plan }]),
    ]
}

/// How a bound query runs. Its observations stay even if it fails.
pub open spec fn queries(
    before: WriteTxn,
    after: WriteTxn,
    database: Database,
    plan: BoundPlan,
    log: Seq<Event>,
    log_after: Seq<Event>,
    rows: Result<Vec<VId>, WriteTxnError>,
) -> bool {
    &&& obeys(log, log_after, whole(query_steps(before, database, plan)), same_error(), failure(
        rows,
    ))
    &&& if before.pin is Some && query_refusal(before, database) is None {
        &&& log_after.len() == log.len() + 1
        &&& log_after.last().answered is Some
        &&& retained(before, after, log_after.last().answered->0.observed)
        &&& rows == log_after.last().answered->0.rows
    } else {
        after == before
    }
}

/// What binding a statement asks.
pub open spec fn bind_steps(txn: WriteTxn, source: Seq<char>) -> Seq<Plan<WriteTxnError>> {
    seq![demand(txn.pin is Some, WriteTxnError::Finished), ask(seq![Request::Bind { source }])]
}

/// A statement's plan was bound: exactly once, and never for an ended transaction.
pub open spec fn binds(
    txn: WriteTxn,
    source: Seq<char>,
    log: Seq<Event>,
    log_after: Seq<Event>,
    bound: Result<BoundPlan, WriteTxnError>,
) -> bool {
    &&& obeys(log, log_after, whole(bind_steps(txn, source)), same_error(), failure(bound))
    &&& match bound {
        Ok(plan) => log_after.len() == log.len() + 1 && log_after.last().bound == Some(plan),
        Err(error) => txn.pin is Some ==> {
            &&& log_after.len() == log.len() + 1
            &&& log_after.last().bound is None
            &&& log_after.last().unbound is Some
            &&& error == WriteTxnError::Gql(bind_failure(log_after.last().unbound->0))
        },
    }
}

/// How the text of a query runs: bound once, then run as a bound query.
pub open spec fn runs_text(
    before: WriteTxn,
    after: WriteTxn,
    database: Database,
    source: Seq<char>,
    log: Seq<Event>,
    log_after: Seq<Event>,
    rows: Result<Vec<VId>, WriteTxnError>,
) -> bool {
    ||| rows is Err && after == before && binds(
        before,
        source,
        log,
        log_after,
        Err::<BoundPlan, WriteTxnError>(rows->Err_0),
    )
    ||| ({
        let middle = log_after.take(log.len() as int + 1);
        &&& log_after.len() > log.len()
        &&& middle.last().bound matches Some(plan)
        &&& binds(before, source, log, middle, Ok::<BoundPlan, WriteTxnError>(plan))
        &&& queries(before, after, database, plan, middle, log_after, rows)
    })
}

/// What a certified result is evidence of: its plan, at the transaction's basis.
pub open spec fn certificate(plan: BoundPlan, txn: WriteTxn) -> GqlPlanCertificate {
    GqlPlanCertificate { plan, basis: txn.basis }
}

/// The rows of a certified result.
pub open spec fn certified_rows(
    result: Result<(Vec<VId>, GqlPlanCertificate), WriteTxnError>,
) -> Result<Vec<VId>, WriteTxnError> {
    match result {
        Ok((rows, _)) => Ok(rows),
        Err(error) => Err(error),
    }
}

impl WriteTxn {
    /// Bind one statement.
    fn bind_gql_plan<H: Host>(&self, source: &String, session: &mut Session<H>) -> (bound: Result<
        BoundPlan,
        WriteTxnError,
    >)
        ensures
            final(session).metered() == old(session).metered(),
            binds(*self, source@, old(session).log(), final(session).log(), bound),
            bound is Ok ==> self.pin is Some,
    {
        let ghost start = session.log();
        let ghost steps = bind_steps(*self, source@);
        proof {
            lemma_obeys_nothing(start, same_error());
            lemma_obeys_stop(start, same_error(), WriteTxnError::Finished);
            let failed = if self.pin is Some {
                None
            } else {
                Some(WriteTxnError::Finished)
            };
            lemma_step(start, start, start, steps, 0, same_error(), failed);
        }
        if self.pin.is_none() {
            return Err(WriteTxnError::Finished);
        }
        let bound = session.bind(source);
        proof {
            lemma_obeys_ask(
                start,
                session.log(),
                seq![Request::Bind { source: source@ }],
                same_error(),
            );
            lemma_step(start, start, session.log(), steps, 1, same_error(), failure(bound));
        }
        bound
    }

    /// Run a node scan over the overlay.
    fn execute_prepared_node_scan<H: Host>(
        &mut self,
        database: &Database,
        plan: &BoundPlan,
        session: &mut Session<H>,
    ) -> (rows: Result<Vec<VId>, WriteTxnError>)
        requires
            old(self).wf(),
            old(self).pin is Some,
            database.wf(),
        ensures
            final(self).wf(),
            final(session).metered() == old(session).metered(),
            queries(
                *old(self),
                *final(self),
                *database,
                *plan,
                old(session).log(),
                final(session).log(),
                rows,
            ),
    {
        self.evaluate_plan(database, plan, session)
    }

    /// Run an edge match over the overlay.
    fn execute_prepared_edge_match<H: Host>(
        &mut self,
        database: &Database,
        plan: &BoundPlan,
        edge_relation: RelationId,
        session: &mut Session<H>,
    ) -> (rows: Result<Vec<VId>, WriteTxnError>)
        requires
            old(self).wf(),
            old(self).pin is Some,
            plan.relation == Some(edge_relation),
            database.wf(),
        ensures
            final(self).wf(),
            final(session).metered() == old(session).metered(),
            queries(
                *old(self),
                *final(self),
                *database,
                *plan,
                old(session).log(),
                final(session).log(),
                rows,
            ),
    {
        self.evaluate_plan(database, plan, session)
    }

    fn evaluate_plan<H: Host>(
        &mut self,
        database: &Database,
        plan: &BoundPlan,
        session: &mut Session<H>,
    ) -> (rows: Result<Vec<VId>, WriteTxnError>)
        requires
            old(self).wf(),
            old(self).pin is Some,
            database.wf(),
        ensures
            final(self).wf(),
            final(session).metered() == old(session).metered(),
            queries(
                *old(self),
                *final(self),
                *database,
                *plan,
                old(session).log(),
                final(session).log(),
                rows,
            ),
    {
        let ghost start = session.log();
        let ghost before = *self;
        let ghost steps = query_steps(before, *database, *plan);
        let checked = self.query_snapshot(database);
        proof {
            lemma_obeys_nothing(start, same_error());
            lemma_step(start, start, start, steps, 0, same_error(), None);
            if checked is Err {
                lemma_obeys_stop(start, same_error(), checked->Err_0);
            }
            lemma_step(start, start, start, steps, 1, same_error(), failure(checked));
        }
        if let Err(error) = checked {
            return Err(error);
        }
        let answer = session.evaluate(self, database, plan);
        let ghost replied = answer;
        proof {
            lemma_obeys_ask(
                start,
                session.log(),
                seq![
                    Request::Evaluate { transaction: *self, database: *database, plan: *plan },
                ],
                same_error(),
            );
            lemma_step(start, start, session.log(), steps, 2, same_error(), failure(answer.rows));
        }
        self.retain(&answer.observed);
        answer.rows
    }

    /// The checks before any query of this transaction: owner, lifecycle, health and
    /// a basis that is still retained. A newer frontier is no refusal.
    pub fn query_snapshot(&self, database: &Database) -> (checked: Result<(), WriteTxnError>)
        requires
            database.wf(),
        ensures
            failure(checked) == query_refusal(*self, *database),
    {
        if let Err(error) = self.ensure_database(database) {
            return Err(error);
        }
        if let Err(error) = database.frontier() {
            return Err(error);
        }
        match database.delta_since(self.basis) {
            Ok(_) => Ok(()),
            Err(error) => Err(error),
        }
    }

    /// Run a bound query over the pinned basis and the staged effects.
    pub fn execute_prepared_gql<H: Host>(
        &mut self,
        database: &Database,
        plan: &BoundPlan,
        session: &mut Session<H>,
    ) -> (rows: Result<Vec<VId>, WriteTxnError>)
        requires
            old(self).wf(),
            database.wf(),
        ensures
            final(self).wf(),
            final(session).metered() == old(session).metered(),
            queries(
                *old(self),
                *final(self),
                *database,
                *plan,
                old(session).log(),
                final(session).log(),
                rows,
            ),
    {
        if self.pin.is_none() {
            proof {
                let start = session.log();
                let steps = query_steps(*self, *database, *plan);
                lemma_obeys_nothing(start, same_error());
                lemma_obeys_stop(start, same_error(), WriteTxnError::Finished);
                lemma_step(
                    start,
                    start,
                    start,
                    steps,
                    0,
                    same_error(),
                    Some(WriteTxnError::Finished),
                );
            }
            return Err(WriteTxnError::Finished);
        }
        match plan.relation {
            None => self.execute_prepared_node_scan(database, plan, session),
            Some(relation) => self.execute_prepared_edge_match(database, plan, relation, session),
        }
    }

    /// Bind the text of a query exactly once, then run it.
    pub fn execute_gql<H: Host>(
        &mut self,
        database: &Database,
        source: &String,
        session: &mut Session<H>,
    ) -> (rows: Result<Vec<VId>, WriteTxnError>)
        requires
            old(self).wf(),
            database.wf(),
        ensures
            final(self).wf(),
            final(session).metered() == old(session).metered(),
            runs_text(
                *old(self),
                *final(self),
                *database,
                source@,
                old(session).log(),
                final(session).log(),
                rows,
            ),
    {
        let ghost start = session.log();
        let ghost before = *self;
        let bound = self.bind_gql_plan(source, session);
        let ghost middle = session.log();
        assert(binds(before, source@, start, middle, bound));
        match bound {
            Err(error) => Err(error),
            Ok(plan) => {
                let rows = self.execute_prepared_gql(database, &plan, session);
                proof {
                    assert(session.log().take(start.len() as int + 1) =~= middle) by {
                        assert(session.log().take(middle.len() as int) == middle);
                    }
                    assert(session.log()[start.len() as int] == middle.last());
                }
                rows
            },
        }
    }

    /// Run a bound query, then certify its plan at the transaction's basis. Nothing
    /// is certified of a query that failed.
    pub fn execute_prepared_gql_certified<H: Host>(
        &mut self,
        database: &Database,
        plan: &BoundPlan,
        session: &mut Session<H>,
    ) -> (result: Result<(Vec<VId>, GqlPlanCertificate), WriteTxnError>)
        requires
            old(self).wf(),
            database.wf(),
        ensures
            final(self).wf(),
            final(session).metered() == old(session).metered(),
            queries(
                *old(self),
                *final(self),
                *database,
                *plan,
                old(session).log(),
                final(session).log(),
                certified_rows(result),
            ),
            result is Ok ==> result->Ok_0.1 == certificate(*plan, *old(self)),
    {
        match self.execute_prepared_gql(database, plan, session) {
            Err(error) => Err(error),
            Ok(rows) => Ok((rows, GqlPlanCertificate { plan: *plan, basis: self.basis })),
        }
    }

    /// Bind the text of a query once, run it once, and certify its plan at the
    /// transaction's basis, not at the database's newer frontier.
    pub fn execute_gql_certified<H: Host>(
        &mut self,
        database: &Database,
        source: &String,
        session: &mut Session<H>,
    ) -> (result: Result<(Vec<VId>, GqlPlanCertificate), WriteTxnError>)
        requires
            old(self).wf(),
            database.wf(),
        ensures
            final(self).wf(),
            final(session).metered() == old(session).metered(),
            runs_text(
                *old(self),
                *final(self),
                *database,
                source@,
                old(session).log(),
                final(session).log(),
                certified_rows(result),
            ),
            result is Ok ==> {
                let bound = final(session).log()[old(session).log().len() as int].bound;
                &&& bound is Some
                &&& result->Ok_0.1 == certificate(bound->0, *old(self))
            },
    {
        let ghost start = session.log();
        let ghost before = *self;
        let bound = self.bind_gql_plan(source, session);
        let ghost middle = session.log();
        assert(binds(before, source@, start, middle, bound));
        match bound {
            Err(error) => Err(error),
            Ok(plan) => {
                let rows = self.execute_prepared_gql_certified(database, &plan, session);
                proof {
                    assert(session.log().take(start.len() as int + 1) =~= middle) by {
                        assert(session.log().take(middle.len() as int) == middle);
                    }
                    assert(session.log()[start.len() as int] == middle.last());
                }
                rows
            },
        }
    }

    /// Certify a bound plan at the transaction's basis, without running it.
    pub fn prepared_gql_plan_certificate(&self, plan: &BoundPlan) -> (certified: Result<
        GqlPlanCertificate,
        WriteTxnError,
    >)
        ensures
            certified == (if self.pin is Some {
                Ok(certificate(*plan, *self))
            } else {
                Err::<GqlPlanCertificate, WriteTxnError>(WriteTxnError::Finished)
            }),
    {
        if self.pin.is_none() {
            return Err(WriteTxnError::Finished);
        }
        Ok(GqlPlanCertificate { plan: *plan, basis: self.basis })
    }

    /// Bind one statement exactly once and certify its plan, without running it.
    pub fn gql_plan_certificate<H: Host>(&self, source: &String, session: &mut Session<H>) -> (certified:
        Result<GqlPlanCertificate, WriteTxnError>)
        ensures
            final(session).metered() == old(session).metered(),
            match certified {
                Err(error) => binds(
                    *self,
                    source@,
                    old(session).log(),
                    final(session).log(),
                    Err::<BoundPlan, WriteTxnError>(error),
                ),
                Ok(found) => found.basis == self.basis && binds(
                    *self,
                    source@,
                    old(session).log(),
                    final(session).log(),
                    Ok::<BoundPlan, WriteTxnError>(found.plan),
                ),
            },
    {
        match self.bind_gql_plan(source, session) {
            Err(error) => Err(error),
            Ok(plan) => self.prepared_gql_plan_certificate(&plan),
        }
    }
}

/// A plan's certificate is the certificate of running it, where the binder answers the
/// same text alike, and certifying runs nothing: it asks for the binding and no more.
pub proof fn law_plan_certificates_agree_with_runs(
    txn: WriteTxn,
    source: Seq<char>,
    log: Seq<Event>,
    log_after: Seq<Event>,
    planned: GqlPlanCertificate,
    run_log: Seq<Event>,
    run_log_after: Seq<Event>,
    ran: GqlPlanCertificate,
)
    requires
        planned.basis == txn.basis,
        binds(txn, source, log, log_after, Ok::<BoundPlan, WriteTxnError>(planned.plan)),
        run_log_after[run_log.len() as int].bound is Some,
        ran == certificate(run_log_after[run_log.len() as int].bound->0, txn),
        run_log_after[run_log.len() as int].bound == log_after.last().bound,
    ensures
        planned == ran,
        log_after.len() == log.len() + 1,
{
}

/// An ended transaction certifies nothing and asks for nothing.
pub proof fn law_ended_transactions_certify_nothing(
    txn: WriteTxn,
    source: Seq<char>,
    log: Seq<Event>,
    log_after: Seq<Event>,
    bound: Result<BoundPlan, WriteTxnError>,
)
    requires
        txn.pin is None,
        binds(txn, source, log, log_after, bound),
    ensures
        failure(bound) == Some(WriteTxnError::Finished),
        log_after == log,
{
    let steps = bind_steps(txn, source);
    reveal_with_fuel(upto, 3);
    assert(upto(steps, 1).verdict is Some);
    assert(whole(steps).asks =~= Seq::<Request>::empty());
    assert(followed(log, log_after, whole(steps).asks));
}

} // verus!
