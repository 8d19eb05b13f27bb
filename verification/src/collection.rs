//! Collecting one authorized statement: prepare the source that it selects from, ask
//! under the verified scope, pay every callback on the statement's own session, and
//! issue the identities of its creations.

use vstd::prelude::*;
use crate::authorized_program::{reads, selects_graph, StatementKind, StepProposal};
use crate::collector::{Asked, Callback, Collected, Collector, Prepared, Recorder};
use crate::controls::{control_asks, pay_control, stopped};
use crate::database::Database;
use crate::draft::{accept, acceptable, needs, resolve, resolves, Draft, MergeTarget, StepDraft};
use crate::identity::{high_of, identity_of, reserve_steps, reserves, IdentityState};
use crate::ids::ElementId;
use crate::plan::{failure, obeys, same_error, whole};
use crate::scope::Predicates;
use crate::selection::{prepares_source, selection_error, selection_fault, SelectionSource};
use crate::session::{followed, refused, Event, Host, IdentityKind, Session};
use crate::statement::{Fault, StatementStats};
use crate::txn::{keeps_observations, same_workspace, WriteTxn};

verus! {

/// One callback, served or stopped. An identity comes from the handle's own
/// allocator.
pub open spec fn serves(
    database: Database,
    callback: Callback,
    before: IdentityState,
    after: IdentityState,
    log: Seq<Event>,
    log_after: Seq<Event>,
    failed: Option<Fault>,
) -> bool {
    match callback {
        Callback::Control(control) => {
            &&& after == before
            &&& followed(log, log_after, control_asks(control))
            &&& failed == stopped(refused(log, log_after))
        },
        Callback::Issue(kind) => match failed {
            None => {
                &&& obeys(
                    log,
                    log_after,
                    whole(reserve_steps(before, database, kind)),
                    same_error(),
                    None,
                )
                &&& reserves(
                    before,
                    after,
                    database,
                    kind,
                    Ok(identity_of(kind, high_of(after, kind))),
                )
            },
            Some(Fault::IdentitySource(error)) => {
                &&& obeys(
                    log,
                    log_after,
                    whole(reserve_steps(before, database, kind)),
                    same_error(),
                    Some(error),
                )
                &&& reserves(before, after, database, kind, Err(error))
            },
            _ => false,
        },
    }
}

/// The states of the allocator and the logs after each callback.
pub struct Service {
    pub states: Seq<IdentityState>,
    pub logs: Seq<Seq<Event>>,
}

/// The first `n` callbacks were served, one after the other.
pub open spec fn serves_upto(
    database: Database,
    callbacks: Seq<Callback>,
    n: int,
    service: Service,
) -> bool {
    &&& service.states.len() == n + 1
    &&& service.logs.len() == n + 1
    &&& forall|k: int|
        #![trigger service.states[k]]
        0 <= k < n ==> serves(
            database,
            callbacks[k],
            service.states[k],
            service.states[k + 1],
            service.logs[k],
            service.logs[k + 1],
            None,
        )
}

/// The identities that the first `n` callbacks issued, in order.
pub open spec fn issued_upto(callbacks: Seq<Callback>, states: Seq<IdentityState>, n: int) -> Seq<
    ElementId,
>
    decreases n,
{
    if n <= 0 {
        Seq::empty()
    } else {
        match callbacks[n - 1] {
            Callback::Control(_) => issued_upto(callbacks, states, n - 1),
            Callback::Issue(kind) => issued_upto(callbacks, states, n - 1).push(
                identity_of(kind, high_of(states[n], kind)),
            ),
        }
    }
}

/// The kinds of identity that the first `n` callbacks ask for, in order.
pub open spec fn requested_upto(callbacks: Seq<Callback>, n: int) -> Seq<IdentityKind>
    decreases n,
{
    if n <= 0 {
        Seq::empty()
    } else {
        match callbacks[n - 1] {
            Callback::Control(_) => requested_upto(callbacks, n - 1),
            Callback::Issue(kind) => requested_upto(callbacks, n - 1).push(kind),
        }
    }
}

/// How the callbacks of a collector were served, and with which identities.
pub open spec fn serves_all(
    database: Database,
    callbacks: Seq<Callback>,
    service: Service,
    before: IdentityState,
    after: IdentityState,
    log: Seq<Event>,
    log_after: Seq<Event>,
    served: Result<Seq<ElementId>, Fault>,
) -> bool {
    let n = service.states.len() - 1;
    &&& 0 <= n <= callbacks.len()
    &&& serves_upto(database, callbacks, n, service)
    &&& service.states[0] == before
    &&& service.logs[0] == log
    &&& match served {
        Ok(issued) => {
            &&& n == callbacks.len()
            &&& after == service.states[n]
            &&& log_after == service.logs[n]
            &&& issued == issued_upto(callbacks, service.states, n)
        },
        Err(fault) => {
            &&& n < callbacks.len()
            &&& serves(
                database,
                callbacks[n],
                service.states[n],
                after,
                service.logs[n],
                log_after,
                Some(fault),
            )
        },
    }
}

/// What a collector's answer comes to, once its callbacks were served.
pub open spec fn concludes(
    prepared: Prepared,
    answer: Collected,
    issued: Seq<ElementId>,
    done: Result<(StepProposal, StatementStats), Fault>,
) -> bool {
    match answer.outcome {
        Err(error) => failure(done) == Some(selection_fault(error)),
        Ok(proposed) => if acceptable(prepared.kind, proposed.draft) && needs(proposed.draft)
            == requested_upto(answer.callbacks@, answer.callbacks@.len() as int) {
            &&& done matches Ok((proposal, stats))
            &&& resolves(proposed.draft, prepared.statement.policy, issued, proposal)
            &&& stats == proposed.stats
        } else {
            failure(done) == Some(Fault::InvalidSourceShape)
        },
    }
}

/// What collecting went through.
pub struct Collecting {
    pub source: Result<Option<SelectionSource>, Fault>,
    pub log_source: Seq<Event>,
    pub answer: Collected,
    pub service: Service,
    pub served: Result<Seq<ElementId>, Fault>,
}

/// The source of a statement: prepared on the same session where it reads the graph,
/// none where it does not.
pub open spec fn sources(
    before: WriteTxn,
    after: WriteTxn,
    database: Database,
    prepared: Prepared,
    log: Seq<Event>,
    log_after: Seq<Event>,
    source: Result<Option<SelectionSource>, Fault>,
) -> bool {
    if reads(prepared.kind) {
        &&& source != Ok::<Option<SelectionSource>, Fault>(None)
        &&& prepares_source(
            before,
            after,
            database,
            prepared.statement.reads_edges,
            log,
            log_after,
            match source {
                Ok(found) => Ok(found->0),
                Err(fault) => Err(fault),
            },
        )
    } else {
        &&& source == Ok::<Option<SelectionSource>, Fault>(None)
        &&& after == before
        &&& log_after == log
    }
}

/// How one statement is collected, whatever the host and the collector answer.
pub open spec fn collects_by(
    before: WriteTxn,
    after: WriteTxn,
    database: Database,
    index: int,
    prepared: Prepared,
    scope: Predicates,
    identities: IdentityState,
    identities_after: IdentityState,
    log: Seq<Event>,
    log_after: Seq<Event>,
    asked: Seq<Asked>,
    asked_after: Seq<Asked>,
    run: Collecting,
    done: Result<(StepProposal, StatementStats), Fault>,
) -> bool {
    &&& sources(before, after, database, prepared, log, run.log_source, run.source)
    &&& match run.source {
        Err(fault) => {
            &&& failure(done) == Some(fault)
            &&& identities_after == identities
            &&& log_after == run.log_source
            &&& asked_after == asked
        },
        Ok(source) => {
            &&& asked_after == asked.push(
                Asked {
                    index,
                    prepared,
                    source,
                    scope,
                    transaction: after,
                    database,
                    answer: run.answer,
                },
            )
            &&& serves_all(
                database,
                run.answer.callbacks@,
                run.service,
                identities,
                identities_after,
                run.log_source,
                log_after,
                run.served,
            )
            &&& match run.served {
                Err(fault) => failure(done) == Some(fault),
                Ok(issued) => concludes(prepared, run.answer, issued, done),
            }
        },
    }
}

/// How one statement is collected.
pub open spec fn collects(
    before: WriteTxn,
    after: WriteTxn,
    database: Database,
    index: int,
    prepared: Prepared,
    scope: Predicates,
    identities: IdentityState,
    identities_after: IdentityState,
    log: Seq<Event>,
    log_after: Seq<Event>,
    asked: Seq<Asked>,
    asked_after: Seq<Asked>,
    done: Result<(StepProposal, StatementStats), Fault>,
) -> bool {
    exists|run: Collecting| #[trigger]
        collects_by(
            before,
            after,
            database,
            index,
            prepared,
            scope,
            identities,
            identities_after,
            log,
            log_after,
            asked,
            asked_after,
            run,
            done,
        )
}

proof fn lemma_issued_same(
    callbacks: Seq<Callback>,
    left: Seq<IdentityState>,
    right: Seq<IdentityState>,
    n: int,
)
    requires
        forall|k: int| 0 <= k <= n ==> left[k] == right[k],
    ensures
        issued_upto(callbacks, left, n) == issued_upto(callbacks, right, n),
    decreases n,
{
    if n > 0 {
        lemma_issued_same(callbacks, left, right, n - 1);
        assert(left[n] == right[n]);
    }
}

/// Each identity issued is of the kind that was asked for.
pub proof fn lemma_issued_kinds(callbacks: Seq<Callback>, states: Seq<IdentityState>, n: int)
    ensures
        issued_upto(callbacks, states, n).len() == requested_upto(callbacks, n).len(),
        forall|i: int|
            0 <= i < issued_upto(callbacks, states, n).len() ==> (match requested_upto(
                callbacks,
                n,
            )[i] {
                IdentityKind::Vertex => (
                #[trigger] issued_upto(callbacks, states, n)[i]) is Vertex,
                IdentityKind::Edge => issued_upto(callbacks, states, n)[i] is Edge,
            }),
    decreases n,
{
    if n > 0 {
        lemma_issued_kinds(callbacks, states, n - 1);
    }
}

/// The identities that were issued, or what stopped that.
pub open spec fn listed(served: Result<Vec<ElementId>, Fault>) -> Result<Seq<ElementId>, Fault> {
    match served {
        Ok(issued) => Ok(issued@),
        Err(fault) => Err(fault),
    }
}

/// Serve the callbacks of a collector, in order, up to the first that is stopped.
fn serve<H: Host>(
    database: &Database,
    callbacks: &Vec<Callback>,
    identities: &mut IdentityState,
    session: &mut Session<H>,
) -> (served: Result<Vec<ElementId>, Fault>)
    requires
        database.wf(),
    ensures
        final(session).metered() == old(session).metered(),
        exists|service: Service| #[trigger]
            serves_all(
                *database,
                callbacks@,
                service,
                *old(identities),
                *final(identities),
                old(session).log(),
                final(session).log(),
                listed(served),
            ),
{
    let ghost mut service = Service { states: seq![*identities], logs: seq![session.log()] };
    let mut issued: Vec<ElementId> = Vec::new();
    let mut i: usize = 0;
    while i < callbacks.len()
        invariant
            i <= callbacks.len(),
            database.wf(),
            session.metered() == old(session).metered(),
            serves_upto(*database, callbacks@, i as int, service),
            service.states[0] == *old(identities),
            service.logs[0] == old(session).log(),
            service.states[i as int] == *identities,
            service.logs[i as int] == session.log(),
            issued@ == issued_upto(callbacks@, service.states, i as int),
        decreases callbacks.len() - i,
    {
        let ghost before = *identities;
        let ghost log = session.log();
        match callbacks[i] {
            Callback::Control(control) => {
                if let Err(fault) = pay_control(control, session) {
                    assert(serves_all(
                        *database, callbacks@, service, *old(identities), *identities,
                        old(session).log(), session.log(), Err(fault),
                    ));
                    return Err(fault);
                }
            },
            Callback::Issue(kind) => match database.allocate_identity(identities, kind, session) {
                Ok(element) => issued.push(element),
                Err(error) => {
                    let fault = Fault::IdentitySource(error);
                    assert(serves_all(
                        *database, callbacks@, service, *old(identities), *identities,
                        old(session).log(), session.log(), Err(fault),
                    ));
                    return Err(fault);
                },
            },
        }
        proof {
            let earlier = service;
            service = Service {
                states: service.states.push(*identities),
                logs: service.logs.push(session.log()),
            };
            assert(serves(
                *database, callbacks@[i as int], before, *identities, log, session.log(), None,
            ));
            assert forall|k: int|
                #![trigger service.states[k]]
                0 <= k < i + 1 implies serves(
                *database,
                callbacks@[k],
                service.states[k],
                service.states[k + 1],
                service.logs[k],
                service.logs[k + 1],
                None,
            ) by {
                if k < i {
                    assert(earlier.states[k] == service.states[k]);
                    assert(earlier.states[k + 1] == service.states[k + 1]);
                }
            }
            lemma_issued_same(callbacks@, earlier.states, service.states, i as int);
        }
        i += 1;
    }
    assert(serves_all(
        *database, callbacks@, service, *old(identities), *identities, old(session).log(),
        session.log(), Ok(issued@),
    ));
    Ok(issued)
}

/// The kinds of identity that a collector asked for.
fn list_requested(callbacks: &Vec<Callback>) -> (kinds: Vec<IdentityKind>)
    ensures
        kinds@ == requested_upto(callbacks@, callbacks@.len() as int),
{
    let mut kinds: Vec<IdentityKind> = Vec::new();
    let mut i: usize = 0;
    while i < callbacks.len()
        invariant
            i <= callbacks.len(),
            kinds@ == requested_upto(callbacks@, i as int),
        decreases callbacks.len() - i,
    {
        match callbacks[i] {
            Callback::Control(_) => {},
            Callback::Issue(kind) => kinds.push(kind),
        }
        i += 1;
    }
    kinds
}

/// The kinds of identity that a draft needs.
fn list_needs(draft: &StepDraft) -> (kinds: Vec<IdentityKind>)
    ensures
        kinds@ == needs(*draft),
{
    let mut kinds: Vec<IdentityKind> = Vec::new();
    match draft {
        StepDraft::Insert { drafts, .. } => {
            let mut i: usize = 0;
            while i < drafts.len()
                invariant
                    i <= drafts.len(),
                    needs(*draft).len() == drafts@.len(),
                    forall|k: int|
                        0 <= k < drafts@.len() ==> #[trigger] needs(*draft)[k]
                            == crate::draft::draft_kind(drafts@[k]),
                    kinds@ =~= needs(*draft).take(i as int),
                decreases drafts.len() - i,
            {
                match &drafts[i] {
                    Draft::Vertex { .. } => kinds.push(IdentityKind::Vertex),
                    Draft::Edge { .. } => kinds.push(IdentityKind::Edge),
                }
                i += 1;
            }
            assert(kinds@ =~= needs(*draft));
        },
        StepDraft::VertexMerge { target: MergeTarget::Missing { .. }, .. } => {
            kinds.push(IdentityKind::Vertex);
        },
        StepDraft::VertexUpsert { target: MergeTarget::Missing { .. }, .. } => {
            kinds.push(IdentityKind::Vertex);
        },
        _ => {},
    }
    assert(kinds@ =~= needs(*draft));
    kinds
}

/// Whether a draft needs exactly what was asked for.
fn needs_requested(draft: &StepDraft, callbacks: &Vec<Callback>) -> (same: bool)
    ensures
        same == (needs(*draft) == requested_upto(callbacks@, callbacks@.len() as int)),
{
    let left = list_needs(draft);
    let right = list_requested(callbacks);
    if left.len() != right.len() {
        return false;
    }
    let mut i: usize = 0;
    while i < left.len()
        invariant
            i <= left.len(),
            left@ == needs(*draft),
            right@ == requested_upto(callbacks@, callbacks@.len() as int),
            left@.len() == right@.len(),
            forall|k: int| 0 <= k < i ==> left@[k] == right@[k],
        decreases left.len() - i,
    {
        if left[i] != right[i] {
            assert(left@[i as int] != right@[i as int]);
            return false;
        }
        i += 1;
    }
    assert(left@ =~= right@);
    true
}

impl WriteTxn {
    /// Collect one statement under a verified scope.
    pub fn collect<C: Collector, H: Host>(
        &mut self,
        database: &Database,
        index: usize,
        prepared: &Prepared,
        scope: &Predicates,
        identities: &mut IdentityState,
        collector: &mut Recorder<C>,
        session: &mut Session<H>,
    ) -> (done: Result<(StepProposal, StatementStats), Fault>)
        requires
            old(self).wf(),
            database.wf(),
        ensures
            final(self).wf(),
            same_workspace(*old(self), *final(self)),
            keeps_observations(*old(self), *final(self)),
            final(session).metered() == old(session).metered(),
            done matches Ok((StepProposal::Delete { proposal: targets, .. }, _)) ==> targets.wf(),
            done matches Ok((proposal, _)) ==> proposes(prepared.kind, proposal),
            collects(
                *old(self),
                *final(self),
                *database,
                index as int,
                *prepared,
                *scope,
                *old(identities),
                *final(identities),
                old(session).log(),
                final(session).log(),
                old(collector).asked(),
                final(collector).asked(),
                done,
            ),
    {
        let ghost before = *self;
        let ghost start = session.log();
        let ghost asked = collector.asked();
        let ghost ids = *identities;
        let ghost mut run: Collecting = arbitrary();
        let source = if selects_graph(prepared.kind) {
            match self.select_overlay(database, prepared.statement.reads_edges, session) {
                Ok(source) => Ok(Some(source)),
                Err(fault) => Err(fault),
            }
        } else {
            Ok(None)
        };
        proof {
            run.source = source;
            run.log_source = session.log();
            assert(sources(before, *self, *database, *prepared, start, session.log(), source));
        }
        let source = match source {
            Ok(source) => source,
            Err(fault) => {
                assert(collects_by(
                    before, *self, *database, index as int, *prepared, *scope, ids, *identities,
                    start, session.log(), asked, collector.asked(), run, Err(fault),
                ));
                return Err(fault);
            },
        };
        let answer = collector.propose(index, prepared, &source, scope, self, database);
        proof {
            run.answer = answer;
        }
        let served = serve(database, &answer.callbacks, identities, session);
        proof {
            run.served = listed(served);
            run.service = choose|service: Service| #[trigger]
                serves_all(
                    *database, answer.callbacks@, service, ids, *identities, run.log_source,
                    session.log(), run.served,
                );
        }
        let issued = match served {
            Ok(issued) => issued,
            Err(fault) => {
                assert(collects_by(
                    before, *self, *database, index as int, *prepared, *scope, ids, *identities,
                    start, session.log(), asked, collector.asked(), run, Err(fault),
                ));
                return Err(fault);
            },
        };
        proof {
            lemma_issued_kinds(
                answer.callbacks@, run.service.states, answer.callbacks@.len() as int,
            );
        }
        let Collected { callbacks, outcome } = answer;
        let done = match outcome {
            Err(error) => Err(selection_error(error)),
            Ok(proposed) => if accept(prepared.kind, &proposed.draft) && needs_requested(
                &proposed.draft,
                &callbacks,
            ) {
                let stats = proposed.stats;
                Ok((resolve(proposed.draft, prepared.statement.policy, &issued), stats))
            } else {
                Err(Fault::InvalidSourceShape)
            },
        };
        proof {
            assert(concludes(*prepared, run.answer, issued@, done));
            assert(collects_by(
                before, *self, *database, index as int, *prepared, *scope, ids, *identities, start,
                session.log(), asked, collector.asked(), run, done,
            ));
        }
        done
    }
}

/// A proposal of the declared kind.
pub open spec fn proposes(kind: StatementKind, proposal: StepProposal) -> bool {
    match kind {
        StatementKind::Mutation => proposal is Mutation,
        StatementKind::Insert { .. } => proposal is Insert,
        StatementKind::Delete => proposal is Delete,
        StatementKind::VertexMerge => proposal is VertexMerge,
        StatementKind::VertexUpsert => proposal is VertexUpsert,
        StatementKind::EdgeMerge => proposal is Edge,
        StatementKind::EdgeUpsert => proposal is Edge,
    }
}

} // verus!
