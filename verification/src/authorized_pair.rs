//! The existence domain of an authorized relationship MERGE: the edges between two
//! admitted endpoints, and nothing about any other edge.

use vstd::prelude::*;
use crate::authorized::{denied, lookup_plan, lookup_vertex};
use crate::database::Database;
use crate::edge_merge::{lists_overlay, matches_upto};
use crate::errors::{Denial, WriteTxnError};
use crate::graph::EdgeRecord;
use crate::ids::{EId, ElementId, RelationId, VId};
use crate::plan::{
    ask, demand, failure, lemma_obeys_and, lemma_obeys_ask, lemma_obeys_failed, lemma_obeys_lift,
    lemma_obeys_nothing, lemma_obeys_stop, obeys, same_error, Plan,
};
use crate::scope::Predicates;
use crate::selection::{edge_scan_witnesses, expands, lemma_listed_expansions, scans_edges};
use crate::session::{
    followed, lemma_followed_compose, lemma_followed_extend, lemma_ran_nothing, refused, Event,
    Host, Request, Session,
};
use crate::statement::{interrupted, source, Fault};
use crate::txn::{keeps_observations, reads_only, reads_within, same_workspace, WriteTxn};

verus! {

/// Look an endpoint up. A hidden and an absent endpoint are refused alike.
pub open spec fn endpoint_plan(
    txn: WriteTxn,
    database: Database,
    scope: Predicates,
    vid: VId,
) -> Plan<WriteTxnError> {
    lookup_plan(txn, database, scope, vid).and(
        demand(txn.overlay_vertex(database, vid) is Some, denied()),
    )
}

/// An endpoint was admitted, or refused: a cancelled query as an interruption,
/// anything else as the source reports it.
pub open spec fn reads_endpoint(
    txn: WriteTxn,
    database: Database,
    scope: Predicates,
    vid: VId,
    log: Seq<Event>,
    log_polled: Seq<Event>,
    log_after: Seq<Event>,
    failed: Option<Fault>,
) -> bool {
    let poll = ask::<Fault>(seq![Request::PollQuery]);
    ||| {
        &&& failed is Some
        &&& obeys(log, log_polled, poll, interrupted(), failed)
        &&& log_after == log_polled
    }
    ||| {
        &&& obeys(log, log_polled, poll, interrupted(), None)
        &&& obeys(
            log_polled,
            log_after,
            endpoint_plan(txn, database, scope, vid).lift(source()),
            source(),
            failed,
        )
    }
}

/// Two polls for each edge that is walked. Hidden edges cost nothing.
pub open spec fn walk_asks(n: nat) -> Seq<Request>
    decreases n,
{
    if n == 0 {
        Seq::empty()
    } else {
        walk_asks((n - 1) as nat) + seq![Request::PollQuery, Request::Poll]
    }
}

proof fn lemma_walk_prefix(log: Seq<Event>, log_after: Seq<Event>, n: nat, m: nat)
    requires
        n <= m,
        followed(log, log_after, walk_asks(n)),
        refused(log, log_after) is Some,
    ensures
        followed(log, log_after, walk_asks(m)),
    decreases m - n,
{
    if n < m {
        lemma_followed_extend(
            log,
            log_after,
            walk_asks(n),
            seq![Request::PollQuery, Request::Poll],
        );
        assert(((n + 1) as nat - 1) as nat == n);
        lemma_walk_prefix(log, log_after, n + 1, m);
    }
}

/// Poll, then look an endpoint up.
fn admit_endpoint<H: Host>(
    transaction: &mut WriteTxn,
    database: &Database,
    scope: &Predicates,
    vid: VId,
    session: &mut Session<H>,
) -> (admitted: Result<(), Fault>)
    requires
        old(transaction).wf(),
        database.wf(),
    ensures
        final(transaction).wf(),
        same_workspace(*old(transaction), *final(transaction)),
        keeps_observations(*old(transaction), *final(transaction)),
        admitted is Ok ==> reads_only(
            *old(transaction),
            *final(transaction),
            set![ElementId::Vertex(vid)],
        ),
        reads_within(*old(transaction), *final(transaction), set![ElementId::Vertex(vid)]),
        final(session).metered() == old(session).metered(),
        exists|log_polled: Seq<Event>| #[trigger]
            reads_endpoint(
                *old(transaction),
                *database,
                *scope,
                vid,
                old(session).log(),
                log_polled,
                final(session).log(),
                failure(admitted),
            ),
{
    let ghost txn = *transaction;
    let ghost start = session.log();
    let ghost first = lookup_plan(txn, *database, *scope, vid);
    let ghost second = demand(txn.overlay_vertex(*database, vid) is Some, denied());
    let polled = session.poll_query();
    let ghost log1 = session.log();
    proof {
        lemma_obeys_ask(start, log1, seq![Request::PollQuery], interrupted());
    }
    if let Err(error) = polled {
        proof {
            assert(reads_endpoint(
                txn, *database, *scope, vid, start, log1, log1, Some(Fault::Interrupted(error)),
            ));
        }
        return Err(Fault::Interrupted(error));
    }
    let found = lookup_vertex(transaction, database, scope, vid, session);
    let ghost log2 = session.log();
    proof {
        lemma_obeys_nothing(log2, same_error());
        lemma_obeys_stop(log2, same_error(), denied());
    }
    match found {
        Err(error) => {
            proof {
                lemma_obeys_failed(log1, log2, first, second, same_error(), Some(error));
                lemma_obeys_lift(log1, log2, first.and(second), source(), Some(error));
                assert(reads_endpoint(
                    txn, *database, *scope, vid, start, log1, log2, Some(Fault::Source(error)),
                ));
            }
            Err(Fault::Source(error))
        },
        Ok(Some(_)) => {
            proof {
                lemma_obeys_and(log1, log2, log2, first, second, same_error(), None);
                lemma_obeys_lift(log1, log2, first.and(second), source(), None);
                assert(reads_endpoint(txn, *database, *scope, vid, start, log1, log2, None));
            }
            Ok(())
        },
        Ok(None) => {
            let refusal = WriteTxnError::Authorization(Denial::ScopeDenied);
            proof {
                lemma_obeys_and(log1, log2, log2, first, second, same_error(), Some(refusal));
                lemma_obeys_lift(log1, log2, first.and(second), source(), Some(refusal));
                assert(reads_endpoint(
                    txn, *database, *scope, vid, start, log1, log2, Some(Fault::Source(refusal)),
                ));
            }
            Err(Fault::Source(refusal))
        },
    }
}

/// Walk the edges and keep those between the endpoints.
fn walk_edges<H: Host>(
    edges: &Vec<EdgeRecord>,
    relation: RelationId,
    source: VId,
    destination: VId,
    session: &mut Session<H>,
) -> (found: Result<Vec<EId>, WriteTxnError>)
    ensures
        final(session).metered() == old(session).metered(),
        followed(old(session).log(), final(session).log(), walk_asks(edges@.len())),
        failure(found) == refused(old(session).log(), final(session).log()),
        found matches Ok(list) ==> list@ == matches_upto(
            edges@,
            relation,
            source,
            destination,
            edges@.len() as int,
        ),
{
    let ghost start = session.log();
    let ghost polls = seq![Request::PollQuery, Request::Poll];
    let mut list: Vec<EId> = Vec::new();
    proof {
        lemma_ran_nothing(start);
        assert(seq![Request::PollQuery] + seq![Request::Poll] =~= polls);
    }
    let mut i: usize = 0;
    while i < edges.len()
        invariant
            i <= edges.len(),
            start == old(session).log(),
            polls == seq![Request::PollQuery, Request::Poll],
            polls == seq![Request::PollQuery] + seq![Request::Poll],
            session.metered() == old(session).metered(),
            followed(start, session.log(), walk_asks(i as nat)),
            refused(start, session.log()) is None,
            list@ == matches_upto(edges@, relation, source, destination, i as int),
        decreases edges.len() - i,
    {
        let ghost log1 = session.log();
        let ghost head = walk_asks(i as nat);
        let polled = session.poll_query();
        let ghost log2 = session.log();
        proof {
            assert(walk_asks((i + 1) as nat) == head + polls) by {
                assert(((i + 1) as nat - 1) as nat == i as nat);
            }
            lemma_followed_compose(start, log1, log2, head, seq![Request::PollQuery]);
        }
        if let Err(error) = polled {
            proof {
                lemma_followed_extend(
                    start, log2, head + seq![Request::PollQuery], seq![Request::Poll],
                );
                assert(head + seq![Request::PollQuery] + seq![Request::Poll] =~= head + polls);
                lemma_walk_prefix(start, log2, (i + 1) as nat, edges@.len());
            }
            return Err(error);
        }
        let polled = session.poll();
        proof {
            lemma_followed_compose(
                start, log2, session.log(), head + seq![Request::PollQuery], seq![Request::Poll],
            );
            assert(head + seq![Request::PollQuery] + seq![Request::Poll] =~= head + polls);
        }
        if let Err(error) = polled {
            proof {
                lemma_walk_prefix(start, session.log(), (i + 1) as nat, edges@.len());
            }
            return Err(error);
        }
        let entry = edges[i].entry;
        if entry.relation == relation && entry.src == source && entry.dst == destination {
            list.push(entry.eid);
        }
        i += 1;
    }
    Ok(list)
}

/// What admitting both endpoints reads.
pub open spec fn pair_reads(pair: (VId, VId)) -> Set<ElementId> {
    set![ElementId::Vertex(pair.0), ElementId::Vertex(pair.1)]
}

/// The stages of admitting a pair.
pub struct PairRun {
    pub source_polled: Seq<Event>,
    pub source_read: Seq<Event>,
    pub source_failed: Option<Fault>,
    pub destination_polled: Seq<Event>,
    pub destination_read: Seq<Event>,
    pub destination_failed: Option<Fault>,
    pub edges: Seq<EdgeRecord>,
}

/// What admitting a pair does, whatever the host answers. Both endpoints are
/// admitted before any edge is looked at, and only edges of the one relation
/// between them are counted.
pub open spec fn admits_pair(
    before: WriteTxn,
    after: WriteTxn,
    database: Database,
    scope: Predicates,
    relation: RelationId,
    pair: (VId, VId),
    run: PairRun,
    log: Seq<Event>,
    log_after: Seq<Event>,
    found: Result<Vec<EId>, Fault>,
) -> bool {
    &&& same_workspace(before, after)
    &&& keeps_observations(before, after)
    &&& if !scope.admits_relation(relation) {
        &&& failure(found) == Some(Fault::Source(denied()))
        &&& after == before
        &&& log_after == log
    } else {
        &&& reads_endpoint(
            before,
            database,
            scope,
            pair.0,
            log,
            run.source_polled,
            run.source_read,
            run.source_failed,
        )
        &&& if run.source_failed is Some {
            &&& reads_within(before, after, set![ElementId::Vertex(pair.0)])
            &&& failure(found) == run.source_failed
            &&& log_after == run.source_read
        } else {
            &&& reads_endpoint(
                before,
                database,
                scope,
                pair.1,
                run.source_read,
                run.destination_polled,
                run.destination_read,
                run.destination_failed,
            )
            &&& if run.destination_failed is Some {
                &&& reads_within(before, after, pair_reads(pair))
                &&& after.read_set@.contains(ElementId::Vertex(pair.0))
                &&& failure(found) == run.destination_failed
                &&& log_after == run.destination_read
            } else if before.read_refusal(database) is Some {
                &&& reads_only(before, after, pair_reads(pair))
                &&& failure(found) == Some(
                    Fault::Source(WriteTxnError::AuthorizedMutationRefused),
                )
                &&& log_after == run.destination_read
            } else {
                &&& lists_overlay(before, database, run.edges)
                &&& scans_edges(before, after, database, pair_reads(pair))
                &&& obeys(
                    run.destination_read,
                    log_after,
                    ask(walk_asks(run.edges.len())),
                    interrupted(),
                    failure(found),
                )
                &&& found matches Ok(list) ==> list@ == matches_upto(
                    run.edges,
                    relation,
                    pair.0,
                    pair.1,
                    run.edges.len() as int,
                )
            }
        }
    }
}

/// Admit both endpoints of a pair, then find the edges between them. The whole
/// overlay is scanned, so that an empty answer is observed too.
pub fn admitted_edges<H: Host>(
    transaction: &mut WriteTxn,
    database: &Database,
    scope: &Predicates,
    relation: RelationId,
    pair: (VId, VId),
    session: &mut Session<H>,
) -> (found: Result<Vec<EId>, Fault>)
    requires
        old(transaction).wf(),
        database.wf(),
    ensures
        final(transaction).wf(),
        same_workspace(*old(transaction), *final(transaction)),
        keeps_observations(*old(transaction), *final(transaction)),
        final(session).metered() == old(session).metered(),
        exists|run: PairRun| #[trigger]
            admits_pair(
                *old(transaction),
                *final(transaction),
                *database,
                *scope,
                relation,
                pair,
                run,
                old(session).log(),
                final(session).log(),
                found,
            ),
{
    let ghost txn = *transaction;
    let ghost start = session.log();
    let ghost mut run: PairRun = arbitrary();
    if !scope.allows_relation(relation) {
        let refusal = Fault::Source(WriteTxnError::Authorization(Denial::ScopeDenied));
        assert(admits_pair(
            txn, *transaction, *database, *scope, relation, pair, run, start, start, Err(refusal),
        ));
        return Err(refusal);
    }
    let admitted = admit_endpoint(transaction, database, scope, pair.0, session);
    proof {
        run.source_polled = choose|log_polled: Seq<Event>| #[trigger]
            reads_endpoint(
                txn, *database, *scope, pair.0, start, log_polled, session.log(), failure(admitted),
            );
        run.source_read = session.log();
        run.source_failed = failure(admitted);
    }
    if let Err(fault) = admitted {
        assert(admits_pair(
            txn, *transaction, *database, *scope, relation, pair, run, start, session.log(),
            Err(fault),
        ));
        return Err(fault);
    }
    proof {
        lemma_same_reads(txn, *transaction, *database);
        assert(endpoint_plan(*transaction, *database, *scope, pair.1) == endpoint_plan(
            txn, *database, *scope, pair.1,
        ));
    }
    let ghost middle = *transaction;
    let admitted = admit_endpoint(transaction, database, scope, pair.1, session);
    proof {
        let log_polled = choose|log_polled: Seq<Event>| #[trigger]
            reads_endpoint(
                middle, *database, *scope, pair.1, run.source_read, log_polled, session.log(),
                failure(admitted),
            );
        assert(reads_endpoint(
            txn, *database, *scope, pair.1, run.source_read, log_polled, session.log(),
            failure(admitted),
        ));
        run.destination_polled = log_polled;
        run.destination_read = session.log();
        run.destination_failed = failure(admitted);
    }
    if let Err(fault) = admitted {
        assert(admits_pair(
            txn, *transaction, *database, *scope, relation, pair, run, start, session.log(),
            Err(fault),
        ));
        return Err(fault);
    }
    proof {
        lemma_same_reads(txn, *transaction, *database);
    }
    let ghost seen = *transaction;
    let edges = match transaction.edges(database) {
        Ok(edges) => edges,
        Err(_) => {
            let refusal = Fault::Source(WriteTxnError::AuthorizedMutationRefused);
            assert(admits_pair(
                txn, *transaction, *database, *scope, relation, pair, run, start, session.log(),
                Err(refusal),
            ));
            return Err(refusal);
        },
    };
    let walked = walk_edges(&edges, relation, pair.0, pair.1, session);
    let found = match walked {
        Ok(list) => Ok(list),
        Err(error) => Err(Fault::Interrupted(error)),
    };
    proof {
        run.edges = edges@;
        lemma_obeys_ask(
            run.destination_read, session.log(), walk_asks(edges@.len()), interrupted(),
        );
        assert(lists_overlay(txn, *database, edges@)) by {
            lemma_same_overlay(txn, seen, *database, edges@);
        }
        assert(scans_edges(txn, *transaction, *database, pair_reads(pair))) by {
            assert((|eid: EId| database.edge_at_spec(eid, txn.basis)) =~= (|eid: EId|
                database.edge_at_spec(eid, seen.basis)));
            assert((|eid: EId| txn.overlay_edge(*database, eid)) =~= (|eid: EId|
                seen.overlay_edge(*database, eid)));
            assert(edge_scan_witnesses(seen, *database) == edge_scan_witnesses(txn, *database));
            assert(txn.read_set@.union(set![ElementId::Vertex(pair.0)]).union(
                set![ElementId::Vertex(pair.1)],
            ) =~= txn.read_set@.union(pair_reads(pair)));
            assert forall|next: (VId, RelationId)| #[trigger]
                transaction.match_expansions@.contains(next) == (txn.match_expansions@.contains(next)
                    || expands(txn, *database, next)) by {
                lemma_listed_expansions(txn, *database, edges@, next);
            }
        }
        assert(admits_pair(
            txn, *transaction, *database, *scope, relation, pair, run, start, session.log(), found,
        ));
    }
    found
}

/// Observations do not change what a transaction reads.
pub proof fn lemma_same_reads(left: WriteTxn, right: WriteTxn, database: Database)
    requires
        same_workspace(left, right),
    ensures
        left.read_refusal(database) == right.read_refusal(database),
        forall|vid: VId| #[trigger]
            left.overlay_vertex(database, vid) == right.overlay_vertex(database, vid),
        forall|eid: EId| #[trigger]
            left.overlay_edge(database, eid) == right.overlay_edge(database, eid),
{
    assert(left.prepared_rows() == right.prepared_rows());
}

pub proof fn lemma_same_overlay(
    left: WriteTxn,
    right: WriteTxn,
    database: Database,
    records: Seq<EdgeRecord>,
)
    requires
        same_workspace(left, right),
        lists_overlay(right, database, records),
    ensures
        lists_overlay(left, database, records),
{
    lemma_same_reads(left, right, database);
    let mine = |eid: EId| left.overlay_edge(database, eid);
    let theirs = |eid: EId| right.overlay_edge(database, eid);
    assert forall|eid: EId| #[trigger] mine(eid) is Some implies exists|i: int|
        0 <= i < records.len() && (#[trigger] records[i]).entry.eid == eid by {
        assert(theirs(eid) is Some);
    }
    assert forall|i: int| 0 <= i < records.len() implies (#[trigger] records[i]).wf() && mine(
        records[i].entry.eid,
    ) == Some(records[i]@) by {
        assert(theirs(records[i].entry.eid) == Some(records[i]@));
    }
}

} // verus!
