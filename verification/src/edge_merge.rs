//! Directed relationship MERGE: endpoint and edge uniqueness over one selected
//! endpoint pair, with cumulative accounting.

use vstd::prelude::*;
use crate::admission::stages;
use crate::batch::{PendingRow, WriteBatch};
use crate::database::{frontier_of, Database};
use crate::edge_reads::{lists_edges, scan_witnesses};
use crate::errors::WriteTxnError;
use crate::governed::{
    checkpoint, event, governs, lemma_governs_failed, lemma_governs_then, lemma_refusing, refusing,
    Step,
};
use crate::graph::EdgeRecord;
use crate::ids::{CanonicalScalar, EId, ElementId, PropertyKeyId, RelationId, VId};
use crate::plan::failure;
use crate::props::clone_props;
use crate::queries::retained;
use crate::script::{lemma_performs_nothing, lemma_prefix_concat, lemma_prefix_transitive};
use crate::selector::{PairSelector, Selecting, SelectorRecord};
use crate::session::{followed, refused, Event, Host, IdentityKind, Request, Session};
use crate::statement::{
    beyond, interrupted, Fault, GlaExecutionEvent, GqlBudgetDimension, QueryPolicy, QueryStats,
};
use crate::txn::{keeps_observations, ownership_refusal, same_workspace, WriteTxn};

verus! {

/// One value of a selected row.
#[derive(Clone, Copy, PartialEq, Eq, Structural, Debug)]
pub enum SelectedValue {
    Null,
    Vertex(VId),
    Other,
}

/// What a pattern selected, and what selecting it used.
#[derive(Debug)]
pub struct Selection {
    pub rows: Vec<Vec<SelectedValue>>,
    pub stats: QueryStats,
}

/// A prepared directed relationship MERGE.
#[derive(Debug)]
pub struct GraphEdgeMerge {
    /// Which prepared pattern selects the endpoints.
    pub pattern: u64,
    /// Whether that pattern reads edges.
    pub reads_edges: bool,
    pub relation: RelationId,
    pub width: usize,
    pub source_column: usize,
    pub destination_column: usize,
    pub properties: Vec<(PropertyKeyId, CanonicalScalar)>,
}

impl GraphEdgeMerge {
    /// Both endpoint columns are among the selected ones.
    pub open spec fn wf(&self) -> bool {
        &&& self.source_column < self.width
        &&& self.destination_column < self.width
    }
}

#[derive(Clone, Copy, PartialEq, Eq, Structural, Debug)]
pub struct GraphEdgeMergePolicy {
    pub query: QueryPolicy,
    pub max_created_edges: u64,
}

#[derive(Clone, Copy, PartialEq, Eq, Structural, Debug)]
pub struct GraphEdgeMergeStats {
    pub match_selection: QueryStats,
    pub overlay_edges: u64,
    pub evaluator: QueryStats,
    pub created_edges: u64,
}

#[derive(Clone, Copy, PartialEq, Eq, Structural, Debug)]
pub enum GraphEdgeMergeOutcome {
    NoInput,
    Matched(EId),
    Created(EId),
}

/// The vertex in a column, or why it is none.
pub open spec fn endpoint(row: Seq<SelectedValue>, at: int, column: int) -> Result<VId, Fault> {
    match row[column] {
        SelectedValue::Null => Err(Fault::NullEndpoint { row: at as u64, column: column as u64 }),
        SelectedValue::Vertex(vid) => Ok(vid),
        SelectedValue::Other => Err(Fault::InputSchema { row: at as u64, column: column as u64 }),
    }
}

/// The endpoint pair of a row, or why it has none. The width is checked first,
/// then the source, then the destination.
pub open spec fn endpoint_pair(merge: GraphEdgeMerge, row: Seq<SelectedValue>, at: int) -> Result<
    (VId, VId),
    Fault,
> {
    if row.len() != merge.width {
        Err(
            Fault::InputSchema {
                row: at as u64,
                column: if row.len() < merge.width {
                    row.len() as u64
                } else {
                    merge.width as u64
                },
            },
        )
    } else {
        match endpoint(row, at, merge.source_column as int) {
            Err(fault) => Err(fault),
            Ok(source) => match endpoint(row, at, merge.destination_column as int) {
                Err(fault) => Err(fault),
                Ok(destination) => Ok((source, destination)),
            },
        }
    }
}

/// The distinct endpoint pairs of the first rows, in order of appearance.
pub open spec fn pairs_upto(merge: GraphEdgeMerge, rows: Seq<Vec<SelectedValue>>, n: int) -> Seq<
    (VId, VId),
>
    decreases n,
{
    if n <= 0 {
        Seq::empty()
    } else {
        let earlier = pairs_upto(merge, rows, n - 1);
        match endpoint_pair(merge, rows[n - 1]@, n - 1) {
            Ok(pair) => if earlier.contains(pair) {
                earlier
            } else {
                earlier.push(pair)
            },
            Err(_) => earlier,
        }
    }
}

/// What one row costs: one unit, and one entry for a new pair.
pub open spec fn row_script(merge: GraphEdgeMerge, rows: Seq<Vec<SelectedValue>>, at: int) -> Seq<
    Step,
> {
    seq![Step::Count(GlaExecutionEvent::Work)] + match endpoint_pair(merge, rows[at]@, at) {
        Err(fault) => seq![Step::Refuse(fault)],
        Ok(pair) => if pairs_upto(merge, rows, at).contains(pair) {
            Seq::empty()
        } else {
            seq![Step::Count(GlaExecutionEvent::ScratchEntry)]
        },
    }
}

pub open spec fn rows_script(merge: GraphEdgeMerge, rows: Seq<Vec<SelectedValue>>, n: int) -> Seq<
    Step,
>
    decreases n,
{
    if n <= 0 {
        Seq::empty()
    } else {
        rows_script(merge, rows, n - 1) + row_script(merge, rows, n - 1)
    }
}

proof fn lemma_rows_prefix(merge: GraphEdgeMerge, rows: Seq<Vec<SelectedValue>>, n: int, m: int)
    requires
        0 <= n <= m,
    ensures
        rows_script(merge, rows, n).is_prefix_of(rows_script(merge, rows, m)),
    decreases m - n,
{
    if n < m {
        lemma_rows_prefix(merge, rows, n, m - 1);
        lemma_prefix_concat(rows_script(merge, rows, m - 1), row_script(merge, rows, m - 1));
        lemma_prefix_transitive(
            rows_script(merge, rows, n),
            rows_script(merge, rows, m - 1),
            rows_script(merge, rows, m),
        );
    }
}

/// The vertex in a column, or why it is none.
fn read_endpoint(row: &Vec<SelectedValue>, at: usize, column: usize) -> (found: Result<VId, Fault>)
    requires
        column < row@.len(),
    ensures
        found == endpoint(row@, at as int, column as int),
{
    match row[column] {
        SelectedValue::Null => Err(Fault::NullEndpoint { row: at as u64, column: column as u64 }),
        SelectedValue::Vertex(vid) => Ok(vid),
        SelectedValue::Other => Err(Fault::InputSchema { row: at as u64, column: column as u64 }),
    }
}

/// The endpoint pair of a row, or why it has none.
fn read_pair(merge: &GraphEdgeMerge, row: &Vec<SelectedValue>, at: usize) -> (found: Result<
    (VId, VId),
    Fault,
>)
    requires
        merge.wf(),
    ensures
        found == endpoint_pair(*merge, row@, at as int),
{
    let len: usize = row.len();
    if len != merge.width {
        let column: usize = if len < merge.width {
            len
        } else {
            merge.width
        };
        return Err(Fault::InputSchema { row: at as u64, column: column as u64 });
    }
    let source = match read_endpoint(row, at, merge.source_column) {
        Ok(vid) => vid,
        Err(fault) => return Err(fault),
    };
    match read_endpoint(row, at, merge.destination_column) {
        Ok(destination) => Ok((source, destination)),
        Err(fault) => Err(fault),
    }
}

fn has_pair(pairs: &Vec<(VId, VId)>, pair: (VId, VId)) -> (found: bool)
    ensures
        found == pairs@.contains(pair),
{
    let mut i: usize = 0;
    while i < pairs.len()
        invariant
            i <= pairs.len(),
            forall|k: int| 0 <= k < i ==> pairs@[k] != pair,
        decreases pairs.len() - i,
    {
        if pairs[i].0 == pair.0 && pairs[i].1 == pair.1 {
            assert(pairs@[i as int] == pair);
            return true;
        }
        i += 1;
    }
    false
}

/// Collect the distinct endpoint pairs of all rows.
pub fn collect_pairs<H: Host>(
    merge: &GraphEdgeMerge,
    rows: &Vec<Vec<SelectedValue>>,
    policy: QueryPolicy,
    stats: &mut QueryStats,
    session: &mut Session<H>,
) -> (pairs: Result<Vec<(VId, VId)>, Fault>)
    requires
        merge.wf(),
    ensures
        final(session).metered() == old(session).metered(),
        governs(
            policy,
            *old(stats),
            rows_script(*merge, rows@, rows@.len() as int),
            *final(stats),
            old(session).log(),
            final(session).log(),
            failure(pairs),
        ),
        pairs matches Ok(found) ==> found@ == pairs_upto(*merge, rows@, rows@.len() as int),
{
    let ghost start = session.log();
    let ghost before = *stats;
    let ghost full = rows_script(*merge, rows@, rows@.len() as int);
    let mut pairs: Vec<(VId, VId)> = Vec::new();
    let mut i: usize = 0;
    proof {
        lemma_performs_nothing(
            crate::governed::governed(policy),
            interrupted(),
            before,
            start,
        );
    }
    while i < rows.len()
        invariant
            i <= rows.len(),
            merge.wf(),
            start == old(session).log(),
            before == *old(stats),
            full == rows_script(*merge, rows@, rows@.len() as int),
            session.metered() == old(session).metered(),
            governs(
                policy,
                before,
                rows_script(*merge, rows@, i as int),
                *stats,
                start,
                session.log(),
                None,
            ),
            pairs@ == pairs_upto(*merge, rows@, i as int),
        decreases rows.len() - i,
    {
        let ghost middle = session.log();
        let ghost counted_before = *stats;
        let ghost head = rows_script(*merge, rows@, i as int);
        let ghost part = row_script(*merge, rows@, i as int);
        let ghost work = seq![Step::Count(GlaExecutionEvent::Work)];
        let ghost rest = part.skip(1);
        proof {
            lemma_rows_prefix(*merge, rows@, i + 1, rows@.len() as int);
            assert(part =~= work + rest);
            assert(rows_script(*merge, rows@, i + 1) == head + part);
            lemma_prefix_concat(work, rest);
        }
        if let Err(fault) = event(stats, policy, session, GlaExecutionEvent::Work) {
            proof {
                lemma_governs_failed(
                    policy,
                    counted_before,
                    work,
                    part,
                    *stats,
                    middle,
                    session.log(),
                    Some(fault),
                );
                lemma_governs_then(
                    policy,
                    before,
                    head,
                    counted_before,
                    part,
                    *stats,
                    start,
                    middle,
                    session.log(),
                    Some(fault),
                );
                lemma_governs_failed(
                    policy,
                    before,
                    head + part,
                    full,
                    *stats,
                    start,
                    session.log(),
                    Some(fault),
                );
            }
            return Err(fault);
        }
        let ghost worked = session.log();
        let ghost counted_work = *stats;
        let found = read_pair(merge, &rows[i], i);
        let mut done: Result<(), Fault> = Ok(());
        let mut fresh: Option<(VId, VId)> = None;
        match found {
            Err(fault) => {
                proof {
                    assert(rest =~= refusing(Some(fault)));
                    lemma_refusing(policy, counted_work, worked, Some(fault));
                }
                done = Err(fault);
            },
            Ok(pair) => {
                if !has_pair(&pairs, pair) {
                    proof {
                        assert(rest =~= seq![Step::Count(GlaExecutionEvent::ScratchEntry)]);
                    }
                    done = event(stats, policy, session, GlaExecutionEvent::ScratchEntry);
                    fresh = Some(pair);
                } else {
                    proof {
                        assert(rest =~= refusing(None));
                        lemma_refusing(policy, counted_work, worked, None);
                    }
                }
            },
        }
        proof {
            lemma_governs_then(
                policy,
                counted_before,
                work,
                counted_work,
                rest,
                *stats,
                middle,
                worked,
                session.log(),
                failure(done),
            );
            lemma_governs_then(
                policy,
                before,
                head,
                counted_before,
                part,
                *stats,
                start,
                middle,
                session.log(),
                failure(done),
            );
        }
        if let Err(fault) = done {
            proof {
                lemma_governs_failed(
                    policy,
                    before,
                    head + part,
                    full,
                    *stats,
                    start,
                    session.log(),
                    Some(fault),
                );
            }
            return Err(fault);
        }
        if let Some(pair) = fresh {
            pairs.push(pair);
        }
        i += 1;
    }
    Ok(pairs)
}

/// The edge runs in the relation from the source to the destination.
pub open spec fn runs_between(
    edge: EdgeRecord,
    relation: RelationId,
    source: VId,
    destination: VId,
) -> bool {
    &&& edge.entry.relation == relation
    &&& edge.entry.src == source
    &&& edge.entry.dst == destination
}

/// The matching edges among the first ones.
pub open spec fn matches_upto(
    edges: Seq<EdgeRecord>,
    relation: RelationId,
    source: VId,
    destination: VId,
    n: int,
) -> Seq<EId>
    decreases n,
{
    if n <= 0 {
        Seq::empty()
    } else {
        let earlier = matches_upto(edges, relation, source, destination, n - 1);
        if runs_between(edges[n - 1], relation, source, destination) {
            earlier.push(edges[n - 1].entry.eid)
        } else {
            earlier
        }
    }
}

/// What one edge costs: one unit, and one entry for the first match. A second
/// match refuses.
pub open spec fn edge_script(
    edges: Seq<EdgeRecord>,
    relation: RelationId,
    source: VId,
    destination: VId,
    at: int,
) -> Seq<Step> {
    let earlier = matches_upto(edges, relation, source, destination, at);
    seq![Step::Count(GlaExecutionEvent::Work)] + if !runs_between(
        edges[at],
        relation,
        source,
        destination,
    ) {
        Seq::empty()
    } else if earlier.len() == 0 {
        seq![Step::Count(GlaExecutionEvent::ScratchEntry)]
    } else {
        seq![Step::Refuse(Fault::AmbiguousRelationships { observed: (earlier.len() + 1) as u64 })]
    }
}

pub open spec fn edges_script(
    edges: Seq<EdgeRecord>,
    relation: RelationId,
    source: VId,
    destination: VId,
    n: int,
) -> Seq<Step>
    decreases n,
{
    if n <= 0 {
        Seq::empty()
    } else {
        edges_script(edges, relation, source, destination, n - 1) + edge_script(
            edges,
            relation,
            source,
            destination,
            n - 1,
        )
    }
}

proof fn lemma_edges_prefix(
    edges: Seq<EdgeRecord>,
    relation: RelationId,
    source: VId,
    destination: VId,
    n: int,
    m: int,
)
    requires
        0 <= n <= m,
    ensures
        edges_script(edges, relation, source, destination, n).is_prefix_of(
            edges_script(edges, relation, source, destination, m),
        ),
    decreases m - n,
{
    if n < m {
        lemma_edges_prefix(edges, relation, source, destination, n, m - 1);
        lemma_prefix_concat(
            edges_script(edges, relation, source, destination, m - 1),
            edge_script(edges, relation, source, destination, m - 1),
        );
        lemma_prefix_transitive(
            edges_script(edges, relation, source, destination, n),
            edges_script(edges, relation, source, destination, m - 1),
            edges_script(edges, relation, source, destination, m),
        );
    }
}

/// Find the one matching edge.
pub fn find_match<H: Host>(
    edges: &Vec<EdgeRecord>,
    relation: RelationId,
    source: VId,
    destination: VId,
    policy: QueryPolicy,
    stats: &mut QueryStats,
    session: &mut Session<H>,
) -> (matched: Result<Option<EId>, Fault>)
    ensures
        final(session).metered() == old(session).metered(),
        governs(
            policy,
            *old(stats),
            edges_script(edges@, relation, source, destination, edges@.len() as int),
            *final(stats),
            old(session).log(),
            final(session).log(),
            failure(matched),
        ),
        matched matches Ok(found) ==> {
            let all = matches_upto(edges@, relation, source, destination, edges@.len() as int);
            match found {
                Some(eid) => all == seq![eid],
                None => all.len() == 0,
            }
        },
{
    let ghost start = session.log();
    let ghost before = *stats;
    let ghost full = edges_script(edges@, relation, source, destination, edges@.len() as int);
    let mut matched: Option<EId> = None;
    let mut i: usize = 0;
    proof {
        lemma_performs_nothing(
            crate::governed::governed(policy),
            interrupted(),
            before,
            start,
        );
    }
    while i < edges.len()
        invariant
            i <= edges.len(),
            start == old(session).log(),
            before == *old(stats),
            full == edges_script(edges@, relation, source, destination, edges@.len() as int),
            session.metered() == old(session).metered(),
            governs(
                policy,
                before,
                edges_script(edges@, relation, source, destination, i as int),
                *stats,
                start,
                session.log(),
                None,
            ),
            match matched {
                Some(eid) => matches_upto(edges@, relation, source, destination, i as int)
                    == seq![eid],
                None => matches_upto(edges@, relation, source, destination, i as int).len() == 0,
            },
        decreases edges.len() - i,
    {
        let ghost middle = session.log();
        let ghost counted_before = *stats;
        let ghost head = edges_script(edges@, relation, source, destination, i as int);
        let ghost part = edge_script(edges@, relation, source, destination, i as int);
        let ghost work = seq![Step::Count(GlaExecutionEvent::Work)];
        let ghost rest = part.skip(1);
        let ghost earlier = matches_upto(edges@, relation, source, destination, i as int);
        proof {
            lemma_edges_prefix(
                edges@,
                relation,
                source,
                destination,
                i + 1,
                edges@.len() as int,
            );
            assert(part =~= work + rest);
            assert(edges_script(edges@, relation, source, destination, i + 1) == head + part);
            lemma_prefix_concat(work, rest);
        }
        if let Err(fault) = event(stats, policy, session, GlaExecutionEvent::Work) {
            proof {
                lemma_governs_failed(
                    policy,
                    counted_before,
                    work,
                    part,
                    *stats,
                    middle,
                    session.log(),
                    Some(fault),
                );
                lemma_governs_then(
                    policy,
                    before,
                    head,
                    counted_before,
                    part,
                    *stats,
                    start,
                    middle,
                    session.log(),
                    Some(fault),
                );
                lemma_governs_failed(
                    policy,
                    before,
                    head + part,
                    full,
                    *stats,
                    start,
                    session.log(),
                    Some(fault),
                );
            }
            return Err(fault);
        }
        let ghost worked = session.log();
        let ghost counted_work = *stats;
        let entry = edges[i].entry;
        let mut done: Result<(), Fault> = Ok(());
        if entry.relation == relation && entry.src == source && entry.dst == destination {
            if matched.is_none() {
                proof {
                    assert(rest =~= seq![Step::Count(GlaExecutionEvent::ScratchEntry)]);
                    assert(earlier =~= Seq::<EId>::empty());
                    assert(earlier.push(entry.eid) =~= seq![entry.eid]);
                }
                done = event(stats, policy, session, GlaExecutionEvent::ScratchEntry);
                matched = Some(entry.eid);
            } else {
                let fault = Fault::AmbiguousRelationships { observed: 2 };
                proof {
                    assert(rest =~= refusing(Some(fault)));
                    lemma_refusing(policy, counted_work, worked, Some(fault));
                }
                done = Err(fault);
            }
        } else {
            proof {
                assert(rest =~= refusing(None));
                lemma_refusing(policy, counted_work, worked, None);
            }
        }
        proof {
            lemma_governs_then(
                policy,
                counted_before,
                work,
                counted_work,
                rest,
                *stats,
                middle,
                worked,
                session.log(),
                failure(done),
            );
            lemma_governs_then(
                policy,
                before,
                head,
                counted_before,
                part,
                *stats,
                start,
                middle,
                session.log(),
                failure(done),
            );
        }
        if let Err(fault) = done {
            proof {
                lemma_governs_failed(
                    policy,
                    before,
                    head + part,
                    full,
                    *stats,
                    start,
                    session.log(),
                    Some(fault),
                );
            }
            return Err(fault);
        }
        i += 1;
    }
    Ok(matched)
}

/// One entry for each copied value.
pub open spec fn copies_script(n: int) -> Seq<Step>
    decreases n,
{
    if n <= 0 {
        Seq::empty()
    } else {
        copies_script(n - 1) + seq![Step::Count(GlaExecutionEvent::ScratchEntry)]
    }
}

pub proof fn lemma_copies_prefix(n: int, m: int)
    requires
        0 <= n <= m,
    ensures
        copies_script(n).is_prefix_of(copies_script(m)),
    decreases m - n,
{
    if n < m {
        lemma_copies_prefix(n, m - 1);
        lemma_prefix_concat(
            copies_script(m - 1),
            seq![Step::Count(GlaExecutionEvent::ScratchEntry)],
        );
        lemma_prefix_transitive(copies_script(n), copies_script(m - 1), copies_script(m));
    }
}

/// Pay one entry for each copied value.
pub fn pay_copies<H: Host>(
    n: usize,
    policy: QueryPolicy,
    stats: &mut QueryStats,
    session: &mut Session<H>,
) -> (paid: Result<(), Fault>)
    ensures
        final(session).metered() == old(session).metered(),
        governs(
            policy,
            *old(stats),
            copies_script(n as int),
            *final(stats),
            old(session).log(),
            final(session).log(),
            failure(paid),
        ),
{
    let ghost start = session.log();
    let ghost before = *stats;
    let mut i: usize = 0;
    proof {
        lemma_performs_nothing(
            crate::governed::governed(policy),
            interrupted(),
            before,
            start,
        );
    }
    while i < n
        invariant
            i <= n,
            start == old(session).log(),
            before == *old(stats),
            session.metered() == old(session).metered(),
            governs(
                policy,
                before,
                copies_script(i as int),
                *stats,
                start,
                session.log(),
                None,
            ),
        decreases n - i,
    {
        let ghost middle = session.log();
        let ghost counted_before = *stats;
        let done = event(stats, policy, session, GlaExecutionEvent::ScratchEntry);
        proof {
            lemma_governs_then(
                policy,
                before,
                copies_script(i as int),
                counted_before,
                seq![Step::Count(GlaExecutionEvent::ScratchEntry)],
                *stats,
                start,
                middle,
                session.log(),
                failure(done),
            );
        }
        if let Err(fault) = done {
            proof {
                lemma_copies_prefix(i + 1, n as int);
                lemma_governs_failed(
                    policy,
                    before,
                    copies_script(i + 1),
                    copies_script(n as int),
                    *stats,
                    start,
                    session.log(),
                    Some(fault),
                );
            }
            return Err(fault);
        }
        i += 1;
    }
    Ok(())
}

/// The refusal before anything is selected. A transaction whose staged batches
/// all write one relation stays with it.
pub open spec fn merge_refusal(txn: WriteTxn, database: Database, relation: RelationId) -> Option<
    WriteTxnError,
> {
    match ownership_refusal(txn, database) {
        Some(error) => Some(error),
        None => match frontier_of(database.state) {
            Err(error) => Some(error),
            Ok(live) => if live != txn.basis {
                Some(WriteTxnError::SnapshotAdvanced { pinned: txn.basis, live })
            } else if one_relation(txn.staged@) && relation != txn.staged@[0].relation {
                Some(
                    WriteTxnError::RelationMismatch {
                        expected: txn.staged@[0].relation,
                        found: relation,
                    },
                )
            } else {
                None
            },
        },
    }
}

/// At least one batch is staged, and all of them write the same relation.
pub open spec fn one_relation(staged: Seq<WriteBatch>) -> bool {
    &&& staged.len() > 0
    &&& forall|i: int| 0 <= i < staged.len() ==> (#[trigger] staged[i]).relation == staged[0].relation
}

fn writes_one_relation(staged: &Vec<WriteBatch>) -> (one: bool)
    ensures
        one == one_relation(staged@),
{
    if staged.len() == 0 {
        return false;
    }
    let mut i: usize = 0;
    while i < staged.len()
        invariant
            0 < staged.len(),
            i <= staged.len(),
            forall|k: int| 0 <= k < i ==> (#[trigger] staged@[k]).relation == staged@[0].relation,
        decreases staged.len() - i,
    {
        if staged[i].relation != staged[0].relation {
            return false;
        }
        i += 1;
    }
    true
}

/// The first half of the decision: one unit, the rows, a poll, and the refusal of
/// more than one endpoint pair.
pub open spec fn input_script(merge: GraphEdgeMerge, rows: Seq<Vec<SelectedValue>>) -> Seq<Step> {
    let pairs = pairs_upto(merge, rows, rows.len() as int);
    seq![Step::Count(GlaExecutionEvent::Work)] + rows_script(merge, rows, rows.len() as int)
        + seq![Step::Poll] + refusing(
        if pairs.len() > 1 {
            Some(Fault::AmbiguousEndpointPairs { observed: pairs.len() as u64 })
        } else {
            None
        },
    )
}

/// The refusal of a scan over more records than the statement may read. A count
/// beyond the range of the report is reported as its largest value.
pub open spec fn records_excess(policy: QueryPolicy, records: int) -> Option<Fault> {
    if beyond(records, policy.max_snapshot_records) {
        Some(
            Fault::Rows {
                dimension: GqlBudgetDimension::SnapshotRecords,
                limit: policy.max_snapshot_records->0,
                observed: if records > u64::MAX {
                    u64::MAX
                } else {
                    records as u64
                },
            },
        )
    } else {
        None
    }
}

/// The second half: the record budget, the edges, and, where none matches, the
/// creation quota and the frozen payload.
pub open spec fn edge_choice_script(
    merge: GraphEdgeMerge,
    policy: GraphEdgeMergePolicy,
    selected: QueryStats,
    edges: Seq<EdgeRecord>,
    pair: (VId, VId),
) -> Seq<Step> {
    let n = edges.len() as int;
    refusing(records_excess(policy.query, selected.snapshot_records + n)) + edges_script(
        edges,
        merge.relation,
        pair.0,
        pair.1,
        n,
    ) + if matches_upto(edges, merge.relation, pair.0, pair.1, n).len() > 0 {
        Seq::empty()
    } else {
        creation_script(merge, policy)
    }
}

/// What a creation costs before an identity is asked for.
pub open spec fn creation_script(merge: GraphEdgeMerge, policy: GraphEdgeMergePolicy) -> Seq<Step> {
    refusing(
        if policy.max_created_edges == 0 {
            Some(Fault::CreationLimit { limit: 0, observed: 1 })
        } else {
            None
        },
    ) + copies_script(merge.properties@.len() as int) + seq![Step::Poll]
}

/// The complete edge overlay was scanned: a concurrent insertion is a conflict.
pub open spec fn edge_scan(
    before: WriteTxn,
    after: WriteTxn,
    database: Database,
    records: Seq<EdgeRecord>,
) -> bool {
    let basis = |eid: EId| database.edge_at_spec(eid, before.basis);
    let overlay = |eid: EId| before.overlay_edge(database, eid);
    &&& same_workspace(before, after)
    &&& after.scanned_vertex_labels == before.scanned_vertex_labels
    &&& after.scanned_vertices == before.scanned_vertices
    &&& lists_edges(records, overlay)
    &&& after.scanned_edges
    &&& after.read_set@ =~= before.read_set@.union(
        scan_witnesses(basis, overlay, before.staged@, before.prepared_rows()),
    )
    &&& forall|pair: (VId, RelationId)| #[trigger]
        after.match_expansions@.contains(pair) == (before.match_expansions@.contains(pair)
            || exists|i: int|
            0 <= i < records.len() && (#[trigger] records[i]).entry.src == pair.0
                && records[i].entry.relation == pair.1)
}

/// The records list the transaction's complete edge overlay.
pub open spec fn lists_overlay(
    txn: WriteTxn,
    database: Database,
    records: Seq<EdgeRecord>,
) -> bool {
    lists_edges(records, |eid: EId| txn.overlay_edge(database, eid))
}

/// The report of a decision.
pub open spec fn merge_report(
    selected: QueryStats,
    overlay_edges: nat,
    evaluator: QueryStats,
    outcome: GraphEdgeMergeOutcome,
) -> (GraphEdgeMergeStats, GraphEdgeMergeOutcome) {
    (
        GraphEdgeMergeStats {
            match_selection: selected,
            overlay_edges: overlay_edges as u64,
            evaluator,
            created_edges: if outcome is Created {
                1
            } else {
                0
            },
        },
        outcome,
    )
}

/// The batch that creates the edge.
pub open spec fn creates_edge(
    batch: WriteBatch,
    merge: GraphEdgeMerge,
    eid: EId,
    pair: (VId, VId),
) -> bool {
    &&& batch.relation == merge.relation
    &&& batch.rows@.len() == 1
    &&& match batch.rows@[0] {
        PendingRow::Edge { eid: e, src, dst, props, ensure } => {
            &&& e == eid
            &&& src == pair.0
            &&& dst == pair.1
            &&& props@ == merge.properties@
            &&& !ensure
        },
        _ => false,
    }
}

/// The last poll and the staging of the created edge.
pub open spec fn edge_staged(
    before: WriteTxn,
    after: WriteTxn,
    database: Database,
    merge: GraphEdgeMerge,
    pair: (VId, VId),
    eid: EId,
    report: (GraphEdgeMergeStats, GraphEdgeMergeOutcome),
    log: Seq<Event>,
    log_polled: Seq<Event>,
    log_after: Seq<Event>,
    batch: WriteBatch,
    staged: Result<(), WriteTxnError>,
    result: Result<(GraphEdgeMergeStats, GraphEdgeMergeOutcome), Fault>,
) -> bool {
    &&& followed(log, log_polled, seq![Request::PollQuery])
    &&& match refused(log, log_polled) {
        Some(error) => {
            &&& result == Err::<(GraphEdgeMergeStats, GraphEdgeMergeOutcome), Fault>(
                Fault::Interrupted(error),
            )
            &&& after == before
            &&& log_after == log_polled
        },
        None => {
            &&& creates_edge(batch, merge, eid, pair)
            &&& stages(before, after, database, seq![batch], None, log_polled, log_after, staged)
            &&& result == match staged {
                Ok(()) => Ok(report),
                Err(error) => Err(Fault::Source(error)),
            }
        },
    }
}

/// A fresh identity was asked for, and the edge staged under it.
pub open spec fn edge_created(
    before: WriteTxn,
    after: WriteTxn,
    database: Database,
    merge: GraphEdgeMerge,
    pair: (VId, VId),
    selected: QueryStats,
    overlay_edges: nat,
    evaluator: QueryStats,
    log: Seq<Event>,
    log_issued: Seq<Event>,
    log_after: Seq<Event>,
    result: Result<(GraphEdgeMergeStats, GraphEdgeMergeOutcome), Fault>,
) -> bool {
    &&& followed(
        log,
        log_issued,
        seq![Request::Allocate { kind: IdentityKind::Edge, ordinal: 0 }],
    )
    &&& match (refused(log, log_issued), log_issued.last().issued) {
        (None, Some(ElementId::Edge(eid))) => exists|
            log_polled: Seq<Event>,
            batch: WriteBatch,
            staged: Result<(), WriteTxnError>,
        | #[trigger]
            edge_staged(
                before,
                after,
                database,
                merge,
                pair,
                eid,
                merge_report(
                    selected,
                    overlay_edges,
                    evaluator,
                    GraphEdgeMergeOutcome::Created(eid),
                ),
                log_issued,
                log_polled,
                log_after,
                batch,
                staged,
                result,
            ),
        (refusal, _) => {
            &&& after == before
            &&& log_after == log_issued
            &&& result == Err::<(GraphEdgeMergeStats, GraphEdgeMergeOutcome), Fault>(
                match refusal {
                    Some(error) => Fault::IdentitySource(error),
                    None => Fault::IdentityKind,
                },
            )
        },
    }
}

/// The decision over one endpoint pair and the scanned edges.
pub open spec fn edge_concluded(
    before: WriteTxn,
    after: WriteTxn,
    database: Database,
    merge: GraphEdgeMerge,
    policy: GraphEdgeMergePolicy,
    selected: QueryStats,
    pair: (VId, VId),
    edges: Seq<EdgeRecord>,
    counted: QueryStats,
    decided: QueryStats,
    log: Seq<Event>,
    log_decided: Seq<Event>,
    log_after: Seq<Event>,
    failed: Option<Fault>,
    result: Result<(GraphEdgeMergeStats, GraphEdgeMergeOutcome), Fault>,
) -> bool {
    let found = matches_upto(edges, merge.relation, pair.0, pair.1, edges.len() as int);
    &&& governs(
        policy.query,
        counted,
        edge_choice_script(merge, policy, selected, edges, pair),
        decided,
        log,
        log_decided,
        failed,
    )
    &&& match failed {
        Some(fault) => {
            &&& result == Err::<(GraphEdgeMergeStats, GraphEdgeMergeOutcome), Fault>(fault)
            &&& after == before
            &&& log_after == log_decided
        },
        None => if found.len() > 0 {
            &&& result == Ok::<(GraphEdgeMergeStats, GraphEdgeMergeOutcome), Fault>(
                merge_report(
                    selected,
                    edges.len(),
                    decided,
                    GraphEdgeMergeOutcome::Matched(found[0]),
                ),
            )
            &&& after == before
            &&& log_after == log_decided
        } else {
            exists|log_issued: Seq<Event>| #[trigger]
                edge_created(
                    before,
                    after,
                    database,
                    merge,
                    pair,
                    selected,
                    edges.len(),
                    decided,
                    log_decided,
                    log_issued,
                    log_after,
                    result,
                )
        },
    }
}

/// The overlay was scanned, and the decision follows from what it lists.
pub open spec fn edge_chosen(
    before: WriteTxn,
    scanned: WriteTxn,
    after: WriteTxn,
    database: Database,
    merge: GraphEdgeMerge,
    policy: GraphEdgeMergePolicy,
    selected: QueryStats,
    pair: (VId, VId),
    edges: Seq<EdgeRecord>,
    counted: QueryStats,
    decided: QueryStats,
    log: Seq<Event>,
    log_decided: Seq<Event>,
    log_after: Seq<Event>,
    failed: Option<Fault>,
    result: Result<(GraphEdgeMergeStats, GraphEdgeMergeOutcome), Fault>,
) -> bool {
    &&& edge_scan(before, scanned, database, edges)
    &&& edge_concluded(
        scanned,
        after,
        database,
        merge,
        policy,
        selected,
        pair,
        edges,
        counted,
        decided,
        log,
        log_decided,
        log_after,
        failed,
        result,
    )
}

/// The input was read, and the decision follows from its endpoint pairs.
pub open spec fn input_read(
    before: WriteTxn,
    after: WriteTxn,
    database: Database,
    merge: GraphEdgeMerge,
    policy: GraphEdgeMergePolicy,
    selection: Selection,
    counted: QueryStats,
    log: Seq<Event>,
    log_read: Seq<Event>,
    log_after: Seq<Event>,
    failed: Option<Fault>,
    result: Result<(GraphEdgeMergeStats, GraphEdgeMergeOutcome), Fault>,
) -> bool {
    let rows = selection.rows@;
    let pairs = pairs_upto(merge, rows, rows.len() as int);
    &&& governs(
        policy.query,
        selection.stats,
        input_script(merge, rows),
        counted,
        log,
        log_read,
        failed,
    )
    &&& if failed is Some {
        &&& result == Err::<(GraphEdgeMergeStats, GraphEdgeMergeOutcome), Fault>(failed->0)
        &&& after == before
        &&& log_after == log_read
    } else if pairs.len() == 0 {
        &&& result == Ok::<(GraphEdgeMergeStats, GraphEdgeMergeOutcome), Fault>(
            merge_report(selection.stats, 0, counted, GraphEdgeMergeOutcome::NoInput),
        )
        &&& after == before
        &&& log_after == log_read
    } else if before.read_refusal(database) is Some {
        &&& result == Err::<(GraphEdgeMergeStats, GraphEdgeMergeOutcome), Fault>(
            Fault::Source(before.read_refusal(database)->0),
        )
        &&& after == before
        &&& log_after == log_read
    } else {
        exists|
            scanned: WriteTxn,
            edges: Seq<EdgeRecord>,
            decided: QueryStats,
            log_decided: Seq<Event>,
            stopped: Option<Fault>,
        | #[trigger]
            edge_chosen(
                before,
                scanned,
                after,
                database,
                merge,
                policy,
                selection.stats,
                pairs[0],
                edges,
                counted,
                decided,
                log_read,
                log_decided,
                log_after,
                stopped,
                result,
            )
    }
}

/// What a relationship MERGE does, whatever the host answers.
pub open spec fn merges(
    before: WriteTxn,
    after: WriteTxn,
    database: Database,
    merge: GraphEdgeMerge,
    policy: GraphEdgeMergePolicy,
    selection: Selection,
    log: Seq<Event>,
    log_after: Seq<Event>,
    result: Result<(GraphEdgeMergeStats, GraphEdgeMergeOutcome), Fault>,
) -> bool {
    if merge_refusal(before, database, merge.relation) is Some {
        &&& result == Err::<(GraphEdgeMergeStats, GraphEdgeMergeOutcome), Fault>(
            Fault::Source(merge_refusal(before, database, merge.relation)->0),
        )
        &&& after == before
        &&& log_after == log
    } else if selection.rows@.len() != selection.stats.result_rows {
        &&& result == Err::<(GraphEdgeMergeStats, GraphEdgeMergeOutcome), Fault>(
            Fault::InvalidSourceStatistics,
        )
        &&& after == before
        &&& log_after == log
    } else {
        exists|counted: QueryStats, log_read: Seq<Event>, failed: Option<Fault>| #[trigger]
            input_read(
                before,
                after,
                database,
                merge,
                policy,
                selection,
                counted,
                log,
                log_read,
                log_after,
                failed,
                result,
            )
    }
}

/// The matching edge, or none where one may be created.
pub fn decide_edge<H: Host>(
    merge: &GraphEdgeMerge,
    policy: GraphEdgeMergePolicy,
    selected: QueryStats,
    pair: (VId, VId),
    edges: &Vec<EdgeRecord>,
    stats: &mut QueryStats,
    session: &mut Session<H>,
) -> (matched: Result<Option<EId>, Fault>)
    ensures
        final(session).metered() == old(session).metered(),
        governs(
            policy.query,
            *old(stats),
            edge_choice_script(*merge, policy, selected, edges@, pair),
            *final(stats),
            old(session).log(),
            final(session).log(),
            failure(matched),
        ),
        matched matches Ok(found) ==> {
            let all = matches_upto(
                edges@,
                merge.relation,
                pair.0,
                pair.1,
                edges@.len() as int,
            );
            match found {
                Some(eid) => all == seq![eid],
                None => all.len() == 0,
            }
        },
{
    let ghost start = session.log();
    let ghost before = *stats;
    let ghost n = edges@.len() as int;
    let ghost full = edge_choice_script(*merge, policy, selected, edges@, pair);
    let ghost excess = records_excess(policy.query, selected.snapshot_records + n);
    let ghost budget = refusing(excess);
    let ghost scanning = edges_script(edges@, merge.relation, pair.0, pair.1, n);
    let ghost all = matches_upto(edges@, merge.relation, pair.0, pair.1, n);
    let ghost last = if all.len() > 0 {
        Seq::empty()
    } else {
        creation_script(*merge, policy)
    };
    proof {
        lemma_prefix_concat(budget, scanning);
        lemma_prefix_concat(budget + scanning, last);
        lemma_prefix_transitive(budget, budget + scanning, full);
        lemma_refusing(policy.query, before, start, excess);
    }
    let overlay_edges: u64 = edges.len() as u64;
    if let Some(limit) = policy.query.max_snapshot_records {
        if selected.snapshot_records > limit || overlay_edges > limit - selected.snapshot_records {
            let fault = Fault::Rows {
                dimension: GqlBudgetDimension::SnapshotRecords,
                limit,
                observed: selected.snapshot_records.saturating_add(overlay_edges),
            };
            proof {
                lemma_governs_failed(
                    policy.query, before, budget, full, *stats, start, start, Some(fault),
                );
            }
            return Err(fault);
        }
    }
    let found = find_match(edges, merge.relation, pair.0, pair.1, policy.query, stats, session);
    let ghost scanned = session.log();
    let ghost counted_scan = *stats;
    proof {
        lemma_governs_then(
            policy.query, before, budget, before, scanning, counted_scan, start, start, scanned,
            failure(found),
        );
    }
    let matched = match found {
        Ok(matched) => matched,
        Err(fault) => {
            proof {
                lemma_governs_failed(
                    policy.query, before, budget + scanning, full, *stats, start, session.log(),
                    Some(fault),
                );
            }
            return Err(fault);
        },
    };
    if matched.is_some() {
        proof {
            assert(budget + scanning + last =~= budget + scanning);
        }
        return Ok(matched);
    }
    let paid = pay_creation(merge, policy, stats, session);
    proof {
        lemma_governs_then(
            policy.query, before, budget + scanning, counted_scan, last, *stats, start, scanned,
            session.log(), failure(paid),
        );
    }
    match paid {
        Ok(()) => Ok(None),
        Err(fault) => Err(fault),
    }
}

/// The creation quota, the frozen payload and a poll.
fn pay_creation<H: Host>(
    merge: &GraphEdgeMerge,
    policy: GraphEdgeMergePolicy,
    stats: &mut QueryStats,
    session: &mut Session<H>,
) -> (paid: Result<(), Fault>)
    ensures
        final(session).metered() == old(session).metered(),
        governs(
            policy.query,
            *old(stats),
            creation_script(*merge, policy),
            *final(stats),
            old(session).log(),
            final(session).log(),
            failure(paid),
        ),
{
    let ghost start = session.log();
    let ghost before = *stats;
    let ghost full = creation_script(*merge, policy);
    let ghost refusal = if policy.max_created_edges == 0 {
        Some(Fault::CreationLimit { limit: 0, observed: 1 })
    } else {
        None
    };
    let ghost quota = refusing(refusal);
    let ghost copying = copies_script(merge.properties@.len() as int);
    proof {
        lemma_prefix_concat(quota, copying);
        lemma_prefix_concat(quota + copying, seq![Step::Poll]);
        lemma_prefix_transitive(quota, quota + copying, full);
        lemma_refusing(policy.query, before, start, refusal);
    }
    if policy.max_created_edges == 0 {
        let fault = Fault::CreationLimit { limit: 0, observed: 1 };
        proof {
            lemma_governs_failed(
                policy.query, before, quota, full, *stats, start, start, Some(fault),
            );
        }
        return Err(fault);
    }
    let paid = pay_copies(merge.properties.len(), policy.query, stats, session);
    let ghost copied = session.log();
    let ghost counted_copies = *stats;
    proof {
        lemma_governs_then(
            policy.query, before, quota, before, copying, counted_copies, start, start, copied,
            failure(paid),
        );
    }
    if let Err(fault) = paid {
        proof {
            lemma_governs_failed(
                policy.query, before, quota + copying, full, *stats, start, session.log(),
                Some(fault),
            );
        }
        return Err(fault);
    }
    let done = checkpoint(stats, policy.query, session);
    proof {
        lemma_governs_then(
            policy.query, before, quota + copying, counted_copies, seq![Step::Poll],
            counted_copies, start, copied, session.log(), failure(done),
        );
    }
    done
}

/// Read the endpoint pair that the input gives, if any.
pub fn read_input<H: Host>(
    merge: &GraphEdgeMerge,
    policy: QueryPolicy,
    rows: &Vec<Vec<SelectedValue>>,
    stats: &mut QueryStats,
    session: &mut Session<H>,
) -> (pair: Result<Option<(VId, VId)>, Fault>)
    requires
        merge.wf(),
    ensures
        final(session).metered() == old(session).metered(),
        governs(
            policy,
            *old(stats),
            input_script(*merge, rows@),
            *final(stats),
            old(session).log(),
            final(session).log(),
            failure(pair),
        ),
        pair matches Ok(found) ==> {
            let pairs = pairs_upto(*merge, rows@, rows@.len() as int);
            match found {
                Some(only) => pairs == seq![only],
                None => pairs.len() == 0,
            }
        },
{
    let ghost start = session.log();
    let ghost before = *stats;
    let ghost full = input_script(*merge, rows@);
    let ghost work = seq![Step::Count(GlaExecutionEvent::Work)];
    let ghost reading = rows_script(*merge, rows@, rows@.len() as int);
    let ghost all = pairs_upto(*merge, rows@, rows@.len() as int);
    let ghost refusal = if all.len() > 1 {
        Some(Fault::AmbiguousEndpointPairs { observed: all.len() as u64 })
    } else {
        None
    };
    proof {
        lemma_prefix_concat(work + reading + seq![Step::Poll], refusing(refusal));
        lemma_prefix_concat(work + reading, seq![Step::Poll]);
        lemma_prefix_transitive(work + reading, work + reading + seq![Step::Poll], full);
        lemma_prefix_concat(work, reading);
        lemma_prefix_transitive(work, work + reading, full);
    }
    let done = event(stats, policy, session, GlaExecutionEvent::Work);
    let ghost worked = session.log();
    let ghost counted_work = *stats;
    if let Err(fault) = done {
        proof {
            lemma_governs_failed(
                policy, before, work, full, *stats, start, session.log(), Some(fault),
            );
        }
        return Err(fault);
    }
    let collected = collect_pairs(merge, rows, policy, stats, session);
    let ghost gathered = session.log();
    let ghost counted_rows = *stats;
    proof {
        lemma_governs_then(
            policy, before, work, counted_work, reading, counted_rows, start, worked, gathered,
            failure(collected),
        );
    }
    let pairs = match collected {
        Ok(pairs) => pairs,
        Err(fault) => {
            proof {
                lemma_governs_failed(
                    policy, before, work + reading, full, *stats, start, session.log(), Some(fault),
                );
            }
            return Err(fault);
        },
    };
    let done = checkpoint(stats, policy, session);
    let ghost polled = session.log();
    proof {
        lemma_governs_then(
            policy, before, work + reading, counted_rows, seq![Step::Poll], counted_rows, start,
            gathered, polled, failure(done),
        );
    }
    if let Err(fault) = done {
        proof {
            lemma_governs_failed(
                policy, before, work + reading + seq![Step::Poll], full, *stats, start,
                session.log(), Some(fault),
            );
        }
        return Err(fault);
    }
    proof {
        lemma_refusing(policy, counted_rows, polled, refusal);
        lemma_governs_then(
            policy, before, work + reading + seq![Step::Poll], counted_rows, refusing(refusal),
            counted_rows, start, polled, polled, refusal,
        );
    }
    let count: usize = pairs.len();
    if count > 1 {
        return Err(Fault::AmbiguousEndpointPairs { observed: count as u64 });
    }
    if count == 0 {
        return Ok(None);
    }
    assert(pairs@ =~= seq![pairs@[0]]);
    Ok(Some(pairs[0]))
}

/// How a relationship MERGE asks for its endpoint pairs, and resolves them.
pub open spec fn asks_and_merges(
    before: WriteTxn,
    after: WriteTxn,
    database: Database,
    merge: GraphEdgeMerge,
    policy: GraphEdgeMergePolicy,
    asked: Seq<Selecting>,
    asked_after: Seq<Selecting>,
    log: Seq<Event>,
    log_after: Seq<Event>,
    result: Result<(GraphEdgeMergeStats, GraphEdgeMergeOutcome), Fault>,
) -> bool {
    let answer = asked_after.last().answer;
    match merge_refusal(before, database, merge.relation) {
        Some(error) => {
            &&& failure(result) == Some(Fault::Source(error))
            &&& after == before
            &&& asked_after == asked
            &&& log_after == log
        },
        None => {
            &&& asked_after == asked.push(
                Selecting {
                    pattern: merge.pattern,
                    policy: policy.query,
                    transaction: before,
                    database,
                    answer,
                },
            )
            &&& match answer {
                Err(fault) => failure(result) == Some(fault) && after == before && log_after == log,
                Ok(found) => exists|read: WriteTxn|
                    retained(before, read, found.observed) && #[trigger] merges(
                        read,
                        after,
                        database,
                        merge,
                        policy,
                        found.selection,
                        log,
                        log_after,
                        result,
                    ),
            }
        },
    }
}

impl WriteTxn {
    /// The checks before a relationship MERGE selects anything.
    pub fn check_edge_merge(&self, database: &Database, relation: RelationId) -> (checked: Result<
        (),
        WriteTxnError,
    >)
        ensures
            failure(checked) == merge_refusal(*self, *database, relation),
    {
        if let Err(error) = self.ensure_database(database) {
            return Err(error);
        }
        let live = match database.frontier() {
            Ok(live) => live,
            Err(error) => return Err(error),
        };
        if live != self.basis {
            return Err(WriteTxnError::SnapshotAdvanced { pinned: self.basis, live });
        }
        if writes_one_relation(&self.staged) && relation != self.staged[0].relation {
            return Err(
                WriteTxnError::RelationMismatch { expected: self.staged[0].relation, found: relation },
            );
        }
        Ok(())
    }

    /// Ask for the endpoint pairs, and resolve them. A refused statement asks for
    /// nothing; what the selection read stays observed.
    pub fn execute_graph_edge_merge_governed<S: PairSelector, H: Host>(
        &mut self,
        database: &Database,
        merge: &GraphEdgeMerge,
        policy: GraphEdgeMergePolicy,
        selector: &mut SelectorRecord<S>,
        session: &mut Session<H>,
    ) -> (result: Result<(GraphEdgeMergeStats, GraphEdgeMergeOutcome), Fault>)
        requires
            old(self).wf(),
            database.wf(),
            merge.wf(),
        ensures
            final(self).wf(),
            final(session).metered() == old(session).metered(),
            asks_and_merges(
                *old(self),
                *final(self),
                *database,
                *merge,
                policy,
                old(selector).asked(),
                final(selector).asked(),
                old(session).log(),
                final(session).log(),
                result,
            ),
    {
        if let Err(error) = self.check_edge_merge(database, merge.relation) {
            return Err(Fault::Source(error));
        }
        let ghost before = *self;
        let ghost start = session.log();
        let found = match selector.select(merge.pattern, policy.query, self, database) {
            Ok(found) => found,
            Err(fault) => return Err(fault),
        };
        self.retain(&found.observed);
        let ghost read = *self;
        let result = self.settle_edge_merge(database, merge, policy, &found.selection, session);
        assert(retained(before, read, found.observed));
        assert(merges(
            read,
            *self,
            *database,
            *merge,
            policy,
            found.selection,
            start,
            session.log(),
            result,
        ));
        result
    }

    /// Resolve one selected directed endpoint pair against the complete edge
    /// overlay. No input is a read-only outcome; exactly one matching edge is
    /// matched; parallel matching edges refuse; no matching edge asks for one
    /// fresh identity and stages one ordinary edge creation.
    ///
    /// Repeated occurrences of the same endpoint pair collapse before edge
    /// lookup. More than one distinct pair refuses before the edge overlay is
    /// read or an identity is asked for.
    pub fn settle_edge_merge<H: Host>(
        &mut self,
        database: &Database,
        merge: &GraphEdgeMerge,
        policy: GraphEdgeMergePolicy,
        selection: &Selection,
        session: &mut Session<H>,
    ) -> (result: Result<(GraphEdgeMergeStats, GraphEdgeMergeOutcome), Fault>)
        requires
            old(self).wf(),
            database.wf(),
            merge.wf(),
        ensures
            final(self).wf(),
            final(session).metered() == old(session).metered(),
            merges(
                *old(self),
                *final(self),
                *database,
                *merge,
                policy,
                *selection,
                old(session).log(),
                final(session).log(),
                result,
            ),
    {
        let ghost before = *self;
        let ghost start = session.log();
        if let Err(error) = self.check_edge_merge(database, merge.relation) {
            return Err(Fault::Source(error));
        }
        if selection.rows.len() as u64 != selection.stats.result_rows {
            return Err(Fault::InvalidSourceStatistics);
        }
        let mut stats = selection.stats;
        let read = read_input(merge, policy.query, &selection.rows, &mut stats, session);
        let ghost counted = stats;
        let ghost log_read = session.log();
        let ghost failed = failure(read);
        let pair = match read {
            Err(fault) => {
                proof {
                    assert(input_read(
                        before, *self, *database, *merge, policy, *selection, counted, start,
                        log_read, session.log(), failed, Err(fault),
                    ));
                }
                return Err(fault);
            },
            Ok(None) => {
                let report = (
                    GraphEdgeMergeStats {
                        match_selection: selection.stats,
                        overlay_edges: 0,
                        evaluator: stats,
                        created_edges: 0,
                    },
                    GraphEdgeMergeOutcome::NoInput,
                );
                proof {
                    assert(input_read(
                        before, *self, *database, *merge, policy, *selection, counted, start,
                        log_read, session.log(), failed, Ok(report),
                    ));
                }
                return Ok(report);
            },
            Ok(Some(pair)) => pair,
        };
        let edges = match self.edges(database) {
            Ok(edges) => edges,
            Err(error) => {
                proof {
                    assert(input_read(
                        before, *self, *database, *merge, policy, *selection, counted, start,
                        log_read, session.log(), failed, Err(Fault::Source(error)),
                    ));
                }
                return Err(Fault::Source(error));
            },
        };
        proof {
            assert(edge_scan(before, *self, *database, edges@));
        }
        let ghost scanned = *self;
        let result = self.conclude_edge_merge(
            database,
            merge,
            policy,
            selection.stats,
            pair,
            &edges,
            stats,
            session,
        );
        proof {
            let (decided, log_decided, stopped) = choose|
                decided: QueryStats,
                log_decided: Seq<Event>,
                stopped: Option<Fault>,
            | edge_concluded(
                scanned, *self, *database, *merge, policy, selection.stats, pair, edges@, counted,
                decided, log_read, log_decided, session.log(), stopped, result,
            );
            let pairs = pairs_upto(*merge, selection.rows@, selection.rows@.len() as int);
            assert(pairs[0] == pair);
            assert(edge_chosen(
                before, scanned, *self, *database, *merge, policy, selection.stats, pairs[0], edges@,
                counted, decided, log_read, log_decided, session.log(), stopped, result,
            ));
            assert(input_read(
                before, *self, *database, *merge, policy, *selection, counted, start, log_read,
                session.log(), failed, result,
            ));
        }
        result
    }

    /// Match or create over one endpoint pair and the scanned edges.
    fn conclude_edge_merge<H: Host>(
        &mut self,
        database: &Database,
        merge: &GraphEdgeMerge,
        policy: GraphEdgeMergePolicy,
        selected: QueryStats,
        pair: (VId, VId),
        edges: &Vec<EdgeRecord>,
        counted: QueryStats,
        session: &mut Session<H>,
    ) -> (result: Result<(GraphEdgeMergeStats, GraphEdgeMergeOutcome), Fault>)
        requires
            old(self).wf(),
            database.wf(),
        ensures
            final(self).wf(),
            final(session).metered() == old(session).metered(),
            exists|decided: QueryStats, log_decided: Seq<Event>, failed: Option<Fault>| #[trigger]
                edge_concluded(
                    *old(self),
                    *final(self),
                    *database,
                    *merge,
                    policy,
                    selected,
                    pair,
                    edges@,
                    counted,
                    decided,
                    old(session).log(),
                    log_decided,
                    final(session).log(),
                    failed,
                    result,
                ),
    {
        let ghost before = *self;
        let ghost start = session.log();
        let overlay_edges: u64 = edges.len() as u64;
        let mut stats = counted;
        let decision = decide_edge(merge, policy, selected, pair, edges, &mut stats, session);
        let ghost log_decided = session.log();
        let ghost failed = failure(decision);
        let matched = match decision {
            Err(fault) => {
                proof {
                    assert(edge_concluded(
                        before, *self, *database, *merge, policy, selected, pair, edges@, counted,
                        stats, start, log_decided, session.log(), failed, Err(fault),
                    ));
                }
                return Err(fault);
            },
            Ok(matched) => matched,
        };
        if let Some(eid) = matched {
            let report = (
                GraphEdgeMergeStats {
                    match_selection: selected,
                    overlay_edges,
                    evaluator: stats,
                    created_edges: 0,
                },
                GraphEdgeMergeOutcome::Matched(eid),
            );
            proof {
                assert(edge_concluded(
                    before, *self, *database, *merge, policy, selected, pair, edges@, counted,
                    stats, start, log_decided, session.log(), failed, Ok(report),
                ));
            }
            return Ok(report);
        }
        let result = self.create_edge(database, merge, pair, selected, overlay_edges, stats, session);
        proof {
            assert(edge_concluded(
                before, *self, *database, *merge, policy, selected, pair, edges@, counted, stats,
                start, log_decided, session.log(), failed, result,
            ));
        }
        result
    }

    /// Ask for one identity and stage one ordinary edge creation. Cancellation is
    /// never reported after the workspace changed.
    fn create_edge<H: Host>(
        &mut self,
        database: &Database,
        merge: &GraphEdgeMerge,
        pair: (VId, VId),
        selected: QueryStats,
        overlay_edges: u64,
        evaluator: QueryStats,
        session: &mut Session<H>,
    ) -> (result: Result<(GraphEdgeMergeStats, GraphEdgeMergeOutcome), Fault>)
        requires
            old(self).wf(),
            database.wf(),
        ensures
            final(self).wf(),
            final(session).metered() == old(session).metered(),
            exists|log_issued: Seq<Event>| #[trigger]
                edge_created(
                    *old(self),
                    *final(self),
                    *database,
                    *merge,
                    pair,
                    selected,
                    overlay_edges as nat,
                    evaluator,
                    old(session).log(),
                    log_issued,
                    final(session).log(),
                    result,
                ),
    {
        let ghost before = *self;
        let ghost start = session.log();
        let properties = clone_props(&merge.properties);
        let issued = session.allocate(IdentityKind::Edge, 0);
        let ghost log_issued = session.log();
        let eid = match issued {
            Ok(ElementId::Edge(eid)) => eid,
            Ok(ElementId::Vertex(_)) => {
                proof {
                    assert(edge_created(
                        before, *self, *database, *merge, pair, selected, overlay_edges as nat,
                        evaluator, start, log_issued, session.log(), Err(Fault::IdentityKind),
                    ));
                }
                return Err(Fault::IdentityKind);
            },
            Err(error) => {
                proof {
                    assert(edge_created(
                        before, *self, *database, *merge, pair, selected, overlay_edges as nat,
                        evaluator, start, log_issued, session.log(),
                        Err(Fault::IdentitySource(error)),
                    ));
                }
                return Err(Fault::IdentitySource(error));
            },
        };
        let report = (
            GraphEdgeMergeStats {
                match_selection: selected,
                overlay_edges,
                evaluator,
                created_edges: 1,
            },
            GraphEdgeMergeOutcome::Created(eid),
        );
        let mut batch = WriteBatch::new(merge.relation);
        batch.rows.push(
            PendingRow::Edge { eid, src: pair.0, dst: pair.1, props: properties, ensure: false },
        );
        let ghost created = batch;
        let ghost outcome = GraphEdgeMergeOutcome::Created(eid);
        assert(report == merge_report(selected, overlay_edges as nat, evaluator, outcome));
        let polled = session.poll_query();
        let ghost log_polled = session.log();
        if let Err(error) = polled {
            proof {
                assert(edge_staged(
                    before, *self, *database, *merge, pair, eid,
                    merge_report(selected, overlay_edges as nat, evaluator, outcome), log_issued, log_polled,
                    session.log(), created, Ok(()), Err(Fault::Interrupted(error)),
                ));
                assert(edge_created(
                    before, *self, *database, *merge, pair, selected, overlay_edges as nat,
                    evaluator, start, log_issued, session.log(), Err(Fault::Interrupted(error)),
                ));
            }
            return Err(Fault::Interrupted(error));
        }
        let mut batches: Vec<WriteBatch> = Vec::new();
        batches.push(batch);
        assert(batches@ =~= seq![created]);
        let staged = self.write_ordered(database, batches, session);
        let result = match staged {
            Ok(()) => Ok(report),
            Err(error) => Err(Fault::Source(error)),
        };
        proof {
            assert(edge_staged(
                before, *self, *database, *merge, pair, eid,
                    merge_report(selected, overlay_edges as nat, evaluator, outcome), log_issued, log_polled,
                session.log(), created, staged, result,
            ));
            assert(edge_created(
                before, *self, *database, *merge, pair, selected, overlay_edges as nat, evaluator,
                start, log_issued, session.log(), result,
            ));
        }
        result
    }
}

/// A relationship MERGE stages one batch when it creates, and otherwise nothing:
/// every other outcome leaves the workspace as it was. No observation is lost.
pub proof fn law_edge_merge_stages_once(
    before: WriteTxn,
    after: WriteTxn,
    database: Database,
    merge: GraphEdgeMerge,
    policy: GraphEdgeMergePolicy,
    selection: Selection,
    log: Seq<Event>,
    log_after: Seq<Event>,
    result: Result<(GraphEdgeMergeStats, GraphEdgeMergeOutcome), Fault>,
)
    requires
        merges(before, after, database, merge, policy, selection, log, log_after, result),
    ensures
        match result {
            Ok((_, GraphEdgeMergeOutcome::Created(_))) => {
                &&& after.staged@.len() == before.staged@.len() + 1
                &&& after.staged@.drop_last() == before.staged@
            },
            _ => same_workspace(before, after),
        },
        after.owner == before.owner,
        after.basis == before.basis,
        after.state == before.state,
        after.pin == before.pin,
        after.savepoints@ == before.savepoints@,
        after.program_multi_relation == before.program_multi_relation,
        keeps_observations(before, after),
{
    if merge_refusal(before, database, merge.relation) is None && selection.rows@.len()
        == selection.stats.result_rows {
        let pairs = pairs_upto(merge, selection.rows@, selection.rows@.len() as int);
        let (counted, log_read, failed) = choose|
            counted: QueryStats,
            log_read: Seq<Event>,
            failed: Option<Fault>,
        | #[trigger]
            input_read(
                before, after, database, merge, policy, selection, counted, log, log_read,
                log_after, failed, result,
            );
        if failed is None && pairs.len() > 0 && before.read_refusal(database) is None {
            let (scanned, edges, decided, log_decided, stopped) = choose|
                scanned: WriteTxn,
                edges: Seq<EdgeRecord>,
                decided: QueryStats,
                log_decided: Seq<Event>,
                stopped: Option<Fault>,
            | #[trigger]
                edge_chosen(
                    before, scanned, after, database, merge, policy, selection.stats, pairs[0],
                    edges, counted, decided, log_read, log_decided, log_after, stopped, result,
                );
            assert(keeps_observations(before, scanned));
            let found = matches_upto(
                edges, merge.relation, pairs[0].0, pairs[0].1, edges.len() as int,
            );
            if stopped is None && found.len() == 0 {
                let log_issued = choose|log_issued: Seq<Event>| #[trigger]
                    edge_created(
                        scanned, after, database, merge, pairs[0], selection.stats, edges.len(),
                        decided, log_decided, log_issued, log_after, result,
                    );
                lemma_creation_frame(
                    scanned, after, database, merge, pairs[0], selection.stats, edges.len(),
                    decided, log_decided, log_issued, log_after, result,
                );
            }
        }
    }
}

proof fn lemma_creation_frame(
    before: WriteTxn,
    after: WriteTxn,
    database: Database,
    merge: GraphEdgeMerge,
    pair: (VId, VId),
    selected: QueryStats,
    overlay_edges: nat,
    evaluator: QueryStats,
    log: Seq<Event>,
    log_issued: Seq<Event>,
    log_after: Seq<Event>,
    result: Result<(GraphEdgeMergeStats, GraphEdgeMergeOutcome), Fault>,
)
    requires
        edge_created(
            before, after, database, merge, pair, selected, overlay_edges, evaluator, log,
            log_issued, log_after, result,
        ),
    ensures
        match result {
            Ok((_, GraphEdgeMergeOutcome::Created(_))) => {
                &&& after.staged@.len() == before.staged@.len() + 1
                &&& after.staged@.drop_last() == before.staged@
            },
            Ok(_) => false,
            Err(_) => same_workspace(before, after),
        },
        after.owner == before.owner,
        after.basis == before.basis,
        after.state == before.state,
        after.pin == before.pin,
        after.savepoints@ == before.savepoints@,
        after.program_multi_relation == before.program_multi_relation,
        keeps_observations(before, after),
{
    if refused(log, log_issued) is None && log_issued.last().issued matches Some(
        ElementId::Edge(eid),
    ) {
        let eid = (log_issued.last().issued->0)->Edge_0;
        let report = merge_report(
            selected, overlay_edges, evaluator, GraphEdgeMergeOutcome::Created(eid),
        );
        let (log_polled, batch, staged) = choose|
            log_polled: Seq<Event>,
            batch: WriteBatch,
            staged: Result<(), WriteTxnError>,
        | #[trigger]
            edge_staged(
                before, after, database, merge, pair, eid, report, log_issued, log_polled,
                log_after, batch, staged, result,
            );
        if refused(log_issued, log_polled) is None && staged is Ok {
            assert(after.staged@ == before.staged@ + seq![batch]);
            assert(after.staged@.drop_last() =~= before.staged@);
        }
    }
}

} // verus!
