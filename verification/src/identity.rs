//! Identity allocation: a reserved identity lies strictly above every identity that
//! a commit created, and is never issued again on this handle.

use vstd::prelude::*;
use crate::database::Database;
use crate::errors::WriteTxnError;
use crate::graph::DeltaRow;
use crate::ids::{CommitSeq, EId, ElementId, VId};
use crate::plan::{
    ask, demand, failure, go, lemma_obeys_ask, lemma_obeys_nothing, lemma_obeys_stop, lemma_step,
    obeys, same_error, stop, upto, whole, Plan,
};
use crate::selection::selection_refusal;
use crate::session::{refused, Event, Host, IdentityKind, Request, Session};
use crate::template::{lemma_rows_bounds, lemma_rows_step, rows_seen, rows_upto, Template};
use crate::txn::WriteTxn;

verus! {

/// How far commits were folded in, and the highest identities so far.
#[derive(Clone, Copy, PartialEq, Eq, Structural, Debug)]
pub struct IdentityState {
    pub frontier: CommitSeq,
    pub vertex: u128,
    pub edge: u128,
}

/// The greater of two identities.
pub open spec fn higher(left: u128, right: u128) -> u128 {
    if left < right {
        right
    } else {
        left
    }
}

/// The highest identities after one row. Deletions release nothing.
pub open spec fn highs_after(highs: (u128, u128), row: DeltaRow) -> (u128, u128) {
    match row {
        DeltaRow::CreateVertex { vid, .. } => (higher(highs.0, vid.0), highs.1),
        DeltaRow::CreateEdge { eid, .. } => (highs.0, higher(highs.1, eid.0)),
        _ => highs,
    }
}

/// The highest identities after a run of rows.
pub open spec fn highs_after_rows(highs: (u128, u128), rows: Seq<DeltaRow>) -> (u128, u128)
    decreases rows.len(),
{
    if rows.len() == 0 {
        highs
    } else {
        highs_after(highs_after_rows(highs, rows.drop_last()), rows.last())
    }
}

/// The highest identities after the commits from `first` up to `n`.
pub open spec fn highs_after_commits(
    highs: (u128, u128),
    database: Database,
    first: int,
    n: int,
) -> (u128, u128)
    decreases n - first,
{
    if n <= first {
        highs
    } else {
        highs_after_rows(
            highs_after_commits(highs, database, first, n - 1),
            database.log@[n - 1].template.rows(),
        )
    }
}

/// The state with every later commit folded in.
pub open spec fn refreshed(state: IdentityState, database: Database) -> IdentityState {
    let highs = highs_after_commits(
        (state.vertex, state.edge),
        database,
        state.frontier.0 - database.base_seq.0,
        database.log@.len() as int,
    );
    IdentityState {
        frontier: CommitSeq(database.tip() as u64),
        vertex: highs.0,
        edge: highs.1,
    }
}

/// The highest identity of a kind.
pub open spec fn high_of(state: IdentityState, kind: IdentityKind) -> u128 {
    match kind {
        IdentityKind::Vertex => state.vertex,
        IdentityKind::Edge => state.edge,
    }
}

/// The state with one more identity reserved.
pub open spec fn reserved(state: IdentityState, kind: IdentityKind) -> IdentityState {
    match kind {
        IdentityKind::Vertex => IdentityState { vertex: (state.vertex + 1) as u128, ..state },
        IdentityKind::Edge => IdentityState { edge: (state.edge + 1) as u128, ..state },
    }
}

/// The identity of a kind.
pub open spec fn identity_of(kind: IdentityKind, raw: u128) -> ElementId {
    match kind {
        IdentityKind::Vertex => ElementId::Vertex(VId(raw)),
        IdentityKind::Edge => ElementId::Edge(EId(raw)),
    }
}

/// What reserving one identity asks and decides.
pub open spec fn reserve_steps(
    state: IdentityState,
    database: Database,
    kind: IdentityKind,
) -> Seq<Plan<WriteTxnError>> {
    seq![
        ask(seq![Request::PollQuery]),
        match database.history_refusal(state.frontier) {
            Some(error) => stop(error),
            None => go(),
        },
        ask(seq![Request::PollQuery]),
        demand(
            high_of(refreshed(state, database), kind) < u128::MAX,
            WriteTxnError::IdentityExhausted,
        ),
    ]
}

/// Fold the creations of one commit in.
fn fold_template(state: &mut IdentityState, template: &Template)
    ensures
        final(state).frontier == old(state).frontier,
        (final(state).vertex, final(state).edge) == highs_after_rows(
            (old(state).vertex, old(state).edge),
            template.rows(),
        ),
{
    let ghost start = (state.vertex, state.edge);
    let ghost coordinates = template.coordinates@;
    let mut c: usize = 0;
    while c < template.coordinates.len()
        invariant
            c <= template.coordinates.len(),
            coordinates == template.coordinates@,
            state.frontier == old(state).frontier,
            start == (old(state).vertex, old(state).edge),
            (state.vertex, state.edge) == highs_after_rows(
                start,
                rows_upto(coordinates, c as int),
            ),
        decreases template.coordinates.len() - c,
    {
        let coordinate = &template.coordinates[c];
        let mut r: usize = 0;
        proof {
            lemma_rows_bounds(coordinates, c as int);
        }
        while r < coordinate.rows.len()
            invariant
                c < template.coordinates.len(),
                coordinates == template.coordinates@,
                *coordinate == coordinates[c as int],
                r <= coordinate.rows.len(),
                state.frontier == old(state).frontier,
                start == (old(state).vertex, old(state).edge),
                (state.vertex, state.edge) == highs_after_rows(
                    start,
                    rows_seen(coordinates, c as int, r as int),
                ),
            decreases coordinate.rows.len() - r,
        {
            proof {
                lemma_rows_step(coordinates, c as int, r as int);
                let seen = rows_seen(coordinates, c as int, r as int);
                assert(seen.push(coordinate.rows@[r as int]).drop_last() =~= seen);
            }
            match &coordinate.rows[r] {
                DeltaRow::CreateVertex { vid, .. } => {
                    if state.vertex < vid.0 {
                        state.vertex = vid.0;
                    }
                },
                DeltaRow::CreateEdge { eid, .. } => {
                    if state.edge < eid.0 {
                        state.edge = eid.0;
                    }
                },
                _ => {},
            }
            r += 1;
        }
        proof {
            lemma_rows_bounds(coordinates, c as int);
        }
        c += 1;
    }
}

/// What reserving does to the state, whatever the host answers. A refusal before
/// the commits were folded in changes nothing; a later one reserves nothing.
pub open spec fn reserves(
    before: IdentityState,
    after: IdentityState,
    database: Database,
    kind: IdentityKind,
    issued: Result<ElementId, WriteTxnError>,
) -> bool {
    match issued {
        Ok(element) => {
            &&& after == reserved(refreshed(before, database), kind)
            &&& element == identity_of(kind, high_of(after, kind))
            &&& high_of(refreshed(before, database), kind) < u128::MAX
            &&& database.history_refusal(before.frontier) is None
        },
        Err(_) => after == before || after == refreshed(before, database),
    }
}

impl Database {
    /// Reserve an identity above every committed creation of its kind. A reserved
    /// identity is not issued again on this handle, even if it is never used.
    pub fn allocate_identity<H: Host>(
        &self,
        state: &mut IdentityState,
        kind: IdentityKind,
        session: &mut Session<H>,
    ) -> (issued: Result<ElementId, WriteTxnError>)
        requires
            self.wf(),
        ensures
            final(session).metered() == old(session).metered(),
            obeys(
                old(session).log(),
                final(session).log(),
                whole(reserve_steps(*old(state), *self, kind)),
                same_error(),
                failure(issued),
            ),
            reserves(*old(state), *final(state), *self, kind, issued),
    {
        let ghost start = session.log();
        let ghost before = *state;
        let ghost steps = reserve_steps(before, *self, kind);
        proof {
            lemma_obeys_nothing(start, same_error());
        }
        let polled = session.poll_query();
        let ghost log1 = session.log();
        proof {
            lemma_obeys_ask(start, log1, seq![Request::PollQuery], same_error());
            lemma_step(start, start, log1, steps, 0, same_error(), failure(polled));
        }
        if let Err(error) = polled {
            return Err(error);
        }
        let known = self.delta_since(state.frontier);
        proof {
            lemma_obeys_nothing(log1, same_error());
            if known is Err {
                lemma_obeys_stop(log1, same_error(), known->Err_0);
            }
            lemma_step(start, log1, log1, steps, 1, same_error(), failure(known));
        }
        let known: usize = match known {
            Ok(known) => known,
            Err(error) => return Err(error),
        };
        let mut i: usize = known;
        while i < self.log.len()
            invariant
                known <= i <= self.log.len(),
                (state.vertex, state.edge) == highs_after_commits(
                    (before.vertex, before.edge),
                    *self,
                    known as int,
                    i as int,
                ),
            decreases self.log.len() - i,
        {
            fold_template(state, &self.log[i].template);
            i += 1;
        }
        state.frontier = self.snapshot_frontier();
        assert(*state == refreshed(before, *self));
        let polled = session.poll_query();
        let ghost log2 = session.log();
        proof {
            lemma_obeys_ask(log1, log2, seq![Request::PollQuery], same_error());
            lemma_step(start, log1, log2, steps, 2, same_error(), failure(polled));
        }
        if let Err(error) = polled {
            return Err(error);
        }
        proof {
            lemma_obeys_nothing(log2, same_error());
            lemma_obeys_stop(log2, same_error(), WriteTxnError::IdentityExhausted);
        }
        let high: u128 = match kind {
            IdentityKind::Vertex => state.vertex,
            IdentityKind::Edge => state.edge,
        };
        if high == u128::MAX {
            proof {
                lemma_step(
                    start, log2, log2, steps, 3, same_error(),
                    Some(WriteTxnError::IdentityExhausted),
                );
            }
            return Err(WriteTxnError::IdentityExhausted);
        }
        proof {
            lemma_step(start, log2, log2, steps, 3, same_error(), None);
        }
        match kind {
            IdentityKind::Vertex => {
                state.vertex = high + 1;
                Ok(ElementId::Vertex(VId(high + 1)))
            },
            IdentityKind::Edge => {
                state.edge = high + 1;
                Ok(ElementId::Edge(EId(high + 1)))
            },
        }
    }
}

impl WriteTxn {
    /// Reserve an identity from the transaction's own database, which must not have
    /// moved on.
    pub fn allocate_identity<H: Host>(
        &self,
        database: &Database,
        state: &mut IdentityState,
        kind: IdentityKind,
        session: &mut Session<H>,
    ) -> (issued: Result<ElementId, WriteTxnError>)
        requires
            database.wf(),
        ensures
            final(session).metered() == old(session).metered(),
            match selection_refusal(*self, *database) {
                Some(error) => {
                    &&& issued == Err::<ElementId, WriteTxnError>(error)
                    &&& *final(state) == *old(state)
                    &&& final(session).log() == old(session).log()
                },
                None => {
                    &&& obeys(
                        old(session).log(),
                        final(session).log(),
                        whole(reserve_steps(*old(state), *database, kind)),
                        same_error(),
                        failure(issued),
                    )
                    &&& reserves(*old(state), *final(state), *database, kind, issued)
                },
            },
    {
        match self.current_snapshot(database) {
            Err(error) => Err(error),
            Ok(()) => database.allocate_identity(state, kind, session),
        }
    }
}

/// The commit creates the element.
pub open spec fn creates(rows: Seq<DeltaRow>, element: ElementId) -> bool {
    exists|i: int|
        0 <= i < rows.len() && match #[trigger] rows[i] {
            DeltaRow::CreateVertex { vid, .. } => element == ElementId::Vertex(vid),
            DeltaRow::CreateEdge { eid, .. } => element == ElementId::Edge(eid),
            _ => false,
        }
}

/// The raw identity of an element.
pub open spec fn raw_of(element: ElementId) -> u128 {
    match element {
        ElementId::Vertex(vid) => vid.0,
        ElementId::Edge(eid) => eid.0,
    }
}

/// The kind of an element.
pub open spec fn kind_of(element: ElementId) -> IdentityKind {
    match element {
        ElementId::Vertex(_) => IdentityKind::Vertex,
        ElementId::Edge(_) => IdentityKind::Edge,
    }
}

/// Every creation up to the folded frontier lies at or below the highest identity
/// of its kind.
pub open spec fn covers(state: IdentityState, database: Database) -> bool {
    forall|n: int, element: ElementId|
        0 <= n < database.log@.len() && n < state.frontier.0 - database.base_seq.0 && #[trigger] creates(
            database.log@[n].template.rows(),
            element,
        ) ==> raw_of(element) <= high_of(state, kind_of(element))
}

spec fn high_in(highs: (u128, u128), kind: IdentityKind) -> u128 {
    match kind {
        IdentityKind::Vertex => highs.0,
        IdentityKind::Edge => highs.1,
    }
}

proof fn lemma_rows_high(highs: (u128, u128), rows: Seq<DeltaRow>)
    ensures
        forall|kind: IdentityKind| #[trigger]
            high_in(highs, kind) <= high_in(highs_after_rows(highs, rows), kind),
        forall|element: ElementId| #[trigger]
            creates(rows, element) ==> raw_of(element) <= high_in(
                highs_after_rows(highs, rows),
                kind_of(element),
            ),
    decreases rows.len(),
{
    if rows.len() > 0 {
        let earlier = rows.drop_last();
        lemma_rows_high(highs, earlier);
        let before = highs_after_rows(highs, earlier);
        assert forall|kind: IdentityKind| #[trigger] high_in(highs, kind) <= high_in(
            highs_after_rows(highs, rows),
            kind,
        ) by {
            assert(high_in(highs, kind) <= high_in(before, kind));
        }
        assert forall|element: ElementId| #[trigger] creates(rows, element) implies raw_of(element)
            <= high_in(highs_after_rows(highs, rows), kind_of(element)) by {
            let i = choose|i: int|
                0 <= i < rows.len() && match #[trigger] rows[i] {
                    DeltaRow::CreateVertex { vid, .. } => element == ElementId::Vertex(vid),
                    DeltaRow::CreateEdge { eid, .. } => element == ElementId::Edge(eid),
                    _ => false,
                };
            if i < earlier.len() {
                assert(earlier[i] == rows[i]);
                assert(creates(earlier, element));
                assert(raw_of(element) <= high_in(before, kind_of(element)));
            }
        }
    }
}

proof fn lemma_commits_high(highs: (u128, u128), database: Database, first: int, n: int)
    requires
        first <= n <= database.log@.len(),
    ensures
        forall|kind: IdentityKind| #[trigger]
            high_in(highs, kind) <= high_in(
                highs_after_commits(highs, database, first, n),
                kind,
            ),
        forall|k: int, element: ElementId|
            first <= k < n && 0 <= k && #[trigger] creates(
                database.log@[k].template.rows(),
                element,
            ) ==> raw_of(element) <= high_in(
                highs_after_commits(highs, database, first, n),
                kind_of(element),
            ),
    decreases n - first,
{
    if first < n {
        lemma_commits_high(highs, database, first, n - 1);
        let before = highs_after_commits(highs, database, first, n - 1);
        let rows = database.log@[n - 1].template.rows();
        lemma_rows_high(before, rows);
        let after = highs_after_commits(highs, database, first, n);
        assert forall|kind: IdentityKind| #[trigger] high_in(highs, kind) <= high_in(
            after,
            kind,
        ) by {
            assert(high_in(highs, kind) <= high_in(before, kind));
            assert(high_in(before, kind) <= high_in(after, kind));
        }
        assert forall|k: int, element: ElementId|
            first <= k < n && 0 <= k && #[trigger] creates(
                database.log@[k].template.rows(),
                element,
            ) implies raw_of(element) <= high_in(after, kind_of(element)) by {
            if k < n - 1 {
                assert(raw_of(element) <= high_in(before, kind_of(element)));
                assert(high_in(before, kind_of(element)) <= high_in(after, kind_of(element)));
            }
        }
    }
}

/// An issued identity lies strictly above every identity of its kind that any
/// commit created, deleted ones among them, and above every identity issued
/// before it. The state keeps covering what it covered.
pub proof fn law_issued_identities_are_fresh(
    before: IdentityState,
    after: IdentityState,
    database: Database,
    kind: IdentityKind,
    element: ElementId,
)
    requires
        database.wf(),
        covers(before, database),
        reserves(before, after, database, kind, Ok(element)),
    ensures
        kind_of(element) == kind,
        raw_of(element) > high_of(before, kind),
        raw_of(element) == high_of(after, kind),
        covers(after, database),
        forall|n: int, created: ElementId|
            0 <= n < database.log@.len() && kind_of(created) == kind && #[trigger] creates(
                database.log@[n].template.rows(),
                created,
            ) ==> raw_of(created) < raw_of(element),
{
    let first = before.frontier.0 - database.base_seq.0;
    let n = database.log@.len() as int;
    let highs = (before.vertex, before.edge);
    lemma_commits_high(highs, database, first, n);
    let fresh = refreshed(before, database);
    assert(high_in(highs, kind) <= high_in(
        highs_after_commits(highs, database, first, n),
        kind,
    ));
    assert forall|k: int, created: ElementId|
        0 <= k < n && #[trigger] creates(database.log@[k].template.rows(), created) implies raw_of(
        created,
    ) <= high_of(fresh, kind_of(created)) by {
        let of = kind_of(created);
        assert(high_in(highs, of) <= high_in(highs_after_commits(highs, database, first, n), of));
        if k < first {
            assert(raw_of(created) <= high_of(before, of));
        }
    }
    assert forall|k: int, created: ElementId|
        0 <= k < database.log@.len() && k < after.frontier.0 - database.base_seq.0
            && #[trigger] creates(database.log@[k].template.rows(), created) implies raw_of(created)
        <= high_of(after, kind_of(created)) by {
        assert(raw_of(created) <= high_of(fresh, kind_of(created)));
    }
    assert forall|k: int, created: ElementId|
        0 <= k < database.log@.len() && kind_of(created) == kind && #[trigger] creates(
            database.log@[k].template.rows(),
            created,
        ) implies raw_of(created) < raw_of(element) by {
        assert(raw_of(created) <= high_of(fresh, kind_of(created)));
    }
}

proof fn lemma_rows_attained(highs: (u128, u128), rows: Seq<DeltaRow>, kind: IdentityKind)
    ensures
        ({
            let high = high_in(highs_after_rows(highs, rows), kind);
            high == high_in(highs, kind) || creates(rows, identity_of(kind, high))
        }),
    decreases rows.len(),
{
    if rows.len() > 0 {
        let earlier = rows.drop_last();
        lemma_rows_attained(highs, earlier, kind);
        let before = high_in(highs_after_rows(highs, earlier), kind);
        let after = high_in(highs_after_rows(highs, rows), kind);
        if after != before {
            assert(rows[rows.len() - 1] == rows.last());
            assert(creates(rows, identity_of(kind, after)));
        } else if before != high_in(highs, kind) {
            let element = identity_of(kind, before);
            let k = choose|k: int|
                0 <= k < earlier.len() && match #[trigger] earlier[k] {
                    DeltaRow::CreateVertex { vid, .. } => element == ElementId::Vertex(vid),
                    DeltaRow::CreateEdge { eid, .. } => element == ElementId::Edge(eid),
                    _ => false,
                };
            assert(rows[k] == earlier[k]);
            assert(creates(rows, element));
        }
    }
}

proof fn lemma_commits_attained(
    highs: (u128, u128),
    database: Database,
    first: int,
    n: int,
    kind: IdentityKind,
)
    requires
        0 <= first,
        n <= database.log@.len(),
    ensures
        ({
            let high = high_in(highs_after_commits(highs, database, first, n), kind);
            high == high_in(highs, kind) || exists|k: int|
                0 <= k < n && #[trigger] creates(
                    database.log@[k].template.rows(),
                    identity_of(kind, high),
                )
        }),
    decreases n - first,
{
    if first < n {
        lemma_commits_attained(highs, database, first, n - 1, kind);
        let before = highs_after_commits(highs, database, first, n - 1);
        lemma_rows_attained(before, database.log@[n - 1].template.rows(), kind);
    }
}

/// The identity that is issued is the very next one: one more than the greatest that a
/// commit created or that was reserved before. None is issued exactly where that is the
/// last identity there is.
pub proof fn law_identities_follow_the_greatest(
    before: IdentityState,
    after: IdentityState,
    database: Database,
    kind: IdentityKind,
    log: Seq<Event>,
    log_after: Seq<Event>,
    issued: Result<ElementId, WriteTxnError>,
)
    requires
        database.wf(),
        covers(before, database),
        database.history_refusal(before.frontier) is None,
        refused(log, log_after) is None,
        obeys(
            log,
            log_after,
            whole(reserve_steps(before, database, kind)),
            same_error(),
            failure(issued),
        ),
        reserves(before, after, database, kind, issued),
    ensures
        ({
            let greatest = high_of(refreshed(before, database), kind);
            &&& greatest >= high_of(before, kind)
            &&& forall|n: int, created: ElementId|
                0 <= n < database.log@.len() && kind_of(created) == kind && #[trigger] creates(
                    database.log@[n].template.rows(),
                    created,
                ) ==> raw_of(created) <= greatest
            &&& greatest == high_of(before, kind) || exists|n: int|
                0 <= n < database.log@.len() && #[trigger] creates(
                    database.log@[n].template.rows(),
                    identity_of(kind, greatest),
                )
            &&& issued == (if greatest < u128::MAX {
                Ok(identity_of(kind, (greatest + 1) as u128))
            } else {
                Err(WriteTxnError::IdentityExhausted)
            })
        }),
{
    let first = before.frontier.0 - database.base_seq.0;
    let n = database.log@.len() as int;
    let highs = (before.vertex, before.edge);
    lemma_commits_high(highs, database, first, n);
    lemma_commits_attained(highs, database, first, n, kind);
    let all = highs_after_commits(highs, database, first, n);
    let greatest = high_of(refreshed(before, database), kind);
    assert(greatest == high_in(all, kind));
    assert(high_in(highs, kind) <= high_in(all, kind));
    assert forall|k: int, created: ElementId|
        0 <= k < n && kind_of(created) == kind && #[trigger] creates(
            database.log@[k].template.rows(),
            created,
        ) implies raw_of(created) <= greatest by {
        if k < first {
            assert(raw_of(created) <= high_of(before, kind));
        }
    }
    let steps = reserve_steps(before, database, kind);
    reveal_with_fuel(upto, 5);
    assert(whole(steps).verdict == steps[3].verdict);
}

} // verus!
