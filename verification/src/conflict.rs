//! First-committer-wins validation of a transaction against committed history.

use vstd::prelude::*;
use crate::authorized_run::lemma_intents_at;
use crate::batch::{intents, intents_upto, PendingRow};
use crate::database::Database;
use crate::errors::{Law, WriteTxnError};
use crate::graph::DeltaRow;
use crate::ids::{CommitSeq, EId, ElementId, RelationId, VId};
use crate::idset::{lemma_push_to_set, ElementSet};
use crate::session::{
    followed, lemma_followed_compose, lemma_followed_extend, lemma_one_tick, lemma_ran_nothing,
    lemma_ticked_compose, lemma_ticked_nothing, lemma_ticks_compose, lemma_ticks_refused,
    lemma_ticks_sum, refused, tick_plan, ticked, ticks, Host, Session,
};
use crate::template::{
    lemma_rows_bounds, lemma_rows_step, rows_seen, rows_upto, Coordinate, Template,
};
use crate::txn::WriteTxn;

verus! {

/// The elements a row writes, with the whole cascade of a vertex deletion.
pub open spec fn touched_by(row: DeltaRow, element: ElementId) -> bool {
    match row {
        DeltaRow::CreateVertex { vid, .. } => element == ElementId::Vertex(vid),
        DeltaRow::CreateEdge { eid, .. } => element == ElementId::Edge(eid),
        DeltaRow::DeleteVertex { vid, sorted_retired_incident_edges } => {
            ||| element == ElementId::Vertex(vid)
            ||| element matches ElementId::Edge(eid) && sorted_retired_incident_edges@.contains(eid)
        },
        DeltaRow::DeleteEdge { eid } => element == ElementId::Edge(eid),
        DeltaRow::LabelMembership { vid, .. } => element == ElementId::Vertex(vid),
        DeltaRow::Property { elem, .. } => element == elem,
        DeltaRow::Schema { .. } => false,
    }
}

/// The vertices whose adjacency a row extends.
pub open spec fn endpoint_of(row: DeltaRow, element: ElementId) -> bool {
    match row {
        DeltaRow::CreateEdge { src, dst, .. } => element == ElementId::Vertex(src) || element
            == ElementId::Vertex(dst),
        _ => false,
    }
}

/// Some row writes the element.
pub open spec fn touched(rows: Seq<DeltaRow>, element: ElementId) -> bool {
    exists|i: int| 0 <= i < rows.len() && touched_by(#[trigger] rows[i], element)
}

/// Some row extends the adjacency of the element.
pub open spec fn endpoint(rows: Seq<DeltaRow>, element: ElementId) -> bool {
    exists|i: int| 0 <= i < rows.len() && endpoint_of(#[trigger] rows[i], element)
}

/// The elements that an intent depends on, whatever its net effect.
pub open spec fn intent_touches(row: PendingRow, element: ElementId) -> bool {
    match row {
        PendingRow::Vertex { vid, .. } => element == ElementId::Vertex(vid),
        PendingRow::DeleteVertex { vid } => element == ElementId::Vertex(vid),
        PendingRow::SetLabel { vid, .. } => element == ElementId::Vertex(vid),
        PendingRow::SetProperty { vid, .. } => element == ElementId::Vertex(vid),
        PendingRow::Edge { eid, src, dst, .. } => {
            ||| element == ElementId::Edge(eid)
            ||| element == ElementId::Vertex(src)
            ||| element == ElementId::Vertex(dst)
        },
        PendingRow::DeleteEdge { eid, .. } => element == ElementId::Edge(eid),
        PendingRow::SetEdgeProperty { eid, .. } => element == ElementId::Edge(eid),
        PendingRow::CompareAndSet { elem, .. } => element == elem,
    }
}

pub open spec fn intended(rows: Seq<(RelationId, PendingRow)>, element: ElementId) -> bool {
    exists|i: int| 0 <= i < rows.len() && intent_touches((#[trigger] rows[i]).1, element)
}

proof fn lemma_touched_push(rows: Seq<DeltaRow>, row: DeltaRow, element: ElementId)
    ensures
        touched(rows.push(row), element) == (touched(rows, element) || touched_by(row, element)),
        endpoint(rows.push(row), element) == (endpoint(rows, element) || endpoint_of(row, element)),
{
    let all = rows.push(row);
    assert(all[rows.len() as int] == row);
    if touched(rows, element) {
        let i = choose|i: int| 0 <= i < rows.len() && touched_by(#[trigger] rows[i], element);
        assert(touched_by(all[i], element));
    }
    if touched(all, element) {
        let i = choose|i: int| 0 <= i < all.len() && touched_by(#[trigger] all[i], element);
        if i < rows.len() {
            assert(touched_by(rows[i], element));
        }
    }
    if touched_by(row, element) {
        assert(touched_by(all[rows.len() as int], element));
    }
    if endpoint(rows, element) {
        let i = choose|i: int| 0 <= i < rows.len() && endpoint_of(#[trigger] rows[i], element);
        assert(endpoint_of(all[i], element));
    }
    if endpoint(all, element) {
        let i = choose|i: int| 0 <= i < all.len() && endpoint_of(#[trigger] all[i], element);
        if i < rows.len() {
            assert(endpoint_of(rows[i], element));
        }
    }
    if endpoint_of(row, element) {
        assert(endpoint_of(all[rows.len() as int], element));
    }
}

pub proof fn lemma_intended_push(
    rows: Seq<(RelationId, PendingRow)>,
    row: (RelationId, PendingRow),
    element: ElementId,
)
    ensures
        intended(rows.push(row), element) == (intended(rows, element) || intent_touches(
            row.1,
            element,
        )),
{
    let all = rows.push(row);
    assert(all[rows.len() as int] == row);
    if intended(rows, element) {
        let i = choose|i: int| 0 <= i < rows.len() && intent_touches((#[trigger] rows[i]).1, element);
        assert(intent_touches(all[i].1, element));
    }
    if intent_touches(row.1, element) {
        assert(intent_touches(all[rows.len() as int].1, element));
    }
    if intended(all, element) {
        let i = choose|i: int| 0 <= i < all.len() && intent_touches((#[trigger] all[i]).1, element);
        if i < rows.len() {
            assert(intent_touches(rows[i].1, element));
        }
    }
}

impl PendingRow {
    /// Record the elements that the intent depends on.
    pub fn observe(&self, elements: &mut ElementSet)
        requires
            old(elements).wf(),
        ensures
            final(elements).wf(),
            forall|element: ElementId| #[trigger]
                final(elements)@.contains(element) == (old(elements)@.contains(element)
                    || intent_touches(*self, element)),
    {
        match self {
            PendingRow::Vertex { vid, .. }
            | PendingRow::DeleteVertex { vid }
            | PendingRow::SetLabel { vid, .. }
            | PendingRow::SetProperty { vid, .. } => {
                elements.insert(ElementId::Vertex(*vid));
            },
            PendingRow::Edge { eid, src, dst, .. } => {
                elements.insert(ElementId::Edge(*eid));
                elements.insert(ElementId::Vertex(*src));
                elements.insert(ElementId::Vertex(*dst));
            },
            PendingRow::DeleteEdge { eid, .. } | PendingRow::SetEdgeProperty { eid, .. } => {
                elements.insert(ElementId::Edge(*eid));
            },
            PendingRow::CompareAndSet { elem, .. } => {
                elements.insert(*elem);
            },
        }
    }
}

/// The number of edges a row retires by cascade.
pub open spec fn cascade_len(row: DeltaRow) -> nat {
    match row {
        DeltaRow::DeleteVertex { sorted_retired_incident_edges, .. } => {
            sorted_retired_incident_edges@.len()
        },
        _ => 0,
    }
}

/// Record the elements a row writes. The one arm of variable width is the
/// cascade, which checkpoints element by element.
pub fn validation_touches<H: Host>(
    row: &DeltaRow,
    elements: &mut ElementSet,
    session: &mut Session<H>,
) -> (done: Result<(), WriteTxnError>)
    requires
        old(elements).wf(),
    ensures
        final(elements).wf(),
        final(session).metered() == old(session).metered(),
        followed(
            old(session).log(),
            final(session).log(),
            ticks(old(session).metered(), 1 + cascade_len(*row)),
        ),
        ticked(old(session).log(), final(session).log(), old(session).metered()),
        match done {
            Ok(()) => {
                &&& refused(old(session).log(), final(session).log()) is None
                &&& forall|element: ElementId| #[trigger]
                    final(elements)@.contains(element) == (old(elements)@.contains(element)
                        || touched_by(*row, element))
            },
            Err(error) => refused(old(session).log(), final(session).log()) == Some(error),
        },
{
    let ghost start = session.log();
    let ghost metered = session.metered();
    let ghost rest = cascade_len(*row);
    let first = session.checkpoint();
    proof {
        assert(ticks(metered, 0) + tick_plan(metered) =~= tick_plan(metered));
        assert((1 - 1) as nat == 0nat);
        assert(ticks(metered, 1) == tick_plan(metered));
        lemma_ticks_sum(metered, 1, rest);
    }
    if let Err(error) = first {
        proof {
            lemma_followed_extend(start, session.log(), ticks(metered, 1), ticks(metered, rest));
        }
        return Err(error);
    }
    match row {
        DeltaRow::DeleteVertex { vid, sorted_retired_incident_edges } => {
            elements.insert(ElementId::Vertex(*vid));
            let mut i: usize = 0;
            while i < sorted_retired_incident_edges.len()
                invariant
                    i <= sorted_retired_incident_edges.len(),
                    elements.wf(),
                    start == old(session).log(),
                    metered == old(session).metered(),
                    session.metered() == metered,
                    rest == sorted_retired_incident_edges.len(),
                    rest == cascade_len(*row),
                    followed(start, session.log(), ticks(metered, (1 + i) as nat)),
                    refused(start, session.log()) is None,
                    forall|element: ElementId| #[trigger]
                        elements@.contains(element) == (old(elements)@.contains(element) || element
                            == ElementId::Vertex(*vid) || (element matches ElementId::Edge(eid)
                            && sorted_retired_incident_edges@.take(i as int).contains(eid))),
                decreases sorted_retired_incident_edges.len() - i,
            {
                let ghost middle = session.log();
                let ghost before = elements@;
                let step = session.checkpoint();
                proof {
                    lemma_followed_compose(
                        start,
                        middle,
                        session.log(),
                        ticks(metered, (1 + i) as nat),
                        tick_plan(metered),
                    );
                    assert((2 + i - 1) as nat == (1 + i) as nat);
                    assert(ticks(metered, (2 + i) as nat) == ticks(metered, (1 + i) as nat)
                        + tick_plan(metered));
                    lemma_ticks_sum(metered, (2 + i) as nat, (rest - i - 1) as nat);
                }
                if let Err(error) = step {
                    proof {
                        lemma_followed_extend(
                            start,
                            session.log(),
                            ticks(metered, (2 + i) as nat),
                            ticks(metered, (rest - i - 1) as nat),
                        );
                    }
                    return Err(error);
                }
                let retired = sorted_retired_incident_edges[i];
                elements.insert(ElementId::Edge(retired));
                proof {
                    let seen = sorted_retired_incident_edges@.take(i as int);
                    let next = sorted_retired_incident_edges@.take(i + 1);
                    assert(next =~= seen.push(retired));
                    lemma_push_to_set(seen, retired);
                    assert forall|element: ElementId| #[trigger]
                        elements@.contains(element) == (old(elements)@.contains(element) || element
                            == ElementId::Vertex(*vid) || (element matches ElementId::Edge(eid)
                            && next.contains(eid))) by {
                        if let ElementId::Edge(eid) = element {
                            assert(next.to_set().contains(eid) == seen.to_set().insert(
                                retired,
                            ).contains(eid));
                            assert(before.contains(element) == (old(elements)@.contains(element)
                                || seen.contains(eid)));
                        } else {
                            assert(before.contains(element) == (old(elements)@.contains(element)
                                || element == ElementId::Vertex(*vid)));
                        }
                    }
                }
                i += 1;
            }
            proof {
                assert(sorted_retired_incident_edges@.take(i as int)
                    =~= sorted_retired_incident_edges@);
            }
        },
        DeltaRow::CreateVertex { vid, .. } | DeltaRow::LabelMembership { vid, .. } => {
            elements.insert(ElementId::Vertex(*vid));
        },
        DeltaRow::CreateEdge { eid, .. } | DeltaRow::DeleteEdge { eid } => {
            elements.insert(ElementId::Edge(*eid));
        },
        DeltaRow::Property { elem, .. } => {
            elements.insert(*elem);
        },
        DeltaRow::Schema { .. } => {},
    }
    Ok(())
}

/// Record the vertices whose adjacency a row extends.
pub fn adjacency_endpoints(row: &DeltaRow, elements: &mut ElementSet)
    requires
        old(elements).wf(),
    ensures
        final(elements).wf(),
        forall|element: ElementId| #[trigger]
            final(elements)@.contains(element) == (old(elements)@.contains(element) || endpoint_of(
                *row,
                element,
            )),
{
    if let DeltaRow::CreateEdge { src, dst, .. } = row {
        elements.insert(ElementId::Vertex(*src));
        elements.insert(ElementId::Vertex(*dst));
    }
}

impl WriteTxn {
    /// Everything the staged intents depend on: what they name, and what their
    /// prepared rows write. Canonicalization may have removed the mutation of a
    /// conditional no-op, but not the dependency.
    pub open spec fn depends_on_write(&self, element: ElementId) -> bool {
        ||| intended(intents(self.staged@), element)
        ||| touched(self.prepared_rows(), element)
    }

    /// The checkpoints of collecting the mutation footprint: one for each staged
    /// intent, and those of the prepared rows.
    pub open spec fn footprint_ticks(&self) -> nat {
        intents(self.staged@).len() + match self.prepared {
            Some(prepared) => coordinate_ticks(
                prepared.template.coordinates@,
                prepared.template.coordinates@.len() as int,
            ),
            None => 0,
        }
    }

    /// Collect the mutation footprint.
    pub fn mutation_footprint<H: Host>(&self, session: &mut Session<H>) -> (footprint: Result<
        ElementSet,
        WriteTxnError,
    >)
        requires
            self.wf(),
        ensures
            final(session).metered() == old(session).metered(),
            followed(
                old(session).log(),
                final(session).log(),
                ticks(old(session).metered(), self.footprint_ticks()),
            ),
            match footprint {
                Ok(set) => {
                    &&& refused(old(session).log(), final(session).log()) is None
                    &&& set.wf()
                    &&& forall|element: ElementId| #[trigger]
                        set@.contains(element) == self.depends_on_write(element)
                },
                Err(error) => refused(old(session).log(), final(session).log()) == Some(error),
            },
    {
        let ghost start = session.log();
        let ghost metered = session.metered();
        let ghost total = self.footprint_ticks();
        proof {
            lemma_ran_nothing(start);
            lemma_one_tick(metered);
        }
        let mut footprint = ElementSet::new();
        let mut b: usize = 0;
        while b < self.staged.len()
            invariant
                b <= self.staged.len(),
                footprint.wf(),
                start == old(session).log(),
                metered == old(session).metered(),
                session.metered() == metered,
                ticks(metered, 1) == tick_plan(metered),
                intents(self.staged@).len() <= total,
                followed(start, session.log(), ticks(metered, intents_upto(self.staged@, b as int).len())),
                total == self.footprint_ticks(),
                refused(start, session.log()) is None,
                forall|element: ElementId| #[trigger]
                    footprint@.contains(element) == intended(
                        intents_upto(self.staged@, b as int),
                        element,
                    ),
            decreases self.staged.len() - b,
        {
            let batch = &self.staged[b];
            let ghost seen = intents_upto(self.staged@, b as int);
            let ghost own = batch.rows@.map_values(|row: PendingRow| (batch.relation, row));
            let mut r: usize = 0;
            proof {
                assert(seen + own.take(0) =~= seen);
            }
            while r < batch.rows.len()
                invariant
                    b < self.staged.len(),
                    *batch == self.staged@[b as int],
                    r <= batch.rows.len(),
                    footprint.wf(),
                    start == old(session).log(),
                    metered == old(session).metered(),
                    session.metered() == metered,
                    ticks(metered, 1) == tick_plan(metered),
                    intents(self.staged@).len() <= total,
                    seen == intents_upto(self.staged@, b as int),
                    total == self.footprint_ticks(),
                    followed(start, session.log(), ticks(metered, (seen.len() + r) as nat)),
                    refused(start, session.log()) is None,
                    own == batch.rows@.map_values(|row: PendingRow| (batch.relation, row)),
                    forall|element: ElementId| #[trigger]
                        footprint@.contains(element) == intended(
                            seen + own.take(r as int),
                            element,
                        ),
                decreases batch.rows.len() - r,
            {
                let ghost middle = session.log();
                let step = session.checkpoint();
                proof {
                    lemma_ticks_compose(
                        start,
                        middle,
                        session.log(),
                        metered,
                        (seen.len() + r) as nat,
                        1,
                    );
                    lemma_intents_at(self.staged@, b as int);
                    assert(seen.len() + r + 1 <= total);
                }
                if let Err(error) = step {
                    proof {
                        lemma_ticks_refused(
                            start,
                            session.log(),
                            metered,
                            (seen.len() + r + 1) as nat,
                            total,
                        );
                    }
                    return Err(error);
                }
                let ghost before = footprint@;
                let ghost rows = seen + own.take(r as int);
                let ghost next = seen + own.take(r + 1);
                let ghost row = batch.rows@[r as int];
                proof {
                    assert(next =~= rows.push((batch.relation, row)));
                }
                batch.rows[r].observe(&mut footprint);
                proof {
                    assert forall|element: ElementId| #[trigger]
                        footprint@.contains(element) == intended(next, element) by {
                        lemma_intended_push(rows, (batch.relation, row), element);
                        assert(before.contains(element) == intended(rows, element));
                    }
                }
                r += 1;
            }
            proof {
                assert(own.take(r as int) =~= own);
                assert(seen + own =~= intents_upto(self.staged@, b + 1));
            }
            b += 1;
        }
        let ghost named = footprint@;
        if let Some(prepared) = &self.prepared {
            let ghost middle = session.log();
            let step = template_touches(&prepared.template, &mut footprint, session);
            proof {
                lemma_ticks_compose(
                    start,
                    middle,
                    session.log(),
                    metered,
                    intents(self.staged@).len(),
                    coordinate_ticks(
                        prepared.template.coordinates@,
                        prepared.template.coordinates@.len() as int,
                    ),
                );
            }
            if let Err(error) = step {
                return Err(error);
            }
        }
        proof {
            assert forall|element: ElementId| #[trigger]
                footprint@.contains(element) == self.depends_on_write(element) by {
                assert(named.contains(element) == intended(intents(self.staged@), element));
            }
        }
        Ok(footprint)
    }
}

/// The checkpoints of the first `n` rows: one for each row, and one for each edge
/// that it retires.
pub open spec fn row_ticks(rows: Seq<DeltaRow>, n: int) -> nat
    decreases n,
{
    if n <= 0 {
        0
    } else {
        row_ticks(rows, n - 1) + 1 + cascade_len(rows[n - 1])
    }
}

/// The checkpoints of the first `n` coordinates: one for each, and those of its
/// rows.
pub open spec fn coordinate_ticks(coordinates: Seq<Coordinate>, n: int) -> nat
    decreases n,
{
    if n <= 0 {
        0
    } else {
        coordinate_ticks(coordinates, n - 1) + 1 + row_ticks(
            coordinates[n - 1].rows@,
            coordinates[n - 1].rows@.len() as int,
        )
    }
}

proof fn lemma_row_ticks(rows: Seq<DeltaRow>, n: int, m: int)
    requires
        0 <= n <= m,
    ensures
        row_ticks(rows, n) <= row_ticks(rows, m),
    decreases m - n,
{
    if n < m {
        lemma_row_ticks(rows, n, m - 1);
    }
}

proof fn lemma_coordinate_ticks(coordinates: Seq<Coordinate>, n: int, m: int)
    requires
        0 <= n <= m,
    ensures
        coordinate_ticks(coordinates, n) <= coordinate_ticks(coordinates, m),
    decreases m - n,
{
    if n < m {
        lemma_coordinate_ticks(coordinates, n, m - 1);
    }
}

/// Record the elements that a whole template writes.
fn template_touches<H: Host>(
    template: &Template,
    elements: &mut ElementSet,
    session: &mut Session<H>,
) -> (done: Result<(), WriteTxnError>)
    requires
        old(elements).wf(),
    ensures
        final(elements).wf(),
        final(session).metered() == old(session).metered(),
        followed(
            old(session).log(),
            final(session).log(),
            ticks(
                old(session).metered(),
                coordinate_ticks(template.coordinates@, template.coordinates@.len() as int),
            ),
        ),
        match done {
            Ok(()) => {
                &&& refused(old(session).log(), final(session).log()) is None
                &&& forall|element: ElementId| #[trigger]
                    final(elements)@.contains(element) == (old(elements)@.contains(element)
                        || touched(template.rows(), element))
            },
            Err(error) => refused(old(session).log(), final(session).log()) == Some(error),
        },
{
    let ghost start = session.log();
    let ghost metered = session.metered();
    let ghost total = coordinate_ticks(template.coordinates@, template.coordinates@.len() as int);
    proof {
        lemma_ran_nothing(start);
        lemma_one_tick(metered);
    }
    let mut c: usize = 0;
    while c < template.coordinates.len()
        invariant
            c <= template.coordinates.len(),
            elements.wf(),
            start == old(session).log(),
            metered == old(session).metered(),
            session.metered() == metered,
            ticks(metered, 1) == tick_plan(metered),
            total == coordinate_ticks(template.coordinates@, template.coordinates@.len() as int),
            followed(
                start,
                session.log(),
                ticks(metered, coordinate_ticks(template.coordinates@, c as int)),
            ),
            refused(start, session.log()) is None,
            forall|element: ElementId| #[trigger]
                elements@.contains(element) == (old(elements)@.contains(element) || touched(
                    rows_upto(template.coordinates@, c as int),
                    element,
                )),
        decreases template.coordinates.len() - c,
    {
        let ghost middle = session.log();
        let step = session.checkpoint();
        let ghost done = coordinate_ticks(template.coordinates@, c as int);
        proof {
            lemma_ticks_compose(start, middle, session.log(), metered, done, 1);
            lemma_coordinate_ticks(template.coordinates@, c + 1, template.coordinates@.len() as int);
        }
        if let Err(error) = step {
            proof {
                lemma_ticks_refused(start, session.log(), metered, done + 1, total);
            }
            return Err(error);
        }
        let coordinate = &template.coordinates[c];
        let mut r: usize = 0;
        proof {
            lemma_rows_bounds(template.coordinates@, c as int);
        }
        while r < coordinate.rows.len()
            invariant
                c < template.coordinates.len(),
                *coordinate == template.coordinates@[c as int],
                r <= coordinate.rows.len(),
                elements.wf(),
                start == old(session).log(),
                metered == old(session).metered(),
                session.metered() == metered,
                total == coordinate_ticks(
                    template.coordinates@,
                    template.coordinates@.len() as int,
                ),
                done == coordinate_ticks(template.coordinates@, c as int),
                coordinate_ticks(template.coordinates@, c + 1) <= total,
                followed(
                    start,
                    session.log(),
                    ticks(metered, done + 1 + row_ticks(coordinate.rows@, r as int)),
                ),
                refused(start, session.log()) is None,
                forall|element: ElementId| #[trigger]
                    elements@.contains(element) == (old(elements)@.contains(element) || touched(
                        rows_seen(template.coordinates@, c as int, r as int),
                        element,
                    )),
            decreases coordinate.rows.len() - r,
        {
            let row = &coordinate.rows[r];
            let ghost seen = rows_seen(template.coordinates@, c as int, r as int);
            let ghost before = elements@;
            let ghost middle = session.log();
            let step = validation_touches(row, elements, session);
            let ghost passed = done + 1 + row_ticks(coordinate.rows@, r as int);
            proof {
                lemma_ticks_compose(
                    start,
                    middle,
                    session.log(),
                    metered,
                    passed,
                    1 + cascade_len(*row),
                );
                lemma_row_ticks(coordinate.rows@, r + 1, coordinate.rows@.len() as int);
                lemma_rows_step(template.coordinates@, c as int, r as int);
            }
            if let Err(error) = step {
                proof {
                    lemma_ticks_refused(
                        start,
                        session.log(),
                        metered,
                        passed + 1 + cascade_len(*row),
                        total,
                    );
                }
                return Err(error);
            }
            proof {
                assert forall|element: ElementId| #[trigger]
                    elements@.contains(element) == (old(elements)@.contains(element) || touched(
                        seen.push(*row),
                        element,
                    )) by {
                    lemma_touched_push(seen, *row, element);
                    assert(before.contains(element) == (old(elements)@.contains(element)
                        || touched(seen, element)));
                }
            }
            r += 1;
        }
        proof {
            lemma_rows_bounds(template.coordinates@, c as int);
        }
        c += 1;
    }
    Ok(())
}

/// The canonical order of elements: vertices first, each kind by identity.
pub open spec fn before_or_same(left: ElementId, right: ElementId) -> bool {
    match (left, right) {
        (ElementId::Vertex(l), ElementId::Vertex(r)) => l.0 <= r.0,
        (ElementId::Edge(l), ElementId::Edge(r)) => l.0 <= r.0,
        (ElementId::Vertex(_), ElementId::Edge(_)) => true,
        (ElementId::Edge(_), ElementId::Vertex(_)) => false,
    }
}

/// `element` is the first member of `set` that is also in `targets`.
pub open spec fn first_of(
    set: Set<ElementId>,
    targets: Set<ElementId>,
    element: ElementId,
) -> bool {
    &&& set.contains(element)
    &&& targets.contains(element)
    &&& forall|other: ElementId| #[trigger]
        set.contains(other) && targets.contains(other) ==> before_or_same(element, other)
}

/// The first hit among endpoints, then among touched elements.
pub open spec fn first_hit(
    endpoints: Set<ElementId>,
    touches: Set<ElementId>,
    targets: Set<ElementId>,
    found: Option<ElementId>,
) -> bool {
    match found {
        Some(element) => {
            ||| first_of(endpoints, targets, element)
            ||| endpoints.disjoint(targets) && first_of(touches, targets, element)
        },
        None => endpoints.disjoint(targets) && touches.disjoint(targets),
    }
}

/// Look for the first member of a set, in canonical order, among the targets.
fn find_first<H: Host>(set: &ElementSet, targets: &ElementSet, session: &mut Session<H>) -> (found:
    Result<Option<ElementId>, WriteTxnError>)
    requires
        set.wf(),
        targets.wf(),
    ensures
        final(session).metered() == old(session).metered(),
        ticked(old(session).log(), final(session).log(), old(session).metered()),
        match found {
            Ok(Some(element)) => refused(old(session).log(), final(session).log()) is None
                && first_of(set@, targets@, element),
            Ok(None) => refused(old(session).log(), final(session).log()) is None
                && set@.disjoint(targets@),
            Err(error) => refused(old(session).log(), final(session).log()) == Some(error),
        },
{
    let ghost start = session.log();
    let ghost metered = session.metered();
    proof {
        lemma_ticked_nothing(start, metered);
    }
    let mut i: usize = 0;
    while i < set.vertices.len()
        invariant
            i <= set.vertices.seq().len(),
            set.wf(),
            targets.wf(),
            start == old(session).log(),
            metered == old(session).metered(),
            session.metered() == metered,
            ticked(start, session.log(), metered),
            refused(start, session.log()) is None,
            forall|k: int|
                0 <= k < i ==> !targets@.contains(
                    ElementId::Vertex(VId(#[trigger] set.vertices.seq()[k])),
                ),
        decreases set.vertices.seq().len() - i,
    {
        let ghost middle = session.log();
        let step = session.checkpoint();
        proof {
            lemma_ticked_compose(start, middle, session.log(), metered);
        }
        if let Err(error) = step {
            return Err(error);
        }
        let element = ElementId::Vertex(VId(set.vertices.at(i)));
        if targets.contains(element) {
            proof {
                assert forall|other: ElementId| #[trigger]
                    set@.contains(other) && targets@.contains(other) implies before_or_same(
                    element,
                    other,
                ) by {
                    if let ElementId::Vertex(vid) = other {
                        let k = set.vertices.seq().index_of(vid.0);
                        assert(set.vertices.seq()[k] == vid.0);
                        if k < i {
                            assert(!targets@.contains(
                                ElementId::Vertex(VId(set.vertices.seq()[k])),
                            ));
                        }
                        if i < k {
                            assert(set.vertices.seq()[i as int] < set.vertices.seq()[k]);
                        }
                    }
                }
            }
            return Ok(Some(element));
        }
        i += 1;
    }
    let mut j: usize = 0;
    while j < set.edges.len()
        invariant
            j <= set.edges.seq().len(),
            set.wf(),
            targets.wf(),
            start == old(session).log(),
            metered == old(session).metered(),
            session.metered() == metered,
            ticked(start, session.log(), metered),
            refused(start, session.log()) is None,
            forall|k: int|
                0 <= k < set.vertices.seq().len() ==> !targets@.contains(
                    ElementId::Vertex(VId(#[trigger] set.vertices.seq()[k])),
                ),
            forall|k: int|
                0 <= k < j ==> !targets@.contains(
                    ElementId::Edge(EId(#[trigger] set.edges.seq()[k])),
                ),
        decreases set.edges.seq().len() - j,
    {
        let ghost middle = session.log();
        let step = session.checkpoint();
        proof {
            lemma_ticked_compose(start, middle, session.log(), metered);
        }
        if let Err(error) = step {
            return Err(error);
        }
        let element = ElementId::Edge(EId(set.edges.at(j)));
        if targets.contains(element) {
            proof {
                assert forall|other: ElementId| #[trigger]
                    set@.contains(other) && targets@.contains(other) implies before_or_same(
                    element,
                    other,
                ) by {
                    match other {
                        ElementId::Vertex(vid) => {
                            let k = set.vertices.seq().index_of(vid.0);
                            assert(set.vertices.seq()[k] == vid.0);
                        },
                        ElementId::Edge(eid) => {
                            let k = set.edges.seq().index_of(eid.0);
                            assert(set.edges.seq()[k] == eid.0);
                            if k < j {
                                assert(!targets@.contains(
                                    ElementId::Edge(EId(set.edges.seq()[k])),
                                ));
                            }
                            if j < k {
                                assert(set.edges.seq()[j as int] < set.edges.seq()[k]);
                            }
                        },
                    }
                }
            }
            return Ok(Some(element));
        }
        j += 1;
    }
    proof {
        assert forall|element: ElementId| #[trigger] set@.contains(element) implies !targets@.contains(
            element,
        ) by {
            match element {
                ElementId::Vertex(vid) => {
                    let k = set.vertices.seq().index_of(vid.0);
                    assert(set.vertices.seq()[k] == vid.0);
                },
                ElementId::Edge(eid) => {
                    let k = set.edges.seq().index_of(eid.0);
                    assert(set.edges.seq()[k] == eid.0);
                },
            }
        }
    }
    Ok(None)
}

/// Look for the first hit among endpoints, then among touched elements.
fn find_hit<H: Host>(
    endpoints: &ElementSet,
    touches: &ElementSet,
    targets: &ElementSet,
    session: &mut Session<H>,
) -> (found: Result<Option<ElementId>, WriteTxnError>)
    requires
        endpoints.wf(),
        touches.wf(),
        targets.wf(),
    ensures
        final(session).metered() == old(session).metered(),
        ticked(old(session).log(), final(session).log(), old(session).metered()),
        match found {
            Ok(hit) => refused(old(session).log(), final(session).log()) is None && first_hit(
                endpoints@,
                touches@,
                targets@,
                hit,
            ),
            Err(error) => refused(old(session).log(), final(session).log()) == Some(error),
        },
{
    let ghost start = session.log();
    let ghost metered = session.metered();
    match find_first(endpoints, targets, session) {
        Ok(Some(element)) => return Ok(Some(element)),
        Ok(None) => {},
        Err(error) => return Err(error),
    }
    let ghost middle = session.log();
    let hit = find_first(touches, targets, session);
    proof {
        lemma_ticked_compose(start, middle, session.log(), metered);
    }
    hit
}

impl WriteTxn {
    /// The element that a row inserts under one of the transaction's scans.
    pub open spec fn row_phantom(&self, row: DeltaRow) -> Option<ElementId> {
        match row {
            DeltaRow::CreateVertex { vid, labels, .. } => if self.scanned_vertices || exists|
                i: int,
            |
                0 <= i < labels@.len() && self.scanned_label(#[trigger] labels@[i]) {
                Some(ElementId::Vertex(vid))
            } else {
                None
            },
            DeltaRow::LabelMembership { vid, label, after } => if after && self.scanned_label(
                label,
            ) {
                Some(ElementId::Vertex(vid))
            } else {
                None
            },
            DeltaRow::CreateEdge { eid, src, relation, .. } => if self.scanned_edges
                || self.match_expansions@.contains((src, relation)) {
                Some(ElementId::Edge(eid))
            } else {
                None
            },
            _ => None,
        }
    }

    /// The first inserted element that one of the scans would have seen.
    pub open spec fn first_phantom(&self, rows: Seq<DeltaRow>) -> Option<ElementId>
        decreases rows.len(),
    {
        if rows.len() == 0 {
            None
        } else {
            match self.first_phantom(rows.drop_last()) {
                Some(element) => Some(element),
                None => self.row_phantom(rows.last()),
            }
        }
    }

    /// What one commit does to the transaction's dependencies. Insertions under
    /// a scan come first, then changed reads, then changed write targets.
    pub open spec fn batch_conflict(
        &self,
        rows: Seq<DeltaRow>,
        found: Option<(Law, ElementId)>,
    ) -> bool {
        let endpoints = Set::new(|element: ElementId| endpoint(rows, element));
        let touches = Set::new(|element: ElementId| touched(rows, element));
        let writes = Set::new(|element: ElementId| self.depends_on_write(element));
        match self.first_phantom(rows) {
            Some(element) => found == Some((Law::Read, element)),
            None => if !first_hit(endpoints, touches, self.read_set@, None) {
                found matches Some((law, element)) && law == Law::Read && first_hit(
                    endpoints,
                    touches,
                    self.read_set@,
                    Some(element),
                )
            } else {
                match found {
                    Some((law, element)) => law == Law::Write && first_hit(
                        endpoints,
                        touches,
                        writes,
                        Some(element),
                    ),
                    None => first_hit(endpoints, touches, writes, None),
                }
            },
        }
    }

    /// The first conflict in the commits from `start` on, if there is any.
    pub open spec fn conflict_since(
        &self,
        database: Database,
        start: int,
        found: Option<(Law, ElementId, CommitSeq)>,
    ) -> bool {
        match found {
            Some((law, element, seq)) => exists|j: int|
                {
                    &&& start <= j < database.log@.len()
                    &&& seq == (#[trigger] database.log@[j]).commit_seq
                    &&& self.batch_conflict(database.log@[j].template.rows(), Some((law, element)))
                    &&& forall|k: int|
                        start <= k < j ==> self.batch_conflict(
                            (#[trigger] database.log@[k]).template.rows(),
                            None,
                        )
                },
            None => forall|k: int|
                start <= k < database.log@.len() ==> self.batch_conflict(
                    (#[trigger] database.log@[k]).template.rows(),
                    None,
                ),
        }
    }

    /// Whether anything could conflict at all.
    pub open spec fn has_dependencies(&self) -> bool {
        ||| self.observed()
        ||| exists|element: ElementId| self.depends_on_write(element)
    }

    /// What validation decides once every checkpoint is granted.
    pub open spec fn validated(
        &self,
        database: Database,
        found: Result<Option<(Law, ElementId, CommitSeq)>, WriteTxnError>,
    ) -> bool {
        if !self.has_dependencies() {
            found == Ok::<Option<(Law, ElementId, CommitSeq)>, WriteTxnError>(None)
        } else {
            match database.history_refusal(self.basis) {
                Some(error) => found == Err::<Option<(Law, ElementId, CommitSeq)>, WriteTxnError>(
                    error,
                ),
                None => found matches Ok(conflict) && self.conflict_since(
                    database,
                    self.basis.0 - database.base_seq.0,
                    conflict,
                ),
            }
        }
    }

    /// Look for an insertion under a scan, label by label.
    fn scan_row<H: Host>(&self, row: &DeltaRow, session: &mut Session<H>) -> (found: Result<
        Option<ElementId>,
        WriteTxnError,
    >)
        requires
            self.wf(),
        ensures
            final(session).metered() == old(session).metered(),
            ticked(old(session).log(), final(session).log(), old(session).metered()),
            match found {
                Ok(phantom) => refused(old(session).log(), final(session).log()) is None && phantom
                    == self.row_phantom(*row),
                Err(error) => refused(old(session).log(), final(session).log()) == Some(error),
            },
    {
        let ghost start = session.log();
        let ghost metered = session.metered();
        proof {
            lemma_ticked_nothing(start, metered);
        }
        match row {
            DeltaRow::CreateVertex { vid, labels, .. } => {
                if self.scanned_vertices {
                    return Ok(Some(ElementId::Vertex(*vid)));
                }
                let mut i: usize = 0;
                while i < labels.len()
                    invariant
                        i <= labels.len(),
                        self.wf(),
                        *row matches DeltaRow::CreateVertex { vid: created, labels: listed, .. }
                            && created == *vid && listed == *labels,
                        start == old(session).log(),
                        metered == old(session).metered(),
                        session.metered() == metered,
                        ticked(start, session.log(), metered),
                        refused(start, session.log()) is None,
                        forall|k: int| 0 <= k < i ==> !self.scanned_label(#[trigger] labels@[k]),
                    decreases labels.len() - i,
                {
                    let ghost middle = session.log();
                    let step = session.checkpoint();
                    proof {
                        lemma_ticked_compose(start, middle, session.log(), metered);
                    }
                    if let Err(error) = step {
                        return Err(error);
                    }
                    if self.scanned_vertex_labels.contains(labels[i].0 as u128) {
                        assert(self.scanned_label(labels@[i as int]));
                        return Ok(Some(ElementId::Vertex(*vid)));
                    }
                    i += 1;
                }
                Ok(None)
            },
            DeltaRow::LabelMembership { vid, label, after } => {
                if *after && self.scanned_vertex_labels.contains(label.0 as u128) {
                    Ok(Some(ElementId::Vertex(*vid)))
                } else {
                    Ok(None)
                }
            },
            DeltaRow::CreateEdge { eid, src, relation, .. } => {
                if self.scanned_edges || self.match_expansions.contains(*src, *relation) {
                    Ok(Some(ElementId::Edge(*eid)))
                } else {
                    Ok(None)
                }
            },
            _ => Ok(None),
        }
    }

    /// Walk the rows of one commit: report the first insertion under a scan, or
    /// collect the endpoints and touched elements of all rows.
    fn scan_rows<H: Host>(
        &self,
        template: &Template,
        endpoints: &mut ElementSet,
        touches: &mut ElementSet,
        session: &mut Session<H>,
    ) -> (found: Result<Option<ElementId>, WriteTxnError>)
        requires
            self.wf(),
            old(endpoints).wf(),
            old(touches).wf(),
            old(endpoints)@ =~= Set::<ElementId>::empty(),
            old(touches)@ =~= Set::<ElementId>::empty(),
        ensures
            final(endpoints).wf(),
            final(touches).wf(),
            final(session).metered() == old(session).metered(),
            ticked(old(session).log(), final(session).log(), old(session).metered()),
            match found {
                Ok(Some(element)) => refused(old(session).log(), final(session).log()) is None
                    && self.first_phantom(template.rows()) == Some(element),
                Ok(None) => {
                    &&& refused(old(session).log(), final(session).log()) is None
                    &&& self.first_phantom(template.rows()) is None
                    &&& final(session).log().len() >= old(session).log().len()
                        + template.rows().len()
                    &&& forall|element: ElementId| #[trigger]
                        final(endpoints)@.contains(element) == endpoint(template.rows(), element)
                    &&& forall|element: ElementId| #[trigger]
                        final(touches)@.contains(element) == touched(template.rows(), element)
                },
                Err(error) => refused(old(session).log(), final(session).log()) == Some(error),
            },
    {
        let ghost start = session.log();
        let ghost metered = session.metered();
        proof {
            lemma_ticked_nothing(start, metered);
        }
        let mut c: usize = 0;
        while c < template.coordinates.len()
            invariant
                c <= template.coordinates.len(),
                self.wf(),
                endpoints.wf(),
                touches.wf(),
                start == old(session).log(),
                metered == old(session).metered(),
                session.metered() == metered,
                ticked(start, session.log(), metered),
                refused(start, session.log()) is None,
                session.log().len() >= start.len() + rows_upto(
                    template.coordinates@,
                    c as int,
                ).len(),
                self.first_phantom(rows_upto(template.coordinates@, c as int)) is None,
                forall|element: ElementId| #[trigger]
                    endpoints@.contains(element) == endpoint(
                        rows_upto(template.coordinates@, c as int),
                        element,
                    ),
                forall|element: ElementId| #[trigger]
                    touches@.contains(element) == touched(
                        rows_upto(template.coordinates@, c as int),
                        element,
                    ),
            decreases template.coordinates.len() - c,
        {
            let ghost middle = session.log();
            let step = session.checkpoint();
            proof {
                lemma_ticked_compose(start, middle, session.log(), metered);
            }
            if let Err(error) = step {
                return Err(error);
            }
            let coordinate = &template.coordinates[c];
            let mut r: usize = 0;
            proof {
                lemma_rows_bounds(template.coordinates@, c as int);
            }
            while r < coordinate.rows.len()
                invariant
                    c < template.coordinates.len(),
                    *coordinate == template.coordinates@[c as int],
                    r <= coordinate.rows.len(),
                    self.wf(),
                    endpoints.wf(),
                    touches.wf(),
                    start == old(session).log(),
                    metered == old(session).metered(),
                    session.metered() == metered,
                    ticked(start, session.log(), metered),
                    refused(start, session.log()) is None,
                    session.log().len() >= start.len() + rows_seen(
                        template.coordinates@,
                        c as int,
                        r as int,
                    ).len(),
                    self.first_phantom(
                        rows_seen(template.coordinates@, c as int, r as int),
                    ) is None,
                    forall|element: ElementId| #[trigger]
                        endpoints@.contains(element) == endpoint(
                            rows_seen(template.coordinates@, c as int, r as int),
                            element,
                        ),
                    forall|element: ElementId| #[trigger]
                        touches@.contains(element) == touched(
                            rows_seen(template.coordinates@, c as int, r as int),
                            element,
                        ),
                decreases coordinate.rows.len() - r,
            {
                let row = &coordinate.rows[r];
                let ghost seen = rows_seen(template.coordinates@, c as int, r as int);
                let ghost ends_before = endpoints@;
                let ghost touches_before = touches@;
                proof {
                    lemma_rows_step(template.coordinates@, c as int, r as int);
                    assert(seen.push(*row).drop_last() =~= seen);
                }
                let ghost middle = session.log();
                let step = session.checkpoint();
                proof {
                    lemma_ticked_compose(start, middle, session.log(), metered);
                }
                if let Err(error) = step {
                    return Err(error);
                }
                let ghost middle = session.log();
                let phantom = self.scan_row(row, session);
                proof {
                    lemma_ticked_compose(start, middle, session.log(), metered);
                }
                match phantom {
                    Ok(Some(element)) => {
                        proof {
                            self.lemma_first_phantom_stays(template, c as int, r as int);
                        }
                        return Ok(Some(element));
                    },
                    Ok(None) => {},
                    Err(error) => return Err(error),
                }
                adjacency_endpoints(row, endpoints);
                let ghost middle = session.log();
                let step = validation_touches(row, touches, session);
                proof {
                    lemma_ticked_compose(start, middle, session.log(), metered);
                }
                if let Err(error) = step {
                    return Err(error);
                }
                proof {
                    assert forall|element: ElementId| #[trigger]
                        endpoints@.contains(element) == endpoint(seen.push(*row), element) by {
                        lemma_touched_push(seen, *row, element);
                        assert(ends_before.contains(element) == endpoint(seen, element));
                    }
                    assert forall|element: ElementId| #[trigger]
                        touches@.contains(element) == touched(seen.push(*row), element) by {
                        lemma_touched_push(seen, *row, element);
                        assert(touches_before.contains(element) == touched(seen, element));
                    }
                }
                r += 1;
            }
            proof {
                lemma_rows_bounds(template.coordinates@, c as int);
            }
            c += 1;
        }
        Ok(None)
    }

    /// The first insertion found in a prefix is the first one of the whole.
    proof fn lemma_phantom_prefix(&self, rows: Seq<DeltaRow>, n: int)
        requires
            0 <= n <= rows.len(),
            self.first_phantom(rows.take(n)) is Some,
        ensures
            self.first_phantom(rows) == self.first_phantom(rows.take(n)),
        decreases rows.len() - n,
    {
        if n < rows.len() {
            let longer = rows.take(n + 1);
            assert(longer.drop_last() =~= rows.take(n));
            self.lemma_phantom_prefix(rows, n + 1);
        } else {
            assert(rows.take(n) =~= rows);
        }
    }

    proof fn lemma_first_phantom_stays(&self, template: &Template, c: int, r: int)
        requires
            0 <= c < template.coordinates@.len(),
            0 <= r < template.coordinates@[c].rows@.len(),
            self.first_phantom(rows_seen(template.coordinates@, c, r)) is None,
            self.row_phantom(template.coordinates@[c].rows@[r]) is Some,
        ensures
            self.first_phantom(template.rows()) == self.row_phantom(
                template.coordinates@[c].rows@[r],
            ),
    {
        let coordinates = template.coordinates@;
        let row = coordinates[c].rows@[r];
        let seen = rows_seen(coordinates, c, r);
        let longer = seen.push(row);
        assert(longer.drop_last() =~= seen);
        assert(self.first_phantom(longer) == self.row_phantom(row));
        lemma_rows_step(coordinates, c, r);
        let whole = rows_upto(coordinates, c + 1);
        assert(whole.take(longer.len() as int) =~= longer) by {
            assert(whole =~= rows_upto(coordinates, c) + coordinates[c].rows@);
            assert(longer =~= rows_upto(coordinates, c) + coordinates[c].rows@.take(r + 1));
        }
        self.lemma_phantom_prefix(whole, longer.len() as int);
        crate::template::lemma_rows_prefix(coordinates, c + 1, coordinates.len() as int);
        self.lemma_phantom_prefix(template.rows(), whole.len() as int);
    }

    /// Validate one commit against the transaction.
    fn validate_batch<H: Host>(
        &self,
        template: &Template,
        footprint: &ElementSet,
        session: &mut Session<H>,
    ) -> (found: Result<Option<(Law, ElementId)>, WriteTxnError>)
        requires
            self.wf(),
            footprint.wf(),
            forall|element: ElementId| #[trigger]
                footprint@.contains(element) == self.depends_on_write(element),
        ensures
            final(session).metered() == old(session).metered(),
            ticked(old(session).log(), final(session).log(), old(session).metered()),
            match found {
                Ok(conflict) => {
                    &&& refused(old(session).log(), final(session).log()) is None
                    &&& self.batch_conflict(template.rows(), conflict)
                    &&& conflict is None ==> final(session).log().len() >= old(session).log().len()
                        + template.rows().len()
                },
                Err(error) => refused(old(session).log(), final(session).log()) == Some(error),
            },
    {
        let ghost start = session.log();
        let ghost metered = session.metered();
        let mut endpoints = ElementSet::new();
        let mut touches = ElementSet::new();
        match self.scan_rows(template, &mut endpoints, &mut touches, session) {
            Ok(Some(element)) => return Ok(Some((Law::Read, element))),
            Ok(None) => {},
            Err(error) => return Err(error),
        }
        let ghost rows = template.rows();
        proof {
            assert(endpoints@ =~= Set::new(|element: ElementId| endpoint(rows, element)));
            assert(touches@ =~= Set::new(|element: ElementId| touched(rows, element)));
            assert(footprint@ =~= Set::new(|element: ElementId| self.depends_on_write(element)));
        }
        let ghost middle = session.log();
        let read = find_hit(&endpoints, &touches, &self.read_set, session);
        proof {
            lemma_ticked_compose(start, middle, session.log(), metered);
        }
        match read {
            Ok(Some(element)) => {
                proof {
                    assert(!first_hit(endpoints@, touches@, self.read_set@, None)) by {
                        if endpoints@.contains(element) {
                            assert(!endpoints@.disjoint(self.read_set@));
                        } else {
                            assert(!touches@.disjoint(self.read_set@));
                        }
                    }
                }
                return Ok(Some((Law::Read, element)));
            },
            Ok(None) => {},
            Err(error) => return Err(error),
        }
        let ghost middle = session.log();
        let written = find_hit(&endpoints, &touches, footprint, session);
        proof {
            lemma_ticked_compose(start, middle, session.log(), metered);
        }
        match written {
            Ok(Some(element)) => Ok(Some((Law::Write, element))),
            Ok(None) => Ok(None),
            Err(error) => Err(error),
        }
    }

    /// Validate every dependency of the transaction against the commits since
    /// its basis. One complete suffix serves both reads and writes.
    pub fn transaction_conflict<H: Host>(&self, database: &Database, session: &mut Session<H>) -> (found:
        Result<Option<(Law, ElementId, CommitSeq)>, WriteTxnError>)
        requires
            self.wf(),
            database.wf(),
        ensures
            final(session).metered() == old(session).metered(),
            ticked(old(session).log(), final(session).log(), old(session).metered()),
            match refused(old(session).log(), final(session).log()) {
                Some(error) => found == Err::<
                    Option<(Law, ElementId, CommitSeq)>,
                    WriteTxnError,
                >(error),
                None => self.validated(*database, found),
            },
            found matches Ok(None) && self.has_dependencies() ==> final(session).log().len()
                >= old(session).log().len() + history_rows(
                *database,
                self.basis.0 - database.base_seq.0,
            ),
    {
        let ghost start = session.log();
        let ghost metered = session.metered();
        let footprint = self.mutation_footprint(session);
        assert(ticked(start, session.log(), metered));
        let footprint = match footprint {
            Ok(footprint) => footprint,
            Err(error) => return Err(error),
        };
        proof {
            if footprint@ =~= Set::<ElementId>::empty() {
                assert forall|element: ElementId| !self.depends_on_write(element) by {
                    assert(!footprint@.contains(element));
                }
            } else {
                let element = choose|element: ElementId| footprint@.contains(element);
                assert(footprint@.contains(element)) by {
                    if forall|other: ElementId| !footprint@.contains(other) {
                        assert(footprint@ =~= Set::<ElementId>::empty());
                    }
                }
                assert(self.depends_on_write(element));
            }
        }
        if self.read_set.is_empty() && self.match_expansions.is_empty()
            && self.scanned_vertex_labels.is_empty() && footprint.is_empty()
            && !self.scanned_vertices && !self.scanned_edges {
            return Ok(None);
        }
        assert(self.has_dependencies());
        // A retired prefix is refused instead of silently validating against
        // only the surviving tail.
        let first: usize = match database.delta_since(self.basis) {
            Ok(first) => first,
            Err(error) => return Err(error),
        };
        let mut i: usize = first;
        while i < database.log.len()
            invariant
                self.wf(),
                database.wf(),
                footprint.wf(),
                first == self.basis.0 - database.base_seq.0,
                first <= i <= database.log.len(),
                self.has_dependencies(),
                database.history_refusal(self.basis) is None,
                forall|element: ElementId| #[trigger]
                    footprint@.contains(element) == self.depends_on_write(element),
                start == old(session).log(),
                metered == old(session).metered(),
                session.metered() == metered,
                ticked(start, session.log(), metered),
                refused(start, session.log()) is None,
                session.log().len() + history_rows(*database, i as int) >= start.len()
                    + history_rows(*database, first as int),
                forall|k: int|
                    first <= k < i ==> self.batch_conflict(
                        (#[trigger] database.log@[k]).template.rows(),
                        None,
                    ),
            decreases database.log.len() - i,
        {
            let ghost middle = session.log();
            let step = session.checkpoint();
            proof {
                lemma_ticked_compose(start, middle, session.log(), metered);
            }
            if let Err(error) = step {
                return Err(error);
            }
            let batch = &database.log[i];
            let ghost middle = session.log();
            let conflict = self.validate_batch(&batch.template, &footprint, session);
            proof {
                lemma_ticked_compose(start, middle, session.log(), metered);
            }
            match conflict {
                Ok(Some((law, element))) => {
                    assert(database.log@[i as int].commit_seq == batch.commit_seq);
                    return Ok(Some((law, element, batch.commit_seq)));
                },
                Ok(None) => {},
                Err(error) => return Err(error),
            }
            i += 1;
        }
        Ok(None)
    }
}

/// The number of rows committed from position `start` of the log on.
pub open spec fn history_rows(database: Database, start: int) -> nat
    decreases database.log@.len() - start,
{
    if start >= database.log@.len() || start < 0 {
        0
    } else {
        database.log@[start].template.rows().len() + history_rows(database, start + 1)
    }
}

} // verus!
