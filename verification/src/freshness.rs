//! Templates whose edge creations are fresh: no edge is created while it is there.

use vstd::prelude::*;
use crate::database::Database;
use crate::graph::{edge_after_rows, DeltaRow, EdgeView};
use crate::ids::{CommitSeq, EId};
use crate::template::{
    apply_row_to_edges, edge_in, edges_wf, lemma_edge_after_push, lemma_rows_bounds,
    lemma_rows_step, rows_seen, rows_upto, Coordinate, Template,
};

verus! {

/// Every creation among the rows creates an edge that is absent at that point.
pub open spec fn creations_are_fresh(
    basis: spec_fn(EId) -> Option<EdgeView>,
    rows: Seq<DeltaRow>,
    at: CommitSeq,
) -> bool {
    forall|i: int|
        0 <= i < rows.len() ==> (#[trigger] rows[i] matches DeltaRow::CreateEdge { eid, .. }
            ==> edge_after_rows(basis(eid), eid, rows.take(i), at) is None)
}

/// The current edges of a database.
pub open spec fn current_edges(database: Database) -> spec_fn(EId) -> Option<EdgeView> {
    |eid: EId| database.edge_at_spec(eid, CommitSeq(database.tip() as u64))
}

/// The creations of a template are fresh on the current snapshot.
pub open spec fn fresh_on(database: Database, template: Template) -> bool {
    creations_are_fresh(
        current_edges(database),
        template.rows(),
        CommitSeq(database.tip() as u64),
    )
}

proof fn lemma_upto_prefix(coordinates: Seq<Coordinate>, c: int, n: int)
    requires
        0 <= c <= n <= coordinates.len(),
    ensures
        rows_upto(coordinates, c).is_prefix_of(rows_upto(coordinates, n)),
    decreases n,
{
    if c < n {
        lemma_upto_prefix(coordinates, c, n - 1);
        lemma_rows_bounds(coordinates, n - 1);
    }
}

/// Row `r` of coordinate `c` stands in the whole list right behind those before it.
proof fn lemma_row_stands(template: Template, c: int, r: int)
    requires
        0 <= c < template.coordinates@.len(),
        0 <= r < template.coordinates@[c].rows@.len(),
    ensures
        ({
            let seen = rows_seen(template.coordinates@, c, r);
            &&& seen.len() < template.rows().len()
            &&& template.rows()[seen.len() as int] == template.coordinates@[c].rows@[r]
            &&& template.rows().take(seen.len() as int) == seen
        }),
{
    let coordinates = template.coordinates@;
    let seen = rows_seen(coordinates, c, r);
    let next = rows_upto(coordinates, c + 1);
    let all = rows_upto(coordinates, coordinates.len() as int);
    lemma_rows_bounds(coordinates, c);
    lemma_upto_prefix(coordinates, c + 1, coordinates.len() as int);
    assert(seen.is_prefix_of(next));
    assert(next[seen.len() as int] == coordinates[c].rows@[r]);
    assert(all.take(seen.len() as int) =~= seen);
}

/// Whether the creations of a template are fresh on the current snapshot.
pub fn is_fresh(database: &Database, template: &Template) -> (fresh: bool)
    requires
        database.wf(),
        template.wf(),
    ensures
        fresh == fresh_on(*database, *template),
{
    let at = database.snapshot_frontier();
    let ghost basis = current_edges(*database);
    let ghost coordinates = template.coordinates@;
    let mut edges = match database.edge_map_at(at) {
        Ok(edges) => edges,
        Err(_) => {
            assert(false);
            return false;
        },
    };
    proof {
        assert forall|eid: EId| #[trigger] edge_in(edges, eid) == edge_after_rows(
            basis(eid),
            eid,
            rows_upto(coordinates, 0),
            at,
        ) by {}
    }
    let mut c: usize = 0;
    while c < template.coordinates.len()
        invariant
            c <= template.coordinates.len(),
            template.wf(),
            coordinates == template.coordinates@,
            at.0 == database.tip(),
            basis == current_edges(*database),
            edges_wf(edges),
            forall|eid: EId| #[trigger]
                edge_in(edges, eid) == edge_after_rows(
                    basis(eid),
                    eid,
                    rows_upto(coordinates, c as int),
                    at,
                ),
            creations_are_fresh(basis, rows_upto(coordinates, c as int), at),
        decreases template.coordinates.len() - c,
    {
        let coordinate = &template.coordinates[c];
        let mut r: usize = 0;
        proof {
            lemma_rows_bounds(coordinates, c as int);
        }
        while r < coordinate.rows.len()
            invariant
                c < template.coordinates.len(),
                coordinates == template.coordinates@,
                *coordinate == coordinates[c as int],
                r <= coordinate.rows.len(),
                template.wf(),
                at.0 == database.tip(),
                basis == current_edges(*database),
                edges_wf(edges),
                forall|eid: EId| #[trigger]
                    edge_in(edges, eid) == edge_after_rows(
                        basis(eid),
                        eid,
                        rows_seen(coordinates, c as int, r as int),
                        at,
                    ),
                creations_are_fresh(basis, rows_seen(coordinates, c as int, r as int), at),
            decreases coordinate.rows.len() - r,
        {
            let row = &coordinate.rows[r];
            let ghost seen = rows_seen(coordinates, c as int, r as int);
            proof {
                assert(coordinates[c as int].rows@[r as int].wf());
                lemma_rows_step(coordinates, c as int, r as int);
                lemma_row_stands(*template, c as int, r as int);
            }
            if let DeltaRow::CreateEdge { eid, .. } = row {
                assert(edge_in(edges, *eid) == edge_after_rows(basis(*eid), *eid, seen, at));
                if edges.get(eid.0).is_some() {
                    assert(template.rows()[seen.len() as int] == *row);
                    return false;
                }
            }
            apply_row_to_edges(&mut edges, row, at);
            proof {
                let next = rows_seen(coordinates, c as int, r + 1);
                assert forall|eid: EId| #[trigger] edge_in(edges, eid) == edge_after_rows(
                    basis(eid),
                    eid,
                    next,
                    at,
                ) by {
                    lemma_edge_after_push(basis(eid), eid, seen, *row, at);
                }
                assert forall|i: int| 0 <= i < next.len() implies (#[trigger] next[i] matches
                DeltaRow::CreateEdge { eid, .. } ==> edge_after_rows(
                    basis(eid),
                    eid,
                    next.take(i),
                    at,
                ) is None) by {
                    if i < seen.len() {
                        assert(next[i] == seen[i]);
                        assert(next.take(i) =~= seen.take(i));
                    } else {
                        assert(next.take(i) =~= seen);
                    }
                }
            }
            r += 1;
        }
        proof {
            lemma_rows_bounds(coordinates, c as int);
        }
        c += 1;
    }
    true
}

} // verus!
