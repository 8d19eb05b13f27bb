//! All committed vertices of a snapshot at once.

use vstd::prelude::*;
use crate::database::{vertex_in, vertices_wf, Database};
use crate::errors::WriteTxnError;
use crate::graph::{apply_vertex_effect, vertex_after, vertex_after_rows, DeltaRow, VertexRow, VertexView};
use crate::ids::{CommitSeq, ElementId, VId};
use crate::idset::IdMap;
use crate::template::{
    lemma_rows_bounds, lemma_rows_step, rows_seen, rows_upto, Template,
};

verus! {

/// The vertex that a row is about, if it is about one.
pub open spec fn row_vertex(row: DeltaRow) -> Option<VId> {
    match row {
        DeltaRow::CreateVertex { vid, .. } => Some(vid),
        DeltaRow::DeleteVertex { vid, .. } => Some(vid),
        DeltaRow::LabelMembership { vid, .. } => Some(vid),
        DeltaRow::Property { elem: ElementId::Vertex(vid), .. } => Some(vid),
        _ => None,
    }
}

pub fn vertex_of_row(row: &DeltaRow) -> (vid: Option<VId>)
    ensures
        vid == row_vertex(*row),
{
    match row {
        DeltaRow::CreateVertex { vid, .. }
        | DeltaRow::DeleteVertex { vid, .. }
        | DeltaRow::LabelMembership { vid, .. }
        | DeltaRow::Property { elem: ElementId::Vertex(vid), .. } => Some(*vid),
        _ => None,
    }
}

/// Apply one row to a whole map of vertices.
fn apply_row_to_vertices(vertices: &mut IdMap<VertexRow>, row: &DeltaRow)
    requires
        vertices_wf(*old(vertices)),
        row.wf(),
    ensures
        vertices_wf(*final(vertices)),
        forall|vid: VId| #[trigger]
            vertex_in(*final(vertices), vid) == vertex_after(
                vertex_in(*old(vertices), vid),
                vid,
                *row,
            ),
{
    if let Some(vid) = vertex_of_row(row) {
        let ghost before = *vertices;
        let mut overlay = vertices.remove(vid.0);
        let ghost kept = overlay;
        apply_vertex_effect(vid, &mut overlay, row);
        assert(crate::graph::vertex_view(kept) == vertex_in(before, vid));
        if let Some(vertex) = overlay {
            assert(vertex@.vid == vid);
            vertices.insert(vid.0, vertex);
        }
        proof {
            assert forall|other: VId| #[trigger]
                vertex_in(*vertices, other) == vertex_after(vertex_in(before, other), other, *row) by {
                if other.0 != vid.0 {
                    assert(other != vid);
                    assert(vertex_in(*vertices, other) == vertex_in(before, other));
                } else {
                    assert(other == vid);
                }
            }
        }
    }
}

proof fn lemma_vertex_after_push(
    current: Option<VertexView>,
    vid: VId,
    rows: Seq<DeltaRow>,
    row: DeltaRow,
)
    ensures
        vertex_after_rows(current, vid, rows.push(row)) == vertex_after(
            vertex_after_rows(current, vid, rows),
            vid,
            row,
        ),
{
    assert(rows.push(row).drop_last() =~= rows);
}

/// Apply every row of a template to a whole map of vertices.
pub fn replay_vertices(vertices: &mut IdMap<VertexRow>, template: &Template)
    requires
        vertices_wf(*old(vertices)),
        template.wf(),
    ensures
        vertices_wf(*final(vertices)),
        forall|vid: VId| #[trigger]
            vertex_in(*final(vertices), vid) == vertex_after_rows(
                vertex_in(*old(vertices), vid),
                vid,
                template.rows(),
            ),
{
    let mut c: usize = 0;
    while c < template.coordinates.len()
        invariant
            c <= template.coordinates.len(),
            template.wf(),
            vertices_wf(*vertices),
            forall|vid: VId| #[trigger]
                vertex_in(*vertices, vid) == vertex_after_rows(
                    vertex_in(*old(vertices), vid),
                    vid,
                    rows_upto(template.coordinates@, c as int),
                ),
        decreases template.coordinates.len() - c,
    {
        let coordinate = &template.coordinates[c];
        let mut r: usize = 0;
        proof {
            lemma_rows_bounds(template.coordinates@, c as int);
        }
        while r < coordinate.rows.len()
            invariant
                c < template.coordinates.len(),
                *coordinate == template.coordinates@[c as int],
                r <= coordinate.rows.len(),
                template.wf(),
                vertices_wf(*vertices),
                forall|vid: VId| #[trigger]
                    vertex_in(*vertices, vid) == vertex_after_rows(
                        vertex_in(*old(vertices), vid),
                        vid,
                        rows_seen(template.coordinates@, c as int, r as int),
                    ),
            decreases coordinate.rows.len() - r,
        {
            let ghost before = *vertices;
            proof {
                assert(template.coordinates@[c as int].rows@[r as int].wf());
                lemma_rows_step(template.coordinates@, c as int, r as int);
            }
            apply_row_to_vertices(vertices, &coordinate.rows[r]);
            proof {
                assert forall|vid: VId| #[trigger]
                    vertex_in(*vertices, vid) == vertex_after_rows(
                        vertex_in(*old(vertices), vid),
                        vid,
                        rows_seen(template.coordinates@, c as int, r + 1),
                    ) by {
                    lemma_vertex_after_push(
                        vertex_in(*old(vertices), vid),
                        vid,
                        rows_seen(template.coordinates@, c as int, r as int),
                        coordinate.rows@[r as int],
                    );
                    assert(vertex_in(before, vid) == vertex_after_rows(
                        vertex_in(*old(vertices), vid),
                        vid,
                        rows_seen(template.coordinates@, c as int, r as int),
                    ));
                }
            }
            r += 1;
        }
        proof {
            lemma_rows_bounds(template.coordinates@, c as int);
        }
        c += 1;
    }
}

impl Database {
    /// All committed vertices at a snapshot, by identity.
    pub fn vertex_map_at(&self, seq: CommitSeq) -> (vertices: Result<
        IdMap<VertexRow>,
        WriteTxnError,
    >)
        requires
            self.wf(),
        ensures
            match vertices {
                Ok(map) => self.history_refusal(seq) is None && vertices_wf(map) && forall|vid: VId|
                    #[trigger] vertex_in(map, vid) == self.vertex_at_spec(vid, seq),
                Err(error) => self.history_refusal(seq) == Some(error),
            },
    {
        let end: usize = match self.delta_since(seq) {
            Ok(end) => end,
            Err(error) => return Err(error),
        };
        let mut vertices: IdMap<VertexRow> = IdMap::new();
        let mut k: usize = 0;
        while k < self.base_vertices.len()
            invariant
                self.wf(),
                k <= self.base_vertices.key_seq().len(),
                vertices_wf(vertices),
                forall|key: u128| #[trigger]
                    vertices@.dom().contains(key) <==> self.base_vertices.key_seq().take(
                        k as int,
                    ).contains(key),
                forall|key: u128| #[trigger]
                    vertices@.dom().contains(key) ==> vertices@[key]@
                        == self.base_vertices@[key]@,
            decreases self.base_vertices.key_seq().len() - k,
        {
            let key: u128 = self.base_vertices.key_at(k);
            let row = self.base_vertices.value_at(k);
            proof {
                self.base_vertices.lemma_position(k as int);
                let seen = self.base_vertices.key_seq().take(k as int);
                let next = self.base_vertices.key_seq().take(k + 1);
                assert(next =~= seen.push(key));
                assert forall|x: u128| #[trigger] next.contains(x) <==> seen.contains(x) || x
                    == key by {
                    if next.contains(x) && x != key {
                        let i = next.index_of(x);
                        assert(seen[i] == x);
                    }
                    if seen.contains(x) {
                        let i = seen.index_of(x);
                        assert(next[i] == x);
                    }
                    assert(next[k as int] == key);
                }
            }
            let copy = row.copy();
            assert(copy@.vid.0 == key);
            vertices.insert(key, copy);
            k += 1;
        }
        proof {
            let all = self.base_vertices.key_seq();
            assert(all.take(k as int) =~= all);
            assert forall|vid: VId| #[trigger] vertex_in(vertices, vid)
                == self.vertex_after_commits(vid, 0) by {
                assert(self.base_vertices@.dom().contains(vid.0) == all.contains(vid.0));
            }
        }
        let mut i: usize = 0;
        while i < end
            invariant
                self.wf(),
                i <= end <= self.log.len(),
                vertices_wf(vertices),
                forall|vid: VId| #[trigger]
                    vertex_in(vertices, vid) == self.vertex_after_commits(vid, i as int),
            decreases end - i,
        {
            let ghost before = vertices;
            replay_vertices(&mut vertices, &self.log[i].template);
            proof {
                assert forall|vid: VId| #[trigger]
                    vertex_in(vertices, vid) == self.vertex_after_commits(vid, i + 1) by {
                    assert(vertex_in(before, vid) == self.vertex_after_commits(vid, i as int));
                }
            }
            i += 1;
        }
        Ok(vertices)
    }
}

} // verus!
