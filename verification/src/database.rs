//! A handle on committed history: a base graph and the commits after it.

use vstd::prelude::*;
use crate::errors::{DatabaseState, HistoryError, WriteTxnError};
use crate::graph::{
    edge_after_rows, edge_view, edge_wf, vertex_after_rows, vertex_view, vertex_wf, EdgeRecord,
    EdgeView, VertexRow, VertexView,
};
use crate::ids::{CommitSeq, EId, VId};
use crate::idset::IdMap;
use crate::standing_registry::StandingQuery;
use crate::template::{edge_in, edges_wf, replay_edge, replay_edges, replay_vertex, Template};

verus! {

/// One published commit.
#[derive(Debug)]
pub struct DeltaBatch {
    pub commit_seq: CommitSeq,
    pub template: Template,
}

/// An embedded database handle.
pub struct Database {
    pub owner: u64,
    pub namespace: u64,
    pub state: DatabaseState,
    pub base_seq: CommitSeq,
    pub base_vertices: IdMap<VertexRow>,
    pub base_edges: IdMap<EdgeRecord>,
    pub log: Vec<DeltaBatch>,
    pub standing: Vec<StandingQuery>,
}

/// A map of vertices holds each vertex under its own identity.
pub open spec fn vertices_wf(vertices: IdMap<VertexRow>) -> bool {
    &&& vertices.wf()
    &&& forall|key: u128| #[trigger] vertices@.dom().contains(key) ==> vertices@[key].wf()
        && vertices@[key].vid.0 == key
}

/// The vertex found in a map of vertices.
pub open spec fn vertex_in(vertices: IdMap<VertexRow>, vid: VId) -> Option<VertexView> {
    if vertices@.dom().contains(vid.0) {
        Some(vertices@[vid.0]@)
    } else {
        None
    }
}

/// The state a handle reports to whoever needs a healthy one.
pub open spec fn frontier_of(state: DatabaseState) -> Result<CommitSeq, WriteTxnError> {
    match state {
        DatabaseState::Healthy { published_frontier } => Ok(published_frontier),
        _ => Err(WriteTxnError::Fenced(state)),
    }
}

impl Database {
    /// The last commit this handle has folded.
    pub open spec fn tip(&self) -> int {
        self.base_seq.0 + self.log@.len()
    }

    pub open spec fn wf(&self) -> bool {
        &&& vertices_wf(self.base_vertices)
        &&& edges_wf(self.base_edges)
        &&& self.tip() <= u64::MAX
        &&& forall|i: int|
            0 <= i < self.log@.len() ==> (#[trigger] self.log@[i]).template.wf()
                && self.log@[i].commit_seq.0 == self.base_seq.0 + 1 + i
        &&& match self.state {
            DatabaseState::Healthy { published_frontier } => published_frontier.0 == self.tip(),
            _ => true,
        }
    }

    /// The edge after the first `n` commits of the log.
    pub open spec fn edge_after_commits(&self, eid: EId, n: int) -> Option<EdgeView>
        decreases n,
    {
        if n <= 0 {
            edge_in(self.base_edges, eid)
        } else {
            edge_after_rows(
                self.edge_after_commits(eid, n - 1),
                eid,
                self.log@[n - 1].template.rows(),
                self.log@[n - 1].commit_seq,
            )
        }
    }

    /// The committed edge at a snapshot.
    pub open spec fn edge_at_spec(&self, eid: EId, seq: CommitSeq) -> Option<EdgeView> {
        self.edge_after_commits(eid, seq.0 - self.base_seq.0)
    }

    /// The vertex after the first `n` commits of the log.
    pub open spec fn vertex_after_commits(&self, vid: VId, n: int) -> Option<VertexView>
        decreases n,
    {
        if n <= 0 {
            vertex_in(self.base_vertices, vid)
        } else {
            vertex_after_rows(
                self.vertex_after_commits(vid, n - 1),
                vid,
                self.log@[n - 1].template.rows(),
            )
        }
    }

    /// The committed vertex at a snapshot.
    pub open spec fn vertex_at_spec(&self, vid: VId, seq: CommitSeq) -> Option<VertexView> {
        self.vertex_after_commits(vid, seq.0 - self.base_seq.0)
    }

    /// The refusal a snapshot outside the retained history meets.
    pub open spec fn history_refusal(&self, seq: CommitSeq) -> Option<WriteTxnError> {
        if seq.0 < self.base_seq.0 {
            Some(
                WriteTxnError::History(
                    HistoryError::Retired { requested: seq, retained: self.base_seq },
                ),
            )
        } else if seq.0 > self.tip() {
            Some(
                WriteTxnError::History(
                    HistoryError::Unpublished {
                        requested: seq,
                        frontier: CommitSeq(self.tip() as u64),
                    },
                ),
            )
        } else {
            None
        }
    }

    /// An empty healthy database.
    pub fn open_memory(owner: u64, namespace: u64) -> (database: Database)
        ensures
            database.wf(),
            database.owner == owner,
            database.namespace == namespace,
            database.base_seq == CommitSeq(0),
            database.log@.len() == 0,
            database.standing@.len() == 0,
            database.state == (DatabaseState::Healthy { published_frontier: CommitSeq(0) }),
            forall|eid: EId| #[trigger] edge_in(database.base_edges, eid) is None,
            forall|vid: VId| #[trigger] vertex_in(database.base_vertices, vid) is None,
    {
        Database {
            owner,
            namespace,
            state: DatabaseState::Healthy { published_frontier: CommitSeq(0) },
            base_seq: CommitSeq(0),
            base_vertices: IdMap::new(),
            base_edges: IdMap::new(),
            log: Vec::new(),
            standing: Vec::new(),
        }
    }

    /// The published frontier of a healthy handle.
    pub fn frontier(&self) -> (frontier: Result<CommitSeq, WriteTxnError>)
        ensures
            frontier == frontier_of(self.state),
    {
        match self.state {
            DatabaseState::Healthy { published_frontier } => Ok(published_frontier),
            _ => Err(WriteTxnError::Fenced(self.state)),
        }
    }

    /// The last folded commit, whatever the handle's health.
    pub fn snapshot_frontier(&self) -> (frontier: CommitSeq)
        requires
            self.wf(),
        ensures
            frontier.0 == self.tip(),
    {
        CommitSeq(self.base_seq.0 + self.log.len() as u64)
    }

    /// Where the commits after `seq` begin in the log. A retired prefix is
    /// refused: a surviving tail alone proves nothing about an older basis.
    pub fn delta_since(&self, seq: CommitSeq) -> (start: Result<usize, WriteTxnError>)
        requires
            self.wf(),
        ensures
            match start {
                Ok(index) => self.history_refusal(seq) is None && index == seq.0 - self.base_seq.0,
                Err(error) => self.history_refusal(seq) == Some(error),
            },
    {
        if seq.0 < self.base_seq.0 {
            return Err(
                WriteTxnError::History(
                    HistoryError::Retired { requested: seq, retained: self.base_seq },
                ),
            );
        }
        let frontier = self.snapshot_frontier();
        if seq.0 > frontier.0 {
            return Err(
                WriteTxnError::History(HistoryError::Unpublished { requested: seq, frontier }),
            );
        }
        let retained: usize = self.log.len();
        assert(seq.0 - self.base_seq.0 <= retained);
        Ok((seq.0 - self.base_seq.0) as usize)
    }

    /// One committed edge at a snapshot.
    pub fn edge_at(&self, eid: EId, seq: CommitSeq) -> (edge: Result<Option<EdgeRecord>, WriteTxnError>)
        requires
            self.wf(),
        ensures
            match edge {
                Ok(record) => self.history_refusal(seq) is None && edge_wf(record) && edge_view(
                    record,
                ) == self.edge_at_spec(eid, seq),
                Err(error) => self.history_refusal(seq) == Some(error),
            },
    {
        let end: usize = match self.delta_since(seq) {
            Ok(end) => end,
            Err(error) => return Err(error),
        };
        let mut overlay: Option<EdgeRecord> = match self.base_edges.get(eid.0) {
            Some(record) => Some(record.copy()),
            None => None,
        };
        let mut i: usize = 0;
        while i < end
            invariant
                self.wf(),
                i <= end <= self.log.len(),
                edge_wf(overlay),
                edge_view(overlay) == self.edge_after_commits(eid, i as int),
            decreases end - i,
        {
            replay_edge(eid, &mut overlay, &self.log[i].template, self.log[i].commit_seq);
            i += 1;
        }
        Ok(overlay)
    }

    /// One committed vertex at a snapshot.
    pub fn vertex_at(&self, vid: VId, seq: CommitSeq) -> (vertex: Result<
        Option<VertexRow>,
        WriteTxnError,
    >)
        requires
            self.wf(),
        ensures
            match vertex {
                Ok(row) => self.history_refusal(seq) is None && vertex_wf(row) && vertex_view(row)
                    == self.vertex_at_spec(vid, seq),
                Err(error) => self.history_refusal(seq) == Some(error),
            },
    {
        let end: usize = match self.delta_since(seq) {
            Ok(end) => end,
            Err(error) => return Err(error),
        };
        let mut overlay: Option<VertexRow> = match self.base_vertices.get(vid.0) {
            Some(row) => Some(row.copy()),
            None => None,
        };
        let mut i: usize = 0;
        while i < end
            invariant
                self.wf(),
                i <= end <= self.log.len(),
                vertex_wf(overlay),
                vertex_view(overlay) == self.vertex_after_commits(vid, i as int),
            decreases end - i,
        {
            replay_vertex(vid, &mut overlay, &self.log[i].template);
            i += 1;
        }
        Ok(overlay)
    }

    /// All committed edges at a snapshot, by identity.
    pub fn edge_map_at(&self, seq: CommitSeq) -> (edges: Result<IdMap<EdgeRecord>, WriteTxnError>)
        requires
            self.wf(),
        ensures
            match edges {
                Ok(map) => self.history_refusal(seq) is None && edges_wf(map) && forall|eid: EId|
                    #[trigger] edge_in(map, eid) == self.edge_at_spec(eid, seq),
                Err(error) => self.history_refusal(seq) == Some(error),
            },
    {
        let end: usize = match self.delta_since(seq) {
            Ok(end) => end,
            Err(error) => return Err(error),
        };
        let mut edges: IdMap<EdgeRecord> = IdMap::new();
        let mut k: usize = 0;
        while k < self.base_edges.len()
            invariant
                self.wf(),
                k <= self.base_edges.key_seq().len(),
                edges_wf(edges),
                forall|key: u128| #[trigger]
                    edges@.dom().contains(key) <==> self.base_edges.key_seq().take(
                        k as int,
                    ).contains(key),
                forall|key: u128| #[trigger]
                    edges@.dom().contains(key) ==> edges@[key]@ == self.base_edges@[key]@,
            decreases self.base_edges.key_seq().len() - k,
        {
            let key: u128 = self.base_edges.key_at(k);
            let record = self.base_edges.value_at(k);
            proof {
                self.base_edges.lemma_position(k as int);
                let seen = self.base_edges.key_seq().take(k as int);
                let next = self.base_edges.key_seq().take(k + 1);
                assert(next =~= seen.push(key));
                assert forall|x: u128| #[trigger] next.contains(x) <==> seen.contains(x) || x
                    == key by {
                    if next.contains(x) && x != key {
                        let i = next.index_of(x);
                        assert(seen[i] == x);
                    }
                    if seen.contains(x) {
                        let i = seen.index_of(x);
                        assert(next[i] == x);
                    }
                    assert(next[k as int] == key);
                }
            }
            edges.insert(key, record.copy());
            k += 1;
        }
        proof {
            let all = self.base_edges.key_seq();
            assert(all.take(k as int) =~= all);
            assert forall|eid: EId| #[trigger] edge_in(edges, eid) == self.edge_after_commits(
                eid,
                0,
            ) by {
                assert(self.base_edges@.dom().contains(eid.0) == all.contains(eid.0));
            }
        }
        let mut i: usize = 0;
        while i < end
            invariant
                self.wf(),
                i <= end <= self.log.len(),
                edges_wf(edges),
                forall|eid: EId| #[trigger]
                    edge_in(edges, eid) == self.edge_after_commits(eid, i as int),
            decreases end - i,
        {
            let ghost before = edges;
            replay_edges(&mut edges, &self.log[i].template, self.log[i].commit_seq);
            proof {
                assert forall|eid: EId| #[trigger]
                    edge_in(edges, eid) == self.edge_after_commits(eid, i + 1) by {
                    assert(edge_in(before, eid) == self.edge_after_commits(eid, i as int));
                }
            }
            i += 1;
        }
        Ok(edges)
    }

    /// Fold one published commit into a healthy handle.
    pub fn publish(&mut self, template: Template) -> (commit_seq: CommitSeq)
        requires
            old(self).wf(),
            old(self).state is Healthy,
            old(self).tip() < u64::MAX,
            template.wf(),
        ensures
            final(self).wf(),
            commit_seq.0 == old(self).tip() + 1,
            final(self).owner == old(self).owner,
            final(self).namespace == old(self).namespace,
            final(self).base_seq == old(self).base_seq,
            final(self).base_edges == old(self).base_edges,
            final(self).base_vertices == old(self).base_vertices,
            final(self).state == (DatabaseState::Healthy { published_frontier: commit_seq }),
            final(self).log@ == old(self).log@.push(DeltaBatch { commit_seq, template }),
            final(self).standing@ == old(self).standing@,
    {
        let commit_seq = CommitSeq(self.snapshot_frontier().0 + 1);
        self.log.push(DeltaBatch { commit_seq, template });
        self.state = DatabaseState::Healthy { published_frontier: commit_seq };
        commit_seq
    }
}

} // verus!
