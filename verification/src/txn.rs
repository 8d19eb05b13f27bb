//! The write transaction: its workspace, its witnesses and its lifecycle state.

use vstd::prelude::*;
use crate::batch::WriteBatch;
use crate::database::Database;
use crate::errors::WriteTxnError;
use crate::graph::DeltaRow;
use crate::ids::{CommitSeq, ElementId, LabelId, RelationId, VId};
use crate::idset::{ElementSet, IdSet};
use crate::template::Template;

verus! {

/// How a completed transaction ended.
#[derive(Clone, Copy, PartialEq, Eq, Structural, Debug)]
pub enum EmbeddedTxnCompletion {
    WriteCommitted { commit_seq: CommitSeq },
    ReadClosed { snapshot_seq: CommitSeq, validated_through: CommitSeq },
}

/// Where a transaction stands.
#[derive(Clone, Copy, PartialEq, Eq, Structural, Debug)]
pub enum EmbeddedTxnState {
    Active,
    Aborted,
    Completed(EmbeddedTxnCompletion),
    CommitOutcomeUnknown { published_frontier: CommitSeq },
    CommittedNeedsRecovery { commit_seq: CommitSeq },
}

impl EmbeddedTxnState {
    pub open spec fn terminal(self) -> bool {
        self != EmbeddedTxnState::Active
    }

    pub fn is_terminal(self) -> (terminal: bool)
        ensures
            terminal == self.terminal(),
    {
        match self {
            EmbeddedTxnState::Active => false,
            _ => true,
        }
    }
}

/// Evaluated intents, ready to publish against their basis.
#[derive(Debug)]
pub struct PreparedWrite {
    pub template: Template,
    pub basis: CommitSeq,
    pub owner: u64,
}

/// A named mark in the staged prefix.
#[derive(Debug)]
pub struct Savepoint {
    pub name: String,
    pub staged: usize,
}

/// The outgoing adjacencies a transaction expanded.
pub struct ExpansionSet {
    pub pairs: Vec<(VId, RelationId)>,
}

impl ExpansionSet {
    pub open spec fn view(&self) -> Set<(VId, RelationId)> {
        self.pairs@.to_set()
    }

    pub fn new() -> (set: ExpansionSet)
        ensures
            set@ =~= Set::<(VId, RelationId)>::empty(),
    {
        ExpansionSet { pairs: Vec::new() }
    }

    pub fn contains(&self, src: VId, relation: RelationId) -> (found: bool)
        ensures
            found == self@.contains((src, relation)),
    {
        let mut i: usize = 0;
        while i < self.pairs.len()
            invariant
                i <= self.pairs.len(),
                forall|k: int| 0 <= k < i ==> self.pairs@[k] != (src, relation),
            decreases self.pairs.len() - i,
        {
            if self.pairs[i].0 == src && self.pairs[i].1 == relation {
                assert(self.pairs@[i as int] == (src, relation));
                return true;
            }
            i += 1;
        }
        false
    }

    pub fn insert(&mut self, src: VId, relation: RelationId)
        ensures
            final(self)@ =~= old(self)@.insert((src, relation)),
    {
        if !self.contains(src, relation) {
            let ghost before = self.pairs@;
            self.pairs.push((src, relation));
            proof {
                let after = self.pairs@;
                assert forall|pair: (VId, RelationId)| #[trigger]
                    after.to_set().contains(pair) == before.to_set().insert(
                        (src, relation),
                    ).contains(pair) by {
                    if after.contains(pair) && pair != (src, relation) {
                        let i = after.index_of(pair);
                        assert(before[i] == pair);
                    }
                    if before.contains(pair) {
                        let i = before.index_of(pair);
                        assert(after[i] == pair);
                    }
                    assert(after[before.len() as int] == (src, relation));
                }
            }
        }
    }

    pub fn is_empty(&self) -> (empty: bool)
        ensures
            empty <==> self@ =~= Set::<(VId, RelationId)>::empty(),
    {
        let empty = self.pairs.len() == 0;
        proof {
            if !empty {
                assert(self@.contains(self.pairs@[0]));
            }
        }
        empty
    }

    pub fn clear(&mut self)
        ensures
            final(self)@ =~= Set::<(VId, RelationId)>::empty(),
    {
        self.pairs.clear();
    }
}

/// An embedded write transaction over one pinned snapshot.
pub struct WriteTxn {
    pub owner: u64,
    pub basis: CommitSeq,
    pub state: EmbeddedTxnState,
    pub pin: Option<CommitSeq>,
    pub staged: Vec<WriteBatch>,
    pub prepared: Option<PreparedWrite>,
    pub savepoints: Vec<Savepoint>,
    pub program_multi_relation: bool,
    pub read_set: ElementSet,
    pub match_expansions: ExpansionSet,
    pub scanned_vertex_labels: IdSet,
    pub scanned_vertices: bool,
    pub scanned_edges: bool,
}

/// The refusal that owner and lifecycle checks give, owner first.
pub open spec fn ownership_refusal(txn: WriteTxn, database: Database) -> Option<WriteTxnError> {
    if txn.owner != database.owner {
        Some(WriteTxnError::WrongDatabase)
    } else if txn.state.terminal() {
        Some(WriteTxnError::Finished)
    } else {
        None
    }
}

/// Nothing but the recorded observations differs.
pub open spec fn same_workspace(left: WriteTxn, right: WriteTxn) -> bool {
    &&& left.owner == right.owner
    &&& left.basis == right.basis
    &&& left.state == right.state
    &&& left.pin == right.pin
    &&& left.staged@ == right.staged@
    &&& left.prepared == right.prepared
    &&& left.savepoints@ == right.savepoints@
    &&& left.program_multi_relation == right.program_multi_relation
}

/// No observation of `left` is missing from `right`.
pub open spec fn keeps_observations(left: WriteTxn, right: WriteTxn) -> bool {
    &&& left.read_set@.subset_of(right.read_set@)
    &&& left.match_expansions@.subset_of(right.match_expansions@)
    &&& left.scanned_vertex_labels@.subset_of(right.scanned_vertex_labels@)
    &&& left.scanned_vertices ==> right.scanned_vertices
    &&& left.scanned_edges ==> right.scanned_edges
}

/// Exactly the reads of some elements were added to what was observed.
pub open spec fn reads_only(left: WriteTxn, right: WriteTxn, elements: Set<ElementId>) -> bool {
    &&& right.read_set@ =~= left.read_set@.union(elements)
    &&& right.match_expansions@ == left.match_expansions@
    &&& right.scanned_vertex_labels@ == left.scanned_vertex_labels@
    &&& right.scanned_vertices == left.scanned_vertices
    &&& right.scanned_edges == left.scanned_edges
}

/// Nothing but reads of some elements was added to what was observed.
pub open spec fn reads_within(left: WriteTxn, right: WriteTxn, elements: Set<ElementId>) -> bool {
    &&& left.read_set@.subset_of(right.read_set@)
    &&& right.read_set@.subset_of(left.read_set@.union(elements))
    &&& right.match_expansions@ == left.match_expansions@
    &&& right.scanned_vertex_labels@ == left.scanned_vertex_labels@
    &&& right.scanned_vertices == left.scanned_vertices
    &&& right.scanned_edges == left.scanned_edges
}

/// Every element that one of these reads touches.
pub open spec fn joint(reads: Seq<Set<ElementId>>) -> Set<ElementId> {
    Set::new(
        |element: ElementId|
            exists|i: int| 0 <= i < reads.len() && (#[trigger] reads[i]).contains(element),
    )
}

/// One more read after those before it.
pub proof fn lemma_joint_more(
    start: WriteTxn,
    middle: WriteTxn,
    last: WriteTxn,
    reads: Seq<Set<ElementId>>,
    i: int,
)
    requires
        0 <= i < reads.len(),
        reads_only(start, middle, joint(reads.take(i))),
        reads_within(middle, last, reads[i]),
    ensures
        reads_within(start, last, joint(reads)),
        reads_only(middle, last, reads[i]) ==> reads_only(start, last, joint(reads.take(i + 1))),
{
    let before = joint(reads.take(i));
    let after = joint(reads.take(i + 1));
    let all = joint(reads);
    assert forall|element: ElementId| before.contains(element) implies all.contains(element) by {
        let k = choose|k: int| 0 <= k < i && (#[trigger] reads.take(i)[k]).contains(element);
        assert(reads[k].contains(element));
    }
    assert forall|element: ElementId| reads[i].contains(element) implies all.contains(element) by {
    }
    assert(after =~= before.union(reads[i])) by {
        assert forall|element: ElementId| #[trigger]
            after.contains(element) == before.union(reads[i]).contains(element) by {
            if after.contains(element) {
                let k = choose|k: int|
                    0 <= k < i + 1 && (#[trigger] reads.take(i + 1)[k]).contains(element);
                if k < i {
                    assert(reads.take(i)[k].contains(element));
                }
            } else if before.contains(element) {
                let k = choose|k: int| 0 <= k < i && (#[trigger] reads.take(i)[k]).contains(element);
                assert(reads.take(i + 1)[k].contains(element));
            } else if reads[i].contains(element) {
                assert(reads.take(i + 1)[i].contains(element));
            }
        }
    }
}

pub proof fn lemma_joint_prefix(
    start: WriteTxn,
    last: WriteTxn,
    reads: Seq<Set<ElementId>>,
    i: int,
)
    requires
        0 <= i <= reads.len(),
        reads_only(start, last, joint(reads.take(i))),
    ensures
        reads_within(start, last, joint(reads)),
{
    assert forall|element: ElementId| joint(reads.take(i)).contains(element) implies joint(
        reads,
    ).contains(element) by {
        let k = choose|k: int| 0 <= k < i && (#[trigger] reads.take(i)[k]).contains(element);
        assert(reads[k].contains(element));
    }
}

impl WriteTxn {
    pub open spec fn wf(&self) -> bool {
        &&& self.read_set.wf()
        &&& self.scanned_vertex_labels.wf()
        &&& match self.prepared {
            Some(prepared) => prepared.template.wf(),
            None => true,
        }
    }

    /// The canonical rows that commit would publish.
    pub open spec fn prepared_rows(&self) -> Seq<DeltaRow> {
        match self.prepared {
            Some(prepared) => prepared.template.rows(),
            None => Seq::empty(),
        }
    }

    /// Whether any read, scan or expansion was recorded.
    pub open spec fn observed(&self) -> bool {
        ||| !(self.read_set@ =~= Set::<ElementId>::empty())
        ||| !(self.match_expansions@ =~= Set::<(VId, RelationId)>::empty())
        ||| !(self.scanned_vertex_labels@ =~= Set::<u128>::empty())
        ||| self.scanned_vertices
        ||| self.scanned_edges
    }

    /// Whether a label was scanned.
    pub open spec fn scanned_label(&self, label: LabelId) -> bool {
        self.scanned_vertex_labels@.contains(label.0 as u128)
    }

    /// Pin the frontier of a healthy database.
    pub fn begin(database: &Database) -> (txn: Result<WriteTxn, WriteTxnError>)
        requires
            database.wf(),
        ensures
            match (crate::database::frontier_of(database.state), txn) {
                (Ok(frontier), Ok(txn)) => {
                    &&& txn.wf()
                    &&& txn.owner == database.owner
                    &&& txn.basis == frontier
                    &&& txn.state == EmbeddedTxnState::Active
                    &&& txn.pin == Some(frontier)
                    &&& txn.staged@.len() == 0
                    &&& txn.prepared is None
                    &&& txn.savepoints@.len() == 0
                    &&& !txn.program_multi_relation
                    &&& !txn.observed()
                },
                (Err(refusal), Err(error)) => refusal == error,
                _ => false,
            },
    {
        match database.frontier() {
            Ok(frontier) => Ok(
                WriteTxn {
                    owner: database.owner,
                    basis: frontier,
                    state: EmbeddedTxnState::Active,
                    pin: Some(frontier),
                    staged: Vec::new(),
                    prepared: None,
                    savepoints: Vec::new(),
                    program_multi_relation: false,
                    read_set: ElementSet::new(),
                    match_expansions: ExpansionSet::new(),
                    scanned_vertex_labels: IdSet::new(),
                    scanned_vertices: false,
                    scanned_edges: false,
                },
            ),
            Err(error) => Err(error),
        }
    }

    pub fn ensure_database(&self, database: &Database) -> (admitted: Result<(), WriteTxnError>)
        ensures
            match admitted {
                Ok(()) => ownership_refusal(*self, *database) is None,
                Err(error) => ownership_refusal(*self, *database) == Some(error),
            },
    {
        if self.owner != database.owner {
            Err(WriteTxnError::WrongDatabase)
        } else if self.state.is_terminal() {
            Err(WriteTxnError::Finished)
        } else {
            Ok(())
        }
    }

    /// Give up the snapshot pin, once.
    pub fn release_pin(&mut self)
        ensures
            *final(self) == (WriteTxn { pin: None, ..*old(self) }),
    {
        self.pin = None;
    }

    /// Drop everything a terminal transaction no longer needs. The terminal
    /// state itself is history and stays.
    pub fn discard_terminal_workspace(&mut self)
        requires
            old(self).wf(),
        ensures
            final(self).discarded(),
            final(self).wf(),
            final(self).state == old(self).state,
            final(self).owner == old(self).owner,
            final(self).basis == old(self).basis,
            final(self).program_multi_relation == old(self).program_multi_relation,
    {
        self.staged.clear();
        self.prepared = None;
        self.savepoints.clear();
        self.read_set.clear();
        self.match_expansions.clear();
        self.scanned_vertex_labels.clear();
        self.scanned_vertices = false;
        self.scanned_edges = false;
        self.release_pin();
    }

    /// Nothing is staged, prepared, observed or pinned.
    pub open spec fn discarded(&self) -> bool {
        &&& self.staged@.len() == 0
        &&& self.prepared is None
        &&& self.savepoints@.len() == 0
        &&& !self.observed()
        &&& self.pin is None
    }

    /// End the transaction without publishing its prepared batch. An earlier
    /// terminal outcome is kept.
    pub fn abort(self) -> (ended: WriteTxn)
        requires
            self.wf(),
        ensures
            ended.discarded(),
            ended.wf(),
            ended.state == (if self.state.terminal() {
                self.state
            } else {
                EmbeddedTxnState::Aborted
            }),
            ended.owner == self.owner,
            ended.basis == self.basis,
    {
        let mut ended = self;
        if !ended.state.is_terminal() {
            ended.state = EmbeddedTxnState::Aborted;
        }
        ended.discard_terminal_workspace();
        ended
    }

    /// Join staged batches of one relation into one batch; none gives none.
    pub fn combined_batch(staged: &Vec<WriteBatch>) -> (combined: Option<WriteBatch>)
        requires
            forall|i: int|
                0 <= i < staged@.len() ==> (#[trigger] staged@[i]).relation == staged@[0].relation,
        ensures
            match combined {
                Some(batch) => {
                    let all = crate::batch::intents(staged@);
                    &&& staged@.len() > 0
                    &&& batch.relation == staged@[0].relation
                    &&& batch.rows@.len() == all.len()
                    &&& forall|i: int|
                        0 <= i < all.len() ==> crate::batch::same_intent(
                            (#[trigger] all[i]).1,
                            batch.rows@[i],
                        )
                },
                None => staged@.len() == 0,
            },
    {
        if staged.len() == 0 {
            return None;
        }
        let mut combined = WriteBatch::new(staged[0].relation);
        let mut b: usize = 0;
        while b < staged.len()
            invariant
                b <= staged.len(),
                combined.relation == staged@[0].relation,
                combined.rows@.len() == crate::batch::intents_upto(staged@, b as int).len(),
                forall|i: int|
                    0 <= i < combined.rows@.len() ==> crate::batch::same_intent(
                        (#[trigger] crate::batch::intents_upto(staged@, b as int)[i]).1,
                        combined.rows@[i],
                    ),
            decreases staged.len() - b,
        {
            let mut r: usize = 0;
            let ghost before = combined.rows@;
            let ghost seen = crate::batch::intents_upto(staged@, b as int);
            while r < staged[b as usize].rows.len()
                invariant
                    b < staged.len(),
                    r <= staged@[b as int].rows@.len(),
                    combined.relation == staged@[0].relation,
                    combined.rows@.len() == before.len() + r,
                    seen.len() == before.len(),
                    forall|i: int|
                        0 <= i < before.len() ==> crate::batch::same_intent(
                            (#[trigger] seen[i]).1,
                            combined.rows@[i],
                        ),
                    forall|i: int|
                        0 <= i < r ==> crate::batch::same_intent(
                            #[trigger] staged@[b as int].rows@[i],
                            combined.rows@[before.len() + i],
                        ),
                decreases staged@[b as int].rows@.len() - r,
            {
                combined.rows.push(staged[b].rows[r].copy());
                r += 1;
            }
            proof {
                let all = crate::batch::intents_upto(staged@, b + 1);
                assert forall|i: int| 0 <= i < combined.rows@.len() implies crate::batch::same_intent(
                    (#[trigger] all[i]).1,
                    combined.rows@[i],
                ) by {
                    if i < before.len() {
                        assert(all[i] == seen[i]);
                    } else {
                        let k = i - before.len();
                        assert(all[i].1 == staged@[b as int].rows@[k]);
                    }
                }
            }
            b += 1;
        }
        Some(combined)
    }
}

} // verus!
