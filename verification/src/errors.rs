//! Every reason a transaction can refuse.

use vstd::prelude::*;
use crate::ids::{CommitSeq, ElementId, RelationId};

verus! {

/// Whether a handle may be trusted, and how far its published history reaches.
#[derive(Clone, Copy, PartialEq, Eq, Structural, Debug)]
pub enum DatabaseState {
    Healthy { published_frontier: CommitSeq },
    CommitOutcomeUnknown { published_frontier: CommitSeq },
    NeedsAuthoritativeRecovery { durable_frontier: CommitSeq },
}

/// A dimension of a capability's signed allowance.
#[derive(Clone, Copy, PartialEq, Eq, Structural, Debug)]
pub enum LimitDimension {
    Work,
    Nodes,
    Rows,
}

/// A refusal by the capability authority.
#[derive(Clone, Copy, PartialEq, Eq, Structural, Debug)]
pub enum Denial {
    WrongAuthority,
    PermissionDenied,
    ScopeDenied,
    Expired,
    TooLarge,
    LimitExceeded(LimitDimension),
    Other(u64),
}

/// The two first-committer-wins laws: a changed read, and a changed write target.
#[derive(Clone, Copy, PartialEq, Eq, Structural, Debug)]
pub enum Law {
    Read,
    Write,
}

impl Law {
    /// The published name of the law.
    pub fn code(self) -> (code: &'static str)
        ensures
            code@ == (match self {
                Law::Read => "FG-LAW-FCW-READ-01"@,
                Law::Write => "FG-LAW-FCW-01"@,
            }),
    {
        match self {
            Law::Read => "FG-LAW-FCW-READ-01",
            Law::Write => "FG-LAW-FCW-01",
        }
    }
}

/// What a first-committer-wins refusal found.
#[derive(Clone, Copy, PartialEq, Eq, Structural, Debug)]
pub enum ConflictDetail {
    /// A dependency changed at `committed_at`, after the pinned `basis`.
    Dependency { element: ElementId, committed_at: CommitSeq, basis: CommitSeq },
    /// An append rebase crossed an identity write or an endpoint retirement.
    AppendRebase,
}

/// A refusal by the write path.
#[derive(Clone, Copy, PartialEq, Eq, Structural, Debug)]
pub enum WriteError {
    EmptyBatch,
    MalformedTemplate,
    FirstCommitterWins { law: Law, detail: ConflictDetail },
    Evaluation(u64),
}

/// A refusal by the retained history.
#[derive(Clone, Copy, PartialEq, Eq, Structural, Debug)]
pub enum HistoryError {
    Retired { requested: CommitSeq, retained: CommitSeq },
    Unpublished { requested: CommitSeq, frontier: CommitSeq },
}

/// A refusal by the query language layer.
#[derive(Clone, Copy, PartialEq, Eq, Structural, Debug)]
pub enum GqlError {
    Parse(u64),
    Bind(u64),
}

/// A refusal by a write transaction.
#[derive(Clone, Copy, PartialEq, Eq, Structural, Debug)]
pub enum WriteTxnError {
    WrongDatabase,
    Finished,
    NoPreparedWrite,
    SnapshotAdvanced { pinned: CommitSeq, live: CommitSeq },
    RelationMismatch { expected: RelationId, found: RelationId },
    OrderedWriteBudgetExceeded { limit: u64, required: u64 },
    AppendRebaseIneligible,
    AuthorizedMutationRefused,
    Authorization(Denial),
    Interrupted(u64),
    IdentityExhausted,
    Fenced(DatabaseState),
    History(HistoryError),
    Write(WriteError),
    Gql(GqlError),
}

} // verus!
