//! The codec of result artifacts, with a record of what it was asked.

use vstd::prelude::*;
use crate::database::Database;
use crate::ids::{CommitSeq, VId};
use crate::txn::WriteTxn;

verus! {

/// A read-only handle on one immutable snapshot.
#[derive(Clone, Copy, PartialEq, Eq, Structural, Debug)]
pub struct EmbeddedReadView {
    pub owner: u64,
    pub snapshot: CommitSeq,
}

/// What a replay answers for.
#[derive(Clone, Copy)]
pub enum Authority<'a> {
    /// The history of a database handle.
    Database { database: &'a Database },
    /// One immutable snapshot.
    View { view: &'a EmbeddedReadView },
    /// A transaction's basis with its staged effects.
    Overlay { transaction: &'a WriteTxn, database: &'a Database },
}

/// What a replay answers for, as it is recorded.
pub enum Subject {
    Database { database: Database },
    View { view: EmbeddedReadView },
    Overlay { transaction: WriteTxn, database: Database },
}

impl<'a> Authority<'a> {
    pub open spec fn subject(self) -> Subject {
        match self {
            Authority::Database { database } => Subject::Database { database: *database },
            Authority::View { view } => Subject::View { view: *view },
            Authority::Overlay { transaction, database } => Subject::Overlay {
                transaction: *transaction,
                database: *database,
            },
        }
    }
}

/// How large an artifact may be before anything of it is decoded.
#[derive(Clone, Copy, PartialEq, Eq, Structural, Debug)]
pub enum GqlEvidenceLimits {
    /// The codec's own policy for untrusted input.
    DefaultUntrusted,
    Custom { max_bytes: u64, max_rows: u64 },
}

/// An audited result.
pub struct Artifact {
    pub rows: Vec<VId>,
}

/// Part of an audited result, with the token of what follows it.
pub struct GqlEvidencePage {
    pub rows: Vec<VId>,
    pub next: Option<Vec<u8>>,
}

/// A decoded checkpoint.
#[derive(Clone, Copy, PartialEq, Eq, Structural, Debug)]
pub struct GqlEvidencePageToken {
    pub result: u64,
    pub offset: u64,
}

/// A position in an owned, audited result.
pub struct GqlEvidenceCursor {
    pub artifact: Artifact,
    pub offset: u64,
}

/// A refused audit: too large, or not reproduced.
#[derive(Clone, Copy, PartialEq, Eq, Structural, Debug)]
pub enum GqlEvidenceLimitedAuditError {
    Limit(u64),
    Audit(u64),
}

/// A refused page: a token that is not one, or that belongs to another result.
#[derive(Clone, Copy, PartialEq, Eq, Structural, Debug)]
pub enum GqlEvidencePageError {
    TokenDecode(u64),
    Rejected(u64),
}

/// A refused audit or page.
#[derive(Clone, Copy, PartialEq, Eq, Structural, Debug)]
pub enum GqlEvidencePageAuditError {
    Audit(GqlEvidenceLimitedAuditError),
    Page(GqlEvidencePageError),
}

/// The format codec and the replay behind it. Nothing is promised of the answers.
pub trait EvidenceCodec {
    /// Whether an artifact is within its limits, by its header alone.
    fn preflight(&mut self, staged: bool, bytes: &Vec<u8>, limits: GqlEvidenceLimits) -> Result<
        (),
        u64,
    >;

    /// Decode an artifact and reproduce its rows under an authority.
    fn audit(&mut self, authority: Authority<'_>, query: u64, bytes: &Vec<u8>) -> Result<
        Artifact,
        u64,
    >;

    /// Decode a checkpoint.
    fn decode(&mut self, checkpoint: &Vec<u8>) -> Result<GqlEvidencePageToken, u64>;

    /// A page of an audited result.
    fn page(&mut self, artifact: &Artifact, page_size: u64, after: Option<&Vec<u8>>) -> Result<
        GqlEvidencePage,
        GqlEvidencePageError,
    >;

    /// Where a checkpoint stands in an audited result.
    fn resume(&mut self, artifact: &Artifact, token: GqlEvidencePageToken) -> Result<
        u64,
        GqlEvidencePageError,
    >;
}

/// One question to the codec, with its answer.
#[allow(inconsistent_fields)]
pub enum EvidenceStep {
    Preflight { staged: bool, bytes: Seq<u8>, limits: GqlEvidenceLimits, answer: Result<(), u64> },
    Audit { subject: Subject, query: u64, bytes: Seq<u8>, answer: Result<Artifact, u64> },
    Decode { checkpoint: Seq<u8>, answer: Result<GqlEvidencePageToken, u64> },
    Page {
        artifact: Artifact,
        page_size: u64,
        after: Option<Seq<u8>>,
        answer: Result<GqlEvidencePage, GqlEvidencePageError>,
    },
    Resume {
        artifact: Artifact,
        token: GqlEvidencePageToken,
        answer: Result<u64, GqlEvidencePageError>,
    },
}

/// The bytes of an optional token.
pub open spec fn token_bytes(token: Option<&Vec<u8>>) -> Option<Seq<u8>> {
    match token {
        Some(bytes) => Some(bytes@),
        None => None,
    }
}

/// A codec with a record of what it was asked.
pub struct Auditor<C> {
    codec: C,
    log: Ghost<Seq<EvidenceStep>>,
}

impl<C: EvidenceCodec> Auditor<C> {
    pub fn new(codec: C) -> (auditor: Auditor<C>)
        ensures
            auditor.log() == Seq::<EvidenceStep>::empty(),
    {
        Auditor { codec, log: Ghost(Seq::empty()) }
    }

    /// Every question so far with its answer, in order.
    pub closed spec fn log(&self) -> Seq<EvidenceStep> {
        self.log@
    }

    /// The codec that is asked.
    pub closed spec fn behind(&self) -> C {
        self.codec
    }

    /// Look at the codec.
    pub fn codec(&self) -> (codec: &C)
        ensures
            *codec == self.behind(),
    {
        &self.codec
    }

    /// Ask whether an artifact is within its limits.
    pub fn preflight(&mut self, staged: bool, bytes: &Vec<u8>, limits: GqlEvidenceLimits) -> (answer:
        Result<(), u64>)
        ensures
            final(self).log() == old(self).log().push(
                EvidenceStep::Preflight { staged, bytes: bytes@, limits, answer },
            ),
            answer is Ok ==> answer == Ok::<(), u64>(()),
    {
        let answer = match self.codec.preflight(staged, bytes, limits) {
            Ok(()) => Ok(()),
            Err(code) => Err(code),
        };
        self.log = Ghost(
            self.log@.push(EvidenceStep::Preflight { staged, bytes: bytes@, limits, answer }),
        );
        answer
    }

    /// Have an artifact decoded and reproduced.
    pub fn replay(&mut self, authority: Authority<'_>, query: u64, bytes: &Vec<u8>) -> (answer: Result<
        Artifact,
        u64,
    >)
        ensures
            final(self).log() == old(self).log().push(
                EvidenceStep::Audit { subject: authority.subject(), query, bytes: bytes@, answer },
            ),
    {
        let answer = self.codec.audit(authority, query, bytes);
        self.log = Ghost(
            self.log@.push(
                EvidenceStep::Audit { subject: authority.subject(), query, bytes: bytes@, answer },
            ),
        );
        answer
    }

    /// Have a checkpoint decoded.
    pub fn decode(&mut self, checkpoint: &Vec<u8>) -> (answer: Result<GqlEvidencePageToken, u64>)
        ensures
            final(self).log() == old(self).log().push(
                EvidenceStep::Decode { checkpoint: checkpoint@, answer },
            ),
    {
        let answer = self.codec.decode(checkpoint);
        self.log = Ghost(
            self.log@.push(EvidenceStep::Decode { checkpoint: checkpoint@, answer }),
        );
        answer
    }

    /// Have a page cut.
    pub fn cut(&mut self, artifact: &Artifact, page_size: u64, after: Option<&Vec<u8>>) -> (answer:
        Result<GqlEvidencePage, GqlEvidencePageError>)
        ensures
            final(self).log() == old(self).log().push(
                EvidenceStep::Page {
                    artifact: *artifact,
                    page_size,
                    after: token_bytes(after),
                    answer,
                },
            ),
    {
        let answer = self.codec.page(artifact, page_size, after);
        self.log = Ghost(
            self.log@.push(
                EvidenceStep::Page {
                    artifact: *artifact,
                    page_size,
                    after: token_bytes(after),
                    answer,
                },
            ),
        );
        answer
    }

    /// Have a checkpoint located.
    pub fn locate(&mut self, artifact: &Artifact, token: GqlEvidencePageToken) -> (answer: Result<
        u64,
        GqlEvidencePageError,
    >)
        ensures
            final(self).log() == old(self).log().push(
                EvidenceStep::Resume { artifact: *artifact, token, answer },
            ),
    {
        let answer = self.codec.resume(artifact, token);
        self.log = Ghost(
            self.log@.push(EvidenceStep::Resume { artifact: *artifact, token, answer }),
        );
        answer
    }
}

} // verus!
