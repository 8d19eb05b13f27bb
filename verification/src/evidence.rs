//! Evidence: auditing result artifacts, paging them and opening cursors over them.
//!
//! Resource admission comes before decoding, and a complete audit before any page
//! or cursor. The format codec does the decoding and the replay; the order in which
//! it is asked, and what each refusal is reported as, is decided here.

use vstd::prelude::*;
use crate::database::Database;
use crate::evidence_codec::{
    token_bytes, Artifact, Auditor, Authority, EmbeddedReadView, EvidenceCodec, EvidenceStep,
    GqlEvidenceCursor, GqlEvidenceLimitedAuditError, GqlEvidenceLimits, GqlEvidencePage,
    GqlEvidencePageAuditError, GqlEvidencePageError, GqlEvidencePageToken, Subject,
};
use crate::txn::WriteTxn;

verus! {

/// How an artifact is audited: admitted by its limits first, and only then decoded
/// and reproduced.
pub open spec fn audits(
    subject: Subject,
    query: u64,
    bytes: Seq<u8>,
    limits: GqlEvidenceLimits,
    log: Seq<EvidenceStep>,
    log_after: Seq<EvidenceStep>,
    audited: Result<Artifact, GqlEvidenceLimitedAuditError>,
) -> bool {
    ||| exists|code: u64|
        {
            &&& log_after == #[trigger] log.push(
                EvidenceStep::Preflight {
                    staged: subject is Overlay,
                    bytes,
                    limits,
                    answer: Err(code),
                },
            )
            &&& audited == Err::<Artifact, GqlEvidenceLimitedAuditError>(
                GqlEvidenceLimitedAuditError::Limit(code),
            )
        }
    ||| exists|answer: Result<Artifact, u64>|
        {
            &&& log_after == log.push(
                EvidenceStep::Preflight {
                    staged: subject is Overlay,
                    bytes,
                    limits,
                    answer: Ok(()),
                },
            ).push(#[trigger] audit_step(subject, query, bytes, answer))
            &&& audited == match answer {
                Ok(artifact) => Ok(artifact),
                Err(code) => Err::<Artifact, GqlEvidenceLimitedAuditError>(
                    GqlEvidenceLimitedAuditError::Audit(code),
                ),
            }
        }
}

/// The replay of an artifact.
pub open spec fn audit_step(
    subject: Subject,
    query: u64,
    bytes: Seq<u8>,
    answer: Result<Artifact, u64>,
) -> EvidenceStep {
    EvidenceStep::Audit { subject, query, bytes, answer }
}

/// How a page is cut: from a complete audit.
pub open spec fn pages(
    subject: Subject,
    query: u64,
    bytes: Seq<u8>,
    limits: GqlEvidenceLimits,
    page_size: u64,
    after: Option<Seq<u8>>,
    log: Seq<EvidenceStep>,
    log_after: Seq<EvidenceStep>,
    page: Result<GqlEvidencePage, GqlEvidencePageAuditError>,
) -> bool {
    ||| exists|error: GqlEvidenceLimitedAuditError|
        {
            &&& #[trigger] audits(
                subject,
                query,
                bytes,
                limits,
                log,
                log_after,
                Err::<Artifact, GqlEvidenceLimitedAuditError>(error),
            )
            &&& page == Err::<GqlEvidencePage, GqlEvidencePageAuditError>(
                GqlEvidencePageAuditError::Audit(error),
            )
        }
    ||| exists|
        artifact: Artifact,
        middle: Seq<EvidenceStep>,
        answer: Result<GqlEvidencePage, GqlEvidencePageError>,
    |
        {
            &&& #[trigger] audits(
                subject,
                query,
                bytes,
                limits,
                log,
                middle,
                Ok::<Artifact, GqlEvidenceLimitedAuditError>(artifact),
            )
            &&& log_after == #[trigger] middle.push(
                EvidenceStep::Page { artifact, page_size, after, answer },
            )
            &&& page == match answer {
                Ok(found) => Ok(found),
                Err(error) => Err::<GqlEvidencePage, GqlEvidencePageAuditError>(
                    GqlEvidencePageAuditError::Page(error),
                ),
            }
        }
}

/// How a cursor is opened: at the start of a complete audit.
pub open spec fn opens(
    subject: Subject,
    query: u64,
    bytes: Seq<u8>,
    limits: GqlEvidenceLimits,
    log: Seq<EvidenceStep>,
    log_after: Seq<EvidenceStep>,
    cursor: Result<GqlEvidenceCursor, GqlEvidenceLimitedAuditError>,
) -> bool {
    &&& audits(
        subject,
        query,
        bytes,
        limits,
        log,
        log_after,
        match cursor {
            Ok(found) => Ok(found.artifact),
            Err(error) => Err(error),
        },
    )
    &&& cursor is Ok ==> cursor->Ok_0.offset == 0
}

/// How a cursor is resumed: the token's syntax first, then a complete audit, then
/// whether the token belongs to that very result.
pub open spec fn resumes(
    subject: Subject,
    query: u64,
    bytes: Seq<u8>,
    limits: GqlEvidenceLimits,
    checkpoint: Seq<u8>,
    log: Seq<EvidenceStep>,
    log_after: Seq<EvidenceStep>,
    cursor: Result<GqlEvidenceCursor, GqlEvidencePageAuditError>,
) -> bool {
    ||| exists|code: u64|
        {
            &&& log_after == #[trigger] log.push(
                EvidenceStep::Decode { checkpoint, answer: Err(code) },
            )
            &&& cursor == Err::<GqlEvidenceCursor, GqlEvidencePageAuditError>(
                GqlEvidencePageAuditError::Page(GqlEvidencePageError::TokenDecode(code)),
            )
        }
    ||| exists|token: GqlEvidencePageToken, error: GqlEvidenceLimitedAuditError|
        {
            &&& #[trigger] audits(
                subject,
                query,
                bytes,
                limits,
                #[trigger] log.push(EvidenceStep::Decode { checkpoint, answer: Ok(token) }),
                log_after,
                Err::<Artifact, GqlEvidenceLimitedAuditError>(error),
            )
            &&& cursor == Err::<GqlEvidenceCursor, GqlEvidencePageAuditError>(
                GqlEvidencePageAuditError::Audit(error),
            )
        }
    ||| exists|
        token: GqlEvidencePageToken,
        artifact: Artifact,
        middle: Seq<EvidenceStep>,
        answer: Result<u64, GqlEvidencePageError>,
    |
        {
            &&& #[trigger] audits(
                subject,
                query,
                bytes,
                limits,
                #[trigger] log.push(EvidenceStep::Decode { checkpoint, answer: Ok(token) }),
                middle,
                Ok::<Artifact, GqlEvidenceLimitedAuditError>(artifact),
            )
            &&& log_after == #[trigger] middle.push(
                EvidenceStep::Resume { artifact, token, answer },
            )
            &&& cursor == match answer {
                Ok(offset) => Ok(GqlEvidenceCursor { artifact, offset }),
                Err(error) => Err::<GqlEvidenceCursor, GqlEvidencePageAuditError>(
                    GqlEvidencePageAuditError::Page(error),
                ),
            }
        }
}

/// The reason of a checkpoint that does not decode.
pub open spec fn undecoded(error: GqlEvidencePageAuditError) -> Option<u64> {
    match error {
        GqlEvidencePageAuditError::Page(GqlEvidencePageError::TokenDecode(code)) => Some(code),
        _ => None,
    }
}

impl<C: EvidenceCodec> Auditor<C> {
    /// Audit an artifact.
    pub fn audit(
        &mut self,
        authority: Authority<'_>,
        query: u64,
        bytes: &Vec<u8>,
        limits: GqlEvidenceLimits,
    ) -> (audited: Result<Artifact, GqlEvidenceLimitedAuditError>)
        ensures
            audits(authority.subject(), query, bytes@, limits, old(self).log(), final(self).log(), audited),
    {
        let staged = match authority {
            Authority::Overlay { .. } => true,
            _ => false,
        };
        let ghost start = self.log();
        let admitted = self.preflight(staged, bytes, limits);
        if let Err(code) = admitted {
            return Err(GqlEvidenceLimitedAuditError::Limit(code));
        }
        let answer = self.replay(authority, query, bytes);
        let ghost step = audit_step(authority.subject(), query, bytes@, answer);
        match answer {
            Ok(artifact) => Ok(artifact),
            Err(code) => Err(GqlEvidenceLimitedAuditError::Audit(code)),
        }
    }

    /// Cut a page of an audited result.
    pub fn page(
        &mut self,
        authority: Authority<'_>,
        query: u64,
        bytes: &Vec<u8>,
        limits: GqlEvidenceLimits,
        page_size: u64,
        after: Option<&Vec<u8>>,
    ) -> (page: Result<GqlEvidencePage, GqlEvidencePageAuditError>)
        ensures
            pages(
                authority.subject(),
                query,
                bytes@,
                limits,
                page_size,
                token_bytes(after),
                old(self).log(),
                final(self).log(),
                page,
            ),
    {
        let artifact = match self.audit(authority, query, bytes, limits) {
            Ok(artifact) => artifact,
            Err(error) => return Err(GqlEvidencePageAuditError::Audit(error)),
        };
        let answer = self.cut(&artifact, page_size, after);
        match answer {
            Ok(found) => Ok(found),
            Err(error) => Err(GqlEvidencePageAuditError::Page(error)),
        }
    }

    /// Open a cursor over an audited result.
    pub fn open(
        &mut self,
        authority: Authority<'_>,
        query: u64,
        bytes: &Vec<u8>,
        limits: GqlEvidenceLimits,
    ) -> (cursor: Result<GqlEvidenceCursor, GqlEvidenceLimitedAuditError>)
        ensures
            opens(authority.subject(), query, bytes@, limits, old(self).log(), final(self).log(), cursor),
    {
        match self.audit(authority, query, bytes, limits) {
            Ok(artifact) => Ok(GqlEvidenceCursor { artifact, offset: 0 }),
            Err(error) => Err(error),
        }
    }

    /// Decode a checkpoint.
    fn decode_evidence_cursor_checkpoint(&mut self, checkpoint: &Vec<u8>) -> (token: Result<
        GqlEvidencePageToken,
        GqlEvidencePageAuditError,
    >)
        ensures
            match token {
                Ok(found) => final(self).log() == old(self).log().push(
                    EvidenceStep::Decode { checkpoint: checkpoint@, answer: Ok(found) },
                ),
                Err(error) => undecoded(error) is Some && final(self).log() == old(self).log().push(
                    EvidenceStep::Decode {
                        checkpoint: checkpoint@,
                        answer: Err(undecoded(error)->0),
                    },
                ),
            },
    {
        let answer = self.decode(checkpoint);
        match answer {
            Ok(token) => Ok(token),
            Err(code) => Err(
                GqlEvidencePageAuditError::Page(GqlEvidencePageError::TokenDecode(code)),
            ),
        }
    }

    /// Resume a cursor over an audited result.
    pub fn resume(
        &mut self,
        authority: Authority<'_>,
        query: u64,
        bytes: &Vec<u8>,
        limits: GqlEvidenceLimits,
        checkpoint: &Vec<u8>,
    ) -> (cursor: Result<GqlEvidenceCursor, GqlEvidencePageAuditError>)
        ensures
            resumes(
                authority.subject(),
                query,
                bytes@,
                limits,
                checkpoint@,
                old(self).log(),
                final(self).log(),
                cursor,
            ),
    {
        let token = match self.decode_evidence_cursor_checkpoint(checkpoint) {
            Ok(token) => token,
            Err(error) => return Err(error),
        };
        let artifact = match self.audit(authority, query, bytes, limits) {
            Ok(artifact) => artifact,
            Err(error) => return Err(GqlEvidencePageAuditError::Audit(error)),
        };
        let answer = self.locate(&artifact, token);
        match answer {
            Ok(offset) => Ok(GqlEvidenceCursor { artifact, offset }),
            Err(error) => Err(GqlEvidencePageAuditError::Page(error)),
        }
    }
}

impl Database {
    /// Audit an artifact under a database's history, within given limits.
    pub fn audit_prepared_query_artifact_with_limits<C: EvidenceCodec>(
        &self,
        query: u64,
        bytes: &Vec<u8>,
        limits: GqlEvidenceLimits,
        auditor: &mut Auditor<C>,
    ) -> (audited: Result<Artifact, GqlEvidenceLimitedAuditError>)
        ensures
            audits(
                Subject::Database { database: *self },
                query,
                bytes@,
                limits,
                old(auditor).log(),
                final(auditor).log(),
                audited,
            ),
    {
        auditor.audit(
            Authority::Database { database: self },
            query,
            bytes,
            limits,
        )
    }

    /// Audit an artifact under a database's history, with the default limits for
    /// untrusted input.
    pub fn audit_untrusted_prepared_query_artifact<C: EvidenceCodec>(
        &self,
        query: u64,
        bytes: &Vec<u8>,
        auditor: &mut Auditor<C>,
    ) -> (audited: Result<Artifact, GqlEvidenceLimitedAuditError>)
        ensures
            audits(
                Subject::Database { database: *self },
                query,
                bytes@,
                GqlEvidenceLimits::DefaultUntrusted,
                old(auditor).log(),
                final(auditor).log(),
                audited,
            ),
    {
        self.audit_prepared_query_artifact_with_limits(
            query,
            bytes,
            GqlEvidenceLimits::DefaultUntrusted,
            auditor,
        )
    }

    /// Audit an artifact under a database's history, then cut a page, within given
    /// limits.
    pub fn audit_prepared_query_artifact_page_with_limits<C: EvidenceCodec>(
        &self,
        query: u64,
        bytes: &Vec<u8>,
        limits: GqlEvidenceLimits,
        page_size: u64,
        after: Option<&Vec<u8>>,
        auditor: &mut Auditor<C>,
    ) -> (page: Result<GqlEvidencePage, GqlEvidencePageAuditError>)
        ensures
            pages(
                Subject::Database { database: *self },
                query,
                bytes@,
                limits,
                page_size,
                token_bytes(after),
                old(auditor).log(),
                final(auditor).log(),
                page,
            ),
    {
        auditor.page(
            Authority::Database { database: self },
            query,
            bytes,
            limits,
            page_size,
            after,
        )
    }

    /// Audit an artifact under a database's history, then cut a page, with the default
    /// limits for untrusted input.
    pub fn audit_untrusted_prepared_query_artifact_page<C: EvidenceCodec>(
        &self,
        query: u64,
        bytes: &Vec<u8>,
        page_size: u64,
        after: Option<&Vec<u8>>,
        auditor: &mut Auditor<C>,
    ) -> (page: Result<GqlEvidencePage, GqlEvidencePageAuditError>)
        ensures
            pages(
                Subject::Database { database: *self },
                query,
                bytes@,
                GqlEvidenceLimits::DefaultUntrusted,
                page_size,
                token_bytes(after),
                old(auditor).log(),
                final(auditor).log(),
                page,
            ),
    {
        self.audit_prepared_query_artifact_page_with_limits(
            query,
            bytes,
            GqlEvidenceLimits::DefaultUntrusted,
            page_size,
            after,
            auditor,
        )
    }

    /// Audit an artifact under a database's history, then open a cursor at its start,
    /// within given limits.
    pub fn open_prepared_query_artifact_cursor_with_limits<C: EvidenceCodec>(
        &self,
        query: u64,
        bytes: &Vec<u8>,
        limits: GqlEvidenceLimits,
        auditor: &mut Auditor<C>,
    ) -> (cursor: Result<GqlEvidenceCursor, GqlEvidenceLimitedAuditError>)
        ensures
            opens(
                Subject::Database { database: *self },
                query,
                bytes@,
                limits,
                old(auditor).log(),
                final(auditor).log(),
                cursor,
            ),
    {
        auditor.open(
            Authority::Database { database: self },
            query,
            bytes,
            limits,
        )
    }

    /// Audit an artifact under a database's history, then open a cursor at its start,
    /// with the default limits for untrusted input.
    pub fn open_untrusted_prepared_query_artifact_cursor<C: EvidenceCodec>(
        &self,
        query: u64,
        bytes: &Vec<u8>,
        auditor: &mut Auditor<C>,
    ) -> (cursor: Result<GqlEvidenceCursor, GqlEvidenceLimitedAuditError>)
        ensures
            opens(
                Subject::Database { database: *self },
                query,
                bytes@,
                GqlEvidenceLimits::DefaultUntrusted,
                old(auditor).log(),
                final(auditor).log(),
                cursor,
            ),
    {
        self.open_prepared_query_artifact_cursor_with_limits(
            query,
            bytes,
            GqlEvidenceLimits::DefaultUntrusted,
            auditor,
        )
    }

    /// Decode a checkpoint, audit an artifact under a database's history, then resume a
    /// cursor, within given limits.
    pub fn resume_prepared_query_artifact_cursor_with_limits<C: EvidenceCodec>(
        &self,
        query: u64,
        bytes: &Vec<u8>,
        limits: GqlEvidenceLimits,
        checkpoint: &Vec<u8>,
        auditor: &mut Auditor<C>,
    ) -> (cursor: Result<GqlEvidenceCursor, GqlEvidencePageAuditError>)
        ensures
            resumes(
                Subject::Database { database: *self },
                query,
                bytes@,
                limits,
                checkpoint@,
                old(auditor).log(),
                final(auditor).log(),
                cursor,
            ),
    {
        auditor.resume(
            Authority::Database { database: self },
            query,
            bytes,
            limits,
            checkpoint,
        )
    }

    /// Decode a checkpoint, audit an artifact under a database's history, then resume a
    /// cursor, with the default limits for untrusted input.
    pub fn resume_untrusted_prepared_query_artifact_cursor<C: EvidenceCodec>(
        &self,
        query: u64,
        bytes: &Vec<u8>,
        checkpoint: &Vec<u8>,
        auditor: &mut Auditor<C>,
    ) -> (cursor: Result<GqlEvidenceCursor, GqlEvidencePageAuditError>)
        ensures
            resumes(
                Subject::Database { database: *self },
                query,
                bytes@,
                GqlEvidenceLimits::DefaultUntrusted,
                checkpoint@,
                old(auditor).log(),
                final(auditor).log(),
                cursor,
            ),
    {
        self.resume_prepared_query_artifact_cursor_with_limits(
            query,
            bytes,
            GqlEvidenceLimits::DefaultUntrusted,
            checkpoint,
            auditor,
        )
    }
}

impl EmbeddedReadView {
    /// Audit an artifact under this view's snapshot, within given limits.
    pub fn audit_prepared_query_artifact_with_limits<C: EvidenceCodec>(
        &self,
        query: u64,
        bytes: &Vec<u8>,
        limits: GqlEvidenceLimits,
        auditor: &mut Auditor<C>,
    ) -> (audited: Result<Artifact, GqlEvidenceLimitedAuditError>)
        ensures
            audits(
                Subject::View { view: *self },
                query,
                bytes@,
                limits,
                old(auditor).log(),
                final(auditor).log(),
                audited,
            ),
    {
        auditor.audit(
            Authority::View { view: self },
            query,
            bytes,
            limits,
        )
    }

    /// Audit an artifact under this view's snapshot, with the default limits for
    /// untrusted input.
    pub fn audit_untrusted_prepared_query_artifact<C: EvidenceCodec>(
        &self,
        query: u64,
        bytes: &Vec<u8>,
        auditor: &mut Auditor<C>,
    ) -> (audited: Result<Artifact, GqlEvidenceLimitedAuditError>)
        ensures
            audits(
                Subject::View { view: *self },
                query,
                bytes@,
                GqlEvidenceLimits::DefaultUntrusted,
                old(auditor).log(),
                final(auditor).log(),
                audited,
            ),
    {
        self.audit_prepared_query_artifact_with_limits(
            query,
            bytes,
            GqlEvidenceLimits::DefaultUntrusted,
            auditor,
        )
    }

    /// Audit an artifact under this view's snapshot, then cut a page, within given
    /// limits.
    pub fn audit_prepared_query_artifact_page_with_limits<C: EvidenceCodec>(
        &self,
        query: u64,
        bytes: &Vec<u8>,
        limits: GqlEvidenceLimits,
        page_size: u64,
        after: Option<&Vec<u8>>,
        auditor: &mut Auditor<C>,
    ) -> (page: Result<GqlEvidencePage, GqlEvidencePageAuditError>)
        ensures
            pages(
                Subject::View { view: *self },
                query,
                bytes@,
                limits,
                page_size,
                token_bytes(after),
                old(auditor).log(),
                final(auditor).log(),
                page,
            ),
    {
        auditor.page(
            Authority::View { view: self },
            query,
            bytes,
            limits,
            page_size,
            after,
        )
    }

    /// Audit an artifact under this view's snapshot, then cut a page, with the default
    /// limits for untrusted input.
    pub fn audit_untrusted_prepared_query_artifact_page<C: EvidenceCodec>(
        &self,
        query: u64,
        bytes: &Vec<u8>,
        page_size: u64,
        after: Option<&Vec<u8>>,
        auditor: &mut Auditor<C>,
    ) -> (page: Result<GqlEvidencePage, GqlEvidencePageAuditError>)
        ensures
            pages(
                Subject::View { view: *self },
                query,
                bytes@,
                GqlEvidenceLimits::DefaultUntrusted,
                page_size,
                token_bytes(after),
                old(auditor).log(),
                final(auditor).log(),
                page,
            ),
    {
        self.audit_prepared_query_artifact_page_with_limits(
            query,
            bytes,
            GqlEvidenceLimits::DefaultUntrusted,
            page_size,
            after,
            auditor,
        )
    }

    /// Audit an artifact under this view's snapshot, then open a cursor at its start,
    /// within given limits.
    pub fn open_prepared_query_artifact_cursor_with_limits<C: EvidenceCodec>(
        &self,
        query: u64,
        bytes: &Vec<u8>,
        limits: GqlEvidenceLimits,
        auditor: &mut Auditor<C>,
    ) -> (cursor: Result<GqlEvidenceCursor, GqlEvidenceLimitedAuditError>)
        ensures
            opens(
                Subject::View { view: *self },
                query,
                bytes@,
                limits,
                old(auditor).log(),
                final(auditor).log(),
                cursor,
            ),
    {
        auditor.open(
            Authority::View { view: self },
            query,
            bytes,
            limits,
        )
    }

    /// Audit an artifact under this view's snapshot, then open a cursor at its start,
    /// with the default limits for untrusted input.
    pub fn open_untrusted_prepared_query_artifact_cursor<C: EvidenceCodec>(
        &self,
        query: u64,
        bytes: &Vec<u8>,
        auditor: &mut Auditor<C>,
    ) -> (cursor: Result<GqlEvidenceCursor, GqlEvidenceLimitedAuditError>)
        ensures
            opens(
                Subject::View { view: *self },
                query,
                bytes@,
                GqlEvidenceLimits::DefaultUntrusted,
                old(auditor).log(),
                final(auditor).log(),
                cursor,
            ),
    {
        self.open_prepared_query_artifact_cursor_with_limits(
            query,
            bytes,
            GqlEvidenceLimits::DefaultUntrusted,
            auditor,
        )
    }

    /// Decode a checkpoint, audit an artifact under this view's snapshot, then resume a
    /// cursor, within given limits.
    pub fn resume_prepared_query_artifact_cursor_with_limits<C: EvidenceCodec>(
        &self,
        query: u64,
        bytes: &Vec<u8>,
        limits: GqlEvidenceLimits,
        checkpoint: &Vec<u8>,
        auditor: &mut Auditor<C>,
    ) -> (cursor: Result<GqlEvidenceCursor, GqlEvidencePageAuditError>)
        ensures
            resumes(
                Subject::View { view: *self },
                query,
                bytes@,
                limits,
                checkpoint@,
                old(auditor).log(),
                final(auditor).log(),
                cursor,
            ),
    {
        auditor.resume(
            Authority::View { view: self },
            query,
            bytes,
            limits,
            checkpoint,
        )
    }

    /// Decode a checkpoint, audit an artifact under this view's snapshot, then resume a
    /// cursor, with the default limits for untrusted input.
    pub fn resume_untrusted_prepared_query_artifact_cursor<C: EvidenceCodec>(
        &self,
        query: u64,
        bytes: &Vec<u8>,
        checkpoint: &Vec<u8>,
        auditor: &mut Auditor<C>,
    ) -> (cursor: Result<GqlEvidenceCursor, GqlEvidencePageAuditError>)
        ensures
            resumes(
                Subject::View { view: *self },
                query,
                bytes@,
                GqlEvidenceLimits::DefaultUntrusted,
                checkpoint@,
                old(auditor).log(),
                final(auditor).log(),
                cursor,
            ),
    {
        self.resume_prepared_query_artifact_cursor_with_limits(
            query,
            bytes,
            GqlEvidenceLimits::DefaultUntrusted,
            checkpoint,
            auditor,
        )
    }
}

impl WriteTxn {
    /// Audit an artifact under this transaction's basis and staged effects, within
    /// given limits.
    pub fn audit_prepared_query_overlay_artifact_with_limits<C: EvidenceCodec>(
        &self,
        database: &Database,
        query: u64,
        bytes: &Vec<u8>,
        limits: GqlEvidenceLimits,
        auditor: &mut Auditor<C>,
    ) -> (audited: Result<Artifact, GqlEvidenceLimitedAuditError>)
        ensures
            audits(
                Subject::Overlay { transaction: *self, database: *database },
                query,
                bytes@,
                limits,
                old(auditor).log(),
                final(auditor).log(),
                audited,
            ),
    {
        auditor.audit(
            Authority::Overlay { transaction: self, database },
            query,
            bytes,
            limits,
        )
    }

    /// Audit an artifact under this transaction's basis and staged effects, with the
    /// default limits for untrusted input.
    pub fn audit_untrusted_prepared_query_overlay_artifact<C: EvidenceCodec>(
        &self,
        database: &Database,
        query: u64,
        bytes: &Vec<u8>,
        auditor: &mut Auditor<C>,
    ) -> (audited: Result<Artifact, GqlEvidenceLimitedAuditError>)
        ensures
            audits(
                Subject::Overlay { transaction: *self, database: *database },
                query,
                bytes@,
                GqlEvidenceLimits::DefaultUntrusted,
                old(auditor).log(),
                final(auditor).log(),
                audited,
            ),
    {
        self.audit_prepared_query_overlay_artifact_with_limits(
            database,
            query,
            bytes,
            GqlEvidenceLimits::DefaultUntrusted,
            auditor,
        )
    }

    /// Audit an artifact under this transaction's basis and staged effects, then cut a
    /// page, within given limits.
    pub fn audit_prepared_query_overlay_artifact_page_with_limits<C: EvidenceCodec>(
        &self,
        database: &Database,
        query: u64,
        bytes: &Vec<u8>,
        limits: GqlEvidenceLimits,
        page_size: u64,
        after: Option<&Vec<u8>>,
        auditor: &mut Auditor<C>,
    ) -> (page: Result<GqlEvidencePage, GqlEvidencePageAuditError>)
        ensures
            pages(
                Subject::Overlay { transaction: *self, database: *database },
                query,
                bytes@,
                limits,
                page_size,
                token_bytes(after),
                old(auditor).log(),
                final(auditor).log(),
                page,
            ),
    {
        auditor.page(
            Authority::Overlay { transaction: self, database },
            query,
            bytes,
            limits,
            page_size,
            after,
        )
    }

    /// Audit an artifact under this transaction's basis and staged effects, then cut a
    /// page, with the default limits for untrusted input.
    pub fn audit_untrusted_prepared_query_overlay_artifact_page<C: EvidenceCodec>(
        &self,
        database: &Database,
        query: u64,
        bytes: &Vec<u8>,
        page_size: u64,
        after: Option<&Vec<u8>>,
        auditor: &mut Auditor<C>,
    ) -> (page: Result<GqlEvidencePage, GqlEvidencePageAuditError>)
        ensures
            pages(
                Subject::Overlay { transaction: *self, database: *database },
                query,
                bytes@,
                GqlEvidenceLimits::DefaultUntrusted,
                page_size,
                token_bytes(after),
                old(auditor).log(),
                final(auditor).log(),
                page,
            ),
    {
        self.audit_prepared_query_overlay_artifact_page_with_limits(
            database,
            query,
            bytes,
            GqlEvidenceLimits::DefaultUntrusted,
            page_size,
            after,
            auditor,
        )
    }

    /// Audit an artifact under this transaction's basis and staged effects, then open a
    /// cursor at its start, within given limits.
    pub fn open_prepared_query_overlay_artifact_cursor_with_limits<C: EvidenceCodec>(
        &self,
        database: &Database,
        query: u64,
        bytes: &Vec<u8>,
        limits: GqlEvidenceLimits,
        auditor: &mut Auditor<C>,
    ) -> (cursor: Result<GqlEvidenceCursor, GqlEvidenceLimitedAuditError>)
        ensures
            opens(
                Subject::Overlay { transaction: *self, database: *database },
                query,
                bytes@,
                limits,
                old(auditor).log(),
                final(auditor).log(),
                cursor,
            ),
    {
        auditor.open(
            Authority::Overlay { transaction: self, database },
            query,
            bytes,
            limits,
        )
    }

    /// Audit an artifact under this transaction's basis and staged effects, then open a
    /// cursor at its start, with the default limits for untrusted input.
    pub fn open_untrusted_prepared_query_overlay_artifact_cursor<C: EvidenceCodec>(
        &self,
        database: &Database,
        query: u64,
        bytes: &Vec<u8>,
        auditor: &mut Auditor<C>,
    ) -> (cursor: Result<GqlEvidenceCursor, GqlEvidenceLimitedAuditError>)
        ensures
            opens(
                Subject::Overlay { transaction: *self, database: *database },
                query,
                bytes@,
                GqlEvidenceLimits::DefaultUntrusted,
                old(auditor).log(),
                final(auditor).log(),
                cursor,
            ),
    {
        self.open_prepared_query_overlay_artifact_cursor_with_limits(
            database,
            query,
            bytes,
            GqlEvidenceLimits::DefaultUntrusted,
            auditor,
        )
    }

    /// Decode a checkpoint, audit an artifact under this transaction's basis and staged
    /// effects, then resume a cursor, within given limits.
    pub fn resume_prepared_query_overlay_artifact_cursor_with_limits<C: EvidenceCodec>(
        &self,
        database: &Database,
        query: u64,
        bytes: &Vec<u8>,
        limits: GqlEvidenceLimits,
        checkpoint: &Vec<u8>,
        auditor: &mut Auditor<C>,
    ) -> (cursor: Result<GqlEvidenceCursor, GqlEvidencePageAuditError>)
        ensures
            resumes(
                Subject::Overlay { transaction: *self, database: *database },
                query,
                bytes@,
                limits,
                checkpoint@,
                old(auditor).log(),
                final(auditor).log(),
                cursor,
            ),
    {
        auditor.resume(
            Authority::Overlay { transaction: self, database },
            query,
            bytes,
            limits,
            checkpoint,
        )
    }

    /// Decode a checkpoint, audit an artifact under this transaction's basis and staged
    /// effects, then resume a cursor, with the default limits for untrusted input.
    pub fn resume_untrusted_prepared_query_overlay_artifact_cursor<C: EvidenceCodec>(
        &self,
        database: &Database,
        query: u64,
        bytes: &Vec<u8>,
        checkpoint: &Vec<u8>,
        auditor: &mut Auditor<C>,
    ) -> (cursor: Result<GqlEvidenceCursor, GqlEvidencePageAuditError>)
        ensures
            resumes(
                Subject::Overlay { transaction: *self, database: *database },
                query,
                bytes@,
                GqlEvidenceLimits::DefaultUntrusted,
                checkpoint@,
                old(auditor).log(),
                final(auditor).log(),
                cursor,
            ),
    {
        self.resume_prepared_query_overlay_artifact_cursor_with_limits(
            database,
            query,
            bytes,
            GqlEvidenceLimits::DefaultUntrusted,
            checkpoint,
            auditor,
        )
    }
}

/// A replay is preceded by resource admission: where the codec was asked to decode
/// and reproduce an artifact, it had admitted that artifact's size just before. What it
/// replays is what was asked for: an overlay with all of its staged effects.
pub proof fn law_admission_precedes_replay(
    subject: Subject,
    query: u64,
    bytes: Seq<u8>,
    limits: GqlEvidenceLimits,
    log: Seq<EvidenceStep>,
    log_after: Seq<EvidenceStep>,
    audited: Result<Artifact, GqlEvidenceLimitedAuditError>,
)
    requires
        audits(subject, query, bytes, limits, log, log_after, audited),
    ensures
        log_after.len() > log.len(),
        log_after[log.len() as int] matches EvidenceStep::Preflight { bytes: seen, .. } && seen
            == bytes,
        audited is Ok ==> log_after.len() == log.len() + 2,
        forall|i: int|
            log.len() <= i < log_after.len() && #[trigger] log_after[i] is Audit ==> i == log.len()
                + 1 && log_after[log.len() as int]->Preflight_answer is Ok
                && log_after[i]->Audit_subject == subject,
{
}

/// A checkpoint that does not decode is refused before any artifact is looked at.
pub proof fn law_bad_checkpoints_reach_no_artifact(
    subject: Subject,
    query: u64,
    bytes: Seq<u8>,
    limits: GqlEvidenceLimits,
    checkpoint: Seq<u8>,
    log: Seq<EvidenceStep>,
    log_after: Seq<EvidenceStep>,
    cursor: Result<GqlEvidenceCursor, GqlEvidencePageAuditError>,
)
    requires
        resumes(subject, query, bytes, limits, checkpoint, log, log_after, cursor),
    ensures
        log_after.len() > log.len(),
        log_after[log.len() as int] matches EvidenceStep::Decode { checkpoint: seen, .. } && seen
            == checkpoint,
        log_after[log.len() as int]->Decode_answer is Err ==> log_after.len() == log.len() + 1
            && cursor is Err,
{
    if exists|code: u64|
        log_after == #[trigger] log.push(
            EvidenceStep::Decode { checkpoint, answer: Err(code) },
        ) && cursor == Err::<GqlEvidenceCursor, GqlEvidencePageAuditError>(
            GqlEvidencePageAuditError::Page(GqlEvidencePageError::TokenDecode(code)),
        ) {
    } else if exists|token: GqlEvidencePageToken, error: GqlEvidenceLimitedAuditError|
        #[trigger] audits(
            subject,
            query,
            bytes,
            limits,
            #[trigger] log.push(EvidenceStep::Decode { checkpoint, answer: Ok(token) }),
            log_after,
            Err::<Artifact, GqlEvidenceLimitedAuditError>(error),
        ) && cursor == Err::<GqlEvidenceCursor, GqlEvidencePageAuditError>(
            GqlEvidencePageAuditError::Audit(error),
        ) {
        let (token, error) = choose|
            token: GqlEvidencePageToken,
            error: GqlEvidenceLimitedAuditError,
        |
            #[trigger] audits(
                subject,
                query,
                bytes,
                limits,
                #[trigger] log.push(EvidenceStep::Decode { checkpoint, answer: Ok(token) }),
                log_after,
                Err::<Artifact, GqlEvidenceLimitedAuditError>(error),
            ) && cursor == Err::<GqlEvidenceCursor, GqlEvidencePageAuditError>(
                GqlEvidencePageAuditError::Audit(error),
            );
        let opened = log.push(EvidenceStep::Decode { checkpoint, answer: Ok(token) });
        assert(opened[log.len() as int] == EvidenceStep::Decode { checkpoint, answer: Ok(token) });
        assert(log_after[log.len() as int] == opened[log.len() as int]);
    }
}

} // verus!
