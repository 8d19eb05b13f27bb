//! Durable publication, with a record of what was asked of it.

use vstd::prelude::*;
use crate::errors::WriteTxnError;
use crate::ids::CommitSeq;
use crate::txn::PreparedWrite;

verus! {

/// What a failed publication left behind.
#[derive(Clone, Copy, PartialEq, Eq, Structural, Debug)]
pub enum Fence {
    /// Nothing of the write is durable.
    Clear,
    /// The write may be durable.
    Unknown,
    /// The write is durable, but this handle could not take it in.
    Recovery,
}

/// What became of a durable publication.
#[derive(Clone, Copy, PartialEq, Eq, Structural, Debug)]
pub enum Publication {
    Durable,
    Failed { error: WriteTxnError, fence: Fence },
}

/// Durable publication. Nothing is promised of what it reports.
pub trait Publisher {
    /// Make a prepared write durable under a commit sequence.
    fn publish(&mut self, prepared: &PreparedWrite, commit_seq: CommitSeq) -> Publication;
}

/// One request to a publisher, with its report.
pub struct Requested {
    pub prepared: PreparedWrite,
    pub commit_seq: CommitSeq,
    pub report: Publication,
}

/// A publisher with a record of what it was asked.
pub struct PublisherRecord<P> {
    publisher: P,
    asked: Ghost<Seq<Requested>>,
}

impl<P: Publisher> PublisherRecord<P> {
    pub fn new(publisher: P) -> (record: PublisherRecord<P>)
        ensures
            record.behind() == publisher,
            record.asked() == Seq::<Requested>::empty(),
    {
        PublisherRecord { publisher, asked: Ghost(Seq::empty()) }
    }

    /// What was asked so far, in order.
    pub closed spec fn asked(&self) -> Seq<Requested> {
        self.asked@
    }

    /// The publisher behind the record.
    pub closed spec fn behind(&self) -> P {
        self.publisher
    }

    /// Look at the publisher.
    pub fn publisher(&self) -> (publisher: &P)
        ensures
            *publisher == self.behind(),
    {
        &self.publisher
    }

    /// Ask, and record the report.
    pub fn publish(&mut self, prepared: &PreparedWrite, commit_seq: CommitSeq) -> (report:
        Publication)
        ensures
            final(self).asked() == old(self).asked().push(
                Requested { prepared: *prepared, commit_seq, report },
            ),
    {
        let report = self.publisher.publish(prepared, commit_seq);
        proof {
            self.asked@ = self.asked@.push(Requested { prepared: *prepared, commit_seq, report });
        }
        report
    }
}

} // verus!
