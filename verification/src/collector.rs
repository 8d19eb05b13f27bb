//! Collectors of prepared statements, with a record of what they were asked.

use vstd::prelude::*;
use crate::authorized_program::StatementKind;
use crate::controls::Control;
use crate::database::Database;
use crate::draft::StepDraft;
use crate::scope::Predicates;
use crate::selection::{SelectionError, SelectionSource};
use crate::session::IdentityKind;
use crate::statement::{QueryPolicy, StatementStats};
use crate::txn::WriteTxn;

verus! {

/// What a caller asks to have run: which prepared statement it is to the collector,
/// whether its pattern reads edges, its native allowance, and how much it may create.
#[derive(Clone, Copy, PartialEq, Eq, Structural, Debug)]
pub struct Statement {
    pub id: u64,
    pub reads_edges: bool,
    pub policy: QueryPolicy,
    pub max_vertices: u64,
    pub max_edges: u64,
}

/// A statement of a known kind.
#[derive(Clone, Copy, PartialEq, Eq, Structural, Debug)]
pub struct Prepared {
    pub kind: StatementKind,
    pub statement: Statement,
}

/// What a collector froze of one statement, and what that took.
pub struct Proposed {
    pub draft: StepDraft,
    pub stats: StatementStats,
}

/// One thing that a collector calls back: a control, or a request for an identity.
#[derive(Clone, Copy, PartialEq, Eq, Structural, Debug)]
pub enum Callback {
    Control(Control),
    Issue(IdentityKind),
}

/// What came of collecting one statement: the callbacks in order, then the proposal or
/// why there is none.
pub struct Collected {
    pub callbacks: Vec<Callback>,
    pub outcome: Result<Proposed, SelectionError>,
}

/// Selection and evaluation of prepared statements. Nothing is promised of what it
/// proposes.
pub trait Collector {
    /// Freeze a statement over the source that was prepared for it, as far as the
    /// capability shows it. A standalone creation has no source.
    fn propose(
        &mut self,
        index: usize,
        prepared: &Prepared,
        source: &Option<SelectionSource>,
        scope: &Predicates,
        transaction: &WriteTxn,
        database: &Database,
    ) -> Collected;
}

/// One question to a collector, with its answer.
pub struct Asked {
    pub index: int,
    pub prepared: Prepared,
    pub source: Option<SelectionSource>,
    pub scope: Predicates,
    pub transaction: WriteTxn,
    pub database: Database,
    pub answer: Collected,
}

/// A collector with a record of what it was asked.
pub struct Recorder<C> {
    collector: C,
    asked: Ghost<Seq<Asked>>,
}

impl<C: Collector> Recorder<C> {
    pub fn new(collector: C) -> (recorder: Recorder<C>)
        ensures
            recorder.behind() == collector,
            recorder.asked() == Seq::<Asked>::empty(),
    {
        Recorder { collector, asked: Ghost(Seq::empty()) }
    }

    /// What was asked so far, in order.
    pub closed spec fn asked(&self) -> Seq<Asked> {
        self.asked@
    }

    /// The collector behind the record.
    pub closed spec fn behind(&self) -> C {
        self.collector
    }

    /// Look at the collector.
    pub fn collector(&self) -> (collector: &C)
        ensures
            *collector == self.behind(),
    {
        &self.collector
    }

    /// Ask, and record the answer.
    pub fn propose(
        &mut self,
        index: usize,
        prepared: &Prepared,
        source: &Option<SelectionSource>,
        scope: &Predicates,
        transaction: &WriteTxn,
        database: &Database,
    ) -> (answer: Collected)
        ensures
            final(self).asked() == old(self).asked().push(
                Asked {
                    index: index as int,
                    prepared: *prepared,
                    source: *source,
                    scope: *scope,
                    transaction: *transaction,
                    database: *database,
                    answer,
                },
            ),
    {
        let answer = self.collector.propose(index, prepared, source, scope, transaction, database);
        proof {
            self.asked@ = self.asked@.push(
                Asked {
                    index: index as int,
                    prepared: *prepared,
                    source: *source,
                    scope: *scope,
                    transaction: *transaction,
                    database: *database,
                    answer,
                },
            );
        }
        answer
    }
}

} // verus!
