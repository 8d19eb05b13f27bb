//! Selection of endpoint pairs, native or under a capability, with a record of what
//! was asked.

use vstd::prelude::*;
use crate::controls::Control;
use crate::database::Database;
use crate::edge_merge::Selection;
use crate::queries::Observations;
use crate::scope::Predicates;
use crate::selection::{SelectionError, SelectionSource};
use crate::statement::{Fault, QueryPolicy};
use crate::txn::WriteTxn;

verus! {

/// What a native selection handed back, and what it read.
pub struct SelectedPairs {
    pub selection: Selection,
    pub observed: Observations,
}

/// The native selection of endpoint pairs. Nothing is promised of its answer.
pub trait PairSelector {
    /// Run a prepared pattern under a native allowance.
    fn select(
        &mut self,
        pattern: u64,
        policy: QueryPolicy,
        transaction: &WriteTxn,
        database: &Database,
    ) -> Result<SelectedPairs, Fault>;
}

/// One question to a selector, with its answer.
pub struct Selecting {
    pub pattern: u64,
    pub policy: QueryPolicy,
    pub transaction: WriteTxn,
    pub database: Database,
    pub answer: Result<SelectedPairs, Fault>,
}

/// A selector with a record of what it was asked.
pub struct SelectorRecord<S> {
    selector: S,
    asked: Ghost<Seq<Selecting>>,
}

impl<S: PairSelector> SelectorRecord<S> {
    pub fn new(selector: S) -> (record: SelectorRecord<S>)
        ensures
            record.behind() == selector,
            record.asked() == Seq::<Selecting>::empty(),
    {
        SelectorRecord { selector, asked: Ghost(Seq::empty()) }
    }

    /// What was asked so far, in order.
    pub closed spec fn asked(&self) -> Seq<Selecting> {
        self.asked@
    }

    /// The selector behind the record.
    pub closed spec fn behind(&self) -> S {
        self.selector
    }

    /// Look at the selector.
    pub fn selector(&self) -> (selector: &S)
        ensures
            *selector == self.behind(),
    {
        &self.selector
    }

    /// Ask, and record the answer.
    pub fn select(
        &mut self,
        pattern: u64,
        policy: QueryPolicy,
        transaction: &WriteTxn,
        database: &Database,
    ) -> (answer: Result<SelectedPairs, Fault>)
        ensures
            final(self).asked() == old(self).asked().push(
                Selecting {
                    pattern,
                    policy,
                    transaction: *transaction,
                    database: *database,
                    answer,
                },
            ),
    {
        let answer = self.selector.select(pattern, policy, transaction, database);
        proof {
            self.asked@ = self.asked@.push(
                Selecting {
                    pattern,
                    policy,
                    transaction: *transaction,
                    database: *database,
                    answer,
                },
            );
        }
        answer
    }
}

/// What a selection under a capability called back, then what it selected or why it
/// did not.
pub struct Chosen {
    pub controls: Vec<Control>,
    pub outcome: Result<Selection, SelectionError>,
}

/// The selection of endpoint pairs under a capability. Nothing is promised of its
/// answer.
pub trait ScopedSelector {
    /// Run a prepared pattern over the source that was prepared for it, as far as the
    /// capability shows it.
    fn select(
        &mut self,
        pattern: u64,
        policy: QueryPolicy,
        source: &SelectionSource,
        scope: &Predicates,
        transaction: &WriteTxn,
        database: &Database,
    ) -> Chosen;
}

/// One question to a scoped selector, with its answer.
pub struct Choosing {
    pub pattern: u64,
    pub policy: QueryPolicy,
    pub source: SelectionSource,
    pub scope: Predicates,
    pub transaction: WriteTxn,
    pub database: Database,
    pub answer: Chosen,
}

/// A scoped selector with a record of what it was asked.
pub struct ScopedRecord<S> {
    selector: S,
    asked: Ghost<Seq<Choosing>>,
}

impl<S: ScopedSelector> ScopedRecord<S> {
    pub fn new(selector: S) -> (record: ScopedRecord<S>)
        ensures
            record.behind() == selector,
            record.asked() == Seq::<Choosing>::empty(),
    {
        ScopedRecord { selector, asked: Ghost(Seq::empty()) }
    }

    /// What was asked so far, in order.
    pub closed spec fn asked(&self) -> Seq<Choosing> {
        self.asked@
    }

    /// The selector behind the record.
    pub closed spec fn behind(&self) -> S {
        self.selector
    }

    /// Look at the selector.
    pub fn selector(&self) -> (selector: &S)
        ensures
            *selector == self.behind(),
    {
        &self.selector
    }

    /// Ask, and record the answer.
    pub fn select(
        &mut self,
        pattern: u64,
        policy: QueryPolicy,
        source: &SelectionSource,
        scope: &Predicates,
        transaction: &WriteTxn,
        database: &Database,
    ) -> (answer: Chosen)
        ensures
            final(self).asked() == old(self).asked().push(
                Choosing {
                    pattern,
                    policy,
                    source: *source,
                    scope: *scope,
                    transaction: *transaction,
                    database: *database,
                    answer,
                },
            ),
    {
        let answer = self.selector.select(pattern, policy, source, scope, transaction, database);
        proof {
            self.asked@ = self.asked@.push(
                Choosing {
                    pattern,
                    policy,
                    source: *source,
                    scope: *scope,
                    transaction: *transaction,
                    database: *database,
                    answer,
                },
            );
        }
        answer
    }
}

} // verus!
