//! Executors of native statements and programs, with a record of what they were asked.

use vstd::prelude::*;
use crate::batch::WriteBatch;
use crate::collector::Prepared;
use crate::database::Database;
use crate::queries::Observations;
use crate::statement::Fault;
use crate::txn::WriteTxn;

verus! {

/// What an executor read, and what it has a transaction stage before its receipt
/// may escape.
pub struct Executed<T> {
    pub observed: Observations,
    pub effects: Result<(Vec<WriteBatch>, T), Fault>,
}

/// Selection, evaluation and identity issue of one prepared statement or program.
/// Nothing is promised of what it answers.
pub trait Executor<T> {
    /// Execute prepared statements, one or a program, with or without receipts.
    fn execute(
        &mut self,
        statements: &Vec<Prepared>,
        returning: bool,
        transaction: &WriteTxn,
        database: &Database,
    ) -> Executed<T>;
}

/// One question to an executor, with its answer.
#[verifier::reject_recursive_types(T)]
pub struct Executing<T> {
    pub statements: Seq<Prepared>,
    pub returning: bool,
    pub transaction: WriteTxn,
    pub database: Database,
    pub answer: Executed<T>,
}

/// An executor with a record of what it was asked.
#[verifier::reject_recursive_types(T)]
pub struct ExecutorRecord<T, E> {
    executor: E,
    asked: Ghost<Seq<Executing<T>>>,
}

impl<T, E: Executor<T>> ExecutorRecord<T, E> {
    pub fn new(executor: E) -> (record: ExecutorRecord<T, E>)
        ensures
            record.behind() == executor,
            record.asked() == Seq::<Executing<T>>::empty(),
    {
        ExecutorRecord { executor, asked: Ghost(Seq::empty()) }
    }

    /// What was asked so far, in order.
    pub closed spec fn asked(&self) -> Seq<Executing<T>> {
        self.asked@
    }

    /// The executor behind the record.
    pub closed spec fn behind(&self) -> E {
        self.executor
    }

    /// Look at the executor.
    pub fn executor(&self) -> (executor: &E)
        ensures
            *executor == self.behind(),
    {
        &self.executor
    }

    /// Ask, and record the answer.
    pub fn execute(
        &mut self,
        statements: &Vec<Prepared>,
        returning: bool,
        transaction: &WriteTxn,
        database: &Database,
    ) -> (answer: Executed<T>)
        ensures
            final(self).asked() == old(self).asked().push(
                Executing {
                    statements: statements@,
                    returning,
                    transaction: *transaction,
                    database: *database,
                    answer,
                },
            ),
    {
        let answer = self.executor.execute(statements, returning, transaction, database);
        proof {
            self.asked@ = self.asked@.push(
                Executing {
                    statements: statements@,
                    returning,
                    transaction: *transaction,
                    database: *database,
                    answer,
                },
            );
        }
        answer
    }
}

} // verus!
