//! Evaluation of graph queries over the overlay, with a record of what was asked.

use vstd::prelude::*;
use crate::database::Database;
use crate::queries::Observations;
use crate::statement::{Fault, GlaExecutionEvent, QueryPolicy, QueryStats};
use crate::txn::WriteTxn;

verus! {

/// A finished evaluation: its rows by identity, and what it used.
pub struct QueryExecution {
    pub rows: Vec<u128>,
    pub stats: QueryStats,
}

/// The source of a summary: what admitting it charges, and what it observed.
pub struct AggregateSource {
    pub admission: Vec<GlaExecutionEvent>,
    pub observed: Observations,
}

/// What a set query's evaluator answers: what each operand observed, in order, and
/// the result.
pub struct SetRun {
    pub operands: Vec<Observations>,
    pub evaluated: Result<QueryExecution, Fault>,
}

/// The evaluation of graph queries. Nothing is promised of its answers.
pub trait GraphEvaluator {
    /// Read the source of a summary.
    fn source(&mut self, transaction: &WriteTxn, database: &Database) -> AggregateSource;

    /// Summarize the admitted source under what admission left of the allowance.
    fn summarize(
        &mut self,
        transaction: &WriteTxn,
        database: &Database,
        policy: QueryPolicy,
        used: QueryStats,
    ) -> Result<QueryExecution, Fault>;

    /// Evaluate the operands of a set query, and combine them.
    fn combine(
        &mut self,
        transaction: &WriteTxn,
        database: &Database,
        policy: QueryPolicy,
    ) -> SetRun;
}

/// One question to an evaluator, with its answer.
pub enum Evaluating {
    Source { transaction: WriteTxn, database: Database, read: AggregateSource },
    Summary {
        transaction: WriteTxn,
        database: Database,
        policy: QueryPolicy,
        used: QueryStats,
        summary: Result<QueryExecution, Fault>,
    },
    Combine { transaction: WriteTxn, database: Database, policy: QueryPolicy, combined: SetRun },
}

/// An evaluator with a record of what it was asked.
pub struct EvaluatorRecord<E> {
    evaluator: E,
    asked: Ghost<Seq<Evaluating>>,
}

impl<E: GraphEvaluator> EvaluatorRecord<E> {
    pub fn new(evaluator: E) -> (record: EvaluatorRecord<E>)
        ensures
            record.behind() == evaluator,
            record.asked() == Seq::<Evaluating>::empty(),
    {
        EvaluatorRecord { evaluator, asked: Ghost(Seq::empty()) }
    }

    /// What was asked so far, in order.
    pub closed spec fn asked(&self) -> Seq<Evaluating> {
        self.asked@
    }

    /// The evaluator behind the record.
    pub closed spec fn behind(&self) -> E {
        self.evaluator
    }

    /// Look at the evaluator.
    pub fn evaluator(&self) -> (evaluator: &E)
        ensures
            *evaluator == self.behind(),
    {
        &self.evaluator
    }

    /// Read a source, and record the answer.
    pub fn source(&mut self, transaction: &WriteTxn, database: &Database) -> (answer:
        AggregateSource)
        ensures
            final(self).asked() == old(self).asked().push(
                Evaluating::Source {
                    transaction: *transaction,
                    database: *database,
                    read: answer,
                },
            ),
    {
        let answer = self.evaluator.source(transaction, database);
        proof {
            self.asked@ = self.asked@.push(
                Evaluating::Source {
                    transaction: *transaction,
                    database: *database,
                    read: answer,
                },
            );
        }
        answer
    }

    /// Summarize a source, and record the answer.
    pub fn summarize(
        &mut self,
        transaction: &WriteTxn,
        database: &Database,
        policy: QueryPolicy,
        used: QueryStats,
    ) -> (answer: Result<QueryExecution, Fault>)
        ensures
            final(self).asked() == old(self).asked().push(
                Evaluating::Summary {
                    transaction: *transaction,
                    database: *database,
                    policy,
                    used,
                    summary: answer,
                },
            ),
    {
        let answer = self.evaluator.summarize(transaction, database, policy, used);
        proof {
            self.asked@ = self.asked@.push(
                Evaluating::Summary {
                    transaction: *transaction,
                    database: *database,
                    policy,
                    used,
                    summary: answer,
                },
            );
        }
        answer
    }

    /// Combine operands, and record the answer.
    pub fn combine(
        &mut self,
        transaction: &WriteTxn,
        database: &Database,
        policy: QueryPolicy,
    ) -> (answer: SetRun)
        ensures
            final(self).asked() == old(self).asked().push(
                Evaluating::Combine {
                    transaction: *transaction,
                    database: *database,
                    policy,
                    combined: answer,
                },
            ),
    {
        let answer = self.evaluator.combine(transaction, database, policy);
        proof {
            self.asked@ = self.asked@.push(
                Evaluating::Combine {
                    transaction: *transaction,
                    database: *database,
                    policy,
                    combined: answer,
                },
            );
        }
        answer
    }
}

} // verus!
