//! The search engines, with a record of what they were asked.

use vstd::prelude::*;
use crate::beacon::BeaconError;
use crate::beacon_corpus::Corpus;
use crate::beacon_overlay::{Overlay, OverlayView};
use crate::ids::{RelationId, VId};

verus! {

/// The graph lane of a search.
pub struct Expansion {
    pub relation: Option<RelationId>,
    pub seeds: Vec<VId>,
    pub max_hops: u64,
    pub max_seed_ids: u64,
}

/// One result of a search. The score is the bit pattern of its floating value, and
/// the hops are those from the nearest seed where the graph lane reached the vertex.
#[derive(Clone, Copy, PartialEq, Eq, Structural, Debug)]
pub struct Hit {
    pub vertex: VId,
    pub score_bits: u64,
    pub hops: Option<u64>,
}

/// What an engine answers: what it charged to the allowance of the search, in order,
/// and what came of it. An outcome counts once its charges are paid.
pub struct Worked<T> {
    pub charges: Vec<u64>,
    pub outcome: Result<T, BeaconError>,
}

/// The text, vector and fusion engines. Nothing is promised of the answers.
pub trait SearchEngine {
    /// Validate the query. The most documents that its index admits come back.
    fn validate(&mut self) -> Worked<u64>;

    /// Project one selected document and index it.
    fn project(&mut self, document: VId, row: &Overlay) -> Worked<()>;

    /// Evaluate the query over the indexed documents, with the incidences that the
    /// corpus emitted. A disabled graph lane is no lane.
    fn evaluate(
        &mut self,
        corpus: &Corpus,
        documents: &Vec<VId>,
        lane: Option<&Expansion>,
    ) -> Worked<Vec<Hit>>;
}

/// One question to the engines, with its answer.
#[allow(inconsistent_fields)]
pub enum EngineStep {
    Validate { answer: Worked<u64> },
    Project { document: VId, row: OverlayView, answer: Worked<()> },
    Evaluate {
        corpus: Corpus,
        documents: Seq<VId>,
        lane: Option<Expansion>,
        answer: Worked<Vec<Hit>>,
    },
}

/// The graph lane behind a borrowed one.
pub open spec fn lane_of(expansion: Option<&Expansion>) -> Option<Expansion> {
    match expansion {
        Some(lane) => Some(*lane),
        None => None,
    }
}

/// The engines with a record of what they were asked.
pub struct EngineRecord<E> {
    engine: E,
    asked: Ghost<Seq<EngineStep>>,
}

impl<E: SearchEngine> EngineRecord<E> {
    pub fn new(engine: E) -> (record: EngineRecord<E>)
        ensures
            record.behind() == engine,
            record.asked() == Seq::<EngineStep>::empty(),
    {
        EngineRecord { engine, asked: Ghost(Seq::empty()) }
    }

    /// What was asked so far, in order.
    pub closed spec fn asked(&self) -> Seq<EngineStep> {
        self.asked@
    }

    /// The engines behind the record.
    pub closed spec fn behind(&self) -> E {
        self.engine
    }

    /// Look at the engines.
    pub fn engine(&self) -> (engine: &E)
        ensures
            *engine == self.behind(),
    {
        &self.engine
    }

    /// Have the query validated, and record the answer.
    pub fn validate(&mut self) -> (answer: Worked<u64>)
        ensures
            final(self).asked() == old(self).asked().push(EngineStep::Validate { answer }),
    {
        let answer = self.engine.validate();
        proof {
            self.asked@ = self.asked@.push(EngineStep::Validate { answer });
        }
        answer
    }

    /// Have one document projected, and record the answer.
    pub fn project(&mut self, document: VId, row: &Overlay) -> (answer: Worked<()>)
        ensures
            final(self).asked() == old(self).asked().push(
                EngineStep::Project { document, row: row@, answer },
            ),
    {
        let answer = self.engine.project(document, row);
        proof {
            self.asked@ = self.asked@.push(EngineStep::Project { document, row: row@, answer });
        }
        answer
    }

    /// Have the query evaluated, and record the answer.
    pub fn evaluate(
        &mut self,
        corpus: &Corpus,
        documents: &Vec<VId>,
        lane: Option<&Expansion>,
    ) -> (answer: Worked<Vec<Hit>>)
        ensures
            final(self).asked() == old(self).asked().push(
                EngineStep::Evaluate {
                    corpus: *corpus,
                    documents: documents@,
                    lane: lane_of(lane),
                    answer,
                },
            ),
    {
        let answer = self.engine.evaluate(corpus, documents, lane);
        proof {
            self.asked@ = self.asked@.push(
                EngineStep::Evaluate {
                    corpus: *corpus,
                    documents: documents@,
                    lane: lane_of(lane),
                    answer,
                },
            );
        }
        answer
    }
}

} // verus!
