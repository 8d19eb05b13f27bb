//! Read-your-own-writes retrieval: the shared allowance of one search.

use vstd::prelude::*;
use crate::errors::WriteTxnError;
use crate::plan::{
    ask, demand, failure, go, lemma_obeys_and, lemma_obeys_ask, lemma_obeys_failed,
    lemma_obeys_nothing, lemma_obeys_stop, lemma_step, obeys, stop, upto, whole, Plan,
};
use crate::session::{Host, Request, Session};

verus! {

/// What a search ran out of.
#[derive(Clone, Copy, PartialEq, Eq, Structural, Debug)]
pub enum SearchResource {
    SourceScratch,
    ExpansionScratch,
    StagedVertices,
    ExpansionSeeds,
}

/// Why a query cannot be answered here.
#[derive(Clone, Copy, PartialEq, Eq, Structural, Debug)]
pub enum InvalidQuery {
    /// The query names a snapshot other than the pinned basis.
    ForeignBasis,
    /// The prepared writes change the schema.
    SchemaChanged,
    /// Refused by the index.
    Rejected(u64),
}

/// A refusal inside a search.
#[derive(Clone, Copy, PartialEq, Eq, Structural, Debug)]
pub enum BeaconError {
    Cancelled,
    WorkBudgetExceeded,
    ResourceLimit { resource: SearchResource, limit: u64 },
    InvalidQuery(InvalidQuery),
}

/// A refusal by a search.
#[derive(Clone, Copy, PartialEq, Eq, Structural, Debug)]
pub enum ReadError {
    Interrupted(WriteTxnError),
    Read(WriteTxnError),
    Index(BeaconError),
}

/// The ceilings of one search.
#[derive(Clone, Copy, PartialEq, Eq, Structural, Debug)]
pub struct SearchLimits {
    pub max_source_scratch: u64,
    pub max_expansion_scratch: u64,
}

/// What is left of the work allowance, and the scratch entries admitted so far.
#[derive(Clone, Copy, PartialEq, Eq, Structural, Debug)]
pub struct Meter {
    pub remaining: u64,
    pub scratch: u64,
    pub expansion: u64,
}

/// All admissions of a search, including new read witnesses, use one allowance.
pub struct Control {
    pub meter: Meter,
    pub limits: SearchLimits,
    pub interrupted: Option<WriteTxnError>,
}

/// A cancelled search reports that alone. The cause is kept aside.
pub open spec fn cancelled() -> spec_fn(WriteTxnError) -> BeaconError {
    |error: WriteTxnError| BeaconError::Cancelled
}

/// Poll, then pay units of work.
pub open spec fn charge_plan(meter: Meter, units: u64) -> Plan<BeaconError> {
    ask::<BeaconError>(seq![Request::PollQuery]).and(
        demand(units <= meter.remaining, BeaconError::WorkBudgetExceeded),
    )
}

/// The meter after units of work.
pub open spec fn charged(meter: Meter, units: u64) -> Meter {
    Meter { remaining: (meter.remaining - units) as u64, ..meter }
}

/// The meter after the first `n` charges of an engine.
pub open spec fn drained(meter: Meter, charges: Seq<u64>, n: int) -> Meter
    decreases n,
{
    if n <= 0 {
        meter
    } else {
        charged(drained(meter, charges, n - 1), charges[n - 1])
    }
}

/// Each charge of an engine polls and pays, in order.
pub open spec fn engine_steps(meter: Meter, charges: Seq<u64>) -> Seq<Plan<BeaconError>> {
    Seq::new(charges.len(), |i: int| charge_plan(drained(meter, charges, i), charges[i]))
}

/// Pay what an engine charged, then take its outcome.
pub open spec fn engine_plan(meter: Meter, charges: Seq<u64>, failed: Option<BeaconError>) -> Plan<
    BeaconError,
> {
    whole(engine_steps(meter, charges)).and(
        match failed {
            Some(error) => stop(error),
            None => go(),
        },
    )
}

/// Pay one unit and admit one scratch entry.
pub open spec fn scratch_plan(meter: Meter, limits: SearchLimits) -> Plan<BeaconError> {
    charge_plan(meter, 1).and(
        demand(
            meter.scratch != limits.max_source_scratch,
            BeaconError::ResourceLimit {
                resource: SearchResource::SourceScratch,
                limit: limits.max_source_scratch,
            },
        ),
    )
}

/// The meter after one scratch entry.
pub open spec fn scratched(meter: Meter) -> Meter {
    Meter { scratch: (meter.scratch + 1) as u64, ..charged(meter, 1) }
}

/// Admit one scratch entry that also counts against the graph's own ceiling.
pub open spec fn expansion_plan(meter: Meter, limits: SearchLimits) -> Plan<BeaconError> {
    scratch_plan(meter, limits).and(
        demand(
            meter.expansion != limits.max_expansion_scratch,
            BeaconError::ResourceLimit {
                resource: SearchResource::ExpansionScratch,
                limit: limits.max_expansion_scratch,
            },
        ),
    )
}

/// The meter after one scratch entry of the graph.
pub open spec fn expanded(meter: Meter) -> Meter {
    Meter { expansion: (meter.expansion + 1) as u64, ..scratched(meter) }
}

impl Control {
    /// Neither ceiling is exceeded.
    pub open spec fn wf(&self) -> bool {
        &&& self.meter.scratch <= self.limits.max_source_scratch
        &&& self.meter.expansion <= self.limits.max_expansion_scratch
    }

    pub fn new(max_work_units: u64, limits: SearchLimits) -> (control: Control)
        ensures
            control.wf(),
            control.meter == (Meter { remaining: max_work_units, scratch: 0, expansion: 0 }),
            control.limits == limits,
            control.interrupted is None,
    {
        Control {
            meter: Meter { remaining: max_work_units, scratch: 0, expansion: 0 },
            limits,
            interrupted: None,
        }
    }

    /// Poll, then pay units of work. An interrupted search stays interrupted and
    /// asks nothing more.
    pub fn charge<H: Host>(&mut self, units: u64, session: &mut Session<H>) -> (paid: Result<
        (),
        BeaconError,
    >)
        requires
            old(self).wf(),
        ensures
            final(self).wf(),
            final(self).limits == old(self).limits,
            final(session).metered() == old(session).metered(),
            old(self).interrupted is Some ==> paid == Err::<(), BeaconError>(BeaconError::Cancelled)
                && *final(self) == *old(self) && final(session).log() == old(session).log(),
            old(self).interrupted is None ==> {
                &&& obeys(
                    old(session).log(),
                    final(session).log(),
                    charge_plan(old(self).meter, units),
                    cancelled(),
                    failure(paid),
                )
                &&& final(self).interrupted == crate::session::refused(
                    old(session).log(),
                    final(session).log(),
                )
                &&& final(self).meter == (if paid is Ok {
                    charged(old(self).meter, units)
                } else {
                    old(self).meter
                })
            },
    {
        if self.interrupted.is_some() {
            return Err(BeaconError::Cancelled);
        }
        let ghost start = session.log();
        let ghost meter = self.meter;
        let ghost rest = demand(units <= meter.remaining, BeaconError::WorkBudgetExceeded);
        let polled = session.poll_query();
        let ghost middle = session.log();
        proof {
            lemma_obeys_ask(start, middle, seq![Request::PollQuery], cancelled());
        }
        if let Err(error) = polled {
            self.interrupted = Some(error);
            proof {
                lemma_obeys_failed(
                    start,
                    middle,
                    ask(seq![Request::PollQuery]),
                    rest,
                    cancelled(),
                    Some(BeaconError::Cancelled),
                );
            }
            return Err(BeaconError::Cancelled);
        }
        let paid = if units > self.meter.remaining {
            Err(BeaconError::WorkBudgetExceeded)
        } else {
            self.meter.remaining = self.meter.remaining - units;
            Ok(())
        };
        proof {
            lemma_obeys_nothing(middle, cancelled());
            lemma_obeys_stop(middle, cancelled(), BeaconError::WorkBudgetExceeded);
            lemma_obeys_and(
                start,
                middle,
                middle,
                ask(seq![Request::PollQuery]),
                rest,
                cancelled(),
                failure(paid),
            );
        }
        paid
    }

    /// Pay what an engine charged, then take its outcome.
    pub fn pay_engine<H: Host>(
        &mut self,
        charges: &Vec<u64>,
        stopped: Option<BeaconError>,
        session: &mut Session<H>,
    ) -> (paid: Result<(), BeaconError>)
        requires
            old(self).wf(),
            old(self).interrupted is None,
        ensures
            final(self).wf(),
            final(self).limits == old(self).limits,
            final(session).metered() == old(session).metered(),
            obeys(
                old(session).log(),
                final(session).log(),
                engine_plan(old(self).meter, charges@, stopped),
                cancelled(),
                failure(paid),
            ),
            final(self).interrupted == crate::session::refused(
                old(session).log(),
                final(session).log(),
            ),
            paid is Ok ==> final(self).meter == drained(
                old(self).meter,
                charges@,
                charges@.len() as int,
            ),
            paid is Ok ==> final(self).interrupted is None,
    {
        let ghost start = session.log();
        let ghost meter = self.meter;
        let ghost steps = engine_steps(meter, charges@);
        let ghost last: Plan<BeaconError> = match stopped {
            Some(error) => stop(error),
            None => go(),
        };
        proof {
            lemma_obeys_nothing(start, cancelled());
            crate::session::lemma_ran_nothing(start);
        }
        let mut i: usize = 0;
        while i < charges.len()
            invariant
                i <= charges.len(),
                start == old(session).log(),
                meter == old(self).meter,
                steps == engine_steps(meter, charges@),
                last == (match stopped {
                    Some(error) => stop::<BeaconError>(error),
                    None => go(),
                }),
                self.wf(),
                self.limits == old(self).limits,
                self.interrupted is None,
                self.meter == drained(meter, charges@, i as int),
                session.metered() == old(session).metered(),
                crate::session::ran(start, session.log()),
                crate::session::refused(start, session.log()) is None,
                obeys(start, session.log(), upto(steps, i as int), cancelled(), None),
            decreases charges.len() - i,
        {
            let ghost middle = session.log();
            let paid = self.charge(charges[i], session);
            proof {
                lemma_step(
                    start, middle, session.log(), steps, i as int, cancelled(), failure(paid),
                );
                crate::session::lemma_ran_compose(start, middle, session.log());
            }
            if let Err(error) = paid {
                proof {
                    lemma_obeys_failed(
                        start, session.log(), whole(steps), last, cancelled(), Some(error),
                    );
                }
                return Err(error);
            }
            i += 1;
        }
        proof {
            lemma_obeys_nothing(session.log(), cancelled());
            if let Some(error) = stopped {
                lemma_obeys_stop(session.log(), cancelled(), error);
            }
            lemma_obeys_and(
                start, session.log(), session.log(), whole(steps), last, cancelled(), stopped,
            );
        }
        match stopped {
            Some(error) => Err(error),
            None => Ok(()),
        }
    }

    /// Admit one scratch entry. A refused entry leaves the counters at most one
    /// unit of work lower.
    pub fn scratch<H: Host>(&mut self, session: &mut Session<H>) -> (admitted: Result<
        (),
        BeaconError,
    >)
        requires
            old(self).wf(),
            old(self).interrupted is None,
        ensures
            final(self).wf(),
            final(self).limits == old(self).limits,
            final(session).metered() == old(session).metered(),
            obeys(
                old(session).log(),
                final(session).log(),
                scratch_plan(old(self).meter, old(self).limits),
                cancelled(),
                failure(admitted),
            ),
            final(self).interrupted == crate::session::refused(
                old(session).log(),
                final(session).log(),
            ),
            admitted is Ok ==> final(self).meter == scratched(old(self).meter),
    {
        let ghost start = session.log();
        let ghost meter = self.meter;
        let ghost limits = self.limits;
        let limit: u64 = self.limits.max_source_scratch;
        let excess = BeaconError::ResourceLimit { resource: SearchResource::SourceScratch, limit };
        let ghost rest = demand(meter.scratch != limit, excess);
        let paid = self.charge(1, session);
        let ghost middle = session.log();
        if let Err(error) = paid {
            proof {
                lemma_obeys_failed(
                    start,
                    middle,
                    charge_plan(meter, 1),
                    rest,
                    cancelled(),
                    Some(error),
                );
            }
            return Err(error);
        }
        let admitted = if self.meter.scratch == limit {
            Err(excess)
        } else {
            self.meter.scratch = self.meter.scratch + 1;
            Ok(())
        };
        proof {
            lemma_obeys_nothing(middle, cancelled());
            lemma_obeys_stop(middle, cancelled(), excess);
            lemma_obeys_and(
                start,
                middle,
                middle,
                charge_plan(meter, 1),
                rest,
                cancelled(),
                failure(admitted),
            );
        }
        admitted
    }

    /// Admit one scratch entry of the graph.
    pub fn expansion<H: Host>(&mut self, session: &mut Session<H>) -> (admitted: Result<
        (),
        BeaconError,
    >)
        requires
            old(self).wf(),
            old(self).interrupted is None,
        ensures
            final(self).wf(),
            final(self).limits == old(self).limits,
            final(session).metered() == old(session).metered(),
            obeys(
                old(session).log(),
                final(session).log(),
                expansion_plan(old(self).meter, old(self).limits),
                cancelled(),
                failure(admitted),
            ),
            final(self).interrupted == crate::session::refused(
                old(session).log(),
                final(session).log(),
            ),
            admitted is Ok ==> final(self).meter == expanded(old(self).meter),
    {
        let ghost start = session.log();
        let ghost meter = self.meter;
        let ghost limits = self.limits;
        let limit: u64 = self.limits.max_expansion_scratch;
        let excess = BeaconError::ResourceLimit {
            resource: SearchResource::ExpansionScratch,
            limit,
        };
        let ghost rest = demand(meter.expansion != limit, excess);
        let paid = self.scratch(session);
        let ghost middle = session.log();
        if let Err(error) = paid {
            proof {
                lemma_obeys_failed(
                    start,
                    middle,
                    scratch_plan(meter, limits),
                    rest,
                    cancelled(),
                    Some(error),
                );
            }
            return Err(error);
        }
        let admitted = if self.meter.expansion == limit {
            Err(excess)
        } else {
            self.meter.expansion = self.meter.expansion + 1;
            Ok(())
        };
        proof {
            lemma_obeys_nothing(middle, cancelled());
            lemma_obeys_stop(middle, cancelled(), excess);
            lemma_obeys_and(
                start,
                middle,
                middle,
                scratch_plan(meter, limits),
                rest,
                cancelled(),
                failure(admitted),
            );
        }
        admitted
    }

    /// What the search reports: the cause of its cancellation, or its own result.
    pub fn settle<T>(&self, result: Result<T, BeaconError>) -> (reported: Result<T, ReadError>)
        ensures
            match self.interrupted {
                Some(error) => reported == Err::<T, ReadError>(ReadError::Interrupted(error)),
                None => match result {
                    Ok(value) => reported == Ok::<T, ReadError>(value),
                    Err(error) => reported == Err::<T, ReadError>(ReadError::Index(error)),
                },
            },
    {
        match self.interrupted {
            Some(error) => Err(ReadError::Interrupted(error)),
            None => match result {
                Ok(value) => Ok(value),
                Err(error) => Err(ReadError::Index(error)),
            },
        }
    }
}

} // verus!
