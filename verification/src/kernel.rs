//! The row and topology kernels behind standing views, with a record of what they
//! were asked.

use vstd::prelude::*;
use crate::database::Database;
use crate::ids::{CommitSeq, RelationId};
use crate::standing_triangles::{TriangleChange, TriangleQuantifier, TriangleView};
use crate::standing_window::{RowWindowPage, RowWindowSpec};
use crate::zset::ZSet;

verus! {

/// Page selection and triangle counting. Nothing is promised of the answers.
pub trait ViewKernel {
    /// Judge the order of a window against the columns of its parent. A defect comes
    /// back by its number.
    fn validate(&mut self, spec: &RowWindowSpec) -> Option<u64>;

    /// Select the page of a window from the rows of its parent.
    fn page(&mut self, source: &ZSet<u128>, spec: &RowWindowSpec) -> RowWindowPage;

    /// Count the triangles of a relation's current topology.
    fn triangles(
        &mut self,
        database: &Database,
        relation: RelationId,
        quantifier: TriangleQuantifier,
    ) -> TriangleChange;

    /// Count what one commit changes in the triangles of a view.
    fn change(&mut self, view: &TriangleView, at: CommitSeq) -> TriangleChange;
}

/// One question to a kernel, with its answer.
pub enum KernelStep {
    Validate { spec: RowWindowSpec, invalid: Option<u64> },
    Page { source: ZSet<u128>, spec: RowWindowSpec, page: RowWindowPage },
    Triangles {
        database: Database,
        relation: RelationId,
        quantifier: TriangleQuantifier,
        counted: TriangleChange,
    },
    Change { view: TriangleView, at: CommitSeq, change: TriangleChange },
}

/// A kernel with a record of what it was asked.
pub struct KernelRecord<K> {
    kernel: K,
    asked: Ghost<Seq<KernelStep>>,
}

impl<K: ViewKernel> KernelRecord<K> {
    pub fn new(kernel: K) -> (record: KernelRecord<K>)
        ensures
            record.behind() == kernel,
            record.asked() == Seq::<KernelStep>::empty(),
    {
        KernelRecord { kernel, asked: Ghost(Seq::empty()) }
    }

    /// What was asked so far, in order.
    pub closed spec fn asked(&self) -> Seq<KernelStep> {
        self.asked@
    }

    /// The kernel behind the record.
    pub closed spec fn behind(&self) -> K {
        self.kernel
    }

    /// Look at the kernel.
    pub fn kernel(&self) -> (kernel: &K)
        ensures
            *kernel == self.behind(),
    {
        &self.kernel
    }

    /// Judge a window, and record the answer.
    pub fn validate(&mut self, spec: &RowWindowSpec) -> (invalid: Option<u64>)
        ensures
            final(self).asked() == old(self).asked().push(
                KernelStep::Validate { spec: *spec, invalid },
            ),
    {
        let invalid = self.kernel.validate(spec);
        proof {
            self.asked@ = self.asked@.push(KernelStep::Validate { spec: *spec, invalid });
        }
        invalid
    }

    /// Select a page, and record the answer.
    pub fn page(&mut self, source: &ZSet<u128>, spec: &RowWindowSpec) -> (page: RowWindowPage)
        ensures
            final(self).asked() == old(self).asked().push(
                KernelStep::Page { source: *source, spec: *spec, page },
            ),
    {
        let page = self.kernel.page(source, spec);
        proof {
            self.asked@ = self.asked@.push(
                KernelStep::Page { source: *source, spec: *spec, page },
            );
        }
        page
    }

    /// Count triangles, and record the answer.
    pub fn triangles(
        &mut self,
        database: &Database,
        relation: RelationId,
        quantifier: TriangleQuantifier,
    ) -> (counted: TriangleChange)
        ensures
            final(self).asked() == old(self).asked().push(
                KernelStep::Triangles { database: *database, relation, quantifier, counted },
            ),
    {
        let counted = self.kernel.triangles(database, relation, quantifier);
        proof {
            self.asked@ = self.asked@.push(
                KernelStep::Triangles { database: *database, relation, quantifier, counted },
            );
        }
        counted
    }

    /// Count a change of triangles, and record the answer.
    pub fn change(&mut self, view: &TriangleView, at: CommitSeq) -> (change: TriangleChange)
        ensures
            final(self).asked() == old(self).asked().push(
                KernelStep::Change { view: *view, at, change },
            ),
    {
        let change = self.kernel.change(view, at);
        proof {
            self.asked@ = self.asked@.push(KernelStep::Change { view: *view, at, change });
        }
        change
    }
}

} // verus!
