//! Typed write intents, in the order they were asked for.

use vstd::prelude::*;
use crate::graph::clone_labels;
use crate::ids::{CanonicalScalar, EId, ElementId, LabelId, PropertyKeyId, RelationId, VId};
use crate::props::clone_props;

verus! {

/// What a compare-and-set does when the comparison fails.
#[derive(Clone, Copy, PartialEq, Eq, Structural, Debug)]
pub enum WriteMismatchPolicy {
    AbortWrite,
    NoOp,
}

/// One original write intent.
#[allow(inconsistent_fields)]
#[derive(Debug)]
pub enum PendingRow {
    Vertex {
        vid: VId,
        labels: Vec<LabelId>,
        props: Vec<(PropertyKeyId, CanonicalScalar)>,
        ensure: bool,
    },
    Edge {
        eid: EId,
        src: VId,
        dst: VId,
        props: Vec<(PropertyKeyId, CanonicalScalar)>,
        ensure: bool,
    },
    DeleteVertex { vid: VId },
    DeleteEdge { eid: EId, if_present: bool },
    SetLabel { vid: VId, label: LabelId, present: bool },
    SetProperty { vid: VId, key: PropertyKeyId, value: Option<CanonicalScalar> },
    SetEdgeProperty { eid: EId, key: PropertyKeyId, value: Option<CanonicalScalar> },
    CompareAndSet {
        elem: ElementId,
        key: PropertyKeyId,
        expected: Option<CanonicalScalar>,
        value: CanonicalScalar,
        policy: WriteMismatchPolicy,
    },
}

/// Two intents ask for the same thing.
pub open spec fn same_intent(left: PendingRow, right: PendingRow) -> bool {
    match (left, right) {
        (
            PendingRow::Vertex { vid, labels, props, ensure },
            PendingRow::Vertex { vid: v, labels: l, props: p, ensure: e },
        ) => vid == v && labels@ == l@ && props@ == p@ && ensure == e,
        (
            PendingRow::Edge { eid, src, dst, props, ensure },
            PendingRow::Edge { eid: e, src: s, dst: d, props: p, ensure: n },
        ) => eid == e && src == s && dst == d && props@ == p@ && ensure == n,
        _ => left == right,
    }
}

impl PendingRow {
    pub fn copy(&self) -> (copy: PendingRow)
        ensures
            same_intent(*self, copy),
    {
        match self {
            PendingRow::Vertex { vid, labels, props, ensure } => PendingRow::Vertex {
                vid: *vid,
                labels: clone_labels(labels),
                props: clone_props(props),
                ensure: *ensure,
            },
            PendingRow::Edge { eid, src, dst, props, ensure } => PendingRow::Edge {
                eid: *eid,
                src: *src,
                dst: *dst,
                props: clone_props(props),
                ensure: *ensure,
            },
            PendingRow::DeleteVertex { vid } => PendingRow::DeleteVertex { vid: *vid },
            PendingRow::DeleteEdge { eid, if_present } => PendingRow::DeleteEdge {
                eid: *eid,
                if_present: *if_present,
            },
            PendingRow::SetLabel { vid, label, present } => PendingRow::SetLabel {
                vid: *vid,
                label: *label,
                present: *present,
            },
            PendingRow::SetProperty { vid, key, value } => PendingRow::SetProperty {
                vid: *vid,
                key: *key,
                value: *value,
            },
            PendingRow::SetEdgeProperty { eid, key, value } => PendingRow::SetEdgeProperty {
                eid: *eid,
                key: *key,
                value: *value,
            },
            PendingRow::CompareAndSet { elem, key, expected, value, policy } => {
                PendingRow::CompareAndSet {
                    elem: *elem,
                    key: *key,
                    expected: *expected,
                    value: *value,
                    policy: *policy,
                }
            },
        }
    }
}

/// Intents that share one default relation.
#[derive(Debug)]
pub struct WriteBatch {
    pub relation: RelationId,
    pub rows: Vec<PendingRow>,
}

/// Two batches ask for the same things in the same order.
pub open spec fn same_batch(left: WriteBatch, right: WriteBatch) -> bool {
    &&& left.relation == right.relation
    &&& left.rows@.len() == right.rows@.len()
    &&& forall|i: int|
        0 <= i < left.rows@.len() ==> same_intent(#[trigger] left.rows@[i], right.rows@[i])
}

impl WriteBatch {
    pub fn new(relation: RelationId) -> (batch: WriteBatch)
        ensures
            batch.relation == relation,
            batch.rows@.len() == 0,
    {
        WriteBatch { relation, rows: Vec::new() }
    }

    pub fn is_empty(&self) -> (empty: bool)
        ensures
            empty == (self.rows@.len() == 0),
    {
        self.rows.len() == 0
    }

    pub fn copy(&self) -> (copy: WriteBatch)
        ensures
            same_batch(*self, copy),
    {
        let mut rows: Vec<PendingRow> = Vec::new();
        let mut i: usize = 0;
        while i < self.rows.len()
            invariant
                i <= self.rows.len(),
                rows@.len() == i,
                forall|k: int| 0 <= k < i ==> same_intent(#[trigger] self.rows@[k], rows@[k]),
            decreases self.rows.len() - i,
        {
            rows.push(self.rows[i].copy());
            i += 1;
        }
        WriteBatch { relation: self.relation, rows }
    }
}

/// The intents of the first `n` batches, each with its default relation.
pub open spec fn intents_upto(batches: Seq<WriteBatch>, n: int) -> Seq<(RelationId, PendingRow)>
    decreases n,
{
    if n <= 0 {
        Seq::empty()
    } else {
        intents_upto(batches, n - 1) + batches[n - 1].rows@.map_values(
            |row: PendingRow| (batches[n - 1].relation, row),
        )
    }
}

/// All intents in order.
pub open spec fn intents(batches: Seq<WriteBatch>) -> Seq<(RelationId, PendingRow)> {
    intents_upto(batches, batches.len() as int)
}

} // verus!
