//! What a capability lets its holder see and write.

use vstd::prelude::*;
use crate::graph::has_label;
use crate::ids::{LabelId, PropertyKeyId, RelationId};

verus! {

/// The scope predicates of a verified capability. A label clause admits the
/// vertices that carry one of its labels; every clause must admit.
pub struct Predicates {
    pub label_clauses: Vec<Vec<LabelId>>,
    pub relations: Option<Vec<RelationId>>,
    pub properties: Option<Vec<PropertyKeyId>>,
    pub denied_properties: Vec<PropertyKeyId>,
    pub can_read: bool,
}

/// A clause names one of the labels.
pub open spec fn clause_admits(clause: Seq<LabelId>, labels: Set<LabelId>) -> bool {
    exists|k: int| 0 <= k < clause.len() && labels.contains(#[trigger] clause[k])
}

impl Predicates {
    /// A label may be written when every clause names it.
    pub open spec fn admits_label(&self, label: LabelId) -> bool {
        forall|i: int|
            0 <= i < self.label_clauses@.len() ==> (#[trigger] self.label_clauses@[i])@.contains(
                label,
            )
    }

    /// A vertex is visible when every clause names one of its labels.
    pub open spec fn admits_vertex(&self, labels: Set<LabelId>) -> bool {
        forall|i: int|
            0 <= i < self.label_clauses@.len() ==> clause_admits(
                (#[trigger] self.label_clauses@[i])@,
                labels,
            )
    }

    pub open spec fn admits_relation(&self, relation: RelationId) -> bool {
        match self.relations {
            Some(only) => only@.contains(relation),
            None => true,
        }
    }

    pub open spec fn admits_property(&self, key: PropertyKeyId) -> bool {
        &&& match self.properties {
            Some(only) => only@.contains(key),
            None => true,
        }
        &&& !self.denied_properties@.contains(key)
    }

    /// No property is hidden.
    pub open spec fn all_properties(&self) -> bool {
        self.properties is None && self.denied_properties@.len() == 0
    }

    /// No label and no property is hidden.
    pub open spec fn all_fields(&self) -> bool {
        self.all_properties() && self.label_clauses@.len() == 0
    }

    /// No relation and no endpoint is hidden.
    pub open spec fn all_incidence(&self) -> bool {
        self.relations is None && self.label_clauses@.len() == 0
    }

    pub fn allows_label(&self, label: LabelId) -> (admitted: bool)
        ensures
            admitted == self.admits_label(label),
    {
        let mut i: usize = 0;
        while i < self.label_clauses.len()
            invariant
                i <= self.label_clauses.len(),
                forall|k: int|
                    0 <= k < i ==> (#[trigger] self.label_clauses@[k])@.contains(label),
            decreases self.label_clauses.len() - i,
        {
            if !has_label(&self.label_clauses[i], label) {
                return false;
            }
            i += 1;
        }
        true
    }

    pub fn allows_vertex(&self, labels: &Vec<LabelId>) -> (admitted: bool)
        ensures
            admitted == self.admits_vertex(labels@.to_set()),
    {
        let mut i: usize = 0;
        while i < self.label_clauses.len()
            invariant
                i <= self.label_clauses.len(),
                forall|k: int|
                    0 <= k < i ==> clause_admits(
                        (#[trigger] self.label_clauses@[k])@,
                        labels@.to_set(),
                    ),
            decreases self.label_clauses.len() - i,
        {
            let clause = &self.label_clauses[i];
            let mut found = false;
            let mut m: usize = 0;
            while m < clause.len()
                invariant
                    i < self.label_clauses.len(),
                    *clause == self.label_clauses@[i as int],
                    m <= clause.len(),
                    found == exists|j: int|
                        0 <= j < m && labels@.to_set().contains(#[trigger] clause@[j]),
                decreases clause.len() - m,
            {
                if has_label(labels, clause[m]) {
                    assert(labels@.to_set().contains(clause@[m as int]));
                    found = true;
                }
                m += 1;
            }
            assert(found == clause_admits(self.label_clauses@[i as int]@, labels@.to_set()));
            if !found {
                return false;
            }
            i += 1;
        }
        true
    }

    pub fn allows_relation(&self, relation: RelationId) -> (admitted: bool)
        ensures
            admitted == self.admits_relation(relation),
    {
        match &self.relations {
            Some(only) => lists_relation(only, relation),
            None => true,
        }
    }

    pub fn allows_property(&self, key: PropertyKeyId) -> (admitted: bool)
        ensures
            admitted == self.admits_property(key),
    {
        if lists_key(&self.denied_properties, key) {
            return false;
        }
        match &self.properties {
            Some(only) => lists_key(only, key),
            None => true,
        }
    }

    pub fn sees_all_properties(&self) -> (all: bool)
        ensures
            all == self.all_properties(),
    {
        self.properties.is_none() && self.denied_properties.len() == 0
    }

    pub fn sees_all_fields(&self) -> (all: bool)
        ensures
            all == self.all_fields(),
    {
        self.sees_all_properties() && self.label_clauses.len() == 0
    }

    pub fn sees_all_incidence(&self) -> (all: bool)
        ensures
            all == self.all_incidence(),
    {
        self.relations.is_none() && self.label_clauses.len() == 0
    }
}

fn lists_relation(relations: &Vec<RelationId>, relation: RelationId) -> (found: bool)
    ensures
        found == relations@.contains(relation),
{
    let mut i: usize = 0;
    while i < relations.len()
        invariant
            i <= relations.len(),
            forall|k: int| 0 <= k < i ==> relations@[k] != relation,
        decreases relations.len() - i,
    {
        if relations[i] == relation {
            assert(relations@[i as int] == relation);
            return true;
        }
        i += 1;
    }
    false
}

fn lists_key(keys: &Vec<PropertyKeyId>, key: PropertyKeyId) -> (found: bool)
    ensures
        found == keys@.contains(key),
{
    let mut i: usize = 0;
    while i < keys.len()
        invariant
            i <= keys.len(),
            forall|k: int| 0 <= k < i ==> keys@[k] != key,
        decreases keys.len() - i,
    {
        if keys[i] == key {
            assert(keys@[i as int] == key);
            return true;
        }
        i += 1;
    }
    false
}

} // verus!
