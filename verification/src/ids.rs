//! Identities and scalar values of the graph.

use vstd::prelude::*;

verus! {

/// A vertex identity.
#[derive(Clone, Copy, PartialEq, Eq, Structural, Debug)]
pub struct VId(pub u128);

/// An edge identity.
#[derive(Clone, Copy, PartialEq, Eq, Structural, Debug)]
pub struct EId(pub u128);

/// A relation (edge type).
#[derive(Clone, Copy, PartialEq, Eq, Structural, Debug)]
pub struct RelationId(pub u64);

/// A vertex label.
#[derive(Clone, Copy, PartialEq, Eq, Structural, Debug)]
pub struct LabelId(pub u64);

/// A property key.
#[derive(Clone, Copy, PartialEq, Eq, Structural, Debug)]
pub struct PropertyKeyId(pub u64);

/// A position in the commit history.
#[derive(Clone, Copy, PartialEq, Eq, Structural, Debug)]
pub struct CommitSeq(pub u64);

/// Either kind of graph element.
#[derive(Clone, Copy, PartialEq, Eq, Structural, Debug)]
pub enum ElementId {
    Vertex(VId),
    Edge(EId),
}

/// A canonical property value. Text is held by its interned identity.
#[derive(Clone, Copy, PartialEq, Eq, Structural, Debug)]
pub enum CanonicalScalar {
    Null,
    Bool(bool),
    Int(i64),
    Text(u64),
}

} // verus!
