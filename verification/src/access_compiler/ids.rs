//! Typed indices into the tables of a column.
use vstd::prelude::*;

verus! {

/// Index of a field in a layout.
#[derive(Clone, Copy, Debug, PartialEq, Eq, PartialOrd, Ord, Hash, Structural)]
pub struct FieldId(pub usize);

/// Index of a compressed frame in a layout.
#[derive(Clone, Copy, Debug, PartialEq, Eq, PartialOrd, Ord, Hash, Structural)]
pub struct FrameId(pub usize);

/// Index of a decoder node.
#[derive(Clone, Copy, Debug, PartialEq, Eq, PartialOrd, Ord, Hash, Structural)]
pub struct NodeId(pub usize);

/// Index of a plan step.
#[derive(Clone, Copy, Debug, PartialEq, Eq, PartialOrd, Ord, Hash, Structural)]
pub struct PlanNodeId(pub usize);

} // verus!
