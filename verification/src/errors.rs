//! Errors reported by tree reconstruction and by tree edits.

use vstd::prelude::*;

verus! {

/// Why a set of rows does not describe a tree.
#[derive(Clone, Copy, Debug, PartialEq, Eq, Structural)]
pub enum StructuralIntegrityError {
    /// Two children of this parent are first in their sibling chain.
    MultipleHeads(i64),
    /// The children of this parent do not form one chain that ends, or the
    /// parent is unreachable from the page root.
    CycleDetected(i64),
    /// This block names a parent that is not among the rows.
    DanglingParent(i64),
}

/// Why an edit of an outline tree was refused.
#[derive(Clone, Copy, Debug, PartialEq, Eq, Structural)]
pub enum MutationError {
    /// The move would put a block under itself or under one of its descendants.
    CycleRejected,
    /// The block still has children and the removal policy keeps them.
    HasChildren,
    /// No block with this id is in the tree.
    UnknownBlock(i64),
    /// The position lies beyond the end of the child list.
    InvalidIndex,
}

} // verus!
