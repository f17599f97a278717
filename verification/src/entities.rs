//! Handles of the nodes of the graph, and the edge between two of them.

use vstd::prelude::*;

verus! {

/// Handle of a value.
#[derive(Clone, Copy, PartialEq, Eq, Structural, Debug, Hash)]
pub struct ValueId(pub usize);

/// Handle of a basic block.
#[derive(Clone, Copy, PartialEq, Eq, Structural, Debug, Hash)]
pub struct BlockId(pub usize);

/// Handle of a function: its position in the function list of the program.
#[derive(Clone, Copy, PartialEq, Eq, Structural, Debug, Hash)]
pub struct FuncId(pub usize);

/// One edge of the def-use graph: operand slot `index` of the value `user`.
///
/// The value that the slot currently points at lists the edge among its
/// uses.
#[derive(Clone, Copy, PartialEq, Eq, Structural, Debug, Hash)]
pub struct Use {
    pub user: ValueId,
    pub index: usize,
}

} // verus!
