//! In-memory intermediate representation of a compiler middle end.
//!
//! Values live in a [`dfg::DataFlowGraph`] and are addressed by small
//! copyable handles. The graph keeps, for every value, the list of the
//! operand slots that point at it, and this list and the operands of the
//! users agree at all times. Basic blocks are ordered lists of
//! instructions, each of which knows its block; functions are lists of
//! basic blocks, and the program is a list of functions and of global
//! variables.
//!
//! Every function of the crate says what it needs and what it does over
//! the views of these types, and none of them panics.

pub mod block;
pub mod chain;
pub mod constants;
pub mod defuse;
pub mod dfg;
pub mod edit;
pub mod entities;
pub mod equality;
pub mod linking;
pub mod lists;
pub mod node;
pub mod structs;
pub mod types;
pub mod values;
