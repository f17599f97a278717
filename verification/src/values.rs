//! The kinds of values, with what each kind carries besides its operands.

use vstd::prelude::*;
use crate::entities::{BlockId, FuncId};

verus! {

/// Integer constant.
#[derive(Clone, Copy, PartialEq, Eq, Structural, Debug)]
pub struct Integer {
    pub value: i32,
}

/// Zero initializer.
#[derive(Clone, Copy, PartialEq, Eq, Structural, Debug)]
pub struct ZeroInit;

/// Undefined value.
#[derive(Clone, Copy, PartialEq, Eq, Structural, Debug)]
pub struct Undef;

/// Aggregate value. Its operands are its elements.
#[derive(Clone, Copy, PartialEq, Eq, Structural, Debug)]
pub struct Aggregate;

/// Function argument reference.
#[derive(Clone, Copy, PartialEq, Eq, Structural, Debug)]
pub struct ArgRef {
    pub index: usize,
}

/// Operator of a binary instruction.
#[derive(Clone, Copy, PartialEq, Eq, Structural, Debug)]
pub enum BinaryOp {
    NotEq,
    Eq,
    Gt,
    Lt,
    Ge,
    Le,
    Add,
    Sub,
    Mul,
    Div,
    Mod,
    And,
    Or,
    Xor,
    Shl,
    Shr,
    Sar,
}

/// Binary instruction. Its operands are the left and the right hand side.
#[derive(Clone, Copy, PartialEq, Eq, Structural, Debug)]
pub struct Binary {
    pub op: BinaryOp,
}

/// Conditional branch. Its operand is the condition.
#[derive(Clone, Copy, PartialEq, Eq, Structural, Debug)]
pub struct Branch {
    pub true_bb: BlockId,
    pub false_bb: BlockId,
}

/// Unconditional jump.
#[derive(Clone, Copy, PartialEq, Eq, Structural, Debug)]
pub struct Jump {
    pub target: BlockId,
}

/// Function call. Its operands are the arguments.
#[derive(Clone, Copy, PartialEq, Eq, Structural, Debug)]
pub struct Call {
    pub callee: FuncId,
}

/// What a value is.
#[derive(Clone, Copy, PartialEq, Eq, Structural, Debug)]
pub enum ValueKind {
    Integer(Integer),
    ZeroInit(ZeroInit),
    Undef(Undef),
    Aggregate(Aggregate),
    ArgRef(ArgRef),
    /// Global memory allocation. Its operand is the initializer.
    GlobalAlloc,
    /// Local memory allocation.
    Alloc,
    /// Memory load. Its operand is the source.
    Load,
    /// Memory store. Its operands are the value and the destination.
    Store,
    /// Pointer calculation. Its operands are the source and the index.
    GetPtr,
    /// Element pointer calculation. Its operands are the source and the index.
    GetElemPtr,
    Binary(Binary),
    Branch(Branch),
    Jump(Jump),
    Call(Call),
    /// Function return. Its operand, if any, is the returned value.
    Return,
    /// Phi function. Operand `i` is the value that arrives from the `i`-th
    /// predecessor of the block that holds the phi.
    Phi,
}

impl ValueKind {
    /// Whether values of this kind are instructions, which live in basic blocks.
    pub open spec fn inst(self) -> bool {
        match self {
            ValueKind::Alloc
            | ValueKind::Load
            | ValueKind::Store
            | ValueKind::GetPtr
            | ValueKind::GetElemPtr
            | ValueKind::Binary(_)
            | ValueKind::Branch(_)
            | ValueKind::Jump(_)
            | ValueKind::Call(_)
            | ValueKind::Return
            | ValueKind::Phi => true,
            _ => false,
        }
    }

    /// Whether values of this kind are users, which may have operands.
    pub open spec fn user(self) -> bool {
        match self {
            ValueKind::Integer(_)
            | ValueKind::ZeroInit(_)
            | ValueKind::Undef(_)
            | ValueKind::ArgRef(_)
            | ValueKind::Alloc
            | ValueKind::Jump(_) => false,
            _ => true,
        }
    }

    /// The blocks that control may pass to after an instruction of this kind.
    pub open spec fn targets(self) -> Seq<BlockId> {
        match self {
            ValueKind::Branch(b) => seq![b.true_bb, b.false_bb],
            ValueKind::Jump(j) => seq![j.target],
            _ => Seq::empty(),
        }
    }

    /// Whether values of this kind are instructions.
    pub fn is_inst(&self) -> (b: bool)
        ensures
            b == self.inst(),
    {
        match self {
            ValueKind::Alloc
            | ValueKind::Load
            | ValueKind::Store
            | ValueKind::GetPtr
            | ValueKind::GetElemPtr
            | ValueKind::Binary(_)
            | ValueKind::Branch(_)
            | ValueKind::Jump(_)
            | ValueKind::Call(_)
            | ValueKind::Return
            | ValueKind::Phi => true,
            _ => false,
        }
    }

    /// Whether values of this kind are users.
    pub fn is_user(&self) -> (b: bool)
        ensures
            b == self.user(),
    {
        match self {
            ValueKind::Integer(_)
            | ValueKind::ZeroInit(_)
            | ValueKind::Undef(_)
            | ValueKind::ArgRef(_)
            | ValueKind::Alloc
            | ValueKind::Jump(_) => false,
            _ => true,
        }
    }

    /// The blocks that control may pass to after an instruction of this kind:
    /// both targets of a branch, the target of a jump, and none otherwise.
    pub fn bb_uses(&self) -> (bbs: Vec<BlockId>)
        ensures
            bbs@ == self.targets(),
    {
        let mut bbs: Vec<BlockId> = Vec::new();
        match self {
            ValueKind::Branch(b) => {
                bbs.push(b.true_bb);
                bbs.push(b.false_bb);
            },
            ValueKind::Jump(j) => {
                bbs.push(j.target);
            },
            _ => {},
        }
        proof {
            assert(bbs@ =~= self.targets());
        }
        bbs
    }
}

impl Integer {
    /// Gets the integer value.
    pub fn value(&self) -> (v: i32)
        ensures
            v == self.value,
    {
        self.value
    }
}

impl ArgRef {
    /// Gets the index.
    pub fn index(&self) -> (i: usize)
        ensures
            i == self.index,
    {
        self.index
    }
}

} // verus!
