//! Functions with their basic blocks, and the program.

use vstd::prelude::*;
use crate::block::BasicBlock;
use crate::dfg::{DataFlowGraph, GraphView};
use crate::entities::{FuncId, ValueId};
use crate::node::Value;
use crate::types::{Type, TypeKind};
use crate::values::ValueKind;

verus! {

/// The inner of a function: its basic blocks.
pub struct FunctionInner {
    bbs: Vec<BasicBlock>,
}

impl FunctionInner {
    /// The basic blocks, in their order.
    pub closed spec fn blocks(&self) -> Seq<BasicBlock> {
        self.bbs@
    }

    /// Whether the function is a declaration: it has no basic blocks.
    pub open spec fn declared(&self) -> bool {
        self.blocks().len() == 0
    }

    /// The entry of the function: its first basic block, if it has one.
    pub open spec fn entry(&self) -> Option<BasicBlock> {
        if self.blocks().len() == 0 {
            None
        } else {
            Some(self.blocks()[0])
        }
    }

    /// Gets the basic block list.
    pub fn bbs(&self) -> (bbs: &Vec<BasicBlock>)
        ensures
            bbs@ == self.blocks(),
    {
        &self.bbs
    }

    /// Gets the mutable basic block list.
    pub fn bbs_mut(&mut self) -> (bbs: &mut Vec<BasicBlock>)
        ensures
            bbs@ == old(self).blocks(),
            final(self).blocks() == final(bbs)@,
    {
        &mut self.bbs
    }

    /// Adds the basic block `bb` to the end of the function.
    pub fn add_bb(&mut self, bb: BasicBlock)
        ensures
            final(self).blocks() == old(self).blocks().push(bb),
    {
        self.bbs.push(bb);
    }

    /// Whether the function is a declaration.
    pub fn is_decl(&self) -> (b: bool)
        ensures
            b == self.declared(),
    {
        self.bbs.len() == 0
    }

    /// Gets the entry basic block, if the function is a definition.
    pub fn entry_bb(&self) -> (bb: Option<&BasicBlock>)
        ensures
            match bb {
                Some(bb) => self.entry() == Some(*bb),
                None => self.entry() is None,
            },
    {
        if self.bbs.len() == 0 {
            None
        } else {
            Some(&self.bbs[0])
        }
    }
}

/// A function without basic blocks that gets one is a definition with that
/// block as entry.
pub proof fn lemma_first_block_is_entry(before: FunctionInner, after: FunctionInner, bb: BasicBlock)
    requires
        before.declared(),
        after.blocks() == before.blocks().push(bb),
    ensures
        !after.declared(),
        after.entry() == Some(bb),
{
}

/// A function.
pub struct Function {
    ty: Type,
    name: String,
    params: Vec<ValueId>,
    inner: FunctionInner,
}

/// The types of the values `params` in the graph `g`.
pub open spec fn types_of(g: GraphView, params: Seq<ValueId>) -> Seq<TypeKind> {
    Seq::new(params.len(), |i: int| g.values[params[i]].ty)
}

impl Function {
    /// The type of the function.
    pub closed spec fn type_of(&self) -> TypeKind {
        self.ty@
    }

    /// The name of the function.
    pub closed spec fn label(&self) -> Seq<char> {
        self.name@
    }

    /// The parameters of the function.
    pub closed spec fn param_list(&self) -> Seq<ValueId> {
        self.params@
    }

    /// The inner of the function.
    pub closed spec fn body(&self) -> FunctionInner {
        self.inner
    }

    /// The invariant of a function: its type is a function type, none of
    /// whose parameters has the unit type.
    pub open spec fn wf(&self) -> bool {
        &&& self.type_of() is Function
        &&& forall|i: int|
            0 <= i < self.type_of()->Function_0.len() ==> #[trigger] self.type_of()->Function_0[i]
                != TypeKind::Unit
    }

    /// Creates a new function definition, which has no basic blocks yet. Its
    /// type is that of the functions from the types of `params` to `ret_ty`.
    pub fn new(dfg: &DataFlowGraph, name: String, params: Vec<ValueId>, ret_ty: Type) -> (func:
        Function)
        requires
            forall|i: int| 0 <= i < params.len() ==> dfg@.has(#[trigger] params[i]),
            forall|i: int|
                0 <= i < params.len() ==> dfg@.values[#[trigger] params[i]].ty != TypeKind::Unit,
        ensures
            func.type_of() == TypeKind::Function(types_of(dfg@, params@), Box::new(ret_ty@)),
            func.label() == name@,
            func.param_list() == params@,
            func.body().declared(),
            func.wf(),
    {
        let mut tys: Vec<Type> = Vec::new();
        let mut i: usize = 0;
        while i < params.len()
            invariant
                i <= params.len(),
                tys.len() == i,
                forall|j: int| 0 <= j < params.len() ==> dfg@.has(#[trigger] params[j]),
                forall|j: int| 0 <= j < i ==> (#[trigger] tys[j])@ == dfg@.values[params[j]].ty,
            decreases params.len() - i,
        {
            tys.push(dfg.value(params[i]).ty().clone());
            i += 1;
        }
        proof {
            assert(crate::types::kinds_of(tys@) =~= types_of(dfg@, params@));
        }
        Function {
            ty: Type::get_function(tys, ret_ty),
            name,
            params,
            inner: FunctionInner { bbs: Vec::new() },
        }
    }

    /// Creates a new function declaration of the type `ty`.
    pub fn new_decl(name: String, ty: Type) -> (func: Function)
        requires
            ty@ is Function,
            forall|i: int|
                0 <= i < ty@->Function_0.len() ==> #[trigger] ty@->Function_0[i] != TypeKind::Unit,
        ensures
            func.type_of() == ty@,
            func.label() == name@,
            func.param_list() == Seq::<ValueId>::empty(),
            func.body().declared(),
            func.wf(),
    {
        Function { ty, name, params: Vec::new(), inner: FunctionInner { bbs: Vec::new() } }
    }

    /// Gets the type of the function.
    pub fn ty(&self) -> (ty: &Type)
        ensures
            ty@ == self.type_of(),
    {
        &self.ty
    }

    /// Gets the function name.
    pub fn name(&self) -> (name: &str)
        ensures
            name@ == self.label(),
    {
        self.name.as_str()
    }

    /// Gets the parameter list.
    pub fn params(&self) -> (params: &Vec<ValueId>)
        ensures
            params@ == self.param_list(),
    {
        &self.params
    }

    /// Borrows the inner of the function.
    pub fn inner(&self) -> (inner: &FunctionInner)
        ensures
            *inner == self.body(),
    {
        &self.inner
    }

    /// Mutably borrows the inner of the function.
    pub fn inner_mut(&mut self) -> (inner: &mut FunctionInner)
        ensures
            *inner == old(self).body(),
            final(self).body() == *final(inner),
            final(self).type_of() == old(self).type_of(),
            final(self).label() == old(self).label(),
            final(self).param_list() == old(self).param_list(),
    {
        &mut self.inner
    }
}

/// A program.
pub struct Program {
    vars: Vec<ValueId>,
    funcs: Vec<Function>,
}

impl Program {
    /// The global variables, in the order in which they were added.
    pub closed spec fn var_list(&self) -> Seq<ValueId> {
        self.vars@
    }

    /// The functions, in the order in which they were added.
    pub closed spec fn func_list(&self) -> Seq<Function> {
        self.funcs@
    }

    /// Creates a new program without global variables and functions.
    pub fn new() -> (program: Program)
        ensures
            program.var_list() == Seq::<ValueId>::empty(),
            program.func_list() == Seq::<Function>::empty(),
    {
        Program { vars: Vec::new(), funcs: Vec::new() }
    }

    /// Gets the global variables.
    pub fn vars(&self) -> (vars: &Vec<ValueId>)
        ensures
            vars@ == self.var_list(),
    {
        &self.vars
    }

    /// Gets the functions.
    pub fn funcs(&self) -> (funcs: &Vec<Function>)
        ensures
            funcs@ == self.func_list(),
    {
        &self.funcs
    }

    /// Adds the global variable `value`, which is a global allocation of the
    /// graph, to the program.
    pub fn add_var(&mut self, dfg: &DataFlowGraph, value: ValueId)
        requires
            dfg@.has(value),
            dfg@.values[value].kind == ValueKind::GlobalAlloc,
        ensures
            final(self).var_list() == old(self).var_list().push(value),
            final(self).func_list() == old(self).func_list(),
    {
        self.vars.push(value);
    }

    /// Adds the function `func` to the program, and returns its handle.
    pub fn add_func(&mut self, func: Function) -> (id: FuncId)
        ensures
            id == FuncId(old(self).func_list().len() as usize),
            final(self).func_list() == old(self).func_list().push(func),
            final(self).var_list() == old(self).var_list(),
    {
        let id = FuncId(self.funcs.len());
        self.funcs.push(func);
        id
    }
}

impl Default for Program {
    fn default() -> (program: Program)
        ensures
            program.var_list() == Seq::<ValueId>::empty(),
            program.func_list() == Seq::<Function>::empty(),
    {
        Program::new()
    }
}

} // verus!
