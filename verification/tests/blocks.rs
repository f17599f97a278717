use koopa_ir::dfg::DataFlowGraph;
use koopa_ir::entities::{BlockId, FuncId, Use, ValueId};
use koopa_ir::node::{User, Value, ValueData};
use koopa_ir::block::BasicBlock;
use koopa_ir::structs::{Function, Program};
use koopa_ir::types::Type;
use koopa_ir::values::{ArgRef, Binary, BinaryOp, Branch, Integer, Jump, ValueKind};

fn inst(dfg: &mut DataFlowGraph, kind: ValueKind, operands: Vec<ValueId>) -> ValueId {
    dfg.new_value(ValueData::with_operands(Type::get_i32(), kind, operands))
}

fn add(dfg: &mut DataFlowGraph, lhs: ValueId, rhs: ValueId) -> ValueId {
    inst(dfg, ValueKind::Binary(Binary { op: BinaryOp::Add }), vec![lhs, rhs])
}

#[test]
fn new_block_is_empty() {
    let mut dfg = DataFlowGraph::new();
    let bb = BasicBlock::new(&mut dfg, Some(String::from("entry")));
    assert_eq!(bb.name(), &Some(String::from("entry")));
    assert_eq!(bb.inner().bb(), BlockId(0));
    assert!(bb.inner().insts().is_empty());
    assert!(bb.inner().preds().is_empty());
    assert!(bb.inner().succs(&dfg).is_empty());
    assert!(dfg.contains_bb(BlockId(0)));
    assert!(!dfg.contains_bb(BlockId(1)));
    let other = BasicBlock::new(&mut dfg, None);
    assert_eq!(other.name(), &None);
    assert_eq!(other.inner().bb(), BlockId(1));
    assert_eq!(dfg.bbs(), vec![BlockId(0), BlockId(1)]);
}

#[test]
fn add_inst_then_remove_inst_restores_the_instruction() {
    let mut dfg = DataFlowGraph::new();
    let one = Integer::new(&mut dfg, 1);
    let first = add(&mut dfg, one, one);
    let i = add(&mut dfg, first, one);
    let mut bb = BasicBlock::new(&mut dfg, None);
    bb.inner_mut().add_inst(&mut dfg, first);

    let uses_before = dfg.value(i).uses().to_vec();
    let operands_before = dfg.value(i).operands().clone();
    assert!(dfg.value(i).bb().is_none());

    bb.inner_mut().add_inst(&mut dfg, i);
    assert_eq!(dfg.value(i).bb(), Some(BlockId(0)));
    assert_eq!(bb.inner().insts().to_vec(), vec![first, i]);

    bb.inner_mut().remove_inst(&mut dfg, i);
    assert!(dfg.value(i).bb().is_none());
    assert_eq!(dfg.value(i).uses().to_vec(), uses_before);
    assert_eq!(dfg.value(i).operands(), &operands_before);
    assert_eq!(bb.inner().insts().to_vec(), vec![first]);

    let mut other = BasicBlock::new(&mut dfg, None);
    other.inner_mut().add_inst(&mut dfg, i);
    assert_eq!(dfg.value(i).bb(), Some(BlockId(1)));
}

#[test]
fn remove_inst_keeps_the_order_of_the_rest() {
    let mut dfg = DataFlowGraph::new();
    let one = Integer::new(&mut dfg, 1);
    let a = add(&mut dfg, one, one);
    let b = add(&mut dfg, one, one);
    let c = add(&mut dfg, one, one);
    let mut bb = BasicBlock::new(&mut dfg, None);
    bb.inner_mut().add_inst(&mut dfg, a);
    bb.inner_mut().add_inst(&mut dfg, b);
    bb.inner_mut().add_inst(&mut dfg, c);
    bb.inner_mut().remove_inst(&mut dfg, b);
    assert_eq!(bb.inner().insts().to_vec(), vec![a, c]);
    bb.inner_mut().remove_inst(&mut dfg, a);
    assert_eq!(bb.inner().insts().to_vec(), vec![c]);
    bb.inner_mut().remove_inst(&mut dfg, c);
    assert!(bb.inner().insts().is_empty());
}

#[test]
fn replace_inst_swaps_in_place_and_leaves_uses() {
    let mut dfg = DataFlowGraph::new();
    let one = Integer::new(&mut dfg, 1);
    let a = add(&mut dfg, one, one);
    let b = add(&mut dfg, a, one);
    let c = add(&mut dfg, b, one);
    let new = add(&mut dfg, one, one);
    let mut bb = BasicBlock::new(&mut dfg, None);
    bb.inner_mut().add_inst(&mut dfg, a);
    bb.inner_mut().add_inst(&mut dfg, b);
    bb.inner_mut().add_inst(&mut dfg, c);

    bb.inner_mut().replace_inst(&mut dfg, b, new);
    assert_eq!(bb.inner().insts().to_vec(), vec![a, new, c]);
    assert!(dfg.value(b).bb().is_none());
    assert_eq!(dfg.value(new).bb(), Some(BlockId(0)));
    assert_eq!(dfg.value(b).uses().to_vec(), vec![Use { user: c, index: 0 }]);
    assert_eq!(dfg.value(c).operands(), &vec![b, one]);
    assert!(dfg.value(new).uses().is_empty());

    dfg.replace_all_uses_with(b, new);
    assert_eq!(dfg.value(c).operands(), &vec![new, one]);
}

#[test]
fn insert_before_and_after_place_the_instruction() {
    let mut dfg = DataFlowGraph::new();
    let one = Integer::new(&mut dfg, 1);
    let a = add(&mut dfg, one, one);
    let b = add(&mut dfg, one, one);
    let c = add(&mut dfg, one, one);
    let d = add(&mut dfg, one, one);
    let e = add(&mut dfg, one, one);
    let mut bb = BasicBlock::new(&mut dfg, None);
    bb.inner_mut().add_inst(&mut dfg, a);
    bb.inner_mut().insert_before(&mut dfg, a, b);
    assert_eq!(bb.inner().insts().to_vec(), vec![b, a]);
    bb.inner_mut().insert_after(&mut dfg, a, c);
    assert_eq!(bb.inner().insts().to_vec(), vec![b, a, c]);
    bb.inner_mut().insert_after(&mut dfg, b, d);
    assert_eq!(bb.inner().insts().to_vec(), vec![b, d, a, c]);
    bb.inner_mut().insert_before(&mut dfg, c, e);
    assert_eq!(bb.inner().insts().to_vec(), vec![b, d, a, e, c]);
    for v in [a, b, c, d, e] {
        assert_eq!(dfg.value(v).bb(), Some(BlockId(0)));
    }
}

#[test]
fn successors_come_from_the_last_instruction() {
    let mut dfg = DataFlowGraph::new();
    let cond = Integer::new(&mut dfg, 1);
    let mut b0 = BasicBlock::new(&mut dfg, None);
    let b1 = BasicBlock::new(&mut dfg, None);
    let b2 = BasicBlock::new(&mut dfg, None);
    let (id1, id2) = (b1.inner().bb(), b2.inner().bb());
    assert_eq!((id1, id2), (BlockId(1), BlockId(2)));
    assert!(b1.inner().succs(&dfg).is_empty());
    assert!(b2.inner().succs(&dfg).is_empty());

    let plain = add(&mut dfg, cond, cond);
    b0.inner_mut().add_inst(&mut dfg, plain);
    assert_eq!(b0.inner().succs(&dfg), Vec::<BlockId>::new());

    let jump = inst(&mut dfg, ValueKind::Jump(Jump { target: id2 }), vec![]);
    b0.inner_mut().add_inst(&mut dfg, jump);
    assert_eq!(b0.inner().succs(&dfg), vec![id2]);

    let branch = inst(
        &mut dfg,
        ValueKind::Branch(Branch { true_bb: id1, false_bb: id2 }),
        vec![cond],
    );
    b0.inner_mut().replace_inst(&mut dfg, jump, branch);
    assert_eq!(b0.inner().succs(&dfg), vec![id1, id2]);

    let ret = inst(&mut dfg, ValueKind::Return, vec![]);
    b0.inner_mut().add_inst(&mut dfg, ret);
    assert!(b0.inner().succs(&dfg).is_empty());
    b0.inner_mut().remove_inst(&mut dfg, ret);
    assert_eq!(b0.inner().succs(&dfg), vec![id1, id2]);
}

#[test]
fn predecessors_are_what_the_builder_records() {
    let mut dfg = DataFlowGraph::new();
    let mut bb = BasicBlock::new(&mut dfg, None);
    bb.inner_mut().preds_mut().push(BlockId(4));
    bb.inner_mut().preds_mut().push(BlockId(2));
    assert_eq!(bb.inner().preds(), &vec![BlockId(4), BlockId(2)]);
    assert!(bb.inner().insts().is_empty());
}

#[test]
fn removing_a_block_with_a_phi_circle_frees_everything() {
    let mut dfg = DataFlowGraph::new();
    let one = Integer::new(&mut dfg, 1);
    let mut bb = BasicBlock::new(&mut dfg, Some(String::from("loop")));
    let phi = inst(&mut dfg, ValueKind::Phi, vec![one]);
    let next = add(&mut dfg, phi, one);
    dfg.replace_value_with(
        phi,
        ValueData::with_operands(Type::get_i32(), ValueKind::Phi, vec![one, next]),
    );
    let jump = inst(&mut dfg, ValueKind::Jump(Jump { target: BlockId(0) }), vec![]);
    bb.inner_mut().add_inst(&mut dfg, phi);
    bb.inner_mut().add_inst(&mut dfg, next);
    bb.inner_mut().add_inst(&mut dfg, jump);
    assert_eq!(dfg.value(next).uses().to_vec(), vec![Use { user: phi, index: 1 }]);
    assert_eq!(dfg.value(phi).uses().to_vec(), vec![Use { user: next, index: 0 }]);

    let insts = dfg.remove_bb(bb);
    assert_eq!(insts, vec![phi, next, jump]);
    assert!(!dfg.contains_bb(BlockId(0)));
    assert!(dfg.bbs().is_empty());
    assert!(dfg.value(phi).operands().is_empty());
    assert!(dfg.value(next).uses().is_empty());
    assert_eq!(dfg.value(one).uses().to_vec(), vec![Use { user: next, index: 1 }]);
    for v in &insts {
        assert!(dfg.value(*v).bb().is_none());
    }

    dfg.remove_value(next);
    dfg.remove_value(phi);
    dfg.remove_value(jump);
    assert_eq!(dfg.values(), vec![one]);
    assert!(dfg.value(one).uses().is_empty());
}

#[test]
fn removing_a_block_keeps_the_operands_of_other_instructions() {
    let mut dfg = DataFlowGraph::new();
    let one = Integer::new(&mut dfg, 1);
    let mut bb = BasicBlock::new(&mut dfg, None);
    let kept = BasicBlock::new(&mut dfg, None);
    let a = add(&mut dfg, one, one);
    bb.inner_mut().add_inst(&mut dfg, a);
    let insts = dfg.remove_bb(bb);
    assert_eq!(insts, vec![a]);
    assert_eq!(dfg.value(a).operands(), &vec![one, one]);
    assert_eq!(dfg.value(one).uses().to_vec().len(), 2);
    assert_eq!(dfg.bbs(), vec![BlockId(1)]);
    assert!(kept.inner().insts().is_empty());
    let again = BasicBlock::new(&mut dfg, None);
    assert!(again.inner().insts().is_empty());
    assert_eq!(dfg.bbs(), vec![BlockId(1), BlockId(2)]);
}

#[test]
fn function_without_blocks_is_a_declaration() {
    let mut dfg = DataFlowGraph::new();
    let first = ArgRef::new(&mut dfg, Type::get_i32(), 0);
    let second = ArgRef::new(&mut dfg, Type::get_pointer(Type::get_i32()), 1);
    let mut func = Function::new(&dfg, String::from("f"), vec![first, second], Type::get_unit());
    assert_eq!(func.name(), "f");
    assert_eq!(func.params(), &vec![first, second]);
    assert!(*func.ty() == Type::get_function(
        vec![Type::get_i32(), Type::get_pointer(Type::get_i32())],
        Type::get_unit(),
    ));
    assert!(func.inner().is_decl());
    assert!(func.inner().entry_bb().is_none());
    assert!(func.inner().bbs().is_empty());

    let entry = BasicBlock::new(&mut dfg, Some(String::from("entry")));
    func.inner_mut().add_bb(entry);
    assert!(!func.inner().is_decl());
    assert_eq!(
        func.inner().entry_bb().unwrap().name(),
        &Some(String::from("entry"))
    );
    let second = BasicBlock::new(&mut dfg, Some(String::from("second")));
    func.inner_mut().add_bb(second);
    assert_eq!(
        func.inner().entry_bb().unwrap().name(),
        &Some(String::from("entry"))
    );
    assert_eq!(func.inner().bbs().len(), 2);
    func.inner_mut().bbs_mut().remove(0);
    assert_eq!(
        func.inner().entry_bb().unwrap().name(),
        &Some(String::from("second"))
    );
}

#[test]
fn function_declaration_keeps_its_type() {
    let ty = Type::get_function(vec![Type::get_i32()], Type::get_i32());
    let func = Function::new_decl(String::from("getint"), ty.clone());
    assert_eq!(func.name(), "getint");
    assert!(*func.ty() == ty);
    assert!(func.params().is_empty());
    assert!(func.inner().is_decl());
    let nullary = Function::new(
        &DataFlowGraph::new(),
        String::from("main"),
        vec![],
        Type::get_i32(),
    );
    assert!(*nullary.ty() == Type::get_function(vec![], Type::get_i32()));
}

#[test]
fn program_appends_variables_and_functions() {
    let mut dfg = DataFlowGraph::new();
    let init = Integer::new(&mut dfg, 0);
    let ptr = Type::get_pointer(Type::get_i32());
    let g0 = dfg.new_value(ValueData::with_operands(
        ptr.clone(),
        ValueKind::GlobalAlloc,
        vec![init],
    ));
    let g1 = dfg.new_value(ValueData::with_operands(ptr, ValueKind::GlobalAlloc, vec![init]));
    let mut program = Program::new();
    assert!(program.vars().is_empty());
    assert!(program.funcs().is_empty());
    program.add_var(&dfg, g0);
    program.add_var(&dfg, g1);
    assert_eq!(program.vars(), &vec![g0, g1]);
    let a = program.add_func(Function::new_decl(
        String::from("a"),
        Type::get_function(vec![], Type::get_unit()),
    ));
    let b = program.add_func(Function::new(&dfg, String::from("b"), vec![], Type::get_unit()));
    assert_eq!(a, FuncId(0));
    assert_eq!(b, FuncId(1));
    assert_eq!(program.funcs().len(), 2);
    assert_eq!(program.funcs()[0].name(), "a");
    assert_eq!(program.funcs()[1].name(), "b");
    let empty = Program::default();
    assert!(empty.vars().is_empty());
    assert!(empty.funcs().is_empty());
}

#[test]
fn blocks_know_the_values_that_name_them() {
    let mut dfg = DataFlowGraph::new();
    let cond = Integer::new(&mut dfg, 1);
    let b0 = dfg.new_bb();
    let b1 = dfg.new_bb();
    let b2 = dfg.new_bb();
    assert!(dfg.used_by(b0).is_empty());

    let jump = inst(&mut dfg, ValueKind::Jump(Jump { target: b1 }), vec![]);
    let branch = inst(
        &mut dfg,
        ValueKind::Branch(Branch { true_bb: b1, false_bb: b2 }),
        vec![cond],
    );
    let twice = inst(
        &mut dfg,
        ValueKind::Branch(Branch { true_bb: b2, false_bb: b2 }),
        vec![cond],
    );
    assert!(dfg.used_by(b0).is_empty());
    assert_eq!(dfg.used_by(b1).to_vec(), vec![jump, branch]);
    assert_eq!(dfg.used_by(b2).to_vec(), vec![branch, twice]);

    dfg.replace_value_with(
        jump,
        ValueData::new(Type::get_i32(), ValueKind::Jump(Jump { target: b0 })),
    );
    assert_eq!(dfg.used_by(b0).to_vec(), vec![jump]);
    assert_eq!(dfg.used_by(b1).to_vec(), vec![branch]);

    dfg.replace_value_with(
        branch,
        ValueData::with_operands(
            Type::get_i32(),
            ValueKind::Branch(Branch { true_bb: b2, false_bb: b1 }),
            vec![cond],
        ),
    );
    assert_eq!(dfg.used_by(b1).to_vec(), vec![branch]);
    assert_eq!(dfg.used_by(b2).to_vec(), vec![twice, branch]);

    dfg.remove_value(twice);
    assert_eq!(dfg.used_by(b2).to_vec(), vec![branch]);
    dfg.remove_value(branch);
    assert!(dfg.used_by(b1).is_empty());
    assert!(dfg.used_by(b2).is_empty());
    assert_eq!(dfg.used_by(b0).to_vec(), vec![jump]);
    assert!(dfg.value(cond).uses().is_empty());
}

#[test]
fn a_removed_block_may_still_be_named() {
    let mut dfg = DataFlowGraph::new();
    let gone = BasicBlock::new(&mut dfg, None);
    let target = gone.inner().bb();
    let jump = inst(&mut dfg, ValueKind::Jump(Jump { target }), vec![]);
    assert_eq!(dfg.used_by(target).to_vec(), vec![jump]);
    let left = dfg.remove_bb(gone);
    assert!(left.is_empty());
    assert!(!dfg.contains_bb(target));
    assert_eq!(*dfg.value(jump).kind(), ValueKind::Jump(Jump { target }));
    let data = dfg.remove_value(jump);
    assert_eq!(data.kind().bb_uses(), vec![target]);
    assert!(dfg.values().is_empty());
}
