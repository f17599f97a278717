use koopa_ir::dfg::DataFlowGraph;
use koopa_ir::entities::{BlockId, FuncId, ValueId};
use koopa_ir::node::ValueData;
use koopa_ir::types::Type;
use koopa_ir::values::{
    ArgRef, Binary, BinaryOp, Branch, Call, Integer, Jump, Undef, ValueKind, ZeroInit,
};

fn node(dfg: &mut DataFlowGraph, ty: Type, kind: ValueKind, operands: Vec<ValueId>) -> ValueId {
    dfg.new_value(ValueData::with_operands(ty, kind, operands))
}

fn binary_inst(dfg: &mut DataFlowGraph, op: BinaryOp, lhs: ValueId, rhs: ValueId) -> ValueId {
    node(dfg, Type::get_i32(), ValueKind::Binary(Binary { op }), vec![lhs, rhs])
}

#[test]
fn binary_nodes_with_equal_operands_are_equal() {
    let mut dfg = DataFlowGraph::new();
    let one = Integer::new(&mut dfg, 1);
    let two = Integer::new(&mut dfg, 2);
    let a = binary_inst(&mut dfg, BinaryOp::Add, one, two);
    let b = binary_inst(&mut dfg, BinaryOp::Add, one, two);
    let c = binary_inst(&mut dfg, BinaryOp::Sub, one, two);
    let d = binary_inst(&mut dfg, BinaryOp::Add, two, one);
    assert_ne!(a, b);
    assert!(dfg.value_eq(a, b));
    assert!(dfg.value_eq(b, a));
    assert!(dfg.value_eq(a, a));
    assert!(!dfg.value_eq(a, c));
    assert!(!dfg.value_eq(a, d));
}

#[test]
fn equality_looks_through_operand_chains() {
    let mut dfg = DataFlowGraph::new();
    let x0 = ArgRef::new(&mut dfg, Type::get_i32(), 0);
    let x1 = ArgRef::new(&mut dfg, Type::get_i32(), 0);
    let y = ArgRef::new(&mut dfg, Type::get_i32(), 1);
    let a = binary_inst(&mut dfg, BinaryOp::Mul, x0, y);
    let b = binary_inst(&mut dfg, BinaryOp::Mul, x1, y);
    let outer_a = binary_inst(&mut dfg, BinaryOp::Add, a, x0);
    let outer_b = binary_inst(&mut dfg, BinaryOp::Add, b, x1);
    let outer_c = binary_inst(&mut dfg, BinaryOp::Add, b, y);
    assert!(dfg.value_eq(x0, x1));
    assert!(!dfg.value_eq(x0, y));
    assert!(dfg.value_eq(outer_a, outer_b));
    assert!(!dfg.value_eq(outer_a, outer_c));
}

#[test]
fn equality_compares_types_first() {
    let mut dfg = DataFlowGraph::new();
    let a = ZeroInit::new(&mut dfg, Type::get_i32());
    let b = ZeroInit::new(&mut dfg, Type::get_pointer(Type::get_i32()));
    let u = Undef::new(&mut dfg, Type::get_i32());
    assert!(dfg.value_eq(a, a));
    assert!(!dfg.value_eq(a, b));
    assert!(!dfg.value_eq(a, u));
    let p = ArgRef::new(&mut dfg, Type::get_i32(), 2);
    let q = ArgRef::new(&mut dfg, Type::get_pointer(Type::get_i32()), 2);
    assert!(!dfg.value_eq(p, q));
}

#[test]
fn equality_of_integers_is_by_literal() {
    let mut dfg = DataFlowGraph::new();
    let one = Integer::new(&mut dfg, 1);
    let two = Integer::new(&mut dfg, 2);
    let other = node(
        &mut dfg,
        Type::get_i32(),
        ValueKind::Integer(Integer { value: 1 }),
        vec![],
    );
    assert!(dfg.value_eq(one, other));
    assert!(!dfg.value_eq(two, other));
}

#[test]
fn equality_of_allocs_ignores_identity() {
    let mut dfg = DataFlowGraph::new();
    let ptr = Type::get_pointer(Type::get_i32());
    let a = node(&mut dfg, ptr.clone(), ValueKind::Alloc, vec![]);
    let b = node(&mut dfg, ptr, ValueKind::Alloc, vec![]);
    assert!(dfg.value_eq(a, b));
    let la = node(&mut dfg, Type::get_i32(), ValueKind::Load, vec![a]);
    let lb = node(&mut dfg, Type::get_i32(), ValueKind::Load, vec![b]);
    assert!(dfg.value_eq(la, lb));
}

#[test]
fn equality_compares_targets_and_callee() {
    let mut dfg = DataFlowGraph::new();
    let b0 = dfg.new_bb();
    let b1 = dfg.new_bb();
    let cond = Integer::new(&mut dfg, 1);
    let j0 = node(&mut dfg, Type::get_unit(), ValueKind::Jump(Jump { target: b0 }), vec![]);
    let j0b = node(&mut dfg, Type::get_unit(), ValueKind::Jump(Jump { target: b0 }), vec![]);
    let j1 = node(&mut dfg, Type::get_unit(), ValueKind::Jump(Jump { target: b1 }), vec![]);
    assert!(dfg.value_eq(j0, j0b));
    assert!(!dfg.value_eq(j0, j1));

    let br = |dfg: &mut DataFlowGraph, t: BlockId, f: BlockId| {
        node(
            dfg,
            Type::get_unit(),
            ValueKind::Branch(Branch { true_bb: t, false_bb: f }),
            vec![cond],
        )
    };
    let x = br(&mut dfg, b0, b1);
    let y = br(&mut dfg, b0, b1);
    let z = br(&mut dfg, b1, b0);
    assert!(dfg.value_eq(x, y));
    assert!(!dfg.value_eq(x, z));

    let call = |dfg: &mut DataFlowGraph, f: usize| {
        node(
            dfg,
            Type::get_i32(),
            ValueKind::Call(Call { callee: FuncId(f) }),
            vec![cond],
        )
    };
    let c0 = call(&mut dfg, 0);
    let c0b = call(&mut dfg, 0);
    let c1 = call(&mut dfg, 1);
    assert!(dfg.value_eq(c0, c0b));
    assert!(!dfg.value_eq(c0, c1));
}

#[test]
fn equality_of_returns_needs_both_or_neither_value() {
    let mut dfg = DataFlowGraph::new();
    let one = Integer::new(&mut dfg, 1);
    let two = Integer::new(&mut dfg, 2);
    let r_none = node(&mut dfg, Type::get_unit(), ValueKind::Return, vec![]);
    let r_none2 = node(&mut dfg, Type::get_unit(), ValueKind::Return, vec![]);
    let r_one = node(&mut dfg, Type::get_unit(), ValueKind::Return, vec![one]);
    let r_one2 = node(&mut dfg, Type::get_unit(), ValueKind::Return, vec![one]);
    let r_two = node(&mut dfg, Type::get_unit(), ValueKind::Return, vec![two]);
    assert!(dfg.value_eq(r_none, r_none2));
    assert!(dfg.value_eq(r_one, r_one2));
    assert!(!dfg.value_eq(r_none, r_one));
    assert!(!dfg.value_eq(r_one, r_none));
    assert!(!dfg.value_eq(r_one, r_two));
}

#[test]
fn equality_compares_the_common_operands_of_calls() {
    let mut dfg = DataFlowGraph::new();
    let one = Integer::new(&mut dfg, 1);
    let two = Integer::new(&mut dfg, 2);
    let kind = ValueKind::Call(Call { callee: FuncId(0) });
    let short = node(&mut dfg, Type::get_i32(), kind, vec![one]);
    let long = node(&mut dfg, Type::get_i32(), kind, vec![one, two]);
    let differs = node(&mut dfg, Type::get_i32(), kind, vec![two, two]);
    assert!(dfg.value_eq(short, long));
    assert!(!dfg.value_eq(short, differs));
}

#[test]
fn phis_are_never_equal() {
    let mut dfg = DataFlowGraph::new();
    let one = Integer::new(&mut dfg, 1);
    let a = node(&mut dfg, Type::get_i32(), ValueKind::Phi, vec![one]);
    let b = node(&mut dfg, Type::get_i32(), ValueKind::Phi, vec![one]);
    assert!(!dfg.value_eq(a, b));
    assert!(!dfg.value_eq(a, a));
    let use_a = binary_inst(&mut dfg, BinaryOp::Add, a, one);
    let use_b = binary_inst(&mut dfg, BinaryOp::Add, a, one);
    assert!(!dfg.value_eq(use_a, use_b));
}

#[test]
fn equality_ends_on_a_circle() {
    let mut dfg = DataFlowGraph::new();
    let one = Integer::new(&mut dfg, 1);
    let a = binary_inst(&mut dfg, BinaryOp::Add, one, one);
    let b = binary_inst(&mut dfg, BinaryOp::Add, one, one);
    dfg.replace_value_with(
        a,
        ValueData::with_operands(
            Type::get_i32(),
            ValueKind::Binary(Binary { op: BinaryOp::Add }),
            vec![a, one],
        ),
    );
    dfg.replace_value_with(
        b,
        ValueData::with_operands(
            Type::get_i32(),
            ValueKind::Binary(Binary { op: BinaryOp::Add }),
            vec![b, one],
        ),
    );
    assert!(!dfg.value_eq(a, b));
}
