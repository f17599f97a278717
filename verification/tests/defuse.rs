use koopa_ir::dfg::DataFlowGraph;
use koopa_ir::entities::{FuncId, Use, ValueId};
use koopa_ir::node::{User, Value, ValueData};
use koopa_ir::types::Type;
use koopa_ir::values::{ArgRef, Binary, BinaryOp, Call, Integer, ValueKind};

fn binary(dfg: &mut DataFlowGraph, op: BinaryOp, lhs: ValueId, rhs: ValueId) -> ValueId {
    dfg.new_value(ValueData::with_operands(
        Type::get_i32(),
        ValueKind::Binary(Binary { op }),
        vec![lhs, rhs],
    ))
}

#[test]
fn use_new_appends_operand_and_registers_use() {
    let mut dfg = DataFlowGraph::new();
    let arg = Integer::new(&mut dfg, 7);
    let call = dfg.new_value(ValueData::new(
        Type::get_i32(),
        ValueKind::Call(Call { callee: FuncId(0) }),
    ));
    assert!(dfg.value(call).operands().is_empty());
    assert!(dfg.value(arg).uses().is_empty());

    let u = Use::new(&mut dfg, arg, call);
    assert_eq!(u, Use { user: call, index: 0 });
    assert_eq!(u.user(), call);
    assert_eq!(u.value(&dfg), arg);
    assert_eq!(dfg.value(call).operands(), &vec![arg]);
    assert_eq!(dfg.value(arg).uses().to_vec(), vec![u]);
    assert_eq!(dfg.value(arg).uses().to_vec().iter().filter(|e| **e == u).count(), 1);
}

#[test]
fn use_new_twice_on_same_value_gives_two_edges() {
    let mut dfg = DataFlowGraph::new();
    let arg = Integer::new(&mut dfg, 7);
    let call = dfg.new_value(ValueData::new(
        Type::get_i32(),
        ValueKind::Call(Call { callee: FuncId(3) }),
    ));
    let first = Use::new(&mut dfg, arg, call);
    let second = Use::new(&mut dfg, arg, call);
    assert_eq!(first, Use { user: call, index: 0 });
    assert_eq!(second, Use { user: call, index: 1 });
    assert_eq!(dfg.value(call).operands(), &vec![arg, arg]);
    assert_eq!(dfg.value(arg).uses().to_vec(), vec![first, second]);
}

#[test]
fn use_clone_adds_a_second_edge_to_the_same_value() {
    let mut dfg = DataFlowGraph::new();
    let a = Integer::new(&mut dfg, 1);
    let b = Integer::new(&mut dfg, 2);
    let call = dfg.new_value(ValueData::with_operands(
        Type::get_i32(),
        ValueKind::Call(Call { callee: FuncId(0) }),
        vec![a, b],
    ));
    let first = Use { user: call, index: 0 };
    let copy = first.clone(&mut dfg);
    assert_eq!(copy, Use { user: call, index: 2 });
    assert_eq!(dfg.value(call).operands(), &vec![a, b, a]);
    assert_eq!(dfg.value(a).uses().to_vec(), vec![first, copy]);
    assert_eq!(dfg.value(b).uses().to_vec(), vec![Use { user: call, index: 1 }]);
}

#[test]
fn new_value_registers_each_operand_in_slot_order() {
    let mut dfg = DataFlowGraph::new();
    let x = Integer::new(&mut dfg, 1);
    let y = Integer::new(&mut dfg, 2);
    let add = binary(&mut dfg, BinaryOp::Add, x, y);
    let sq = binary(&mut dfg, BinaryOp::Mul, x, x);
    assert_eq!(add, ValueId(2));
    assert_eq!(sq, ValueId(3));
    assert_eq!(
        dfg.value(x).uses().to_vec(),
        vec![
            Use { user: add, index: 0 },
            Use { user: sq, index: 0 },
            Use { user: sq, index: 1 },
        ]
    );
    assert_eq!(dfg.value(y).uses().to_vec(), vec![Use { user: add, index: 1 }]);
    assert!(dfg.value(add).uses().is_empty());
    assert!(dfg.value(add).bb().is_none());
    assert!(!dfg.value(add).is_shared());
}

#[test]
fn set_value_moves_the_edge() {
    let mut dfg = DataFlowGraph::new();
    let x = Integer::new(&mut dfg, 1);
    let y = Integer::new(&mut dfg, 2);
    let z = Integer::new(&mut dfg, 3);
    let add = binary(&mut dfg, BinaryOp::Add, x, y);
    let other = binary(&mut dfg, BinaryOp::Sub, z, x);

    let u = Use { user: add, index: 0 };
    u.set_value(&mut dfg, z);
    assert_eq!(dfg.value(add).operands(), &vec![z, y]);
    assert_eq!(dfg.value(x).uses().to_vec(), vec![Use { user: other, index: 1 }]);
    assert_eq!(dfg.value(z).uses().to_vec(), vec![Use { user: other, index: 0 }, u]);
    assert_eq!(u.value(&dfg), z);
}

#[test]
fn set_value_to_the_same_value_makes_the_edge_the_newest() {
    let mut dfg = DataFlowGraph::new();
    let x = Integer::new(&mut dfg, 1);
    let sq = binary(&mut dfg, BinaryOp::Mul, x, x);
    let first = Use { user: sq, index: 0 };
    let second = Use { user: sq, index: 1 };
    assert_eq!(dfg.value(x).uses().to_vec(), vec![first, second]);
    first.set_value(&mut dfg, x);
    assert_eq!(dfg.value(sq).operands(), &vec![x, x]);
    assert_eq!(dfg.value(x).uses().to_vec(), vec![second, first]);
}

#[test]
fn replace_all_uses_with_redirects_every_user() {
    let mut dfg = DataFlowGraph::new();
    let x = Integer::new(&mut dfg, 1);
    let y = Integer::new(&mut dfg, 2);
    let z = Integer::new(&mut dfg, 3);
    let add = binary(&mut dfg, BinaryOp::Add, x, y);
    let sub = binary(&mut dfg, BinaryOp::Sub, y, x);
    let sq = binary(&mut dfg, BinaryOp::Mul, x, x);
    let keep = binary(&mut dfg, BinaryOp::Div, z, y);

    dfg.replace_all_uses_with(x, z);

    assert!(dfg.value(x).uses().is_empty());
    assert_eq!(dfg.value(add).operands(), &vec![z, y]);
    assert_eq!(dfg.value(sub).operands(), &vec![y, z]);
    assert_eq!(dfg.value(sq).operands(), &vec![z, z]);
    assert_eq!(dfg.value(keep).operands(), &vec![z, y]);
    assert_eq!(
        dfg.value(z).uses().to_vec(),
        vec![
            Use { user: keep, index: 0 },
            Use { user: add, index: 0 },
            Use { user: sub, index: 1 },
            Use { user: sq, index: 0 },
            Use { user: sq, index: 1 },
        ]
    );
    assert_eq!(
        dfg.value(y).uses().to_vec(),
        vec![
            Use { user: add, index: 1 },
            Use { user: sub, index: 0 },
            Use { user: keep, index: 1 },
        ]
    );
}

#[test]
fn replace_all_uses_with_of_an_unused_value_changes_nothing() {
    let mut dfg = DataFlowGraph::new();
    let x = Integer::new(&mut dfg, 1);
    let y = Integer::new(&mut dfg, 2);
    let add = binary(&mut dfg, BinaryOp::Add, y, y);
    dfg.replace_all_uses_with(x, y);
    assert!(dfg.value(x).uses().is_empty());
    assert_eq!(dfg.value(add).operands(), &vec![y, y]);
    assert_eq!(dfg.value(y).uses().to_vec().len(), 2);
}

#[test]
fn replace_all_uses_with_handles_a_user_that_is_the_new_value() {
    let mut dfg = DataFlowGraph::new();
    let x = Integer::new(&mut dfg, 1);
    let inc = binary(&mut dfg, BinaryOp::Add, x, x);
    dfg.replace_all_uses_with(x, inc);
    assert_eq!(dfg.value(inc).operands(), &vec![inc, inc]);
    assert_eq!(
        dfg.value(inc).uses().to_vec(),
        vec![Use { user: inc, index: 0 }, Use { user: inc, index: 1 }]
    );
    assert!(dfg.value(x).uses().is_empty());
}

#[test]
fn remove_value_unregisters_its_operands() {
    let mut dfg = DataFlowGraph::new();
    let x = Integer::new(&mut dfg, 1);
    let y = Integer::new(&mut dfg, 2);
    let add = binary(&mut dfg, BinaryOp::Add, x, y);
    let sq = binary(&mut dfg, BinaryOp::Mul, x, x);
    assert!(dfg.contains(sq));

    let data = dfg.remove_value(sq);
    assert!(!dfg.contains(sq));
    assert!(dfg.contains(add));
    assert_eq!(data.operands(), &vec![x, x]);
    assert_eq!(*data.kind(), ValueKind::Binary(Binary { op: BinaryOp::Mul }));
    assert!(data.uses().is_empty());
    assert_eq!(dfg.value(x).uses().to_vec(), vec![Use { user: add, index: 0 }]);
    assert_eq!(dfg.value(y).uses().to_vec(), vec![Use { user: add, index: 1 }]);
    assert_eq!(dfg.values(), vec![x, y, add]);

    let next = binary(&mut dfg, BinaryOp::Xor, x, y);
    assert_eq!(next, ValueId(4));
}

#[test]
fn replace_value_with_keeps_uses_and_relinks_operands() {
    let mut dfg = DataFlowGraph::new();
    let x = Integer::new(&mut dfg, 1);
    let y = Integer::new(&mut dfg, 2);
    let z = Integer::new(&mut dfg, 3);
    let add = binary(&mut dfg, BinaryOp::Add, x, y);
    let user = binary(&mut dfg, BinaryOp::Mul, add, add);

    let former = dfg.replace_value_with(
        add,
        ValueData::with_operands(
            Type::get_i32(),
            ValueKind::Binary(Binary { op: BinaryOp::Sub }),
            vec![z, x],
        ),
    );
    assert_eq!(*former.kind(), ValueKind::Binary(Binary { op: BinaryOp::Add }));
    assert_eq!(former.operands(), &vec![x, y]);
    assert!(former.uses().is_empty());

    assert_eq!(*dfg.value(add).kind(), ValueKind::Binary(Binary { op: BinaryOp::Sub }));
    assert_eq!(dfg.value(add).operands(), &vec![z, x]);
    assert_eq!(
        dfg.value(add).uses().to_vec(),
        vec![Use { user, index: 0 }, Use { user, index: 1 }]
    );
    assert_eq!(dfg.value(x).uses().to_vec(), vec![Use { user: add, index: 1 }]);
    assert!(dfg.value(y).uses().is_empty());
    assert_eq!(dfg.value(z).uses().to_vec(), vec![Use { user: add, index: 0 }]);
    assert_eq!(dfg.value(user).operands(), &vec![add, add]);
}

#[test]
fn replace_value_with_may_use_the_value_itself() {
    let mut dfg = DataFlowGraph::new();
    let x = Integer::new(&mut dfg, 1);
    let phi = dfg.new_value(ValueData::with_operands(
        Type::get_i32(),
        ValueKind::Phi,
        vec![x],
    ));
    dfg.replace_value_with(
        phi,
        ValueData::with_operands(Type::get_i32(), ValueKind::Phi, vec![x, phi]),
    );
    assert_eq!(dfg.value(phi).operands(), &vec![x, phi]);
    assert_eq!(dfg.value(phi).uses().to_vec(), vec![Use { user: phi, index: 1 }]);
    assert_eq!(dfg.value(x).uses().to_vec(), vec![Use { user: phi, index: 0 }]);
}

#[test]
fn arg_ref_is_fresh_each_time() {
    let mut dfg = DataFlowGraph::new();
    let a = ArgRef::new(&mut dfg, Type::get_i32(), 0);
    let b = ArgRef::new(&mut dfg, Type::get_i32(), 0);
    assert_ne!(a, b);
    assert_eq!(*dfg.value(a).kind(), ValueKind::ArgRef(ArgRef { index: 0 }));
    match dfg.value(b).kind() {
        ValueKind::ArgRef(arg) => assert_eq!(arg.index(), 0),
        _ => panic!("not an argument reference"),
    }
    assert!(*dfg.value(a).ty() == Type::get_i32());
    assert!(!dfg.value(a).is_shared());
}

#[test]
fn removing_an_edge_moves_later_operands_up() {
    let mut dfg = DataFlowGraph::new();
    let a = Integer::new(&mut dfg, 1);
    let b = Integer::new(&mut dfg, 2);
    let c = Integer::new(&mut dfg, 3);
    let call = dfg.new_value(ValueData::with_operands(
        Type::get_i32(),
        ValueKind::Call(Call { callee: FuncId(0) }),
        vec![a, b, c, b],
    ));
    let other = binary(&mut dfg, BinaryOp::Add, b, c);
    assert_eq!(
        dfg.value(b).uses().to_vec(),
        vec![
            Use { user: call, index: 1 },
            Use { user: call, index: 3 },
            Use { user: other, index: 0 },
        ]
    );

    Use { user: call, index: 1 }.remove(&mut dfg);
    assert_eq!(dfg.value(call).operands(), &vec![a, c, b]);
    assert_eq!(dfg.value(a).uses().to_vec(), vec![Use { user: call, index: 0 }]);
    assert_eq!(
        dfg.value(b).uses().to_vec(),
        vec![Use { user: call, index: 2 }, Use { user: other, index: 0 }]
    );
    assert_eq!(
        dfg.value(c).uses().to_vec(),
        vec![Use { user: call, index: 1 }, Use { user: other, index: 1 }]
    );
    assert_eq!(dfg.value(other).operands(), &vec![b, c]);

    Use { user: call, index: 2 }.remove(&mut dfg);
    assert_eq!(dfg.value(call).operands(), &vec![a, c]);
    assert_eq!(dfg.value(b).uses().to_vec(), vec![Use { user: other, index: 0 }]);
    Use { user: call, index: 0 }.remove(&mut dfg);
    assert_eq!(dfg.value(call).operands(), &vec![c]);
    assert!(dfg.value(a).uses().is_empty());
    assert_eq!(
        dfg.value(c).uses().to_vec(),
        vec![Use { user: call, index: 0 }, Use { user: other, index: 1 }]
    );
    Use { user: call, index: 0 }.remove(&mut dfg);
    assert!(dfg.value(call).operands().is_empty());
    assert!(dfg.value(a).uses().is_empty());
    assert_eq!(dfg.value(b).uses().to_vec(), vec![Use { user: other, index: 0 }]);
    assert_eq!(dfg.value(c).uses().to_vec(), vec![Use { user: other, index: 1 }]);
}

#[test]
fn removing_an_edge_keeps_every_other_edge_in_its_place() {
    let mut dfg = DataFlowGraph::new();
    let v = Integer::new(&mut dfg, 1);
    let far = Integer::new(&mut dfg, 2);
    let x = binary(&mut dfg, BinaryOp::Mul, v, v);
    let w = binary(&mut dfg, BinaryOp::Add, v, far);
    let late = binary(&mut dfg, BinaryOp::Sub, far, v);
    assert_eq!(
        dfg.value(v).uses().to_vec(),
        vec![
            Use { user: x, index: 0 },
            Use { user: x, index: 1 },
            Use { user: w, index: 0 },
            Use { user: late, index: 1 },
        ]
    );
    let far_before = dfg.value(far).uses().to_vec();

    Use { user: x, index: 0 }.remove(&mut dfg);
    assert_eq!(dfg.value(x).operands(), &vec![v]);
    assert_eq!(
        dfg.value(v).uses().to_vec(),
        vec![
            Use { user: x, index: 0 },
            Use { user: w, index: 0 },
            Use { user: late, index: 1 },
        ]
    );
    assert_eq!(dfg.value(far).uses().to_vec(), far_before);

    Use { user: w, index: 0 }.remove(&mut dfg);
    assert_eq!(dfg.value(w).operands(), &vec![far]);
    assert_eq!(
        dfg.value(v).uses().to_vec(),
        vec![Use { user: x, index: 0 }, Use { user: late, index: 1 }]
    );
    assert_eq!(
        dfg.value(far).uses().to_vec(),
        vec![Use { user: w, index: 0 }, Use { user: late, index: 0 }]
    );
}
