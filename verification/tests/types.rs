use koopa_ir::entities::BlockId;
use koopa_ir::types::Type;
use koopa_ir::values::{Binary, BinaryOp, Branch, Jump, ValueKind};

#[test]
fn types_are_equal_by_structure() {
    assert!(Type::get_i32() == Type::get_i32());
    assert!(Type::get_unit() == Type::get_unit());
    assert!(Type::get_i32() != Type::get_unit());
    let a = Type::get_array(Type::get_pointer(Type::get_i32()), 3);
    let b = Type::get_array(Type::get_pointer(Type::get_i32()), 3);
    let c = Type::get_array(Type::get_pointer(Type::get_i32()), 4);
    let d = Type::get_array(Type::get_i32(), 3);
    assert!(a == b);
    assert!(a != c);
    assert!(a != d);
    assert!(Type::get_pointer(Type::get_i32()) != Type::get_i32());
}

#[test]
fn function_types_compare_parameters_and_return() {
    let f = Type::get_function(vec![Type::get_i32(), Type::get_i32()], Type::get_unit());
    let same = Type::get_function(vec![Type::get_i32(), Type::get_i32()], Type::get_unit());
    let fewer = Type::get_function(vec![Type::get_i32()], Type::get_unit());
    let other_param = Type::get_function(
        vec![Type::get_i32(), Type::get_pointer(Type::get_i32())],
        Type::get_unit(),
    );
    let other_ret = Type::get_function(vec![Type::get_i32(), Type::get_i32()], Type::get_i32());
    assert!(f == same);
    assert!(f != fewer);
    assert!(fewer != f);
    assert!(f != other_param);
    assert!(f != other_ret);
    assert!(f != Type::get_i32());
}

#[test]
fn clone_is_structurally_equal() {
    let f = Type::get_function(
        vec![Type::get_array(Type::get_i32(), 2), Type::get_pointer(Type::get_unit())],
        Type::get_pointer(Type::get_i32()),
    );
    assert!(f.clone() == f);
    assert!(Type::get_unit().clone().is_unit());
}

#[test]
fn only_unit_is_unit() {
    assert!(Type::get_unit().is_unit());
    assert!(!Type::get_i32().is_unit());
    assert!(!Type::get_pointer(Type::get_unit()).is_unit());
    assert!(!Type::get_array(Type::get_unit(), 0).is_unit());
    assert!(!Type::get_function(vec![], Type::get_unit()).is_unit());
}

#[test]
fn kinds_know_instructions_users_and_targets() {
    let add = ValueKind::Binary(Binary { op: BinaryOp::Add });
    assert!(add.is_inst());
    assert!(add.is_user());
    assert!(add.bb_uses().is_empty());
    assert!(!ValueKind::GlobalAlloc.is_inst());
    assert!(ValueKind::GlobalAlloc.is_user());
    assert!(ValueKind::Alloc.is_inst());
    assert!(!ValueKind::Alloc.is_user());
    assert!(ValueKind::Phi.is_inst());
    assert!(ValueKind::Phi.is_user());
    let jump = ValueKind::Jump(Jump { target: BlockId(3) });
    assert!(jump.is_inst());
    assert!(!jump.is_user());
    assert_eq!(jump.bb_uses(), vec![BlockId(3)]);
    let branch = ValueKind::Branch(Branch { true_bb: BlockId(1), false_bb: BlockId(2) });
    assert_eq!(branch.bb_uses(), vec![BlockId(1), BlockId(2)]);
    assert!(ValueKind::Return.bb_uses().is_empty());
}
