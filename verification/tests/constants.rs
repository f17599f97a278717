use koopa_ir::dfg::DataFlowGraph;
use koopa_ir::entities::{Use, ValueId};
use koopa_ir::node::{User, Value};
use koopa_ir::types::Type;
use koopa_ir::values::{Aggregate, Integer, Undef, ValueKind, ZeroInit};

#[test]
fn integer_is_canonical() {
    let mut dfg = DataFlowGraph::new();
    let five = Integer::new(&mut dfg, 5);
    let again = Integer::new(&mut dfg, 5);
    let six = Integer::new(&mut dfg, 6);
    assert_eq!(five, again);
    assert_ne!(five, six);
    assert_eq!(dfg.handles(), 2);
    assert_eq!(dfg.values(), vec![five, six]);
}

#[test]
fn integer_has_its_value_and_type() {
    let mut dfg = DataFlowGraph::new();
    let v = Integer::new(&mut dfg, -42);
    assert_eq!(v, ValueId(0));
    match dfg.value(v).kind() {
        ValueKind::Integer(i) => assert_eq!(i.value(), -42),
        _ => panic!("not an integer"),
    }
    assert!(*dfg.value(v).ty() == Type::get_i32());
    assert!(dfg.value(v).is_shared());
    assert!(dfg.value(v).operands().is_empty());
    let min = Integer::new(&mut dfg, i32::MIN);
    let max = Integer::new(&mut dfg, i32::MAX);
    assert_ne!(min, max);
    assert_eq!(Integer::new(&mut dfg, i32::MIN), min);
}

#[test]
fn zero_init_is_canonical_by_type() {
    let mut dfg = DataFlowGraph::new();
    let a = ZeroInit::new(&mut dfg, Type::get_i32());
    let b = ZeroInit::new(&mut dfg, Type::get_array(Type::get_i32(), 4));
    let c = ZeroInit::new(&mut dfg, Type::get_i32());
    let d = ZeroInit::new(&mut dfg, Type::get_array(Type::get_i32(), 4));
    let e = ZeroInit::new(&mut dfg, Type::get_array(Type::get_i32(), 5));
    assert_eq!(a, c);
    assert_eq!(b, d);
    assert_ne!(a, b);
    assert_ne!(b, e);
    assert_eq!(*dfg.value(b).kind(), ValueKind::ZeroInit(ZeroInit));
    assert!(*dfg.value(b).ty() == Type::get_array(Type::get_i32(), 4));
    assert!(dfg.value(b).is_shared());
    assert_eq!(dfg.handles(), 3);
}

#[test]
fn undef_is_canonical_by_type() {
    let mut dfg = DataFlowGraph::new();
    let a = Undef::new(&mut dfg, Type::get_pointer(Type::get_i32()));
    let b = Undef::new(&mut dfg, Type::get_i32());
    let c = Undef::new(&mut dfg, Type::get_pointer(Type::get_i32()));
    assert_eq!(a, c);
    assert_ne!(a, b);
    assert_eq!(*dfg.value(a).kind(), ValueKind::Undef(Undef));
    assert!(*dfg.value(a).ty() == Type::get_pointer(Type::get_i32()));
}

#[test]
fn pools_of_different_kinds_do_not_mix() {
    let mut dfg = DataFlowGraph::new();
    let zero = ZeroInit::new(&mut dfg, Type::get_i32());
    let undef = Undef::new(&mut dfg, Type::get_i32());
    let int = Integer::new(&mut dfg, 0);
    assert_ne!(zero, undef);
    assert_ne!(zero, int);
    assert_ne!(undef, int);
    assert_eq!(ZeroInit::new(&mut dfg, Type::get_i32()), zero);
    assert_eq!(Undef::new(&mut dfg, Type::get_i32()), undef);
    assert_eq!(Integer::new(&mut dfg, 0), int);
}

#[test]
fn aggregate_has_array_type_and_uses_its_elements() {
    let mut dfg = DataFlowGraph::new();
    let one = Integer::new(&mut dfg, 1);
    let two = Integer::new(&mut dfg, 2);
    let agg = Aggregate::new(&mut dfg, vec![one, two, one]);
    assert_eq!(*dfg.value(agg).kind(), ValueKind::Aggregate(Aggregate));
    assert!(*dfg.value(agg).ty() == Type::get_array(Type::get_i32(), 3));
    assert_eq!(Aggregate::elems(&dfg, agg), &vec![one, two, one]);
    assert_eq!(
        dfg.value(one).uses().to_vec(),
        vec![Use { user: agg, index: 0 }, Use { user: agg, index: 2 }]
    );
    assert_eq!(dfg.value(two).uses().to_vec(), vec![Use { user: agg, index: 1 }]);
}

#[test]
fn aggregate_is_not_pooled() {
    let mut dfg = DataFlowGraph::new();
    let one = Integer::new(&mut dfg, 1);
    let a = Aggregate::new(&mut dfg, vec![one]);
    let b = Aggregate::new(&mut dfg, vec![one]);
    assert_ne!(a, b);
    assert!(dfg.value_eq(a, b));
    let nested = Aggregate::new(&mut dfg, vec![a, b]);
    assert!(
        *dfg.value(nested).ty() == Type::get_array(Type::get_array(Type::get_i32(), 1), 2)
    );
}
