use koopa_ir::chain::Chain;
use koopa_ir::entities::{Use, ValueId};
use koopa_ir::lists::{ValueList, UseList};
use koopa_ir::node::{User, Value, ValueData};
use koopa_ir::types::Type;
use koopa_ir::values::{Binary, BinaryOp, ValueKind};

#[test]
fn chain_keeps_the_order_of_insertion() {
    let mut chain = Chain::new();
    assert!(chain.is_empty());
    assert_eq!(chain.first(), None);
    assert_eq!(chain.last(), None);
    assert!(chain.to_vec().is_empty());
    chain.push_back(30);
    assert_eq!(chain.first(), Some(30));
    assert_eq!(chain.last(), Some(30));
    assert_eq!(chain.next(30), None);
    assert_eq!(chain.prev(30), None);
    chain.push_back(10);
    chain.push_back(20);
    assert!(!chain.is_empty());
    assert_eq!(chain.to_vec(), vec![30, 10, 20]);
    assert_eq!(chain.first(), Some(30));
    assert_eq!(chain.last(), Some(20));
    assert_eq!(chain.next(30), Some(10));
    assert_eq!(chain.next(10), Some(20));
    assert_eq!(chain.next(20), None);
    assert_eq!(chain.prev(20), Some(10));
    assert_eq!(chain.prev(10), Some(30));
    assert_eq!(chain.prev(30), None);
    assert!(chain.contains(10));
    assert!(!chain.contains(11));
}

#[test]
fn chain_inserts_next_to_an_anchor() {
    let mut chain = Chain::new();
    chain.push_back(1);
    chain.insert_before(1, 2);
    assert_eq!(chain.to_vec(), vec![2, 1]);
    assert_eq!(chain.first(), Some(2));
    chain.insert_after(1, 3);
    assert_eq!(chain.to_vec(), vec![2, 1, 3]);
    assert_eq!(chain.last(), Some(3));
    chain.insert_after(2, 4);
    chain.insert_before(3, 5);
    assert_eq!(chain.to_vec(), vec![2, 4, 1, 5, 3]);
    assert_eq!(chain.prev(1), Some(4));
    assert_eq!(chain.next(1), Some(5));
    chain.insert_before(2, u128::MAX);
    assert_eq!(chain.to_vec(), vec![u128::MAX, 2, 4, 1, 5, 3]);
}

#[test]
fn chain_removes_at_the_ends_and_in_the_middle() {
    let mut chain = Chain::new();
    for k in [1u128, 2, 3, 4, 5] {
        chain.push_back(k);
    }
    chain.remove(3);
    assert_eq!(chain.to_vec(), vec![1, 2, 4, 5]);
    assert_eq!(chain.next(2), Some(4));
    assert_eq!(chain.prev(4), Some(2));
    assert!(!chain.contains(3));
    chain.remove(1);
    assert_eq!(chain.to_vec(), vec![2, 4, 5]);
    assert_eq!(chain.first(), Some(2));
    assert_eq!(chain.prev(2), None);
    chain.remove(5);
    assert_eq!(chain.to_vec(), vec![2, 4]);
    assert_eq!(chain.last(), Some(4));
    assert_eq!(chain.next(4), None);
    chain.remove(2);
    chain.remove(4);
    assert!(chain.is_empty());
    assert_eq!(chain.first(), None);
    assert_eq!(chain.last(), None);
    chain.push_back(3);
    assert_eq!(chain.to_vec(), vec![3]);
}

#[test]
fn use_list_tells_edges_apart_by_user_and_slot() {
    let a = Use { user: ValueId(1), index: 0 };
    let b = Use { user: ValueId(0), index: 1 };
    let c = Use { user: ValueId(usize::MAX), index: usize::MAX };
    let d = Use { user: ValueId(1), index: 1 };
    let mut list = UseList::new();
    assert!(list.is_empty());
    assert_eq!(list.first(), None);
    list.push(a);
    list.push(b);
    list.push(c);
    assert!(!list.is_empty());
    assert_eq!(list.to_vec(), vec![a, b, c]);
    assert!(list.contains(a) && list.contains(b) && list.contains(c));
    assert!(!list.contains(d));
    assert_eq!(list.first(), Some(a));
    assert_eq!(list.next(a), Some(b));
    assert_eq!(list.next(b), Some(c));
    assert_eq!(list.next(c), None);
    list.remove(b);
    assert_eq!(list.to_vec(), vec![a, c]);
    assert_eq!(list.next(a), Some(c));
    list.push(b);
    list.push(d);
    list.remove(a);
    assert_eq!(list.to_vec(), vec![c, b, d]);
    assert_eq!(list.first(), Some(c));
    list.replace(b, a);
    assert_eq!(list.to_vec(), vec![c, a, d]);
    list.replace(c, b);
    list.replace(d, c);
    assert_eq!(list.to_vec(), vec![b, a, c]);
    assert_eq!(list.next(b), Some(a));
    assert!(!list.contains(d));
}

#[test]
fn value_list_edits_keep_the_order() {
    let (a, b, c, d) = (ValueId(7), ValueId(3), ValueId(usize::MAX), ValueId(0));
    let mut list = ValueList::new();
    assert!(list.is_empty());
    assert_eq!(list.first(), None);
    assert_eq!(list.last(), None);
    list.push(a);
    list.push(b);
    list.insert(a, c, true);
    list.insert(a, d, false);
    assert_eq!(list.to_vec(), vec![d, a, c, b]);
    assert_eq!(list.first(), Some(d));
    assert_eq!(list.last(), Some(b));
    assert_eq!(list.next(a), Some(c));
    assert_eq!(list.prev(a), Some(d));
    assert_eq!(list.prev(d), None);
    assert_eq!(list.next(b), None);
    assert!(list.contains(c));
    list.remove(c);
    assert!(!list.contains(c));
    assert_eq!(list.to_vec(), vec![d, a, b]);
    list.remove(d);
    list.remove(b);
    assert_eq!(list.to_vec(), vec![a]);
    assert!(!list.is_empty());
}

#[test]
fn value_data_lists_its_uses_oldest_first() {
    let mut data = ValueData::with_operands(
        Type::get_i32(),
        ValueKind::Binary(Binary { op: BinaryOp::Add }),
        vec![ValueId(0), ValueId(1)],
    );
    assert_eq!(*data.kind(), ValueKind::Binary(Binary { op: BinaryOp::Add }));
    assert!(*data.ty() == Type::get_i32());
    assert_eq!(data.operands(), &vec![ValueId(0), ValueId(1)]);
    assert!(data.uses().is_empty());
    assert!(data.bb().is_none());
    assert!(!data.is_shared());
    let first = Use { user: ValueId(5), index: 1 };
    let second = Use { user: ValueId(4), index: 0 };
    data.add_use(first);
    data.add_use(second);
    assert_eq!(data.uses().to_vec(), vec![first, second]);
    data.remove_use(first);
    assert_eq!(data.uses().to_vec(), vec![second]);
    data.add_use(first);
    assert_eq!(data.uses().to_vec(), vec![second, first]);
    let plain = ValueData::new(Type::get_unit(), ValueKind::Return);
    assert!(plain.operands().is_empty());
    assert!(plain.ty().is_unit());
}
