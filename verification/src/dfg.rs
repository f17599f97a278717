//! The data flow graph: every value with the edges from the values that use
//! it, kept consistent under construction and rewriting.

use vstd::prelude::*;
use std::collections::HashMap;
use crate::entities::{BlockId, Use, ValueId};
use crate::lists::ValueList;
use crate::node::{without_use, Value, ValueData, ValueView};
use crate::types::{Type, TypeKind};
use crate::values::{Integer, Undef, ValueKind, ZeroInit};

verus! {

broadcast use vstd::std_specs::hash::group_hash_axioms;

/// Data flow graph.
///
/// Holds the data of all values, hands out the handles of values and basic
/// blocks, and keeps one shared node for each constant.
pub struct DataFlowGraph {
    slots: Vec<Option<ValueData>>,
    blocks: Vec<Option<ValueList>>,
    ints: HashMap<i32, ValueId>,
    zeros: Vec<(Type, ValueId)>,
    undefs: Vec<(Type, ValueId)>,
}

/// What a [`DataFlowGraph`] holds.
pub struct GraphView {
    /// The data of each value that exists.
    pub values: Map<ValueId, ValueView>,
    /// The number of the handle that the next new value gets.
    pub next_value: nat,
    /// The basic blocks that exist.
    pub bbs: Set<BlockId>,
    /// For each basic block that exists, the values that name it as a
    /// target, in the order in which they came to do so.
    pub users: Map<BlockId, Seq<ValueId>>,
    /// The number of the handle that the next new basic block gets.
    pub next_bb: nat,
    /// The shared node of each integer constant made so far.
    pub ints: Map<i32, ValueId>,
    /// The shared zero initializer of each type asked for so far.
    pub zeros: Seq<(TypeKind, ValueId)>,
    /// The shared undefined value of each type asked for so far.
    pub undefs: Seq<(TypeKind, ValueId)>,
}

/// The entry of `pool` for the type `ty`, if there is one.
pub open spec fn pooled(pool: Seq<(TypeKind, ValueId)>, ty: TypeKind) -> Option<ValueId> {
    if exists|i: int| 0 <= i < pool.len() && (#[trigger] pool[i]).0 == ty {
        let i = choose|i: int| 0 <= i < pool.len() && (#[trigger] pool[i]).0 == ty;
        Some(pool[i].1)
    } else {
        None
    }
}

/// What a pool of constants holds.
spec fn pool_view(pool: Seq<(Type, ValueId)>) -> Seq<(TypeKind, ValueId)> {
    Seq::new(pool.len(), |i: int| (pool[i].0@, pool[i].1))
}

/// Looks for the entry of `pool` for the type `ty`.
fn find_pooled(pool: &Vec<(Type, ValueId)>, ty: &Type) -> (found: Option<ValueId>)
    requires
        forall|i: int, j: int|
            0 <= i < pool.len() && 0 <= j < pool.len() && i != j ==> (#[trigger] pool_view(
                pool@,
            )[i]).0 != (#[trigger] pool_view(pool@)[j]).0,
    ensures
        found == pooled(pool_view(pool@), ty@),
{
    let ghost view = pool_view(pool@);
    let mut i: usize = 0;
    while i < pool.len()
        invariant
            i <= pool.len(),
            view == pool_view(pool@),
            forall|j: int| 0 <= j < i ==> (#[trigger] view[j]).0 != ty@,
            forall|i: int, j: int|
                0 <= i < pool.len() && 0 <= j < pool.len() && i != j ==> (#[trigger] view[i]).0
                    != (#[trigger] view[j]).0,
        decreases pool.len() - i,
    {
        if pool[i].0 == *ty {
            proof {
                assert(view[i as int].0 == ty@);
                let k = choose|k: int| 0 <= k < view.len() && (#[trigger] view[k]).0 == ty@;
                assert(k == i);
            }
            return Some(pool[i].1);
        }
        i += 1;
    }
    None
}

impl GraphView {
    /// Whether the value `v` exists.
    pub open spec fn has(self, v: ValueId) -> bool {
        self.values.contains_key(v)
    }

    /// The graph in which the data of `v` is `data`.
    pub open spec fn with_value(self, v: ValueId, data: ValueView) -> GraphView {
        GraphView { values: self.values.insert(v, data), ..self }
    }

    /// The handle of the next new value.
    pub open spec fn next(self) -> ValueId {
        ValueId(self.next_value as usize)
    }

    /// The graph in which `data` is stored under the next handle.
    pub open spec fn store(self, data: ValueView) -> GraphView {
        GraphView {
            values: self.values.insert(self.next(), data),
            next_value: self.next_value + 1,
            ..self
        }
    }

    /// The graph from which the data of `v` is taken.
    pub open spec fn without(self, v: ValueId) -> GraphView {
        GraphView { values: self.values.remove(v), ..self }
    }

    /// The graph with one more basic block, which has the next handle.
    pub open spec fn add_bb(self) -> GraphView {
        GraphView {
            bbs: self.bbs.insert(BlockId(self.next_bb as usize)),
            users: self.users.insert(BlockId(self.next_bb as usize), Seq::empty()),
            next_bb: self.next_bb + 1,
            ..self
        }
    }

    /// The graph without the basic block `bb`.
    pub open spec fn without_bb(self, bb: BlockId) -> GraphView {
        GraphView { bbs: self.bbs.remove(bb), users: self.users.remove(bb), ..self }
    }

    /// The graph in which the edge `u` is added to the uses of `v`.
    pub open spec fn push_use(self, v: ValueId, u: Use) -> GraphView {
        self.with_value(v, ValueView { uses: self.values[v].uses.push(u), ..self.values[v] })
    }

    /// The graph in which the edge `u` is removed from the uses of `v`.
    pub open spec fn drop_use(self, v: ValueId, u: Use) -> GraphView {
        self.with_value(
            v,
            ValueView { uses: without_use(self.values[v].uses, u), ..self.values[v] },
        )
    }

    /// The graph in which the edge `to` stands among the uses of `v` where
    /// the edge `from` stood.
    pub open spec fn rename_use(self, v: ValueId, from: Use, to: Use) -> GraphView {
        self.with_value(
            v,
            ValueView {
                uses: self.values[v].uses.update(self.values[v].uses.index_of(from), to),
                ..self.values[v]
            },
        )
    }

    /// The graph in which the operands of `user` are `operands`.
    pub open spec fn with_operands(self, user: ValueId, operands: Seq<ValueId>) -> GraphView {
        self.with_value(user, ValueView { operands, ..self.values[user] })
    }

    /// The graph in which the slot of the edge `u` points at `v`.
    pub open spec fn point_at(self, u: Use, v: ValueId) -> GraphView {
        self.with_operands(u.user, self.values[u.user].operands.update(u.index as int, v))
    }

    /// The graph in which the value `v` is in the basic block `bb`, or in none.
    pub open spec fn with_bb(self, v: ValueId, bb: Option<BlockId>) -> GraphView {
        self.with_value(v, ValueView { bb, ..self.values[v] })
    }

    /// Operand slot `i` of `user` points at a value that has the slot among
    /// its uses.
    pub open spec fn slot_linked(self, user: ValueId, i: int) -> bool {
        let v = self.values[user].operands[i];
        &&& self.has(v)
        &&& self.values[v].uses.contains(Use { user, index: i as usize })
    }

    /// Entry `k` of the uses of `v` is an operand slot that points at `v`.
    pub open spec fn use_linked(self, v: ValueId, k: int) -> bool {
        let u = self.values[v].uses[k];
        &&& self.has(u.user)
        &&& u.index < self.values[u.user].operands.len()
        &&& self.values[u.user].operands[u.index as int] == v
    }

    /// Each operand slot, but for the slots `lo..hi` of `x`, is among the
    /// uses of the value it points at.
    pub open spec fn slots_linked(self, x: ValueId, lo: int, hi: int) -> bool {
        forall|user: ValueId, i: int|
            self.has(user) && 0 <= i < self.values[user].operands.len() && !(user == x && lo <= i
                < hi) ==> #[trigger] self.slot_linked(user, i)
    }

    /// Each use is an operand slot that points at the value, and none is one
    /// of the slots `lo..hi` of `x`.
    pub open spec fn uses_linked(self, x: ValueId, lo: int, hi: int) -> bool {
        forall|v: ValueId, k: int|
            self.has(v) && 0 <= k < self.values[v].uses.len() ==> {
                &&& #[trigger] self.use_linked(v, k)
                &&& !(self.values[v].uses[k].user == x && lo <= self.values[v].uses[k].index < hi)
            }
    }

    /// The value `v` lists no use twice.
    pub open spec fn uses_once(self, v: ValueId) -> bool {
        self.values[v].uses.no_duplicates()
    }

    /// No value lists a use twice.
    pub open spec fn uses_distinct(self) -> bool {
        forall|v: ValueId| self.has(v) ==> #[trigger] self.uses_once(v)
    }

    /// The def-use invariant, but for the operand slots `lo..hi` of `x`, which
    /// no value lists among its uses.
    pub open spec fn linked_except(self, x: ValueId, lo: int, hi: int) -> bool {
        &&& self.slots_linked(x, lo, hi)
        &&& self.uses_linked(x, lo, hi)
        &&& self.uses_distinct()
    }

    /// Each operand slot is among the uses of the value it points at.
    pub open spec fn every_slot_linked(self) -> bool {
        forall|user: ValueId, i: int|
            self.has(user) && 0 <= i < self.values[user].operands.len()
                ==> #[trigger] self.slot_linked(user, i)
    }

    /// Each use is an operand slot that points at the value.
    pub open spec fn every_use_linked(self) -> bool {
        forall|v: ValueId, k: int|
            self.has(v) && 0 <= k < self.values[v].uses.len() ==> #[trigger] self.use_linked(v, k)
    }

    /// The def-use invariant: each operand slot is among the uses of the
    /// value it points at, each use is such a slot, and no use is listed
    /// twice.
    pub open spec fn linked(self) -> bool {
        &&& self.every_slot_linked()
        &&& self.every_use_linked()
        &&& self.uses_distinct()
    }

    /// What holds of each value by itself: its handle was given out, only a
    /// user has operands, only an instruction is in a basic block, which
    /// exists, and no instruction is a shared constant.
    pub open spec fn value_ok(self, v: ValueId) -> bool {
        let data = self.values[v];
        &&& v.0 < self.next_value
        &&& data.operands.len() <= usize::MAX
        &&& !data.kind.user() ==> data.operands.len() == 0
        &&& data.bb is Some ==> data.kind.inst() && self.bbs.contains(data.bb->Some_0)
        &&& data.shared ==> !data.kind.inst()
    }

    /// Each entry of `pool` is a shared value of the kind `kind` that exists
    /// and has the type of the entry, and no type has two entries.
    pub open spec fn pool_ok(self, pool: Seq<(TypeKind, ValueId)>, kind: ValueKind) -> bool {
        &&& forall|i: int|
            0 <= i < pool.len() ==> {
                let data = self.values[(#[trigger] pool[i]).1];
                &&& self.has(pool[i].1)
                &&& data.kind == kind
                &&& data.ty == pool[i].0
                &&& data.shared
            }
        &&& forall|i: int, j: int|
            0 <= i < pool.len() && 0 <= j < pool.len() && i != j ==> (#[trigger] pool[i]).0
                != (#[trigger] pool[j]).0
    }

    /// The shared constants exist and are what the pools say.
    pub open spec fn pools_ok(self) -> bool {
        &&& forall|n: i32| #[trigger]
            self.ints.contains_key(n) ==> {
                let data = self.values[self.ints[n]];
                &&& self.has(self.ints[n])
                &&& data.kind == ValueKind::Integer(Integer { value: n })
                &&& data.ty == TypeKind::Int32
                &&& data.shared
            }
        &&& self.pool_ok(self.zeros, ValueKind::ZeroInit(ZeroInit))
        &&& self.pool_ok(self.undefs, ValueKind::Undef(Undef))
    }

    /// What holds of each value by itself holds of every value.
    pub open spec fn values_ok(self) -> bool {
        forall|v: ValueId| self.has(v) ==> #[trigger] self.value_ok(v)
    }

    /// What holds of the values one by one, of the handles of the basic
    /// blocks and of the shared constants.
    pub open spec fn framed(self) -> bool {
        &&& self.values_ok()
        &&& forall|b: BlockId| self.bbs.contains(b) ==> b.0 < self.next_bb
        &&& self.pools_ok()
    }

    /// Entry `k` of the users of the basic block `b` is a value that names
    /// `b` as a target.
    pub open spec fn user_listed(self, b: BlockId, k: int) -> bool {
        let x = self.users[b][k];
        &&& self.has(x)
        &&& self.values[x].kind.targets().contains(b)
    }

    /// Target `j` of the value `x` is a handle that was given out, and if the
    /// basic block still exists, `x` is among its users.
    pub open spec fn target_listed(self, x: ValueId, j: int) -> bool {
        let b = self.values[x].kind.targets()[j];
        &&& b.0 < self.next_bb
        &&& self.bbs.contains(b) ==> self.users[b].contains(x)
    }

    /// The users of the basic blocks are right but for the value `x`, which
    /// none of them lists, whatever it names.
    pub open spec fn users_clear(self, x: ValueId) -> bool {
        &&& forall|b: BlockId| #[trigger] self.users.contains_key(b) <==> self.bbs.contains(b)
        &&& forall|b: BlockId, k: int|
            self.bbs.contains(b) && 0 <= k < self.users[b].len() ==> #[trigger] self.user_listed(
                b,
                k,
            ) && self.users[b][k] != x
        &&& forall|y: ValueId, j: int|
            self.has(y) && y != x && 0 <= j < self.values[y].kind.targets().len()
                ==> #[trigger] self.target_listed(y, j)
        &&& forall|b: BlockId| self.bbs.contains(b) ==> (#[trigger] self.users[b]).no_duplicates()
    }

    /// The users of each basic block that exists are, each once, the values
    /// that name it as a target.
    pub open spec fn users_ok(self) -> bool {
        &&& forall|b: BlockId| #[trigger] self.users.contains_key(b) <==> self.bbs.contains(b)
        &&& forall|b: BlockId, k: int|
            self.bbs.contains(b) && 0 <= k < self.users[b].len() ==> #[trigger] self.user_listed(
                b,
                k,
            )
        &&& forall|y: ValueId, j: int|
            self.has(y) && 0 <= j < self.values[y].kind.targets().len()
                ==> #[trigger] self.target_listed(y, j)
        &&& forall|b: BlockId| self.bbs.contains(b) ==> (#[trigger] self.users[b]).no_duplicates()
    }

    /// The users of the basic blocks once the value `v` names the basic
    /// blocks `targets`: those of them that exist list `v`, once.
    pub open spec fn users_with(self, v: ValueId, targets: Seq<BlockId>) -> Map<
        BlockId,
        Seq<ValueId>,
    > {
        Map::new(
            |b: BlockId| self.users.contains_key(b),
            |b: BlockId|
                if targets.contains(b) && !self.users[b].contains(v) {
                    self.users[b].push(v)
                } else {
                    self.users[b]
                },
        )
    }

    /// The users of the basic blocks once the value `v` names none of the
    /// basic blocks `targets`: none of them lists `v`.
    pub open spec fn users_without(self, v: ValueId, targets: Seq<BlockId>) -> Map<
        BlockId,
        Seq<ValueId>,
    > {
        Map::new(
            |b: BlockId| self.users.contains_key(b),
            |b: BlockId|
                if targets.contains(b) && self.users[b].contains(v) {
                    self.users[b].remove(self.users[b].index_of(v))
                } else {
                    self.users[b]
                },
        )
    }

    /// The graph in which the basic blocks `targets` list `v` among their
    /// users.
    pub open spec fn name_targets(self, v: ValueId, targets: Seq<BlockId>) -> GraphView {
        GraphView { users: self.users_with(v, targets), ..self }
    }

    /// The graph in which the basic blocks `targets` do not list `v` among
    /// their users.
    pub open spec fn unname_targets(self, v: ValueId, targets: Seq<BlockId>) -> GraphView {
        GraphView { users: self.users_without(v, targets), ..self }
    }

    /// The invariant of the graph but for the users of the basic blocks.
    pub open spec fn sound(self) -> bool {
        &&& self.framed()
        &&& self.linked()
    }

    /// The invariant of the graph.
    pub open spec fn wf(self) -> bool {
        &&& self.framed()
        &&& self.linked()
        &&& self.users_ok()
    }
}

impl View for DataFlowGraph {
    type V = GraphView;

    closed spec fn view(&self) -> GraphView {
        GraphView {
            values: Map::new(
                |v: ValueId| v.0 < self.slots.len() && self.slots[v.0 as int] is Some,
                |v: ValueId| self.slots[v.0 as int]->Some_0@,
            ),
            next_value: self.slots.len() as nat,
            bbs: Set::new(|b: BlockId| b.0 < self.blocks.len() && self.blocks[b.0 as int] is Some),
            users: Map::new(
                |b: BlockId| b.0 < self.blocks.len() && self.blocks[b.0 as int] is Some,
                |b: BlockId| self.blocks[b.0 as int]->Some_0@,
            ),
            next_bb: self.blocks.len() as nat,
            ints: self.ints@,
            zeros: pool_view(self.zeros@),
            undefs: pool_view(self.undefs@),
        }
    }
}

/// Each part of the view hangs on one part of the graph: where that part
/// is the same in two graphs, so is the part of the view.
proof fn lemma_parts(before: DataFlowGraph, after: DataFlowGraph)
    ensures
        after.slots@ == before.slots@ ==> after@.values == before@.values && after@.next_value
            == before@.next_value,
        after.blocks@ == before.blocks@ ==> after@.bbs == before@.bbs && after@.users
            == before@.users && after@.next_bb == before@.next_bb,
        after.ints@ == before.ints@ ==> after@.ints == before@.ints,
        after.zeros@ == before.zeros@ ==> after@.zeros == before@.zeros,
        after.undefs@ == before.undefs@ ==> after@.undefs == before@.undefs,
{
    if after.slots@ == before.slots@ {
        assert(after@.values =~= before@.values);
    }
    if after.blocks@ == before.blocks@ {
        assert(after@.bbs =~= before@.bbs);
        assert(after@.users =~= before@.users);
    }
    if after.zeros@ == before.zeros@ {
        assert(after@.zeros =~= before@.zeros);
    }
    if after.undefs@ == before.undefs@ {
        assert(after@.undefs =~= before@.undefs);
    }
}

/// A graph that differs from another in the data of the value `v` alone has
/// the view of the other but for that data.
proof fn lemma_slot_changed(before: DataFlowGraph, after: DataFlowGraph, v: ValueId)
    requires
        v.0 < before.slots.len(),
        after.slots[v.0 as int] is Some,
        after.slots@ == before.slots@.update(v.0 as int, after.slots[v.0 as int]),
        after.blocks@ == before.blocks@,
        after.ints@ == before.ints@,
        after.zeros@ == before.zeros@,
        after.undefs@ == before.undefs@,
    ensures
        after@ == before@.with_value(v, after.slots[v.0 as int]->Some_0@),
{
    lemma_parts(before, after);
    assert(after@.values =~= before@.with_value(v, after.slots[v.0 as int]->Some_0@).values);
}

impl DataFlowGraph {
    /// The invariant of the graph.
    pub open spec fn wf(&self) -> bool {
        self@.wf()
    }

    /// Creates an empty data flow graph.
    pub fn new() -> (dfg: DataFlowGraph)
        ensures
            dfg.wf(),
            dfg@.values == Map::<ValueId, ValueView>::empty(),
            dfg@.next_value == 0,
            dfg@.bbs == Set::<BlockId>::empty(),
            dfg@.users == Map::<BlockId, Seq<ValueId>>::empty(),
            dfg@.next_bb == 0,
            dfg@.ints == Map::<i32, ValueId>::empty(),
            dfg@.zeros == Seq::<(TypeKind, ValueId)>::empty(),
            dfg@.undefs == Seq::<(TypeKind, ValueId)>::empty(),
    {
        let dfg = DataFlowGraph {
            slots: Vec::new(),
            blocks: Vec::new(),
            ints: HashMap::new(),
            zeros: Vec::new(),
            undefs: Vec::new(),
        };
        proof {
            assert(dfg@.values =~= Map::<ValueId, ValueView>::empty());
            assert(dfg@.bbs =~= Set::<BlockId>::empty());
            assert(dfg@.users =~= Map::<BlockId, Seq<ValueId>>::empty());
            assert(dfg@.zeros =~= Seq::<(TypeKind, ValueId)>::empty());
            assert(dfg@.undefs =~= Seq::<(TypeKind, ValueId)>::empty());
        }
        dfg
    }

    /// Whether the value `v` exists.
    pub fn contains(&self, v: ValueId) -> (b: bool)
        ensures
            b == self@.has(v),
    {
        v.0 < self.slots.len() && self.slots[v.0].is_some()
    }

    /// Whether the basic block `bb` exists.
    pub fn contains_bb(&self, bb: BlockId) -> (b: bool)
        ensures
            b == self@.bbs.contains(bb),
    {
        bb.0 < self.blocks.len() && self.blocks[bb.0].is_some()
    }

    /// Returns the handles of the values that exist, in the order in which
    /// they were made.
    pub fn values(&self) -> (values: Vec<ValueId>)
        ensures
            forall|v: ValueId| values@.contains(v) <==> self@.has(v),
            forall|i: int, j: int| 0 <= i < j < values.len() ==> values[i].0 < values[j].0,
    {
        let mut values: Vec<ValueId> = Vec::new();
        let mut i: usize = 0;
        while i < self.slots.len()
            invariant
                i <= self.slots.len(),
                forall|v: ValueId| values@.contains(v) <==> self@.has(v) && v.0 < i,
                forall|k: int| 0 <= k < values.len() ==> (#[trigger] values[k]).0 < i,
                forall|k: int, j: int| 0 <= k < j < values.len() ==> values[k].0 < values[j].0,
            decreases self.slots.len() - i,
        {
            if self.slots[i].is_some() {
                let ghost before = values@;
                values.push(ValueId(i));
                proof {
                    assert forall|v: ValueId| values@.contains(v) <==> self@.has(v) && v.0 < i
                        + 1 by {
                        if self@.has(v) && v.0 < i + 1 {
                            if v.0 < i {
                                assert(before.contains(v));
                                let k = choose|k: int| 0 <= k < before.len() && before[k] == v;
                                assert(values@[k] == v);
                            } else {
                                assert(values@[before.len() as int] == v);
                            }
                        }
                        if values@.contains(v) {
                            let k = choose|k: int| 0 <= k < values@.len() && values@[k] == v;
                            if k < before.len() {
                                assert(before[k] == v);
                            }
                        }
                    }
                }
            }
            i += 1;
        }
        values
    }

    /// Returns the handles of the basic blocks that exist, in the order in
    /// which they were made.
    pub fn bbs(&self) -> (bbs: Vec<BlockId>)
        ensures
            forall|b: BlockId| bbs@.contains(b) <==> self@.bbs.contains(b),
            forall|i: int, j: int| 0 <= i < j < bbs.len() ==> bbs[i].0 < bbs[j].0,
    {
        let mut bbs: Vec<BlockId> = Vec::new();
        let mut i: usize = 0;
        while i < self.blocks.len()
            invariant
                i <= self.blocks.len(),
                forall|b: BlockId| bbs@.contains(b) <==> self@.bbs.contains(b) && b.0 < i,
                forall|k: int| 0 <= k < bbs.len() ==> (#[trigger] bbs[k]).0 < i,
                forall|k: int, j: int| 0 <= k < j < bbs.len() ==> bbs[k].0 < bbs[j].0,
            decreases self.blocks.len() - i,
        {
            if self.blocks[i].is_some() {
                let ghost before = bbs@;
                bbs.push(BlockId(i));
                proof {
                    assert(bbs@[before.len() as int] == BlockId(i));
                    assert(self@.bbs.contains(BlockId(i)));
                    assert forall|b: BlockId| self@.bbs.contains(b) && b.0 < i
                        + 1 implies bbs@.contains(b) by {
                        if b.0 < i {
                            assert(before.contains(b));
                            let k = choose|k: int| 0 <= k < before.len() && before[k] == b;
                            assert(bbs@[k] == b);
                        } else {
                            assert(b == BlockId(i));
                        }
                    }
                    assert forall|b: BlockId| bbs@.contains(b) implies self@.bbs.contains(b)
                        && b.0 < i + 1 by {
                        let k = choose|k: int| 0 <= k < bbs@.len() && bbs@[k] == b;
                        if k < before.len() {
                            assert(before[k] == b);
                            assert(before.contains(b));
                        }
                    }
                }
            }
            i += 1;
        }
        bbs
    }

    /// Creates a new basic block in the graph and returns its handle.
    pub fn new_bb(&mut self) -> (bb: BlockId)
        requires
            old(self).wf(),
        ensures
            bb == BlockId(old(self)@.next_bb as usize),
            !old(self)@.bbs.contains(bb),
            final(self)@ == old(self)@.add_bb(),
            final(self).wf(),
    {
        let bb = BlockId(self.blocks.len());
        self.blocks.push(Some(ValueList::new()));
        proof {
            let g = old(self)@;
            assert(self.blocks.len() <= usize::MAX);
            lemma_parts(*old(self), *self);
            assert(self@.bbs =~= g.add_bb().bbs);
            assert(self@.users =~= g.add_bb().users);
            assert forall|v: ValueId| self@.has(v) implies #[trigger] self@.value_ok(v) by {
                assert(g.value_ok(v));
            }
            assert(self@.values_ok());
            assert forall|user: ValueId, i: int|
                self@.has(user) && 0 <= i
                    < self@.values[user].operands.len() implies #[trigger] self@.slot_linked(
                user,
                i,
            ) by {
                assert(g.slot_linked(user, i));
            }
            assert(self@.every_slot_linked());
            assert forall|v: ValueId, k: int|
                self@.has(v) && 0 <= k
                    < self@.values[v].uses.len() implies #[trigger] self@.use_linked(v, k) by {
                assert(g.use_linked(v, k));
            }
            assert(self@.every_use_linked());
            assert forall|v: ValueId| self@.has(v) implies #[trigger] self@.uses_once(v) by {
                assert(g.uses_once(v));
            }
            assert(self@.uses_distinct());
            assert(g.pool_ok(g.zeros, ValueKind::ZeroInit(ZeroInit)));
            assert(g.pool_ok(g.undefs, ValueKind::Undef(Undef)));
            assert forall|b: BlockId, k: int|
                self@.bbs.contains(b) && 0 <= k
                    < self@.users[b].len() implies #[trigger] self@.user_listed(b, k) by {
                assert(g.user_listed(b, k));
            }
            assert forall|y: ValueId, j: int|
                self@.has(y) && 0 <= j
                    < self@.values[y].kind.targets().len() implies #[trigger] self@.target_listed(
                y,
                j,
            ) by {
                assert(g.target_listed(y, j));
            }
            assert forall|b: BlockId| self@.bbs.contains(b) implies (
            #[trigger] self@.users[b]).no_duplicates() by {
                if b != bb {
                    assert(g.users[b].no_duplicates());
                }
            }
        }
        bb
    }

    /// Gets the values that name the basic block `bb` as a target.
    pub fn used_by(&self, bb: BlockId) -> (users: &ValueList)
        requires
            self@.bbs.contains(bb),
        ensures
            users@ == self@.users[bb],
    {
        self.blocks[bb.0].as_ref().unwrap()
    }

    /// Lists `v` among the users of the basic block `bb`, if it is not
    /// listed there.
    pub(crate) fn name_target(&mut self, bb: BlockId, v: ValueId)
        ensures
            final(self)@ == old(self)@.name_targets(v, seq![bb]),
    {
        if bb.0 < self.blocks.len() {
            match &mut self.blocks[bb.0] {
                Some(users) => {
                    if !users.contains(v) {
                        users.push(v);
                    }
                },
                None => {},
            }
        }
        proof {
            let g = old(self)@;
            assert(seq![bb].contains(bb)) by {
                assert(seq![bb][0] == bb);
            }
            lemma_parts(*old(self), *self);
            assert(self@.bbs =~= g.bbs);
            assert(self@.users =~= g.users_with(v, seq![bb]));
        }
    }

    /// Takes `v` from the users of the basic block `bb`, if it is listed
    /// there.
    pub(crate) fn unname_target(&mut self, bb: BlockId, v: ValueId)
        ensures
            final(self)@ == old(self)@.unname_targets(v, seq![bb]),
    {
        if bb.0 < self.blocks.len() {
            match &mut self.blocks[bb.0] {
                Some(users) => {
                    if users.contains(v) {
                        users.remove(v);
                    }
                },
                None => {},
            }
        }
        proof {
            let g = old(self)@;
            assert(seq![bb].contains(bb)) by {
                assert(seq![bb][0] == bb);
            }
            lemma_parts(*old(self), *self);
            assert(self@.bbs =~= g.bbs);
            assert(self@.users =~= g.users_without(v, seq![bb]));
        }
    }

    /// Takes the basic block `bb` out of the graph.
    pub(crate) fn retire_bb(&mut self, bb: BlockId)
        requires
            old(self)@.bbs.contains(bb),
        ensures
            final(self)@ == old(self)@.without_bb(bb),
    {
        self.blocks[bb.0] = None;
        proof {
            let g = old(self)@;
            lemma_parts(*old(self), *self);
            assert(self@.bbs =~= g.without_bb(bb).bbs);
            assert(self@.users =~= g.without_bb(bb).users);
        }
    }

    /// The number of handles of values given out so far.
    pub fn handles(&self) -> (n: usize)
        ensures
            n == self@.next_value,
    {
        self.slots.len()
    }

    /// Gets the data of the value `v`.
    pub fn value(&self, v: ValueId) -> (data: &ValueData)
        requires
            self@.has(v),
        ensures
            data@ == self@.values[v],
    {
        self.slots[v.0].as_ref().unwrap()
    }

    /// Adds the edge `u` to the uses of `v`.
    pub(crate) fn push_use(&mut self, v: ValueId, u: Use)
        requires
            old(self)@.has(v),
            !old(self)@.values[v].uses.contains(u),
        ensures
            final(self)@ == old(self)@.push_use(v, u),
    {
        match &mut self.slots[v.0] {
            Some(data) => data.add_use(u),
            None => {},
        }
        proof {
            lemma_slot_changed(*old(self), *self, v);
        }
    }

    /// Removes the edge `u` from the uses of `v`.
    pub(crate) fn drop_use(&mut self, v: ValueId, u: Use)
        requires
            old(self)@.has(v),
            old(self)@.values[v].uses.contains(u),
        ensures
            final(self)@ == old(self)@.drop_use(v, u),
    {
        match &mut self.slots[v.0] {
            Some(data) => data.remove_use(u),
            None => {},
        }
        proof {
            lemma_slot_changed(*old(self), *self, v);
        }
    }

    /// Puts the edge `to` among the uses of `v` where the edge `from` stands.
    pub(crate) fn rename_use(&mut self, v: ValueId, from: Use, to: Use)
        requires
            old(self)@.has(v),
            old(self)@.values[v].uses.contains(from),
            !old(self)@.values[v].uses.contains(to),
        ensures
            final(self)@ == old(self)@.rename_use(v, from, to),
    {
        match &mut self.slots[v.0] {
            Some(data) => data.rename_use(from, to),
            None => {},
        }
        proof {
            lemma_slot_changed(*old(self), *self, v);
        }
    }

    /// Makes the slot of the edge `u` point at `v`.
    pub(crate) fn point_at(&mut self, u: Use, v: ValueId)
        requires
            old(self)@.has(u.user),
            u.index < old(self)@.values[u.user].operands.len(),
        ensures
            final(self)@ == old(self)@.point_at(u, v),
    {
        match &mut self.slots[u.user.0] {
            Some(data) => data.set_operand(u.index, v),
            None => {},
        }
        proof {
            lemma_slot_changed(*old(self), *self, u.user);
        }
    }

    /// Gives `user` one more operand slot, which points at `v`.
    pub(crate) fn push_operand(&mut self, user: ValueId, v: ValueId)
        requires
            old(self)@.has(user),
        ensures
            final(self)@ == old(self)@.with_operands(
                user,
                old(self)@.values[user].operands.push(v),
            ),
            old(self)@.values[user].operands.len() < usize::MAX,
    {
        match &mut self.slots[user.0] {
            Some(data) => {
                data.push_operand(v);
            },
            None => {},
        }
        proof {
            lemma_slot_changed(*old(self), *self, user);
        }
    }

    /// Takes the operand slot `index` from `user`; the slots behind it move up.
    pub(crate) fn cut_operand(&mut self, user: ValueId, index: usize)
        requires
            old(self)@.has(user),
            index < old(self)@.values[user].operands.len(),
        ensures
            final(self)@ == old(self)@.with_operands(
                user,
                old(self)@.values[user].operands.remove(index as int),
            ),
    {
        match &mut self.slots[user.0] {
            Some(data) => data.remove_operand(index),
            None => {},
        }
        proof {
            lemma_slot_changed(*old(self), *self, user);
        }
    }

    /// Takes all operand slots from `user`.
    pub(crate) fn clear_operands(&mut self, user: ValueId)
        requires
            old(self)@.has(user),
        ensures
            final(self)@ == old(self)@.with_operands(user, Seq::empty()),
    {
        match &mut self.slots[user.0] {
            Some(data) => data.clear_operands(),
            None => {},
        }
        proof {
            lemma_slot_changed(*old(self), *self, user);
        }
    }

    /// Stores `data` under the next handle.
    pub(crate) fn store(&mut self, data: ValueData) -> (v: ValueId)
        ensures
            old(self)@.next_value < usize::MAX,
            v == old(self)@.next(),
            final(self)@ == old(self)@.store(data@),
    {
        let v = ValueId(self.slots.len());
        self.slots.push(Some(data));
        proof {
            assert(self.slots.len() <= usize::MAX);
            assert(self@.values =~= old(self)@.store(data@).values);
            lemma_parts(*old(self), *self);
        }
        v
    }

    /// Takes the data of `v` out of the graph.
    pub(crate) fn take(&mut self, v: ValueId) -> (data: ValueData)
        requires
            old(self)@.has(v),
        ensures
            data@ == old(self)@.values[v],
            final(self)@ == old(self)@.without(v),
    {
        let mut slot: Option<ValueData> = None;
        std::mem::swap(&mut self.slots[v.0], &mut slot);
        proof {
            lemma_parts(*old(self), *self);
            assert(self@.values =~= old(self)@.without(v).values);
        }
        slot.unwrap()
    }

    /// Stores `data` under the handle `v`, which was handed out before.
    pub(crate) fn put(&mut self, v: ValueId, data: ValueData)
        requires
            v.0 < old(self)@.next_value,
        ensures
            final(self)@ == old(self)@.with_value(v, data@),
    {
        self.slots[v.0] = Some(data);
        proof {
            lemma_slot_changed(*old(self), *self, v);
        }
    }

    /// Looks for the shared node of the integer constant `n`.
    pub(crate) fn find_int(&self, n: i32) -> (found: Option<ValueId>)
        ensures
            found == if self@.ints.contains_key(n) {
                Some(self@.ints[n])
            } else {
                None
            },
    {
        match self.ints.get(&n) {
            Some(v) => Some(*v),
            None => None,
        }
    }

    /// Makes `v` the shared node of the integer constant `n`.
    pub(crate) fn pool_int(&mut self, n: i32, v: ValueId)
        ensures
            final(self)@ == (GraphView { ints: old(self)@.ints.insert(n, v), ..old(self)@ }),
    {
        self.ints.insert(n, v);
        proof {
            lemma_parts(*old(self), *self);
        }
    }

    /// Looks for the shared zero initializer of the type `ty`.
    pub(crate) fn find_zero(&self, ty: &Type) -> (found: Option<ValueId>)
        requires
            self.wf(),
        ensures
            found == pooled(self@.zeros, ty@),
    {
        find_pooled(&self.zeros, ty)
    }

    /// Makes `v` the shared zero initializer of the type `ty`.
    pub(crate) fn pool_zero(&mut self, ty: Type, v: ValueId)
        ensures
            final(self)@ == (GraphView { zeros: old(self)@.zeros.push((ty@, v)), ..old(self)@ }),
    {
        self.zeros.push((ty, v));
        proof {
            lemma_parts(*old(self), *self);
            assert(self@.zeros =~= old(self)@.zeros.push((ty@, v)));
        }
    }

    /// Looks for the shared undefined value of the type `ty`.
    pub(crate) fn find_undef(&self, ty: &Type) -> (found: Option<ValueId>)
        requires
            self.wf(),
        ensures
            found == pooled(self@.undefs, ty@),
    {
        find_pooled(&self.undefs, ty)
    }

    /// Makes `v` the shared undefined value of the type `ty`.
    pub(crate) fn pool_undef(&mut self, ty: Type, v: ValueId)
        ensures
            final(self)@ == (GraphView { undefs: old(self)@.undefs.push((ty@, v)), ..old(self)@ }),
    {
        self.undefs.push((ty, v));
        proof {
            lemma_parts(*old(self), *self);
            assert(self@.undefs =~= old(self)@.undefs.push((ty@, v)));
        }
    }

    /// Takes all uses from `v`.
    pub(crate) fn take_uses(&mut self, v: ValueId) -> (uses: Vec<Use>)
        requires
            old(self)@.has(v),
        ensures
            uses@ == old(self)@.values[v].uses,
            final(self)@ == old(self)@.with_value(
                v,
                ValueView { uses: Seq::empty(), ..old(self)@.values[v] },
            ),
    {
        let uses = match &mut self.slots[v.0] {
            Some(data) => data.take_uses(),
            None => Vec::new(),
        };
        proof {
            lemma_slot_changed(*old(self), *self, v);
        }
        uses
    }

    /// Puts the value `v` into the basic block `bb`, or into none.
    pub(crate) fn set_bb(&mut self, v: ValueId, bb: Option<BlockId>)
        requires
            old(self)@.has(v),
        ensures
            final(self)@ == old(self)@.with_bb(v, bb),
    {
        match &mut self.slots[v.0] {
            Some(data) => data.set_bb(bb),
            None => {},
        }
        proof {
            lemma_slot_changed(*old(self), *self, v);
        }
    }
}

} // verus!
