//! Constants, of which the graph keeps one shared node for each content,
//! and the other values that are no instructions.

use vstd::prelude::*;
use crate::dfg::{pooled, DataFlowGraph, GraphView};
use crate::entities::{BlockId, ValueId};
use crate::node::{User, Value, ValueData, ValueView};
use crate::types::{Type, TypeKind};
use crate::values::{Aggregate, ArgRef, Integer, Undef, ValueKind, ZeroInit};

verus! {

/// The data of a shared constant of the type `ty` and the kind `kind`.
pub open spec fn constant(ty: TypeKind, kind: ValueKind) -> ValueView {
    ValueView { shared: true, ..ValueView::fresh(ty, kind, Seq::empty()) }
}

impl GraphView {
    /// The node of the integer constant `n`: the shared one if there is one,
    /// and a new one otherwise.
    pub open spec fn int_const(self, n: i32) -> ValueId {
        if self.ints.contains_key(n) {
            self.ints[n]
        } else {
            self.next()
        }
    }

    /// The graph that has a shared node of the integer constant `n`.
    pub open spec fn with_int(self, n: i32) -> GraphView {
        if self.ints.contains_key(n) {
            self
        } else {
            GraphView {
                ints: self.ints.insert(n, self.next()),
                ..self.store(constant(TypeKind::Int32, ValueKind::Integer(Integer { value: n })))
            }
        }
    }

    /// The zero initializer of the type `ty`: the shared one if there is
    /// one, and a new one otherwise.
    pub open spec fn zero_const(self, ty: TypeKind) -> ValueId {
        match pooled(self.zeros, ty) {
            Some(v) => v,
            None => self.next(),
        }
    }

    /// The graph that has a shared zero initializer of the type `ty`.
    pub open spec fn with_zero(self, ty: TypeKind) -> GraphView {
        match pooled(self.zeros, ty) {
            Some(_) => self,
            None => GraphView {
                zeros: self.zeros.push((ty, self.next())),
                ..self.store(constant(ty, ValueKind::ZeroInit(ZeroInit)))
            },
        }
    }

    /// The undefined value of the type `ty`: the shared one if there is one,
    /// and a new one otherwise.
    pub open spec fn undef_const(self, ty: TypeKind) -> ValueId {
        match pooled(self.undefs, ty) {
            Some(v) => v,
            None => self.next(),
        }
    }

    /// The graph that has a shared undefined value of the type `ty`.
    pub open spec fn with_undef(self, ty: TypeKind) -> GraphView {
        match pooled(self.undefs, ty) {
            Some(_) => self,
            None => GraphView {
                undefs: self.undefs.push((ty, self.next())),
                ..self.store(constant(ty, ValueKind::Undef(Undef)))
            },
        }
    }
}

/// A graph that has taken a new constant among its values, whatever its
/// pools are, is well formed but for the pools, and every entry of a pool
/// of the graph before is the value that it was.
proof fn lemma_constant_stored(g: GraphView, h: GraphView, ty: TypeKind, kind: ValueKind)
    requires
        g.wf(),
        g.next_value < usize::MAX,
        !kind.user(),
        !kind.inst(),
        kind.targets().len() == 0,
        h == (GraphView {
            ints: h.ints,
            zeros: h.zeros,
            undefs: h.undefs,
            ..g.store(constant(ty, kind))
        }),
    ensures
        !g.has(g.next()),
        h.has(g.next()),
        h.values[g.next()] == constant(ty, kind),
        h.values_ok(),
        h.linked(),
        h.users_ok(),
        forall|b: BlockId| h.bbs.contains(b) ==> b.0 < h.next_bb,
        forall|v: ValueId| g.has(v) ==> h.has(v) && #[trigger] h.values[v] == g.values[v],
        forall|pool: Seq<(TypeKind, ValueId)>, k: ValueKind| #![trigger g.pool_ok(pool, k)]
            g.pool_ok(pool, k) ==> h.pool_ok(pool, k),
{
    let id = g.next();
    if g.has(id) {
        assert(g.value_ok(id));
    }
    assert forall|b: BlockId, k: int|
        h.bbs.contains(b) && 0 <= k < h.users[b].len() implies #[trigger] h.user_listed(b, k) by {
        assert(g.user_listed(b, k));
    }
    assert forall|y: ValueId, j: int|
        h.has(y) && 0 <= j < h.values[y].kind.targets().len() implies #[trigger] h.target_listed(
        y,
        j,
    ) by {
        if y != id {
            assert(g.target_listed(y, j));
        }
    }
    assert forall|v: ValueId| h.has(v) implies #[trigger] h.value_ok(v) by {
        if v != id {
            assert(g.value_ok(v));
        }
    }
    assert(h.values_ok());
    assert forall|user: ValueId, i: int|
        h.has(user) && 0 <= i < h.values[user].operands.len() implies #[trigger] h.slot_linked(
        user,
        i,
    ) by {
        assert(g.slot_linked(user, i));
    }
    assert(h.every_slot_linked());
    assert forall|v: ValueId, k: int|
        h.has(v) && 0 <= k < h.values[v].uses.len() implies #[trigger] h.use_linked(v, k) by {
        assert(g.use_linked(v, k));
    }
    assert(h.every_use_linked());
    assert forall|v: ValueId| h.has(v) implies #[trigger] h.uses_once(v) by {
        if v != id {
            assert(g.uses_once(v));
        }
    }
    assert(h.uses_distinct());
}

/// A pool of types that gets an entry for a new constant of a type that
/// had none is a pool of the graph that has the constant, and finds the
/// constant for that type and what it found before for every other type.
proof fn lemma_pool_grown(
    g: GraphView,
    h: GraphView,
    pool: Seq<(TypeKind, ValueId)>,
    ty: TypeKind,
    kind: ValueKind,
)
    requires
        g.wf(),
        g.next_value < usize::MAX,
        !kind.user(),
        !kind.inst(),
        kind.targets().len() == 0,
        h == (GraphView {
            ints: h.ints,
            zeros: h.zeros,
            undefs: h.undefs,
            ..g.store(constant(ty, kind))
        }),
        g.pool_ok(pool, kind),
        pooled(pool, ty) is None,
    ensures
        h.pool_ok(pool.push((ty, g.next())), kind),
        pooled(pool.push((ty, g.next())), ty) == Some(g.next()),
        forall|other: TypeKind|
            other != ty ==> #[trigger] pooled(pool.push((ty, g.next())), other) == pooled(
                pool,
                other,
            ),
{
    lemma_constant_stored(g, h, ty, kind);
    lemma_pooled_push(pool, ty, g.next());
    assert(h.pool_ok(pool, kind));
}

/// Asking twice for the integer constant `n` gives the same node and
/// changes nothing the second time; asking for another constant `m` gives
/// another node.
pub proof fn lemma_int_canonical(g: GraphView, n: i32, m: i32)
    requires
        g.wf(),
        g.next_value < usize::MAX,
    ensures
        g.with_int(n).wf(),
        g.with_int(n).has(g.int_const(n)),
        g.with_int(n).values[g.int_const(n)].kind == ValueKind::Integer(Integer { value: n }),
        g.with_int(n).values[g.int_const(n)].ty == TypeKind::Int32,
        g.with_int(n).int_const(n) == g.int_const(n),
        g.with_int(n).with_int(n) == g.with_int(n),
        n != m ==> g.with_int(n).int_const(m) != g.int_const(n),
{
    let h = g.with_int(n);
    if !g.ints.contains_key(n) {
        lemma_constant_stored(g, h, TypeKind::Int32, ValueKind::Integer(Integer { value: n }));
        assert(g.pool_ok(g.zeros, ValueKind::ZeroInit(ZeroInit)));
        assert(g.pool_ok(g.undefs, ValueKind::Undef(Undef)));
        assert forall|k: i32| #[trigger] h.ints.contains_key(k) implies {
            let data = h.values[h.ints[k]];
            &&& h.has(h.ints[k])
            &&& data.kind == ValueKind::Integer(Integer { value: k })
            &&& data.ty == TypeKind::Int32
            &&& data.shared
        } by {
            if k != n {
                assert(g.ints.contains_key(k));
            }
        }
    }
    if n != m && h.ints.contains_key(m) {
        assert(h.ints.contains_key(n));
    }
    if !h.ints.contains_key(m) {
        if h.has(h.next()) {
            assert(h.value_ok(h.next()));
        }
    }
}

impl Integer {
    /// Creates an integer constant with value `value`, or finds the one
    /// that the graph has. Its type is `i32`.
    pub fn new(dfg: &mut DataFlowGraph, value: i32) -> (v: ValueId)
        requires
            old(dfg).wf(),
        ensures
            v == old(dfg)@.int_const(value),
            final(dfg)@ == old(dfg)@.with_int(value),
            final(dfg).wf(),
    {
        match dfg.find_int(value) {
            Some(v) => v,
            None => {
                let data = ValueData::new_shared(
                    Type::get_i32(),
                    ValueKind::Integer(Integer { value }),
                );
                let v = dfg.store(data);
                dfg.pool_int(value, v);
                proof {
                    lemma_int_canonical(old(dfg)@, value, value);
                }
                v
            },
        }
    }
}

/// What [`pooled`] finds is an entry of the pool, and it finds none only if
/// there is none.
pub proof fn lemma_pooled(pool: Seq<(TypeKind, ValueId)>, ty: TypeKind)
    ensures
        match pooled(pool, ty) {
            Some(v) => exists|i: int| 0 <= i < pool.len() && #[trigger] pool[i] == (ty, v),
            None => forall|i: int| 0 <= i < pool.len() ==> (#[trigger] pool[i]).0 != ty,
        },
{
    if exists|i: int| 0 <= i < pool.len() && (#[trigger] pool[i]).0 == ty {
        let i = choose|i: int| 0 <= i < pool.len() && (#[trigger] pool[i]).0 == ty;
        assert(pool[i] == (ty, pool[i].1));
    }
}

/// A pool with one more entry, for a type that had none.
pub proof fn lemma_pooled_push(pool: Seq<(TypeKind, ValueId)>, ty: TypeKind, v: ValueId)
    requires
        pooled(pool, ty) is None,
        forall|i: int, j: int|
            0 <= i < pool.len() && 0 <= j < pool.len() && i != j ==> (#[trigger] pool[i]).0
                != (#[trigger] pool[j]).0,
    ensures
        pooled(pool.push((ty, v)), ty) == Some(v),
        forall|other: TypeKind|
            other != ty ==> #[trigger] pooled(pool.push((ty, v)), other) == pooled(pool, other),
        forall|i: int, j: int|
            0 <= i < pool.len() + 1 && 0 <= j < pool.len() + 1 && i != j ==> (#[trigger] pool.push(
                (ty, v),
            )[i]).0 != (#[trigger] pool.push((ty, v))[j]).0,
{
    let more = pool.push((ty, v));
    lemma_pooled(pool, ty);
    assert forall|i: int, j: int|
        0 <= i < more.len() && 0 <= j < more.len() && i != j implies (#[trigger] more[i]).0 != (
    #[trigger] more[j]).0 by {
        if i < pool.len() {
            assert(more[i] == pool[i]);
        }
        if j < pool.len() {
            assert(more[j] == pool[j]);
        }
    }
    assert(more[pool.len() as int].0 == ty);
    lemma_pooled(more, ty);
    assert(pooled(more, ty) == Some(v)) by {
        let i = choose|i: int| 0 <= i < more.len() && (#[trigger] more[i]).0 == ty;
        if i < pool.len() {
            assert(more[i] == pool[i]);
        }
    }
    assert forall|other: TypeKind| other != ty implies #[trigger] pooled(more, other) == pooled(
        pool,
        other,
    ) by {
        lemma_pooled(more, other);
        lemma_pooled(pool, other);
        match pooled(more, other) {
            Some(w) => {
                let i = choose|i: int| 0 <= i < more.len() && #[trigger] more[i] == (other, w);
                assert(more[i] == pool[i]);
                match pooled(pool, other) {
                    Some(x) => {
                        let j = choose|j: int|
                            0 <= j < pool.len() && #[trigger] pool[j] == (other, x);
                        assert(i == j);
                    },
                    None => {},
                }
            },
            None => {
                match pooled(pool, other) {
                    Some(x) => {
                        let j = choose|j: int|
                            0 <= j < pool.len() && #[trigger] pool[j] == (other, x);
                        assert(more[j] == pool[j]);
                    },
                    None => {},
                }
            },
        }
    }
}

/// Asking twice for the zero initializer of the type `ty` gives the same node and
/// changes nothing the second time; asking for that of another type `other`
/// gives another node.
pub proof fn lemma_zero_canonical(g: GraphView, ty: TypeKind, other: TypeKind)
    requires
        g.wf(),
        g.next_value < usize::MAX,
    ensures
        g.with_zero(ty).wf(),
        g.with_zero(ty).has(g.zero_const(ty)),
        g.with_zero(ty).values[g.zero_const(ty)].kind == ValueKind::ZeroInit(ZeroInit),
        g.with_zero(ty).values[g.zero_const(ty)].ty == ty,
        g.with_zero(ty).zero_const(ty) == g.zero_const(ty),
        g.with_zero(ty).with_zero(ty) == g.with_zero(ty),
        ty != other ==> g.with_zero(ty).zero_const(other) != g.zero_const(ty),
{
    let h = g.with_zero(ty);
    assert(g.pool_ok(g.zeros, ValueKind::ZeroInit(ZeroInit)));
    assert(g.pool_ok(g.undefs, ValueKind::Undef(Undef)));
    lemma_pooled(g.zeros, ty);
    if pooled(g.zeros, ty) is None {
        lemma_constant_stored(g, h, ty, ValueKind::ZeroInit(ZeroInit));
        lemma_pool_grown(g, h, g.zeros, ty, ValueKind::ZeroInit(ZeroInit));
        assert forall|k: i32| #[trigger] h.ints.contains_key(k) implies h.has(h.ints[k]) by {
            assert(g.ints.contains_key(k));
        }
    }
    lemma_pooled(h.zeros, ty);
    lemma_pooled(h.zeros, other);
    if pooled(h.zeros, other) is None {
        if h.has(h.next()) {
            assert(h.value_ok(h.next()));
        }
    }
}

impl ZeroInit {
    /// Creates a zero initializer of the type `ty`, or finds the one that the
    /// graph has.
    pub fn new(dfg: &mut DataFlowGraph, ty: Type) -> (v: ValueId)
        requires
            old(dfg).wf(),
            ty@ != TypeKind::Unit,
        ensures
            v == old(dfg)@.zero_const(ty@),
            final(dfg)@ == old(dfg)@.with_zero(ty@),
            final(dfg).wf(),
    {
        match dfg.find_zero(&ty) {
            Some(v) => v,
            None => {
                let data = ValueData::new_shared(ty.clone(), ValueKind::ZeroInit(ZeroInit));
                let v = dfg.store(data);
                dfg.pool_zero(ty, v);
                proof {
                    lemma_zero_canonical(old(dfg)@, ty@, ty@);
                }
                v
            },
        }
    }
}

/// Asking twice for the undefined value of the type `ty` gives the same node and
/// changes nothing the second time; asking for that of another type `other`
/// gives another node.
pub proof fn lemma_undef_canonical(g: GraphView, ty: TypeKind, other: TypeKind)
    requires
        g.wf(),
        g.next_value < usize::MAX,
    ensures
        g.with_undef(ty).wf(),
        g.with_undef(ty).has(g.undef_const(ty)),
        g.with_undef(ty).values[g.undef_const(ty)].kind == ValueKind::Undef(Undef),
        g.with_undef(ty).values[g.undef_const(ty)].ty == ty,
        g.with_undef(ty).undef_const(ty) == g.undef_const(ty),
        g.with_undef(ty).with_undef(ty) == g.with_undef(ty),
        ty != other ==> g.with_undef(ty).undef_const(other) != g.undef_const(ty),
{
    let h = g.with_undef(ty);
    assert(g.pool_ok(g.zeros, ValueKind::ZeroInit(ZeroInit)));
    assert(g.pool_ok(g.undefs, ValueKind::Undef(Undef)));
    lemma_pooled(g.undefs, ty);
    if pooled(g.undefs, ty) is None {
        lemma_constant_stored(g, h, ty, ValueKind::Undef(Undef));
        lemma_pool_grown(g, h, g.undefs, ty, ValueKind::Undef(Undef));
        assert forall|k: i32| #[trigger] h.ints.contains_key(k) implies h.has(h.ints[k]) by {
            assert(g.ints.contains_key(k));
        }
    }
    lemma_pooled(h.undefs, ty);
    lemma_pooled(h.undefs, other);
    if pooled(h.undefs, other) is None {
        if h.has(h.next()) {
            assert(h.value_ok(h.next()));
        }
    }
}

impl Undef {
    /// Creates an undefined value of the type `ty`, or finds the one that the
    /// graph has.
    pub fn new(dfg: &mut DataFlowGraph, ty: Type) -> (v: ValueId)
        requires
            old(dfg).wf(),
            ty@ != TypeKind::Unit,
        ensures
            v == old(dfg)@.undef_const(ty@),
            final(dfg)@ == old(dfg)@.with_undef(ty@),
            final(dfg).wf(),
    {
        match dfg.find_undef(&ty) {
            Some(v) => v,
            None => {
                let data = ValueData::new_shared(ty.clone(), ValueKind::Undef(Undef));
                let v = dfg.store(data);
                dfg.pool_undef(ty, v);
                proof {
                    lemma_undef_canonical(old(dfg)@, ty@, ty@);
                }
                v
            },
        }
    }
}

impl Aggregate {
    /// Creates an aggregate with the elements `elems`. Its type is the array
    /// of as many elements of their type.
    pub fn new(dfg: &mut DataFlowGraph, elems: Vec<ValueId>) -> (v: ValueId)
        requires
            old(dfg).wf(),
            elems.len() > 0,
            forall|i: int| 0 <= i < elems.len() ==> old(dfg)@.has(#[trigger] elems[i]),
            forall|i: int|
                0 <= i < elems.len() ==> old(dfg)@.values[#[trigger] elems[i]].ty
                    == old(dfg)@.values[elems[0]].ty,
            old(dfg)@.values[elems[0]].ty != TypeKind::Unit,
        ensures
            v == old(dfg)@.next(),
            final(dfg)@ == old(dfg)@.add_value(
                ValueView::fresh(
                    TypeKind::Array(Box::new(old(dfg)@.values[elems[0]].ty), elems.len() as nat),
                    ValueKind::Aggregate(Aggregate),
                    elems@,
                ),
            ),
            final(dfg).wf(),
    {
        let base = dfg.value(elems[0]).ty().clone();
        let ty = Type::get_array(base, elems.len());
        let data = ValueData::with_operands(ty, ValueKind::Aggregate(Aggregate), elems);
        dfg.new_value(data)
    }

    /// Gets the elements of the aggregate `v`.
    pub fn elems(dfg: &DataFlowGraph, v: ValueId) -> (elems: &Vec<ValueId>)
        requires
            dfg@.has(v),
            dfg@.values[v].kind == ValueKind::Aggregate(Aggregate),
        ensures
            elems@ == dfg@.values[v].operands,
    {
        dfg.value(v).operands()
    }
}

impl ArgRef {
    /// Creates a reference to the argument `index` of a function. Its type
    /// is `ty`.
    pub fn new(dfg: &mut DataFlowGraph, ty: Type, index: usize) -> (v: ValueId)
        requires
            old(dfg).wf(),
            ty@ != TypeKind::Unit,
        ensures
            v == old(dfg)@.next(),
            final(dfg)@ == old(dfg)@.add_value(
                ValueView::fresh(ty@, ValueKind::ArgRef(ArgRef { index }), Seq::empty()),
            ),
            final(dfg).wf(),
    {
        dfg.new_value(ValueData::new(ty, ValueKind::ArgRef(ArgRef { index })))
    }
}

} // verus!
