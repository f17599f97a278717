//! The def-use protocol: making an edge, pointing it at another value, and
//! redirecting every use of a value.

use vstd::prelude::*;
use crate::dfg::{DataFlowGraph, GraphView};
use crate::entities::{Use, ValueId};
use crate::linking::{
    lemma_framed, lemma_link, lemma_linked_whole, lemma_linked_widen, lemma_reslot, lemma_unlink,
    lemma_users_kept, lemma_without_use,
};
use crate::node::{User, ValueView};

verus! {

impl GraphView {
    /// The graph in which `user` has one more operand slot, which points at
    /// `value`.
    pub open spec fn add_use(self, value: ValueId, user: ValueId) -> GraphView {
        let index = self.values[user].operands.len() as usize;
        self.with_operands(user, self.values[user].operands.push(value)).push_use(
            value,
            Use { user, index },
        )
    }

    /// The value that the slot of the edge `u` points at.
    pub open spec fn target(self, u: Use) -> ValueId {
        self.values[u.user].operands[u.index as int]
    }

    /// Whether `u` is an operand slot of a value that exists.
    pub open spec fn has_use(self, u: Use) -> bool {
        &&& self.has(u.user)
        &&& u.index < self.values[u.user].operands.len()
    }

    /// The graph in which the slot of the edge `u` points at `value`: the
    /// edge leaves the uses of the value it pointed at, and is the newest
    /// use of `value`.
    pub open spec fn set_use(self, u: Use, value: ValueId) -> GraphView {
        self.drop_use(self.target(u), u).point_at(u, value).push_use(value, u)
    }

    /// The data of `x` once every use of `from` is a use of `to`.
    pub open spec fn redirected(self, x: ValueId, from: ValueId, to: ValueId, n: int) -> ValueView {
        let moved = self.values[from].uses.take(n);
        ValueView {
            operands: Seq::new(
                self.values[x].operands.len(),
                |i: int|
                    if moved.contains(Use { user: x, index: i as usize }) {
                        to
                    } else {
                        self.values[x].operands[i]
                    },
            ),
            uses: if x == from {
                Seq::empty()
            } else if x == to {
                self.values[to].uses + moved
            } else {
                self.values[x].uses
            },
            ..self.values[x]
        }
    }

    /// The graph in which the first `n` uses of `from` are uses of `to`, and
    /// `from` has none.
    pub open spec fn redirect(self, from: ValueId, to: ValueId, n: int) -> GraphView {
        GraphView {
            values: Map::new(
                |x: ValueId| self.has(x),
                |x: ValueId| self.redirected(x, from, to, n),
            ),
            ..self
        }
    }

    /// The graph in which every use of `from` is a use of `to`: the slots
    /// that pointed at `from` point at `to`, `from` has no uses, and its
    /// former uses follow those of `to`, in their order.
    pub open spec fn replace_all_uses(self, from: ValueId, to: ValueId) -> GraphView {
        self.redirect(from, to, self.values[from].uses.len() as int)
    }
}

/// An edge is among the uses of the value that its slot points at, and of
/// no other value.
pub proof fn lemma_use_in_one_list(g: GraphView, u: Use, v: ValueId)
    requires
        g.wf(),
        g.has_use(u),
        g.has(v),
    ensures
        g.values[v].uses.contains(u) <==> v == g.target(u),
{
    assert(g.slot_linked(u.user, u.index as int));
    if g.values[v].uses.contains(u) {
        let k = choose|k: int| 0 <= k < g.values[v].uses.len() && g.values[v].uses[k] == u;
        assert(g.use_linked(v, k));
    }
}

/// An edge made by [`Use::new`] is the last operand slot of its user and
/// the newest use of its value, where it is listed once; the graph stays
/// well formed.
pub proof fn lemma_add_use(g: GraphView, value: ValueId, user: ValueId)
    requires
        g.wf(),
        g.has(value),
        g.has(user),
        g.values[user].kind.user(),
        g.values[user].operands.len() < usize::MAX,
    ensures
        g.add_use(value, user).wf(),
        g.add_use(value, user).values[user].operands == g.values[user].operands.push(value),
        g.add_use(value, user).values[value].uses == g.values[value].uses.push(
            Use { user, index: g.values[user].operands.len() as usize },
        ),
        !g.values[value].uses.contains(
            Use { user, index: g.values[user].operands.len() as usize },
        ),
        g.add_use(value, user).values.dom() == g.values.dom(),
{
    let n = g.values[user].operands.len() as int;
    let u = Use { user, index: n as usize };
    let data = ValueView { operands: g.values[user].operands.push(value), ..g.values[user] };
    let g1 = g.with_value(user, data);
    lemma_linked_widen(g, user, n, n + 1);
    lemma_reslot(g, user, n, n + 1, data);
    lemma_framed(g, user, data);
    lemma_link(g1, user, n, n + 1);
    let g2 = g1.push_use(value, u);
    assert(g2 == g.add_use(value, user));
    lemma_linked_whole(g2, user, n + 1, n + 1);
    assert(g2.values.dom() =~= g.values.dom());
    lemma_users_kept(g, g2);
    assert(g1.value_ok(value));
    lemma_framed(g1, value, g2.values[value]);
    if g.values[value].uses.contains(u) {
        let k = choose|k: int| 0 <= k < g.values[value].uses.len() && g.values[value].uses[k] == u;
        assert(g.use_linked(value, k));
    }
    assert(g2.values.dom() =~= g.values.dom());
}

/// Pointing an edge at another value keeps the graph well formed and
/// changes one operand slot and the uses of the two values.
pub proof fn lemma_set_use(g: GraphView, u: Use, value: ValueId)
    requires
        g.wf(),
        g.has_use(u),
        g.has(value),
    ensures
        g.has(g.target(u)),
        g.values[g.target(u)].uses.contains(u),
        g.values[g.target(u)].uses.no_duplicates(),
        g.set_use(u, value).wf(),
        g.set_use(u, value).values.dom() == g.values.dom(),
        g.set_use(u, value).values[u.user].operands == g.values[u.user].operands.update(
            u.index as int,
            value,
        ),
        !g.drop_use(g.target(u), u).point_at(u, value).values[value].uses.contains(u),
        g.set_use(u, value).values[value].uses.last() == u,
        value != g.target(u) ==> !g.set_use(u, value).values[g.target(u)].uses.contains(u),
{
    let i = u.index as int;
    let t = g.target(u);
    assert(g.value_ok(u.user));
    assert(g.slot_linked(u.user, i));
    assert(g.value_ok(t));
    lemma_linked_widen(g, u.user, g.values[u.user].operands.len() as int, 0);
    lemma_linked_whole(g, u.user, i, i);
    assert(g.linked_except(u.user, i, i));
    lemma_unlink(g, u.user, i, i);
    let g1 = g.drop_use(t, u);
    lemma_framed(g, t, g1.values[t]);
    let data = ValueView {
        operands: g1.values[u.user].operands.update(i, value),
        ..g1.values[u.user]
    };
    lemma_reslot(g1, u.user, i, i + 1, data);
    assert(g1.value_ok(u.user));
    lemma_framed(g1, u.user, data);
    let g2 = g1.point_at(u, value);
    lemma_link(g2, u.user, i, i + 1);
    let g3 = g2.push_use(value, u);
    assert(g2.value_ok(value));
    lemma_framed(g2, value, g3.values[value]);
    lemma_linked_whole(g3, u.user, i + 1, i + 1);
    assert(g3 == g.set_use(u, value));
    assert(g3.values.dom() =~= g.values.dom());
    lemma_users_kept(g, g3);
    lemma_without_use(g.values[t].uses, u);
}

/// Redirecting no use of `from` only takes its uses from it.
proof fn lemma_redirect_none(g: GraphView, from: ValueId, to: ValueId)
    requires
        g.has(from),
        from != to,
    ensures
        g.redirect(from, to, 0) == g.with_value(
            from,
            ValueView { uses: Seq::empty(), ..g.values[from] },
        ),
{
    let h = g.with_value(from, ValueView { uses: Seq::empty(), ..g.values[from] });
    let r = g.redirect(from, to, 0);
    assert(g.values[from].uses.take(0) =~= Seq::empty());
    assert forall|x: ValueId| r.values.contains_key(x) implies #[trigger] r.values[x]
        == h.values[x] by {
        assert(r.values[x].operands =~= g.values[x].operands);
        assert(r.values[x].uses =~= h.values[x].uses);
    }
    assert(r.values =~= h.values);
}

/// Redirecting one more use of `from`.
proof fn lemma_redirect_next(g: GraphView, from: ValueId, to: ValueId, k: int)
    requires
        g.wf(),
        g.has(from),
        g.has(to),
        from != to,
        0 <= k < g.values[from].uses.len(),
    ensures
        g.redirect(from, to, k).has_use(g.values[from].uses[k]),
        g.redirect(from, to, k).has(to),
        !g.redirect(from, to, k).point_at(g.values[from].uses[k], to).values[to].uses.contains(
            g.values[from].uses[k],
        ),
        g.redirect(from, to, k).point_at(g.values[from].uses[k], to).push_use(
            to,
            g.values[from].uses[k],
        ) == g.redirect(from, to, k + 1),
{
    let u = g.values[from].uses[k];
    let r = g.redirect(from, to, k);
    let h = r.point_at(u, to).push_use(to, u);
    let t = g.redirect(from, to, k + 1);
    assert(g.use_linked(from, k));
    assert(g.value_ok(u.user));
    let before = g.values[from].uses.take(k);
    let after = g.values[from].uses.take(k + 1);
    assert(after =~= before.push(u));
    assert(!r.point_at(u, to).values[to].uses.contains(u)) by {
        let list = r.point_at(u, to).values[to].uses;
        assert(list =~= g.values[to].uses + before);
        if list.contains(u) {
            let j = choose|j: int| 0 <= j < list.len() && list[j] == u;
            if j < g.values[to].uses.len() {
                assert(g.use_linked(to, j));
            } else {
                assert(g.values[from].uses[j - g.values[to].uses.len()] == u);
                assert(g.uses_once(from));
            }
        }
    }
    assert forall|e: Use| after.contains(e) <==> before.contains(e) || e == u by {
        if after.contains(e) {
            let j = choose|j: int| 0 <= j < after.len() && after[j] == e;
            if j < k {
                assert(before[j] == e);
            }
        }
        if before.contains(e) {
            let j = choose|j: int| 0 <= j < before.len() && before[j] == e;
            assert(after[j] == e);
        }
        assert(after[k] == u);
    }
    assert forall|x: ValueId| t.values.contains_key(x) implies #[trigger] h.values[x]
        == t.values[x] by {
        assert(g.value_ok(x));
        assert(h.values[x].operands =~= t.values[x].operands);
        assert(h.values[x].uses =~= t.values[x].uses);
    }
    assert(h.values =~= t.values);
}

/// After [`DataFlowGraph::replace_all_uses_with`] the graph is well formed,
/// `from` has no uses, each slot that pointed at `from` points at `to`, and
/// every other slot points where it did: no operand list changes in length
/// or order.
pub proof fn lemma_replace_all_uses(g: GraphView, from: ValueId, to: ValueId)
    requires
        g.wf(),
        g.has(from),
        g.has(to),
        from != to,
    ensures
        g.replace_all_uses(from, to).wf(),
        g.replace_all_uses(from, to).values.dom() == g.values.dom(),
        g.replace_all_uses(from, to).values[from].uses.len() == 0,
        g.replace_all_uses(from, to).values[to].uses == g.values[to].uses + g.values[from].uses,
        forall|x: ValueId| #![trigger g.replace_all_uses(from, to).values[x]]
            g.has(x) ==> g.replace_all_uses(from, to).values[x].operands.len()
                == g.values[x].operands.len(),
        forall|x: ValueId, i: int| #![trigger g.replace_all_uses(from, to).values[x].operands[i]]
            g.has(x) && 0 <= i < g.values[x].operands.len() ==> g.replace_all_uses(
                from,
                to,
            ).values[x].operands[i] == if g.values[x].operands[i] == from {
                to
            } else {
                g.values[x].operands[i]
            },
{
    let h = g.replace_all_uses(from, to);
    let moved = g.values[from].uses;
    assert(moved.take(moved.len() as int) =~= moved);
    assert(h.values.dom() =~= g.values.dom());
    lemma_users_kept(g, h);
    assert forall|x: ValueId, i: int|
        g.has(x) && 0 <= i < g.values[x].operands.len() implies (moved.contains(
        Use { user: x, index: i as usize },
    ) <==> g.values[x].operands[i] == from) by {
        let e = Use { user: x, index: i as usize };
        assert(g.value_ok(x));
        assert(g.slot_linked(x, i));
        if moved.contains(e) {
            let j = choose|j: int| 0 <= j < moved.len() && moved[j] == e;
            assert(g.use_linked(from, j));
        }
    }
    assert forall|x: ValueId, i: int|
        h.has(x) && 0 <= i < h.values[x].operands.len() implies #[trigger] h.slot_linked(x, i) by {
        let e = Use { user: x, index: i as usize };
        assert(g.slot_linked(x, i));
        let v = g.values[x].operands[i];
        if v == from {
            let j = choose|j: int| 0 <= j < moved.len() && moved[j] == e;
            assert(h.values[to].uses[g.values[to].uses.len() + j] == e);
        } else {
            let j = choose|j: int| 0 <= j < g.values[v].uses.len() && g.values[v].uses[j] == e;
            assert(h.values[v].uses[j] == e);
        }
    }
    assert forall|v: ValueId, k: int|
        h.has(v) && 0 <= k < h.values[v].uses.len() implies #[trigger] h.use_linked(v, k) by {
        let e = h.values[v].uses[k];
        if v == to && k >= g.values[to].uses.len() {
            let j = k - g.values[to].uses.len();
            assert(moved[j] == e);
            assert(g.use_linked(from, j));
        } else {
            assert(g.values[v].uses[k] == e);
            assert(g.use_linked(v, k));
        }
    }
    assert(h.every_use_linked());
    assert forall|v: ValueId| h.has(v) implies #[trigger] h.uses_once(v) by {
        assert(g.uses_once(v));
        if v == to {
            let a = g.values[to].uses;
            assert(g.uses_once(from));
            assert forall|p: int, q: int| 0 <= p < a.len() && 0 <= q < moved.len() implies a[p]
                != moved[q] by {
                assert(g.use_linked(to, p));
                assert(g.use_linked(from, q));
            }
            assert forall|p: int, q: int|
                0 <= p < (a + moved).len() && 0 <= q < (a + moved).len() && p != q implies (a
                + moved)[p] != (a + moved)[q] by {
                if p < a.len() && q < a.len() {
                } else if p >= a.len() && q >= a.len() {
                    assert(moved[p - a.len()] != moved[q - a.len()]);
                } else if p < a.len() {
                    assert(a[p] != moved[q - a.len()]);
                } else {
                    assert(a[q] != moved[p - a.len()]);
                }
            }
        }
    }
    assert(h.uses_distinct());
    assert forall|v: ValueId| h.has(v) implies #[trigger] h.value_ok(v) by {
        assert(g.value_ok(v));
    }
    assert(h.values_ok());
}

impl DataFlowGraph {
    /// Replaces all uses of the value `from` with uses of the value `to`.
    pub fn replace_all_uses_with(&mut self, from: ValueId, to: ValueId)
        requires
            old(self).wf(),
            old(self)@.has(from),
            old(self)@.has(to),
            from != to,
        ensures
            final(self)@ == old(self)@.replace_all_uses(from, to),
            final(self).wf(),
    {
        let ghost g = self@;
        let uses = self.take_uses(from);
        proof {
            lemma_redirect_none(g, from, to);
        }
        let mut k: usize = 0;
        while k < uses.len()
            invariant
                k <= uses.len(),
                uses@ == g.values[from].uses,
                g.wf(),
                g.has(from),
                g.has(to),
                from != to,
                self@ == g.redirect(from, to, k as int),
            decreases uses.len() - k,
        {
            let u = uses[k];
            proof {
                lemma_redirect_next(g, from, to, k as int);
            }
            self.point_at(u, to);
            self.push_use(to, u);
            k += 1;
        }
        proof {
            lemma_replace_all_uses(g, from, to);
        }
    }
}

impl Use {
    /// Makes `value` the next operand of `user`, and returns the edge
    /// between them.
    pub fn new(dfg: &mut DataFlowGraph, value: ValueId, user: ValueId) -> (u: Use)
        requires
            old(dfg).wf(),
            old(dfg)@.has(value),
            old(dfg)@.has(user),
            old(dfg)@.values[user].kind.user(),
        ensures
            u == (Use { user, index: old(dfg)@.values[user].operands.len() as usize }),
            final(dfg)@ == old(dfg)@.add_use(value, user),
            final(dfg).wf(),
    {
        let index = dfg.value(user).operands().len();
        let u = Use { user, index };
        dfg.push_operand(user, value);
        proof {
            lemma_add_use(old(dfg)@, value, user);
        }
        dfg.push_use(value, u);
        u
    }

    /// Gives the user of this edge one more operand slot that points at the
    /// value of this edge, and returns the edge of that slot.
    pub fn clone(&self, dfg: &mut DataFlowGraph) -> (u: Use)
        requires
            old(dfg).wf(),
            old(dfg)@.has_use(*self),
        ensures
            u == (Use {
                user: self.user,
                index: old(dfg)@.values[self.user].operands.len() as usize,
            }),
            final(dfg)@ == old(dfg)@.add_use(old(dfg)@.target(*self), self.user),
            final(dfg).wf(),
    {
        let value = self.value(dfg);
        proof {
            assert(dfg@.slot_linked(self.user, self.index as int));
            assert(dfg@.value_ok(self.user));
        }
        Use::new(dfg, value, self.user)
    }

    /// Gets the value that this edge points at.
    pub fn value(&self, dfg: &DataFlowGraph) -> (v: ValueId)
        requires
            dfg@.has_use(*self),
        ensures
            v == dfg@.target(*self),
    {
        dfg.value(self.user).operands()[self.index]
    }

    /// Gets the user that this edge comes from.
    pub fn user(&self) -> (v: ValueId)
        ensures
            v == self.user,
    {
        self.user
    }

    /// Points this edge at `value`.
    pub fn set_value(&self, dfg: &mut DataFlowGraph, value: ValueId)
        requires
            old(dfg).wf(),
            old(dfg)@.has_use(*self),
            old(dfg)@.has(value),
        ensures
            final(dfg)@ == old(dfg)@.set_use(*self, value),
            final(dfg).wf(),
    {
        let target = self.value(dfg);
        proof {
            lemma_set_use(dfg@, *self, value);
        }
        dfg.drop_use(target, *self);
        dfg.point_at(*self, value);
        dfg.push_use(value, *self);
    }
}

} // verus!
