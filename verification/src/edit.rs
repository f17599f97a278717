//! Adding, replacing and removing values of the graph.

use vstd::prelude::*;
use crate::dfg::{DataFlowGraph, GraphView};
use crate::entities::{BlockId, Use, ValueId};
use crate::linking::{
    lemma_link, lemma_link_all_uses, lemma_link_upto, lemma_linked_stretch, lemma_linked_whole,
    lemma_name, lemma_name_next, lemma_name_none, lemma_reslot, lemma_sound_kept, lemma_unlink,
    lemma_unlink_all_uses, lemma_unlink_upto, lemma_unname, lemma_unname_next,
    lemma_users_clear_kept, lemma_users_kept, lemma_without_use, not_from, points_at, slots,
};
use crate::defuse::lemma_use_in_one_list;
use crate::node::{without_use, User, ValueData, ValueView};
use crate::values::{Undef, ValueKind, ZeroInit};

verus! {

impl GraphView {
    /// Whether a value of the graph can have the operands and the kind of
    /// `data`: the operands exist, and only a user has any.
    pub open spec fn fits(self, data: ValueView) -> bool {
        &&& data.operands.len() <= usize::MAX
        &&& data.kind.user() || data.operands.len() == 0
        &&& forall|i: int| 0 <= i < data.operands.len() ==> self.has(#[trigger] data.operands[i])
    }

    /// Whether data with the view `data` can enter the graph: nothing knows
    /// of it yet, and the values and basic blocks that it names exist.
    pub open spec fn accepts(self, data: ValueView) -> bool {
        &&& data.detached()
        &&& self.fits(data)
        &&& forall|i: int|
            0 <= i < data.kind.targets().len() ==> self.bbs.contains(
                #[trigger] data.kind.targets()[i],
            )
    }

    /// The uses of `v` once `x` has the operands `operands`: the uses that
    /// do not come from `x`, in their order, and behind them the slots of
    /// `x` that point at `v`, in theirs.
    pub open spec fn relinked(self, x: ValueId, operands: Seq<ValueId>, v: ValueId) -> Seq<Use> {
        self.values[v].uses.filter(not_from(x)) + slots(x, operands.len()).filter(
            points_at(operands, v),
        )
    }

    /// The graph with a new value that has the data `data`: it gets the next
    /// handle, each of its operands, slot by slot, gets one more use, and
    /// each basic block that it names gets one more user.
    pub open spec fn add_value(self, data: ValueView) -> GraphView {
        let id = self.next();
        GraphView {
            values: Map::new(
                |v: ValueId| self.has(v) || v == id,
                |v: ValueId|
                    if v == id {
                        data
                    } else {
                        ValueView {
                            uses: self.values[v].uses + slots(id, data.operands.len()).filter(
                                points_at(data.operands, v),
                            ),
                            ..self.values[v]
                        }
                    },
            ),
            next_value: self.next_value + 1,
            users: self.users_with(id, data.kind.targets()),
            ..self
        }
    }

    /// The graph without the value `v`: no value has a use that comes from
    /// it, and no basic block has it as a user.
    pub open spec fn remove_value(self, v: ValueId) -> GraphView {
        GraphView {
            values: Map::new(
                |x: ValueId| self.has(x) && x != v,
                |x: ValueId|
                    ValueView { uses: self.values[x].uses.filter(not_from(v)), ..self.values[x] },
            ),
            users: self.users_without(v, self.values[v].kind.targets()),
            ..self
        }
    }

    /// What the value `v` is once `data` has replaced its data: it keeps its
    /// uses, its basic block and its place among the shared constants.
    pub open spec fn replaced(self, v: ValueId, data: ValueView) -> ValueView {
        ValueView {
            uses: self.values[v].uses,
            bb: self.values[v].bb,
            shared: self.values[v].shared,
            ..data
        }
    }

    /// The graph in which the value `v` has the type, the kind and the
    /// operands of `data`: the uses that came from `v` are gone, and each of
    /// its new operands, slot by slot, has one more use.
    pub open spec fn relink_value(self, v: ValueId, data: ValueView) -> GraphView {
        GraphView {
            values: Map::new(
                |x: ValueId| self.has(x),
                |x: ValueId|
                    ValueView {
                        uses: self.relinked(v, data.operands, x),
                        ..if x == v {
                            self.replaced(v, data)
                        } else {
                            self.values[x]
                        }
                    },
            ),
            ..self
        }
    }

    /// The graph in which `data` has replaced the data of `v`: besides, the
    /// basic blocks that `v` named do not list it, and those that it names
    /// now do, as their newest user.
    pub open spec fn replace_value(self, v: ValueId, data: ValueView) -> GraphView {
        self.unname_targets(v, self.values[v].kind.targets()).relink_value(v, data).name_targets(
            v,
            data.kind.targets(),
        )
    }

    /// The uses of `x` once the slot of the edge `u` is gone and the slots up
    /// to `upto` behind it have moved up: the uses that `x` had, each where
    /// it stood, but for `u`, and with the new number of its slot.
    pub open spec fn uses_less(self, u: Use, upto: int, x: ValueId) -> Seq<Use> {
        let uses = self.values[x].uses;
        let left = if uses.contains(u) {
            without_use(uses, u)
        } else {
            uses
        };
        left.map_values(moved_up(u, upto))
    }

    /// The graph in which the user of the edge `u` has lost the operand slot
    /// of `u`, and the slots up to `upto` behind it have moved up.
    pub open spec fn renumbered(self, u: Use, upto: int) -> GraphView {
        GraphView {
            values: Map::new(
                |x: ValueId| self.has(x),
                |x: ValueId|
                    ValueView {
                        operands: if x == u.user {
                            self.values[x].operands.remove(u.index as int)
                        } else {
                            self.values[x].operands
                        },
                        uses: self.uses_less(u, upto, x),
                        ..self.values[x]
                    },
            ),
            ..self
        }
    }

    /// The graph in which the user of the edge `u` has lost the operand slot
    /// of `u`: the slots behind it move up. The value that the slot pointed
    /// at has lost the edge; the edges of the slots that moved have their
    /// new numbers; every edge that is left stands where it stood.
    pub open spec fn remove_operand(self, u: Use) -> GraphView {
        self.renumbered(u, self.values[u.user].operands.len() as int)
    }
}

/// The edge that an edge is once the slot of the edge `u` is gone and the
/// slots up to `upto` behind it have moved up by one.
pub open spec fn moved_up(u: Use, upto: int) -> spec_fn(Use) -> Use {
    |e: Use|
        if e.user == u.user && u.index < e.index < upto {
            Use { user: e.user, index: (e.index - 1) as usize }
        } else {
            e
        }
}

/// A new value is stored, linked to its operands one after the other and
/// then listed by the basic blocks that it names.
pub(crate) proof fn lemma_add_value_steps(g: GraphView, data: ValueView)
    requires
        g.wf(),
        g.next_value < usize::MAX,
        g.accepts(data),
    ensures
        !g.has(g.next()),
        g.store(data).framed(),
        g.store(data).linked_except(g.next(), 0, data.operands.len() as int),
        g.store(data).link_all(g.next()).name_targets(g.next(), data.kind.targets())
            == g.add_value(data),
        g.add_value(data).wf(),
{
    let id = g.next();
    let a = g.store(data);
    let n = data.operands.len();
    let h = g.add_value(data);
    assert(!g.has(id)) by {
        if g.has(id) {
            assert(g.value_ok(id));
        }
    }
    assert forall|v: ValueId| a.has(v) implies #[trigger] a.value_ok(v) by {
        if v != id {
            assert(g.value_ok(v));
        }
    }
    assert(a.values_ok());
    assert forall|user: ValueId, i: int|
        a.has(user) && 0 <= i < a.values[user].operands.len() && !(user == id && 0 <= i
            < n) implies #[trigger] a.slot_linked(user, i) by {
        assert(g.slot_linked(user, i));
    }
    assert(a.slots_linked(id, 0, n as int));
    assert forall|v: ValueId, k: int| a.has(v) && 0 <= k < a.values[v].uses.len() implies {
        &&& #[trigger] a.use_linked(v, k)
        &&& !(a.values[v].uses[k].user == id && 0 <= a.values[v].uses[k].index < n)
    } by {
        assert(g.use_linked(v, k));
    }
    assert(a.uses_linked(id, 0, n as int));
    assert forall|v: ValueId| a.has(v) implies #[trigger] a.uses_once(v) by {
        if v != id {
            assert(g.uses_once(v));
        }
    }
    assert(a.uses_distinct());
    lemma_link_upto(a, id, n, n as int);
    let l = a.link_all(id);
    lemma_linked_whole(l, id, n as int, n as int);
    assert forall|v: ValueId| l.has(v) implies #[trigger] l.values[v] == h.values[v] by {
        lemma_link_all_uses(a, id, v);
        if v == id {
            let new = slots(id, n).filter(points_at(data.operands, id));
            if new.len() > 0 {
                assert(new.contains(new[0]));
                slots(id, n).lemma_filter_pred(points_at(data.operands, id), 0);
                slots(id, n).lemma_filter_contains_rev(points_at(data.operands, id), new[0]);
                let i = choose|i: int| 0 <= i < slots(id, n).len() && slots(id, n)[i] == new[0];
                assert(data.operands[i] == id);
            }
            assert(l.values[id].uses =~= data.uses);
        }
    }
    assert(l.values =~= h.values);
    assert(l.users_clear(id)) by {
        assert forall|b: BlockId, k: int|
            l.bbs.contains(b) && 0 <= k < l.users[b].len() implies #[trigger] l.user_listed(b, k)
            && l.users[b][k] != id by {
            assert(g.user_listed(b, k));
        }
        assert forall|y: ValueId, j: int|
            l.has(y) && y != id && 0 <= j
                < l.values[y].kind.targets().len() implies #[trigger] l.target_listed(y, j) by {
            assert(g.target_listed(y, j));
        }
    }
    assert forall|j: int| 0 <= j < data.kind.targets().len() implies (
    #[trigger] l.values[id].kind.targets()[j]).0 < l.next_bb by {
        assert(g.bbs.contains(data.kind.targets()[j]));
    }
    lemma_name(l, id);
    assert(l.name_targets(id, data.kind.targets()) == h);
    lemma_sound_kept(l, h);
}

/// A value that is removed is taken from the users of the basic blocks
/// that it names and unlinked from its operands one after the other.
pub(crate) proof fn lemma_remove_value_steps(g: GraphView, v: ValueId)
    requires
        g.wf(),
        g.has(v),
        g.values[v].detached(),
    ensures
        g.unname_targets(v, g.values[v].kind.targets()).sound(),
        g.unname_targets(v, g.values[v].kind.targets()).unlink_all(v).values[v] == g.values[v],
        g.unname_targets(v, g.values[v].kind.targets()).unlink_all(v).without(v) == g.remove_value(
            v,
        ),
        g.remove_value(v).wf(),
{
    let n = g.values[v].operands.len();
    let f = g.unname_targets(v, g.values[v].kind.targets());
    lemma_unname(g, v);
    lemma_sound_kept(g, f);
    lemma_unlink_upto(f, v, n);
    let u = f.unlink_all(v);
    let h = u.without(v);
    assert(u.values[v].uses =~= g.values[v].uses);
    assert forall|x: ValueId| h.has(x) implies #[trigger] h.values[x] == g.remove_value(
        v,
    ).values[x] by {
        lemma_unlink_all_uses(f, v, x);
    }
    assert(h.values =~= g.remove_value(v).values);
    assert forall|x: ValueId| h.has(x) implies #[trigger] h.value_ok(x) by {
        assert(u.value_ok(x));
    }
    assert(h.values_ok());
    assert(h.pools_ok()) by {
        assert(u.pools_ok());
    }
    assert forall|user: ValueId, i: int|
        h.has(user) && 0 <= i < h.values[user].operands.len() implies #[trigger] h.slot_linked(
        user,
        i,
    ) by {
        assert(u.slot_linked(user, i));
    }
    assert(h.every_slot_linked());
    assert forall|x: ValueId, k: int|
        h.has(x) && 0 <= k < h.values[x].uses.len() implies #[trigger] h.use_linked(x, k) by {
        assert(u.use_linked(x, k));
        assert(u.value_ok(v));
    }
    assert(h.every_use_linked());
    assert forall|x: ValueId| h.has(x) implies #[trigger] h.uses_once(x) by {
        assert(u.uses_once(x));
    }
    assert(h.uses_distinct());
    lemma_users_clear_kept(f, h, v);
    assert(h.users_ok()) by {
        assert forall|b: BlockId, k: int|
            h.bbs.contains(b) && 0 <= k < h.users[b].len() implies #[trigger] h.user_listed(
            b,
            k,
        ) by {}
    }
}

/// A value that gets other operands is unlinked from its former operands
/// and linked to its new ones, one after the other, and the graph stays
/// sound.
pub(crate) proof fn lemma_relink_value_steps(g: GraphView, v: ValueId, data: ValueView)
    requires
        g.sound(),
        g.has(v),
        g.fits(data),
        g.values[v].shared ==> data.kind == g.values[v].kind && data.ty == g.values[v].ty,
        g.values[v].bb is Some ==> data.kind.inst(),
    ensures
        g.same_but_uses(g.unlink_all(v)),
        g.unlink_all(v).with_value(v, g.unlink_all(v).replaced(v, data)).framed(),
        g.unlink_all(v).with_value(v, g.unlink_all(v).replaced(v, data)).linked_except(
            v,
            0,
            data.operands.len() as int,
        ),
        g.unlink_all(v).with_value(v, g.unlink_all(v).replaced(v, data)).link_all(v)
            == g.relink_value(v, data),
        g.relink_value(v, data).sound(),
        g.relink_value(v, data).values.dom() == g.values.dom(),
{
    let n = g.values[v].operands.len();
    let m = data.operands.len();
    lemma_unlink_upto(g, v, n);
    let u = g.unlink_all(v);
    let top = if n <= m { m as int } else { n as int };
    lemma_linked_stretch(u, v, 0, n as int, top);
    let d = u.replaced(v, data);
    lemma_reslot(u, v, 0, top, d);
    let w = u.with_value(v, d);
    assert forall|x: ValueId| w.has(x) implies #[trigger] w.value_ok(x) by {
        assert(u.value_ok(x));
    }
    assert(w.values_ok());
    assert(w.pools_ok()) by {
        assert(u.pools_ok());
    }
    lemma_linked_stretch(w, v, 0, top, m as int);
    lemma_link_upto(w, v, m, m as int);
    let l = w.link_all(v);
    lemma_linked_whole(l, v, m as int, m as int);
    let h = g.relink_value(v, data);
    assert forall|x: ValueId| l.has(x) implies #[trigger] l.values[x] == h.values[x] by {
        lemma_unlink_all_uses(g, v, x);
        lemma_link_all_uses(w, v, x);
    }
    assert(l.values =~= h.values);
    assert(h.values.dom() =~= g.values.dom());
}

/// A value whose data is replaced leaves the users of the basic blocks
/// that it named, gets its new operands, and joins the users of the basic
/// blocks that it names.
pub(crate) proof fn lemma_replace_value_steps(g: GraphView, v: ValueId, data: ValueView)
    requires
        g.wf(),
        g.has(v),
        !g.values[v].shared,
        g.accepts(data),
        g.values[v].bb is Some ==> data.kind.inst(),
    ensures
        g.unname_targets(v, g.values[v].kind.targets()).sound(),
        g.replace_value(v, data).wf(),
{
    let f = g.unname_targets(v, g.values[v].kind.targets());
    lemma_unname(g, v);
    lemma_sound_kept(g, f);
    lemma_relink_value_steps(f, v, data);
    let r = f.relink_value(v, data);
    lemma_users_clear_kept(f, r, v);
    assert forall|j: int| 0 <= j < data.kind.targets().len() implies (
    #[trigger] r.values[v].kind.targets()[j]).0 < r.next_bb by {
        assert(g.bbs.contains(data.kind.targets()[j]));
    }
    lemma_name(r, v);
    let h = r.name_targets(v, data.kind.targets());
    lemma_sound_kept(r, h);
}

/// A value added by [`DataFlowGraph::new_value`] gets a handle that no
/// value had, and the graph stays well formed: each operand of the new
/// value lists the slot that points at it, and each basic block that the
/// value names lists the value.
pub proof fn lemma_add_value(g: GraphView, data: ValueView)
    requires
        g.wf(),
        g.next_value < usize::MAX,
        g.accepts(data),
    ensures
        !g.has(g.next()),
        g.add_value(data).wf(),
{
    lemma_add_value_steps(g, data);
}

/// After [`DataFlowGraph::remove_value`] the graph is well formed.
pub proof fn lemma_remove_value(g: GraphView, v: ValueId)
    requires
        g.wf(),
        g.has(v),
        g.values[v].detached(),
    ensures
        g.remove_value(v).wf(),
{
    lemma_remove_value_steps(g, v);
}

/// After [`DataFlowGraph::replace_value_with`] the graph is well formed.
pub proof fn lemma_replace_value(g: GraphView, v: ValueId, data: ValueView)
    requires
        g.wf(),
        g.has(v),
        !g.values[v].shared,
        g.accepts(data),
        g.values[v].bb is Some ==> data.kind.inst(),
    ensures
        g.replace_value(v, data).wf(),
{
    lemma_replace_value_steps(g, v, data);
}

/// What is left of the uses of `x` when the edge `u` is taken out: edges
/// that `x` had, none of them `u`, and none twice.
proof fn lemma_left(g: GraphView, u: Use, x: ValueId) -> (left: Seq<Use>)
    requires
        g.wf(),
        g.has_use(u),
        g.has(x),
    ensures
        left == if g.values[x].uses.contains(u) {
            without_use(g.values[x].uses, u)
        } else {
            g.values[x].uses
        },
        left.no_duplicates(),
        !left.contains(u),
        forall|k: int| 0 <= k < left.len() ==> g.values[x].uses.contains(#[trigger] left[k]),
        forall|e: Use| e != u && g.values[x].uses.contains(e) ==> left.contains(e),
        forall|upto: int| #![trigger g.uses_less(u, upto, x)]
            g.uses_less(u, upto, x) == left.map_values(moved_up(u, upto)),
{
    let uses = g.values[x].uses;
    assert(g.uses_once(x));
    if uses.contains(u) {
        lemma_without_use(uses, u);
        without_use(uses, u)
    } else {
        uses
    }
}

/// Once the edge `u` has left the uses of the value that it pointed at and
/// its user has lost the slot, no slot has moved up yet.
proof fn lemma_renumber_none(g: GraphView, u: Use)
    requires
        g.wf(),
        g.has_use(u),
    ensures
        g.has(g.target(u)),
        g.values[g.target(u)].uses.contains(u),
        g.drop_use(g.target(u), u).with_operands(
            u.user,
            g.values[u.user].operands.remove(u.index as int),
        ) == g.renumbered(u, u.index + 1),
{
    let t = g.target(u);
    let h = g.drop_use(t, u).with_operands(
        u.user,
        g.values[u.user].operands.remove(u.index as int),
    );
    let r = g.renumbered(u, u.index + 1);
    assert(g.slot_linked(u.user, u.index as int));
    assert forall|x: ValueId| g.has(x) implies #[trigger] h.values[x] == r.values[x] by {
        let left = lemma_left(g, u, x);
        lemma_use_in_one_list(g, u, x);
        assert(h.values[x].uses =~= r.values[x].uses);
    }
    assert(h.values =~= r.values);
}

/// The next slot moves up by giving its edge the new number where it
/// stands, among the uses of the value that the slot points at.
proof fn lemma_renumber_next(g: GraphView, u: Use, j: int)
    requires
        g.wf(),
        g.has_use(u),
        u.index < j < g.values[u.user].operands.len(),
    ensures
        g.renumbered(u, j).has(g.values[u.user].operands[j]),
        g.renumbered(u, j).values[u.user].operands[j - 1] == g.values[u.user].operands[j],
        g.renumbered(u, j).values[g.values[u.user].operands[j]].uses.contains(
            Use { user: u.user, index: j as usize },
        ),
        !g.renumbered(u, j).values[g.values[u.user].operands[j]].uses.contains(
            Use { user: u.user, index: (j - 1) as usize },
        ),
        g.renumbered(u, j).rename_use(
            g.values[u.user].operands[j],
            Use { user: u.user, index: j as usize },
            Use { user: u.user, index: (j - 1) as usize },
        ) == g.renumbered(u, j + 1),
{
    let v = g.values[u.user].operands[j];
    let from = Use { user: u.user, index: j as usize };
    let to = Use { user: u.user, index: (j - 1) as usize };
    let r = g.renumbered(u, j);
    let next = g.renumbered(u, j + 1);
    assert(g.value_ok(u.user));
    assert(g.slot_linked(u.user, j));
    let left = lemma_left(g, u, v);
    let now = r.values[v].uses;
    assert(now == left.map_values(moved_up(u, j)));
    assert(from != u);
    assert(g.values[v].uses.contains(from));
    assert(left.contains(from));
    let p = choose|p: int| 0 <= p < left.len() && left[p] == from;
    assert(now[p] == moved_up(u, j)(left[p]));
    assert(now[p] == from);
    assert forall|q: int| 0 <= q < now.len() && q != p implies now[q] != from && now[q]
        != to by {
        assert(now[q] == moved_up(u, j)(left[q]));
        assert(left[q] != left[p]);
        assert(left[q] != u);
        assert(g.values[v].uses.contains(left[q]));
    }
    assert(now[p] != to);
    assert(now.index_of(from) == p) by {
        let q = now.index_of(from);
        assert(now[q] == from);
    }
    assert(!now.contains(to));
    let h = r.rename_use(v, from, to);
    assert forall|x: ValueId| g.has(x) implies #[trigger] h.values[x] == next.values[x] by {
        let rest = lemma_left(g, u, x);
        assert(r.values[x].uses == rest.map_values(moved_up(u, j)));
        assert(next.values[x].uses == rest.map_values(moved_up(u, j + 1)));
        if x == v {
            assert forall|k: int| 0 <= k < left.len() implies #[trigger] h.values[x].uses[k]
                == next.values[x].uses[k] by {
                if k != p {
                    assert(left[k] != left[p]);
                }
            }
            assert(h.values[x].uses =~= next.values[x].uses);
        } else {
            assert forall|k: int| 0 <= k < rest.len() implies rest[k] != from by {
                if rest[k] == from {
                    assert(g.values[x].uses.contains(from));
                    lemma_use_in_one_list(g, from, x);
                }
            }
            assert(h.values[x].uses =~= next.values[x].uses);
        }
    }
    assert(h.values =~= next.values);
}

/// After [`Use::remove`] the graph is well formed. The user has the
/// operands that it had but for the one of the edge, in their order, and
/// every value has the uses that it had but for the edge, in their order;
/// the edges of the slots behind the one that is gone have their new
/// numbers, and no other edge has changed.
pub proof fn lemma_remove_operand(g: GraphView, u: Use)
    requires
        g.wf(),
        g.has_use(u),
    ensures
        g.remove_operand(u).wf(),
        g.remove_operand(u).values.dom() == g.values.dom(),
        g.remove_operand(u).values[u.user].operands == g.values[u.user].operands.remove(
            u.index as int,
        ),
        forall|x: ValueId| #![trigger g.remove_operand(u).values[x]]
            g.has(x) && x != u.user ==> g.remove_operand(u).values[x].operands
                == g.values[x].operands,
        forall|x: ValueId| #![trigger g.remove_operand(u).values[x]]
            g.has(x) ==> g.remove_operand(u).values[x].uses.len() == g.values[x].uses.len() - if x
                == g.target(u) {
                1int
            } else {
                0int
            },
        forall|x: ValueId, k: int| #![trigger g.remove_operand(u).values[x].uses[k]]
            g.has(x) && 0 <= k < g.remove_operand(u).values[x].uses.len() ==> {
                let before = g.values[x].uses[if x == g.target(u) && k >= g.values[x].uses.index_of(
                    u,
                ) {
                    k + 1
                } else {
                    k
                }];
                g.remove_operand(u).values[x].uses[k] == if before.user == u.user && before.index
                    > u.index {
                    Use { user: before.user, index: (before.index - 1) as usize }
                } else {
                    before
                }
            },
{
    let n = g.values[u.user].operands.len() as int;
    let h = g.remove_operand(u);
    let t = g.target(u);
    assert(g.value_ok(u.user));
    assert(g.slot_linked(u.user, u.index as int));
    assert(h.values.dom() =~= g.values.dom());
    assert forall|x: ValueId| g.has(x) implies #[trigger] h.value_ok(x) by {
        assert(g.value_ok(x));
    }
    assert(h.values_ok());
    assert(h.pools_ok()) by {
        assert(g.pool_ok(g.zeros, ValueKind::ZeroInit(ZeroInit)));
        assert(g.pool_ok(g.undefs, ValueKind::Undef(Undef)));
    }
    assert forall|user: ValueId, i: int|
        h.has(user) && 0 <= i < h.values[user].operands.len() implies #[trigger] h.slot_linked(
        user,
        i,
    ) by {
        let j = if user == u.user && i >= u.index { i + 1 } else { i };
        let v = g.values[user].operands[j];
        let e = Use { user, index: j as usize };
        assert(g.value_ok(user));
        assert(g.slot_linked(user, j));
        let left = lemma_left(g, u, v);
        assert(left.contains(e));
        let q = choose|q: int| 0 <= q < left.len() && left[q] == e;
        assert(h.values[v].uses[q] == Use { user, index: i as usize });
    }
    assert(h.every_slot_linked());
    assert forall|x: ValueId, k: int|
        h.has(x) && 0 <= k < h.values[x].uses.len() implies #[trigger] h.use_linked(x, k) by {
        let left = lemma_left(g, u, x);
        let e = left[k];
        let q = choose|q: int| 0 <= q < g.values[x].uses.len() && g.values[x].uses[q] == e;
        assert(g.use_linked(x, q));
        assert(h.values[x].uses[k] == moved_up(u, n)(e));
    }
    assert(h.every_use_linked());
    assert forall|x: ValueId| h.has(x) implies #[trigger] h.uses_once(x) by {
        let left = lemma_left(g, u, x);
        let now = h.values[x].uses;
        assert forall|a: int, b: int| 0 <= a < now.len() && 0 <= b < now.len() && a
            != b implies now[a] != now[b] by {
            let qa = choose|q: int|
                0 <= q < g.values[x].uses.len() && g.values[x].uses[q] == left[a];
            let qb = choose|q: int|
                0 <= q < g.values[x].uses.len() && g.values[x].uses[q] == left[b];
            assert(g.use_linked(x, qa));
            assert(g.use_linked(x, qb));
            assert(left[a] != left[b]);
            assert(now[a] == moved_up(u, n)(left[a]));
            assert(now[b] == moved_up(u, n)(left[b]));
        }
    }
    assert(h.uses_distinct());
    lemma_users_kept(g, h);
    assert forall|x: ValueId| g.has(x) implies #[trigger] h.values[x].uses.len()
        == g.values[x].uses.len() - if x == t { 1int } else { 0int } by {
        let left = lemma_left(g, u, x);
        lemma_use_in_one_list(g, u, x);
        if x == t {
            assert(g.uses_once(x));
            lemma_without_use(g.values[x].uses, u);
        }
    }
    assert forall|x: ValueId, k: int| g.has(x) && 0 <= k < h.values[x].uses.len() implies {
        let before = g.values[x].uses[if x == t && k >= g.values[x].uses.index_of(u) {
            k + 1
        } else {
            k
        }];
        #[trigger] h.values[x].uses[k] == if before.user == u.user && before.index > u.index {
            Use { user: before.user, index: (before.index - 1) as usize }
        } else {
            before
        }
    } by {
        let left = lemma_left(g, u, x);
        lemma_use_in_one_list(g, u, x);
        let at = if x == t && k >= g.values[x].uses.index_of(u) { k + 1 } else { k };
        if x == t {
            assert(g.uses_once(x));
            lemma_without_use(g.values[x].uses, u);
        }
        assert(left[k] == g.values[x].uses[at]);
        assert(g.use_linked(x, at));
    }
}

impl DataFlowGraph {
    /// Creates a new value in the graph and returns its handle.
    pub fn new_value(&mut self, data: ValueData) -> (value: ValueId)
        requires
            old(self).wf(),
            old(self)@.accepts(data@),
        ensures
            value == old(self)@.next(),
            final(self)@ == old(self)@.add_value(data@),
            final(self).wf(),
    {
        let ghost view = data@;
        let targets = data.kind().bb_uses();
        let value = self.store(data);
        proof {
            lemma_add_value_steps(old(self)@, view);
        }
        self.link(value);
        self.name_all(value, &targets);
        value
    }

    /// Removes the value `value` from the graph and returns its data.
    pub fn remove_value(&mut self, value: ValueId) -> (data: ValueData)
        requires
            old(self).wf(),
            old(self)@.has(value),
            old(self)@.values[value].detached(),
        ensures
            data@ == old(self)@.values[value],
            final(self)@ == old(self)@.remove_value(value),
            final(self).wf(),
    {
        proof {
            lemma_remove_value_steps(self@, value);
        }
        let targets = self.value(value).kind().bb_uses();
        self.unname_all(value, &targets);
        self.unlink(value);
        self.take(value)
    }

    /// Replaces the data of the value `value` with `data`, and returns the
    /// data that it had, as new. The value keeps its uses and its place.
    pub fn replace_value_with(&mut self, value: ValueId, data: ValueData) -> (former: ValueData)
        requires
            old(self).wf(),
            old(self)@.has(value),
            !old(self)@.values[value].shared,
            old(self)@.accepts(data@),
            old(self)@.values[value].bb is Some ==> data@.kind.inst(),
        ensures
            former@ == ValueView::fresh(
                old(self)@.values[value].ty,
                old(self)@.values[value].kind,
                old(self)@.values[value].operands,
            ),
            final(self)@ == old(self)@.replace_value(value, data@),
            final(self).wf(),
    {
        let ghost g = self@;
        let ghost given = data@;
        proof {
            lemma_replace_value_steps(g, value, given);
            assert(g.value_ok(value));
        }
        let former_targets = self.value(value).kind().bb_uses();
        let targets = data.kind().bb_uses();
        self.unname_all(value, &former_targets);
        let ghost f = self@;
        proof {
            lemma_relink_value_steps(f, value, given);
        }
        self.unlink(value);
        let mut former = self.take(value);
        let mut data = data;
        data.inherit(&mut former);
        self.put(value, data);
        proof {
            let w = f.unlink_all(value).with_value(
                value,
                f.unlink_all(value).replaced(value, given),
            );
            assert(self@.values =~= w.values);
            assert(self@ == w);
        }
        self.link(value);
        self.name_all(value, &targets);
        former
    }

    /// Lists `v` among the users of each of the basic blocks `targets`.
    fn name_all(&mut self, v: ValueId, targets: &Vec<BlockId>)
        ensures
            final(self)@ == old(self)@.name_targets(v, targets@),
    {
        let ghost g = self@;
        let mut i: usize = 0;
        proof {
            lemma_name_none(g, v, targets@);
        }
        while i < targets.len()
            invariant
                i <= targets.len(),
                self@ == g.name_targets(v, targets@.take(i as int)),
            decreases targets.len() - i,
        {
            proof {
                lemma_name_next(g, v, targets@, i as int);
            }
            self.name_target(targets[i], v);
            i += 1;
        }
        proof {
            assert(targets@.take(targets.len() as int) =~= targets@);
        }
    }

    /// Takes `v` from the users of each of the basic blocks `targets`.
    fn unname_all(&mut self, v: ValueId, targets: &Vec<BlockId>)
        requires
            old(self)@.users_ok(),
        ensures
            final(self)@ == old(self)@.unname_targets(v, targets@),
    {
        let ghost g = self@;
        let mut i: usize = 0;
        proof {
            lemma_name_none(g, v, targets@);
        }
        while i < targets.len()
            invariant
                i <= targets.len(),
                g.users_ok(),
                self@ == g.unname_targets(v, targets@.take(i as int)),
            decreases targets.len() - i,
        {
            proof {
                lemma_unname_next(g, v, targets@, i as int);
            }
            self.unname_target(targets[i], v);
            i += 1;
        }
        proof {
            assert(targets@.take(targets.len() as int) =~= targets@);
        }
    }

    /// Links the value `x`, none of whose operand slots is linked, to all
    /// its operands.
    pub(crate) fn link(&mut self, x: ValueId)
        requires
            old(self)@.framed(),
            old(self)@.has(x),
            old(self)@.linked_except(x, 0, old(self)@.values[x].operands.len() as int),
            forall|j: int|
                0 <= j < old(self)@.values[x].operands.len() ==> old(self)@.has(
                    #[trigger] old(self)@.values[x].operands[j],
                ),
        ensures
            final(self)@ == old(self)@.link_all(x),
    {
        let ghost a = self@;
        let n = self.value(x).operands().len();
        let mut i: usize = 0;
        while i < n
            invariant
                i <= n,
                n == a.values[x].operands.len(),
                a.framed(),
                a.linked_except(x, 0, n as int),
                a.has(x),
                forall|j: int| 0 <= j < n ==> a.has(#[trigger] a.values[x].operands[j]),
                self@ == a.link_upto(x, i as nat),
            decreases n - i,
        {
            proof {
                lemma_link_upto(a, x, i as nat, n as int);
                lemma_link(self@, x, i as int, n as int);
            }
            let target = self.value(x).operands()[i];
            self.push_use(target, Use { user: x, index: i });
            i += 1;
        }
    }

    /// Unlinks the value `x` from all its operands.
    pub(crate) fn unlink(&mut self, x: ValueId)
        requires
            old(self)@.sound(),
            old(self)@.has(x),
        ensures
            final(self)@ == old(self)@.unlink_all(x),
            old(self)@.same_but_uses(final(self)@),
    {
        let ghost g = self@;
        proof {
            lemma_unlink_upto(g, x, g.values[x].operands.len());
        }
        let n = self.value(x).operands().len();
        let mut i: usize = 0;
        while i < n
            invariant
                i <= n,
                n == g.values[x].operands.len(),
                g.sound(),
                g.has(x),
                self@ == g.unlink_upto(x, i as nat),
            decreases n - i,
        {
            proof {
                lemma_unlink_upto(g, x, i as nat);
                lemma_unlink(self@, x, 0, i as int);
            }
            let target = self.value(x).operands()[i];
            self.drop_use(target, Use { user: x, index: i });
            i += 1;
        }
    }
}

impl Use {
    /// Removes this edge: its user loses the operand slot, and the value it
    /// pointed at loses the use. The slots behind it move up, and their
    /// edges get the new numbers where they stand.
    pub fn remove(&self, dfg: &mut DataFlowGraph)
        requires
            old(dfg).wf(),
            old(dfg)@.has_use(*self),
        ensures
            final(dfg)@ == old(dfg)@.remove_operand(*self),
            final(dfg).wf(),
    {
        let ghost g = dfg@;
        let user = self.user;
        let n = dfg.value(user).operands().len();
        let target = self.value(dfg);
        proof {
            lemma_renumber_none(g, *self);
            lemma_remove_operand(g, *self);
        }
        dfg.drop_use(target, *self);
        dfg.cut_operand(user, self.index);
        let mut slot: usize = self.index;
        while slot + 1 < n
            invariant
                self.index <= slot < n,
                user == self.user,
                n == g.values[user].operands.len(),
                g.wf(),
                g.has_use(*self),
                dfg@ == g.renumbered(*self, slot + 1),
            decreases n - slot,
        {
            proof {
                lemma_renumber_next(g, *self, slot + 1);
            }
            let value = dfg.value(user).operands()[slot];
            dfg.rename_use(
                value,
                Use { user, index: slot + 1 },
                Use { user, index: slot },
            );
            slot += 1;
        }
    }
}

} // verus!
