//! How the def-use invariant is taken apart and put together again, one
//! operand slot at a time.

use vstd::prelude::*;
use crate::dfg::GraphView;
use crate::entities::{BlockId, Use, ValueId};
use crate::node::{ValueView, without_use};
use crate::values::{Undef, ValueKind, ZeroInit};

verus! {

/// Removing an edge from a list without repetitions removes just that edge.
pub proof fn lemma_without_use(s: Seq<Use>, u: Use)
    requires
        s.contains(u),
        s.no_duplicates(),
    ensures
        without_use(s, u).len() == s.len() - 1,
        !without_use(s, u).contains(u),
        without_use(s, u).no_duplicates(),
        forall|e: Use| e != u ==> (without_use(s, u).contains(e) <==> s.contains(e)),
        forall|k: int|
            0 <= k < without_use(s, u).len() ==> s.contains(#[trigger] without_use(s, u)[k]),
{
    let p = s.index_of(u);
    let r = without_use(s, u);
    assert(0 <= p < s.len() && s[p] == u);
    assert forall|k: int| 0 <= k < r.len() implies s.contains(#[trigger] r[k]) && r[k] != u by {
        if k < p {
            assert(r[k] == s[k]);
        } else {
            assert(r[k] == s[k + 1]);
        }
    }
    assert forall|e: Use| e != u && s.contains(e) implies r.contains(e) by {
        let j = choose|j: int| 0 <= j < s.len() && s[j] == e;
        if j < p {
            assert(r[j] == e);
        } else {
            assert(r[j - 1] == e);
        }
    }
    assert forall|e: Use| e != u && r.contains(e) implies s.contains(e) by {
        let j = choose|j: int| 0 <= j < r.len() && r[j] == e;
        assert(s.contains(r[j]));
    }
}

/// Every value lists its uses without repetition, and a slot of `x` that is
/// left of `len` is in none of them if it is not linked.
pub(crate) proof fn lemma_linked_widen(g: GraphView, x: ValueId, lo: int, hi: int)
    requires
        g.linked(),
        g.has(x),
        g.values[x].operands.len() <= lo,
    ensures
        g.linked_except(x, lo, hi),
{
    assert forall|v: ValueId, k: int|
        g.has(v) && 0 <= k < g.values[v].uses.len() implies !(g.values[v].uses[k].user == x && lo
        <= g.values[v].uses[k].index < hi) by {
        assert(g.use_linked(v, k));
    }
    assert(g.uses_linked(x, lo, hi));
}

/// With no slot left out, the invariant is whole.
pub(crate) proof fn lemma_linked_whole(g: GraphView, x: ValueId, lo: int, hi: int)
    requires
        g.linked_except(x, lo, hi),
        g.has(x),
        hi <= lo || g.values[x].operands.len() <= lo,
    ensures
        g.linked(),
{
}

/// Where every slot from `lo` on is left out, it does not matter where
/// beyond the last slot the bound lies.
pub(crate) proof fn lemma_linked_stretch(g: GraphView, x: ValueId, lo: int, hi: int, to: int)
    requires
        g.linked_except(x, lo, hi),
        g.has(x),
        g.values[x].operands.len() <= hi,
        g.values[x].operands.len() <= to,
    ensures
        g.linked_except(x, lo, to),
{
    assert forall|v: ValueId, k: int|
        g.has(v) && 0 <= k < g.values[v].uses.len() implies !(g.values[v].uses[k].user == x && lo
        <= g.values[v].uses[k].index < to) by {
        assert(g.use_linked(v, k));
    }
    assert(g.uses_linked(x, lo, to));
}

/// Linking the first slot that is left out.
pub(crate) proof fn lemma_link(g: GraphView, x: ValueId, lo: int, hi: int)
    requires
        g.linked_except(x, lo, hi),
        g.has(x),
        0 <= lo < hi,
        lo < g.values[x].operands.len() <= usize::MAX,
        g.has(g.values[x].operands[lo]),
    ensures
        !g.values[g.values[x].operands[lo]].uses.contains(Use { user: x, index: lo as usize }),
        g.push_use(g.values[x].operands[lo], Use { user: x, index: lo as usize }).linked_except(
            x,
            lo + 1,
            hi,
        ),
{
    let t = g.values[x].operands[lo];
    let e = Use { user: x, index: lo as usize };
    let h = g.push_use(t, e);
    assert(!g.values[t].uses.contains(e)) by {
        if g.values[t].uses.contains(e) {
            let k = choose|k: int| 0 <= k < g.values[t].uses.len() && g.values[t].uses[k] == e;
            assert(g.use_linked(t, k));
        }
    }
    assert forall|user: ValueId, i: int|
        h.has(user) && 0 <= i < h.values[user].operands.len() && !(user == x && lo + 1 <= i
            < hi) implies #[trigger] h.slot_linked(user, i) by {
        let v = g.values[user].operands[i];
        assert(h.values[user].operands == g.values[user].operands);
        if user == x && i == lo {
            assert(h.values[t].uses.last() == e);
        } else {
            assert(g.slot_linked(user, i));
            let j = choose|j: int|
                0 <= j < g.values[v].uses.len() && g.values[v].uses[j] == (Use {
                    user,
                    index: i as usize,
                });
            assert(h.values[v].uses[j] == g.values[v].uses[j]);
        }
    }
    assert(h.slots_linked(x, lo + 1, hi));
    assert forall|v: ValueId, k: int| h.has(v) && 0 <= k < h.values[v].uses.len() implies {
        &&& #[trigger] h.use_linked(v, k)
        &&& !(h.values[v].uses[k].user == x && lo + 1 <= h.values[v].uses[k].index < hi)
    } by {
        if v == t && k == g.values[t].uses.len() {
            assert(h.values[v].uses[k] == e);
        } else {
            assert(h.values[v].uses[k] == g.values[v].uses[k]);
            assert(g.use_linked(v, k));
        }
    }
    assert(h.uses_linked(x, lo + 1, hi));
    assert forall|v: ValueId| h.has(v) implies #[trigger] h.uses_once(v) by {
        assert(g.uses_once(v));
    }
    assert(h.uses_distinct());
}

/// Unlinking the slot right of those that are left out.
pub(crate) proof fn lemma_unlink(g: GraphView, x: ValueId, lo: int, hi: int)
    requires
        g.linked_except(x, lo, hi),
        g.has(x),
        0 <= lo <= hi,
        hi < g.values[x].operands.len() <= usize::MAX,
    ensures
        g.has(g.values[x].operands[hi]),
        g.values[g.values[x].operands[hi]].uses.contains(Use { user: x, index: hi as usize }),
        g.values[g.values[x].operands[hi]].uses.no_duplicates(),
        g.drop_use(g.values[x].operands[hi], Use { user: x, index: hi as usize }).linked_except(
            x,
            lo,
            hi + 1,
        ),
{
    let t = g.values[x].operands[hi];
    let e = Use { user: x, index: hi as usize };
    let h = g.drop_use(t, e);
    assert(g.slot_linked(x, hi));
    assert(g.uses_once(t));
    lemma_without_use(g.values[t].uses, e);
    assert forall|user: ValueId, i: int|
        h.has(user) && 0 <= i < h.values[user].operands.len() && !(user == x && lo <= i < hi
            + 1) implies #[trigger] h.slot_linked(user, i) by {
        assert(h.values[user].operands == g.values[user].operands);
        assert(g.slot_linked(user, i));
        let v = g.values[user].operands[i];
        let other = Use { user, index: i as usize };
        assert(g.values[v].uses.contains(other));
        assert(other != e);
        if v == t {
            assert(without_use(g.values[t].uses, e).contains(other));
        }
        assert(h.values[v].uses.contains(other));
    }
    assert(h.slots_linked(x, lo, hi + 1));
    assert forall|v: ValueId, k: int| h.has(v) && 0 <= k < h.values[v].uses.len() implies {
        &&& #[trigger] h.use_linked(v, k)
        &&& !(h.values[v].uses[k].user == x && lo <= h.values[v].uses[k].index < hi + 1)
    } by {
        let u = h.values[v].uses[k];
        assert(h.values[v].uses.contains(u));
        assert(g.values[v].uses.contains(u)) by {
            if v != t {
                assert(g.values[v].uses[k] == u);
            }
        }
        let j = choose|j: int| 0 <= j < g.values[v].uses.len() && g.values[v].uses[j] == u;
        assert(g.use_linked(v, j));
        assert(h.values[u.user].operands == g.values[u.user].operands);
        if v == t {
            assert(u != e);
        } else {
            if u == e {
                assert(false);
            }
        }
    }
    assert(h.uses_linked(x, lo, hi + 1));
    assert forall|v: ValueId| h.has(v) implies #[trigger] h.uses_once(v) by {
        assert(g.uses_once(v));
    }
    assert(h.uses_distinct());
}

/// The data of `x` may change in all but its uses, and its operands in the
/// slots that are left out.
pub(crate) proof fn lemma_reslot(g: GraphView, x: ValueId, lo: int, hi: int, data: ValueView)
    requires
        g.linked_except(x, lo, hi),
        g.has(x),
        data.uses == g.values[x].uses,
        forall|i: int|
            0 <= i < data.operands.len() && !(lo <= i < hi) ==> i < g.values[x].operands.len()
                && #[trigger] data.operands[i] == g.values[x].operands[i],
        data.operands.len() == g.values[x].operands.len() || (lo <= data.operands.len()
            && g.values[x].operands.len() <= hi),
    ensures
        g.with_value(x, data).linked_except(x, lo, hi),
{
    let h = g.with_value(x, data);
    assert forall|user: ValueId, i: int|
        h.has(user) && 0 <= i < h.values[user].operands.len() && !(user == x && lo <= i
            < hi) implies #[trigger] h.slot_linked(user, i) by {
        assert(g.slot_linked(user, i));
    }
    assert(h.slots_linked(x, lo, hi));
    assert forall|v: ValueId, k: int| h.has(v) && 0 <= k < h.values[v].uses.len() implies {
        &&& #[trigger] h.use_linked(v, k)
        &&& !(h.values[v].uses[k].user == x && lo <= h.values[v].uses[k].index < hi)
    } by {
        assert(g.use_linked(v, k));
    }
    assert(h.uses_linked(x, lo, hi));
    assert forall|v: ValueId| h.has(v) implies #[trigger] h.uses_once(v) by {
        assert(g.uses_once(v));
    }
    assert(h.uses_distinct());
}

/// What holds of each value by itself still holds when the data of `x`
/// changes in its uses and operands only.
pub(crate) proof fn lemma_framed(g: GraphView, x: ValueId, data: ValueView)
    requires
        g.framed(),
        g.has(x),
        data.ty == g.values[x].ty,
        data.kind == g.values[x].kind,
        data.bb == g.values[x].bb,
        data.shared == g.values[x].shared,
        data.operands.len() <= usize::MAX,
        !data.kind.user() ==> data.operands.len() == 0,
    ensures
        g.with_value(x, data).framed(),
{
    let h = g.with_value(x, data);
    assert forall|v: ValueId| h.has(v) implies #[trigger] h.value_ok(v) by {
        assert(g.value_ok(v));
    }
    assert(h.values_ok());
}

impl GraphView {
    /// The graph in which the operand slots `0..n` of `x` are linked, one
    /// after the other.
    pub open spec fn link_upto(self, x: ValueId, n: nat) -> GraphView
        decreases n,
    {
        if n == 0 {
            self
        } else {
            let g = self.link_upto(x, (n - 1) as nat);
            g.push_use(g.values[x].operands[n - 1], Use { user: x, index: (n - 1) as usize })
        }
    }

    /// The graph in which the operand slots `0..n` of `x` are unlinked, one
    /// after the other.
    pub open spec fn unlink_upto(self, x: ValueId, n: nat) -> GraphView
        decreases n,
    {
        if n == 0 {
            self
        } else {
            let g = self.unlink_upto(x, (n - 1) as nat);
            g.drop_use(g.values[x].operands[n - 1], Use { user: x, index: (n - 1) as usize })
        }
    }

    /// The graph in which `x` is linked to all its operands.
    pub open spec fn link_all(self, x: ValueId) -> GraphView {
        self.link_upto(x, self.values[x].operands.len())
    }

    /// The graph in which `x` is unlinked from all its operands.
    pub open spec fn unlink_all(self, x: ValueId) -> GraphView {
        self.unlink_upto(x, self.values[x].operands.len())
    }

    /// Whether `other` differs from this graph in the uses of its values only.
    pub open spec fn same_but_uses(self, other: GraphView) -> bool {
        &&& other.values.dom() == self.values.dom()
        &&& other.next_value == self.next_value
        &&& other.bbs == self.bbs
        &&& other.users == self.users
        &&& other.next_bb == self.next_bb
        &&& other.ints == self.ints
        &&& other.zeros == self.zeros
        &&& other.undefs == self.undefs
        &&& forall|v: ValueId| #![trigger other.values[v]]
            self.has(v) ==> other.values[v] == (ValueView {
                uses: other.values[v].uses,
                ..self.values[v]
            })
    }
}

/// Linking the slots of `x` from the first on keeps what holds of each
/// value by itself and leaves fewer slots out of the def-use invariant.
pub(crate) proof fn lemma_link_upto(g: GraphView, x: ValueId, n: nat, hi: int)
    requires
        g.framed(),
        g.linked_except(x, 0, hi),
        g.has(x),
        n <= g.values[x].operands.len() <= hi,
        forall|i: int|
            0 <= i < g.values[x].operands.len() ==> g.has(#[trigger] g.values[x].operands[i]),
    ensures
        g.same_but_uses(g.link_upto(x, n)),
        g.link_upto(x, n).framed(),
        g.link_upto(x, n).linked_except(x, n as int, hi),
        forall|v: ValueId| #![trigger g.link_upto(x, n).values[v]]
            g.has(v) ==> g.values[v].uses.len() <= g.link_upto(x, n).values[v].uses.len(),
    decreases n,
{
    if n > 0 {
        let m = (n - 1) as nat;
        lemma_link_upto(g, x, m, hi);
        let h = g.link_upto(x, m);
        assert(h.values[x].operands == g.values[x].operands);
        assert(g.value_ok(x));
        let t = h.values[x].operands[m as int];
        lemma_link(h, x, m as int, hi);
        let k = h.push_use(t, Use { user: x, index: m as usize });
        assert(h.value_ok(t));
        lemma_framed(h, t, k.values[t]);
        assert(k.values.dom() =~= g.values.dom());
        assert forall|v: ValueId| g.has(v) implies #[trigger] k.values[v] == (ValueView {
            uses: k.values[v].uses,
            ..g.values[v]
        }) && g.values[v].uses.len() <= k.values[v].uses.len() by {
            assert(h.values[v] == (ValueView { uses: h.values[v].uses, ..g.values[v] }));
        }
    }
}

/// Unlinking the slots of `x` from the first on keeps what holds of each
/// value by itself and leaves more slots out of the def-use invariant.
pub(crate) proof fn lemma_unlink_upto(g: GraphView, x: ValueId, n: nat)
    requires
        g.sound(),
        g.has(x),
        n <= g.values[x].operands.len(),
    ensures
        g.same_but_uses(g.unlink_upto(x, n)),
        g.unlink_upto(x, n).framed(),
        g.unlink_upto(x, n).linked_except(x, 0, n as int),
        forall|v: ValueId| #![trigger g.unlink_upto(x, n).values[v]]
            g.has(v) ==> g.unlink_upto(x, n).values[v].uses.len() <= g.values[v].uses.len(),
    decreases n,
{
    if n == 0 {
        lemma_linked_widen(g, x, g.values[x].operands.len() as int, 0);
        lemma_linked_whole(g, x, 0, 0);
        assert(g.linked_except(x, 0, 0));
    } else {
        let m = (n - 1) as nat;
        lemma_unlink_upto(g, x, m);
        let h = g.unlink_upto(x, m);
        assert(h.values[x].operands == g.values[x].operands);
        assert(g.value_ok(x));
        let t = h.values[x].operands[m as int];
        let e = Use { user: x, index: m as usize };
        lemma_unlink(h, x, 0, m as int);
        lemma_without_use(h.values[t].uses, e);
        let k = h.drop_use(t, e);
        assert(h.value_ok(t));
        lemma_framed(h, t, k.values[t]);
        assert(k.values.dom() =~= g.values.dom());
        assert forall|v: ValueId| g.has(v) implies #[trigger] k.values[v] == (ValueView {
            uses: k.values[v].uses,
            ..g.values[v]
        }) && k.values[v].uses.len() <= g.values[v].uses.len() by {
            assert(h.values[v] == (ValueView { uses: h.values[v].uses, ..g.values[v] }));
        }
    }
}

/// Moving a value into a basic block that exists, or out of its block,
/// keeps the graph well formed.
pub(crate) proof fn lemma_with_bb(g: GraphView, v: ValueId, bb: Option<BlockId>)
    requires
        g.wf(),
        g.has(v),
        bb is Some ==> g.values[v].kind.inst() && g.bbs.contains(bb->Some_0),
    ensures
        g.with_bb(v, bb).wf(),
{
    let h = g.with_bb(v, bb);
    assert(h.values.dom() =~= g.values.dom());
    lemma_users_kept(g, h);
    assert forall|x: ValueId| h.has(x) implies #[trigger] h.value_ok(x) by {
        assert(g.value_ok(x));
    }
    assert(h.values_ok());
    assert forall|user: ValueId, i: int|
        h.has(user) && 0 <= i < h.values[user].operands.len() implies #[trigger] h.slot_linked(
        user,
        i,
    ) by {
        assert(g.slot_linked(user, i));
    }
    assert(h.every_slot_linked());
    assert forall|x: ValueId, k: int|
        h.has(x) && 0 <= k < h.values[x].uses.len() implies #[trigger] h.use_linked(x, k) by {
        assert(g.use_linked(x, k));
    }
    assert(h.every_use_linked());
    assert forall|x: ValueId| h.has(x) implies #[trigger] h.uses_once(x) by {
        assert(g.uses_once(x));
    }
    assert(h.uses_distinct());
}

/// Filters that agree on the elements of a list leave the same list.
pub(crate) proof fn lemma_filter_agree(
    s: Seq<Use>,
    p: spec_fn(Use) -> bool,
    q: spec_fn(Use) -> bool,
)
    requires
        forall|i: int| 0 <= i < s.len() ==> p(#[trigger] s[i]) == q(s[i]),
    ensures
        s.filter(p) == s.filter(q),
    decreases s.len(),
{
    reveal(Seq::filter);
    if s.len() > 0 {
        lemma_filter_agree(s.drop_last(), p, q);
    }
}

/// Filtering twice is filtering by both conditions.
pub(crate) proof fn lemma_filter_twice(
    s: Seq<Use>,
    p: spec_fn(Use) -> bool,
    q: spec_fn(Use) -> bool,
)
    ensures
        s.filter(p).filter(q) == s.filter(|e: Use| p(e) && q(e)),
    decreases s.len(),
{
    reveal(Seq::filter);
    if s.len() > 0 {
        let both = |e: Use| p(e) && q(e);
        lemma_filter_twice(s.drop_last(), p, q);
        if p(s.last()) {
            s.drop_last().filter(p).lemma_filter_push(s.last(), q);
        }
        assert(s.filter(both) == if both(s.last()) {
            s.drop_last().filter(both).push(s.last())
        } else {
            s.drop_last().filter(both)
        });
    }
}

/// A list without repetitions loses an edge by a filter as well.
proof fn lemma_without_is_filter(s: Seq<Use>, u: Use)
    requires
        s.contains(u),
        s.no_duplicates(),
    ensures
        without_use(s, u) == s.filter(|e: Use| e != u),
    decreases s.len(),
{
    reveal(Seq::filter);
    let keep = |e: Use| e != u;
    let p = s.index_of(u);
    let front = s.drop_last();
    assert(0 <= p < s.len() && s[p] == u);
    if p == s.len() - 1 {
        assert(without_use(s, u) =~= front);
        lemma_filter_all(front, keep);
    } else {
        assert(front[p] == u);
        assert(front.index_of(u) == p) by {
            let q = front.index_of(u);
            assert(front[q] == u);
            assert(s[q] == u);
        }
        lemma_without_is_filter(front, u);
        assert(without_use(s, u) =~= without_use(front, u).push(s.last()));
    }
}

/// A filter that every element passes leaves the list as it is.
pub(crate) proof fn lemma_filter_all(s: Seq<Use>, p: spec_fn(Use) -> bool)
    requires
        forall|i: int| 0 <= i < s.len() ==> p(#[trigger] s[i]),
    ensures
        s.filter(p) == s,
    decreases s.len(),
{
    reveal(Seq::filter);
    if s.len() > 0 {
        lemma_filter_all(s.drop_last(), p);
        assert(s.drop_last().push(s.last()) =~= s);
    }
}

/// Unlinking the slots `0..n` of `x` takes just these slots from the uses of
/// every value, and leaves the order of the others.
pub(crate) proof fn lemma_unlink_upto_uses(g: GraphView, x: ValueId, n: nat, v: ValueId)
    requires
        g.sound(),
        g.has(x),
        g.has(v),
        n <= g.values[x].operands.len(),
    ensures
        g.unlink_upto(x, n).values[v].uses == g.values[v].uses.filter(
            |e: Use| !(e.user == x && e.index < n),
        ),
    decreases n,
{
    let s = g.values[v].uses;
    let now = |e: Use| !(e.user == x && e.index < n);
    if n == 0 {
        lemma_filter_all(s, now);
    } else {
        let m = (n - 1) as nat;
        let before = |e: Use| !(e.user == x && e.index < m);
        lemma_unlink_upto_uses(g, x, m, v);
        lemma_unlink_upto(g, x, m);
        let h = g.unlink_upto(x, m);
        assert(h.values[x].operands == g.values[x].operands);
        assert(g.value_ok(x));
        let t = h.values[x].operands[m as int];
        let e = Use { user: x, index: m as usize };
        let rest = |a: Use| a != e;
        lemma_unlink(h, x, 0, m as int);
        if v == t {
            lemma_without_is_filter(h.values[t].uses, e);
            lemma_filter_twice(s, before, rest);
            lemma_filter_agree(s, |a: Use| before(a) && rest(a), now);
        } else {
            assert forall|i: int| 0 <= i < s.len() implies before(#[trigger] s[i]) == now(
                s[i],
            ) by {
                assert(g.use_linked(v, i));
            }
            lemma_filter_agree(s, before, now);
        }
    }
}

/// Whether an edge does not come from `x`.
pub open spec fn not_from(x: ValueId) -> spec_fn(Use) -> bool {
    |e: Use| e.user != x
}

/// Unlinking `x` from all its operands takes the edges that come from `x`
/// from the uses of every value, and leaves the order of the others.
pub(crate) proof fn lemma_unlink_all_uses(g: GraphView, x: ValueId, v: ValueId)
    requires
        g.sound(),
        g.has(x),
        g.has(v),
    ensures
        g.unlink_all(x).values[v].uses == g.values[v].uses.filter(not_from(x)),
{
    let n = g.values[x].operands.len();
    let s = g.values[v].uses;
    lemma_unlink_upto_uses(g, x, n, v);
    assert forall|i: int| 0 <= i < s.len() implies (!((#[trigger] s[i]).user == x && s[i].index
        < n)) == not_from(x)(s[i]) by {
        assert(g.use_linked(v, i));
    }
    lemma_filter_agree(s, |e: Use| !(e.user == x && e.index < n), not_from(x));
}

/// The operand slots `0..n` of `x`, in their order.
pub open spec fn slots(x: ValueId, n: nat) -> Seq<Use> {
    Seq::new(n, |i: int| Use { user: x, index: i as usize })
}

/// Whether the slot of an edge is one of `operands` that points at `v`.
pub open spec fn points_at(operands: Seq<ValueId>, v: ValueId) -> spec_fn(Use) -> bool {
    |e: Use| operands[e.index as int] == v
}

/// Linking the slots `0..n` of `x` adds those that point at `v` to the uses
/// of `v`, behind the uses that it had and in the order of the slots.
pub(crate) proof fn lemma_link_upto_uses(g: GraphView, x: ValueId, n: nat, v: ValueId)
    requires
        g.has(x),
        n <= g.values[x].operands.len() <= usize::MAX,
        forall|i: int|
            0 <= i < g.values[x].operands.len() ==> g.has(#[trigger] g.values[x].operands[i]),
    ensures
        g.link_upto(x, n).values.dom() == g.values.dom(),
        g.link_upto(x, n).values[x].operands == g.values[x].operands,
        g.has(v) ==> g.link_upto(x, n).values[v].uses == g.values[v].uses + slots(x, n).filter(
            points_at(g.values[x].operands, v),
        ),
    decreases n,
{
    reveal(Seq::filter);
    let ops = g.values[x].operands;
    let here = points_at(ops, v);
    if n == 0 {
        assert(g.values[v].uses + slots(x, 0).filter(here) =~= g.values[v].uses);
    } else {
        let m = (n - 1) as nat;
        lemma_link_upto_uses(g, x, m, v);
        let h = g.link_upto(x, m);
        let e = Use { user: x, index: m as usize };
        let t = ops[m as int];
        assert(slots(x, n) =~= slots(x, m).push(e));
        slots(x, m).lemma_filter_push(e, here);
        assert(h.push_use(t, e).values.dom() =~= g.values.dom());
        if g.has(v) {
            if v == t {
                assert(here(e));
                assert(h.values[v].uses.push(e) =~= g.values[v].uses + slots(x, n).filter(here));
            } else {
                assert(!here(e));
            }
        }
    }
}

/// Linking `x` to all its operands adds the slots that point at `v` to the
/// uses of `v`, behind the uses that it had and in the order of the slots.
pub(crate) proof fn lemma_link_all_uses(g: GraphView, x: ValueId, v: ValueId)
    requires
        g.has(x),
        g.has(v),
        g.values[x].operands.len() <= usize::MAX,
        forall|i: int|
            0 <= i < g.values[x].operands.len() ==> g.has(#[trigger] g.values[x].operands[i]),
    ensures
        g.link_all(x).values[v].uses == g.values[v].uses + slots(
            x,
            g.values[x].operands.len(),
        ).filter(points_at(g.values[x].operands, v)),
{
    lemma_link_upto_uses(g, x, g.values[x].operands.len(), v);
}

/// The graph stays sound where only the users of the basic blocks change.
pub(crate) proof fn lemma_sound_kept(g: GraphView, h: GraphView)
    requires
        g.sound(),
        h == (GraphView { users: h.users, ..g }),
    ensures
        h.sound(),
{
    assert forall|v: ValueId| h.has(v) implies #[trigger] h.value_ok(v) by {
        assert(g.value_ok(v));
    }
    assert(h.values_ok());
    assert forall|user: ValueId, i: int|
        h.has(user) && 0 <= i < h.values[user].operands.len() implies #[trigger] h.slot_linked(
        user,
        i,
    ) by {
        assert(g.slot_linked(user, i));
    }
    assert(h.every_slot_linked());
    assert forall|x: ValueId, k: int|
        h.has(x) && 0 <= k < h.values[x].uses.len() implies #[trigger] h.use_linked(x, k) by {
        assert(g.use_linked(x, k));
    }
    assert(h.every_use_linked());
    assert forall|x: ValueId| h.has(x) implies #[trigger] h.uses_once(x) by {
        assert(g.uses_once(x));
    }
    assert(h.uses_distinct());
    assert(g.pool_ok(g.zeros, ValueKind::ZeroInit(ZeroInit)));
    assert(g.pool_ok(g.undefs, ValueKind::Undef(Undef)));
}

/// The users of the basic blocks stay right where the basic blocks, their
/// users and the kinds of the values stay as they are.
pub(crate) proof fn lemma_users_kept(g: GraphView, h: GraphView)
    requires
        g.users_ok(),
        h.users == g.users,
        h.bbs == g.bbs,
        h.next_bb == g.next_bb,
        h.values.dom() == g.values.dom(),
        forall|x: ValueId| g.has(x) ==> (#[trigger] h.values[x]).kind == g.values[x].kind,
    ensures
        h.users_ok(),
{
    assert forall|b: BlockId, k: int|
        h.bbs.contains(b) && 0 <= k < h.users[b].len() implies #[trigger] h.user_listed(b, k) by {
        assert(g.user_listed(b, k));
    }
    assert forall|y: ValueId, j: int|
        h.has(y) && 0 <= j < h.values[y].kind.targets().len() implies #[trigger] h.target_listed(
        y,
        j,
    ) by {
        assert(g.target_listed(y, j));
    }
}

/// The users of the basic blocks stay right but for `x` where the basic
/// blocks, their users and the kinds of the other values stay as they are.
pub(crate) proof fn lemma_users_clear_kept(g: GraphView, h: GraphView, x: ValueId)
    requires
        g.users_clear(x),
        h.users == g.users,
        h.bbs == g.bbs,
        h.next_bb == g.next_bb,
        forall|y: ValueId| y != x ==> (g.has(y) <==> h.has(y)),
        forall|y: ValueId| g.has(y) && y != x ==> (#[trigger] h.values[y]).kind == g.values[y].kind,
    ensures
        h.users_clear(x),
{
    assert forall|b: BlockId, k: int|
        h.bbs.contains(b) && 0 <= k < h.users[b].len() implies #[trigger] h.user_listed(b, k)
        && h.users[b][k] != x by {
        assert(g.user_listed(b, k));
    }
    assert forall|y: ValueId, j: int|
        h.has(y) && y != x && 0 <= j
            < h.values[y].kind.targets().len() implies #[trigger] h.target_listed(y, j) by {
        assert(g.target_listed(y, j));
    }
}

/// Once a value names no basic block, no basic block lists it.
pub(crate) proof fn lemma_unname(g: GraphView, v: ValueId)
    requires
        g.users_ok(),
        g.has(v),
    ensures
        g.unname_targets(v, g.values[v].kind.targets()).users_clear(v),
{
    let targets = g.values[v].kind.targets();
    let h = g.unname_targets(v, targets);
    assert forall|b: BlockId, k: int|
        h.bbs.contains(b) && 0 <= k < h.users[b].len() implies #[trigger] h.user_listed(b, k)
        && h.users[b][k] != v by {
        let s = g.users[b];
        assert(s.no_duplicates());
        if targets.contains(b) && s.contains(v) {
            let p = s.index_of(v);
            assert(s[p] == v);
            let j = if k < p { k } else { k + 1 };
            assert(h.users[b][k] == s[j]);
            assert(g.user_listed(b, j));
        } else {
            assert(g.user_listed(b, k));
            if s[k] == v {
                assert(s.contains(v));
            }
        }
    }
    assert forall|y: ValueId, j: int|
        h.has(y) && y != v && 0 <= j
            < h.values[y].kind.targets().len() implies #[trigger] h.target_listed(y, j) by {
        assert(g.target_listed(y, j));
        let b = g.values[y].kind.targets()[j];
        if g.bbs.contains(b) && targets.contains(b) && g.users[b].contains(v) {
            let s = g.users[b];
            let p = s.index_of(v);
            assert(s[p] == v);
            let q = choose|q: int| 0 <= q < s.len() && s[q] == y;
            assert(h.users[b][if q < p { q } else { q - 1 }] == y);
        }
    }
    assert forall|b: BlockId| h.bbs.contains(b) implies (#[trigger] h.users[b]).no_duplicates() by {
        let s = g.users[b];
        assert(s.no_duplicates());
        if targets.contains(b) && s.contains(v) {
            let p = s.index_of(v);
            assert forall|i: int, j: int|
                0 <= i < s.len() - 1 && 0 <= j < s.len() - 1 && i != j implies s.remove(p)[i]
                != s.remove(p)[j] by {
                assert(s.remove(p)[i] == s[if i < p { i } else { i + 1 }]);
                assert(s.remove(p)[j] == s[if j < p { j } else { j + 1 }]);
            }
        }
    }
}

/// Once the basic blocks that a value names list it, the users of the
/// basic blocks are right.
pub(crate) proof fn lemma_name(g: GraphView, v: ValueId)
    requires
        g.users_clear(v),
        g.has(v),
        forall|j: int|
            0 <= j < g.values[v].kind.targets().len() ==> (
            #[trigger] g.values[v].kind.targets()[j]).0 < g.next_bb,
    ensures
        g.name_targets(v, g.values[v].kind.targets()).users_ok(),
{
    let targets = g.values[v].kind.targets();
    let h = g.name_targets(v, targets);
    assert forall|b: BlockId| g.bbs.contains(b) implies !(#[trigger] g.users[b]).contains(v) by {
        if g.users[b].contains(v) {
            let k = choose|k: int| 0 <= k < g.users[b].len() && g.users[b][k] == v;
            assert(g.user_listed(b, k));
        }
    }
    assert forall|b: BlockId, k: int|
        h.bbs.contains(b) && 0 <= k < h.users[b].len() implies #[trigger] h.user_listed(b, k) by {
        if k < g.users[b].len() {
            assert(g.user_listed(b, k));
        }
    }
    assert forall|y: ValueId, j: int|
        h.has(y) && 0 <= j < h.values[y].kind.targets().len() implies #[trigger] h.target_listed(
        y,
        j,
    ) by {
        let b = g.values[y].kind.targets()[j];
        if y == v {
            if g.bbs.contains(b) {
                assert(h.users[b].last() == v);
            }
        } else {
            assert(g.target_listed(y, j));
            if g.bbs.contains(b) {
                let q = choose|q: int| 0 <= q < g.users[b].len() && g.users[b][q] == y;
                assert(h.users[b][q] == y);
            }
        }
    }
    assert forall|b: BlockId| h.bbs.contains(b) implies (#[trigger] h.users[b]).no_duplicates() by {
        assert(g.users[b].no_duplicates());
    }
}

/// Naming basic blocks one after the other names them all.
pub(crate) proof fn lemma_name_next(g: GraphView, v: ValueId, targets: Seq<BlockId>, i: int)
    requires
        0 <= i < targets.len(),
    ensures
        g.name_targets(v, targets.take(i)).name_targets(v, seq![targets[i]]) == g.name_targets(
            v,
            targets.take(i + 1),
        ),
{
    let now = targets.take(i);
    let next = targets.take(i + 1);
    let a = g.name_targets(v, now).name_targets(v, seq![targets[i]]);
    let b = g.name_targets(v, next);
    assert(next =~= now.push(targets[i]));
    assert forall|x: BlockId| next.contains(x) <==> now.contains(x) || x == targets[i] by {
        if now.contains(x) {
            let j = choose|j: int| 0 <= j < now.len() && now[j] == x;
            assert(next[j] == x);
        }
        assert(next[i] == targets[i]);
    }
    assert forall|x: BlockId| seq![targets[i]].contains(x) <==> x == targets[i] by {
        assert(seq![targets[i]][0] == targets[i]);
    }
    assert forall|x: BlockId| a.users.contains_key(x) implies #[trigger] a.users[x]
        == b.users[x] by {
        if now.contains(x) && !g.users[x].contains(v) {
            assert(g.users[x].push(v).last() == v);
        }
    }
    assert(a.users =~= b.users);
}

/// Naming no basic block changes nothing, and neither does taking the name
/// of none back.
pub(crate) proof fn lemma_name_none(g: GraphView, v: ValueId, targets: Seq<BlockId>)
    ensures
        g.name_targets(v, targets.take(0)) == g,
        g.unname_targets(v, targets.take(0)) == g,
{
    assert(targets.take(0) =~= Seq::empty());
    assert(g.name_targets(v, targets.take(0)).users =~= g.users);
    assert(g.unname_targets(v, targets.take(0)).users =~= g.users);
}

/// Taking the name of basic blocks back one after the other takes them all
/// back.
pub(crate) proof fn lemma_unname_next(g: GraphView, v: ValueId, targets: Seq<BlockId>, i: int)
    requires
        0 <= i < targets.len(),
        forall|b: BlockId| g.users.contains_key(b) ==> (#[trigger] g.users[b]).no_duplicates(),
    ensures
        g.unname_targets(v, targets.take(i)).unname_targets(v, seq![targets[i]])
            == g.unname_targets(v, targets.take(i + 1)),
{
    let now = targets.take(i);
    let next = targets.take(i + 1);
    let a = g.unname_targets(v, now).unname_targets(v, seq![targets[i]]);
    let b = g.unname_targets(v, next);
    assert(next =~= now.push(targets[i]));
    assert forall|x: BlockId| next.contains(x) <==> now.contains(x) || x == targets[i] by {
        if now.contains(x) {
            let j = choose|j: int| 0 <= j < now.len() && now[j] == x;
            assert(next[j] == x);
        }
        assert(next[i] == targets[i]);
    }
    assert forall|x: BlockId| seq![targets[i]].contains(x) <==> x == targets[i] by {
        assert(seq![targets[i]][0] == targets[i]);
    }
    assert forall|x: BlockId| a.users.contains_key(x) implies #[trigger] a.users[x]
        == b.users[x] by {
        let s = g.users[x];
        if now.contains(x) && s.contains(v) {
            let p = s.index_of(v);
            assert(s[p] == v);
            if s.remove(p).contains(v) {
                let q = choose|q: int| 0 <= q < s.remove(p).len() && s.remove(p)[q] == v;
                assert(s[if q < p { q } else { q + 1 }] == v);
            }
        }
    }
    assert(a.users =~= b.users);
}

} // verus!
