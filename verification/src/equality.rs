//! Structural equality of values: by type, kind and operands, whatever the
//! handles are.

use vstd::prelude::*;
use crate::dfg::{DataFlowGraph, GraphView};
use crate::entities::ValueId;
use crate::node::{User, Value};
use crate::values::ValueKind;

verus! {

impl GraphView {
    /// Whether `lhs` and `rhs` are structurally equal as far as operand
    /// chains of `depth` values show: they have the same type and the same
    /// kind, which is not phi, two returns both have an operand or both have
    /// none, and their operands are equal in pairs to the depth that is
    /// left.
    pub open spec fn eq_within(self, lhs: ValueId, rhs: ValueId, depth: nat) -> bool
        decreases depth,
    {
        if depth == 0 {
            false
        } else {
            let l = self.values[lhs];
            let r = self.values[rhs];
            &&& l.ty == r.ty
            &&& l.kind == r.kind
            &&& !(l.kind is Phi)
            &&& l.kind is Return ==> l.operands.len() == r.operands.len()
            &&& forall|i: int|
                0 <= i < l.operands.len() && i < r.operands.len() ==> self.eq_within(
                    #[trigger] l.operands[i],
                    r.operands[i],
                    (depth - 1) as nat,
                )
        }
    }

    /// Whether `c` is a chain: each of its values but the last is no phi and
    /// has the next one among its operands.
    pub open spec fn chain(self, c: Seq<ValueId>) -> bool {
        &&& c.len() > 0
        &&& forall|j: int| 0 <= j < c.len() ==> self.has(#[trigger] c[j])
        &&& forall|j: int|
            0 <= j < c.len() - 1 ==> !(self.values[#[trigger] c[j]].kind is Phi)
                && self.values[c[j]].operands.contains(c[j + 1])
    }

    /// Whether every circle of the graph runs through a phi: no chain comes
    /// back to a value.
    pub open spec fn acyclic(self) -> bool {
        forall|c: Seq<ValueId>| #[trigger] self.chain(c) ==> c.no_duplicates()
    }

    /// Structural equality of `lhs` and `rhs`. No chain of operands is
    /// longer than the number of handles given out, unless it runs in a
    /// circle.
    pub open spec fn value_eq(self, lhs: ValueId, rhs: ValueId) -> bool {
        self.eq_within(lhs, rhs, self.next_value)
    }
}

/// Values that are equal within a depth are equal within any greater depth.
pub proof fn lemma_eq_within_deeper(g: GraphView, lhs: ValueId, rhs: ValueId, depth: nat, more: nat)
    requires
        g.eq_within(lhs, rhs, depth),
        depth <= more,
    ensures
        g.eq_within(lhs, rhs, more),
    decreases depth,
{
    let l = g.values[lhs];
    let r = g.values[rhs];
    assert forall|i: int| 0 <= i < l.operands.len() && i < r.operands.len() implies g.eq_within(
        #[trigger] l.operands[i],
        r.operands[i],
        (more - 1) as nat,
    ) by {
        lemma_eq_within_deeper(
            g,
            l.operands[i],
            r.operands[i],
            (depth - 1) as nat,
            (more - 1) as nat,
        );
    }
}

/// More values than there are numbers below `n` cannot all have different
/// handles below `n`.
proof fn lemma_pigeonhole(c: Seq<ValueId>, n: nat)
    requires
        forall|j: int| 0 <= j < c.len() ==> (#[trigger] c[j]).0 < n,
        c.len() > n,
    ensures
        !c.no_duplicates(),
{
    if c.no_duplicates() {
        let s = Seq::new(c.len(), |j: int| c[j].0 as int);
        assert forall|i: int, j: int| 0 <= i < s.len() && 0 <= j < s.len() && i != j implies s[i]
            != s[j] by {
            assert(c[i] != c[j]);
        }
        s.unique_seq_to_set();
        vstd::set_lib::lemma_int_range(0, n as int);
        assert forall|x: int| s.to_set().contains(x) implies vstd::set_lib::set_int_range(
            0,
            n as int,
        ).contains(x) by {
            let j = choose|j: int| 0 <= j < s.len() && s[j] == x;
            assert(c[j].0 < n);
        }
        vstd::set_lib::lemma_len_subset(s.to_set(), vstd::set_lib::set_int_range(0, n as int));
    }
}

/// Where two values are equal within one depth and not within a lesser
/// depth, a chain that ends in the left one goes on for as many values as
/// the lesser depth.
proof fn lemma_chain_grows(
    g: GraphView,
    c: Seq<ValueId>,
    rhs: ValueId,
    depth: nat,
    less: nat,
) -> (longer: Seq<ValueId>)
    requires
        g.wf(),
        g.chain(c),
        g.eq_within(c.last(), rhs, depth),
        !g.eq_within(c.last(), rhs, less),
    ensures
        g.chain(longer),
        longer.len() == c.len() + less,
    decreases less,
{
    if less == 0 {
        c
    } else {
        let l = g.values[c.last()];
        let r = g.values[rhs];
        let i = choose|i: int|
            0 <= i < l.operands.len() && i < r.operands.len() && !g.eq_within(
                #[trigger] l.operands[i],
                r.operands[i],
                (less - 1) as nat,
            );
        assert(g.slot_linked(c.last(), i));
        let next = c.push(l.operands[i]);
        assert forall|j: int| 0 <= j < next.len() - 1 implies !(g.values[#[trigger] next[j]].kind
            is Phi) && g.values[next[j]].operands.contains(next[j + 1]) by {
            if j < c.len() - 1 {
                assert(next[j] == c[j] && next[j + 1] == c[j + 1]);
            }
        }
        lemma_chain_grows(g, next, r.operands[i], (depth - 1) as nat, (less - 1) as nat)
    }
}

/// In a graph in which every circle runs through a phi, values at the end
/// of a chain that are equal within some depth are equal within every depth
/// that, with the chain, exceeds the number of handles given out.
pub proof fn lemma_eq_within_shallower(
    g: GraphView,
    c: Seq<ValueId>,
    rhs: ValueId,
    depth: nat,
    less: nat,
)
    requires
        g.wf(),
        g.acyclic(),
        g.chain(c),
        g.eq_within(c.last(), rhs, depth),
        c.len() + less > g.next_value,
    ensures
        g.eq_within(c.last(), rhs, less),
{
    if !g.eq_within(c.last(), rhs, less) {
        let longer = lemma_chain_grows(g, c, rhs, depth, less);
        assert forall|j: int| 0 <= j < longer.len() implies (#[trigger] longer[j]).0
            < g.next_value by {
            assert(g.value_ok(longer[j]));
        }
        lemma_pigeonhole(longer, g.next_value);
    }
}

/// In a graph in which every circle runs through a phi, two values are
/// equal if and only if they are equal within some depth: the bound on the
/// depth in [`GraphView::value_eq`] never cuts a comparison short.
pub proof fn lemma_value_eq_whole(g: GraphView, lhs: ValueId, rhs: ValueId, depth: nat)
    requires
        g.wf(),
        g.acyclic(),
        g.has(lhs),
        g.eq_within(lhs, rhs, depth),
    ensures
        g.value_eq(lhs, rhs),
{
    assert(g.chain(seq![lhs]));
    lemma_eq_within_shallower(g, seq![lhs], rhs, depth, g.next_value);
}

/// Two binary instructions with the same operator and the same type, whose
/// left operands are equal and whose right operands are equal, are equal,
/// in a graph in which every circle runs through a phi; two binary
/// instructions with different operators are not equal.
pub proof fn lemma_value_eq_binary(g: GraphView, lhs: ValueId, rhs: ValueId)
    requires
        g.wf(),
        g.has(lhs),
        g.has(rhs),
        g.values[lhs].kind is Binary,
        g.values[rhs].kind is Binary,
    ensures
        g.values[lhs].kind->Binary_0.op != g.values[rhs].kind->Binary_0.op ==> !g.value_eq(
            lhs,
            rhs,
        ),
        g.acyclic() && g.values[lhs].kind->Binary_0.op == g.values[rhs].kind->Binary_0.op
            && g.values[lhs].ty == g.values[rhs].ty && g.values[lhs].operands.len() == 2
            && g.values[rhs].operands.len() == 2 && g.value_eq(
            g.values[lhs].operands[0],
            g.values[rhs].operands[0],
        ) && g.value_eq(g.values[lhs].operands[1], g.values[rhs].operands[1]) ==> g.value_eq(
            lhs,
            rhs,
        ),
{
    let l = g.values[lhs];
    let r = g.values[rhs];
    assert(g.value_ok(lhs));
    if g.acyclic() && l.operands.len() == 2 && r.operands.len() == 2 && g.value_eq(
        l.operands[0],
        r.operands[0],
    ) && g.value_eq(l.operands[1], r.operands[1]) {
        let less = (g.next_value - 1) as nat;
        assert forall|i: int| 0 <= i < 2 implies g.eq_within(
            #[trigger] l.operands[i],
            r.operands[i],
            less,
        ) by {
            assert(g.slot_linked(lhs, i));
            let c = seq![lhs, l.operands[i]];
            assert(c[0] == lhs && c[1] == l.operands[i]);
            assert(g.chain(c));
            lemma_eq_within_shallower(g, c, r.operands[i], g.next_value, less);
        }
    }
}

impl DataFlowGraph {
    /// Checks if the two given values are equal.
    pub fn value_eq(&self, lhs: ValueId, rhs: ValueId) -> (b: bool)
        requires
            self.wf(),
            self@.has(lhs),
            self@.has(rhs),
        ensures
            b == self@.value_eq(lhs, rhs),
    {
        self.data_eq(lhs, rhs, self.handles())
    }

    /// Checks if the two given values are equal as far as operand chains of
    /// `depth` values show.
    fn data_eq(&self, lhs: ValueId, rhs: ValueId, depth: usize) -> (b: bool)
        requires
            self.wf(),
            self@.has(lhs),
            self@.has(rhs),
        ensures
            b == self@.eq_within(lhs, rhs, depth as nat),
        decreases depth,
    {
        if depth == 0 {
            return false;
        }
        let l = self.value(lhs);
        let r = self.value(rhs);
        if *l.ty() != *r.ty() {
            return false;
        }
        if *l.kind() != *r.kind() {
            return false;
        }
        match l.kind() {
            ValueKind::Phi => {
                return false;
            },
            ValueKind::Return => {
                if l.operands().len() != r.operands().len() {
                    return false;
                }
            },
            _ => {},
        }
        let n = if l.operands().len() < r.operands().len() {
            l.operands().len()
        } else {
            r.operands().len()
        };
        let mut i: usize = 0;
        while i < n
            invariant
                i <= n,
                n <= l@.operands.len(),
                n <= r@.operands.len(),
                n == l@.operands.len() || n == r@.operands.len(),
                self.wf(),
                self@.has(lhs),
                self@.has(rhs),
                l@ == self@.values[lhs],
                r@ == self@.values[rhs],
                depth > 0,
                forall|j: int|
                    0 <= j < i ==> self@.eq_within(
                        #[trigger] l@.operands[j],
                        r@.operands[j],
                        (depth - 1) as nat,
                    ),
            decreases n - i,
        {
            proof {
                assert(self@.slot_linked(lhs, i as int));
                assert(self@.slot_linked(rhs, i as int));
            }
            if !self.data_eq(l.operands()[i], r.operands()[i], depth - 1) {
                return false;
            }
            i += 1;
        }
        true
    }
}

} // verus!
