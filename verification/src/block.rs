//! Basic blocks: ordered lists of instructions, each of which knows the
//! block that holds it.

use vstd::prelude::*;
use crate::dfg::{DataFlowGraph, GraphView};
use crate::entities::{BlockId, Use, ValueId};
use crate::edit::lemma_relink_value_steps;
use crate::lists::ValueList;
use crate::linking::{
    lemma_filter_agree, lemma_filter_all, lemma_filter_twice, lemma_users_kept, lemma_with_bb,
    not_from, points_at, slots,
};
use crate::node::ValueView;
use crate::values::ValueKind;

verus! {

/// What a basic block holds.
pub struct BlockView {
    /// The handle of the block.
    pub bb: BlockId,
    /// The predecessors, as whoever builds the edges has recorded them.
    pub preds: Seq<BlockId>,
    /// The instructions, in their order.
    pub insts: Seq<ValueId>,
}

impl BlockView {
    /// The invariant of a block in the graph `g`: the block exists, and its
    /// instructions are, each once, the values of `g` that say they are in
    /// this block.
    pub open spec fn wf(self, g: GraphView) -> bool {
        &&& g.bbs.contains(self.bb)
        &&& self.insts.no_duplicates()
        &&& forall|i: int|
            0 <= i < self.insts.len() ==> g.has(#[trigger] self.insts[i])
                && g.values[self.insts[i]].bb == Some(self.bb)
        &&& forall|v: ValueId|
            g.has(v) && (#[trigger] g.values[v]).bb == Some(self.bb) ==> self.insts.contains(v)
    }

    /// Whether `inst` is an instruction of this block in the graph `g`.
    pub open spec fn holds(self, g: GraphView, inst: ValueId) -> bool {
        &&& g.has(inst)
        &&& g.values[inst].bb == Some(self.bb)
    }

    /// Whether `inst` is an instruction of the graph `g` that is in no block.
    pub open spec fn free(g: GraphView, inst: ValueId) -> bool {
        &&& g.has(inst)
        &&& g.values[inst].kind.inst()
        &&& g.values[inst].bb is None
    }

    /// The blocks that control may pass to from this block: the targets of
    /// its last instruction, and none if it has no instruction.
    pub open spec fn successors(self, g: GraphView) -> Seq<BlockId> {
        if self.insts.len() == 0 {
            Seq::empty()
        } else {
            g.values[self.insts.last()].kind.targets()
        }
    }

    /// The block with `inst` after its instructions.
    pub open spec fn add_inst(self, inst: ValueId) -> BlockView {
        BlockView { insts: self.insts.push(inst), ..self }
    }

    /// The block without its instruction `inst`.
    pub open spec fn remove_inst(self, inst: ValueId) -> BlockView {
        BlockView { insts: self.insts.remove(self.insts.index_of(inst)), ..self }
    }

    /// The block with `new` in the place of its instruction `inst`.
    pub open spec fn replace_inst(self, inst: ValueId, new: ValueId) -> BlockView {
        BlockView { insts: self.insts.update(self.insts.index_of(inst), new), ..self }
    }

    /// The block with `new` right before its instruction `inst`.
    pub open spec fn insert_before(self, inst: ValueId, new: ValueId) -> BlockView {
        BlockView { insts: self.insts.insert(self.insts.index_of(inst), new), ..self }
    }

    /// The block with `new` right after its instruction `inst`.
    pub open spec fn insert_after(self, inst: ValueId, new: ValueId) -> BlockView {
        BlockView { insts: self.insts.insert(self.insts.index_of(inst) + 1, new), ..self }
    }
}

/// The inner of a basic block: what changes while the block is built and
/// rewritten.
pub struct BasicBlockInner {
    bb: BlockId,
    preds: Vec<BlockId>,
    insts: ValueList,
}

impl View for BasicBlockInner {
    type V = BlockView;

    closed spec fn view(&self) -> BlockView {
        BlockView { bb: self.bb, preds: self.preds@, insts: self.insts@ }
    }
}

/// An instruction that enters a block was in none, so the block did not
/// list it; the block with it, in any place, is a block of the graph in
/// which the instruction says so.
proof fn lemma_enter(g: GraphView, b: BlockView, new: ValueId, at: int)
    requires
        g.wf(),
        b.wf(g),
        BlockView::free(g, new),
        0 <= at <= b.insts.len(),
    ensures
        !b.insts.contains(new),
        g.with_bb(new, Some(b.bb)).wf(),
        (BlockView { insts: b.insts.insert(at, new), ..b }).wf(g.with_bb(new, Some(b.bb))),
{
    let h = g.with_bb(new, Some(b.bb));
    let c = BlockView { insts: b.insts.insert(at, new), ..b };
    lemma_with_bb(g, new, Some(b.bb));
    assert(!b.insts.contains(new)) by {
        if b.insts.contains(new) {
            let k = choose|k: int| 0 <= k < b.insts.len() && b.insts[k] == new;
            assert(g.values[b.insts[k]].bb == Some(b.bb));
        }
    }
    assert forall|i: int, j: int| 0 <= i < c.insts.len() && 0 <= j < c.insts.len() && i
        != j implies c.insts[i] != c.insts[j] by {
        let x = if i < at { i } else { i - 1 };
        let y = if j < at { j } else { j - 1 };
        if i != at && j != at {
            assert(c.insts[i] == b.insts[x]);
            assert(c.insts[j] == b.insts[y]);
        } else if i == at {
            assert(c.insts[j] == b.insts[y]);
            assert(b.insts.contains(b.insts[y]));
        } else {
            assert(c.insts[i] == b.insts[x]);
            assert(b.insts.contains(b.insts[x]));
        }
    }
    assert forall|i: int| 0 <= i < c.insts.len() implies h.has(#[trigger] c.insts[i])
        && h.values[c.insts[i]].bb == Some(c.bb) by {
        if i != at {
            let x = if i < at { i } else { i - 1 };
            assert(c.insts[i] == b.insts[x]);
            assert(g.has(b.insts[x]));
        }
    }
    assert forall|v: ValueId| h.has(v) && (#[trigger] h.values[v]).bb == Some(
        c.bb,
    ) implies c.insts.contains(v) by {
        if v == new {
            assert(c.insts[at] == new);
        } else {
            assert(g.values[v].bb == Some(b.bb));
            let k = choose|k: int| 0 <= k < b.insts.len() && b.insts[k] == v;
            if k < at {
                assert(c.insts[k] == v);
            } else {
                assert(c.insts[k + 1] == v);
            }
        }
    }
}

/// An instruction that leaves its block is listed there once; the block
/// without it is a block of the graph in which the instruction is in no
/// block.
proof fn lemma_leave(g: GraphView, b: BlockView, inst: ValueId)
    requires
        g.wf(),
        b.wf(g),
        b.holds(g, inst),
    ensures
        0 <= b.insts.index_of(inst) < b.insts.len(),
        b.insts[b.insts.index_of(inst)] == inst,
        g.with_bb(inst, None).wf(),
        b.remove_inst(inst).wf(g.with_bb(inst, None)),
        g.values[inst].kind.inst(),
        !b.remove_inst(inst).insts.contains(inst),
{
    let h = g.with_bb(inst, None);
    let c = b.remove_inst(inst);
    let p = b.insts.index_of(inst);
    assert(b.insts.contains(inst));
    assert(g.value_ok(inst));
    lemma_with_bb(g, inst, None);
    assert forall|i: int| 0 <= i < c.insts.len() implies h.has(#[trigger] c.insts[i])
        && h.values[c.insts[i]].bb == Some(c.bb) && c.insts[i] != inst by {
        let x = if i < p { i } else { i + 1 };
        assert(c.insts[i] == b.insts[x]);
        assert(g.has(b.insts[x]));
    }
    assert forall|v: ValueId| h.has(v) && (#[trigger] h.values[v]).bb == Some(
        c.bb,
    ) implies c.insts.contains(v) by {
        assert(g.values[v].bb == Some(b.bb));
        let k = choose|k: int| 0 <= k < b.insts.len() && b.insts[k] == v;
        if k < p {
            assert(c.insts[k] == v);
        } else {
            assert(c.insts[k - 1] == v);
        }
    }
    assert forall|i: int, j: int| 0 <= i < c.insts.len() && 0 <= j < c.insts.len() && i
        != j implies c.insts[i] != c.insts[j] by {
        let x = if i < p { i } else { i + 1 };
        let y = if j < p { j } else { j + 1 };
        assert(c.insts[i] == b.insts[x]);
        assert(c.insts[j] == b.insts[y]);
    }
}

/// No instruction is in two blocks.
pub proof fn lemma_blocks_disjoint(g: GraphView, a: BlockView, b: BlockView, inst: ValueId)
    requires
        a.wf(g),
        b.wf(g),
        a.bb != b.bb,
    ensures
        !(a.insts.contains(inst) && b.insts.contains(inst)),
{
    if a.insts.contains(inst) && b.insts.contains(inst) {
        let i = choose|i: int| 0 <= i < a.insts.len() && a.insts[i] == inst;
        let j = choose|j: int| 0 <= j < b.insts.len() && b.insts[j] == inst;
        assert(g.values[a.insts[i]].bb == Some(a.bb));
        assert(g.values[b.insts[j]].bb == Some(b.bb));
    }
}

/// Adding an instruction to a block and removing it again restores the
/// graph and the block: the instruction is in no block, as it was.
pub proof fn lemma_add_remove_inst(g: GraphView, b: BlockView, inst: ValueId)
    requires
        g.wf(),
        b.wf(g),
        BlockView::free(g, inst),
    ensures
        b.add_inst(inst).wf(g.with_bb(inst, Some(b.bb))),
        b.add_inst(inst).holds(g.with_bb(inst, Some(b.bb)), inst),
        g.with_bb(inst, Some(b.bb)).with_bb(inst, None) == g,
        b.add_inst(inst).remove_inst(inst) == b,
{
    lemma_enter(g, b, inst, b.insts.len() as int);
    assert(b.insts.insert(b.insts.len() as int, inst) =~= b.insts.push(inst));
    let h = g.with_bb(inst, Some(b.bb));
    let c = b.add_inst(inst);
    lemma_leave(h, c, inst);
    assert(h.with_bb(inst, None).values =~= g.values);
    assert(c.insts[b.insts.len() as int] == inst);
    assert(c.insts.index_of(inst) == b.insts.len());
    assert(c.remove_inst(inst).insts =~= b.insts);
}

/// A block that ends in a jump has the target of the jump as its one
/// successor, a block that ends in a branch has the two targets of the
/// branch, the one taken on true first, and any other block has none.
pub proof fn lemma_successors(g: GraphView, b: BlockView)
    ensures
        b.insts.len() == 0 ==> b.successors(g) == Seq::<BlockId>::empty(),
        b.insts.len() > 0 ==> match g.values[b.insts.last()].kind {
            ValueKind::Jump(jump) => b.successors(g) == seq![jump.target],
            ValueKind::Branch(branch) => b.successors(g) == seq![branch.true_bb, branch.false_bb],
            _ => b.successors(g) == Seq::<BlockId>::empty(),
        },
{
}

impl BasicBlockInner {
    /// Gets the handle of the block.
    pub fn bb(&self) -> (bb: BlockId)
        ensures
            bb == self@.bb,
    {
        self.bb
    }

    /// Gets the predecessor list.
    pub fn preds(&self) -> (preds: &Vec<BlockId>)
        ensures
            preds@ == self@.preds,
    {
        &self.preds
    }

    /// Gets the mutable predecessor list.
    pub fn preds_mut(&mut self) -> (preds: &mut Vec<BlockId>)
        ensures
            preds@ == old(self)@.preds,
            final(self)@ == (BlockView { preds: final(preds)@, ..old(self)@ }),
    {
        &mut self.preds
    }

    /// Gets the successors list, which the last instruction decides.
    pub fn succs(&self, dfg: &DataFlowGraph) -> (succs: Vec<BlockId>)
        requires
            self@.wf(dfg@),
        ensures
            succs@ == self@.successors(dfg@),
    {
        match self.insts.last() {
            Some(last) => dfg.value(last).kind().bb_uses(),
            None => Vec::new(),
        }
    }

    /// Gets the instruction list.
    pub fn insts(&self) -> (insts: &ValueList)
        ensures
            insts@ == self@.insts,
    {
        &self.insts
    }

    /// Adds the instruction `inst` to the end of the block.
    pub fn add_inst(&mut self, dfg: &mut DataFlowGraph, inst: ValueId)
        requires
            old(dfg).wf(),
            old(self)@.wf(old(dfg)@),
            BlockView::free(old(dfg)@, inst),
        ensures
            final(self)@ == old(self)@.add_inst(inst),
            final(dfg)@ == old(dfg)@.with_bb(inst, Some(old(self)@.bb)),
            final(self)@.wf(final(dfg)@),
            final(dfg).wf(),
    {
        proof {
            lemma_enter(dfg@, self@, inst, self@.insts.len() as int);
            assert(self@.insts.insert(self@.insts.len() as int, inst) =~= self@.insts.push(inst));
        }
        dfg.set_bb(inst, Some(self.bb));
        self.insts.push(inst);
    }

    /// Removes the instruction `inst` from the block.
    pub fn remove_inst(&mut self, dfg: &mut DataFlowGraph, inst: ValueId)
        requires
            old(dfg).wf(),
            old(self)@.wf(old(dfg)@),
            old(self)@.holds(old(dfg)@, inst),
        ensures
            final(self)@ == old(self)@.remove_inst(inst),
            final(dfg)@ == old(dfg)@.with_bb(inst, None),
            final(self)@.wf(final(dfg)@),
            final(dfg).wf(),
    {
        proof {
            lemma_leave(dfg@, self@, inst);
        }
        dfg.set_bb(inst, None);
        self.insts.remove(inst);
    }

    /// Replaces the instruction `inst` of the block with the instruction
    /// `new`, which takes its place. The uses of `inst` stay uses of `inst`.
    pub fn replace_inst(&mut self, dfg: &mut DataFlowGraph, inst: ValueId, new: ValueId)
        requires
            old(dfg).wf(),
            old(self)@.wf(old(dfg)@),
            old(self)@.holds(old(dfg)@, inst),
            BlockView::free(old(dfg)@, new),
        ensures
            final(self)@ == old(self)@.replace_inst(inst, new),
            final(dfg)@ == old(dfg)@.with_bb(inst, None).with_bb(new, Some(old(self)@.bb)),
            final(self)@.wf(final(dfg)@),
            final(dfg).wf(),
    {
        let ghost at = self@.insts.index_of(inst);
        proof {
            let g = dfg@;
            let b = self@;
            lemma_leave(g, b, inst);
            lemma_enter(g.with_bb(inst, None), b.remove_inst(inst), new, at);
            assert(b.remove_inst(inst).insts.insert(at, new) =~= b.insts.update(at, new));
            let longer = b.insts.insert(at, new);
            assert(longer[at + 1] == inst);
            assert(longer.index_of(inst) == at + 1) by {
                let j = longer.index_of(inst);
                assert(longer[j] == inst);
                if j < at {
                    assert(b.insts[j] == inst);
                } else if j > at + 1 {
                    assert(b.insts[j - 1] == inst);
                }
            }
            assert(longer.remove(at + 1) =~= b.insts.update(at, new));
        }
        dfg.set_bb(inst, None);
        dfg.set_bb(new, Some(self.bb));
        self.insts.insert(inst, new, false);
        self.insts.remove(inst);
    }

    /// Inserts the instruction `new` before the instruction `inst` of the
    /// block.
    pub fn insert_before(&mut self, dfg: &mut DataFlowGraph, inst: ValueId, new: ValueId)
        requires
            old(dfg).wf(),
            old(self)@.wf(old(dfg)@),
            old(self)@.holds(old(dfg)@, inst),
            BlockView::free(old(dfg)@, new),
        ensures
            final(self)@ == old(self)@.insert_before(inst, new),
            final(dfg)@ == old(dfg)@.with_bb(new, Some(old(self)@.bb)),
            final(self)@.wf(final(dfg)@),
            final(dfg).wf(),
    {
        proof {
            assert(self@.insts.contains(inst));
            lemma_enter(dfg@, self@, new, self@.insts.index_of(inst));
        }
        dfg.set_bb(new, Some(self.bb));
        self.insts.insert(inst, new, false);
    }

    /// Inserts the instruction `new` after the instruction `inst` of the
    /// block.
    pub fn insert_after(&mut self, dfg: &mut DataFlowGraph, inst: ValueId, new: ValueId)
        requires
            old(dfg).wf(),
            old(self)@.wf(old(dfg)@),
            old(self)@.holds(old(dfg)@, inst),
            BlockView::free(old(dfg)@, new),
        ensures
            final(self)@ == old(self)@.insert_after(inst, new),
            final(dfg)@ == old(dfg)@.with_bb(new, Some(old(self)@.bb)),
            final(self)@.wf(final(dfg)@),
            final(dfg).wf(),
    {
        proof {
            assert(self@.insts.contains(inst));
            lemma_enter(dfg@, self@, new, self@.insts.index_of(inst) + 1);
        }
        dfg.set_bb(new, Some(self.bb));
        self.insts.insert(inst, new, true);
    }
}

/// A basic block: a name, and the inner that holds its instructions.
pub struct BasicBlock {
    name: Option<String>,
    inner: BasicBlockInner,
}

impl View for BasicBlock {
    type V = BlockView;

    closed spec fn view(&self) -> BlockView {
        self.inner@
    }
}

/// A block of one graph is a block of another graph that has the block
/// and in which the same values say that they are in it.
pub proof fn lemma_block_kept(b: BlockView, g: GraphView, h: GraphView)
    requires
        b.wf(g),
        h.bbs.contains(b.bb),
        forall|v: ValueId|
            g.has(v) && (#[trigger] g.values[v]).bb == Some(b.bb) ==> h.has(v) && h.values[v].bb
                == Some(b.bb),
        forall|v: ValueId|
            h.has(v) && (#[trigger] h.values[v]).bb == Some(b.bb) ==> g.has(v) && g.values[v].bb
                == Some(b.bb),
    ensures
        b.wf(h),
{
    assert forall|i: int| 0 <= i < b.insts.len() implies h.has(#[trigger] b.insts[i])
        && h.values[b.insts[i]].bb == Some(b.bb) by {
        assert(g.values[b.insts[i]].bb == Some(b.bb));
    }
}

impl BasicBlock {
    /// The name of the block.
    pub closed spec fn label(&self) -> Option<String> {
        self.name
    }

    /// Creates a new basic block, without instructions and predecessors.
    pub fn new(dfg: &mut DataFlowGraph, name: Option<String>) -> (bb: BasicBlock)
        requires
            old(dfg).wf(),
        ensures
            bb@ == (BlockView {
                bb: BlockId(old(dfg)@.next_bb as usize),
                preds: Seq::empty(),
                insts: Seq::empty(),
            }),
            bb.label() == name,
            final(dfg)@ == old(dfg)@.add_bb(),
            final(dfg).wf(),
            bb@.wf(final(dfg)@),
    {
        let id = dfg.new_bb();
        let bb = BasicBlock {
            name,
            inner: BasicBlockInner { bb: id, preds: Vec::new(), insts: ValueList::new() },
        };
        proof {
            assert forall|v: ValueId| dfg@.has(v) implies (#[trigger] dfg@.values[v]).bb != Some(
                id,
            ) by {
                assert(old(dfg)@.value_ok(v));
            }
        }
        bb
    }

    /// Gets the name.
    pub fn name(&self) -> (name: &Option<String>)
        ensures
            *name == self.label(),
    {
        &self.name
    }

    /// Borrows the inner of the basic block.
    pub fn inner(&self) -> (inner: &BasicBlockInner)
        ensures
            inner@ == self@,
    {
        &self.inner
    }

    /// Mutably borrows the inner of the basic block.
    pub fn inner_mut(&mut self) -> (inner: &mut BasicBlockInner)
        ensures
            inner@ == old(self)@,
            final(self)@ == final(inner)@,
            final(self).label() == old(self).label(),
    {
        &mut self.inner
    }
}

impl GraphView {
    /// Whether `v` is a phi among `insts`.
    pub open spec fn phi_of(self, insts: Seq<ValueId>, v: ValueId) -> bool {
        insts.contains(v) && self.values[v].kind is Phi
    }

    /// Whether an edge does not come from a phi among `insts`.
    pub open spec fn not_from_phi(self, insts: Seq<ValueId>) -> spec_fn(Use) -> bool {
        |e: Use| !self.phi_of(insts, e.user)
    }

    /// What the value `x` is once the values `insts` are detached: those
    /// among them are in no basic block, the phis among them have no
    /// operands, and no value has a use that comes from such a phi.
    pub open spec fn detached(self, insts: Seq<ValueId>, x: ValueId) -> ValueView {
        ValueView {
            operands: if self.phi_of(insts, x) {
                Seq::empty()
            } else {
                self.values[x].operands
            },
            uses: self.values[x].uses.filter(self.not_from_phi(insts)),
            bb: if insts.contains(x) {
                None
            } else {
                self.values[x].bb
            },
            ..self.values[x]
        }
    }

    /// The graph in which the values `insts` are detached.
    pub open spec fn detach_all(self, insts: Seq<ValueId>) -> GraphView {
        GraphView {
            values: Map::new(|x: ValueId| self.has(x), |x: ValueId| self.detached(insts, x)),
            ..self
        }
    }

    /// The graph without the basic block `b`, whose instructions are
    /// detached.
    pub open spec fn remove_bb(self, b: BlockView) -> GraphView {
        self.detach_all(b.insts).without_bb(b.bb)
    }

    /// The graph in which the value `v` is in no basic block, and in which
    /// it has no operands if it is a phi.
    pub open spec fn detach(self, v: ValueId) -> GraphView {
        if self.values[v].kind is Phi {
            self.relink_value(v, ValueView { operands: Seq::empty(), ..self.values[v] }).with_bb(
                v,
                None,
            )
        } else {
            self.with_bb(v, None)
        }
    }

    /// The graph in which the first `n` of `insts` are detached, one after
    /// the other.
    pub open spec fn detach_upto(self, insts: Seq<ValueId>, n: nat) -> GraphView
        decreases n,
    {
        if n == 0 {
            self
        } else {
            self.detach_upto(insts, (n - 1) as nat).detach(insts[n - 1])
        }
    }
}

/// Detaching a value keeps the graph well formed.
proof fn lemma_detach(g: GraphView, v: ValueId)
    requires
        g.wf(),
        g.has(v),
    ensures
        g.detach(v).wf(),
{
    if g.values[v].kind is Phi {
        let data = ValueView { operands: Seq::empty(), ..g.values[v] };
        lemma_relink_value_steps(g, v, data);
        lemma_users_kept(g, g.relink_value(v, data));
        lemma_with_bb(g.relink_value(v, data), v, None);
    } else {
        lemma_with_bb(g, v, None);
    }
}

/// Detaching values one after the other detaches them all, and keeps the
/// graph well formed.
pub(crate) proof fn lemma_detach_upto(g: GraphView, insts: Seq<ValueId>, n: nat)
    requires
        g.wf(),
        n <= insts.len(),
        forall|i: int| 0 <= i < insts.len() ==> g.has(#[trigger] insts[i]),
    ensures
        g.detach_upto(insts, n) == g.detach_all(insts.take(n as int)),
        g.detach_all(insts.take(n as int)).wf(),
    decreases n,
{
    let now = insts.take(n as int);
    let t = g.detach_all(now);
    if n == 0 {
        assert(now =~= Seq::empty());
        assert forall|x: ValueId| g.has(x) implies #[trigger] t.values[x] == g.values[x] by {
            lemma_filter_all(g.values[x].uses, g.not_from_phi(now));
        }
        assert(t.values =~= g.values);
    } else {
        let m = (n - 1) as nat;
        let before = insts.take(m as int);
        lemma_detach_upto(g, insts, m);
        let h = g.detach_upto(insts, m);
        let v = insts[m as int];
        assert(g.has(v));
        lemma_detach(h, v);
        let k = h.detach(v);
        assert(now =~= before.push(v));
        assert forall|x: ValueId| now.contains(x) <==> before.contains(x) || x == v by {
            if now.contains(x) {
                let j = choose|j: int| 0 <= j < now.len() && now[j] == x;
                if j < m {
                    assert(before[j] == x);
                }
            }
            if before.contains(x) {
                let j = choose|j: int| 0 <= j < before.len() && before[j] == x;
                assert(now[j] == x);
            }
            assert(now[m as int] == v);
        }
        assert forall|x: ValueId| g.has(x) implies #[trigger] k.values[x] == t.values[x] by {
            let s = g.values[x].uses;
            if g.values[v].kind is Phi {
                reveal(Seq::filter);
                assert(slots(v, 0).filter(points_at(Seq::empty(), x)) =~= Seq::empty());
                assert(h.values[x].uses.filter(not_from(v)) + Seq::<Use>::empty()
                    =~= h.values[x].uses.filter(not_from(v)));
                lemma_filter_twice(s, g.not_from_phi(before), not_from(v));
                lemma_filter_agree(
                    s,
                    |e: Use| g.not_from_phi(before)(e) && not_from(v)(e),
                    g.not_from_phi(now),
                );
            } else {
                lemma_filter_agree(s, g.not_from_phi(before), g.not_from_phi(now));
            }
        }
        assert(k.values =~= t.values);
    }
}

/// After [`DataFlowGraph::remove_bb`] the graph is well formed.
pub proof fn lemma_remove_bb(g: GraphView, b: BlockView)
    requires
        g.wf(),
        b.wf(g),
    ensures
        g.remove_bb(b).wf(),
{
    let n = b.insts.len();
    lemma_detach_upto(g, b.insts, n);
    assert(b.insts.take(n as int) =~= b.insts);
    let d = g.detach_all(b.insts);
    let h = g.remove_bb(b);
    assert forall|x: ValueId| h.has(x) implies #[trigger] h.value_ok(x) by {
        assert(d.value_ok(x));
        if g.values[x].bb == Some(b.bb) {
            assert(b.insts.contains(x));
        }
    }
    assert(h.values_ok());
    assert forall|user: ValueId, i: int|
        h.has(user) && 0 <= i < h.values[user].operands.len() implies #[trigger] h.slot_linked(
        user,
        i,
    ) by {
        assert(d.slot_linked(user, i));
    }
    assert(h.every_slot_linked());
    assert forall|x: ValueId, k: int|
        h.has(x) && 0 <= k < h.values[x].uses.len() implies #[trigger] h.use_linked(x, k) by {
        assert(d.use_linked(x, k));
    }
    assert(h.every_use_linked());
    assert forall|x: ValueId| h.has(x) implies #[trigger] h.uses_once(x) by {
        assert(d.uses_once(x));
    }
    assert(h.uses_distinct());
    assert(d.pool_ok(d.zeros, ValueKind::ZeroInit(crate::values::ZeroInit)));
    assert(d.pool_ok(d.undefs, ValueKind::Undef(crate::values::Undef)));
    assert forall|c: BlockId, k: int|
        h.bbs.contains(c) && 0 <= k < h.users[c].len() implies #[trigger] h.user_listed(c, k) by {
        assert(d.user_listed(c, k));
    }
    assert forall|y: ValueId, j: int|
        h.has(y) && 0 <= j < h.values[y].kind.targets().len() implies #[trigger] h.target_listed(
        y,
        j,
    ) by {
        assert(d.target_listed(y, j));
    }
    assert forall|c: BlockId| h.bbs.contains(c) implies (#[trigger] h.users[c]).no_duplicates() by {
        assert(d.users[c].no_duplicates());
    }
}

/// After [`DataFlowGraph::remove_bb`] no value has a use that comes from a
/// phi of the block, and the instructions of the block are in no block. An
/// instruction of the block whose uses all came from phis of the block has
/// no use left: nothing knows of it, and [`DataFlowGraph::remove_value`]
/// takes it out of the graph.
pub proof fn lemma_remove_bb_frees(g: GraphView, b: BlockView)
    requires
        g.wf(),
        b.wf(g),
    ensures
        forall|x: ValueId, k: int|
            g.has(x) && 0 <= k < g.remove_bb(b).values[x].uses.len() ==> !g.phi_of(
                b.insts,
                (#[trigger] g.remove_bb(b).values[x].uses[k]).user,
            ),
        forall|i: int|
            0 <= i < b.insts.len() ==> g.remove_bb(b).has(#[trigger] b.insts[i]) && g.remove_bb(
                b,
            ).values[b.insts[i]].bb is None,
        forall|i: int|
            0 <= i < b.insts.len() && (forall|k: int|
                0 <= k < g.values[b.insts[i]].uses.len() ==> g.phi_of(
                    b.insts,
                    (#[trigger] g.values[b.insts[i]].uses[k]).user,
                )) ==> g.remove_bb(b).values[#[trigger] b.insts[i]].detached(),
{
    let h = g.remove_bb(b);
    let keep = g.not_from_phi(b.insts);
    assert forall|x: ValueId, k: int|
        g.has(x) && 0 <= k < h.values[x].uses.len() implies !g.phi_of(
        b.insts,
        (#[trigger] h.values[x].uses[k]).user,
    ) by {
        g.values[x].uses.lemma_filter_pred(keep, k);
    }
    assert forall|i: int| 0 <= i < b.insts.len() implies h.has(#[trigger] b.insts[i])
        && h.values[b.insts[i]].bb is None by {
        assert(g.has(b.insts[i]));
        assert(b.insts.contains(b.insts[i]));
    }
    assert forall|i: int|
        0 <= i < b.insts.len() && (forall|k: int|
            0 <= k < g.values[b.insts[i]].uses.len() ==> g.phi_of(
                b.insts,
                (#[trigger] g.values[b.insts[i]].uses[k]).user,
            )) implies h.values[#[trigger] b.insts[i]].detached() by {
        let x = b.insts[i];
        let left = h.values[x].uses;
        assert(g.has(x));
        assert(b.insts.contains(x));
        assert(g.value_ok(x));
        if left.len() > 0 {
            g.values[x].uses.lemma_filter_pred(keep, 0);
            assert(left.contains(left[0]));
            g.values[x].uses.lemma_filter_contains_rev(keep, left[0]);
            let k = choose|k: int|
                0 <= k < g.values[x].uses.len() && g.values[x].uses[k] == left[0];
            assert(g.phi_of(b.insts, g.values[x].uses[k].user));
        }
    }
}

impl DataFlowGraph {
    /// Removes the basic block `bb` from the graph, and returns the
    /// instructions that it held. They stay in the graph, in no block; those
    /// that are phis give up their operands, so that nothing keeps a value
    /// in use through a block that is gone.
    pub fn remove_bb(&mut self, bb: BasicBlock) -> (insts: Vec<ValueId>)
        requires
            old(self).wf(),
            bb@.wf(old(self)@),
        ensures
            insts@ == bb@.insts,
            final(self)@ == old(self)@.remove_bb(bb@),
            final(self).wf(),
    {
        let ghost g = self@;
        let ghost b = bb@;
        let id = bb.inner.bb;
        let insts = bb.inner.insts.to_vec();
        let mut i: usize = 0;
        while i < insts.len()
            invariant
                i <= insts.len(),
                insts@ == b.insts,
                g.wf(),
                b.wf(g),
                self@ == g.detach_upto(insts@, i as nat),
            decreases insts.len() - i,
        {
            let v = insts[i];
            proof {
                lemma_detach_upto(g, insts@, i as nat);
                assert(g.has(insts@[i as int]));
            }
            if let ValueKind::Phi = self.value(v).kind() {
                proof {
                    let h = self@;
                    let data = ValueView { operands: Seq::empty(), ..h.values[v] };
                    lemma_relink_value_steps(h, v, data);
                    let u = h.unlink_all(v);
                    assert(u.replaced(v, data) == (ValueView {
                        operands: Seq::empty(),
                        ..u.values[v]
                    }));
                }
                self.unlink(v);
                self.clear_operands(v);
            }
            self.set_bb(v, None);
            i += 1;
        }
        proof {
            lemma_detach_upto(g, insts@, insts@.len());
            assert(insts@.take(insts@.len() as int) =~= insts@);
            lemma_remove_bb(g, b);
        }
        self.retire_bb(id);
        insts
    }
}

} // verus!
