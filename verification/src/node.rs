//! The data of one value: its type, its kind, the values it uses and the
//! places where it is used.

use vstd::prelude::*;
use crate::entities::{BlockId, Use, ValueId};
use crate::lists::UseList;
use crate::types::{Type, TypeKind};
use crate::values::ValueKind;

verus! {

/// `uses` without the edge `u`.
pub open spec fn without_use(uses: Seq<Use>, u: Use) -> Seq<Use> {
    uses.remove(uses.index_of(u))
}

/// A value can be used by other values.
pub trait Value {
    /// The type of the value.
    spec fn type_kind(&self) -> TypeKind;

    /// The edges that point at the value, oldest first.
    spec fn use_list(&self) -> Seq<Use>;

    /// Gets the use list of the value.
    fn uses(&self) -> (uses: &UseList)
        ensures
            uses@ == self.use_list(),
    ;

    /// Gets the type of the value.
    fn ty(&self) -> (ty: &Type)
        ensures
            ty@ == self.type_kind(),
    ;

    /// Adds the edge `u`, which is not in the use list, at its end.
    fn add_use(&mut self, u: Use)
        requires
            !old(self).use_list().contains(u),
        ensures
            final(self).use_list() == old(self).use_list().push(u),
            final(self).type_kind() == old(self).type_kind(),
    ;

    /// Removes the edge `u` from the use list.
    fn remove_use(&mut self, u: Use)
        requires
            old(self).use_list().contains(u),
        ensures
            final(self).use_list() == without_use(old(self).use_list(), u),
            final(self).type_kind() == old(self).type_kind(),
    ;
}

/// A user can use other values.
pub trait User: Value {
    /// The values that the user uses, in the order of its operand slots.
    spec fn operand_list(&self) -> Seq<ValueId>;

    /// Gets the operands of the user.
    fn operands(&self) -> (operands: &Vec<ValueId>)
        ensures
            operands@ == self.operand_list(),
    ;
}

/// Data of a value.
pub struct ValueData {
    ty: Type,
    kind: ValueKind,
    operands: Vec<ValueId>,
    uses: UseList,
    bb: Option<BlockId>,
    shared: bool,
}

/// What a [`ValueData`] holds.
pub struct ValueView {
    pub ty: TypeKind,
    pub kind: ValueKind,
    /// The values used, by operand slot.
    pub operands: Seq<ValueId>,
    /// The edges that point at the value, oldest first.
    pub uses: Seq<Use>,
    /// The basic block that holds the value, if it is an instruction in a block.
    pub bb: Option<BlockId>,
    /// Whether the value is a shared constant, which stays as long as the graph.
    pub shared: bool,
}

impl View for ValueData {
    type V = ValueView;

    closed spec fn view(&self) -> ValueView {
        ValueView {
            ty: self.ty@,
            kind: self.kind,
            operands: self.operands@,
            uses: self.uses@,
            bb: self.bb,
            shared: self.shared,
        }
    }
}

impl ValueView {
    /// The data of a value of type `ty` and kind `kind` that uses `operands`
    /// and that nothing knows of yet.
    pub open spec fn fresh(ty: TypeKind, kind: ValueKind, operands: Seq<ValueId>) -> ValueView {
        ValueView { ty, kind, operands, uses: Seq::empty(), bb: None, shared: false }
    }

    /// Whether nothing knows of the value yet.
    pub open spec fn detached(self) -> bool {
        &&& self.uses.len() == 0
        &&& self.bb is None
        &&& !self.shared
    }
}

impl ValueData {
    /// Creates the data of a value without operands.
    pub fn new(ty: Type, kind: ValueKind) -> (data: ValueData)
        ensures
            data@ == ValueView::fresh(ty@, kind, Seq::empty()),
    {
        ValueData { ty, kind, operands: Vec::new(), uses: UseList::new(), bb: None, shared: false }
    }

    /// Creates the data of a shared constant.
    pub(crate) fn new_shared(ty: Type, kind: ValueKind) -> (data: ValueData)
        ensures
            data@ == (ValueView { shared: true, ..ValueView::fresh(ty@, kind, Seq::empty()) }),
    {
        ValueData { ty, kind, operands: Vec::new(), uses: UseList::new(), bb: None, shared: true }
    }

    /// Creates the data of a value that uses `operands`.
    pub fn with_operands(ty: Type, kind: ValueKind, operands: Vec<ValueId>) -> (data: ValueData)
        ensures
            data@ == ValueView::fresh(ty@, kind, operands@),
    {
        ValueData { ty, kind, operands, uses: UseList::new(), bb: None, shared: false }
    }

    /// Gets the kind of the value.
    pub fn kind(&self) -> (kind: &ValueKind)
        ensures
            *kind == self@.kind,
    {
        &self.kind
    }

    /// Gets the basic block that holds the value.
    pub fn bb(&self) -> (bb: Option<BlockId>)
        ensures
            bb == self@.bb,
    {
        self.bb
    }

    /// Whether the value is a shared constant, which stays as long as the graph.
    pub fn is_shared(&self) -> (b: bool)
        ensures
            b == self@.shared,
    {
        self.shared
    }

    /// Puts the value into the basic block `bb`, or into none.
    pub(crate) fn set_bb(&mut self, bb: Option<BlockId>)
        ensures
            final(self)@ == (ValueView { bb, ..old(self)@ }),
    {
        self.bb = bb;
    }

    /// Makes the operand slot `index` point at `value`.
    pub(crate) fn set_operand(&mut self, index: usize, value: ValueId)
        requires
            index < old(self)@.operands.len(),
        ensures
            final(self)@ == (ValueView {
                operands: old(self)@.operands.update(index as int, value),
                ..old(self)@
            }),
    {
        self.operands[index] = value;
    }

    /// Adds an operand slot that points at `value`.
    pub(crate) fn push_operand(&mut self, value: ValueId)
        ensures
            final(self)@ == (ValueView {
                operands: old(self)@.operands.push(value),
                ..old(self)@
            }),
            old(self)@.operands.len() < usize::MAX,
    {
        self.operands.push(value);
        assert(self.operands.len() <= usize::MAX);
    }

    /// Takes the operand slot `index` away; the slots behind it move up.
    pub(crate) fn remove_operand(&mut self, index: usize)
        requires
            index < old(self)@.operands.len(),
        ensures
            final(self)@ == (ValueView {
                operands: old(self)@.operands.remove(index as int),
                ..old(self)@
            }),
    {
        self.operands.remove(index);
    }

    /// Takes all operand slots away.
    pub(crate) fn clear_operands(&mut self)
        ensures
            final(self)@ == (ValueView { operands: Seq::empty(), ..old(self)@ }),
    {
        self.operands.clear();
    }

    /// Takes over what the graph knows of `other`, which is left as new.
    pub(crate) fn inherit(&mut self, other: &mut ValueData)
        ensures
            final(self)@ == (ValueView {
                uses: old(other)@.uses,
                bb: old(other)@.bb,
                shared: old(other)@.shared,
                ..old(self)@
            }),
            final(other)@ == ValueView::fresh(
                old(other)@.ty,
                old(other)@.kind,
                old(other)@.operands,
            ),
    {
        let mut uses = UseList::new();
        std::mem::swap(&mut uses, &mut other.uses);
        self.uses = uses;
        self.bb = other.bb;
        self.shared = other.shared;
        other.bb = None;
        other.shared = false;
    }

    /// Puts the edge `to`, which is not among the uses, in the place of the
    /// edge `from`.
    pub(crate) fn rename_use(&mut self, from: Use, to: Use)
        requires
            old(self)@.uses.contains(from),
            !old(self)@.uses.contains(to),
        ensures
            final(self)@ == (ValueView {
                uses: old(self)@.uses.update(old(self)@.uses.index_of(from), to),
                ..old(self)@
            }),
    {
        self.uses.replace(from, to);
    }

    /// Takes all uses away and returns them.
    pub(crate) fn take_uses(&mut self) -> (uses: Vec<Use>)
        ensures
            uses@ == old(self)@.uses,
            final(self)@ == (ValueView { uses: Seq::empty(), ..old(self)@ }),
    {
        let uses = self.uses.to_vec();
        self.uses = UseList::new();
        uses
    }
}

impl Value for ValueData {
    open spec fn type_kind(&self) -> TypeKind {
        self@.ty
    }

    open spec fn use_list(&self) -> Seq<Use> {
        self@.uses
    }

    fn uses(&self) -> (uses: &UseList)
        ensures
            uses@ == self@.uses,
    {
        &self.uses
    }

    fn ty(&self) -> (ty: &Type)
        ensures
            ty@ == self@.ty,
    {
        &self.ty
    }

    fn add_use(&mut self, u: Use)
        ensures
            final(self)@ == (ValueView { uses: old(self)@.uses.push(u), ..old(self)@ }),
    {
        self.uses.push(u);
    }

    fn remove_use(&mut self, u: Use)
        ensures
            final(self)@ == (ValueView { uses: without_use(old(self)@.uses, u), ..old(self)@ }),
    {
        self.uses.remove(u);
    }
}

impl User for ValueData {
    open spec fn operand_list(&self) -> Seq<ValueId> {
        self@.operands
    }

    fn operands(&self) -> (operands: &Vec<ValueId>)
        ensures
            operands@ == self@.operands,
    {
        &self.operands
    }
}

} // verus!
