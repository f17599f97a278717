//! Types of values: immutable descriptors that are compared by structure.

use vstd::prelude::*;

verus! {

/// A type of the representation.
#[derive(Debug)]
pub enum Type {
    /// The type of instructions that produce nothing.
    Unit,
    /// 32-bit integer.
    Int32,
    /// Array of a base type with a fixed length.
    Array(Box<Type>, usize),
    /// Pointer to a base type.
    Pointer(Box<Type>),
    /// Function from parameter types to a return type.
    Function(Vec<Type>, Box<Type>),
}

/// The structure of a [`Type`], which is all that equality of types looks at.
pub enum TypeKind {
    Unit,
    Int32,
    Array(Box<TypeKind>, nat),
    Pointer(Box<TypeKind>),
    Function(Seq<TypeKind>, Box<TypeKind>),
}

/// The structure of `ty`.
pub open spec fn kind_of(ty: Type) -> TypeKind
    decreases ty,
{
    match ty {
        Type::Unit => TypeKind::Unit,
        Type::Int32 => TypeKind::Int32,
        Type::Array(base, len) => TypeKind::Array(Box::new(kind_of(*base)), len as nat),
        Type::Pointer(base) => TypeKind::Pointer(Box::new(kind_of(*base))),
        Type::Function(params, ret) => TypeKind::Function(
            Seq::new(
                params.len() as nat,
                |i: int|
                    if 0 <= i < params.len() {
                        kind_of(params[i])
                    } else {
                        TypeKind::Unit
                    },
            ),
            Box::new(kind_of(*ret)),
        ),
    }
}

impl View for Type {
    type V = TypeKind;

    open spec fn view(&self) -> TypeKind {
        kind_of(*self)
    }
}

/// The structures of a list of types, element by element.
pub open spec fn kinds_of(tys: Seq<Type>) -> Seq<TypeKind> {
    Seq::new(tys.len(), |i: int| tys[i]@)
}

impl Type {
    /// The unit type.
    pub fn get_unit() -> (ty: Type)
        ensures
            ty@ == TypeKind::Unit,
    {
        Type::Unit
    }

    /// The 32-bit integer type.
    pub fn get_i32() -> (ty: Type)
        ensures
            ty@ == TypeKind::Int32,
    {
        Type::Int32
    }

    /// The type of arrays of `len` elements of type `base`.
    pub fn get_array(base: Type, len: usize) -> (ty: Type)
        ensures
            ty@ == TypeKind::Array(Box::new(base@), len as nat),
    {
        Type::Array(Box::new(base), len)
    }

    /// The type of pointers to `base`.
    pub fn get_pointer(base: Type) -> (ty: Type)
        ensures
            ty@ == TypeKind::Pointer(Box::new(base@)),
    {
        Type::Pointer(Box::new(base))
    }

    /// The type of functions that take `params` and return `ret`.
    pub fn get_function(params: Vec<Type>, ret: Type) -> (ty: Type)
        ensures
            ty@ == TypeKind::Function(kinds_of(params@), Box::new(ret@)),
    {
        let ghost kinds = kinds_of(params@);
        let ty = Type::Function(params, Box::new(ret));
        proof {
            assert(ty@->Function_0 =~= kinds);
        }
        ty
    }

    /// Whether this is the unit type.
    pub fn is_unit(&self) -> (b: bool)
        ensures
            b == (self@ == TypeKind::Unit),
    {
        match self {
            Type::Unit => true,
            _ => false,
        }
    }

    /// Structural equality of two types.
    fn same_as(&self, other: &Type) -> (b: bool)
        ensures
            b == (self@ == other@),
        decreases self,
    {
        match (self, other) {
            (Type::Unit, Type::Unit) => true,
            (Type::Int32, Type::Int32) => true,
            (Type::Array(base, len), Type::Array(other_base, other_len)) => {
                *len == *other_len && base.same_as(other_base)
            },
            (Type::Pointer(base), Type::Pointer(other_base)) => base.same_as(other_base),
            (Type::Function(params, ret), Type::Function(others, other_ret)) => {
                if params.len() != others.len() {
                    proof {
                        assert(self@->Function_0.len() != other@->Function_0.len());
                    }
                    return false;
                }
                let mut i: usize = 0;
                while i < params.len()
                    invariant
                        i <= params.len(),
                        params.len() == others.len(),
                        forall|j: int| 0 <= j < i ==> params[j]@ == others[j]@,
                        *self == Type::Function(*params, *ret),
                        *other == Type::Function(*others, *other_ret),
                    decreases params.len() - i,
                {
                    if !params[i].same_as(&others[i]) {
                        proof {
                            assert(self@->Function_0[i as int] == params[i as int]@);
                            assert(other@->Function_0[i as int] == others[i as int]@);
                        }
                        return false;
                    }
                    i += 1;
                }
                proof {
                    assert(self@->Function_0 =~= other@->Function_0);
                }
                ret.same_as(other_ret)
            },
            _ => false,
        }
    }

    /// A copy of this type.
    fn duplicate(&self) -> (ty: Type)
        ensures
            ty@ == self@,
        decreases self,
    {
        match self {
            Type::Unit => Type::Unit,
            Type::Int32 => Type::Int32,
            Type::Array(base, len) => Type::Array(Box::new(base.duplicate()), *len),
            Type::Pointer(base) => Type::Pointer(Box::new(base.duplicate())),
            Type::Function(params, ret) => {
                let mut copies: Vec<Type> = Vec::new();
                let mut i: usize = 0;
                while i < params.len()
                    invariant
                        i <= params.len(),
                        copies.len() == i,
                        forall|j: int| 0 <= j < i ==> copies[j]@ == params[j]@,
                        decreases_to!(*self => *params),
                    decreases params.len() - i,
                {
                    copies.push(params[i].duplicate());
                    i += 1;
                }
                let r = ret.duplicate();
                proof {
                    assert(kinds_of(copies@) =~= kinds_of(params@));
                    assert(kinds_of(params@) =~= self@->Function_0);
                }
                Type::get_function(copies, r)
            },
        }
    }
}

impl PartialEq for Type {
    fn eq(&self, other: &Type) -> (b: bool) {
        self.same_as(other)
    }
}

impl vstd::std_specs::cmp::PartialEqSpecImpl for Type {
    open spec fn obeys_eq_spec() -> bool {
        true
    }

    open spec fn eq_spec(&self, other: &Type) -> bool {
        self@ == other@
    }
}

impl Clone for Type {
    fn clone(&self) -> (ty: Type)
        ensures
            ty@ == self@,
    {
        self.duplicate()
    }
}

} // verus!
