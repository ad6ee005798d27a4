//! The vocabulary of types: permissions, type skeletons, and the small keys
//! that stand for them once they are interned.

use vstd::prelude::*;

verus! {

/// A declared item: a struct, a field or a function.
#[derive(Clone, Copy, Debug, PartialEq, Eq, Structural, Hash)]
pub struct Entity {
    pub index: u32,
}

/// One slot of the unification table.
#[derive(Clone, Copy, Debug, PartialEq, Eq, Structural, Hash)]
pub struct InferVar {
    pub index: u32,
}

/// A permission that inference still has to classify.
#[derive(Clone, Copy, Debug, PartialEq, Eq, Structural, Hash)]
pub struct PermVar {
    pub index: u32,
}

/// A place in the body of a function: an expression or an identifier.
#[derive(Clone, Copy, Debug, PartialEq, Eq, Structural, Hash)]
pub struct Node {
    pub index: u32,
}

/// The nesting depth of a scope; the root scope has depth zero.
#[derive(Clone, Copy, Debug, PartialEq, Eq, Structural, Hash)]
pub struct Universe {
    pub depth: u32,
}

/// A generic parameter, counted from the outermost one of its item.
#[derive(Clone, Copy, Debug, PartialEq, Eq, Structural, Hash)]
pub struct BoundVar {
    pub index: u32,
}

/// A rigid unknown that stands for a generic parameter inside its universe.
#[derive(Clone, Copy, Debug, PartialEq, Eq, Structural, Hash)]
pub struct Placeholder {
    pub universe: Universe,
    pub bound_var: BoundVar,
}

/// How a value is held.
#[derive(Clone, Copy, Debug, PartialEq, Eq, Structural, Hash)]
pub enum PermKind {
    Own,
    Share,
    Borrow,
}

/// The key of an interned permission.
#[derive(Clone, Copy, Debug, PartialEq, Eq, Structural, Hash)]
pub struct Perm {
    pub index: u32,
}

/// The key of an interned type skeleton.
#[derive(Clone, Copy, Debug, PartialEq, Eq, Structural, Hash)]
pub struct Base {
    pub index: u32,
}

/// The key of an interned list of generic arguments.
#[derive(Clone, Copy, Debug, PartialEq, Eq, Structural, Hash)]
pub struct Generics {
    pub index: u32,
}

/// What a permission key stands for.
#[derive(Clone, Copy, Debug, PartialEq, Eq, Structural, Hash)]
pub enum PermData {
    Known(PermKind),
    Inferred(PermVar),
    Placeholder(Placeholder),
}

/// The head of a known type skeleton.
#[derive(Clone, Copy, Debug, PartialEq, Eq, Structural, Hash)]
pub enum BaseKind {
    /// A declared type.
    Named(Entity),
    /// The sentinel that stands in where checking has failed.
    Error,
}

/// What a type-skeleton key stands for.
#[derive(Clone, Copy, Debug, PartialEq, Eq, Structural, Hash)]
pub enum BaseData {
    Known { kind: BaseKind, generics: Generics },
    Inferred(InferVar),
    Placeholder(Placeholder),
}

/// A type: a permission applied to a type skeleton.
#[derive(Clone, Copy, Debug, PartialEq, Eq, Structural, Hash)]
pub struct Ty {
    pub perm: Perm,
    pub base: Base,
}

/// One generic argument.
#[derive(Clone, Copy, Debug, PartialEq, Eq, Structural, Hash)]
pub enum Generic {
    Ty(Ty),
}

} // verus!
