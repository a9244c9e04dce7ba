use vstd::prelude::*;

verus! {

/// A type variable: a bare number, unique within the numbering of one [`Source`](crate::Source).
#[derive(Copy, Clone, Debug, PartialEq, Eq, Hash, PartialOrd, Ord, Structural)]
pub struct Variable(pub usize);

/// The handle of an interned constructor name: its place in the context's store of names.
#[derive(Copy, Clone, Debug, PartialEq, Eq, Hash, Structural)]
pub struct Name(pub usize);

/// The handle of an interned argument list.
#[derive(Copy, Clone, Debug, PartialEq, Eq, Hash, Structural)]
pub struct Args(pub usize);

/// The handle of an interned type term. Within one context two handles are
/// equal exactly when the terms they stand for are equal.
#[derive(Copy, Clone, Debug, PartialEq, Eq, Hash, Structural)]
pub struct Ty(pub usize);

/// The handle of an interned type scheme.
#[derive(Copy, Clone, Debug, PartialEq, Eq, Hash, Structural)]
pub struct Schema(pub usize);

/// An interned term as it is stored: one level, with handles for its parts.
#[derive(Copy, Clone, Debug, PartialEq, Eq, Hash, Structural)]
pub enum Type {
    Constructed(Name, Args),
    Variable(Variable),
}

/// An interned scheme as it is stored: one level, with a handle for what is under it.
#[derive(Copy, Clone, Debug, PartialEq, Eq, Hash, Structural)]
pub enum TypeSchema {
    Monotype(Ty),
    Polytype(Variable, Schema),
}

/// Why two terms could not be unified.
#[derive(Copy, Clone, Debug, PartialEq, Eq, Structural)]
pub enum UnificationError {
    /// Binding the variable would make a term that holds itself.
    Occurs(Variable),
    /// Two constructed terms differ in head or in the number of arguments.
    Mismatch(Ty, Ty),
}

} // verus!
