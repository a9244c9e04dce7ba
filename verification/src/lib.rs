//! Polymorphic types in the style of Hindley and Milner: terms and schemes
//! that are stored once and compared by handle, substitutions that can be
//! cut back to a checkpoint, unification with an occurs check, fresh
//! variables, and the renaming that lets two numberings of variables meet.
//!
//! Handles stand for terms of a [`TypeContext`]; what a handle stands for
//! is a [`term::Term`], and the contracts of the library are stated over
//! those terms.

pub mod bindings;
pub mod context;
pub mod fast;
pub mod instantiate;
pub mod interner;
pub mod outcome;
pub mod owned;
pub mod parser;
pub mod printer;
pub mod rebuild;
pub mod solutions;
pub mod source;
pub mod substitution;
pub mod syntax;
pub mod table;
pub mod term;
pub mod types;
pub mod unify;

pub use context::{with_ctx, Context, TypeContext};
pub use fast::{apply_mut, instantiate_owned, resolve_owned, unify_fast};
pub use instantiate::instantiate;
pub use interner::{Interner, SliceInterner};
pub use owned::OwnedType;
pub use parser::ParseError;
pub use source::{Source, SourceChange};
pub use substitution::{Snapshot, SubIter, Substitution};
pub use types::{Args, Name, Schema, Ty, Type, TypeSchema, UnificationError, Variable};
pub use unify::{apply, occurs_check, shallow_resolve, unify};
