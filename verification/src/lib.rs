//! Type unification in an ordered typing context, and some smaller things.
//!
//! - `bwd`, `fwd`: the two list types that contexts and suffixes are made of.
//! - `types`: type terms, context entries, type schemes.
//! - `context`: the typing context with `fresh`, `unify`, `solve` and
//!   `specialize`, and what each of them computes.
//! - `laws`, `soundness`, `scoping`, `complete`: what holds of them.
//! - `pattern`: search patterns in normal form.
//! - `lazy`: values that are computed at their first use.
//! - `undo_redo`: undo and redo stacks with transactions.

pub mod bwd;
pub mod fwd;
pub mod types;
pub mod context;
pub mod laws;
pub mod soundness;
pub mod scoping;
pub mod complete;
pub mod pattern;
pub mod lazy;
pub mod undo_redo;
