//! Type unification over a union-find substitution store, with the editor's text
//! and markup structures.

pub mod code_lines;
pub mod markup;
pub mod subs;
pub mod unify;
