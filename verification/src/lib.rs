//! Evaluation core of a lazy, purely functional configuration language.
//!
//! The library represents one evaluation session as an append-only [`eval::Arena`]
//! of syntax nodes, terms and thunks.  A caller adopts a syntax node as a lazy
//! root thunk and drives evaluation one reduction at a time with
//! [`eval::Arena::step`]; values are observed, without forcing anything, through
//! [`eval::Arena::as_value`].

pub mod syntax;
pub mod term;
pub mod eval;
