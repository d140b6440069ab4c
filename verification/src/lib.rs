//! A small computer-algebra engine for expressions over a graded, antisymmetric
//! bracket algebra: generators such as `E(1)`, `F(2)`, `H(3)`, combined by the
//! bracket `[a, b]`, sums, products with integers, and negation.
//!
//! Expressions are read from text, evaluated in an environment, rewritten to a
//! normal form by an ordered list of rules, put in a canonical order with their
//! sign kept, and collected term by term to decide whether they vanish.

pub mod canon;
pub mod collect;
pub mod error;
pub mod eval;
pub mod matcher;
pub mod parser;
pub mod render;
pub mod rewrite;
pub mod scope;
pub mod search;
pub mod v2;
pub mod value;

pub use crate::scope::Scope;
pub use crate::search::{make, n_f, str_build};
