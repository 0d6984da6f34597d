use vstd::prelude::*;

pub mod chain;
pub mod egraph;
pub mod expr;
pub mod extract;
pub mod ground;
pub mod laws;
pub mod mode;
pub mod names;
pub mod prove;
pub mod prune;
pub mod rules;
pub mod sort;
pub mod text;

verus! {
} // verus!
