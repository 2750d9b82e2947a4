//! A search for simple symmetric Venn diagrams of six curves, each drawable as a
//! triangle: fixed tables of facial cycles, faces and vertices; a search state whose
//! writes are recorded for backtracking; constraint propagation between faces; symmetry
//! checks; and a backtracking engine run by predicates.
#![verifier::loop_isolation(false)]

pub mod context;
pub mod engine;
pub mod geometry;
pub mod memo;
pub mod predicates;
pub mod propagation;
pub mod state;
pub mod symmetry;
pub mod text;
pub mod trail;

pub use context::SearchContext;
pub use engine::{Predicate, PredicateResult, SearchEngine};
pub use trail::Trail;
