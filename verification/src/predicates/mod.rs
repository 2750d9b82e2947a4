//! The predicates of the searches: set up, choose the inner face's neighbours' degrees,
//! choose each face's cycle, and simple predicates for driving the engine.

pub mod initialize;
pub mod innerface;
pub mod report;
pub mod test;
pub mod venn;

pub use initialize::InitializePredicate;
pub use innerface::InnerFacePredicate;
pub use venn::VennPredicate;

use crate::context::SearchContext;
use crate::engine::{Predicate, PredicateResult, TerminalPredicate};
use vstd::prelude::*;

verus! {

/// A predicate that always fails: it ends a sequence by backtracking.
#[derive(Debug)]
pub struct FailPredicate;

impl Predicate for FailPredicate {
    fn try_pred(&mut self, ctx: &mut SearchContext, round: usize) -> (r: PredicateResult)
        ensures
            r == PredicateResult::Failure,
            *final(ctx) == *old(ctx),
    {
        PredicateResult::Failure
    }

    fn retry_pred(&mut self, ctx: &mut SearchContext, round: usize, choice: usize) -> (r: PredicateResult)
        ensures
            r == PredicateResult::Failure,
            *final(ctx) == *old(ctx),
    {
        PredicateResult::Failure
    }

    fn name(&self) -> (r: &'static str)
        ensures
            r@ == "Fail"@,
    {
        "Fail"
    }
}

impl TerminalPredicate for FailPredicate {
}

} // verus!
