//! The first predicate of a search: nothing to set up beyond the fresh state.

use crate::context::SearchContext;
use crate::engine::{Predicate, PredicateResult, TerminalPredicate};
use vstd::prelude::*;

verus! {

/// Succeeds once, in round 0. It offers no choices, so it is never retried; a retry, or a
/// later round, fails.
#[derive(Debug)]
pub struct InitializePredicate;

impl Predicate for InitializePredicate {
    fn try_pred(&mut self, ctx: &mut SearchContext, round: usize) -> (r: PredicateResult)
        ensures
            r == (if round == 0 {
                PredicateResult::Success
            } else {
                PredicateResult::Failure
            }),
            *final(ctx) == *old(ctx),
    {
        if round == 0 {
            PredicateResult::Success
        } else {
            PredicateResult::Failure
        }
    }

    fn retry_pred(&mut self, ctx: &mut SearchContext, round: usize, choice: usize) -> (r: PredicateResult)
        ensures
            r == PredicateResult::Failure,
            *final(ctx) == *old(ctx),
    {
        PredicateResult::Failure
    }

    fn name(&self) -> (r: &'static str)
        ensures
            r@ == "Initialize"@,
    {
        "Initialize"
    }
}

impl TerminalPredicate for InitializePredicate {
}

} // verus!
