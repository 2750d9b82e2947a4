//! Predicates: the steps of a search. The engine asks a predicate to try a round, and on
//! backtracking to retry it with each of the choices it offered.

use crate::context::SearchContext;
use vstd::prelude::*;

verus! {

/// What a predicate reports.
#[derive(Debug, Clone, Copy, PartialEq, Eq, Structural)]
pub enum PredicateResult {
    /// Go on with the next predicate.
    Success,
    /// Stay with this predicate, for its next round.
    SuccessSamePredicate,
    /// No (more) way forward here: backtrack.
    Failure,
    /// There are this many choices to try, one after another, by `retry_pred`.
    Choices(usize),
    /// Stop the search here, keeping its state, to be resumed later.
    Suspend,
}

/// A step of a search. `try_pred` is called when the step is reached for a round (rounds
/// start at 0 and grow with each `SuccessSamePredicate`); after `Choices(n)`, `retry_pred`
/// is called with each choice in turn, the state rewound to where it was before the
/// choices. `retry_pred` is not meant to return `Choices` or `Suspend`.
pub trait Predicate {
    /// Try the predicate for a round.
    fn try_pred(&mut self, ctx: &mut SearchContext, round: usize) -> (r: PredicateResult)
        requires
            old(ctx).wf(),
        ensures
            final(ctx).wf(),
            final(ctx).memo == old(ctx).memo,
    ;

    /// Retry the predicate for a round with one of its choices.
    fn retry_pred(&mut self, ctx: &mut SearchContext, round: usize, choice: usize) -> (r: PredicateResult)
        requires
            old(ctx).wf(),
        ensures
            final(ctx).wf(),
            final(ctx).memo == old(ctx).memo,
    ;

    /// A name for the predicate.
    fn name(&self) -> &'static str;
}

/// A predicate that can end a sequence: it fails or suspends, never succeeds.
pub trait TerminalPredicate: Predicate {
}

} // verus!
