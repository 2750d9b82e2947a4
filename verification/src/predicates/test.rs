//! Simple predicates for driving and testing the engine.

use crate::context::SearchContext;
use crate::engine::{Predicate, PredicateResult, TerminalPredicate};
use vstd::prelude::*;

pub use crate::predicates::FailPredicate as AlwaysFailPredicate;

verus! {

/// Chooses an integer in `start..end`: one choice per value.
#[derive(Debug)]
pub struct IntegerRangePredicate {
    pub start: i32,
    pub end: i32,
}

/// The number of values in the range (0 when it is empty).
pub open spec fn range_count(start: i32, end: i32) -> int {
    if end > start {
        end - start
    } else {
        0
    }
}

impl IntegerRangePredicate {
    /// The range `start..end`.
    pub fn new(start: i32, end: i32) -> (r: Self)
        ensures
            r.start == start,
            r.end == end,
    {
        Self { start, end }
    }

    /// The number of values in the range.
    pub fn count(&self) -> (r: usize)
        ensures
            r == range_count(self.start, self.end),
    {
        let difference: i64 = self.end as i64 - self.start as i64;
        if difference > 0 {
            difference as usize
        } else {
            0
        }
    }
}

impl Predicate for IntegerRangePredicate {
    fn try_pred(&mut self, ctx: &mut SearchContext, round: usize) -> (r: PredicateResult)
        ensures
            r == (if range_count(old(self).start, old(self).end) > 0 {
                PredicateResult::Choices(range_count(old(self).start, old(self).end) as usize)
            } else {
                PredicateResult::Failure
            }),
            *final(ctx) == *old(ctx),
    {
        let count = self.count();
        if count > 0 {
            PredicateResult::Choices(count)
        } else {
            PredicateResult::Failure
        }
    }

    fn retry_pred(&mut self, ctx: &mut SearchContext, round: usize, choice: usize) -> (r: PredicateResult)
        ensures
            r == (if old(self).start + (choice as i32) < old(self).end {
                PredicateResult::Success
            } else {
                PredicateResult::Failure
            }),
            *final(ctx) == *old(ctx),
    {
        let value: i64 = self.start as i64 + (choice as i32) as i64;
        if value < self.end as i64 {
            PredicateResult::Success
        } else {
            PredicateResult::Failure
        }
    }

    fn name(&self) -> (r: &'static str)
        ensures
            r@ == "IntegerRange"@,
    {
        "IntegerRange"
    }
}

/// Chooses one of the given options.
#[derive(Debug)]
pub struct ChoicePredicate<T: Clone> {
    pub options: Vec<T>,
}

impl<T: Clone> ChoicePredicate<T> {
    /// A choice among `options`.
    pub fn new(options: Vec<T>) -> (r: Self)
        ensures
            r.options@ == options@,
    {
        Self { options }
    }
}

impl<T: Clone> Predicate for ChoicePredicate<T> {
    fn try_pred(&mut self, ctx: &mut SearchContext, round: usize) -> (r: PredicateResult)
        ensures
            r == (if old(self).options@.len() == 0 {
                PredicateResult::Failure
            } else {
                PredicateResult::Choices(old(self).options@.len() as usize)
            }),
            *final(ctx) == *old(ctx),
    {
        if self.options.len() == 0 {
            PredicateResult::Failure
        } else {
            PredicateResult::Choices(self.options.len())
        }
    }

    fn retry_pred(&mut self, ctx: &mut SearchContext, round: usize, choice: usize) -> (r: PredicateResult)
        ensures
            r == (if choice < old(self).options@.len() {
                PredicateResult::Success
            } else {
                PredicateResult::Failure
            }),
            *final(ctx) == *old(ctx),
    {
        if choice < self.options.len() {
            PredicateResult::Success
        } else {
            PredicateResult::Failure
        }
    }

    fn name(&self) -> (r: &'static str)
        ensures
            r@ == "Choice"@,
    {
        "Choice"
    }
}

/// Suspends the search: it ends a sequence, leaving the search to be resumed.
#[derive(Debug)]
pub struct SuspendPredicate;

impl Predicate for SuspendPredicate {
    fn try_pred(&mut self, ctx: &mut SearchContext, round: usize) -> (r: PredicateResult)
        ensures
            r == PredicateResult::Suspend,
            *final(ctx) == *old(ctx),
    {
        PredicateResult::Suspend
    }

    fn retry_pred(&mut self, ctx: &mut SearchContext, round: usize, choice: usize) -> (r: PredicateResult)
        ensures
            r == PredicateResult::Failure,
            *final(ctx) == *old(ctx),
    {
        PredicateResult::Failure
    }

    fn name(&self) -> (r: &'static str)
        ensures
            r@ == "Suspend"@,
    {
        "Suspend"
    }
}

impl TerminalPredicate for SuspendPredicate {
}

/// Runs for a number of rounds: stays for each round but the last, succeeds in the last,
/// fails beyond it.
#[derive(Debug)]
pub struct MultiRoundPredicate {
    pub rounds: usize,
}

impl MultiRoundPredicate {
    /// A predicate that runs for `rounds` rounds.
    pub fn new(rounds: usize) -> (r: Self)
        ensures
            r.rounds == rounds,
    {
        Self { rounds }
    }
}

impl Predicate for MultiRoundPredicate {
    fn try_pred(&mut self, ctx: &mut SearchContext, round: usize) -> (r: PredicateResult)
        ensures
            r == (if round + 1 < old(self).rounds {
                PredicateResult::SuccessSamePredicate
            } else if round + 1 == old(self).rounds {
                PredicateResult::Success
            } else {
                PredicateResult::Failure
            }),
            *final(ctx) == *old(ctx),
    {
        if self.rounds > 0 && round < self.rounds - 1 {
            PredicateResult::SuccessSamePredicate
        } else if self.rounds > 0 && round == self.rounds - 1 {
            PredicateResult::Success
        } else {
            PredicateResult::Failure
        }
    }

    fn retry_pred(&mut self, ctx: &mut SearchContext, round: usize, choice: usize) -> (r: PredicateResult)
        ensures
            r == PredicateResult::Failure,
            *final(ctx) == *old(ctx),
    {
        PredicateResult::Failure
    }

    fn name(&self) -> (r: &'static str)
        ensures
            r@ == "MultiRound"@,
    {
        "MultiRound"
    }
}

} // verus!
