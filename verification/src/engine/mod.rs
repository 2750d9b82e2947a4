//! The backtracking engine, as a state machine: a stack of predicate activations, each
//! with its round, its choices and the log position to rewind to.
//!
//! The engine decides; the caller runs the predicates. A search is driven by:
//! `start`, then repeatedly `next_action` (which rewinds the state and says which
//! predicate to call, or that the search is exhausted), the call itself, and
//! `after_try` or `after_retry` with the predicate's result.

pub mod predicate;

pub use predicate::{Predicate, PredicateResult, TerminalPredicate};

use crate::context::SearchContext;
use crate::context::dynamic::{slot_value, target_valid};
use crate::trail::Target;
use vstd::prelude::*;

verus! {

/// The initial room reserved for the stack.
pub const MAX_STACK_SIZE: usize = 1000;

/// One activation of a predicate.
#[derive(Debug, Clone, Copy, PartialEq, Eq, Structural)]
pub struct StackEntry {
    /// The predicate's position in the sequence.
    pub predicate_index: usize,
    /// The round (grows with each `SuccessSamePredicate`).
    pub round: usize,
    /// Whether the predicate's choices are being tried.
    pub in_choice_mode: bool,
    /// The next choice to try, in choice mode.
    pub current_choice: usize,
    /// The number of choices, in choice mode.
    pub num_choices: usize,
    /// The log position to rewind to before each call for this activation.
    pub trail_checkpoint: usize,
}

/// What the caller is to do next.
#[derive(Debug, Clone, Copy, PartialEq, Eq, Structural)]
pub enum EngineAction {
    /// Call `try_pred` of this predicate for this round.
    Try { predicate_index: usize, round: usize },
    /// Call `retry_pred` of this predicate for this round and choice.
    Retry { predicate_index: usize, round: usize, choice: usize },
    /// Every choice has failed: the search is over.
    Exhausted,
}

/// What became of a predicate's result.
#[derive(Debug, Clone, Copy, PartialEq, Eq, Structural)]
pub enum EngineStep {
    /// Go on: ask for the next action.
    Continue,
    /// The predicate suspended the search; it can be resumed with `next_action`.
    Suspended,
    /// A predicate succeeded past the end of the sequence: the sequence does not end with
    /// a failing or suspending predicate.
    InvalidSequence,
    /// `retry_pred` returned `Choices` or `Suspend`.
    InvalidRetryResult,
    /// There is no activation to apply the result to, or a round count overflowed.
    NoActivation,
}

/// The search engine's state.
#[derive(Debug)]
pub struct SearchEngine {
    /// The number of predicates in the sequence.
    pub num_predicates: usize,
    /// The activations, oldest first.
    pub stack: Vec<StackEntry>,
    /// The number of `try_pred` calls asked for (stops at the largest u64).
    pub try_count: u64,
    /// The number of `retry_pred` calls asked for (stops at the largest u64).
    pub retry_count: u64,
}

/// One more, stopping at the largest value.
pub open spec fn count_up(x: u64) -> u64 {
    if x < u64::MAX {
        (x + 1) as u64
    } else {
        x
    }
}

/// A fresh activation of a predicate for a round, at a log position.
pub open spec fn fresh_entry(index: usize, round: usize, checkpoint: usize) -> StackEntry {
    StackEntry {
        predicate_index: index,
        round,
        in_choice_mode: false,
        current_choice: 0,
        num_choices: 0,
        trail_checkpoint: checkpoint,
    }
}

/// The state after rewinding to log position `cp`, when it lies within the log
/// (otherwise nothing is rewound).
pub open spec fn rewound_to(before: SearchContext, after: SearchContext, cp: usize) -> bool {
    &&& after.wf()
    &&& after.memo == before.memo
    &&& after.statistics == before.statistics
    &&& if cp <= before.dynamic.spec_entries().len() {
        let target = match before.dynamic.spec_frozen() {
            Some(f) => if f > cp { f as int } else { cp as int },
            None => cp as int,
        };
        &&& after.dynamic.spec_entries() == before.dynamic.spec_entries().subrange(0, target)
        &&& forall|t: Target| target_valid(t) ==> #[trigger] slot_value(after.dynamic.spec_state(), t) == before.dynamic.rewound(
            target,
            t,
        )
        &&& after.dynamic.spec_frozen() == before.dynamic.spec_frozen()
    } else {
        after == before
    }
}

/// `trace` runs from state to state, each the one before rewound to the next log
/// position of `cps`.
pub open spec fn rewinds_along(trace: Seq<SearchContext>, cps: Seq<usize>) -> bool {
    &&& trace.len() == cps.len() + 1
    &&& forall|i: int| 0 <= i < cps.len() ==> #[trigger] rewound_to(trace[i], trace[i + 1], cps[i])
}

/// The state after rewinding to each log position of `cps` in turn.
pub open spec fn rewound_through(before: SearchContext, after: SearchContext, cps: Seq<usize>) -> bool {
    exists|trace: Seq<SearchContext>| #[trigger] rewinds_along(trace, cps) && trace[0] == before && trace.last() == after
}

/// The log positions of the activations of `s` from the top down to position `n`.
pub open spec fn checkpoints_down_to(s: Seq<StackEntry>, n: int) -> Seq<usize> {
    Seq::new((s.len() - n) as nat, |i: int| s[s.len() - 1 - i].trail_checkpoint)
}

impl SearchEngine {
    /// An engine for a sequence of `num_predicates` predicates.
    pub fn new(num_predicates: usize) -> (r: Self)
        ensures
            r.num_predicates == num_predicates,
            r.stack@.len() == 0,
            r.try_count == 0,
            r.retry_count == 0,
    {
        SearchEngine { num_predicates, stack: Vec::with_capacity(MAX_STACK_SIZE), try_count: 0, retry_count: 0 }
    }

    /// Begin a search: clear the stack and the counts, and activate the first predicate
    /// at the current log position. False, with an empty stack, when there are no
    /// predicates.
    pub fn start(&mut self, ctx: &SearchContext) -> (r: bool)
        ensures
            r == (old(self).num_predicates > 0),
            final(self).num_predicates == old(self).num_predicates,
            final(self).try_count == 0,
            final(self).retry_count == 0,
            r ==> final(self).stack@ == seq![fresh_entry(0, 0, ctx.dynamic.spec_entries().len() as usize)],
            !r ==> final(self).stack@.len() == 0,
    {
        self.stack.clear();
        self.try_count = 0;
        self.retry_count = 0;
        if self.num_predicates == 0 {
            return false;
        }
        let checkpoint = ctx.checkpoint();
        self.stack.push(
            StackEntry {
                predicate_index: 0,
                round: 0,
                in_choice_mode: false,
                current_choice: 0,
                num_choices: 0,
                trail_checkpoint: checkpoint,
            },
        );
        true
    }

    /// Decide the next call. The state is rewound to the top activation's log position;
    /// an activation in choice mode with no choice left is then dropped (backtracking),
    /// and the next one down is rewound to in turn. With none left the search is
    /// exhausted. Otherwise: outside choice mode, its predicate is tried; in choice mode,
    /// its next choice is taken and retried.
    pub fn next_action(&mut self, ctx: &mut SearchContext) -> (r: EngineAction)
        requires
            old(ctx).wf(),
        ensures
            final(self).num_predicates == old(self).num_predicates,
            ({
                let s = old(self).stack@;
                let kept = final(self).stack@;
                match r {
                    EngineAction::Exhausted => {
                        &&& kept.len() == 0
                        &&& forall|i: int| 0 <= i < s.len() ==> (#[trigger] s[i]).in_choice_mode && s[i].current_choice
                            >= s[i].num_choices
                        &&& rewound_through(*old(ctx), *final(ctx), checkpoints_down_to(s, 0))
                        &&& final(self).try_count == old(self).try_count
                        &&& final(self).retry_count == old(self).retry_count
                    },
                    EngineAction::Try { predicate_index, round } => {
                        let n = kept.len() - 1;
                        &&& 1 <= kept.len() <= s.len()
                        &&& kept.subrange(0, n) == s.subrange(0, n)
                        &&& kept[n] == s[n]
                        &&& forall|i: int| n < i < s.len() ==> (#[trigger] s[i]).in_choice_mode && s[i].current_choice
                            >= s[i].num_choices
                        &&& !kept[n].in_choice_mode
                        &&& predicate_index == kept[n].predicate_index
                        &&& round == kept[n].round
                        &&& rewound_through(*old(ctx), *final(ctx), checkpoints_down_to(s, n))
                        &&& final(self).try_count == count_up(old(self).try_count)
                        &&& final(self).retry_count == old(self).retry_count
                    },
                    EngineAction::Retry { predicate_index, round, choice } => {
                        let n = kept.len() - 1;
                        &&& 1 <= kept.len() <= s.len()
                        &&& kept.subrange(0, n) == s.subrange(0, n)
                        &&& forall|i: int| n < i < s.len() ==> (#[trigger] s[i]).in_choice_mode && s[i].current_choice
                            >= s[i].num_choices
                        &&& s[n].in_choice_mode
                        &&& s[n].current_choice < s[n].num_choices
                        &&& kept[n] == (StackEntry { current_choice: (s[n].current_choice + 1) as usize, ..s[n] })
                        &&& predicate_index == s[n].predicate_index
                        &&& round == s[n].round
                        &&& choice == s[n].current_choice
                        &&& rewound_through(*old(ctx), *final(ctx), checkpoints_down_to(s, n))
                        &&& final(self).retry_count == count_up(old(self).retry_count)
                        &&& final(self).try_count == old(self).try_count
                    },
                }
            }),
    {
        let ghost s = self.stack@;
        let ghost mut trace: Seq<SearchContext> = seq![*ctx];
        proof {
            assert(checkpoints_down_to(s, s.len() as int) =~= Seq::<usize>::empty());
        }
        loop
            invariant
                ctx.wf(),
                ctx.memo == old(ctx).memo,
                ctx.statistics == old(ctx).statistics,
                rewinds_along(trace, checkpoints_down_to(s, self.stack@.len() as int)),
                trace[0] == *old(ctx),
                trace.last() == *ctx,
                self.num_predicates == old(self).num_predicates,
                self.try_count == old(self).try_count,
                self.retry_count == old(self).retry_count,
                s == old(self).stack@,
                self.stack@.len() <= s.len(),
                self.stack@ == s.subrange(0, self.stack@.len() as int),
                forall|i: int| self.stack@.len() <= i < s.len() ==> (#[trigger] s[i]).in_choice_mode && s[i].current_choice
                    >= s[i].num_choices,
            decreases self.stack@.len(),
        {
            let len = self.stack.len();
            if len == 0 {
                assert(rewinds_along(trace, checkpoints_down_to(s, 0)));
                return EngineAction::Exhausted;
            }
            let top = self.stack[len - 1];
            let ghost before = *ctx;
            if top.trail_checkpoint <= ctx.checkpoint() {
                ctx.rewind_to(top.trail_checkpoint);
            }
            proof {
                assert(rewound_to(before, *ctx, top.trail_checkpoint));
                assert(top == s[len - 1]);
                let cps = checkpoints_down_to(s, len as int);
                assert(cps.push(top.trail_checkpoint) =~= checkpoints_down_to(s, len - 1));
                let t2 = trace.push(*ctx);
                assert forall|i: int| 0 <= i < cps.len() + 1 implies #[trigger] rewound_to(t2[i], t2[i + 1], cps.push(top.trail_checkpoint)[i]) by {
                    if i < cps.len() {
                        assert(rewound_to(trace[i], trace[i + 1], cps[i]));
                    }
                }
                trace = t2;
                assert(rewinds_along(trace, checkpoints_down_to(s, len - 1)));
            }
            if top.in_choice_mode && top.current_choice >= top.num_choices {
                self.stack.pop();
                assert(self.stack@ == s.subrange(0, self.stack@.len() as int));
                continue;
            }
            if !top.in_choice_mode {
                self.try_count = if self.try_count < u64::MAX {
                    self.try_count + 1
                } else {
                    self.try_count
                };
                assert(self.stack@.subrange(0, len - 1) == s.subrange(0, len - 1));
                assert(rewinds_along(trace, checkpoints_down_to(s, len - 1)));
                return EngineAction::Try { predicate_index: top.predicate_index, round: top.round };
            }
            let choice = top.current_choice;
            let updated = StackEntry { current_choice: choice + 1, ..top };
            self.stack.set(len - 1, updated);
            self.retry_count = if self.retry_count < u64::MAX {
                self.retry_count + 1
            } else {
                self.retry_count
            };
            assert(self.stack@.subrange(0, len - 1) == s.subrange(0, len - 1));
            assert(rewinds_along(trace, checkpoints_down_to(s, len - 1)));
            return EngineAction::Retry { predicate_index: top.predicate_index, round: top.round, choice };
        }
    }

    /// Activate the next predicate, round 0, at the current log position; refused past
    /// the end of the sequence.
    fn push_next_predicate(&mut self, ctx: &SearchContext) -> (r: EngineStep)
        requires
            old(self).stack@.len() > 0,
        ensures
            final(self).num_predicates == old(self).num_predicates,
            final(self).try_count == old(self).try_count,
            final(self).retry_count == old(self).retry_count,
            ({
                let top = old(self).stack@.last();
                if top.predicate_index + 1 >= old(self).num_predicates {
                    r == EngineStep::InvalidSequence && final(self).stack@ == old(self).stack@
                } else {
                    r == EngineStep::Continue && final(self).stack@ == old(self).stack@.push(
                        fresh_entry(
                            (top.predicate_index + 1) as usize,
                            0,
                            ctx.dynamic.spec_entries().len() as usize,
                        ),
                    )
                }
            }),
    {
        let current = self.stack[self.stack.len() - 1];
        if current.predicate_index >= self.num_predicates || current.predicate_index + 1 >= self.num_predicates {
            return EngineStep::InvalidSequence;
        }
        let next_index = current.predicate_index + 1;
        let checkpoint = ctx.checkpoint();
        self.stack.push(
            StackEntry {
                predicate_index: next_index,
                round: 0,
                in_choice_mode: false,
                current_choice: 0,
                num_choices: 0,
                trail_checkpoint: checkpoint,
            },
        );
        EngineStep::Continue
    }

    /// Activate the same predicate for its next round at the current log position.
    fn push_same_predicate(&mut self, ctx: &SearchContext) -> (r: EngineStep)
        requires
            old(self).stack@.len() > 0,
        ensures
            final(self).num_predicates == old(self).num_predicates,
            final(self).try_count == old(self).try_count,
            final(self).retry_count == old(self).retry_count,
            ({
                let top = old(self).stack@.last();
                if top.round == usize::MAX {
                    r == EngineStep::NoActivation && final(self).stack@ == old(self).stack@
                } else {
                    r == EngineStep::Continue && final(self).stack@ == old(self).stack@.push(
                        fresh_entry(top.predicate_index, (top.round + 1) as usize, ctx.dynamic.spec_entries().len() as usize),
                    )
                }
            }),
    {
        let current = self.stack[self.stack.len() - 1];
        if current.round == usize::MAX {
            return EngineStep::NoActivation;
        }
        let checkpoint = ctx.checkpoint();
        self.stack.push(
            StackEntry {
                predicate_index: current.predicate_index,
                round: current.round + 1,
                in_choice_mode: false,
                current_choice: 0,
                num_choices: 0,
                trail_checkpoint: checkpoint,
            },
        );
        EngineStep::Continue
    }

    /// Apply the result of `try_pred` of the top activation: success activates the next
    /// predicate (or the same one for its next round); failure drops the activation;
    /// `Choices(n)` puts it in choice mode with n choices from the current log position;
    /// `Suspend` suspends.
    pub fn after_try(&mut self, result: PredicateResult, ctx: &SearchContext) -> (r: EngineStep)
        ensures
            final(self).num_predicates == old(self).num_predicates,
            final(self).try_count == old(self).try_count,
            final(self).retry_count == old(self).retry_count,
            old(self).stack@.len() == 0 ==> r == EngineStep::NoActivation && final(self).stack@ == old(self).stack@,
            old(self).stack@.len() > 0 ==> {
                let s = old(self).stack@;
                let top = s.last();
                let cp = ctx.dynamic.spec_entries().len() as usize;
                match result {
                    PredicateResult::Success => if top.predicate_index + 1 >= old(self).num_predicates {
                        r == EngineStep::InvalidSequence && final(self).stack@ == s
                    } else {
                        r == EngineStep::Continue && final(self).stack@ == s.push(
                            fresh_entry((top.predicate_index + 1) as usize, 0, cp),
                        )
                    },
                    PredicateResult::SuccessSamePredicate => if top.round == usize::MAX {
                        r == EngineStep::NoActivation && final(self).stack@ == s
                    } else {
                        r == EngineStep::Continue && final(self).stack@ == s.push(
                            fresh_entry(top.predicate_index, (top.round + 1) as usize, cp),
                        )
                    },
                    PredicateResult::Failure => r == EngineStep::Continue && final(self).stack@ == s.drop_last(),
                    PredicateResult::Choices(n) => r == EngineStep::Continue && final(self).stack@ == s.update(
                        s.len() - 1,
                        StackEntry { in_choice_mode: true, current_choice: 0, num_choices: n, trail_checkpoint: cp, ..top },
                    ),
                    PredicateResult::Suspend => r == EngineStep::Suspended && final(self).stack@ == s,
                }
            },
    {
        let len = self.stack.len();
        if len == 0 {
            return EngineStep::NoActivation;
        }
        match result {
            PredicateResult::Success => self.push_next_predicate(ctx),
            PredicateResult::SuccessSamePredicate => self.push_same_predicate(ctx),
            PredicateResult::Failure => {
                self.stack.pop();
                EngineStep::Continue
            },
            PredicateResult::Choices(n) => {
                let top = self.stack[len - 1];
                let checkpoint = ctx.checkpoint();
                self.stack.set(
                    len - 1,
                    StackEntry { in_choice_mode: true, current_choice: 0, num_choices: n, trail_checkpoint: checkpoint, ..top },
                );
                EngineStep::Continue
            },
            PredicateResult::Suspend => EngineStep::Suspended,
        }
    }

    /// Apply the result of `retry_pred` of the top activation: success activates the next
    /// predicate (or the same one for its next round); failure leaves the activation to
    /// try its next choice; `Choices` and `Suspend` are refused.
    pub fn after_retry(&mut self, result: PredicateResult, ctx: &SearchContext) -> (r: EngineStep)
        ensures
            final(self).num_predicates == old(self).num_predicates,
            final(self).try_count == old(self).try_count,
            final(self).retry_count == old(self).retry_count,
            old(self).stack@.len() == 0 ==> r == EngineStep::NoActivation && final(self).stack@ == old(self).stack@,
            old(self).stack@.len() > 0 ==> {
                let s = old(self).stack@;
                let top = s.last();
                let cp = ctx.dynamic.spec_entries().len() as usize;
                match result {
                    PredicateResult::Success => if top.predicate_index + 1 >= old(self).num_predicates {
                        r == EngineStep::InvalidSequence && final(self).stack@ == s
                    } else {
                        r == EngineStep::Continue && final(self).stack@ == s.push(
                            fresh_entry((top.predicate_index + 1) as usize, 0, cp),
                        )
                    },
                    PredicateResult::SuccessSamePredicate => if top.round == usize::MAX {
                        r == EngineStep::NoActivation && final(self).stack@ == s
                    } else {
                        r == EngineStep::Continue && final(self).stack@ == s.push(
                            fresh_entry(top.predicate_index, (top.round + 1) as usize, cp),
                        )
                    },
                    PredicateResult::Failure => r == EngineStep::Continue && final(self).stack@ == s,
                    PredicateResult::Choices(_) => r == EngineStep::InvalidRetryResult && final(self).stack@ == s,
                    PredicateResult::Suspend => r == EngineStep::InvalidRetryResult && final(self).stack@ == s,
                }
            },
    {
        let len = self.stack.len();
        if len == 0 {
            return EngineStep::NoActivation;
        }
        match result {
            PredicateResult::Success => self.push_next_predicate(ctx),
            PredicateResult::SuccessSamePredicate => self.push_same_predicate(ctx),
            PredicateResult::Failure => EngineStep::Continue,
            PredicateResult::Choices(_) => EngineStep::InvalidRetryResult,
            PredicateResult::Suspend => EngineStep::InvalidRetryResult,
        }
    }

    /// The numbers of `try_pred` and `retry_pred` calls asked for since the search began.
    pub fn statistics(&self) -> (r: (u64, u64))
        ensures
            r == (self.try_count, self.retry_count),
    {
        (self.try_count, self.retry_count)
    }
}

} // verus!
