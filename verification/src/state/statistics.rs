//! Counters kept during a search: solutions of each kind, and room for one counter per
//! kind of propagation failure.

use crate::propagation::errors::PropagationFailure;
use vstd::prelude::*;

verus! {

/// The counted events.
#[derive(Debug, Clone, Copy, PartialEq, Eq, Structural)]
pub enum Counters {
    VennSolutions,
    EquivocalSolutions,
    InnerFaceSolutions,
}

impl Counters {
    /// The number of counters.
    pub const COUNT: usize = 3;

    /// The position of a counter among the statistics.
    pub open spec fn spec_index(self) -> int {
        match self {
            Counters::VennSolutions => 0,
            Counters::EquivocalSolutions => 1,
            Counters::InnerFaceSolutions => 2,
        }
    }

    /// The position of a counter among the statistics.
    pub fn index(self) -> (r: usize)
        ensures
            r == self.spec_index(),
    {
        match self {
            Counters::VennSolutions => 0,
            Counters::EquivocalSolutions => 1,
            Counters::InnerFaceSolutions => 2,
        }
    }
}

/// The number of statistics kept: the counters, then one per kind of failure.
pub const STATISTICS_COUNT: usize = 10;

/// The statistics of a search.
#[derive(Debug, Clone, Copy)]
pub struct Statistics {
    /// One value per counter, then one per kind of failure.
    pub stats: [u64; 10],
}

impl Statistics {
    /// All statistics at zero.
    pub fn new() -> (r: Self)
        ensures
            forall|i: int| 0 <= i < STATISTICS_COUNT ==> #[trigger] r.stats@[i] == 0,
    {
        assert(STATISTICS_COUNT == Counters::COUNT + PropagationFailure::COUNT);
        Statistics { stats: [0u64; 10] }
    }

    /// The value of a counter.
    pub open spec fn spec_get(&self, counter: Counters) -> u64 {
        self.stats@[counter.spec_index()]
    }

    /// Add one to a counter (which must not be at its largest value); the others keep
    /// their values.
    pub fn increment_counter(&mut self, counter: Counters)
        requires
            old(self).spec_get(counter) < u64::MAX,
        ensures
            final(self).spec_get(counter) == old(self).spec_get(counter) + 1,
            forall|i: int| 0 <= i < STATISTICS_COUNT && i != counter.spec_index() ==> #[trigger] final(self).stats@[i]
                == old(self).stats@[i],
    {
        let i = counter.index();
        let mut stats = self.stats;
        stats[i] = stats[i] + 1;
        self.stats = stats;
    }

    /// The current value of a counter.
    pub fn get(&self, counter: Counters) -> (r: u64)
        ensures
            r == self.spec_get(counter),
    {
        self.stats[counter.index()]
    }
}

impl Default for Statistics {
    fn default() -> (r: Self)
        ensures
            forall|i: int| 0 <= i < STATISTICS_COUNT ==> #[trigger] r.stats@[i] == 0,
    {
        Self::new()
    }
}

} // verus!
