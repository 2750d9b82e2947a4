//! The data of a search: fixed tables, the changing state with its undo log, and
//! statistics.

pub mod dynamic;
pub mod memoized;

pub use dynamic::DynamicState;
pub use memoized::MemoizedData;

use crate::context::dynamic::{slot_value, target_valid};
use crate::geometry::constants::{NCOLORS, NCYCLES, NFACES, NPOINTS};
use crate::geometry::cycle::{Cycle, CycleId};
use crate::geometry::cycle_set::{popcount_words, CycleSet};
use crate::geometry::face::Face;
use crate::geometry::vertex::Vertex;
use crate::state::faces::spec_encode_index;
use crate::state::statistics::{Statistics, STATISTICS_COUNT};
use crate::trail::{vec_capacity, Target, Trail, TrailedState, TRAIL_MAX_SIZE};
use vstd::prelude::*;

verus! {

/// Everything a search works on.
#[derive(Debug)]
pub struct SearchContext {
    /// The fixed tables.
    pub memo: MemoizedData,
    /// The changing state and its undo log.
    pub dynamic: TrailedState,
    /// Counters kept during the search.
    pub statistics: Statistics,
}

/// A nonnegative value, or the largest usize when it does not fit.
pub open spec fn clamp_to_usize(x: int) -> int {
    if x > usize::MAX {
        usize::MAX as int
    } else {
        x
    }
}

/// The product, or the largest usize when it does not fit.
fn product_or_max(a: usize, b: usize) -> (r: usize)
    ensures
        a * b <= usize::MAX ==> r == a * b,
        a * b > usize::MAX ==> r == usize::MAX,
{
    match a.checked_mul(b) {
        Some(v) => v,
        None => usize::MAX,
    }
}

impl SearchContext {
    /// The tables are complete and the state fits them.
    pub open spec fn wf(&self) -> bool {
        &&& self.memo.wf()
        &&& self.dynamic.wf()
    }

    /// A fresh state for the tables: the initial values, an empty unfrozen log.
    pub open spec fn fresh(&self) -> bool {
        &&& self.dynamic.spec_entries().len() == 0
        &&& self.dynamic.spec_frozen() is None
        &&& self.dynamic.spec_state().colors_completed_this_call == 0
        &&& forall|t: Target| target_valid(t) ==> match t {
            Target::PossibleCycleWord(f, w) => slot_value(self.dynamic.spec_state(), t) == self.memo.faces.spec_face(
                f as int,
            ).possible_cycles.spec_words()[w as int],
            Target::CycleCount(f) => slot_value(self.dynamic.spec_state(), t) == popcount_words(
                self.memo.faces.spec_face(f as int).possible_cycles.spec_words(),
                7,
            ),
            _ => slot_value(self.dynamic.spec_state(), t) == 0,
        }
        &&& forall|i: int| 0 <= i < STATISTICS_COUNT ==> #[trigger] self.statistics.stats@[i] == 0
    }

    /// Build the tables and a fresh state.
    pub fn new() -> (r: Self)
        ensures
            r.wf(),
            r.fresh(),
    {
        Self::with_memo(MemoizedData::new())
    }

    /// A fresh state over the given tables.
    pub fn with_memo(memo: MemoizedData) -> (r: Self)
        requires
            memo.wf(),
        ensures
            r.wf(),
            r.fresh(),
            r.memo == memo,
    {
        let dynamic = TrailedState::new(&memo);
        SearchContext { memo, dynamic, statistics: Statistics::new() }
    }

    /// The size of the tables' fixed part, in bytes.
    pub fn memo_size_bytes() -> (r: usize)
        ensures
            r == vstd::layout::size_of::<MemoizedData>(),
    {
        std::mem::size_of::<MemoizedData>()
    }

    /// An estimate of the tables' heap use, in bytes: the cycles, the face table's
    /// capacity, and one optional vertex per (colors, color, color) position. Saturates at
    /// the largest usize.
    pub fn estimate_memo_heap_size(&self) -> (r: usize)
        ensures
            exists|capacity: int|
                #![trigger clamp_to_usize(capacity * vstd::layout::size_of::<Face>())]
                capacity >= self.memo.faces.faces@.len() && r == clamp_to_usize(
                    clamp_to_usize((self.memo.cycles@.len() * vstd::layout::size_of::<Cycle>()) as int) + clamp_to_usize(
                        capacity * vstd::layout::size_of::<Face>(),
                    ) + clamp_to_usize((vstd::layout::size_of::<Option<Vertex>>() * (NCOLORS * NCOLORS * NFACES)) as int),
                ),
    {
        let p1 = product_or_max(self.memo.cycles.len(), std::mem::size_of::<Cycle>());
        let capacity = vec_capacity(&self.memo.faces.faces);
        let p2 = product_or_max(capacity, std::mem::size_of::<Face>());
        let positions: usize = NCOLORS * NCOLORS * NFACES;
        let p3 = product_or_max(std::mem::size_of::<Option<Vertex>>(), positions);
        let total = p1.saturating_add(p2).saturating_add(p3);
        proof {
            let c = capacity as int;
            assert(p1 == clamp_to_usize((self.memo.cycles@.len() * vstd::layout::size_of::<Cycle>()) as int));
            assert(p2 == clamp_to_usize(c * vstd::layout::size_of::<Face>()));
            assert(p3 == clamp_to_usize((vstd::layout::size_of::<Option<Vertex>>() * (NCOLORS * NCOLORS * NFACES)) as int));
            assert(total == clamp_to_usize(p1 + p2 + p3));
        }
        total
    }

    /// The current state.
    pub fn state(&self) -> (r: &DynamicState)
        ensures
            *r == self.dynamic.spec_state(),
    {
        self.dynamic.state()
    }

    /// The undo log.
    pub fn trail(&self) -> (r: &Trail)
        ensures
            r.spec_entries() == self.dynamic.spec_entries(),
            r.spec_frozen() == self.dynamic.spec_frozen(),
    {
        self.dynamic.trail()
    }

    /// The tables, and the state with its log for changing.
    pub fn parts_mut(&mut self) -> (r: (&MemoizedData, &mut TrailedState))
        ensures
            *r.0 == old(self).memo,
            *r.1 == old(self).dynamic,
            final(self).memo == old(self).memo,
            final(self).statistics == old(self).statistics,
            final(self).dynamic == *final(r.1),
    {
        (&self.memo, &mut self.dynamic)
    }

    /// The current log position.
    pub fn checkpoint(&self) -> (r: usize)
        ensures
            r == self.dynamic.spec_entries().len(),
    {
        self.dynamic.checkpoint()
    }

    /// Undo the writes after `checkpoint` (never past a frozen position).
    pub fn rewind_to(&mut self, checkpoint: usize)
        requires
            old(self).wf(),
            checkpoint <= old(self).dynamic.spec_entries().len(),
        ensures
            final(self).wf(),
            final(self).memo == old(self).memo,
            final(self).statistics == old(self).statistics,
            ({
                let target = match old(self).dynamic.spec_frozen() {
                    Some(f) => if f > checkpoint { f as int } else { checkpoint as int },
                    None => checkpoint as int,
                };
                &&& final(self).dynamic.spec_entries() == old(self).dynamic.spec_entries().subrange(0, target)
                &&& forall|t: Target| target_valid(t) ==> #[trigger] slot_value(final(self).dynamic.spec_state(), t)
                    == old(self).dynamic.rewound(target, t)
            }),
            final(self).dynamic.spec_frozen() == old(self).dynamic.spec_frozen(),
            old(self).dynamic.rewound_to(checkpoint as int, &final(self).dynamic),
    {
        self.dynamic.rewind_to(checkpoint);
    }

    /// Keep later rewinds from passing the current position.
    pub fn freeze(&mut self)
        requires
            old(self).wf(),
        ensures
            final(self).wf(),
            final(self).memo == old(self).memo,
            final(self).statistics == old(self).statistics,
            final(self).dynamic.spec_frozen() == Some(old(self).dynamic.spec_entries().len() as usize),
            final(self).dynamic.spec_entries() == old(self).dynamic.spec_entries(),
            final(self).dynamic.spec_state() == old(self).dynamic.spec_state(),
    {
        self.dynamic.freeze();
    }

    /// Start over with a fresh state over the same tables (the statistics stay).
    pub fn reset_state(&mut self)
        requires
            old(self).memo.wf(),
        ensures
            final(self).wf(),
            final(self).memo == old(self).memo,
            final(self).statistics == old(self).statistics,
            final(self).dynamic.spec_entries().len() == 0,
            final(self).dynamic.spec_frozen() is None,
            forall|t: Target| target_valid(t) ==> match t {
                Target::PossibleCycleWord(f, w) => slot_value(final(self).dynamic.spec_state(), t) == old(self).memo.faces.spec_face(f as int).possible_cycles.spec_words()[w as int],
                Target::CycleCount(f) => slot_value(final(self).dynamic.spec_state(), t) == popcount_words(
                    old(self).memo.faces.spec_face(f as int).possible_cycles.spec_words(),
                    7,
                ),
                _ => slot_value(final(self).dynamic.spec_state(), t) == 0,
            },
    {
        self.dynamic = TrailedState::new(&self.memo);
    }

    /// Set the degree chosen for a round (recorded).
    pub fn set_face_degree(&mut self, round: usize, degree: u64)
        requires
            old(self).wf(),
            round < NCOLORS,
            old(self).dynamic.spec_entries().len() < TRAIL_MAX_SIZE,
        ensures
            final(self).wf(),
            final(self).memo == old(self).memo,
            final(self).statistics == old(self).statistics,
            slot_value(final(self).dynamic.spec_state(), Target::FaceDegree(round as u16)) == degree,
            forall|u: Target| target_valid(u) && u != Target::FaceDegree(round as u16) ==> #[trigger] slot_value(
                final(self).dynamic.spec_state(),
                u,
            ) == slot_value(old(self).dynamic.spec_state(), u),
            TrailedState::history_kept(&old(self).dynamic, &final(self).dynamic),
    {
        self.dynamic.set_face_degree(round, degree);
    }

    /// The degrees chosen for the rounds.
    pub fn get_face_degrees(&self) -> (r: &[u64; 6])
        ensures
            *r == self.dynamic.spec_state().current_face_degrees,
    {
        &self.dynamic.state().current_face_degrees
    }

    /// The degree chosen for one round.
    pub fn get_face_degree(&self, round: usize) -> (r: u64)
        requires
            round < NCOLORS,
        ensures
            r == slot_value(self.dynamic.spec_state(), Target::FaceDegree(round as u16)),
    {
        self.dynamic.state().current_face_degrees[round]
    }

    /// Clear a face's current cycle (recorded).
    pub fn reset_face_cycle(&mut self, face_id: usize)
        requires
            old(self).wf(),
            face_id < NFACES,
            old(self).dynamic.spec_entries().len() < TRAIL_MAX_SIZE,
        ensures
            final(self).wf(),
            final(self).memo == old(self).memo,
            final(self).statistics == old(self).statistics,
            slot_value(final(self).dynamic.spec_state(), Target::CurrentCycle(face_id as u16)) == 0,
            forall|u: Target| target_valid(u) && u != Target::CurrentCycle(face_id as u16) ==> #[trigger] slot_value(
                final(self).dynamic.spec_state(),
                u,
            ) == slot_value(old(self).dynamic.spec_state(), u),
            TrailedState::history_kept(&old(self).dynamic, &final(self).dynamic),
    {
        self.dynamic.reset_face_cycle(face_id);
    }

    /// Assign a face's current cycle (recorded).
    pub fn set_face_cycle(&mut self, face_id: usize, cycle_id: CycleId)
        requires
            old(self).wf(),
            face_id < NFACES,
            cycle_id < NCYCLES,
            old(self).dynamic.spec_entries().len() < TRAIL_MAX_SIZE,
        ensures
            final(self).wf(),
            final(self).memo == old(self).memo,
            final(self).statistics == old(self).statistics,
            slot_value(final(self).dynamic.spec_state(), Target::CurrentCycle(face_id as u16)) == spec_encode_index(
                Some(cycle_id),
            ),
            forall|u: Target| target_valid(u) && u != Target::CurrentCycle(face_id as u16) ==> #[trigger] slot_value(
                final(self).dynamic.spec_state(),
                u,
            ) == slot_value(old(self).dynamic.spec_state(), u),
            TrailedState::history_kept(&old(self).dynamic, &final(self).dynamic),
    {
        self.dynamic.set_face_cycle(face_id, cycle_id);
    }

    /// Move a face's retry cursor without recording it: rewinding does not undo it.
    pub fn set_retry_cursor_untrailed(&mut self, face_id: usize, cycle: Option<CycleId>)
        requires
            old(self).wf(),
            face_id < NFACES,
            cycle matches Some(c) ==> c < NCYCLES,
        ensures
            final(self).wf(),
            final(self).memo == old(self).memo,
            final(self).statistics == old(self).statistics,
            slot_value(final(self).dynamic.spec_state(), Target::CurrentCycle(face_id as u16)) == spec_encode_index(cycle),
            forall|u: Target| target_valid(u) && u != Target::CurrentCycle(face_id as u16) ==> #[trigger] slot_value(
                final(self).dynamic.spec_state(),
                u,
            ) == slot_value(old(self).dynamic.spec_state(), u),
            final(self).dynamic.spec_entries() == old(self).dynamic.spec_entries(),
            final(self).dynamic.spec_frozen() == old(self).dynamic.spec_frozen(),
    {
        self.dynamic.set_retry_cursor_untrailed(face_id, cycle);
    }

    /// Set a face's possible cycles and their count (each changed word and a changed
    /// count recorded).
    pub fn set_face_possible_cycles(&mut self, face_id: usize, new_cycles: CycleSet)
        requires
            old(self).wf(),
            face_id < NFACES,
            old(self).dynamic.spec_entries().len() + old(self).dynamic.possible_cycles_writes(face_id as int, new_cycles)
                <= TRAIL_MAX_SIZE,
        ensures
            final(self).wf(),
            final(self).memo == old(self).memo,
            final(self).statistics == old(self).statistics,
            final(self).dynamic.spec_state().faces.faces@[face_id as int].possible_cycles.spec_words() == new_cycles.spec_words(),
            final(self).dynamic.spec_state().faces.faces@[face_id as int].cycle_count == popcount_words(
                new_cycles.spec_words(),
                7,
            ),
            forall|u: Target| target_valid(u) && !(u matches Target::PossibleCycleWord(g, _) && g == face_id) && u
                != Target::CycleCount(face_id as u16) ==> #[trigger] slot_value(final(self).dynamic.spec_state(), u)
                == slot_value(old(self).dynamic.spec_state(), u),
            TrailedState::history_kept(&old(self).dynamic, &final(self).dynamic),
    {
        self.dynamic.set_face_possible_cycles(face_id, new_cycles);
    }

    /// A face's possible cycles.
    pub fn get_face_possible_cycles(&self, face_id: usize) -> (r: &CycleSet)
        requires
            self.wf(),
            face_id < NFACES,
        ensures
            *r == self.dynamic.spec_state().faces.faces@[face_id as int].possible_cycles,
    {
        &self.dynamic.state().faces.faces[face_id].possible_cycles
    }

    /// The number of a face's possible cycles.
    pub fn get_face_cycle_count(&self, face_id: usize) -> (r: u64)
        requires
            self.wf(),
            face_id < NFACES,
        ensures
            r == slot_value(self.dynamic.spec_state(), Target::CycleCount(face_id as u16)),
    {
        self.dynamic.state().faces.faces[face_id].cycle_count
    }
}

} // verus!
