//! The undo log: each entry names a target slot and the value it held before a write.

pub mod trailed;

use crate::context::dynamic::{slot_value, target_valid, DynamicState};
use crate::context::memoized::MemoizedData;
use crate::geometry::constants::{CYCLESET_LENGTH, NCOLORS, NCYCLES, NFACES, NPOINTS};
use crate::geometry::cycle::CycleId;
use crate::geometry::cycle_set::{popcount_words, CycleSet};
use crate::geometry::edge::CurveLink;
use crate::state::edge::{link_in_range, spec_encode, DynamicEdge};
use crate::state::faces::{encode_optional_index, spec_encode_index};
use vstd::prelude::*;

pub use trailed::{TrailRestore, Trailed, TrailedRegistry};

verus! {

/// A slot whose writes are recorded. Indices are u16: every configured index fits.
#[derive(Debug, Clone, Copy, PartialEq, Eq, Structural)]
pub enum Target {
    /// A face degree chosen for round i.
    FaceDegree(u16),
    /// The current cycle of a face.
    CurrentCycle(u16),
    /// One word of a face's possible-cycle set.
    PossibleCycleWord(u16, u16),
    /// A face's cached cycle count.
    CycleCount(u16),
    /// The vertex connection of a face's edge of a color.
    EdgeConnection(u16, u16),
    /// A face's previous (true) or next (false) face in its dual cycle.
    DualFace(u16, bool),
    /// The crossing count of a color pair.
    CrossingCount(u16, u16),
    /// Whether a vertex has been processed.
    VertexProcessed(u16),
    /// The number of edges of a direction and color.
    EdgeColorCount(u16, u16),
    /// Whether a color's curve has been checked.
    ColorChecked(u16),
    /// A registered trailed value (see `TrailedRegistry`).
    Registered(usize),
}

/// One recorded write: the target and the value it held before.
#[derive(Debug, Clone, Copy)]
pub struct TrailEntry {
    /// The slot written.
    pub target: Target,
    /// Its value before the write.
    pub old_value: u64,
}

/// The undo log.
#[derive(Debug)]
pub struct Trail {
    pub(crate) entries: Vec<TrailEntry>,
    pub(crate) frozen_checkpoint: Option<usize>,
}

/// The maximum number of entries.
pub const TRAIL_MAX_SIZE: usize = 16_384;

impl Trail {
    /// The maximum number of entries; a write beyond it is refused.
    pub const MAX_SIZE: usize = 16_384;

    /// The recorded entries, oldest first.
    pub closed spec fn spec_entries(&self) -> Seq<TrailEntry> {
        self.entries@
    }

    /// The position that rewinds never pass, if frozen.
    pub closed spec fn spec_frozen(&self) -> Option<usize> {
        self.frozen_checkpoint
    }

    /// An empty, unfrozen log.
    pub fn new() -> (r: Self)
        ensures
            r.spec_entries().len() == 0,
            r.spec_frozen() is None,
    {
        Self { entries: Vec::with_capacity(TRAIL_MAX_SIZE), frozen_checkpoint: None }
    }

    /// Whether `additional` more entries fit.
    pub fn has_room(&self, additional: usize) -> (r: bool)
        ensures
            r == (self.spec_entries().len() + additional <= TRAIL_MAX_SIZE),
    {
        self.entries.len() <= TRAIL_MAX_SIZE && additional <= TRAIL_MAX_SIZE - self.entries.len()
    }

    /// Record that a registered value with the given id held `old_value` before a write.
    pub fn record_change(&mut self, id: usize, old_value: u64)
        requires
            old(self).spec_entries().len() < TRAIL_MAX_SIZE,
        ensures
            final(self).spec_entries() == old(self).spec_entries().push(
                TrailEntry { target: Target::Registered(id), old_value },
            ),
            final(self).spec_frozen() == old(self).spec_frozen(),
    {
        self.entries.push(TrailEntry { target: Target::Registered(id), old_value });
    }

    /// The number of recorded writes.
    pub fn len(&self) -> (r: usize)
        ensures
            r == self.spec_entries().len(),
    {
        self.entries.len()
    }

    /// Whether no write is recorded.
    pub fn is_empty(&self) -> (r: bool)
        ensures
            r == (self.spec_entries().len() == 0),
    {
        self.entries.len() == 0
    }

    /// The reserved capacity: MAX_SIZE entries are reserved when the log is made.
    pub fn capacity(&self) -> (r: usize)
        ensures
            r >= self.spec_entries().len(),
    {
        vec_capacity(&self.entries)
    }

    /// The size of one entry in bytes, including alignment.
    pub fn entry_size_bytes() -> (r: usize)
        ensures
            r == vstd::layout::size_of::<TrailEntry>(),
    {
        std::mem::size_of::<TrailEntry>()
    }
}

/// The capacity of a vector (std's `Vec::capacity`). Trusted: it is at least the length;
/// what more the allocator reserved is not stated.
#[verifier::external_body]
pub(crate) fn vec_capacity<T>(v: &Vec<T>) -> (r: usize)
    ensures
        r >= v@.len(),
{
    v.capacity()
}


/// The value a slot held when the log had `c` entries, given that it holds `cur` now and
/// that `entries` were recorded since: the oldest recorded old value at or after `c`, if
/// any entry names the slot there.
pub open spec fn rewound_value(cur: u64, t: Target, entries: Seq<TrailEntry>, c: int) -> u64
    decreases entries.len(),
{
    if entries.len() <= c || entries.len() == 0 {
        cur
    } else {
        let e = entries.last();
        rewound_value(if e.target == t { e.old_value } else { cur }, t, entries.drop_last(), c)
    }
}

/// The number of positions below `k` where the two word sequences differ.
pub open spec fn changed_words(a: Seq<u64>, b: Seq<u64>, k: int) -> nat
    decreases k,
{
    if k <= 0 {
        0
    } else {
        changed_words(a, b, k - 1) + if a[k - 1] != b[k - 1] {
            1nat
        } else {
            0nat
        }
    }
}

/// The search state together with its undo log. Every recorded write can be undone; the
/// two halves are only ever changed together.
#[derive(Debug)]
pub struct TrailedState {
    state: DynamicState,
    trail: Trail,
}

/// Recording a write and making it keeps every earlier rewind result.
proof fn lemma_record_keeps_history(before: DynamicState, after: DynamicState, entries: Seq<TrailEntry>, t: Target, c: int, u: Target)
    requires
        0 <= c <= entries.len(),
        forall|v: Target| target_valid(v) && v != t ==> #[trigger] slot_value(after, v) == slot_value(before, v),
        target_valid(u),
    ensures
        rewound_value(slot_value(after, u), u, entries.push(TrailEntry { target: t, old_value: slot_value(before, t) }), c)
            == rewound_value(slot_value(before, u), u, entries, c),
{
    let pushed = entries.push(TrailEntry { target: t, old_value: slot_value(before, t) });
    assert(pushed.drop_last() =~= entries);
}

impl TrailedState {
    /// The state.
    pub closed spec fn spec_state(&self) -> DynamicState {
        self.state
    }

    /// The recorded writes, oldest first.
    pub closed spec fn spec_entries(&self) -> Seq<TrailEntry> {
        self.trail.entries@
    }

    /// The position that rewinds never pass, if frozen.
    pub closed spec fn spec_frozen(&self) -> Option<usize> {
        self.trail.frozen_checkpoint
    }

    /// The state is complete, every entry names a slot, the log fits, and a frozen
    /// position lies within it.
    pub open spec fn wf(&self) -> bool {
        &&& self.spec_state().wf()
        &&& self.spec_entries().len() <= TRAIL_MAX_SIZE
        &&& forall|k: int| 0 <= k < self.spec_entries().len() ==> target_valid(#[trigger] self.spec_entries()[k].target)
        &&& (self.spec_frozen() matches Some(f) ==> f <= self.spec_entries().len())
    }

    /// The value slot `t` would have after rewinding to position `c`.
    pub open spec fn rewound(&self, c: int, t: Target) -> u64 {
        rewound_value(slot_value(self.spec_state(), t), t, self.spec_entries(), c)
    }

    /// `after` extends the log of `before`, keeps its frozen position, and rewinding it to
    /// any position of `before`'s log gives what rewinding `before` there gives.
    pub open spec fn history_kept(before: &TrailedState, after: &TrailedState) -> bool {
        &&& before.spec_entries().len() <= after.spec_entries().len()
        &&& after.spec_frozen() == before.spec_frozen()
        &&& forall|c: int, t: Target| 0 <= c <= before.spec_entries().len() && target_valid(t) ==> #[trigger] after.rewound(c, t)
            == before.rewound(c, t)
    }

    /// Rewinding to the current position changes nothing.
    pub proof fn lemma_rewound_at_end(&self, t: Target)
        ensures
            self.rewound(self.spec_entries().len() as int, t) == slot_value(self.spec_state(), t),
    {
    }

    /// `result` is this state rewound to `checkpoint`, stopping at the frozen position:
    /// its log is cut there and each slot has its rewound value.
    pub open spec fn rewound_to(&self, checkpoint: int, result: &TrailedState) -> bool {
        let target = match self.spec_frozen() {
            Some(f) => if f > checkpoint {
                f as int
            } else {
                checkpoint
            },
            None => checkpoint,
        };
        &&& result.spec_entries() == self.spec_entries().subrange(0, target)
        &&& forall|t: Target| target_valid(t) ==> #[trigger] slot_value(result.spec_state(), t) == self.rewound(target, t)
    }

    /// The round trip of the undo log: from a state `before`, whose log ends at the
    /// checkpoint, recorded writes (each keeping the history) lead to `after`; rewinding
    /// `after` to that checkpoint gives `result`. When no freeze lies beyond the
    /// checkpoint, every slot of `result` has its value in `before` again and the log is
    /// back to the checkpoint's length.
    pub proof fn lemma_rewind_round_trip(before: &TrailedState, after: &TrailedState, result: &TrailedState)
        requires
            Self::history_kept(before, after),
            after.spec_frozen() matches Some(f) ==> f <= before.spec_entries().len(),
            after.rewound_to(before.spec_entries().len() as int, result),
        ensures
            forall|t: Target| target_valid(t) ==> #[trigger] slot_value(result.spec_state(), t) == slot_value(before.spec_state(), t),
            result.spec_entries().len() == before.spec_entries().len(),
    {
        assert forall|t: Target| target_valid(t) implies #[trigger] slot_value(result.spec_state(), t) == slot_value(
            before.spec_state(),
            t,
        ) by {
            Self::lemma_checkpoint_restores(before, after, t);
        }
    }

    /// Writes that keep the history compose.
    pub proof fn lemma_history_transitive(a: &TrailedState, b: &TrailedState, c: &TrailedState)
        requires
            Self::history_kept(a, b),
            Self::history_kept(b, c),
        ensures
            Self::history_kept(a, c),
    {
    }

    /// The central law of the undo log: after any sequence of recorded writes (each of
    /// which keeps the history), rewinding to a checkpoint taken before them gives back
    /// every slot's value at the checkpoint.
    pub proof fn lemma_checkpoint_restores(before: &TrailedState, after: &TrailedState, t: Target)
        requires
            Self::history_kept(before, after),
            target_valid(t),
        ensures
            after.rewound(before.spec_entries().len() as int, t) == slot_value(before.spec_state(), t),
    {
    }

    /// The initial state with an empty, unfrozen log.
    pub fn new(memo: &MemoizedData) -> (r: Self)
        requires
            memo.wf(),
        ensures
            r.wf(),
            r.spec_entries().len() == 0,
            r.spec_frozen() is None,
            r.spec_state().colors_completed_this_call == 0,
            forall|t: Target| target_valid(t) ==> match t {
                Target::PossibleCycleWord(f, w) => slot_value(r.spec_state(), t) == memo.faces.spec_face(f as int).possible_cycles.spec_words()[w as int],
                Target::CycleCount(f) => slot_value(r.spec_state(), t) == popcount_words(memo.faces.spec_face(f as int).possible_cycles.spec_words(), 7),
                _ => slot_value(r.spec_state(), t) == 0,
            },
    {
        TrailedState { state: DynamicState::new(memo), trail: Trail::new() }
    }

    /// The current state; it can only be changed through the methods of the owner.
    pub fn state(&self) -> (r: &DynamicState)
        ensures
            *r == self.spec_state(),
    {
        &self.state
    }

    /// The log, for inspection.
    pub fn trail(&self) -> (r: &Trail)
        ensures
            r.spec_entries() == self.spec_entries(),
            r.spec_frozen() == self.spec_frozen(),
    {
        &self.trail
    }

    /// The current log position, to rewind to later.
    pub fn checkpoint(&self) -> (r: usize)
        ensures
            r == self.spec_entries().len(),
    {
        self.trail.entries.len()
    }

    /// Whether `additional` more writes fit in the log.
    pub fn has_room(&self, additional: usize) -> (r: bool)
        requires
            self.wf(),
        ensures
            r == (self.spec_entries().len() + additional <= TRAIL_MAX_SIZE),
    {
        additional <= TRAIL_MAX_SIZE - self.trail.entries.len()
    }

    /// Undo the recorded writes after `checkpoint`, newest first, stopping at the frozen
    /// position: every slot gets the value it had there.
    pub fn rewind_to(&mut self, checkpoint: usize)
        requires
            old(self).wf(),
            checkpoint <= old(self).spec_entries().len(),
        ensures
            final(self).wf(),
            ({
                let target = match old(self).spec_frozen() {
                    Some(f) => if f > checkpoint { f as int } else { checkpoint as int },
                    None => checkpoint as int,
                };
                &&& final(self).spec_entries() == old(self).spec_entries().subrange(0, target)
                &&& forall|t: Target| target_valid(t) ==> #[trigger] slot_value(final(self).spec_state(), t) == old(self).rewound(target, t)
            }),
            final(self).spec_frozen() == old(self).spec_frozen(),
            final(self).spec_state().colors_completed_this_call == old(self).spec_state().colors_completed_this_call,
            old(self).rewound_to(checkpoint as int, final(self)),
    {
        let target = match self.trail.frozen_checkpoint {
            Some(f) => if f > checkpoint { f } else { checkpoint },
            None => checkpoint,
        };
        let ghost start = *self;
        proof {
            assert(start.spec_entries().subrange(0, start.spec_entries().len() as int) =~= start.spec_entries());
        }
        while self.trail.entries.len() > target
            invariant
                target <= self.trail.entries@.len(),
                self.wf(),
                self.spec_entries() == start.spec_entries().subrange(0, self.spec_entries().len() as int),
                self.spec_entries().len() <= start.spec_entries().len(),
                self.spec_frozen() == start.spec_frozen(),
                self.spec_state().colors_completed_this_call == start.spec_state().colors_completed_this_call,
                forall|t: Target| target_valid(t) ==> #[trigger] self.rewound(target as int, t) == start.rewound(target as int, t),
            decreases self.trail.entries@.len(),
        {
            let ghost before = *self;
            let entry = self.trail.entries.pop().unwrap();
            proof {
                assert(before.spec_entries().drop_last() =~= self.spec_entries());
                assert(entry == before.spec_entries().last());
                assert(target_valid(before.spec_entries()[before.spec_entries().len() - 1].target));
            }
            self.state.write_slot(entry.target, entry.old_value);
            proof {
                assert forall|t: Target| target_valid(t) implies #[trigger] self.rewound(target as int, t) == start.rewound(target as int, t) by {
                    assert(before.rewound(target as int, t) == start.rewound(target as int, t));
                }
                assert(self.spec_entries() =~= start.spec_entries().subrange(0, self.spec_entries().len() as int));
            }
        }
        proof {
            assert forall|t: Target| target_valid(t) implies #[trigger] slot_value(self.spec_state(), t) == start.rewound(target as int, t) by {
                self.lemma_rewound_at_end(t);
            }
        }
    }

    /// Prevent later rewinds from passing the current position.
    pub fn freeze(&mut self)
        requires
            old(self).wf(),
        ensures
            final(self).wf(),
            final(self).spec_frozen() == Some(old(self).spec_entries().len() as usize),
            final(self).spec_entries() == old(self).spec_entries(),
            final(self).spec_state() == old(self).spec_state(),
    {
        self.trail.frozen_checkpoint = Some(self.trail.entries.len());
    }

    /// Record the slot's value, then write the new one.
    fn record_and_set(&mut self, t: Target, value: u64)
        requires
            old(self).wf(),
            target_valid(t),
            old(self).spec_entries().len() < TRAIL_MAX_SIZE,
        ensures
            final(self).wf(),
            final(self).spec_entries() == old(self).spec_entries().push(
                TrailEntry { target: t, old_value: slot_value(old(self).spec_state(), t) },
            ),
            slot_value(final(self).spec_state(), t) == value,
            forall|u: Target| target_valid(u) && u != t ==> #[trigger] slot_value(final(self).spec_state(), u) == slot_value(
                old(self).spec_state(),
                u,
            ),
            final(self).spec_state().colors_completed_this_call == old(self).spec_state().colors_completed_this_call,
            Self::history_kept(old(self), final(self)),
    {
        let ghost before = *self;
        let old_value = self.state.read_slot(t);
        self.trail.entries.push(TrailEntry { target: t, old_value });
        self.state.write_slot(t, value);
        proof {
            assert forall|c: int, u: Target| 0 <= c <= before.spec_entries().len() && target_valid(u) implies #[trigger] self.rewound(c, u)
                == before.rewound(c, u) by {
                lemma_record_keeps_history(before.spec_state(), self.spec_state(), before.spec_entries(), t, c, u);
            }
        }
    }

    /// Set the degree chosen for a round, recording the old one (even when equal).
    pub fn set_face_degree(&mut self, round: usize, degree: u64)
        requires
            old(self).wf(),
            round < NCOLORS,
            old(self).spec_entries().len() < TRAIL_MAX_SIZE,
        ensures
            final(self).wf(),
            slot_value(final(self).spec_state(), Target::FaceDegree(round as u16)) == degree,
            forall|u: Target| target_valid(u) && u != Target::FaceDegree(round as u16) ==> #[trigger] slot_value(final(self).spec_state(), u)
                == slot_value(old(self).spec_state(), u),
            final(self).spec_entries().len() == old(self).spec_entries().len() + 1,
            Self::history_kept(old(self), final(self)),
    {
        self.record_and_set(Target::FaceDegree(round as u16), degree);
    }

    /// Clear a face's current cycle, recording the old one.
    pub fn reset_face_cycle(&mut self, face: usize)
        requires
            old(self).wf(),
            face < NFACES,
            old(self).spec_entries().len() < TRAIL_MAX_SIZE,
        ensures
            final(self).wf(),
            slot_value(final(self).spec_state(), Target::CurrentCycle(face as u16)) == 0,
            forall|u: Target| target_valid(u) && u != Target::CurrentCycle(face as u16) ==> #[trigger] slot_value(final(self).spec_state(), u)
                == slot_value(old(self).spec_state(), u),
            final(self).spec_entries().len() == old(self).spec_entries().len() + 1,
            Self::history_kept(old(self), final(self)),
    {
        self.record_and_set(Target::CurrentCycle(face as u16), 0);
    }

    /// Assign a face's current cycle, recording the old one.
    pub fn set_face_cycle(&mut self, face: usize, cycle: CycleId)
        requires
            old(self).wf(),
            face < NFACES,
            cycle < NCYCLES,
            old(self).spec_entries().len() < TRAIL_MAX_SIZE,
        ensures
            final(self).wf(),
            slot_value(final(self).spec_state(), Target::CurrentCycle(face as u16)) == spec_encode_index(Some(cycle)),
            forall|u: Target| target_valid(u) && u != Target::CurrentCycle(face as u16) ==> #[trigger] slot_value(final(self).spec_state(), u)
                == slot_value(old(self).spec_state(), u),
            final(self).spec_entries().len() == old(self).spec_entries().len() + 1,
            final(self).spec_state().colors_completed_this_call == old(self).spec_state().colors_completed_this_call,
            Self::history_kept(old(self), final(self)),
    {
        let encoded = encode_optional_index(Some(cycle), NCYCLES as u64);
        self.record_and_set(Target::CurrentCycle(face as u16), encoded);
    }

    /// Move a face's retry cursor WITHOUT recording it, so that it survives rewinding.
    /// This write is not undone by `rewind_to`.
    pub fn set_retry_cursor_untrailed(&mut self, face: usize, cycle: Option<CycleId>)
        requires
            old(self).wf(),
            face < NFACES,
            cycle matches Some(c) ==> c < NCYCLES,
        ensures
            final(self).wf(),
            slot_value(final(self).spec_state(), Target::CurrentCycle(face as u16)) == spec_encode_index(cycle),
            forall|u: Target| target_valid(u) && u != Target::CurrentCycle(face as u16) ==> #[trigger] slot_value(final(self).spec_state(), u)
                == slot_value(old(self).spec_state(), u),
            final(self).spec_entries() == old(self).spec_entries(),
            final(self).spec_frozen() == old(self).spec_frozen(),
    {
        let encoded = encode_optional_index(cycle, NCYCLES as u64);
        self.state.write_slot(Target::CurrentCycle(face as u16), encoded);
    }

    /// The number of writes that setting a face's possible cycles makes: one per changed
    /// word, and one more if the count changes.
    pub open spec fn possible_cycles_writes(&self, face: int, cycles: CycleSet) -> nat {
        let f = self.spec_state().faces.faces@[face];
        changed_words(f.possible_cycles.spec_words(), cycles.spec_words(), 7) + if f.cycle_count != popcount_words(
            cycles.spec_words(),
            7,
        ) {
            1nat
        } else {
            0nat
        }
    }

    /// The number of writes that setting a face's possible cycles would make.
    pub fn possible_cycles_write_count(&self, face: usize, cycles: &CycleSet) -> (r: usize)
        requires
            self.wf(),
            face < NFACES,
        ensures
            r == self.possible_cycles_writes(face as int, *cycles),
    {
        proof {
            cycles.lemma_words_len();
            self.state.faces.faces@[face as int].possible_cycles.lemma_words_len();
        }
        let old_words = self.state.faces.faces[face].possible_cycles.words();
        let new_words = cycles.words();
        let mut n: usize = 0;
        let mut w: usize = 0;
        while w < CYCLESET_LENGTH
            invariant
                w <= CYCLESET_LENGTH,
                old_words@ == self.spec_state().faces.faces@[face as int].possible_cycles.spec_words(),
                new_words@ == cycles.spec_words(),
                n == changed_words(old_words@, new_words@, w as int),
                n <= w,
            decreases CYCLESET_LENGTH - w,
        {
            if old_words[w] != new_words[w] {
                n = n + 1;
            }
            w = w + 1;
        }
        if self.state.faces.faces[face].cycle_count != cycles.len() as u64 {
            n = n + 1;
        }
        n
    }

    /// Nothing recorded or stored changed from `a` to `b`.
    pub open spec fn unchanged(a: &TrailedState, b: &TrailedState) -> bool {
        &&& b.spec_entries() == a.spec_entries()
        &&& b.spec_frozen() == a.spec_frozen()
        &&& forall|t: Target| target_valid(t) ==> #[trigger] slot_value(b.spec_state(), t) == slot_value(a.spec_state(), t)
        &&& b.spec_state().colors_completed_this_call == a.spec_state().colors_completed_this_call
    }

    /// A state whose log and slots have not changed keeps its history.
    pub proof fn lemma_unchanged_keeps_history(a: &TrailedState, b: &TrailedState)
        requires
            b.spec_entries() == a.spec_entries(),
            b.spec_frozen() == a.spec_frozen(),
            forall|t: Target| target_valid(t) ==> #[trigger] slot_value(b.spec_state(), t) == slot_value(a.spec_state(), t),
        ensures
            Self::history_kept(a, b),
    {
        assert forall|c: int, t: Target| 0 <= c <= a.spec_entries().len() && target_valid(t) implies #[trigger] b.rewound(c, t)
            == a.rewound(c, t) by {
            assert(slot_value(b.spec_state(), t) == slot_value(a.spec_state(), t));
        }
    }

    /// Set a face's possible cycles and their count, recording each changed word and the
    /// count if it changed.
    pub fn set_face_possible_cycles(&mut self, face: usize, cycles: CycleSet)
        requires
            old(self).wf(),
            face < NFACES,
            old(self).spec_entries().len() + old(self).possible_cycles_writes(face as int, cycles) <= TRAIL_MAX_SIZE,
        ensures
            final(self).wf(),
            final(self).spec_state().faces.faces@[face as int].possible_cycles.spec_words() == cycles.spec_words(),
            final(self).spec_state().faces.faces@[face as int].cycle_count == popcount_words(cycles.spec_words(), 7),
            forall|u: Target| target_valid(u) && !(u matches Target::PossibleCycleWord(g, _) && g == face) && u != Target::CycleCount(
                face as u16,
            ) ==> #[trigger] slot_value(final(self).spec_state(), u) == slot_value(old(self).spec_state(), u),
            final(self).spec_entries().len() == old(self).spec_entries().len() + old(self).possible_cycles_writes(face as int, cycles),
            final(self).spec_state().colors_completed_this_call == old(self).spec_state().colors_completed_this_call,
            Self::history_kept(old(self), final(self)),
    {
        let ghost start = *self;
        let count = cycles.len() as u64;
        proof {
            cycles.lemma_words_len();
            self.state.faces.faces@[face as int].possible_cycles.lemma_words_len();
        }
        let old_words = *self.state.faces.faces[face].possible_cycles.words();
        let new_words = *cycles.words();
        let mut word: usize = 0;
        while word < CYCLESET_LENGTH
            invariant
                start.wf(),
                self.wf(),
                face < NFACES,
                word <= CYCLESET_LENGTH,
                old_words@ == start.spec_state().faces.faces@[face as int].possible_cycles.spec_words(),
                new_words@ == cycles.spec_words(),
                old_words@.len() == 7,
                new_words@.len() == 7,
                start.spec_entries().len() + start.possible_cycles_writes(face as int, cycles) <= TRAIL_MAX_SIZE,
                self.spec_entries().len() == start.spec_entries().len() + changed_words(old_words@, new_words@, word as int),
                forall|w: int| 0 <= w < word ==> #[trigger] self.spec_state().faces.faces@[face as int].possible_cycles.spec_words()[w] == new_words@[w],
                forall|u: Target| target_valid(u) && !(u matches Target::PossibleCycleWord(g, w) && g == face && w < word) ==> #[trigger] slot_value(
                    self.spec_state(),
                    u,
                ) == slot_value(start.spec_state(), u),
                self.spec_state().colors_completed_this_call == start.spec_state().colors_completed_this_call,
                Self::history_kept(&start, self),
            decreases CYCLESET_LENGTH - word,
        {
            let ghost before = *self;
            proof {
                lemma_changed_words_bound(old_words@, new_words@, word as int + 1, 7);
            }
            if old_words[word] != new_words[word] {
                self.record_and_set(Target::PossibleCycleWord(face as u16, word as u16), new_words[word]);
                proof {
                    Self::lemma_history_transitive(&start, &before, self);
                }
            }
            proof {
                let tw = Target::PossibleCycleWord(face as u16, word as u16);
                assert(target_valid(tw));
                assert(slot_value(start.spec_state(), tw) == old_words@[word as int]);
                assert(slot_value(before.spec_state(), tw) == slot_value(start.spec_state(), tw));
                assert(slot_value(self.spec_state(), tw) == new_words@[word as int]);
                assert forall|w: int| 0 <= w < word + 1 implies #[trigger] self.spec_state().faces.faces@[face as int].possible_cycles.spec_words()[w]
                    == new_words@[w] by {
                    let u = Target::PossibleCycleWord(face as u16, w as u16);
                    assert(target_valid(u));
                    if w < word {
                        assert(u != tw);
                        assert(slot_value(self.spec_state(), u) == slot_value(before.spec_state(), u));
                        assert(before.spec_state().faces.faces@[face as int].possible_cycles.spec_words()[w] == new_words@[w]);
                    } else {
                        assert(slot_value(self.spec_state(), u) == slot_value(self.spec_state(), tw));
                    }
                }
            }
            word = word + 1;
        }
        proof {
            self.spec_state().faces.faces@[face as int].possible_cycles.lemma_words_len();
            assert(self.spec_state().faces.faces@[face as int].possible_cycles.spec_words() =~= cycles.spec_words());
        }
        proof {
            let tc = Target::CycleCount(face as u16);
            assert(target_valid(tc));
            assert(slot_value(self.spec_state(), tc) == slot_value(start.spec_state(), tc));
            assert(changed_words(old_words@, new_words@, 7) == changed_words(start.spec_state().faces.faces@[face as int].possible_cycles.spec_words(), cycles.spec_words(), 7));
        }
        if self.state.faces.faces[face].cycle_count != count {
            let ghost before = *self;
            self.record_and_set(Target::CycleCount(face as u16), count);
            proof {
                Self::lemma_history_transitive(&start, &before, self);
                assert(slot_value(self.spec_state(), Target::PossibleCycleWord(face as u16, 0)) == slot_value(before.spec_state(), Target::PossibleCycleWord(face as u16, 0)));
                assert forall|w: int| 0 <= w < 7 implies #[trigger] self.spec_state().faces.faces@[face as int].possible_cycles.spec_words()[w]
                    == before.spec_state().faces.faces@[face as int].possible_cycles.spec_words()[w] by {
                    assert(slot_value(self.spec_state(), Target::PossibleCycleWord(face as u16, w as u16)) == slot_value(
                        before.spec_state(),
                        Target::PossibleCycleWord(face as u16, w as u16),
                    ));
                }
                self.spec_state().faces.faces@[face as int].possible_cycles.lemma_words_len();
                before.spec_state().faces.faces@[face as int].possible_cycles.lemma_words_len();
                assert(self.spec_state().faces.faces@[face as int].possible_cycles.spec_words() =~= cycles.spec_words());
            }
        }
    }

    /// Set the vertex connection of a face's edge, recording the old one.
    pub fn set_edge_connection(&mut self, face: usize, color: usize, link: Option<CurveLink>)
        requires
            old(self).wf(),
            face < NFACES,
            color < NCOLORS,
            link matches Some(l) ==> link_in_range(l),
            old(self).spec_entries().len() < TRAIL_MAX_SIZE,
        ensures
            final(self).wf(),
            slot_value(final(self).spec_state(), Target::EdgeConnection(face as u16, color as u16)) == spec_encode(link),
            forall|u: Target| target_valid(u) && u != Target::EdgeConnection(face as u16, color as u16) ==> #[trigger] slot_value(
                final(self).spec_state(),
                u,
            ) == slot_value(old(self).spec_state(), u),
            final(self).spec_entries().len() == old(self).spec_entries().len() + 1,
            final(self).spec_state().colors_completed_this_call == old(self).spec_state().colors_completed_this_call,
            Self::history_kept(old(self), final(self)),
    {
        let encoded = DynamicEdge::encode_to(link);
        self.record_and_set(Target::EdgeConnection(face as u16, color as u16), encoded);
    }

    /// Set the next face in a face's cycle of faces, recording the old one.
    pub fn set_next_face(&mut self, face: usize, next: Option<usize>)
        requires
            old(self).wf(),
            face < NFACES,
            next matches Some(n) ==> n < NFACES,
            old(self).spec_entries().len() < TRAIL_MAX_SIZE,
        ensures
            final(self).wf(),
            slot_value(final(self).spec_state(), Target::DualFace(face as u16, false)) == spec_encode_index(
                match next {
                    Some(n) => Some(n as u64),
                    None => None,
                },
            ),
            forall|u: Target| target_valid(u) && u != Target::DualFace(face as u16, false) ==> #[trigger] slot_value(final(self).spec_state(), u)
                == slot_value(old(self).spec_state(), u),
            final(self).spec_entries().len() == old(self).spec_entries().len() + 1,
            final(self).spec_state().colors_completed_this_call == old(self).spec_state().colors_completed_this_call,
            Self::history_kept(old(self), final(self)),
    {
        self.set_dual_face(face, next, false);
    }

    /// Set the previous face in a face's cycle of faces, recording the old one.
    pub fn set_previous_face(&mut self, face: usize, previous: Option<usize>)
        requires
            old(self).wf(),
            face < NFACES,
            previous matches Some(n) ==> n < NFACES,
            old(self).spec_entries().len() < TRAIL_MAX_SIZE,
        ensures
            final(self).wf(),
            slot_value(final(self).spec_state(), Target::DualFace(face as u16, true)) == spec_encode_index(
                match previous {
                    Some(n) => Some(n as u64),
                    None => None,
                },
            ),
            forall|u: Target| target_valid(u) && u != Target::DualFace(face as u16, true) ==> #[trigger] slot_value(final(self).spec_state(), u)
                == slot_value(old(self).spec_state(), u),
            final(self).spec_entries().len() == old(self).spec_entries().len() + 1,
            final(self).spec_state().colors_completed_this_call == old(self).spec_state().colors_completed_this_call,
            Self::history_kept(old(self), final(self)),
    {
        self.set_dual_face(face, previous, true);
    }

    fn set_dual_face(&mut self, face: usize, next: Option<usize>, previous: bool)
        requires
            old(self).wf(),
            face < NFACES,
            next matches Some(n) ==> n < NFACES,
            old(self).spec_entries().len() < TRAIL_MAX_SIZE,
        ensures
            final(self).wf(),
            slot_value(final(self).spec_state(), Target::DualFace(face as u16, previous)) == spec_encode_index(
                match next {
                    Some(n) => Some(n as u64),
                    None => None,
                },
            ),
            forall|u: Target| target_valid(u) && u != Target::DualFace(face as u16, previous) ==> #[trigger] slot_value(final(self).spec_state(), u)
                == slot_value(old(self).spec_state(), u),
            final(self).spec_entries().len() == old(self).spec_entries().len() + 1,
            final(self).spec_state().colors_completed_this_call == old(self).spec_state().colors_completed_this_call,
            Self::history_kept(old(self), final(self)),
    {
        let id = match next {
            Some(n) => Some(n as u64),
            None => None,
        };
        let encoded = encode_optional_index(id, NFACES as u64);
        self.record_and_set(Target::DualFace(face as u16, previous), encoded);
    }

    /// Set the crossing count of the color pair i < j, recording the old one.
    pub fn set_crossing_count(&mut self, i: usize, j: usize, count: u64)
        requires
            old(self).wf(),
            i < j < NCOLORS,
            old(self).spec_entries().len() < TRAIL_MAX_SIZE,
        ensures
            final(self).wf(),
            slot_value(final(self).spec_state(), Target::CrossingCount(i as u16, j as u16)) == count,
            forall|u: Target| target_valid(u) && u != Target::CrossingCount(i as u16, j as u16) ==> #[trigger] slot_value(
                final(self).spec_state(),
                u,
            ) == slot_value(old(self).spec_state(), u),
            final(self).spec_entries().len() == old(self).spec_entries().len() + 1,
            final(self).spec_state().colors_completed_this_call == old(self).spec_state().colors_completed_this_call,
            Self::history_kept(old(self), final(self)),
    {
        self.record_and_set(Target::CrossingCount(i as u16, j as u16), count);
    }

    /// Mark a vertex as processed, recording the old flag; nothing happens if it already is.
    pub fn mark_vertex_processed(&mut self, vertex: usize)
        requires
            old(self).wf(),
            vertex < NPOINTS,
            old(self).spec_entries().len() < TRAIL_MAX_SIZE,
        ensures
            final(self).wf(),
            slot_value(final(self).spec_state(), Target::VertexProcessed(vertex as u16)) == if slot_value(
                old(self).spec_state(),
                Target::VertexProcessed(vertex as u16),
            ) == 0 {
                1
            } else {
                slot_value(old(self).spec_state(), Target::VertexProcessed(vertex as u16))
            },
            forall|u: Target| target_valid(u) && u != Target::VertexProcessed(vertex as u16) ==> #[trigger] slot_value(final(self).spec_state(), u)
                == slot_value(old(self).spec_state(), u),
            final(self).spec_entries().len() <= old(self).spec_entries().len() + 1,
            final(self).spec_state().colors_completed_this_call == old(self).spec_state().colors_completed_this_call,
            Self::history_kept(old(self), final(self)),
    {
        if self.state.vertex_processed[vertex] == 0 {
            self.record_and_set(Target::VertexProcessed(vertex as u16), 1);
        }
    }

    /// Add one to the edge count of a direction and color, recording the old count.
    pub fn increment_edge_color_count(&mut self, direction: usize, color: usize)
        requires
            old(self).wf(),
            direction < 2,
            color < NCOLORS,
            slot_value(old(self).spec_state(), Target::EdgeColorCount(direction as u16, color as u16)) < u64::MAX,
            old(self).spec_entries().len() < TRAIL_MAX_SIZE,
        ensures
            final(self).wf(),
            slot_value(final(self).spec_state(), Target::EdgeColorCount(direction as u16, color as u16)) == slot_value(
                old(self).spec_state(),
                Target::EdgeColorCount(direction as u16, color as u16),
            ) + 1,
            forall|u: Target| target_valid(u) && u != Target::EdgeColorCount(direction as u16, color as u16) ==> #[trigger] slot_value(
                final(self).spec_state(),
                u,
            ) == slot_value(old(self).spec_state(), u),
            final(self).spec_entries().len() == old(self).spec_entries().len() + 1,
            final(self).spec_state().colors_completed_this_call == old(self).spec_state().colors_completed_this_call,
            Self::history_kept(old(self), final(self)),
    {
        let count = self.state.edge_color_count(direction, color) + 1;
        self.record_and_set(Target::EdgeColorCount(direction as u16, color as u16), count);
    }

    /// Mark a color's curve as checked, recording the old flag.
    pub fn mark_color_checked(&mut self, color: usize)
        requires
            old(self).wf(),
            color < NCOLORS,
            old(self).spec_entries().len() < TRAIL_MAX_SIZE,
        ensures
            final(self).wf(),
            slot_value(final(self).spec_state(), Target::ColorChecked(color as u16)) == 1,
            forall|u: Target| target_valid(u) && u != Target::ColorChecked(color as u16) ==> #[trigger] slot_value(final(self).spec_state(), u)
                == slot_value(old(self).spec_state(), u),
            final(self).spec_entries().len() == old(self).spec_entries().len() + 1,
            final(self).spec_state().colors_completed_this_call == old(self).spec_state().colors_completed_this_call,
            Self::history_kept(old(self), final(self)),
    {
        self.record_and_set(Target::ColorChecked(color as u16), 1);
    }

    /// Clear the colors completed during this propagation (not recorded).
    pub fn clear_completed_colors(&mut self)
        requires
            old(self).wf(),
        ensures
            final(self).wf(),
            final(self).spec_state().colors_completed_this_call == 0,
            forall|u: Target| target_valid(u) ==> #[trigger] slot_value(final(self).spec_state(), u) == slot_value(old(self).spec_state(), u),
            final(self).spec_entries() == old(self).spec_entries(),
            final(self).spec_frozen() == old(self).spec_frozen(),
    {
        self.state.colors_completed_this_call = 0;
    }

    /// Add a color to the colors completed during this propagation (not recorded).
    pub fn add_completed_color(&mut self, color: usize)
        requires
            old(self).wf(),
            color < NCOLORS,
        ensures
            final(self).wf(),
            final(self).spec_state().colors_completed_this_call == old(self).spec_state().colors_completed_this_call | (1u64 << color as u64),
            forall|u: Target| target_valid(u) ==> #[trigger] slot_value(final(self).spec_state(), u) == slot_value(old(self).spec_state(), u),
            final(self).spec_entries() == old(self).spec_entries(),
            final(self).spec_frozen() == old(self).spec_frozen(),
    {
        self.state.colors_completed_this_call = self.state.colors_completed_this_call | (1u64 << color as u64);
    }
}

proof fn lemma_changed_words_bound(a: Seq<u64>, b: Seq<u64>, k: int, n: int)
    requires
        0 <= k <= n,
    ensures
        changed_words(a, b, k) <= changed_words(a, b, n),
    decreases n - k,
{
    if k < n {
        lemma_changed_words_bound(a, b, k, n - 1);
    }
}

} // verus!
