//! Setting up the inner face and its neighbours before the search for facial cycles.

use crate::context::memoized::MemoizedData;
use crate::geometry::constants::{NCOLORS, NCYCLES, NFACES};
use crate::geometry::cycle_set::CycleSet;
use crate::memo::cycles::expected_cycles;
use crate::context::dynamic::{slot_value, target_valid};
use crate::state::faces::spec_encode_index;
use crate::trail::{Target, TrailedState, TRAIL_MAX_SIZE};
use super::cascade::{
    choice_settled, current_cycle_of, lemma_choice_settled_frame, lemma_unchanged_current, lemma_unchanged_refl, lemma_unchanged_trans, possible_of, propagate_cycle_choice,
    restrict_face_cycles, step_ok,
};
use super::errors::PropagationFailure;
use vstd::prelude::*;

verus! {

/// The cycles of the given length.
pub fn cycles_of_length(memo: &MemoizedData, length: usize) -> (r: CycleSet)
    requires
        memo.wf(),
    ensures
        forall|c: int| #[trigger] r.has(c) <==> 0 <= c < NCYCLES && expected_cycles()[c].len() == length,
{
    let mut allowed_cycles = CycleSet::empty();
    let mut cycle_id: u64 = 0;
    while cycle_id < NCYCLES as u64
        invariant
            memo.wf(),
            cycle_id <= NCYCLES,
            forall|c: int| #[trigger] allowed_cycles.has(c) <==> 0 <= c < cycle_id && expected_cycles()[c].len() == length,
        decreases NCYCLES - cycle_id,
    {
        let cycle = memo.cycles.get(cycle_id);
        if cycle.len() == length {
            allowed_cycles.insert(cycle_id);
        }
        cycle_id = cycle_id + 1;
    }
    allowed_cycles
}

/// Cycle `c` is one of the cycles, with `length` colors.
pub open spec fn has_length(c: int, length: int) -> bool {
    0 <= c < NCYCLES && expected_cycles()[c].len() == length
}

/// The face with every color but `i`.
pub open spec fn central_neighbor(i: int) -> int {
    ((!(1usize << i as usize)) & 63usize) as int
}

/// The face with every color but `i`, if it had a current cycle in `s`, has one of the
/// chosen length (or no length was chosen).
pub open spec fn neighbor_fits(s: &TrailedState, degrees: Seq<u64>, i: int) -> bool {
    let length = (degrees[i] as usize) as int;
    length != 0 ==> (current_cycle_of(s, central_neighbor(i)) matches Some(x) ==> has_length(x as int, length))
}

/// The face with every color but `i` needs no restriction: no length was chosen for it,
/// or it already has a cycle of the chosen length in `s`.
pub open spec fn neighbor_settled(s: &TrailedState, degrees: Seq<u64>, i: int) -> bool {
    let length = (degrees[i] as usize) as int;
    length == 0 || (current_cycle_of(s, central_neighbor(i)) matches Some(x) && has_length(x as int, length))
}

/// The first restriction of the setup, of the face with every color but 0, succeeds on `s`.
pub open spec fn first_restriction_ok(s: &TrailedState, degrees: Seq<u64>) -> bool {
    let length = (degrees[0] as usize) as int;
    let f = central_neighbor(0);
    length != 0 ==> {
        &&& current_cycle_of(s, f) is None ==> exists|c: int| possible_of(s, f).has(c) && #[trigger] has_length(c, length)
        &&& current_cycle_of(s, f) matches Some(x) ==> has_length(x as int, length)
    }
}

/// Restrict a face to the cycles of the given length; length 0 means no restriction.
pub fn restrict_face_to_cycle_length(
    memo: &MemoizedData,
    state: &mut TrailedState,
    face_id: usize,
    length: usize,
) -> (r: Result<(), PropagationFailure>)
    requires
        memo.wf(),
        old(state).wf(),
        face_id < NFACES,
    ensures
        step_ok(old(state), final(state)),
        length == 0 ==> r is Ok && TrailedState::unchanged(old(state), final(state)),
        length != 0 ==> (current_cycle_of(old(state), face_id as int) matches Some(a) ==> {
            &&& r == if has_length(a as int, length as int) {
                Ok::<(), PropagationFailure>(())
            } else {
                Err(PropagationFailure::ConflictingConstraints { face_id, assigned_cycle: a, depth: 0 })
            }
            &&& TrailedState::unchanged(old(state), final(state))
        }),
        length != 0 && current_cycle_of(old(state), face_id as int) is None && (forall|c: int|
            !(possible_of(old(state), face_id as int).has(c) && #[trigger] has_length(c, length as int))) ==> {
            &&& r == Err::<(), PropagationFailure>(PropagationFailure::NoMatchingCycles { face_id, depth: 0 })
            &&& TrailedState::unchanged(old(state), final(state))
        },
        length != 0 && current_cycle_of(old(state), face_id as int) is None && r is Ok ==> (exists|c: int|
            possible_of(old(state), face_id as int).has(c) && #[trigger] has_length(c, length as int)),
{
    if length == 0 {
        proof {
            TrailedState::lemma_unchanged_keeps_history(&*old(state), state);
        }
        return Ok(());
    }
    let allowed_cycles = cycles_of_length(memo, length);
    let ghost s0 = *state;
    let result = restrict_face_cycles(memo, state, face_id, &allowed_cycles, 0);
    proof {
        assert forall|c: int| #[trigger] has_length(c, length as int) <==> allowed_cycles.has(c) by {}
        if current_cycle_of(&s0, face_id as int) is None {
            if forall|c: int| !(possible_of(&s0, face_id as int).has(c) && #[trigger] has_length(c, length as int)) {
                assert forall|c: int| !(possible_of(&s0, face_id as int).has(c) && allowed_cycles.has(c)) by {
                    assert(has_length(c, length as int) <==> allowed_cycles.has(c));
                }
            }
            if result is Ok {
                let c = choose|c: int| possible_of(&s0, face_id as int).has(c) && allowed_cycles.has(c);
                assert(has_length(c, length as int));
            }
        }
    }
    result
}

/// Set up the search around the inner face: the face with every color but i gets
/// cycles of length `face_degrees[i]` (no restriction for 0); the inner face is assigned
/// the last cycle of the table (the canonical cycle through all colors in order), which
/// is then propagated. Every other face keeps its current cycle; the inner face keeps its
/// own too when it had none before. It succeeds when the neighbours need no restriction,
/// the inner face's choice is settled and the log has room.
pub fn setup_central_face(
    memo: &MemoizedData,
    state: &mut TrailedState,
    face_degrees: &[u64; 6],
) -> (r: Result<(), PropagationFailure>)
    requires
        memo.wf(),
        old(state).wf(),
    ensures
        final(state).wf(),
        TrailedState::history_kept(old(state), final(state)),
        slot_value(old(state).spec_state(), Target::CurrentCycle((NFACES - 1) as u16)) == 0 ==> step_ok(old(state), final(state)),
        forall|f: u16|
            f < NFACES - 1 && slot_value(old(state).spec_state(), Target::CurrentCycle(f)) != 0 ==> #[trigger] slot_value(
                final(state).spec_state(),
                Target::CurrentCycle(f),
            ) == slot_value(old(state).spec_state(), Target::CurrentCycle(f)),
        r is Ok ==> slot_value(final(state).spec_state(), Target::CurrentCycle((NFACES - 1) as u16)) == spec_encode_index(
            Some((NCYCLES - 1) as u64),
        ),
        r is Ok ==> forall|i: int| 0 <= i < NCOLORS ==> #[trigger] neighbor_fits(old(state), face_degrees@, i),
        (forall|i: int| 0 <= i < NCOLORS ==> #[trigger] neighbor_settled(old(state), face_degrees@, i)) && old(state).spec_entries().len()
            < TRAIL_MAX_SIZE ==> slot_value(final(state).spec_state(), Target::CurrentCycle((NFACES - 1) as u16)) == spec_encode_index(
            Some((NCYCLES - 1) as u64),
        ),
        ({
            let length = (face_degrees@[0] as usize) as int;
            let f = central_neighbor(0);
            &&& (length != 0 && current_cycle_of(old(state), f) is None && (forall|c: int|
                !(possible_of(old(state), f).has(c) && #[trigger] has_length(c, length)))) ==> r == Err::<
                (),
                PropagationFailure,
            >(PropagationFailure::NoMatchingCycles { face_id: f as usize, depth: 0 }) && TrailedState::unchanged(old(state), final(state))
            &&& (length != 0 && current_cycle_of(old(state), f) is Some && !has_length(current_cycle_of(old(state), f)->0 as int, length)) ==> r
                == Err::<(), PropagationFailure>(
                PropagationFailure::ConflictingConstraints { face_id: f as usize, assigned_cycle: current_cycle_of(old(state), f)->0, depth: 0 },
            ) && TrailedState::unchanged(old(state), final(state))
        }),
        (forall|i: int| 0 <= i < NCOLORS ==> #[trigger] neighbor_settled(old(state), face_degrees@, i)) && choice_settled(
            old(state),
            (NFACES - 1) as usize,
            (NCYCLES - 1) as int,
        ) && old(state).spec_entries().len() + 11 <= TRAIL_MAX_SIZE ==> r is Ok,
{
    let ghost start = *state;
    let ghost settled = (forall|i: int| 0 <= i < NCOLORS ==> #[trigger] neighbor_settled(&start, face_degrees@, i))
        && start.spec_entries().len() < TRAIL_MAX_SIZE;
    proof {
        TrailedState::lemma_unchanged_keeps_history(&start, state);
        lemma_unchanged_refl(&start);
    }
    let mut i: usize = 0;
    while i < NCOLORS
        invariant
            memo.wf(),
            i <= NCOLORS,
            step_ok(&start, state),
            i == 0 ==> *state == start,
            i > 0 ==> first_restriction_ok(&start, face_degrees@),
            forall|k: int| 0 <= k < i ==> #[trigger] neighbor_fits(&start, face_degrees@, k),
            settled ==> TrailedState::unchanged(&start, state),
        decreases NCOLORS - i,
    {
        let degree = face_degrees[i] as usize;
        let face_id = (!(1usize << i)) & (NFACES - 1);
        proof {
            assert(face_id < 64) by (bit_vector)
                requires face_id == (!(1usize << i)) & 63usize;
        }
        let ghost s1 = *state;
        proof {
            if settled {
                assert(face_id == central_neighbor(i as int));
                assert(neighbor_settled(&start, face_degrees@, i as int));
                lemma_unchanged_current(&start, &s1, face_id as int);
            }
        }
        let restricted = restrict_face_to_cycle_length(memo, state, face_id, degree);
        proof {
            if settled {
                lemma_unchanged_trans(&start, &s1, state);
            }
            TrailedState::lemma_history_transitive(&start, &s1, state);
            assert(face_id == central_neighbor(i as int));
            if restricted is Ok {
                if let Some(x) = current_cycle_of(&start, face_id as int) {
                    assert(slot_value(s1.spec_state(), Target::CurrentCycle(face_id as u16)) == slot_value(
                        start.spec_state(),
                        Target::CurrentCycle(face_id as u16),
                    ));
                    assert(current_cycle_of(&s1, face_id as int) == Some(x));
                }
                assert(neighbor_fits(&start, face_degrees@, i as int));
                if i == 0 {
                    assert(first_restriction_ok(&start, face_degrees@));
                }
            }
        }
        if let Err(e) = restricted {
            return Err(e);
        }
        i = i + 1;
    }
    let inner_face_id = NFACES - 1;
    let canonical_cycle_id = (NCYCLES - 1) as u64;
    if !state.has_room(1) {
        return Err(PropagationFailure::LimitReached { depth: 0 });
    }
    let ghost s2 = *state;
    state.set_face_cycle(inner_face_id, canonical_cycle_id);
    proof {
        TrailedState::lemma_history_transitive(&start, &s2, state);
    }
    let ghost s3 = *state;
    proof {
        if settled && choice_settled(&start, inner_face_id, canonical_cycle_id as int) && start.spec_entries().len() + 11 <= TRAIL_MAX_SIZE {
            assert forall|u: Target| target_valid(u) && u != Target::CurrentCycle(inner_face_id as u16) implies #[trigger] slot_value(
                s3.spec_state(),
                u,
            ) == slot_value(start.spec_state(), u) by {
                assert(slot_value(s3.spec_state(), u) == slot_value(s2.spec_state(), u));
            }
            lemma_choice_settled_frame(memo, &start, &s3, inner_face_id, canonical_cycle_id as int);
        }
    }
    let propagated = propagate_cycle_choice(memo, state, inner_face_id, canonical_cycle_id, 0);
    proof {
        TrailedState::lemma_history_transitive(&start, &s3, state);
        assert(spec_encode_index(Some((NCYCLES - 1) as u64)) != 0);
        assert(slot_value(state.spec_state(), Target::CurrentCycle((NFACES - 1) as u16)) == slot_value(
            s3.spec_state(),
            Target::CurrentCycle((NFACES - 1) as u16),
        ));
    }
    propagated
}

} // verus!
