//! Edge adjacency: the faces across an edge of the assigned cycle must fit it.

use crate::context::memoized::MemoizedData;
use crate::geometry::bits::lemma_toggle_face_bits;
use crate::geometry::constants::{NCYCLES, NFACES};
use crate::geometry::cycle::CycleId;
use crate::context::dynamic::slot_value;
use crate::memo::cycles::{expected_cycles, has_pair, has_triple};
use crate::trail::{Target, TrailedState};
use super::cascade::{
    current_cycle_of, depth_budget, keeps_assigned, lemma_kept_current, lemma_unchanged_current, lemma_unchanged_refl, lemma_unchanged_trans, restrict_face_cycles, step_ok,
    MAX_PROPAGATION_DEPTH,
};
use super::errors::PropagationFailure;
use super::vertices::{configuration_kept, lemma_kept_refl, lemma_kept_trans};
use super::cascade::{lemma_shrinks_refl, lemma_shrinks_trans, possible_shrinks};
use vstd::prelude::*;

verus! {

/// The faces related to step `i` of the cycle of face `f`, from color a to color b with p
/// before a, that had a current cycle in `s` have one that fits: the face across a and b
/// one with a followed by b, the face across a one with b, a, p consecutively.
pub open spec fn adjacency_step_respected(s: &TrailedState, f: usize, cycle: int, i: int) -> bool {
    let c = expected_cycles()[cycle];
    let n = c.len() as int;
    let a = c[i].index() as int;
    let b = c[(i + 1) % n].index() as int;
    let p = c[(i + n - 1) % n].index() as int;
    &&& (current_cycle_of(s, (f ^ (1usize << a as usize) ^ (1usize << b as usize)) as int) matches Some(x) ==> x < NCYCLES
        && has_pair(expected_cycles()[x as int], a, b))
    &&& (current_cycle_of(s, (f ^ (1usize << a as usize)) as int) matches Some(x) ==> x < NCYCLES && has_triple(
        expected_cycles()[x as int],
        b,
        a,
        p,
    ))
}

/// A step respected in a later state that keeps assigned faces was respected before; a
/// step settled before stays settled.
pub proof fn lemma_adjacency_respected_before(
    memo: &MemoizedData,
    a: &TrailedState,
    b: &TrailedState,
    f: usize,
    cycle: int,
    i: int,
)
    requires
        memo.wf(),
        keeps_assigned(a, b),
        f < NFACES,
        0 <= cycle < NCYCLES,
        0 <= i < expected_cycles()[cycle].len(),
    ensures
        adjacency_step_respected(b, f, cycle, i) ==> adjacency_step_respected(a, f, cycle, i),
        adjacency_step_settled(a, f, cycle, i) ==> adjacency_step_settled(b, f, cycle, i),
{
    crate::memo::cycles::lemma_expected_cycle_colors(cycle);
    let c = expected_cycles()[cycle];
    let n = c.len() as int;
    let x = c[i].index() as usize;
    let y = c[(i + 1) % n].index() as usize;
    assert(0 <= (i + 1) % n < n);
    let g1 = f ^ (1usize << x) ^ (1usize << y);
    let g2 = f ^ (1usize << x);
    lemma_toggle_face_bits(f, x, y);
    if current_cycle_of(a, g1 as int) is Some {
        lemma_kept_current(a, b, g1 as int);
    }
    if current_cycle_of(a, g2 as int) is Some {
        lemma_kept_current(a, b, g2 as int);
    }
}

/// Both faces related to step `i` already have a current cycle in `s`, and it fits.
pub open spec fn adjacency_step_settled(s: &TrailedState, f: usize, cycle: int, i: int) -> bool {
    let c = expected_cycles()[cycle];
    let n = c.len() as int;
    let a = c[i].index() as int;
    let b = c[(i + 1) % n].index() as int;
    &&& current_cycle_of(s, (f ^ (1usize << a as usize) ^ (1usize << b as usize)) as int) is Some
    &&& current_cycle_of(s, (f ^ (1usize << a as usize)) as int) is Some
    &&& adjacency_step_respected(s, f, cycle, i)
}

/// For each step of the face's cycle from color a to color b: the face across both a
/// and b is restricted to the cycles with a followed by b, and the face across a to the
/// cycles with b, a and the color before a consecutively.
pub fn propagate_edge_adjacency(
    memo: &MemoizedData,
    state: &mut TrailedState,
    face_id: usize,
    cycle_id: CycleId,
    depth: usize,
) -> (r: Result<(), PropagationFailure>)
    requires
        memo.wf(),
        old(state).wf(),
        face_id < NFACES,
        cycle_id < NCYCLES,
    ensures
        step_ok(old(state), final(state)),
        r is Ok ==> forall|i: int|
            0 <= i < expected_cycles()[cycle_id as int].len() ==> #[trigger] adjacency_step_respected(
                old(state),
                face_id,
                cycle_id as int,
                i,
            ),
        depth <= MAX_PROPAGATION_DEPTH && (forall|i: int|
            0 <= i < expected_cycles()[cycle_id as int].len() ==> #[trigger] adjacency_step_settled(old(state), face_id, cycle_id as int, i))
            ==> r is Ok && TrailedState::unchanged(old(state), final(state)),
        configuration_kept(old(state), final(state)),
        possible_shrinks(old(state), final(state)),
    decreases depth_budget(depth), 2nat,
{
    let ghost start = *state;
    proof {
        lemma_kept_refl(&start);
        lemma_shrinks_refl(&start);
    }
    let ghost settled = depth <= MAX_PROPAGATION_DEPTH && forall|i: int|
        0 <= i < expected_cycles()[cycle_id as int].len() ==> #[trigger] adjacency_step_settled(&start, face_id, cycle_id as int, i);
    proof {
        lemma_unchanged_refl(&start);
        TrailedState::lemma_unchanged_keeps_history(&start, state);
        crate::memo::cycles::lemma_expected_cycle_colors(cycle_id as int);
    }
    let cycle = memo.cycles.get(cycle_id);
    let cycle_colors = cycle.colors();
    let face_colors = memo.faces.get_face(face_id).colors;
    let n = cycle.len();
    let mut i: usize = 0;
    while i < n
        invariant
            memo.wf(),
            face_id < NFACES,
            cycle_id < NCYCLES,
            i <= n,
            n == cycle_colors@.len(),
            cycle_colors@ == crate::memo::cycles::expected_cycles()[cycle_id as int],
            face_colors.spec_bits() == face_id as u64,
            step_ok(&start, state),
            configuration_kept(&start, state),
            possible_shrinks(&start, state),
            forall|k: int| 0 <= k < i ==> #[trigger] adjacency_step_respected(&start, face_id, cycle_id as int, k),
            settled ==> TrailedState::unchanged(&start, state),
        decreases n - i,
    {
        let a_color_idx = cycle_colors[i].as_usize();
        let b_color_idx = cycle_colors[(i + 1) % n].as_usize();
        let face_bits = face_colors.bits() as usize;
        let a_face_id = face_bits ^ (1usize << a_color_idx);
        let ab_face_id = face_bits ^ (1usize << a_color_idx) ^ (1usize << b_color_idx);
        proof {
            assert(face_bits < 64);
            assert(a_face_id < 64 && ab_face_id < 64) by (bit_vector)
                requires
                    face_bits < 64,
                    a_color_idx < 6,
                    b_color_idx < 6,
                    a_face_id == face_bits ^ (1usize << a_color_idx),
                    ab_face_id == face_bits ^ (1usize << a_color_idx) ^ (1usize << b_color_idx);
        }
        let same_dir_cycles = memo.cycles_memo.same_direction(&memo.cycles, cycle_id, i);
        let opposite_dir_cycles = memo.cycles_memo.opposite_direction(&memo.cycles, cycle_id, i);
        let ghost s1 = *state;
        proof {
            if settled {
                let c = expected_cycles()[cycle_id as int];
                assert(c[i as int].index() == a_color_idx);
                assert(c[(i as int + 1) % (n as int)].index() == b_color_idx);
                assert(face_bits == face_id);
                assert(adjacency_step_settled(&start, face_id, cycle_id as int, i as int));
                lemma_unchanged_current(&start, &s1, ab_face_id as int);
                lemma_unchanged_current(&start, &s1, a_face_id as int);
            }
        }
        let same = restrict_face_cycles(memo, state, ab_face_id, &same_dir_cycles, depth);
        proof {
            TrailedState::lemma_history_transitive(&start, &s1, state);
            lemma_kept_trans(&start, &s1, state);
            lemma_shrinks_trans(&start, &s1, state);
            assert(slot_value(s1.spec_state(), Target::CurrentCycle(ab_face_id as u16)) == slot_value(
                s1.spec_state(),
                Target::CurrentCycle(ab_face_id as u16),
            ));
            assert(face_bits == face_id);
        }
        if let Err(e) = same {
            return Err(e);
        }
        let ghost s2 = *state;
        proof {
            if settled {
                lemma_unchanged_trans(&start, &s1, &s2);
                lemma_unchanged_current(&start, &s2, a_face_id as int);
            }
        }
        let opposite = restrict_face_cycles(memo, state, a_face_id, &opposite_dir_cycles, depth);
        proof {
            if settled {
                lemma_unchanged_trans(&start, &s2, state);
            }
        }
        proof {
            TrailedState::lemma_history_transitive(&start, &s2, state);
            lemma_kept_trans(&start, &s2, state);
            lemma_shrinks_trans(&start, &s2, state);
            assert(slot_value(s2.spec_state(), Target::CurrentCycle(a_face_id as u16)) == slot_value(
                s2.spec_state(),
                Target::CurrentCycle(a_face_id as u16),
            ));
            if opposite is Ok && same is Ok {
                let c = expected_cycles()[cycle_id as int];
                assert(c[i as int].index() == a_color_idx);
                assert(c[(i as int + 1) % (n as int)].index() == b_color_idx);
                if let Some(x) = current_cycle_of(&start, ab_face_id as int) {
                    assert(slot_value(s1.spec_state(), Target::CurrentCycle(ab_face_id as u16)) == slot_value(
                        start.spec_state(),
                        Target::CurrentCycle(ab_face_id as u16),
                    ));
                    assert(current_cycle_of(&s1, ab_face_id as int) == Some(x));
                    assert(same_dir_cycles.has(x as int));
                }
                if let Some(x) = current_cycle_of(&start, a_face_id as int) {
                    assert(slot_value(s2.spec_state(), Target::CurrentCycle(a_face_id as u16)) == slot_value(
                        start.spec_state(),
                        Target::CurrentCycle(a_face_id as u16),
                    ));
                    assert(current_cycle_of(&s2, a_face_id as int) == Some(x));
                    assert(opposite_dir_cycles.has(x as int));
                }
                assert(adjacency_step_respected(&start, face_id, cycle_id as int, i as int));
            }
        }
        if let Err(e) = opposite {
            return Err(e);
        }
        i = i + 1;
    }
    Ok(())
}

} // verus!
