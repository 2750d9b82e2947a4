//! Non-adjacency: faces that the assigned cycle does not reach cannot use the curves it
//! lacks.

use crate::context::memoized::MemoizedData;
use crate::geometry::bits::lemma_toggle_face_bits;
use crate::geometry::color::Color;
use crate::geometry::constants::{NCOLORS, NCYCLES, NFACES};
use crate::geometry::cycle::CycleId;
use crate::context::dynamic::slot_value;
use crate::memo::cycles::{expected_cycles, has_color, has_pair, pair_at};
use crate::trail::{Target, TrailedState};
use super::cascade::{
    current_cycle_of, depth_budget, keeps_assigned, lemma_kept_current, lemma_unchanged_current, lemma_unchanged_refl, lemma_unchanged_trans, restrict_face_cycles, step_ok,
    MAX_PROPAGATION_DEPTH,
};
use super::errors::PropagationFailure;
use super::vertices::{configuration_kept, lemma_kept_refl, lemma_kept_trans};
use super::cascade::{lemma_shrinks_refl, lemma_shrinks_trans, possible_shrinks};
use vstd::prelude::*;

verus! {

/// For a color `c` the cycle lacks: the face across `c` from face `f`, if it had a
/// current cycle in `s`, has one without `c`.
pub open spec fn non_adjacent_respected(s: &TrailedState, f: usize, cycle: int, c: int) -> bool {
    !has_color(expected_cycles()[cycle], c) ==> (current_cycle_of(s, (f ^ (1usize << c as usize)) as int) matches Some(x) ==> x
        < NCYCLES && !has_color(expected_cycles()[x as int], c))
}

/// For colors i < j with no step from i to j in the cycle: the face across both from face
/// `f`, if it had a current cycle in `s`, has one without a step from i to j.
pub open spec fn non_vertex_respected(s: &TrailedState, f: usize, cycle: int, i: int, j: int) -> bool {
    !has_pair(expected_cycles()[cycle], i, j) ==> (current_cycle_of(
        s,
        (f ^ ((1usize << i as usize) | (1usize << j as usize))) as int,
    ) matches Some(x) ==> x < NCYCLES && !has_pair(expected_cycles()[x as int], i, j))
}

/// A lacking color respected in a later state that keeps assigned faces was respected
/// before; one settled before stays settled.
pub proof fn lemma_non_adjacent_respected_before(a: &TrailedState, b: &TrailedState, f: usize, cycle: int, c: int)
    requires
        keeps_assigned(a, b),
        f < NFACES,
        0 <= c < NCOLORS,
    ensures
        non_adjacent_respected(b, f, cycle, c) ==> non_adjacent_respected(a, f, cycle, c),
        non_adjacent_settled(a, f, cycle, c) ==> non_adjacent_settled(b, f, cycle, c),
{
    let x = c as usize;
    let g = f ^ (1usize << x);
    lemma_toggle_face_bits(f, x, x);
    if current_cycle_of(a, g as int) is Some {
        lemma_kept_current(a, b, g as int);
    }
}

/// A missing step respected in a later state that keeps assigned faces was respected
/// before; one settled before stays settled.
pub proof fn lemma_non_vertex_respected_before(a: &TrailedState, b: &TrailedState, f: usize, cycle: int, i: int, j: int)
    requires
        keeps_assigned(a, b),
        f < NFACES,
        0 <= i < j < NCOLORS,
    ensures
        non_vertex_respected(b, f, cycle, i, j) ==> non_vertex_respected(a, f, cycle, i, j),
        non_vertex_settled(a, f, cycle, i, j) ==> non_vertex_settled(b, f, cycle, i, j),
{
    let x = i as usize;
    let y = j as usize;
    let g = f ^ ((1usize << x) | (1usize << y));
    lemma_toggle_face_bits(f, x, y);
    if current_cycle_of(a, g as int) is Some {
        lemma_kept_current(a, b, g as int);
    }
}

/// For a color `c` the cycle lacks, the face across `c` from face `f` already has a
/// current cycle in `s`, without `c`.
pub open spec fn non_adjacent_settled(s: &TrailedState, f: usize, cycle: int, c: int) -> bool {
    !has_color(expected_cycles()[cycle], c) ==> (current_cycle_of(s, (f ^ (1usize << c as usize)) as int) matches Some(x) && x
        < NCYCLES && !has_color(expected_cycles()[x as int], c))
}

/// For colors i < j with no step from i to j in the cycle, the face across both from face
/// `f` already has a current cycle in `s`, without a step from i to j.
pub open spec fn non_vertex_settled(s: &TrailedState, f: usize, cycle: int, i: int, j: int) -> bool {
    !has_pair(expected_cycles()[cycle], i, j) ==> (current_cycle_of(
        s,
        (f ^ ((1usize << i as usize) | (1usize << j as usize))) as int,
    ) matches Some(x) && x < NCYCLES && !has_pair(expected_cycles()[x as int], i, j))
}

/// For each color not in the face's cycle, the face across that color is restricted to
/// the cycles without it.
pub fn propagate_non_adjacent_faces(
    memo: &MemoizedData,
    state: &mut TrailedState,
    face_id: usize,
    cycle_id: CycleId,
    depth: usize,
) -> (r: Result<(), PropagationFailure>)
    requires
        memo.wf(),
        old(state).wf(),
        face_id < NFACES,
        cycle_id < NCYCLES,
    ensures
        step_ok(old(state), final(state)),
        r is Ok ==> forall|c: int| 0 <= c < NCOLORS ==> #[trigger] non_adjacent_respected(old(state), face_id, cycle_id as int, c),
        depth <= MAX_PROPAGATION_DEPTH && (forall|c: int| 0 <= c < NCOLORS ==> #[trigger] non_adjacent_settled(old(state), face_id, cycle_id as int, c))
            ==> r is Ok && TrailedState::unchanged(old(state), final(state)),
        configuration_kept(old(state), final(state)),
        possible_shrinks(old(state), final(state)),
    decreases depth_budget(depth), 2nat,
{
    let ghost start = *state;
    proof {
        lemma_kept_refl(&start);
        lemma_shrinks_refl(&start);
    }
    let ghost settled = depth <= MAX_PROPAGATION_DEPTH && forall|c: int|
        0 <= c < NCOLORS ==> #[trigger] non_adjacent_settled(&start, face_id, cycle_id as int, c);
    proof {
        lemma_unchanged_refl(&start);
        TrailedState::lemma_unchanged_keeps_history(&start, state);
    }
    let cycle = memo.cycles.get(cycle_id);
    let cycle_colorset = cycle.colorset();
    let face_colors = memo.faces.get_face(face_id).colors;
    let mut color_idx: usize = 0;
    while color_idx < NCOLORS
        invariant
            memo.wf(),
            face_id < NFACES,
            color_idx <= NCOLORS,
            face_colors.spec_bits() == face_id as u64,
            step_ok(&start, state),
            configuration_kept(&start, state),
            possible_shrinks(&start, state),
            cycle@ == expected_cycles()[cycle_id as int],
            forall|i: nat| cycle_colorset.has(i) <==> exists|j: int| 0 <= j < cycle@.len() && (#[trigger] cycle@[j]).index() == i,
            forall|k: int| 0 <= k < color_idx ==> #[trigger] non_adjacent_respected(&start, face_id, cycle_id as int, k),
            settled ==> TrailedState::unchanged(&start, state),
        decreases NCOLORS - color_idx,
    {
        if !cycle_colorset.contains(Color::new(color_idx as u8)) {
            let face_bits = face_colors.bits() as usize;
            let adjacent_face_id = face_bits ^ (1usize << color_idx);
            proof {
                assert(adjacent_face_id < 64) by (bit_vector)
                    requires
                        face_bits < 64,
                        color_idx < 6,
                        adjacent_face_id == face_bits ^ (1usize << color_idx);
            }
            let omitting_cycleset = memo.cycles_memo.get_cycles_omitting_one_color(color_idx);
            let ghost s1 = *state;
            proof {
                if settled {
                    assert(face_bits == face_id);
                    assert(!cycle_colorset.has(color_idx as nat));
                    if has_color(expected_cycles()[cycle_id as int], color_idx as int) {
                        let j = choose|j: int| 0 <= j < cycle@.len() && (#[trigger] cycle@[j]).index() == color_idx;
                        assert(cycle_colorset.has(color_idx as nat));
                    }
                    assert(non_adjacent_settled(&start, face_id, cycle_id as int, color_idx as int));
                    lemma_unchanged_current(&start, &s1, adjacent_face_id as int);
                }
            }
            let restricted = restrict_face_cycles(memo, state, adjacent_face_id, &omitting_cycleset, depth);
            proof {
                if settled {
                    lemma_unchanged_trans(&start, &s1, state);
                }
                TrailedState::lemma_history_transitive(&start, &s1, state);
                lemma_kept_trans(&start, &s1, state);
                lemma_shrinks_trans(&start, &s1, state);
                assert(face_bits == face_id);
                if restricted is Ok {
                    if let Some(x) = current_cycle_of(&start, adjacent_face_id as int) {
                        assert(slot_value(s1.spec_state(), Target::CurrentCycle(adjacent_face_id as u16)) == slot_value(
                            start.spec_state(),
                            Target::CurrentCycle(adjacent_face_id as u16),
                        ));
                        assert(current_cycle_of(&s1, adjacent_face_id as int) == Some(x));
                        assert(omitting_cycleset.has(x as int));
                    }
                    assert(non_adjacent_respected(&start, face_id, cycle_id as int, color_idx as int));
                }
            }
            if let Err(e) = restricted {
                return Err(e);
            }
        } else {
            proof {
                assert(cycle_colorset.has(color_idx as nat));
                let j = choose|j: int| 0 <= j < cycle@.len() && (#[trigger] cycle@[j]).index() == color_idx as nat;
                assert(has_color(expected_cycles()[cycle_id as int], color_idx as int));
            }
        }
        color_idx = color_idx + 1;
    }
    Ok(())
}

/// For each color pair i < j with no step from i to j in the face's cycle, the face across
/// both i and j is restricted to the cycles without a step from i to j.
pub fn propagate_non_vertex_adjacent_faces(
    memo: &MemoizedData,
    state: &mut TrailedState,
    face_id: usize,
    cycle_id: CycleId,
    depth: usize,
) -> (r: Result<(), PropagationFailure>)
    requires
        memo.wf(),
        old(state).wf(),
        face_id < NFACES,
        cycle_id < NCYCLES,
    ensures
        step_ok(old(state), final(state)),
        r is Ok ==> forall|i: int, j: int|
            0 <= i < j < NCOLORS ==> #[trigger] non_vertex_respected(old(state), face_id, cycle_id as int, i, j),
        depth <= MAX_PROPAGATION_DEPTH && (forall|i: int, j: int|
            0 <= i < j < NCOLORS ==> #[trigger] non_vertex_settled(old(state), face_id, cycle_id as int, i, j)) ==> r is Ok
            && TrailedState::unchanged(old(state), final(state)),
        configuration_kept(old(state), final(state)),
        possible_shrinks(old(state), final(state)),
    decreases depth_budget(depth), 2nat,
{
    let ghost start = *state;
    proof {
        lemma_kept_refl(&start);
        lemma_shrinks_refl(&start);
    }
    let ghost settled = depth <= MAX_PROPAGATION_DEPTH && forall|i: int, j: int|
        0 <= i < j < NCOLORS ==> #[trigger] non_vertex_settled(&start, face_id, cycle_id as int, i, j);
    proof {
        lemma_unchanged_refl(&start);
        TrailedState::lemma_unchanged_keeps_history(&start, state);
    }
    let cycle = memo.cycles.get(cycle_id);
    let cycle_len = cycle.len();
    let cycle_colors = cycle.colors();
    let face_colors = memo.faces.get_face(face_id).colors;
    let mut i: usize = 0;
    while i < NCOLORS
        invariant
            memo.wf(),
            face_id < NFACES,
            i <= NCOLORS,
            cycle_len == cycle_colors@.len(),
            3 <= cycle_len,
            face_colors.spec_bits() == face_id as u64,
            step_ok(&start, state),
            configuration_kept(&start, state),
            possible_shrinks(&start, state),
            cycle_colors@ == expected_cycles()[cycle_id as int],
            forall|a: int, b: int| 0 <= a < i && a < b < NCOLORS ==> #[trigger] non_vertex_respected(&start, face_id, cycle_id as int, a, b),
            settled ==> TrailedState::unchanged(&start, state),
        decreases NCOLORS - i,
    {
        let mut j: usize = i + 1;
        while j < NCOLORS
            invariant
                memo.wf(),
                face_id < NFACES,
                i < NCOLORS,
                i + 1 <= j <= NCOLORS,
                cycle_len == cycle_colors@.len(),
                3 <= cycle_len,
                face_colors.spec_bits() == face_id as u64,
                step_ok(&start, state),
                configuration_kept(&start, state),
                possible_shrinks(&start, state),
                cycle_colors@ == expected_cycles()[cycle_id as int],
                forall|a: int, b: int| 0 <= a < i && a < b < NCOLORS ==> #[trigger] non_vertex_respected(&start, face_id, cycle_id as int, a, b),
                forall|b: int| i < b < j ==> #[trigger] non_vertex_respected(&start, face_id, cycle_id as int, i as int, b),
                settled ==> TrailedState::unchanged(&start, state),
            decreases NCOLORS - j,
        {
            let mut has_edge_i_to_j = false;
            let mut edge_idx: usize = 0;
            while edge_idx < cycle_len
                invariant
                    edge_idx <= cycle_len,
                    cycle_len == cycle_colors@.len(),
                    3 <= cycle_len,
                    !has_edge_i_to_j,
                    forall|k: int| 0 <= k < edge_idx ==> !#[trigger] pair_at(cycle_colors@, k, i as int, j as int),
                decreases cycle_len - edge_idx,
            {
                let next_idx = (edge_idx + 1) % cycle_len;
                if cycle_colors[edge_idx].value() == i as u8 && cycle_colors[next_idx].value() == j as u8 {
                    has_edge_i_to_j = true;
                    break;
                }
                edge_idx = edge_idx + 1;
            }
            if !has_edge_i_to_j {
                let face_bits = face_colors.bits() as usize;
                let xor_mask = (1usize << i) | (1usize << j);
                let adjacent_face_id = face_bits ^ xor_mask;
                proof {
                    assert(adjacent_face_id < 64) by (bit_vector)
                        requires
                            face_bits < 64,
                            i < 6,
                            j < 6,
                            xor_mask == (1usize << i) | (1usize << j),
                            adjacent_face_id == face_bits ^ xor_mask;
                }
                let omitting_cycleset = memo.cycles_memo.get_cycles_omitting_color_pair(i, j);
                let ghost s1 = *state;
                proof {
                    if settled {
                        assert(face_bits == face_id);
                        assert(!has_pair(expected_cycles()[cycle_id as int], i as int, j as int));
                        assert(non_vertex_settled(&start, face_id, cycle_id as int, i as int, j as int));
                        lemma_unchanged_current(&start, &s1, adjacent_face_id as int);
                    }
                }
                let restricted = restrict_face_cycles(memo, state, adjacent_face_id, &omitting_cycleset, depth);
                proof {
                    if settled {
                        lemma_unchanged_trans(&start, &s1, state);
                    }
                    TrailedState::lemma_history_transitive(&start, &s1, state);
                    lemma_kept_trans(&start, &s1, state);
                    lemma_shrinks_trans(&start, &s1, state);
                    assert(face_bits == face_id);
                    assert(!has_pair(expected_cycles()[cycle_id as int], i as int, j as int));
                    if restricted is Ok {
                        if let Some(x) = current_cycle_of(&start, adjacent_face_id as int) {
                            assert(slot_value(s1.spec_state(), Target::CurrentCycle(adjacent_face_id as u16)) == slot_value(
                                start.spec_state(),
                                Target::CurrentCycle(adjacent_face_id as u16),
                            ));
                            assert(current_cycle_of(&s1, adjacent_face_id as int) == Some(x));
                            assert(omitting_cycleset.has(x as int));
                        }
                        assert(non_vertex_respected(&start, face_id, cycle_id as int, i as int, j as int));
                    }
                }
                if let Err(e) = restricted {
                    return Err(e);
                }
            } else {
                proof {
                    assert(pair_at(cycle_colors@, edge_idx as int, i as int, j as int));
                    assert(has_pair(expected_cycles()[cycle_id as int], i as int, j as int));
                }
            }
            j = j + 1;
        }
        i = i + 1;
    }
    Ok(())
}

} // verus!
