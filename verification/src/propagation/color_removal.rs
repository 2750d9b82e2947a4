//! Removing a completed curve from the faces not yet assigned.

use crate::context::memoized::MemoizedData;
use crate::geometry::constants::{NCOLORS, NFACES};
use crate::memo::cycles::{expected_cycles, has_color};
use crate::geometry::constants::NCYCLES;
use crate::state::edge::spec_decode;
use crate::context::dynamic::{slot_value, target_valid};
use crate::geometry::cycle_set::popcount_words;
use crate::trail::{Target, TrailedState, TRAIL_MAX_SIZE};
use super::cascade::{and_words, current_cycle_of, depth_budget, possible_of, restrict_face_cycles, step_ok};
use super::errors::PropagationFailure;
use super::vertices::{configuration_kept, lemma_kept_refl, lemma_kept_trans};
use super::cascade::{lemma_shrinks_refl, lemma_shrinks_trans, possible_shrinks};
use vstd::prelude::*;

verus! {

/// Face `g` has no current cycle and its edge of the color has no connection.
pub open spec fn removal_candidate(s: &TrailedState, g: int, color: int) -> bool {
    &&& current_cycle_of(s, g) is None
    &&& spec_decode(s.spec_state().faces.faces@[g].edge_dynamic@[color].to_encoded) is None
}

/// Face `g` is the first face that is a candidate for removing the color.
pub open spec fn first_removal_candidate(s: &TrailedState, g: int, color: int) -> bool {
    &&& 0 <= g < NFACES
    &&& removal_candidate(s, g, color)
    &&& forall|h: int| 0 <= h < g ==> !#[trigger] removal_candidate(s, h, color)
}

/// Face `g` has a possible cycle without the color.
pub open spec fn can_avoid_color(s: &TrailedState, g: int, color: int) -> bool {
    exists|c: int| #[trigger] possible_of(s, g).has(c) && 0 <= c < NCYCLES && !has_color(expected_cycles()[c], color)
}

/// Face `g` has at least two possible cycles without the color.
pub open spec fn avoids_in_two_ways(memo: &MemoizedData, s: &TrailedState, g: int, color: int) -> bool {
    popcount_words(and_words(possible_of(s, g).spec_words(), memo.cycles_memo.spec_omitting_one_color(color).spec_words()), 7) >= 2
}

/// Once the curve of a color is complete, every face without a current cycle whose edge
/// of that color has no connection is restricted to the cycles without the color; if a
/// face cannot be, the curve is disconnected.
pub fn remove_completed_color_from_search(
    memo: &MemoizedData,
    state: &mut TrailedState,
    color_idx: usize,
) -> (r: Result<(), PropagationFailure>)
    requires
        memo.wf(),
        old(state).wf(),
        color_idx < NCOLORS,
    ensures
        step_ok(old(state), final(state)),
        r matches Err(e) ==> e == (PropagationFailure::DisconnectedCurve { color: color_idx, edges_visited: 0, total_edges: 0, depth: 0 }),
        forall|g: int| #[trigger] first_removal_candidate(old(state), g, color_idx as int) ==> {
            &&& r is Ok ==> can_avoid_color(old(state), g, color_idx as int)
            &&& !can_avoid_color(old(state), g, color_idx as int) ==> r == Err::<(), PropagationFailure>(
                PropagationFailure::DisconnectedCurve { color: color_idx, edges_visited: 0, total_edges: 0, depth: 0 },
            )
        },
        (forall|g: int| 0 <= g < NFACES && #[trigger] removal_candidate(old(state), g, color_idx as int) ==> avoids_in_two_ways(
            memo,
            old(state),
            g,
            color_idx as int,
        )) && old(state).spec_entries().len() + 8 * NFACES <= TRAIL_MAX_SIZE ==> r is Ok,
        configuration_kept(old(state), final(state)),
        possible_shrinks(old(state), final(state)),
    decreases depth_budget(0), 3nat,
{
    let ghost start = *state;
    proof {
        lemma_kept_refl(&start);
        lemma_shrinks_refl(&start);
    }
    let ghost easy = (forall|g: int| 0 <= g < NFACES && #[trigger] removal_candidate(&start, g, color_idx as int) ==> avoids_in_two_ways(
        memo,
        &start,
        g,
        color_idx as int,
    )) && start.spec_entries().len() + 8 * NFACES <= TRAIL_MAX_SIZE;
    proof {
        TrailedState::lemma_unchanged_keeps_history(&start, state);
    }
    let omitting_cycleset = memo.cycles_memo.get_cycles_omitting_one_color(color_idx);
    let mut face_id: usize = 0;
    while face_id < NFACES
        invariant
            memo.wf(),
            color_idx < NCOLORS,
            face_id <= NFACES,
            step_ok(&start, state),
            configuration_kept(&start, state),
            possible_shrinks(&start, state),
            (forall|h: int| 0 <= h < face_id ==> !#[trigger] removal_candidate(&start, h, color_idx as int)) ==> *state == start,
            forall|g: int| 0 <= g < face_id && #[trigger] first_removal_candidate(&start, g, color_idx as int) ==> can_avoid_color(
                &start,
                g,
                color_idx as int,
            ),
            easy ==> state.spec_entries().len() <= start.spec_entries().len() + 8 * face_id,
            easy ==> forall|h: int|
                face_id <= h < NFACES ==> #[trigger] removal_candidate(state, h, color_idx as int) == removal_candidate(
                    &start,
                    h,
                    color_idx as int,
                ),
            easy ==> forall|h: int| face_id <= h < NFACES ==> (#[trigger] possible_of(state, h)).spec_words() == possible_of(&start, h).spec_words(),
        decreases NFACES - face_id,
    {
        let face = state.state().faces.get(face_id);
        let unassigned = face.current_cycle().is_none();
        let unused = face.edge_dynamic[color_idx].get_to().is_none();
        if unassigned && unused {
            let ghost s1 = *state;
            proof {
                if easy {
                    assert(removal_candidate(&s1, face_id as int, color_idx as int));
                    assert(removal_candidate(&start, face_id as int, color_idx as int));
                    assert(avoids_in_two_ways(memo, &start, face_id as int, color_idx as int));
                }
            }
            let restricted = restrict_face_cycles(memo, state, face_id, &omitting_cycleset, 0);
            proof {
                TrailedState::lemma_history_transitive(&start, &s1, state);
                lemma_kept_trans(&start, &s1, state);
                lemma_shrinks_trans(&start, &s1, state);
                if easy {
                    assert forall|h: int| face_id < h < NFACES implies #[trigger] possible_of(state, h).spec_words() == possible_of(
                        &start,
                        h,
                    ).spec_words() by {
                        assert(possible_of(&s1, h).spec_words() == possible_of(&start, h).spec_words());
                        possible_of(state, h).lemma_words_len();
                        possible_of(&s1, h).lemma_words_len();
                        assert forall|w: int| 0 <= w < 7 implies possible_of(state, h).spec_words()[w] == possible_of(&s1, h).spec_words()[w] by {
                            let tw = Target::PossibleCycleWord(h as u16, w as u16);
                            assert(target_valid(tw));
                            assert(slot_value(state.spec_state(), tw) == slot_value(s1.spec_state(), tw));
                        }
                        assert(possible_of(state, h).spec_words() =~= possible_of(&s1, h).spec_words());
                    }
                    assert forall|h: int| face_id < h < NFACES implies #[trigger] removal_candidate(state, h, color_idx as int)
                        == removal_candidate(&start, h, color_idx as int) by {
                        assert(removal_candidate(&s1, h, color_idx as int) == removal_candidate(&start, h, color_idx as int));
                        let tc = Target::CurrentCycle(h as u16);
                        let te = Target::EdgeConnection(h as u16, color_idx as u16);
                        assert(target_valid(tc) && target_valid(te));
                        assert(slot_value(state.spec_state(), tc) == slot_value(s1.spec_state(), tc));
                        assert(slot_value(state.spec_state(), te) == slot_value(s1.spec_state(), te));
                    }
                }
            }
            proof {
                if restricted is Ok && first_removal_candidate(&start, face_id as int, color_idx as int) {
                    assert(s1 == start);
                    let c = choose|c: int| possible_of(&s1, face_id as int).has(c) && omitting_cycleset.has(c);
                    assert(can_avoid_color(&start, face_id as int, color_idx as int));
                }
            }
            if restricted.is_err() {
                return Err(PropagationFailure::DisconnectedCurve { color: color_idx, edges_visited: 0, total_edges: 0, depth: 0 });
            }
        }
        face_id = face_id + 1;
    }
    Ok(())
}

} // verus!
