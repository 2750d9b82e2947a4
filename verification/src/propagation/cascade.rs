//! The main propagation steps: assigning a cycle to a face, and restricting a face's
//! possible cycles (assigning the last one when a single cycle remains).

use crate::context::dynamic::{slot_value, target_valid};
use crate::context::memoized::MemoizedData;
use crate::geometry::bits::lemma_toggle_face_bits;
use crate::geometry::constants::{NCOLORS, NCYCLES, NFACES};
use crate::geometry::cycle::CycleId;
use crate::geometry::cycle_set::{popcount_words, CycleSet};
use crate::state::faces::spec_decode_index;
use crate::trail::{Target, TrailedState, TRAIL_MAX_SIZE};
use super::adjacency::{adjacency_step_respected, adjacency_step_settled, lemma_adjacency_respected_before, propagate_edge_adjacency};
use super::color_removal::remove_completed_color_from_search;
use super::errors::PropagationFailure;
use super::non_adjacency::{
    lemma_non_adjacent_respected_before, lemma_non_vertex_respected_before, non_adjacent_respected, non_adjacent_settled,
    non_vertex_respected, non_vertex_settled,
    propagate_non_adjacent_faces, propagate_non_vertex_adjacent_faces,
};
use crate::memo::cycles::expected_cycles;
use crate::memo::faces::spec_link;
use super::vertices::{vertices_settled, check_face_vertices, first_step_failure, first_step_over_limit, configuration_kept, lemma_configured_kept, lemma_kept_refl, lemma_kept_same, lemma_kept_trans, step_configured};
use vstd::prelude::*;

verus! {

/// The deepest cascade allowed.
pub const MAX_PROPAGATION_DEPTH: usize = 128;

/// The measure that bounds a cascade: how far `depth` is from the limit.
pub open spec fn depth_budget(depth: usize) -> nat {
    if depth <= 130 {
        (130 - depth) as nat
    } else {
        0
    }
}

/// Every face that has a current cycle in `a` has the same one in `b`.
pub open spec fn keeps_assigned(a: &TrailedState, b: &TrailedState) -> bool {
    forall|f: u16|
        f < NFACES && slot_value(a.spec_state(), Target::CurrentCycle(f)) != 0 ==> #[trigger] slot_value(
            b.spec_state(),
            Target::CurrentCycle(f),
        ) == slot_value(a.spec_state(), Target::CurrentCycle(f))
}

/// What every propagation step keeps: the state stays well formed, every earlier
/// checkpoint can still be rewound to, and no face loses or changes its current cycle.
pub open spec fn step_ok(a: &TrailedState, b: &TrailedState) -> bool {
    &&& b.wf()
    &&& TrailedState::history_kept(a, b)
    &&& keeps_assigned(a, b)
}

/// The current cycle of a face.
pub open spec fn current_cycle_of(s: &TrailedState, f: int) -> Option<u64> {
    spec_decode_index(s.spec_state().faces.faces@[f].current_cycle_encoded)
}

/// The words of two bitsets anded together.
pub open spec fn and_words(a: Seq<u64>, b: Seq<u64>) -> Seq<u64> {
    Seq::new(7, |k: int| a[k] & b[k])
}

/// The possible cycles of a face.
pub open spec fn possible_of(s: &TrailedState, f: int) -> CycleSet {
    s.spec_state().faces.faces@[f].possible_cycles
}

/// Every constraint of assigning `cycle` to face `f` already holds in `s`: no vertex of
/// the cycle is left to process, and every face related to it by edge adjacency,
/// non-adjacency or non-vertex-adjacency already has a current cycle that fits.
pub open spec fn choice_settled(s: &TrailedState, f: usize, cycle: int) -> bool {
    &&& vertices_settled(s.spec_state(), f as int, cycle)
    &&& forall|i: int| 0 <= i < expected_cycles()[cycle].len() ==> #[trigger] adjacency_step_settled(s, f, cycle, i)
    &&& forall|c: int| 0 <= c < NCOLORS ==> #[trigger] non_adjacent_settled(s, f, cycle, c)
    &&& forall|i: int, j: int| 0 <= i < j < NCOLORS ==> #[trigger] non_vertex_settled(s, f, cycle, i, j)
}

/// Assign `cycle_id` to `face_id` and propagate: the face's possible cycles become just
/// that cycle, its vertices are configured, its neighbours in the cycle of faces are set,
/// and the edge-adjacency, non-adjacency and non-vertex-adjacency constraints restrict the
/// related faces (cascading when one is left with a single cycle). At depth 0, curves
/// completed during the propagation are removed from the unassigned faces. It succeeds
/// when every constraint of the choice already holds (`choice_settled`) and the log has
/// room for the writes it makes.
#[verifier::rlimit(80)]
pub fn propagate_cycle_choice(
    memo: &MemoizedData,
    state: &mut TrailedState,
    face_id: usize,
    cycle_id: CycleId,
    depth: usize,
) -> (r: Result<(), PropagationFailure>)
    requires
        memo.wf(),
        old(state).wf(),
        face_id < NFACES,
        cycle_id < NCYCLES,
    ensures
        step_ok(old(state), final(state)),
        depth > MAX_PROPAGATION_DEPTH ==> r == Err::<(), PropagationFailure>(PropagationFailure::DepthExceeded { depth })
            && TrailedState::unchanged(old(state), final(state)),
        r is Ok ==> forall|i: int|
            0 <= i < expected_cycles()[cycle_id as int].len() ==> #[trigger] adjacency_step_respected(old(state), face_id, cycle_id as int, i),
        r is Ok ==> forall|c: int| 0 <= c < NCOLORS ==> #[trigger] non_adjacent_respected(old(state), face_id, cycle_id as int, c),
        r is Ok ==> forall|i: int, j: int|
            0 <= i < j < NCOLORS ==> #[trigger] non_vertex_respected(old(state), face_id, cycle_id as int, i, j),
        configuration_kept(old(state), final(state)),
        forall|g: int, c: int|
            0 <= g < NFACES && #[trigger] possible_of(final(state), g).has(c) ==> possible_of(old(state), g).has(c) || (g == face_id
                && c == cycle_id),
        r is Ok ==> forall|c: int| #[trigger] possible_of(final(state), face_id as int).has(c) ==> c == cycle_id,
        depth <= MAX_PROPAGATION_DEPTH && first_step_over_limit(old(state), face_id as int, cycle_id as int) && old(state).spec_entries().len()
            + 8 < TRAIL_MAX_SIZE ==> r == Err::<(), PropagationFailure>(first_step_failure(old(state), cycle_id as int, depth)),
        r is Ok ==> forall|i: int|
            0 <= i < expected_cycles()[cycle_id as int].len() ==> #[trigger] step_configured(
                final(state).spec_state(),
                face_id as int,
                expected_cycles()[cycle_id as int][i].index() as int,
                expected_cycles()[cycle_id as int][(i + 1) % expected_cycles()[cycle_id as int].len() as int].index() as int,
            ),
        depth <= MAX_PROPAGATION_DEPTH && choice_settled(old(state), face_id, cycle_id as int) && old(state).spec_entries().len() + 10
            <= TRAIL_MAX_SIZE ==> r is Ok,
    decreases depth_budget(depth), 4nat,
{
    let ghost start = *state;
    let ghost settled = depth <= MAX_PROPAGATION_DEPTH && choice_settled(&start, face_id, cycle_id as int)
        && start.spec_entries().len() + 10 <= TRAIL_MAX_SIZE;
    proof {
        lemma_kept_refl(&start);
        lemma_shrinks_refl(&start);
    }
    if depth > MAX_PROPAGATION_DEPTH {
        proof {
            TrailedState::lemma_unchanged_keeps_history(&start, state);
        }
        return Err(PropagationFailure::DepthExceeded { depth });
    }
    if depth == 0 {
        state.clear_completed_colors();
        proof {
            lemma_kept_same(&start, state);
            lemma_shrinks_same(&start, state);
            TrailedState::lemma_unchanged_keeps_history(&start, state);
        }
    }
    let mut singleton = CycleSet::empty();
    singleton.insert(cycle_id);
    let writes = state.possible_cycles_write_count(face_id, &singleton);
    proof {
        lemma_changed_words_at_most(possible_of(state, face_id as int).spec_words(), singleton.spec_words(), 7);
    }
    proof {
        if settled {
            assert(writes <= 8);
        }
    }
    if !state.has_room(writes) {
        return Err(PropagationFailure::LimitReached { depth });
    }
    let ghost s1 = *state;
    state.set_face_possible_cycles(face_id, singleton);
    let ghost s_single = *state;
    proof {
        TrailedState::lemma_history_transitive(&start, &s1, state);
        lemma_kept_same(&s1, state);
        lemma_kept_trans(&start, &s1, state);
        lemma_shrinks_refl(&s_single);
        assert forall|g: int, c: int| 0 <= g < NFACES && #[trigger] possible_of(&s_single, g).has(c) implies possible_of(&start, g).has(c)
            || (g == face_id && c == cycle_id) by {
            if g == face_id as int {
                assert(possible_of(&s_single, g).spec_words() == singleton.spec_words());
                assert(singleton.has(c));
            } else {
                assert forall|w: int| 0 <= w < 7 implies #[trigger] slot_value(s_single.spec_state(), Target::PossibleCycleWord(g as u16, w as u16))
                    == slot_value(s1.spec_state(), Target::PossibleCycleWord(g as u16, w as u16)) by {
                    assert(target_valid(Target::PossibleCycleWord(g as u16, w as u16)));
                }
                lemma_same_possible_at(&s1, &s_single, g);
                assert(possible_of(&s1, g).has(c));
            }
        }
    }
    let ghost s2 = *state;
    proof {
        if depth <= MAX_PROPAGATION_DEPTH && first_step_over_limit(&start, face_id as int, cycle_id as int) && start.spec_entries().len() + 8
            < TRAIL_MAX_SIZE {
            let c = expected_cycles()[cycle_id as int];
            let a = c[0].index() as int;
            let b = c[1].index() as int;
            crate::memo::cycles::lemma_expected_cycle_colors(cycle_id as int);
            let t1 = Target::EdgeConnection(face_id as u16, a as u16);
            let t3 = crate::propagation::vertices::pair_target(a, b);
            assert(target_valid(t1) && target_valid(t3));
            assert(slot_value(s2.spec_state(), t1) == slot_value(start.spec_state(), t1));
            assert(slot_value(s2.spec_state(), t3) == slot_value(start.spec_state(), t3));
            memo.vertices.lemma_wf();
            crate::memo::faces::lemma_spec_link_in_range(face_id as int, a, b);
            let t2 = Target::VertexProcessed(spec_link(face_id as int, a, b)->0.vertex_id as u16);
            assert(target_valid(t2));
            assert(slot_value(s2.spec_state(), t2) == slot_value(start.spec_state(), t2));
            assert(first_step_over_limit(&s2, face_id as int, cycle_id as int));
            assert(first_step_failure(&s2, cycle_id as int, depth) == first_step_failure(&start, cycle_id as int, depth));
        }
    }
    proof {
        if settled {
            crate::memo::cycles::lemma_expected_cycle_colors(cycle_id as int);
            memo.vertices.lemma_wf();
            let c = expected_cycles()[cycle_id as int];
            let n = c.len() as int;
            assert forall|i: int| 0 <= i < n implies #[trigger] step_configured(
                s2.spec_state(),
                face_id as int,
                c[i].index() as int,
                c[(i + 1) % n].index() as int,
            ) by {
                assert(step_configured(start.spec_state(), face_id as int, c[i].index() as int, c[(i + 1) % n].index() as int));
                lemma_configured_kept(&start, &s2, face_id as int, c[i].index() as int, c[(i + 1) % n].index() as int);
            }
            assert(vertices_settled(s2.spec_state(), face_id as int, cycle_id as int));
            assert(s2.spec_entries().len() <= start.spec_entries().len() + 8);
            assert(depth == 0 ==> s2.spec_state().colors_completed_this_call == 0);
        }
    }
    let checked = check_face_vertices(memo, state, face_id, cycle_id, depth);
    proof {
        TrailedState::lemma_history_transitive(&start, &s2, state);
        lemma_kept_trans(&start, &s2, state);
        lemma_shrinks_same(&s2, state);
        lemma_shrinks_trans(&s_single, &s2, state);
    }
    if let Err(e) = checked {
        return Err(e);
    }
    let ghost sc = *state;
    proof {
        lemma_kept_refl(&sc);
    }
    if let Some(next_face) = memo.faces.next_face_by_cycle(face_id, cycle_id) {
        if !state.has_room(1) {
            return Err(PropagationFailure::LimitReached { depth });
        }
        proof {
            next_face_in_range(memo, face_id, cycle_id, next_face);
        }
        let ghost s3 = *state;
        state.set_next_face(face_id, Some(next_face));
        proof {
            TrailedState::lemma_history_transitive(&start, &s3, state);
            lemma_kept_same(&s3, state);
            lemma_kept_trans(&start, &s3, state);
            lemma_shrinks_same(&s3, state);
            lemma_shrinks_trans(&s_single, &s3, state);
            lemma_kept_trans(&sc, &s3, state);
        }
    }
    if let Some(prev_face) = memo.faces.previous_face_by_cycle(face_id, cycle_id) {
        if !state.has_room(1) {
            return Err(PropagationFailure::LimitReached { depth });
        }
        proof {
            previous_face_in_range(memo, face_id, cycle_id, prev_face);
        }
        let ghost s4 = *state;
        state.set_previous_face(face_id, Some(prev_face));
        proof {
            TrailedState::lemma_history_transitive(&start, &s4, state);
            lemma_kept_same(&s4, state);
            lemma_kept_trans(&start, &s4, state);
            lemma_shrinks_same(&s4, state);
            lemma_shrinks_trans(&s_single, &s4, state);
            lemma_kept_trans(&sc, &s4, state);
        }
    }
    let ghost s5 = *state;
    proof {
        if settled {
            assert(s5.spec_entries().len() <= start.spec_entries().len() + 10);
            assert(depth == 0 ==> s5.spec_state().colors_completed_this_call == 0);
            assert forall|i: int| 0 <= i < expected_cycles()[cycle_id as int].len() implies #[trigger] adjacency_step_settled(
                &s5,
                face_id,
                cycle_id as int,
                i,
            ) by {
                lemma_adjacency_respected_before(memo, &start, &s5, face_id, cycle_id as int, i);
            }
        }
    }
    let adjacency = propagate_edge_adjacency(memo, state, face_id, cycle_id, depth);
    proof {
        TrailedState::lemma_history_transitive(&start, &s5, state);
        lemma_kept_trans(&start, &s5, state);
        lemma_kept_trans(&sc, &s5, state);
        lemma_shrinks_trans(&s_single, &s5, state);
    }
    if let Err(e) = adjacency {
        return Err(e);
    }
    let ghost s6 = *state;
    proof {
        if settled {
            assert forall|c: int| 0 <= c < NCOLORS implies #[trigger] non_adjacent_settled(&s6, face_id, cycle_id as int, c) by {
                lemma_non_adjacent_respected_before(&start, &s6, face_id, cycle_id as int, c);
            }
        }
    }
    let non_adjacent = propagate_non_adjacent_faces(memo, state, face_id, cycle_id, depth);
    proof {
        TrailedState::lemma_history_transitive(&start, &s6, state);
        lemma_kept_trans(&start, &s6, state);
        lemma_kept_trans(&sc, &s6, state);
        lemma_shrinks_trans(&s_single, &s6, state);
    }
    if let Err(e) = non_adjacent {
        return Err(e);
    }
    let ghost s7 = *state;
    proof {
        if settled {
            assert forall|i: int, j: int| 0 <= i < j < NCOLORS implies #[trigger] non_vertex_settled(&s7, face_id, cycle_id as int, i, j) by {
                lemma_non_vertex_respected_before(&start, &s7, face_id, cycle_id as int, i, j);
            }
        }
    }
    let non_vertex_adjacent = propagate_non_vertex_adjacent_faces(memo, state, face_id, cycle_id, depth);
    proof {
        TrailedState::lemma_history_transitive(&start, &s7, state);
        lemma_kept_trans(&start, &s7, state);
        lemma_kept_trans(&sc, &s7, state);
        lemma_shrinks_trans(&s_single, &s7, state);
    }
    if let Err(e) = non_vertex_adjacent {
        return Err(e);
    }
    proof {
        assert forall|i: int| 0 <= i < expected_cycles()[cycle_id as int].len() implies #[trigger] adjacency_step_respected(
            &start,
            face_id,
            cycle_id as int,
            i,
        ) by {
            lemma_adjacency_respected_before(memo, &start, &s5, face_id, cycle_id as int, i);
        }
        assert forall|c: int| 0 <= c < NCOLORS implies #[trigger] non_adjacent_respected(&start, face_id, cycle_id as int, c) by {
            lemma_non_adjacent_respected_before(&start, &s6, face_id, cycle_id as int, c);
        }
        assert forall|i: int, j: int| 0 <= i < j < NCOLORS implies #[trigger] non_vertex_respected(&start, face_id, cycle_id as int, i, j) by {
            lemma_non_vertex_respected_before(&start, &s7, face_id, cycle_id as int, i, j);
        }
    }
    proof {
        if settled {
            assert(depth == 0 ==> state.spec_state().colors_completed_this_call == 0);
        }
    }
    if depth == 0 && state.state().colors_completed_this_call != 0 {
        let mut color_idx: usize = 0;
        while color_idx < NCOLORS
            invariant
                memo.wf(),
                depth == 0,
                color_idx <= NCOLORS,
                step_ok(&start, state),
                configuration_kept(&start, state),
                configuration_kept(&sc, state),
                possible_shrinks(&s_single, state),
            decreases NCOLORS - color_idx,
        {
            if (state.state().colors_completed_this_call & (1u64 << color_idx as u64)) != 0 {
                let ghost s8 = *state;
                let removed = remove_completed_color_from_search(memo, state, color_idx);
                proof {
                    TrailedState::lemma_history_transitive(&start, &s8, state);
                    lemma_kept_trans(&start, &s8, state);
                    lemma_kept_trans(&sc, &s8, state);
                    lemma_shrinks_trans(&s_single, &s8, state);
                }
                if let Err(e) = removed {
                    return Err(e);
                }
            }
            color_idx = color_idx + 1;
        }
    }
    proof {
        memo.vertices.lemma_wf();
        crate::memo::cycles::lemma_expected_cycle_colors(cycle_id as int);
        let c = expected_cycles()[cycle_id as int];
        let n = c.len() as int;
        assert forall|i: int| 0 <= i < n implies #[trigger] step_configured(
            state.spec_state(),
            face_id as int,
            c[i].index() as int,
            c[(i + 1) % n].index() as int,
        ) by {
            assert(0 <= (i + 1) % n < n);
            assert(step_configured(sc.spec_state(), face_id as int, c[i].index() as int, c[(i + 1) % n].index() as int));
            lemma_configured_kept(&sc, state, face_id as int, c[i].index() as int, c[(i + 1) % n].index() as int);
        }
        assert forall|x: int| #[trigger] possible_of(state, face_id as int).has(x) implies x == cycle_id by {
            assert(possible_of(&s_single, face_id as int).has(x));
            assert(possible_of(&s_single, face_id as int).spec_words() == singleton.spec_words());
            assert(singleton.has(x));
        }
    }
    Ok(())
}

proof fn next_face_in_range(memo: &MemoizedData, face_id: usize, cycle_id: CycleId, n: usize)
    requires
        memo.wf(),
        face_id < NFACES,
        cycle_id < NCYCLES,
        crate::memo::faces::next_face_ok(face_id as int, cycle_id as int, n as int),
    ensures
        n < NFACES,
{
    crate::memo::faces::lemma_crossing_face_bound(face_id as int, cycle_id as int);
}

proof fn previous_face_in_range(memo: &MemoizedData, face_id: usize, cycle_id: CycleId, p: usize)
    requires
        memo.wf(),
        face_id < NFACES,
        cycle_id < NCYCLES,
        crate::memo::faces::previous_face_ok(face_id as int, cycle_id as int, p as int),
    ensures
        p < NFACES,
{
    crate::memo::faces::lemma_crossing_face_bound(face_id as int, cycle_id as int);
}

/// Restrict a face to the cycles in `allowed_cycles`. A face with a current cycle only
/// checks that the cycle is allowed. Otherwise its possible cycles become their
/// intersection with `allowed_cycles`; when a single cycle remains it is assigned and
/// propagated one level deeper.
pub fn restrict_face_cycles(
    memo: &MemoizedData,
    state: &mut TrailedState,
    face_id: usize,
    allowed_cycles: &CycleSet,
    depth: usize,
) -> (r: Result<(), PropagationFailure>)
    requires
        memo.wf(),
        old(state).wf(),
        face_id < NFACES,
    ensures
        step_ok(old(state), final(state)),
        depth > MAX_PROPAGATION_DEPTH ==> r == Err::<(), PropagationFailure>(PropagationFailure::DepthExceeded { depth })
            && TrailedState::unchanged(old(state), final(state)),
        depth <= MAX_PROPAGATION_DEPTH ==> (current_cycle_of(old(state), face_id as int) matches Some(a) ==> {
            &&& r == if allowed_cycles.has(a as int) {
                Ok::<(), PropagationFailure>(())
            } else {
                Err(PropagationFailure::ConflictingConstraints { face_id, assigned_cycle: a, depth })
            }
            &&& TrailedState::unchanged(old(state), final(state))
        }),
        depth <= MAX_PROPAGATION_DEPTH && current_cycle_of(old(state), face_id as int) is None
            && (forall|c: int| !(possible_of(old(state), face_id as int).has(c) && allowed_cycles.has(c))) ==> {
            &&& r == Err::<(), PropagationFailure>(PropagationFailure::NoMatchingCycles { face_id, depth })
            &&& TrailedState::unchanged(old(state), final(state))
        },
        depth <= MAX_PROPAGATION_DEPTH && current_cycle_of(old(state), face_id as int) is None && r is Ok ==> (exists|c: int|
            possible_of(old(state), face_id as int).has(c) && allowed_cycles.has(c)),
        current_cycle_of(old(state), face_id as int) is None && r is Ok && popcount_words(
            and_words(possible_of(old(state), face_id as int).spec_words(), allowed_cycles.spec_words()),
            7,
        ) == 1 && (exists|c: int| 0 <= c < NCYCLES && possible_of(old(state), face_id as int).has(c) && allowed_cycles.has(c))
            ==> (current_cycle_of(final(state), face_id as int) matches Some(a) && possible_of(old(state), face_id as int).has(
            a as int,
        ) && allowed_cycles.has(a as int)),
        depth <= MAX_PROPAGATION_DEPTH && current_cycle_of(old(state), face_id as int) is None && popcount_words(
            and_words(possible_of(old(state), face_id as int).spec_words(), allowed_cycles.spec_words()),
            7,
        ) >= 2 && old(state).spec_entries().len() + 8 <= TRAIL_MAX_SIZE ==> {
            &&& r is Ok
            &&& possible_of(final(state), face_id as int).spec_words() == and_words(
                possible_of(old(state), face_id as int).spec_words(),
                allowed_cycles.spec_words(),
            )
            &&& current_cycle_of(final(state), face_id as int) is None
            &&& forall|u: Target|
                target_valid(u) && !(u matches Target::PossibleCycleWord(g, _) && g == face_id) && u != Target::CycleCount(face_id as u16)
                    ==> #[trigger] slot_value(final(state).spec_state(), u) == slot_value(old(state).spec_state(), u)
            &&& final(state).spec_entries().len() <= old(state).spec_entries().len() + 8
        },
        configuration_kept(old(state), final(state)),
        possible_shrinks(old(state), final(state)),
    decreases depth_budget(depth), 1nat,
{
    let ghost start = *state;
    proof {
        lemma_kept_refl(&start);
        lemma_shrinks_refl(&start);
    }
    if depth > MAX_PROPAGATION_DEPTH {
        proof {
            TrailedState::lemma_unchanged_keeps_history(&start, state);
        }
        return Err(PropagationFailure::DepthExceeded { depth });
    }
    let current_cycle = state.state().faces.faces[face_id].current_cycle();
    if let Some(assigned_cycle) = current_cycle {
        proof {
            TrailedState::lemma_unchanged_keeps_history(&start, state);
        }
        if !allowed_cycles.contains_any(assigned_cycle) {
            return Err(PropagationFailure::ConflictingConstraints { face_id, assigned_cycle, depth });
        }
        return Ok(());
    }
    let old_cycles = state.state().faces.faces[face_id].possible_cycles;
    let new_cycles = old_cycles.intersection(allowed_cycles);
    if new_cycles.is_empty() {
        proof {
            TrailedState::lemma_unchanged_keeps_history(&start, state);
            new_cycles.lemma_words_len();
            assert(new_cycles.spec_words() =~= and_words(old_cycles.spec_words(), allowed_cycles.spec_words()));
            lemma_popcount_zero_words(new_cycles.spec_words(), 7);
        }
        return Err(PropagationFailure::NoMatchingCycles { face_id, depth });
    }
    proof {
        lemma_nonempty_member(new_cycles);
    }
    if !old_cycles.same_words(&new_cycles) {
        let writes = state.possible_cycles_write_count(face_id, &new_cycles);
        proof {
            lemma_changed_words_at_most(
                possible_of(state, face_id as int).spec_words(),
                new_cycles.spec_words(),
                7,
            );
        }
        if !state.has_room(writes) {
            proof {
                TrailedState::lemma_unchanged_keeps_history(&start, state);
            }
            return Err(PropagationFailure::LimitReached { depth });
        }
        state.set_face_possible_cycles(face_id, new_cycles);
        proof {
            lemma_kept_same(&start, state);
            assert forall|g: int, c: int| 0 <= g < NFACES && #[trigger] possible_of(state, g).has(c) implies possible_of(&start, g).has(c) by {
                if g == face_id as int {
                    assert(possible_of(state, g).spec_words() == new_cycles.spec_words());
                    assert(new_cycles.has(c));
                } else {
                    assert forall|w: int| 0 <= w < 7 implies #[trigger] slot_value(state.spec_state(), Target::PossibleCycleWord(g as u16, w as u16))
                        == slot_value(start.spec_state(), Target::PossibleCycleWord(g as u16, w as u16)) by {
                        assert(target_valid(Target::PossibleCycleWord(g as u16, w as u16)));
                    }
                    lemma_same_possible_at(&start, state, g);
                }
            }
            assert(target_valid(Target::CurrentCycle(face_id as u16)));
            assert(slot_value(state.spec_state(), Target::CurrentCycle(face_id as u16)) == slot_value(
                start.spec_state(),
                Target::CurrentCycle(face_id as u16),
            ));
        }
    } else {
        proof {
            TrailedState::lemma_unchanged_keeps_history(&start, state);
        }
    }
    proof {
        new_cycles.lemma_words_len();
        assert(new_cycles.spec_words() =~= and_words(old_cycles.spec_words(), allowed_cycles.spec_words()));
        assert(possible_of(state, face_id as int).spec_words() == new_cycles.spec_words());
    }
    if new_cycles.len() == 1 {
        let ids = new_cycles.iter();
        proof {
            if exists|c: int| 0 <= c < NCYCLES && possible_of(&start, face_id as int).has(c) && allowed_cycles.has(c) {
                let c = choose|c: int| 0 <= c < NCYCLES && possible_of(&start, face_id as int).has(c) && allowed_cycles.has(c);
                assert(new_cycles.has(c));
            }
        }
        if ids.len() > 0 {
            let forced_cycle = ids[0];
            if depth + 1 > MAX_PROPAGATION_DEPTH {
                return Err(PropagationFailure::DepthExceeded { depth: depth + 1 });
            }
            if !state.has_room(1) {
                return Err(PropagationFailure::LimitReached { depth });
            }
            let ghost s1 = *state;
            state.set_face_cycle(face_id, forced_cycle);
            proof {
                TrailedState::lemma_history_transitive(&start, &s1, state);
                lemma_kept_same(&s1, state);
                lemma_kept_trans(&start, &s1, state);
                lemma_shrinks_same(&s1, state);
                lemma_shrinks_trans(&start, &s1, state);
                lemma_same_possible(&s1, state, face_id as int);
            }
            let ghost s2 = *state;
            let result = propagate_cycle_choice(memo, state, face_id, forced_cycle, depth + 1);
            proof {
                TrailedState::lemma_history_transitive(&start, &s2, state);
                lemma_kept_trans(&start, &s2, state);
                assert(new_cycles.has(forced_cycle as int));
                assert(possible_of(&s2, face_id as int).spec_words() == new_cycles.spec_words());
                assert(possible_shrinks(&s2, state));
                lemma_shrinks_trans(&start, &s2, state);
                assert(slot_value(state.spec_state(), Target::CurrentCycle(face_id as u16)) == slot_value(
                    s2.spec_state(),
                    Target::CurrentCycle(face_id as u16),
                ));
            }
            if let Err(e) = result {
                return Err(e);
            }
        }
    }
    Ok(())
}

/// Every face's possible cycles in `b` were possible in `a`.
pub open spec fn possible_shrinks(a: &TrailedState, b: &TrailedState) -> bool {
    forall|g: int, c: int| 0 <= g < NFACES && #[trigger] possible_of(b, g).has(c) ==> possible_of(a, g).has(c)
}

pub proof fn lemma_shrinks_refl(a: &TrailedState)
    ensures
        possible_shrinks(a, a),
{
}

pub proof fn lemma_shrinks_trans(a: &TrailedState, b: &TrailedState, c: &TrailedState)
    requires
        possible_shrinks(a, b),
        possible_shrinks(b, c),
    ensures
        possible_shrinks(a, c),
{
    assert forall|g: int, x: int| 0 <= g < NFACES && #[trigger] possible_of(c, g).has(x) implies possible_of(a, g).has(x) by {
        assert(possible_of(b, g).has(x));
    }
}

/// A face whose possible-cycle words are the same in `a` and `b` has the same possible
/// cycles.
pub proof fn lemma_same_possible(a: &TrailedState, b: &TrailedState, g: int)
    requires
        0 <= g < NFACES,
        forall|u: Target| target_valid(u) && u is PossibleCycleWord ==> #[trigger] slot_value(b.spec_state(), u) == slot_value(
            a.spec_state(),
            u,
        ),
    ensures
        possible_of(b, g).spec_words() == possible_of(a, g).spec_words(),
{
    possible_of(a, g).lemma_words_len();
    possible_of(b, g).lemma_words_len();
    assert forall|w: int| 0 <= w < 7 implies possible_of(b, g).spec_words()[w] == possible_of(a, g).spec_words()[w] by {
        let t = Target::PossibleCycleWord(g as u16, w as u16);
        assert(target_valid(t));
        assert(slot_value(b.spec_state(), t) == slot_value(a.spec_state(), t));
    }
    assert(possible_of(b, g).spec_words() =~= possible_of(a, g).spec_words());
}

/// A face whose possible-cycle word slots are the same in `a` and `b` has the same
/// possible cycles.
pub proof fn lemma_same_possible_at(a: &TrailedState, b: &TrailedState, g: int)
    requires
        0 <= g < NFACES,
        forall|w: int| 0 <= w < 7 ==> #[trigger] slot_value(b.spec_state(), Target::PossibleCycleWord(g as u16, w as u16)) == slot_value(
            a.spec_state(),
            Target::PossibleCycleWord(g as u16, w as u16),
        ),
    ensures
        possible_of(b, g).spec_words() == possible_of(a, g).spec_words(),
{
    possible_of(a, g).lemma_words_len();
    possible_of(b, g).lemma_words_len();
    assert forall|w: int| 0 <= w < 7 implies possible_of(b, g).spec_words()[w] == possible_of(a, g).spec_words()[w] by {
        assert(slot_value(b.spec_state(), Target::PossibleCycleWord(g as u16, w as u16)) == slot_value(
            a.spec_state(),
            Target::PossibleCycleWord(g as u16, w as u16),
        ));
    }
    assert(possible_of(b, g).spec_words() =~= possible_of(a, g).spec_words());
}

/// States with the same possible-cycle words shrink nothing.
pub proof fn lemma_shrinks_same(a: &TrailedState, b: &TrailedState)
    requires
        forall|u: Target| target_valid(u) && u is PossibleCycleWord ==> #[trigger] slot_value(b.spec_state(), u) == slot_value(
            a.spec_state(),
            u,
        ),
    ensures
        possible_shrinks(a, b),
{
    assert forall|g: int, x: int| 0 <= g < NFACES && #[trigger] possible_of(b, g).has(x) implies possible_of(a, g).has(x) by {
        lemma_same_possible(a, b, g);
    }
}

/// A face with a current cycle in `a` has the same one in any later state that keeps
/// assigned faces.
pub proof fn lemma_kept_current(a: &TrailedState, b: &TrailedState, g: int)
    requires
        keeps_assigned(a, b),
        0 <= g < NFACES,
        current_cycle_of(a, g) is Some,
    ensures
        current_cycle_of(b, g) == current_cycle_of(a, g),
{
    let f = g as u16;
    assert(slot_value(b.spec_state(), Target::CurrentCycle(f)) == slot_value(a.spec_state(), Target::CurrentCycle(f)));
}

/// Unchanged is transitive.
pub proof fn lemma_unchanged_trans(a: &TrailedState, b: &TrailedState, c: &TrailedState)
    requires
        TrailedState::unchanged(a, b),
        TrailedState::unchanged(b, c),
    ensures
        TrailedState::unchanged(a, c),
{
    assert forall|t: Target| target_valid(t) implies #[trigger] slot_value(c.spec_state(), t) == slot_value(a.spec_state(), t) by {
        assert(slot_value(b.spec_state(), t) == slot_value(a.spec_state(), t));
    }
}

/// A state is unchanged from itself.
pub proof fn lemma_unchanged_refl(a: &TrailedState)
    ensures
        TrailedState::unchanged(a, a),
{
}

/// Unchanged states give each face the same current cycle.
pub proof fn lemma_unchanged_current(a: &TrailedState, b: &TrailedState, f: int)
    requires
        TrailedState::unchanged(a, b),
        0 <= f < NFACES,
    ensures
        current_cycle_of(a, f) == current_cycle_of(b, f),
{
    let t = Target::CurrentCycle(f as u16);
    assert(target_valid(t));
    assert(slot_value(b.spec_state(), t) == slot_value(a.spec_state(), t));
}

/// Words that are all zero hold no bit.
proof fn lemma_popcount_zero_words(w: Seq<u64>, k: int)
    requires
        forall|j: int| 0 <= j < k ==> #[trigger] w[j] == 0,
    ensures
        popcount_words(w, k) == 0,
    decreases k,
{
    if k > 0 {
        lemma_popcount_zero_words(w, k - 1);
        assert(w[k - 1] == 0);
        assert(crate::geometry::bits::popcount(0u64) == 0);
    }
}

/// At most `k` of the first `k` words differ.
proof fn lemma_changed_words_at_most(a: Seq<u64>, b: Seq<u64>, k: int)
    requires
        k >= 0,
    ensures
        crate::trail::changed_words(a, b, k) <= k,
    decreases k,
{
    if k > 0 {
        lemma_changed_words_at_most(a, b, k - 1);
    }
}

/// A set with a nonzero word has a member.
proof fn lemma_nonempty_member(s: CycleSet)
    requires
        exists|k: int| 0 <= k < 7 && #[trigger] s.spec_words()[k] != 0,
    ensures
        exists|c: int| s.has(c),
{
    let k = choose|k: int| 0 <= k < 7 && #[trigger] s.spec_words()[k] != 0;
    let w = s.spec_words()[k];
    let i = crate::geometry::bits::lemma_nonzero_has_bit(w);
    assert(s.has(k * 64 + i as int));
}

/// A face other than `f` keeps its current cycle when only `f`'s changes.
proof fn lemma_current_other_face(a: &TrailedState, b: &TrailedState, f: usize, g: usize)
    requires
        f < NFACES,
        g < NFACES,
        g != f,
        forall|u: Target| target_valid(u) && u != Target::CurrentCycle(f as u16) ==> #[trigger] slot_value(b.spec_state(), u) == slot_value(
            a.spec_state(),
            u,
        ),
    ensures
        current_cycle_of(b, g as int) == current_cycle_of(a, g as int),
{
    assert(target_valid(Target::CurrentCycle(g as u16)));
    assert(slot_value(b.spec_state(), Target::CurrentCycle(g as u16)) == slot_value(a.spec_state(), Target::CurrentCycle(g as u16)));
}

/// Whether a choice for face `f` is settled does not depend on `f`'s own current cycle.
pub proof fn lemma_choice_settled_frame(memo: &MemoizedData, a: &TrailedState, b: &TrailedState, f: usize, cycle: int)
    requires
        memo.wf(),
        f < NFACES,
        0 <= cycle < NCYCLES,
        forall|u: Target| target_valid(u) && u != Target::CurrentCycle(f as u16) ==> #[trigger] slot_value(b.spec_state(), u) == slot_value(
            a.spec_state(),
            u,
        ),
        choice_settled(a, f, cycle),
    ensures
        choice_settled(b, f, cycle),
{
    memo.vertices.lemma_wf();
    crate::memo::cycles::lemma_expected_cycle_colors(cycle);
    crate::memo::cycle_laws::lemma_expected_cycle_canonical(cycle);
    let c = expected_cycles()[cycle];
    let n = c.len() as int;
    assert forall|i: int| 0 <= i < n implies #[trigger] step_configured(
        b.spec_state(),
        f as int,
        c[i].index() as int,
        c[(i + 1) % n].index() as int,
    ) by {
        let x = c[i].index() as int;
        let y = c[(i + 1) % n].index() as int;
        assert(0 <= (i + 1) % n < n);
        assert(step_configured(a.spec_state(), f as int, x, y));
        crate::memo::faces::lemma_spec_link_in_range(f as int, x, y);
        assert(target_valid(Target::EdgeConnection(f as u16, x as u16)));
        if let Some(l) = spec_link(f as int, x, y) {
            assert(target_valid(Target::VertexProcessed(l.vertex_id as u16)));
        }
    }
    assert forall|i: int| 0 <= i < n implies #[trigger] adjacency_step_settled(b, f, cycle, i) by {
        let x = c[i].index() as usize;
        let j = (i + 1) % n;
        let y = c[j].index() as usize;
        assert(0 <= j < n);
        assert(adjacency_step_settled(a, f, cycle, i));
        assert(i != j) by (nonlinear_arith)
            requires
                0 <= i < n,
                n >= 3,
                j == (i + 1) % n,
        ;
        if i < j {
            assert(c[i] != c[j]);
        } else {
            assert(c[j] != c[i]);
        }
        assert(x != y) by {
            c[i].lemma_from_index(c[i].index());
            c[j].lemma_from_index(c[j].index());
        }
        lemma_toggle_face_bits(f, x, y);
        lemma_current_other_face(a, b, f, f ^ (1usize << x) ^ (1usize << y));
        lemma_current_other_face(a, b, f, f ^ (1usize << x));
    }
    assert forall|k: int| 0 <= k < NCOLORS implies #[trigger] non_adjacent_settled(b, f, cycle, k) by {
        assert(non_adjacent_settled(a, f, cycle, k));
        lemma_toggle_face_bits(f, k as usize, k as usize);
        lemma_current_other_face(a, b, f, f ^ (1usize << k as usize));
    }
    assert forall|i: int, j: int| 0 <= i < j < NCOLORS implies #[trigger] non_vertex_settled(b, f, cycle, i, j) by {
        assert(non_vertex_settled(a, f, cycle, i, j));
        lemma_toggle_face_bits(f, i as usize, j as usize);
        lemma_current_other_face(a, b, f, f ^ ((1usize << i as usize) | (1usize << j as usize)));
    }
}

} // verus!
