//! Counting the corners a curve needs: a triangle has at most three.

use crate::context::dynamic::{slot_value, target_valid, DynamicState};
use crate::state::edge::spec_decode;
use crate::context::memoized::MemoizedData;
use crate::geometry::color::Color;
use crate::geometry::constants::{NCOLORS, NFACES, NPOINTS};
use crate::geometry::corner::CornerWalkState;
use crate::geometry::cycle::CycleId;
use crate::geometry::edge::{CurveLink, EdgeRef};
use crate::geometry::vertex::Vertex;
use crate::memo::vertices::{count_valid_below, lemma_incoming_bound, vertex_entry_ok};
use crate::trail::{Target, TrailedState, TRAIL_MAX_SIZE};
use super::cascade::step_ok;
use super::errors::PropagationFailure;
use vstd::prelude::*;

verus! {

/// The most corners a curve drawn as a triangle can have.
pub const MAX_CORNERS: usize = 3;

/// The longest walk along a curve before giving up.
pub const MAX_ITERATIONS: usize = 1000;

/// Whether the edge of `color` on the inner face is connected in `s`.
pub open spec fn inner_edge_connected(s: DynamicState, color: int) -> bool {
    spec_decode(slot_value(s, Target::EdgeConnection((NFACES - 1) as u16, color as u16))) is Some
}

/// For a color whose edge on the inner face was connected in `start`: its closed curve,
/// walked from the inner face, needs at most MAX_CORNERS corners, and the color is marked
/// checked in `now`.
pub open spec fn curve_corners_ok(memo: &MemoizedData, start: DynamicState, now: DynamicState, color: int) -> bool {
    inner_edge_connected(start, color) ==> (corners_needed(memo, start, (NFACES - 1) as int, color) matches Some(n) ==> n
        <= MAX_CORNERS && slot_value(now, Target::ColorChecked(color as u16)) != 0)
}

/// For each color whose edge on the inner face is connected, walk its curve from the
/// inner face; a closed curve needing more than MAX_CORNERS corners fails.
pub fn check_corners_for_cycle(
    memo: &MemoizedData,
    state: &mut TrailedState,
    face_id: usize,
    cycle_id: CycleId,
    depth: usize,
) -> (r: Result<(), PropagationFailure>)
    requires
        memo.wf(),
        old(state).wf(),
    ensures
        step_ok(old(state), final(state)),
        r matches Err(e) ==> (e matches PropagationFailure::TooManyCorners { corner_count, max_allowed, .. } && corner_count
            > MAX_CORNERS && max_allowed == MAX_CORNERS) || e matches PropagationFailure::LimitReached { .. },
        r is Ok ==> forall|c: int| 0 <= c < NCOLORS ==> #[trigger] curve_corners_ok(memo, old(state).spec_state(), final(state).spec_state(), c),
        r matches Err(PropagationFailure::TooManyCorners { color, corner_count, depth: d, .. }) ==> {
            &&& color < NCOLORS
            &&& d == depth
            &&& inner_edge_connected(old(state).spec_state(), color as int)
            &&& corners_needed(memo, old(state).spec_state(), (NFACES - 1) as int, color as int) == Some(corner_count as nat)
        },
        r matches Err(PropagationFailure::LimitReached { depth: d }) ==> d == depth && old(state).spec_entries().len() + NCOLORS
            > TRAIL_MAX_SIZE,
{
    let ghost start = *state;
    proof {
        TrailedState::lemma_unchanged_keeps_history(&start, state);
    }
    let central_face_id = NFACES - 1;
    let mut color_idx: usize = 0;
    while color_idx < NCOLORS
        invariant
            memo.wf(),
            color_idx <= NCOLORS,
            step_ok(&start, state),
            forall|t: Target| target_valid(t) && t is EdgeConnection ==> #[trigger] slot_value(state.spec_state(), t) == slot_value(
                start.spec_state(),
                t,
            ),
            forall|c: int| 0 <= c < color_idx ==> #[trigger] curve_corners_ok(memo, start.spec_state(), state.spec_state(), c),
            state.spec_entries().len() <= start.spec_entries().len() + color_idx,
        decreases NCOLORS - color_idx,
    {
        let ghost ct = Target::EdgeConnection(central_face_id as u16, color_idx as u16);
        assert(target_valid(ct) && ct is EdgeConnection);
        assert(slot_value(state.spec_state(), ct) == slot_value(start.spec_state(), ct));
        let edge_to = state.state().faces.faces[central_face_id].edge_dynamic[color_idx].get_to();
        if let Some(start_link) = edge_to {
            let ghost s1 = *state;
            let counted = count_corners_on_curve(memo, state, central_face_id, color_idx, start_link, depth);
            proof {
                TrailedState::lemma_history_transitive(&start, &s1, state);
                lemma_walk_reads_edges(
                    memo,
                    s1.spec_state(),
                    start.spec_state(),
                    central_face_id as int,
                    color_idx as int,
                    central_face_id as int,
                    initial_outside(memo, central_face_id as int, color_idx as int),
                    Set::empty(),
                    0,
                    (MAX_ITERATIONS - 1) as nat,
                );
                assert forall|t: Target| target_valid(t) && t is EdgeConnection implies #[trigger] slot_value(state.spec_state(), t)
                    == slot_value(start.spec_state(), t) by {
                    assert(slot_value(state.spec_state(), t) == slot_value(s1.spec_state(), t));
                }
                assert forall|c: int| 0 <= c < color_idx implies #[trigger] curve_corners_ok(memo, start.spec_state(), state.spec_state(), c)
                    by {
                    let u = Target::ColorChecked(c as u16);
                    assert(target_valid(u) && u != Target::ColorChecked(color_idx as u16));
                    assert(curve_corners_ok(memo, start.spec_state(), s1.spec_state(), c));
                }
            }
            match counted {
                Err(e) => {
                    return Err(e);
                },
                Ok(Some(corner_count)) => {
                    if corner_count > MAX_CORNERS {
                        return Err(PropagationFailure::TooManyCorners { color: color_idx, corner_count, max_allowed: MAX_CORNERS, depth });
                    }
                },
                Ok(None) => {},
            }
            assert(curve_corners_ok(memo, start.spec_state(), state.spec_state(), color_idx as int));
        }
        color_idx = color_idx + 1;
    }
    Ok(())
}

/// One step of a walk along the curve of `color` from the edge of that color on `face`:
/// the color crossed at the vertex the edge is connected to, and the face on the other
/// side of that vertex where the curve goes on (the first of the two incoming edges of
/// the curve's color, at that vertex, that lies on another face). None when the edge is
/// not connected, the vertex is unknown or not on the curve, or no such edge exists.
#[verifier::opaque]
pub open spec fn corner_step(memo: &MemoizedData, s: DynamicState, face: int, color: int) -> Option<(nat, int)> {
    if !(0 <= face < NFACES && 0 <= color < NCOLORS) {
        None
    } else {
        match spec_decode(slot_value(s, Target::EdgeConnection(face as u16, color as u16))) {
            None => None,
            Some(link) => if link.vertex_id >= NPOINTS {
                None
            } else {
                let v = memo.vertices.spec_by_id()[link.vertex_id as int];
                if v.primary.index() != color && v.secondary.index() != color {
                    None
                } else {
                    let other: nat = if v.primary.index() == color { v.secondary.index() as nat } else { v.primary.index() as nat };
                    let first: int = if v.primary.index() == color { 0 } else { 2 };
                    match next_on_curve(v, first, face, color) {
                        None => None,
                        Some(next) => Some((other, next)),
                    }
                }
            },
        }
    }
}

/// What a step of the curve walk does: the edge of `color` on `face` is connected to a
/// vertex where `color` crosses another curve; the step processes that other curve's
/// color, never `color` itself, and goes on along an incoming edge of `color` at that
/// vertex that lies on another face.
pub proof fn lemma_corner_step_crosses(memo: &MemoizedData, s: DynamicState, face: int, color: int)
    requires
        memo.wf(),
    ensures
        corner_step(memo, s, face, color) matches Some((o, next)) ==> {
            let link = spec_decode(slot_value(s, Target::EdgeConnection(face as u16, color as u16)))->0;
            let v = memo.vertices.spec_by_id()[link.vertex_id as int];
            &&& spec_decode(slot_value(s, Target::EdgeConnection(face as u16, color as u16))) is Some
            &&& link.vertex_id < NPOINTS
            &&& o != color
            &&& (v.primary.index() == color && v.secondary.index() == o) || (v.secondary.index() == color && v.primary.index() == o)
            &&& next != face
            &&& exists|k: int| 0 <= k < 4 && #[trigger] v.incoming_edges@[k] % 6 == color && v.incoming_edges@[k] / 6 == next
        },
{
    reveal(corner_step);
    if let Some((o, next)) = corner_step(memo, s, face, color) {
        let link = spec_decode(slot_value(s, Target::EdgeConnection(face as u16, color as u16)))->0;
        super::vertices::lemma_table_vertex_colors(memo, link.vertex_id as int);
        let v = memo.vertices.spec_by_id()[link.vertex_id as int];
        let first: int = if v.primary.index() == color { 0 } else { 2 };
        let e0 = v.incoming_edges@[first] as int;
        if e0 % 6 == color && e0 / 6 != face {
            assert(v.incoming_edges@[first] % 6 == color && v.incoming_edges@[first] / 6 == next);
        } else {
            assert(v.incoming_edges@[first + 1] % 6 == color && v.incoming_edges@[first + 1] / 6 == next);
        }
    }
}

/// Of the two incoming edges at `v` from slot `first` on, the face of the first one of
/// `color` that lies on a face other than `face`.
pub open spec fn next_on_curve(v: Vertex, first: int, face: int, color: int) -> Option<int> {
    let e0 = v.incoming_edges@[first] as int;
    let e1 = v.incoming_edges@[first + 1] as int;
    if e0 % 6 == color && e0 / 6 != face {
        Some(e0 / 6)
    } else if e1 % 6 == color && e1 / 6 != face {
        Some(e1 / 6)
    } else {
        None
    }
}

/// The face and color parts of an edge id.
pub proof fn lemma_edge_id_parts(id: int, f: int, c: int)
    requires
        f * 6 + c == id,
        0 <= c < 6,
        0 <= f,
    ensures
        id / 6 == f,
        id % 6 == c,
{
    assert(id / 6 == f && id % 6 == c) by (nonlinear_arith)
        requires
            f * 6 + c == id,
            0 <= c < 6,
            0 <= f,
    ;
}

/// Crossing `o` on a walk: leaving the inside of a curve that was crossed inwards since
/// the last corner needs a corner, which clears the crossed set.
pub open spec fn corner_update(out: Set<nat>, passed: Set<nat>, count: nat, o: nat) -> (Set<nat>, Set<nat>, nat) {
    if out.contains(o) {
        if passed.contains(o) {
            (out.remove(o), Set::empty(), count + 1)
        } else {
            (out.remove(o), passed, count)
        }
    } else {
        (out.insert(o), passed.insert(o), count)
    }
}

/// The corners counted by a walk from `face` back to `start_face`, taking at most `fuel`
/// steps; None when a step cannot be taken or the fuel runs out first.
pub open spec fn corner_walk(
    memo: &MemoizedData,
    s: DynamicState,
    start_face: int,
    color: int,
    face: int,
    out: Set<nat>,
    passed: Set<nat>,
    count: nat,
    fuel: nat,
) -> Option<nat>
    decreases fuel,
{
    if fuel == 0 {
        None
    } else {
        match corner_step(memo, s, face, color) {
            None => None,
            Some((o, next)) => {
                let (out2, passed2, count2) = corner_update(out, passed, count, o);
                if next == start_face {
                    Some(count2)
                } else {
                    corner_walk(memo, s, start_face, color, next, out2, passed2, count2, (fuel - 1) as nat)
                }
            },
        }
    }
}

/// The colors a walk from `face` starts outside of: those the face lies outside of, other
/// than the curve walked.
pub open spec fn initial_outside(memo: &MemoizedData, face: int, color: int) -> Set<nat> {
    Set::new(|i: nat| i < NCOLORS && !memo.faces.spec_face(face).colors.has(i) && i != color)
}

/// The corners the closed curve of `color` needs, walked from its edge on `face`; None
/// when the curve is not closed within MAX_ITERATIONS - 1 steps.
pub open spec fn corners_needed(memo: &MemoizedData, s: DynamicState, face: int, color: int) -> Option<nat> {
    corner_walk(memo, s, face, color, face, initial_outside(memo, face, color), Set::empty(), 0, (MAX_ITERATIONS - 1) as nat)
}

/// A walk reads only the edge connections of the state.
pub proof fn lemma_walk_reads_edges(
    memo: &MemoizedData,
    a: DynamicState,
    b: DynamicState,
    start_face: int,
    color: int,
    face: int,
    out: Set<nat>,
    passed: Set<nat>,
    count: nat,
    fuel: nat,
)
    requires
        forall|t: Target| target_valid(t) && t is EdgeConnection ==> #[trigger] slot_value(a, t) == slot_value(b, t),
    ensures
        corner_walk(memo, a, start_face, color, face, out, passed, count, fuel) == corner_walk(
            memo,
            b,
            start_face,
            color,
            face,
            out,
            passed,
            count,
            fuel,
        ),
    decreases fuel,
{
    assert(corner_step(memo, a, face, color) == corner_step(memo, b, face, color)) by {
        reveal(corner_step);
        if 0 <= face < NFACES && 0 <= color < NCOLORS {
            let t = Target::EdgeConnection(face as u16, color as u16);
            assert(target_valid(t));
            assert(slot_value(a, t) == slot_value(b, t));
        }
    }
    if fuel > 0 {
        match corner_step(memo, a, face, color) {
            None => {},
            Some((o, next)) => {
                let (out2, passed2, count2) = corner_update(out, passed, count, o);
                lemma_walk_reads_edges(memo, a, b, start_face, color, next, out2, passed2, count2, (fuel - 1) as nat);
            },
        }
    }
}

/// Walk the curve of `color_idx` from the edge of that color on `start_face_id`, through
/// the vertices its edges are connected to, counting corners. None when the curve is not
/// closed yet (a missing connection or vertex, or more than MAX_ITERATIONS steps);
/// otherwise the number of corners, and the color is marked checked and completed the
/// first time its closed curve is found.
#[verifier::rlimit(40)]
pub fn count_corners_on_curve(
    memo: &MemoizedData,
    state: &mut TrailedState,
    start_face_id: usize,
    color_idx: usize,
    start_link: CurveLink,
    depth: usize,
) -> (r: Result<Option<usize>, PropagationFailure>)
    requires
        memo.wf(),
        old(state).wf(),
        start_face_id < NFACES,
        color_idx < NCOLORS,
    ensures
        step_ok(old(state), final(state)),
        r matches Err(e) ==> e matches PropagationFailure::LimitReached { .. },
        ({
            let needed = corners_needed(memo, old(state).spec_state(), start_face_id as int, color_idx as int);
            let checked = slot_value(old(state).spec_state(), Target::ColorChecked(color_idx as u16));
            let room = old(state).spec_entries().len() < TRAIL_MAX_SIZE;
            &&& needed is None ==> r == Ok::<Option<usize>, PropagationFailure>(None) && TrailedState::unchanged(old(state), final(state))
            &&& needed is Some && (checked != 0 || room) ==> (r matches Ok(Some(n)) && n == needed->0)
            &&& needed is Some && checked == 0 && !room ==> r == Err::<Option<usize>, PropagationFailure>(
                PropagationFailure::LimitReached { depth },
            )
            &&& !(needed is Some && checked == 0 && room) ==> TrailedState::unchanged(old(state), final(state))
            &&& needed is Some && checked == 0 && room ==> {
                &&& slot_value(final(state).spec_state(), Target::ColorChecked(color_idx as u16)) == 1
                &&& final(state).spec_entries().len() == old(state).spec_entries().len() + 1
                &&& final(state).spec_state().colors_completed_this_call == old(state).spec_state().colors_completed_this_call | (1u64
                    << color_idx as u64)
            }
        }),
        forall|u: Target| target_valid(u) && u != Target::ColorChecked(color_idx as u16) ==> #[trigger] slot_value(
            final(state).spec_state(),
            u,
        ) == slot_value(old(state).spec_state(), u),
{
    let ghost start = *state;
    let ghost s0 = start.spec_state();
    proof {
        TrailedState::lemma_unchanged_keeps_history(&start, state);
        memo.vertices.lemma_wf();
    }
    let mut corner_state = CornerWalkState::new();
    let start_face_colorset = memo.faces.get_face(start_face_id).colors;
    let mut c: usize = 0;
    while c < NCOLORS
        invariant
            c <= NCOLORS,
            color_idx < NCOLORS,
            start_face_colorset == memo.faces.spec_face(start_face_id as int).colors,
            forall|i: nat| #[trigger] corner_state.out.has(i) <==> (i < c && !start_face_colorset.has(i) && i != color_idx),
            forall|i: nat| !corner_state.passed.has(i),
            corner_state.corner_vertices@.len() == 0,
        decreases NCOLORS - c,
    {
        let color = Color::new(c as u8);
        let ghost before = corner_state.out;
        let ins = !start_face_colorset.contains(color) && c != color_idx;
        if ins {
            corner_state.out.insert(color);
        }
        proof {
            assert(color.index() == c);
            assert(ins == (!start_face_colorset.has(c as nat) && c != color_idx));
            assert(ins ==> forall|i: nat| corner_state.out.has(i) <==> (before.has(i) || i == c));
            assert(!ins ==> corner_state.out == before);
            assert forall|i: nat| #[trigger] corner_state.out.has(i) <==> (i < c + 1 && !start_face_colorset.has(i) && i != color_idx) by {
                assert(before.has(i) <==> (i < c && !start_face_colorset.has(i) && i != color_idx));
            }
        }
        c = c + 1;
    }
    proof {
        assert forall|i: nat| #[trigger] corner_state.out.has(i) <==> initial_outside(memo, start_face_id as int, color_idx as int).contains(i) by {
            assert(corner_state.out.has(i) <==> (i < c && !start_face_colorset.has(i) && i != color_idx));
        }
    }
    let ghost mut out_g: Set<nat> = initial_outside(memo, start_face_id as int, color_idx as int);
    let ghost mut passed_g: Set<nat> = Set::empty();
    let ghost mut count_g: nat = 0;
    let mut current_face_id = start_face_id;
    let current_color = color_idx;
    let mut iterations: usize = 0;
    loop
        invariant
            memo.wf(),
            current_face_id < NFACES,
            current_color == color_idx,
            color_idx < NCOLORS,
            start_face_id < NFACES,
            iterations < MAX_ITERATIONS,
            *state == start,
            s0 == start.spec_state(),
            start.wf(),
            step_ok(&start, state),
            forall|i: nat| corner_state.out.has(i) <==> out_g.contains(i),
            forall|i: nat| corner_state.passed.has(i) <==> passed_g.contains(i),
            corner_state.corner_vertices@.len() == count_g,
            count_g <= iterations,
            corners_needed(memo, s0, start_face_id as int, color_idx as int) == corner_walk(
                memo,
                s0,
                start_face_id as int,
                color_idx as int,
                current_face_id as int,
                out_g,
                passed_g,
                count_g,
                (MAX_ITERATIONS - 1 - iterations) as nat,
            ),
        decreases MAX_ITERATIONS - iterations,
    {
        iterations = iterations + 1;
        if iterations >= MAX_ITERATIONS {
            return Ok(None);
        }
        let edge_to = state.state().faces.faces[current_face_id].edge_dynamic[current_color].get_to();
        let ghost cf = current_face_id as int;
        let ghost step = corner_step(memo, s0, cf, color_idx as int);
        assert(edge_to == spec_decode(slot_value(s0, Target::EdgeConnection(cf as u16, color_idx as u16))));
        let link = match edge_to {
            Some(l) => l,
            None => {
                assert(step is None) by {
                    reveal(corner_step);
                }
                return Ok(None);
            },
        };
        let vertex = match memo.vertices.get_vertex_by_id(link.vertex_id) {
            Some(v) => v,
            None => {
                assert(step is None) by {
                    reveal(corner_step);
                }
                return Ok(None);
            },
        };
        proof {
            memo.vertices.lemma_vertex_by_id(link.vertex_id as int);
        }
        let ghost vn = choose|n: int| 0 <= n < 2304 && crate::memo::vertices::slot_valid_at(n) && count_valid_below(n) == link.vertex_id
            && #[trigger] memo.vertices.spec_entry(n) == Some(memo.vertices.spec_by_id()[link.vertex_id as int]);
        proof {
            assert(vertex_entry_ok(vn, memo.vertices.spec_entry(vn)));
            lemma_incoming_bound(vn);
        }
        let (other_color, is_primary) = if vertex.primary.as_usize() == color_idx {
            (vertex.secondary, true)
        } else if vertex.secondary.as_usize() == color_idx {
            (vertex.primary, false)
        } else {
            assert(step is None) by {
                reveal(corner_step);
            }
            return Ok(None);
        };
        corner_state.process_vertex(other_color, link.vertex_id);
        let ghost (o2, p2, c2) = corner_update(out_g, passed_g, count_g, other_color.index() as nat);
        proof {
            out_g = o2;
            passed_g = p2;
            count_g = c2;
        }
        let first_slot: usize = if is_primary {
            0
        } else {
            2
        };
        let e0 = EdgeRef::from_id(vertex.incoming_edges[first_slot]);
        proof {
            lemma_edge_id_parts(vertex.incoming_edges@[first_slot as int] as int, e0.face_id as int, e0.color_idx as int);
            lemma_edge_id_parts(
                vertex.incoming_edges@[first_slot + 1] as int,
                vertex.incoming_edges@[first_slot + 1] as int / 6,
                vertex.incoming_edges@[first_slot + 1] as int % 6,
            );
        }
        let next_edge = if e0.color_idx == current_color && e0.face_id != current_face_id {
            e0
        } else {
            let e1 = EdgeRef::from_id(vertex.incoming_edges[first_slot + 1]);
            proof {
                lemma_edge_id_parts(vertex.incoming_edges@[first_slot + 1] as int, e1.face_id as int, e1.color_idx as int);
            }
            if e1.color_idx == current_color && e1.face_id != current_face_id {
                e1
            } else {
                assert(next_on_curve(vertex, first_slot as int, cf, color_idx as int) is None);
                assert(step is None) by {
                    reveal(corner_step);
                }
                return Ok(None);
            }
        };
        assert(next_on_curve(vertex, first_slot as int, cf, color_idx as int) == Some(next_edge.face_id as int));
        assert(step == Some((other_color.index() as nat, next_edge.face_id as int))) by {
            reveal(corner_step);
        }
        let next_face_id = next_edge.face_id;
        let next_color_idx = next_edge.color_idx;
        if next_color_idx != color_idx {
            return Ok(None);
        }
        if next_face_id == start_face_id {
            if state.state().colors_checked[color_idx] == 0 {
                if !state.has_room(1) {
                    return Err(PropagationFailure::LimitReached { depth });
                }
                let ghost s1 = *state;
                state.mark_color_checked(color_idx);
                let ghost s2 = *state;
                state.add_completed_color(color_idx);
                proof {
                    TrailedState::lemma_history_transitive(&start, &s1, &s2);
                    TrailedState::lemma_unchanged_keeps_history(&s2, state);
                    TrailedState::lemma_history_transitive(&start, &s2, state);
                }
            }
            return Ok(Some(corner_state.corner_count()));
        }
        current_face_id = next_face_id;
    }
}

} // verus!
