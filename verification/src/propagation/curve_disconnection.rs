//! Disconnected curves: once a curve's edges close into a loop, the loop must use every
//! edge assigned to that color; a shorter loop means the curve falls apart in pieces.
//!
//! Every walk here is bounded by the number of edges there are (`MAX_CURVE_EDGES`): a
//! walk that comes back to where it started, or stops, does so within that many steps
//! (one more going forwards, where the last edge may lead out of the colors); one that
//! does neither within the bound never does (`lemma_forward_walk_bound`,
//! `lemma_backward_walk_bound`).

use crate::context::dynamic::{slot_value, target_valid, DynamicState};
use crate::context::memoized::MemoizedData;
use crate::geometry::bits::bit;
use crate::geometry::color::Color;
use crate::geometry::constants::{NCOLORS, NFACES};
use crate::geometry::face::adjacent_face;
use crate::state::edge::spec_decode;
use crate::trail::{Target, TrailedState};
use super::cascade::step_ok;
use super::errors::PropagationFailure;
use vstd::prelude::*;

verus! {

/// The number of edges in the diagram: one per face and color.
pub const MAX_CURVE_EDGES: usize = 384;

/// Where the connection of the edge of color `c` on face `f` leads, as the stored
/// (face, color) of the next edge on the curve.
pub open spec fn spec_forwards(s: DynamicState, f: int, c: int) -> Option<(int, int)> {
    match spec_decode(s.faces.faces@[f].edge_dynamic@[c].to_encoded) {
        Some(l) => Some((l.next.face_id as int, l.next.color_idx as int)),
        None => None,
    }
}

/// The edge before the edge of color `c` on face `f`: follow the reversed edge forwards
/// and reverse the result.
pub open spec fn spec_backwards(s: DynamicState, f: int, c: int) -> Option<(int, int)> {
    match spec_forwards(s, adjacent_face(f, c), c) {
        Some(p) => Some((adjacent_face(p.0, c), c)),
        None => None,
    }
}

/// The edge reached after `i` steps forwards from `(f, c)`; None once a step finds no
/// connection, or a connection to a color outside the diagram.
pub open spec fn forward_walk(s: DynamicState, f: int, c: int, i: nat) -> Option<(int, int)>
    decreases i,
{
    if i == 0 {
        Some((f, c))
    } else {
        match forward_walk(s, f, c, (i - 1) as nat) {
            Some(e) => if 0 <= e.1 < NCOLORS {
                spec_forwards(s, e.0, e.1)
            } else {
                None
            },
            None => None,
        }
    }
}

/// The forward walk stops at step `i`: no edge, or back at the start.
pub open spec fn forward_stops(s: DynamicState, f: int, c: int, i: nat) -> bool {
    ||| forward_walk(s, f, c, i) is None
    ||| forward_walk(s, f, c, i) == Some((f, c))
}

/// The first step from `i` on (up to `MAX_CURVE_EDGES + 1`) at which the forward walk
/// stops.
pub open spec fn first_forward_stop(s: DynamicState, f: int, c: int, i: nat) -> Option<nat>
    decreases MAX_CURVE_EDGES + 2 - i,
{
    if i > MAX_CURVE_EDGES + 1 {
        None
    } else if forward_stops(s, f, c, i) {
        Some(i)
    } else {
        first_forward_stop(s, f, c, i + 1)
    }
}

/// The length of the curve through `(f, c)`: the first step at which the forward walk
/// comes back or stops.
pub open spec fn spec_curve_length(s: DynamicState, f: int, c: int) -> Option<nat> {
    first_forward_stop(s, f, c, 1)
}

/// The edge reached after `i` steps backwards from `(f, c)`.
pub open spec fn backward_walk(s: DynamicState, f: int, c: int, i: nat) -> Option<(int, int)>
    decreases i,
{
    if i == 0 {
        Some((f, c))
    } else {
        match backward_walk(s, f, c, (i - 1) as nat) {
            Some(e) => spec_backwards(s, e.0, e.1),
            None => None,
        }
    }
}

/// The backward walk cannot go past step `k`: the step after it has no edge, or is the
/// start again.
pub open spec fn backward_stops(s: DynamicState, f: int, c: int, k: nat) -> bool {
    ||| backward_walk(s, f, c, k + 1) is None
    ||| backward_walk(s, f, c, k + 1) == Some((f, c))
}

/// The first step from `k` on (below `MAX_CURVE_EDGES`) where the backward walk stops.
pub open spec fn first_backward_stop(s: DynamicState, f: int, c: int, k: nat) -> Option<nat>
    decreases MAX_CURVE_EDGES - k,
{
    if k >= MAX_CURVE_EDGES {
        None
    } else if backward_stops(s, f, c, k) {
        Some(k)
    } else {
        first_backward_stop(s, f, c, k + 1)
    }
}

/// The start of the curve through `(f, c)`: where walking backwards stops.
pub open spec fn spec_start_of_curve(s: DynamicState, f: int, c: int) -> Option<(int, int)> {
    match first_backward_stop(s, f, c, 0) {
        Some(k) => backward_walk(s, f, c, k),
        None => None,
    }
}

/// The direction index of the edge of color `c` on face `f`: 0 when the face lies inside
/// the curve (a clockwise edge), 1 otherwise.
pub open spec fn edge_direction(f: int, c: int) -> int {
    if bit(f as u64, c as u64) {
        0
    } else {
        1
    }
}

/// The outcome of checking the closed curve through `(f, c)` on state `s`.
pub enum CurveVerdict {
    /// No conclusion: the reversed edge is not connected, or the walk does not close.
    Open,
    /// The loop is as long as the color's edge count.
    Complete,
    /// The loop is shorter or longer than the color's edge count.
    Disconnected { length: nat, total: nat },
}

/// The verdict on the curve through `(f, c)`.
pub open spec fn curve_verdict(s: DynamicState, f: int, c: int) -> CurveVerdict {
    if spec_decode(s.faces.faces@[adjacent_face(f, c)].edge_dynamic@[c].to_encoded) is None {
        CurveVerdict::Open
    } else {
        match spec_curve_length(s, f, c) {
            None => CurveVerdict::Open,
            Some(n) => {
                let total = slot_value(s, Target::EdgeColorCount(edge_direction(f, c) as u16, c as u16));
                if (n < total && total > 0) || n > total {
                    CurveVerdict::Disconnected { length: n, total: total as nat }
                } else {
                    CurveVerdict::Complete
                }
            },
        }
    }
}

proof fn lemma_adjacent_in_range(f: int, c: int)
    requires
        0 <= f < NFACES,
        0 <= c < NCOLORS,
    ensures
        0 <= adjacent_face(f, c) < NFACES,
{
    crate::geometry::bits::lemma_toggle_two_bits_bound(f as u64, c as u64, c as u64);
}

proof fn lemma_decoded_fields_bound(v: u64)
    by (bit_vector)
    ensures
        v & 0x3F < 64,
        (v >> 6u64) & 0x7 < 8,
{
}

proof fn lemma_forwards_in_range(s: DynamicState, f: int, c: int)
    ensures
        spec_forwards(s, f, c) matches Some(p) ==> 0 <= p.0 < NFACES && 0 <= p.1 < 8,
{
    let e = s.faces.faces@[f].edge_dynamic@[c].to_encoded;
    lemma_decoded_fields_bound(e & !0x8000_0000_0000_0000u64);
}

proof fn lemma_backward_walk_in_range(s: DynamicState, f: int, c: int, i: nat)
    requires
        0 <= f < NFACES,
        0 <= c < NCOLORS,
    ensures
        backward_walk(s, f, c, i) matches Some(e) ==> 0 <= e.0 < NFACES && e.1 == c,
    decreases i,
{
    if i > 0 {
        lemma_backward_walk_in_range(s, f, c, (i - 1) as nat);
        if let Some(e) = backward_walk(s, f, c, (i - 1) as nat) {
            lemma_adjacent_in_range(e.0, c);
            lemma_forwards_in_range(s, adjacent_face(e.0, c), c);
            if let Some(p) = spec_forwards(s, adjacent_face(e.0, c), c) {
                lemma_adjacent_in_range(p.0, c);
            }
        }
    }
}

/// Among n + 1 integers below n (and at least 0), two are equal.
proof fn lemma_pigeonhole(keys: Seq<int>, n: int)
    requires
        n >= 0,
        keys.len() == n + 1,
        forall|i: int| 0 <= i < keys.len() ==> 0 <= #[trigger] keys[i] < n,
    ensures
        exists|a: int, b: int| 0 <= a < b < keys.len() && keys[a] == keys[b],
{
    if !(exists|a: int, b: int| 0 <= a < b < keys.len() && keys[a] == keys[b]) {
        assert(keys.no_duplicates()) by {
            assert forall|i: int, j: int| 0 <= i < keys.len() && 0 <= j < keys.len() && i != j implies keys[i] != keys[j] by {
                if i < j {
                    assert(!(0 <= i < j < keys.len() && keys[i] == keys[j]));
                } else {
                    assert(!(0 <= j < i < keys.len() && keys[j] == keys[i]));
                }
            }
        }
        keys.unique_seq_to_set();
        vstd::set_lib::lemma_int_range(0, n);
        assert(keys.to_set().subset_of(vstd::set_lib::set_int_range(0, n)));
        vstd::set_lib::lemma_len_subset(keys.to_set(), vstd::set_lib::set_int_range(0, n));
    }
}

/// A forward step depends on the edge alone: equal edges lead on to equal walks.
proof fn lemma_forward_periodic(s: DynamicState, f: int, c: int, a: nat, b: nat, i: nat)
    requires
        a < b <= i,
        forward_walk(s, f, c, a) == forward_walk(s, f, c, b),
    ensures
        forward_walk(s, f, c, i) == forward_walk(s, f, c, (i - (b - a)) as nat),
    decreases i,
{
    if i > b {
        lemma_forward_periodic(s, f, c, a, b, (i - 1) as nat);
        assert(forward_walk(s, f, c, (i - (b - a)) as nat) == match forward_walk(s, f, c, (i - 1 - (b - a)) as nat) {
            Some(e) => if 0 <= e.1 < NCOLORS {
                spec_forwards(s, e.0, e.1)
            } else {
                None
            },
            None => None,
        });
    }
}

proof fn lemma_no_forward_stop_below(s: DynamicState, f: int, c: int, k: nat, i: nat)
    requires
        k >= 1,
        k <= i <= MAX_CURVE_EDGES + 1,
        first_forward_stop(s, f, c, k) is None,
    ensures
        !forward_stops(s, f, c, i),
    decreases i - k,
{
    if i > k {
        lemma_no_forward_stop_below(s, f, c, k + 1, i);
    }
}

/// A forward walk that neither stops nor comes back within `MAX_CURVE_EDGES + 1` steps
/// never does: its first 385 edges cannot all differ, and from a repeat on it goes round
/// the same edges, none of them the start.
pub proof fn lemma_forward_walk_bound(s: DynamicState, f: int, c: int)
    requires
        0 <= f < NFACES,
        0 <= c < NCOLORS,
        spec_curve_length(s, f, c) is None,
    ensures
        forall|i: nat| i >= 1 ==> !#[trigger] forward_stops(s, f, c, i),
{
    let limit = (MAX_CURVE_EDGES + 1) as nat;
    assert forall|i: nat| 1 <= i <= limit implies !#[trigger] forward_stops(s, f, c, i) by {
        lemma_no_forward_stop_below(s, f, c, 1, i);
    }
    assert forall|i: nat| i < limit implies (#[trigger] forward_walk(s, f, c, i)) matches Some(e) && 0 <= e.0 < NFACES && 0
        <= e.1 < NCOLORS by {
        assert(!forward_stops(s, f, c, i + 1));
        if i > 0 {
            assert(!forward_stops(s, f, c, i));
            let prev = forward_walk(s, f, c, (i - 1) as nat);
            if let Some(e) = prev {
                lemma_forwards_in_range(s, e.0, e.1);
            }
        }
    }
    let keys = Seq::new(limit, |i: int| {
        let e = forward_walk(s, f, c, i as nat)->0;
        e.0 * 6 + e.1
    });
    assert forall|i: int| 0 <= i < keys.len() implies 0 <= #[trigger] keys[i] < MAX_CURVE_EDGES by {
        assert(forward_walk(s, f, c, i as nat) is Some);
    }
    lemma_pigeonhole(keys, MAX_CURVE_EDGES as int);
    let (a, b) = choose|a: int, b: int| 0 <= a < b < keys.len() && keys[a] == keys[b];
    assert(forward_walk(s, f, c, a as nat) is Some && forward_walk(s, f, c, b as nat) is Some);
    assert(forward_walk(s, f, c, a as nat) == forward_walk(s, f, c, b as nat));
    if a == 0 {
        assert(forward_stops(s, f, c, b as nat));
    }
    assert forall|i: nat| i >= 1 implies !#[trigger] forward_stops(s, f, c, i) by {
        lemma_forward_never_stops(s, f, c, a as nat, b as nat, i);
    }
}

proof fn lemma_forward_never_stops(s: DynamicState, f: int, c: int, a: nat, b: nat, i: nat)
    requires
        1 <= a < b <= MAX_CURVE_EDGES,
        forward_walk(s, f, c, a) == forward_walk(s, f, c, b),
        forall|j: nat| 1 <= j <= MAX_CURVE_EDGES + 1 ==> !#[trigger] forward_stops(s, f, c, j),
        i >= 1,
    ensures
        !forward_stops(s, f, c, i),
    decreases i,
{
    if i > MAX_CURVE_EDGES + 1 {
        lemma_forward_periodic(s, f, c, a, b, i);
        lemma_forward_never_stops(s, f, c, a, b, (i - (b - a)) as nat);
    }
}

/// A backward step depends on the edge alone: equal edges lead on to equal walks.
proof fn lemma_backward_periodic(s: DynamicState, f: int, c: int, a: nat, b: nat, i: nat)
    requires
        a < b <= i,
        backward_walk(s, f, c, a) == backward_walk(s, f, c, b),
    ensures
        backward_walk(s, f, c, i) == backward_walk(s, f, c, (i - (b - a)) as nat),
    decreases i,
{
    if i > b {
        lemma_backward_periodic(s, f, c, a, b, (i - 1) as nat);
        assert(backward_walk(s, f, c, (i - (b - a)) as nat) == match backward_walk(s, f, c, (i - 1 - (b - a)) as nat) {
            Some(e) => spec_backwards(s, e.0, e.1),
            None => None,
        });
    }
}

proof fn lemma_no_backward_stop_below(s: DynamicState, f: int, c: int, k: nat, i: nat)
    requires
        k <= i < MAX_CURVE_EDGES,
        first_backward_stop(s, f, c, k) is None,
    ensures
        !backward_stops(s, f, c, i),
    decreases i - k,
{
    if i > k {
        lemma_no_backward_stop_below(s, f, c, k + 1, i);
    }
}

proof fn lemma_backward_never_stops(s: DynamicState, f: int, c: int, a: nat, b: nat, k: nat)
    requires
        1 <= a < b <= MAX_CURVE_EDGES,
        backward_walk(s, f, c, a) == backward_walk(s, f, c, b),
        forall|j: nat| j < MAX_CURVE_EDGES ==> !#[trigger] backward_stops(s, f, c, j),
    ensures
        !backward_stops(s, f, c, k),
    decreases k,
{
    if k >= MAX_CURVE_EDGES {
        lemma_backward_periodic(s, f, c, a, b, k + 1);
        lemma_backward_never_stops(s, f, c, a, b, (k - (b - a)) as nat);
        assert(backward_walk(s, f, c, ((k - (b - a)) + 1) as nat) == backward_walk(s, f, c, k + 1));
    }
}

/// A backward walk that neither stops nor comes back within `MAX_CURVE_EDGES` steps never
/// does.
pub proof fn lemma_backward_walk_bound(s: DynamicState, f: int, c: int)
    requires
        0 <= f < NFACES,
        0 <= c < NCOLORS,
        spec_start_of_curve(s, f, c) is None,
    ensures
        forall|k: nat| !#[trigger] backward_stops(s, f, c, k),
{
    let limit = (MAX_CURVE_EDGES + 1) as nat;
    if first_backward_stop(s, f, c, 0) is Some {
        let k = first_backward_stop(s, f, c, 0)->0;
        lemma_first_backward_stop_some(s, f, c, 0);
        if k > 0 {
            assert(!backward_stops(s, f, c, (k - 1) as nat));
        }
        assert(backward_walk(s, f, c, k) is Some);
    }
    assert forall|k: nat| k < MAX_CURVE_EDGES implies !#[trigger] backward_stops(s, f, c, k) by {
        lemma_no_backward_stop_below(s, f, c, 0, k);
    }
    assert forall|i: nat| i < limit implies (#[trigger] backward_walk(s, f, c, i)) is Some by {
        if i > 0 {
            assert(!backward_stops(s, f, c, (i - 1) as nat));
        }
    }
    let keys = Seq::new(limit, |i: int| {
        let e = backward_walk(s, f, c, i as nat)->0;
        e.0 * 6 + e.1
    });
    assert forall|i: int| 0 <= i < keys.len() implies 0 <= #[trigger] keys[i] < MAX_CURVE_EDGES by {
        assert(backward_walk(s, f, c, i as nat) is Some);
        lemma_backward_walk_in_range(s, f, c, i as nat);
    }
    lemma_pigeonhole(keys, MAX_CURVE_EDGES as int);
    let (a, b) = choose|a: int, b: int| 0 <= a < b < keys.len() && keys[a] == keys[b];
    lemma_backward_walk_in_range(s, f, c, a as nat);
    lemma_backward_walk_in_range(s, f, c, b as nat);
    assert(backward_walk(s, f, c, a as nat) == backward_walk(s, f, c, b as nat));
    if a == 0 {
        assert(backward_stops(s, f, c, (b - 1) as nat));
    }
    assert forall|k: nat| !#[trigger] backward_stops(s, f, c, k) by {
        lemma_backward_never_stops(s, f, c, a as nat, b as nat, k);
    }
}

proof fn lemma_first_backward_stop_some(s: DynamicState, f: int, c: int, k: nat)
    requires
        first_backward_stop(s, f, c, k) is Some,
    ensures
        ({
            let j = first_backward_stop(s, f, c, k)->0;
            &&& k <= j < MAX_CURVE_EDGES
            &&& backward_stops(s, f, c, j)
            &&& forall|m: nat| k <= m < j ==> !#[trigger] backward_stops(s, f, c, m)
        }),
    decreases MAX_CURVE_EDGES - k,
{
    if k < MAX_CURVE_EDGES && !backward_stops(s, f, c, k) {
        lemma_first_backward_stop_some(s, f, c, k + 1);
    }
}

/// Follow the edge of color `color_idx` on face `face_id` forwards: the next edge on its
/// curve, or None when the edge is not connected yet.
pub fn edge_follow_forwards(face_id: usize, color_idx: usize, state: &DynamicState) -> (r: Option<(usize, usize)>)
    requires
        state.wf(),
        face_id < NFACES,
        color_idx < NCOLORS,
    ensures
        r matches Some(p) ==> spec_forwards(*state, face_id as int, color_idx as int) == Some((p.0 as int, p.1 as int)),
        r is None <==> spec_forwards(*state, face_id as int, color_idx as int) is None,
        r matches Some(p) ==> p.0 < NFACES && p.1 < 8,
{
    proof {
        lemma_forwards_in_range(*state, face_id as int, color_idx as int);
    }
    match state.faces.faces[face_id].edge_dynamic[color_idx].get_to() {
        Some(link) => Some((link.next.face_id, link.next.color_idx)),
        None => None,
    }
}

/// Follow the edge of color `color_idx` on face `face_id` backwards: the edge whose
/// connection leads to it, or None when the reversed edge is not connected yet.
pub fn edge_follow_backwards(face_id: usize, color_idx: usize, memo: &MemoizedData, state: &DynamicState) -> (r: Option<(usize, usize)>)
    requires
        memo.wf(),
        state.wf(),
        face_id < NFACES,
        color_idx < NCOLORS,
    ensures
        r matches Some(p) ==> spec_backwards(*state, face_id as int, color_idx as int) == Some((p.0 as int, p.1 as int)),
        r is None <==> spec_backwards(*state, face_id as int, color_idx as int) is None,
        r matches Some(p) ==> p.0 < NFACES && p.1 == color_idx,
{
    proof {
        lemma_adjacent_in_range(face_id as int, color_idx as int);
    }
    let adjacent_face_id = memo.faces.get_face(face_id).adjacent_faces[color_idx];
    match edge_follow_forwards(adjacent_face_id, color_idx, state) {
        Some((next_face, _next_color)) => {
            proof {
                lemma_adjacent_in_range(next_face as int, color_idx as int);
            }
            let prev_adjacent = memo.faces.get_face(next_face).adjacent_faces[color_idx];
            Some((prev_adjacent, color_idx))
        },
        None => None,
    }
}

/// The number of edges on the curve through the edge of color `start_color_idx` on face
/// `start_face_id`: the steps forwards until the walk comes back to that edge or finds no
/// connection. None when it does neither within `MAX_CURVE_EDGES + 1` steps, and then it
/// never does.
pub fn curve_length(start_face_id: usize, start_color_idx: usize, state: &DynamicState) -> (r: Option<usize>)
    requires
        state.wf(),
        start_face_id < NFACES,
        start_color_idx < NCOLORS,
    ensures
        r matches Some(n) ==> spec_curve_length(*state, start_face_id as int, start_color_idx as int) == Some(n as nat),
        r is None <==> spec_curve_length(*state, start_face_id as int, start_color_idx as int) is None,
        r is None ==> forall|i: nat| i >= 1 ==> !#[trigger] forward_stops(*state, start_face_id as int, start_color_idx as int, i),
{
    let ghost s = *state;
    let ghost f = start_face_id as int;
    let ghost c = start_color_idx as int;
    let mut result: usize = 1;
    let mut current = edge_follow_forwards(start_face_id, start_color_idx, state);
    assert(forward_walk(s, f, c, 1) == spec_forwards(s, f, c)) by {
        reveal_with_fuel(forward_walk, 2);
    }
    loop
        invariant
            state.wf(),
            s == *state,
            f == start_face_id,
            c == start_color_idx,
            start_face_id < NFACES,
            start_color_idx < NCOLORS,
            1 <= result <= MAX_CURVE_EDGES + 1,
            current is None <==> forward_walk(s, f, c, result as nat) is None,
            current matches Some(p) ==> forward_walk(s, f, c, result as nat) == Some((p.0 as int, p.1 as int)) && p.0
                < NFACES && p.1 < 8,
            first_forward_stop(s, f, c, 1) == first_forward_stop(s, f, c, result as nat),
        decreases MAX_CURVE_EDGES + 1 - result,
    {
        match current {
            None => {
                return Some(result);
            },
            Some((face, color)) => {
                if face == start_face_id && color == start_color_idx {
                    return Some(result);
                }
                assert(!forward_stops(s, f, c, result as nat));
                if result == MAX_CURVE_EDGES + 1 {
                    assert(first_forward_stop(s, f, c, (result + 1) as nat) is None);
                    proof {
                        lemma_forward_walk_bound(s, f, c);
                    }
                    return None;
                }
                let ghost prev = result;
                result = result + 1;
                assert(forward_walk(s, f, c, result as nat) == (if 0 <= color < NCOLORS {
                    spec_forwards(s, face as int, color as int)
                } else {
                    None
                }));
                if color < NCOLORS {
                    current = edge_follow_forwards(face, color, state);
                } else {
                    current = None;
                }
            },
        }
    }
}

/// The first edge of the curve through the edge of color `color_idx` on face `face_id`:
/// walk backwards until there is no earlier edge, or until the next step would be that
/// edge again. None when neither happens within `MAX_CURVE_EDGES` steps, and then it
/// never does.
pub fn find_start_of_curve(face_id: usize, color_idx: usize, memo: &MemoizedData, state: &DynamicState) -> (r: Option<(usize, usize)>)
    requires
        memo.wf(),
        state.wf(),
        face_id < NFACES,
        color_idx < NCOLORS,
    ensures
        r matches Some(p) ==> spec_start_of_curve(*state, face_id as int, color_idx as int) == Some((p.0 as int, p.1 as int))
            && p.0 < NFACES && p.1 == color_idx,
        r is None <==> spec_start_of_curve(*state, face_id as int, color_idx as int) is None,
        r is None ==> forall|k: nat| !#[trigger] backward_stops(*state, face_id as int, color_idx as int, k),
{
    let ghost s = *state;
    let ghost f = face_id as int;
    let ghost c = color_idx as int;
    let mut steps: usize = 0;
    let mut current_face = face_id;
    let mut current_color = color_idx;
    loop
        invariant
            memo.wf(),
            state.wf(),
            s == *state,
            f == face_id,
            c == color_idx,
            face_id < NFACES,
            color_idx < NCOLORS,
            steps < MAX_CURVE_EDGES,
            current_face < NFACES,
            current_color == color_idx,
            backward_walk(s, f, c, steps as nat) == Some((current_face as int, current_color as int)),
            first_backward_stop(s, f, c, 0) == first_backward_stop(s, f, c, steps as nat),
        decreases MAX_CURVE_EDGES - steps,
    {
        let next = edge_follow_backwards(current_face, current_color, memo, state);
        assert(backward_walk(s, f, c, (steps + 1) as nat) == spec_backwards(s, current_face as int, current_color as int));
        match next {
            None => {
                return Some((current_face, current_color));
            },
            Some((next_face, next_color)) => {
                if next_face == face_id && next_color == color_idx {
                    return Some((current_face, current_color));
                }
                if steps + 1 == MAX_CURVE_EDGES {
                    assert(first_backward_stop(s, f, c, (steps + 1) as nat) is None);
                    proof {
                        lemma_backward_walk_bound(s, f, c);
                    }
                    return None;
                }
                steps = steps + 1;
                current_face = next_face;
                current_color = next_color;
            },
        }
    }
}

/// The curve through `(f, c)`, walked forwards, first comes back to `(f, c)` after `n`
/// edges: a closed loop of `n` edges.
pub open spec fn closes_after(s: DynamicState, f: int, c: int, n: nat) -> bool {
    &&& n >= 1
    &&& forward_walk(s, f, c, n) == Some((f, c))
    &&& forall|i: nat| 0 < i < n ==> #[trigger] forward_walk(s, f, c, i) != Some((f, c))
}

/// A walk that has stopped stays stopped.
proof fn lemma_forward_walk_none_stays(s: DynamicState, f: int, c: int, j: nat, k: nat)
    requires
        j <= k,
        forward_walk(s, f, c, j) is None,
    ensures
        forward_walk(s, f, c, k) is None,
    decreases k - j,
{
    if j < k {
        lemma_forward_walk_none_stays(s, f, c, j, (k - 1) as nat);
    }
}

/// The first stop found from `i` on is a stop, and there is none before it.
proof fn lemma_first_forward_stop(s: DynamicState, f: int, c: int, i: nat)
    ensures
        first_forward_stop(s, f, c, i) matches Some(m) ==> i <= m && forward_stops(s, f, c, m) && forall|j: nat|
            i <= j < m ==> !#[trigger] forward_stops(s, f, c, j),
    decreases MAX_CURVE_EDGES + 2 - i,
{
    if i <= MAX_CURVE_EDGES + 1 && !forward_stops(s, f, c, i) {
        lemma_first_forward_stop(s, f, c, i + 1);
    }
}

/// The verdict on a closed loop: with the reversed edge connected, a loop of `n` edges
/// completes its color exactly when `n` is the color's edge count for the edge's
/// direction, and is a disconnected curve of `n` edges against that count otherwise.
pub proof fn lemma_closed_loop_verdict(s: DynamicState, f: int, c: int, n: nat)
    requires
        0 <= f < NFACES,
        0 <= c < NCOLORS,
        closes_after(s, f, c, n),
        spec_decode(s.faces.faces@[adjacent_face(f, c)].edge_dynamic@[c].to_encoded) is Some,
    ensures
        ({
            let total = slot_value(s, Target::EdgeColorCount(edge_direction(f, c) as u16, c as u16));
            curve_verdict(s, f, c) == if n == total {
                CurveVerdict::Complete
            } else {
                CurveVerdict::Disconnected { length: n, total: total as nat }
            }
        }),
{
    assert(forward_stops(s, f, c, n));
    if spec_curve_length(s, f, c) is None {
        lemma_forward_walk_bound(s, f, c);
        assert(!forward_stops(s, f, c, n));
    }
    lemma_first_forward_stop(s, f, c, 1);
    let m = spec_curve_length(s, f, c)->0;
    assert forall|j: nat| 1 <= j < n implies !#[trigger] forward_stops(s, f, c, j) by {
        if forward_walk(s, f, c, j) is None {
            lemma_forward_walk_none_stays(s, f, c, j, n);
        }
    }
    if m < n {
        assert(forward_stops(s, f, c, m));
    }
    if n < m {
        assert(!forward_stops(s, f, c, n));
    }
    assert(m == n);
}

/// Check the curve through the edge of color `color_idx` on face `face_id`: once its
/// reversed edge is connected and the walk closes, a loop shorter than the color's edge
/// count (when there are any), or longer, is a disconnected curve. A loop of the right
/// length completes the color: the first time in this propagation it is marked completed
/// and checked (recorded).
pub fn check_for_disconnected_curve(
    face_id: usize,
    color_idx: usize,
    depth: usize,
    memo: &MemoizedData,
    state: &mut TrailedState,
) -> (r: Result<(), PropagationFailure>)
    requires
        memo.wf(),
        old(state).wf(),
        face_id < NFACES,
        color_idx < NCOLORS,
    ensures
        step_ok(old(state), final(state)),
        ({
            let s = old(state).spec_state();
            let already = s.colors_completed_this_call & (1u64 << color_idx as u64) != 0;
            match curve_verdict(s, face_id as int, color_idx as int) {
                CurveVerdict::Open => r is Ok && *final(state) == *old(state),
                CurveVerdict::Disconnected { length, total } => r == Err::<(), PropagationFailure>(
                    PropagationFailure::DisconnectedCurve {
                        color: color_idx,
                        edges_visited: length as usize,
                        total_edges: total as usize,
                        depth,
                    },
                ) && *final(state) == *old(state),
                CurveVerdict::Complete => if already {
                    r is Ok && *final(state) == *old(state)
                } else if old(state).spec_entries().len() < crate::trail::TRAIL_MAX_SIZE {
                    &&& r is Ok
                    &&& final(state).spec_state().colors_completed_this_call == s.colors_completed_this_call | (1u64
                        << color_idx as u64)
                    &&& slot_value(final(state).spec_state(), Target::ColorChecked(color_idx as u16)) == 1
                    &&& forall|u: Target| target_valid(u) && u != Target::ColorChecked(color_idx as u16) ==> #[trigger] slot_value(
                        final(state).spec_state(),
                        u,
                    ) == slot_value(s, u)
                } else {
                    r == Err::<(), PropagationFailure>(PropagationFailure::LimitReached { depth }) && *final(state) == *old(state)
                },
            }
        }),
        forall|n: nat|
            #[trigger] closes_after(old(state).spec_state(), face_id as int, color_idx as int, n) && spec_decode(
                old(state).spec_state().faces.faces@[adjacent_face(face_id as int, color_idx as int)].edge_dynamic@[color_idx as int].to_encoded,
            ) is Some ==> {
                let total = slot_value(
                    old(state).spec_state(),
                    Target::EdgeColorCount(edge_direction(face_id as int, color_idx as int) as u16, color_idx as u16),
                );
                &&& n != total ==> r == Err::<(), PropagationFailure>(
                    PropagationFailure::DisconnectedCurve { color: color_idx, edges_visited: n as usize, total_edges: total as usize, depth },
                ) && *final(state) == *old(state)
                &&& n == total ==> !(r matches Err(PropagationFailure::DisconnectedCurve { .. }))
            },
{
    let ghost start = *state;
    let ghost s = state.spec_state();
    proof {
        TrailedState::lemma_unchanged_keeps_history(&start, state);
        lemma_adjacent_in_range(face_id as int, color_idx as int);
        assert forall|n: nat|
            #[trigger] closes_after(s, face_id as int, color_idx as int, n) && spec_decode(
                s.faces.faces@[adjacent_face(face_id as int, color_idx as int)].edge_dynamic@[color_idx as int].to_encoded,
            ) is Some implies curve_verdict(s, face_id as int, color_idx as int) == if n == slot_value(
            s,
            Target::EdgeColorCount(edge_direction(face_id as int, color_idx as int) as u16, color_idx as u16),
        ) {
            CurveVerdict::Complete
        } else {
            CurveVerdict::Disconnected {
                length: n,
                total: slot_value(s, Target::EdgeColorCount(edge_direction(face_id as int, color_idx as int) as u16, color_idx as u16)) as nat,
            }
        } by {
            lemma_closed_loop_verdict(s, face_id as int, color_idx as int, n);
        }
    }
    let adjacent_face_id = memo.faces.get_face(face_id).adjacent_faces[color_idx];
    let reversed_has_to = state.state().faces.faces[adjacent_face_id].edge_dynamic[color_idx].get_to().is_some();
    if !reversed_has_to {
        return Ok(());
    }
    let length = match curve_length(face_id, color_idx, state.state()) {
        Some(n) => n,
        None => {
            return Ok(());
        },
    };
    let face_colors = memo.faces.get_face(face_id).colors;
    let is_clockwise = face_colors.contains(Color::new(color_idx as u8));
    let direction: usize = if is_clockwise {
        0
    } else {
        1
    };
    assert(direction == edge_direction(face_id as int, color_idx as int));
    let total_count = state.state().edge_color_count(direction, color_idx);
    let length_count = length as u64;
    if (length_count < total_count && total_count > 0) || length_count > total_count {
        return Err(
            PropagationFailure::DisconnectedCurve { color: color_idx, edges_visited: length, total_edges: total_count as usize, depth },
        );
    }
    if state.state().colors_completed_this_call & (1u64 << color_idx as u64) != 0 {
        return Ok(());
    }
    if !state.has_room(1) {
        return Err(PropagationFailure::LimitReached { depth });
    }
    state.add_completed_color(color_idx);
    let ghost s1 = *state;
    proof {
        TrailedState::lemma_unchanged_keeps_history(&start, &s1);
    }
    state.mark_color_checked(color_idx);
    proof {
        TrailedState::lemma_history_transitive(&start, &s1, state);
    }
    Ok(())
}

/// The curve checks for an edge of a newly assigned cycle: nothing when its color's curve
/// is already checked; otherwise find the start of the curve and check it for
/// disconnection.
pub fn edge_curve_checks(
    memo: &MemoizedData,
    state: &mut TrailedState,
    face_id: usize,
    color_idx: usize,
    depth: usize,
) -> (r: Result<(), PropagationFailure>)
    requires
        memo.wf(),
        old(state).wf(),
        face_id < NFACES,
        color_idx < NCOLORS,
    ensures
        step_ok(old(state), final(state)),
        slot_value(old(state).spec_state(), Target::ColorChecked(color_idx as u16)) != 0 ==> r is Ok && *final(state) == *old(state),
        spec_start_of_curve(old(state).spec_state(), face_id as int, color_idx as int) is None ==> r is Ok && *final(state) == *old(state),
        ({
            let s = old(state).spec_state();
            slot_value(s, Target::ColorChecked(color_idx as u16)) == 0 ==> match spec_start_of_curve(
                s,
                face_id as int,
                color_idx as int,
            ) {
                Some(p) => (curve_verdict(s, p.0, p.1) matches CurveVerdict::Disconnected { length, total } ==> r
                    == Err::<(), PropagationFailure>(
                    PropagationFailure::DisconnectedCurve {
                        color: p.1 as usize,
                        edges_visited: length as usize,
                        total_edges: total as usize,
                        depth,
                    },
                )) && (curve_verdict(s, p.0, p.1) is Open ==> r is Ok && *final(state) == *old(state)),
                None => true,
            }
        }),
{
    let ghost start = *state;
    proof {
        TrailedState::lemma_unchanged_keeps_history(&start, state);
    }
    if state.state().colors_checked[color_idx] != 0 {
        return Ok(());
    }
    match find_start_of_curve(face_id, color_idx, memo, state.state()) {
        Some((start_face, start_color)) => check_for_disconnected_curve(start_face, start_color, depth, memo, state),
        None => Ok(()),
    }
}

} // verus!
