//! Face tables: the faces with their edges, the face degrees, and which cycles each face
//! can have in a monotone diagram, with the faces its cycle leads to and comes from.
//!
//! A monotone cycle crosses the boundary of its face exactly twice: once leaving the
//! curves of the face and once entering them. The outer and inner faces can only have
//! cycles through all NCOLORS curves.

use crate::geometry::bits::{bit, popcount};
use crate::geometry::color::Color;
use crate::geometry::color_set::ColorSet;
use crate::geometry::constants::{lemma_choose_six, spec_choose, NCOLORS, NCYCLES, NFACES};
use crate::geometry::cycle::{Cycle, CycleId};
use crate::geometry::cycle_set::CycleSet;
use crate::geometry::edge::{spec_edge_id, CurveLink, EdgeMemo, EdgeRef};
use crate::geometry::face::{adjacent_face, Face, FaceId};
use crate::memo::cycles::{expected_cycles, CyclesArray};
use crate::memo::vertices::{
    count_valid_below, spec_incoming_slot, vertex_index, VertexLocation, VerticesMemo,
};
use vstd::prelude::*;

verus! {

/// Whether color `c` bounds the face with id `f` (the face lies inside curve `c`).
pub open spec fn in_face(f: int, c: Color) -> bool {
    bit(f as u64, c.index() as u64)
}

/// The cycle crosses the face boundary between positions `k` and `k + 1`.
pub open spec fn transition_at(s: Seq<Color>, f: int, k: int) -> bool {
    in_face(f, s[k]) != in_face(f, s[(k + 1) % (s.len() as int)])
}

/// Between positions `k` and `k + 1` the cycle leaves the face's curves.
pub open spec fn outbound_at(s: Seq<Color>, f: int, k: int) -> bool {
    in_face(f, s[k]) && !in_face(f, s[(k + 1) % (s.len() as int)])
}

/// Between positions `k` and `k + 1` the cycle enters the face's curves.
pub open spec fn inbound_at(s: Seq<Color>, f: int, k: int) -> bool {
    !in_face(f, s[k]) && in_face(f, s[(k + 1) % (s.len() as int)])
}

/// The number of boundary crossings at positions below `k`.
pub open spec fn count_transitions(s: Seq<Color>, f: int, k: int) -> nat
    decreases k,
{
    if k <= 0 {
        0
    } else {
        count_transitions(s, f, k - 1) + if transition_at(s, f, k - 1) {
            1nat
        } else {
            0nat
        }
    }
}

/// The number of outbound crossings at positions below `k`.
pub open spec fn count_outbound(s: Seq<Color>, f: int, k: int) -> nat
    decreases k,
{
    if k <= 0 {
        0
    } else {
        count_outbound(s, f, k - 1) + if outbound_at(s, f, k - 1) {
            1nat
        } else {
            0nat
        }
    }
}

/// The number of inbound crossings at positions below `k`.
pub open spec fn count_inbound(s: Seq<Color>, f: int, k: int) -> nat
    decreases k,
{
    if k <= 0 {
        0
    } else {
        count_inbound(s, f, k - 1) + if inbound_at(s, f, k - 1) {
            1nat
        } else {
            0nat
        }
    }
}

/// The face across both colors `a` and `b` from face `f`.
pub open spec fn crossing_face(f: int, a: Color, b: Color) -> int {
    (f as u64 ^ ((1u64 << a.index()) | (1u64 << b.index()))) as int
}

/// The cycle has colors both inside and outside the face's curves.
pub open spec fn cycle_fits_face(s: Seq<Color>, f: int) -> bool {
    &&& exists|k: int| 0 <= k < s.len() && in_face(f, #[trigger] s[k])
    &&& exists|k: int| 0 <= k < s.len() && !in_face(f, #[trigger] s[k])
}

/// Whether face `f` can have cycle `c`: the outer and inner faces only the cycles through
/// all curves; any other face the cycles with colors inside and outside that cross its
/// boundary exactly twice.
pub open spec fn face_allows(f: int, c: int) -> bool {
    let s = expected_cycles()[c];
    if f == 0 || f == NFACES - 1 {
        s.len() == NCOLORS
    } else {
        cycle_fits_face(s, f) && count_transitions(s, f, s.len() as int) == 2
    }
}

/// The face that cycle `c` of face `f` leads to (the face across its outbound crossing),
/// for a cycle that the face allows.
pub open spec fn next_face_ok(f: int, c: int, n: int) -> bool {
    let s = expected_cycles()[c];
    if f == 0 || f == NFACES - 1 {
        n == f
    } else {
        exists|k: int| 0 <= k < s.len() && #[trigger] outbound_at(s, f, k) && n == crossing_face(f, s[k], s[(k + 1) % (s.len() as int)])
    }
}

/// The face that cycle `c` of face `f` comes from (the face across its inbound crossing).
pub open spec fn previous_face_ok(f: int, c: int, p: int) -> bool {
    let s = expected_cycles()[c];
    if f == 0 || f == NFACES - 1 {
        p == f
    } else {
        exists|k: int| 0 <= k < s.len() && #[trigger] inbound_at(s, f, k) && p == crossing_face(f, s[k], s[(k + 1) % (s.len() as int)])
    }
}

/// The table position of the vertex where the edge of color `e` of face `f` meets color
/// `x`.
pub open spec fn link_vertex_index(f: int, e: int, x: int) -> int {
    let slot = spec_incoming_slot(bit(f as u64, e as u64), bit(f as u64, x as u64));
    let p = if slot <= 1 { e } else { x };
    let s = if slot <= 1 { x } else { e };
    vertex_index((f as u64 & !(1u64 << p as u64) & !(1u64 << s as u64)) as int, p, s)
}

/// The link of the edge of color `e` of face `f` towards color `x`: the vertex where
/// they cross, and the edge of color `e` that continues the curve there, on the face
/// across curve `x` only.
pub open spec fn spec_link(f: int, e: int, x: int) -> Option<CurveLink> {
    if e == x {
        None
    } else {
        Some(
            CurveLink {
                next: EdgeRef { face_id: (f as u64 ^ (1u64 << x as u64)) as usize, color_idx: e as usize },
                vertex_id: count_valid_below(link_vertex_index(f, e, x)) as usize,
            },
        )
    }
}

/// What is fixed for face `f` before its vertex links are filled in.
pub open spec fn face_shape_ok(f: int, face: Face) -> bool {
    &&& face.id == f
    &&& face.colors.spec_bits() == f as u64
    &&& forall|i: int| 0 <= i < NCOLORS ==> #[trigger] face.adjacent_faces@[i] == adjacent_face(f, i)
    &&& forall|i: int| 0 <= i < NCOLORS ==> {
        &&& (#[trigger] face.edges@[i]).color.index() == i
        &&& face.edges@[i].face_colors == face.colors
        &&& face.edges@[i].reversed == EdgeRef { face_id: adjacent_face(f, i) as usize, color_idx: i as usize }
    }
    &&& forall|c: int| #[trigger] face.possible_cycles.has(c) <==> 0 <= c < NCYCLES && face_allows(f, c)
}

/// The face's links are those of `spec_link`.
pub open spec fn face_links_ok(f: int, face: Face) -> bool {
    forall|e: int, x: int| 0 <= e < NCOLORS && 0 <= x < NCOLORS ==> #[trigger] face.edges@[e].possibly_to@[x] == spec_link(f, e, x)
}

/// The face tables.
#[derive(Debug, Clone)]
pub struct FacesMemo {
    /// The faces, indexed by face id.
    pub faces: Vec<Face>,
    /// For k colors, the expected length C(NCOLORS, k) of the cycle of faces with k colors.
    pub face_degree_by_color_count: [u64; 7],
    /// For each face and cycle (at `face * NCYCLES + cycle`), the face the cycle leads to.
    pub next_face_by_cycle: Vec<Option<FaceId>>,
    /// For each face and cycle (at `face * NCYCLES + cycle`), the face the cycle comes from.
    pub previous_face_by_cycle: Vec<Option<FaceId>>,
}

/// The binomial coefficients C(NCOLORS, k) for k = 0..=NCOLORS, by the recurrence
/// C(n, k + 1) = C(n, k) * (n - k) / (k + 1).
pub fn compute_binomial_coefficients() -> (r: [u64; 7])
    ensures
        forall|k: int| 0 <= k <= NCOLORS ==> #[trigger] r@[k] == spec_choose(NCOLORS as nat, k as nat),
{
    proof {
        lemma_choose_six();
    }
    let mut coefficients = [0u64; 7];
    coefficients[0] = 1;
    let mut i: usize = 0;
    while i < NCOLORS
        invariant
            i <= NCOLORS,
            forall|k: int| 0 <= k <= i ==> #[trigger] coefficients@[k] == spec_choose(6, k as nat),
            spec_choose(6, 0) == 1 && spec_choose(6, 1) == 6 && spec_choose(6, 2) == 15 && spec_choose(6, 3) == 20,
            spec_choose(6, 4) == 15 && spec_choose(6, 5) == 6 && spec_choose(6, 6) == 1,
        decreases NCOLORS - i,
    {
        let c = coefficients[i];
        proof {
            assert(c <= 20);
            assert(c * ((NCOLORS - i) as u64) <= 120) by (nonlinear_arith)
                requires c <= 20, i <= 6;
        }
        let num = c * ((NCOLORS - i) as u64);
        let den = (i + 1) as u64;
        proof {
            if i == 0 {
                assert(num == 6) by (nonlinear_arith)
                    requires num == c * ((6 - i) as u64), c == 1, i == 0;
                assert(num / den == 6) by (nonlinear_arith)
                    requires num == 6, den == 1;
            } else if i == 1 {
                assert(c == 6);
                assert(num == 30) by (nonlinear_arith)
                    requires num == c * ((6 - i) as u64), c == 6, i == 1;
                assert(num / den == 15) by (nonlinear_arith)
                    requires num == 30, den == 2;
            } else if i == 2 {
                assert(c == 15);
                assert(num == 60) by (nonlinear_arith)
                    requires num == c * ((6 - i) as u64), c == 15, i == 2;
                assert(num / den == 20) by (nonlinear_arith)
                    requires num == 60, den == 3;
            } else if i == 3 {
                assert(c == 20);
                assert(num == 60) by (nonlinear_arith)
                    requires num == c * ((6 - i) as u64), c == 20, i == 3;
                assert(num / den == 15) by (nonlinear_arith)
                    requires num == 60, den == 4;
            } else if i == 4 {
                assert(c == 15);
                assert(num == 30) by (nonlinear_arith)
                    requires num == c * ((6 - i) as u64), c == 15, i == 4;
                assert(num / den == 6) by (nonlinear_arith)
                    requires num == 30, den == 5;
            } else {
                assert(c == 6);
                assert(num == 6) by (nonlinear_arith)
                    requires num == c * ((6 - i) as u64), c == 6, i == 5;
                assert(num / den == 1) by (nonlinear_arith)
                    requires num == 6, den == 6;
            }
        }
        coefficients[i + 1] = num / den;
        i = i + 1;
    }
    coefficients
}

/// The face with the given id, its colors read from the id's bits, with its edges and
/// adjacent faces, and every cycle possible.
pub fn create_face_with_edges(face_id: FaceId) -> (r: Face)
    requires
        face_id < NFACES,
    ensures
        r.id == face_id,
        r.colors.spec_bits() == face_id as u64,
        forall|c: int| r.possible_cycles.has(c) <==> 0 <= c < NCYCLES,
        forall|i: int| 0 <= i < NCOLORS ==> #[trigger] r.adjacent_faces@[i] == adjacent_face(face_id as int, i),
        forall|i: int| 0 <= i < NCOLORS ==> {
            &&& (#[trigger] r.edges@[i]).color.index() == i
            &&& r.edges@[i].face_colors == r.colors
            &&& r.edges@[i].reversed == EdgeRef { face_id: adjacent_face(face_id as int, i) as usize, color_idx: i as usize }
            &&& forall|k: int| 0 <= k < NCOLORS ==> (#[trigger] r.edges@[i].possibly_to@[k]) is None
        },
{
    let mut colors = ColorSet::empty();
    proof {
        let f = face_id as u64;
        assert(f & (((1u64 << 0u64) - 1) as u64) == 0) by (bit_vector);
    }
    let mut i: usize = 0;
    while i < NCOLORS
        invariant
            i <= NCOLORS,
            face_id < NFACES,
            colors.spec_bits() == (face_id as u64) & (((1u64 << i as u64) - 1) as u64),
        decreases NCOLORS - i,
    {
        let ghost before = colors.spec_bits();
        let f = face_id as u64;
        let b = i as u64;
        if (face_id & (1usize << i)) != 0 {
            colors.insert(Color::new(i as u8));
            proof {
                assert((f & (1u64 << b)) != 0) by (bit_vector)
                    requires (face_id & (1usize << i)) != 0, f == face_id, b == i, i < 6, face_id < 64;
                assert((f & (((1u64 << b) - 1) as u64)) | (1u64 << b) == f & (((1u64 << (b + 1)) - 1) as u64)) by (bit_vector)
                    requires (f & (1u64 << b)) != 0, b < 6;
            }
        } else {
            proof {
                assert((f & (1u64 << b)) == 0) by (bit_vector)
                    requires (face_id & (1usize << i)) == 0, f == face_id, b == i, i < 6, face_id < 64;
                assert(f & (((1u64 << b) - 1) as u64) == f & (((1u64 << (b + 1)) - 1) as u64)) by (bit_vector)
                    requires (f & (1u64 << b)) == 0, b < 6;
            }
        }
        i = i + 1;
    }
    proof {
        let f = face_id as u64;
        assert(f & (((1u64 << 6u64) - 1) as u64) == f) by (bit_vector)
            requires f < 64;
    }
    Face::new(face_id, colors, CycleSet::full())
}

/// Whether a cycle with the given colors has colors both inside and outside the face.
pub fn is_cycle_valid_for_face(cycle_colors: ColorSet, face_colors: ColorSet) -> (r: bool)
    ensures
        r == ((cycle_colors.spec_bits() & face_colors.spec_bits()) != 0 && (cycle_colors.spec_bits() & !face_colors.spec_bits()) != 0),
{
    let inside = cycle_colors.bits() & face_colors.bits();
    let outside = cycle_colors.bits() & !face_colors.bits();
    inside != 0 && outside != 0
}

/// Whether the step from `color1` to `color2` crosses the face boundary. On a crossing
/// out of the face's curves, the face across both colors becomes the next face unless one
/// is already known; on a crossing in, likewise the previous face.
pub fn check_edge_transition(
    color1: Color,
    color2: Color,
    face_colors: ColorSet,
    previous_face: &mut Option<FaceId>,
    next_face: &mut Option<FaceId>,
) -> (r: bool)
    requires
        face_colors.spec_bits() < 64,
    ensures
        ({
            let f = face_colors.spec_bits() as int;
            let adj = crossing_face(f, color1, color2) as usize;
            let out = in_face(f, color1) && !in_face(f, color2);
            let inb = !in_face(f, color1) && in_face(f, color2);
            &&& r == (in_face(f, color1) != in_face(f, color2))
            &&& 0 <= crossing_face(f, color1, color2) < 64
            &&& *final(next_face) == (if out && (*old(next_face)) is None { Some(adj) } else { *old(next_face) })
            &&& *final(previous_face) == (if inb && (*old(previous_face)) is None { Some(adj) } else { *old(previous_face) })
        }),
{
    proof {
        use_type_invariant(color1);
        use_type_invariant(color2);
        color1.lemma_inv();
        color2.lemma_inv();
        let b = face_colors.spec_bits();
        let x = color1.index() as u64;
        let y = color2.index() as u64;
        crate::geometry::bits::lemma_toggle_two_bits_bound(b, x, y);
    }
    let color1_inside = face_colors.contains(color1);
    let color2_inside = face_colors.contains(color2);
    if color1_inside == color2_inside {
        return false;
    }
    let color1_bit = 1u64 << color1.value();
    let color2_bit = 1u64 << color2.value();
    let xor_mask = color1_bit | color2_bit;
    let adjacent_face = (face_colors.bits() ^ xor_mask) as usize;
    if color1_inside {
        if next_face.is_none() {
            *next_face = Some(adjacent_face);
        }
    } else {
        if previous_face.is_none() {
            *previous_face = Some(adjacent_face);
        }
    }
    true
}

proof fn lemma_counts_split(s: Seq<Color>, f: int, k: int)
    requires
        0 <= k <= s.len(),
    ensures
        count_transitions(s, f, k) == count_outbound(s, f, k) + count_inbound(s, f, k),
        count_transitions(s, f, k) <= k,
    decreases k,
{
    if k > 0 {
        lemma_counts_split(s, f, k - 1);
    }
}

/// Along the cycle without its last step, outbound minus inbound crossings is the
/// change of inside-ness from the first position to position `k`.
proof fn lemma_counts_balance(s: Seq<Color>, f: int, k: int)
    requires
        0 <= k < s.len(),
    ensures
        count_outbound(s, f, k) as int - count_inbound(s, f, k) as int == (if in_face(f, s[0]) { 1int } else { 0int }) - (if in_face(f, s[k]) { 1int } else { 0int }),
    decreases k,
{
    if k > 0 {
        lemma_counts_balance(s, f, k - 1);
        assert((k - 1 + 1) % (s.len() as int) == k) by {
            vstd::arithmetic::div_mod::lemma_small_mod(k as nat, s.len());
        }
    }
}

/// A cycle crosses out of a face as often as it crosses in.
proof fn lemma_out_equals_in(s: Seq<Color>, f: int)
    requires
        1 <= s.len(),
    ensures
        count_outbound(s, f, s.len() as int) == count_inbound(s, f, s.len() as int),
        count_transitions(s, f, s.len() as int) == count_outbound(s, f, s.len() as int) + count_inbound(s, f, s.len() as int),
{
    let n = s.len() as int;
    lemma_counts_balance(s, f, n - 1);
    lemma_counts_split(s, f, n);
    assert((n - 1 + 1) % n == 0) by {
        vstd::arithmetic::div_mod::lemma_mod_self_0(n);
    }
}

proof fn lemma_count_positive_witness_out(s: Seq<Color>, f: int, k: int)
    requires
        0 <= k <= s.len(),
        count_outbound(s, f, k) > 0,
    ensures
        exists|j: int| 0 <= j < k && #[trigger] outbound_at(s, f, j),
    decreases k,
{
    if k > 0 && !outbound_at(s, f, k - 1) {
        lemma_count_positive_witness_out(s, f, k - 1);
    }
}

proof fn lemma_count_positive_witness_in(s: Seq<Color>, f: int, k: int)
    requires
        0 <= k <= s.len(),
        count_inbound(s, f, k) > 0,
    ensures
        exists|j: int| 0 <= j < k && #[trigger] inbound_at(s, f, j),
    decreases k,
{
    if k > 0 && !inbound_at(s, f, k - 1) {
        lemma_count_positive_witness_in(s, f, k - 1);
    }
}

proof fn lemma_count_mono(s: Seq<Color>, f: int, a: int, b: int)
    requires
        0 <= a <= b,
    ensures
        count_transitions(s, f, a) <= count_transitions(s, f, b),
    decreases b - a,
{
    if a < b {
        lemma_count_mono(s, f, a, b - 1);
    }
}

/// For a cycle that crosses the face boundary exactly twice, the faces it comes from and
/// leads to; None when it crosses any other number of times.
pub fn check_exactly_two_transitions(cycle: &Cycle, face_colors: ColorSet) -> (r: Option<(FaceId, FaceId)>)
    requires
        face_colors.spec_bits() < 64,
    ensures
        ({
            let s = cycle@;
            let f = face_colors.spec_bits() as int;
            &&& r is Some <==> count_transitions(s, f, s.len() as int) == 2
            &&& r matches Some((p, n)) ==> {
                &&& exists|k: int| 0 <= k < s.len() && #[trigger] inbound_at(s, f, k) && p == crossing_face(f, s[k], s[(k + 1) % (s.len() as int)])
                &&& exists|k: int| 0 <= k < s.len() && #[trigger] outbound_at(s, f, k) && n == crossing_face(f, s[k], s[(k + 1) % (s.len() as int)])
            }
        }),
{
    let ghost s = cycle@;
    let ghost f = face_colors.spec_bits() as int;
    let mut transition_count: usize = 0;
    let mut previous_face: Option<FaceId> = None;
    let mut next_face: Option<FaceId> = None;
    let colors = cycle.colors();
    let len = cycle.len();
    proof {
        vstd::arithmetic::div_mod::lemma_mod_self_0(len as int);
        assert((len - 1 + 1) % (len as int) == 0);
    }
    if check_edge_transition(colors[len - 1], colors[0], face_colors, &mut previous_face, &mut next_face) {
        transition_count = transition_count + 1;
    }
    proof {
        if next_face is Some {
            assert(outbound_at(s, f, len - 1));
        }
        if previous_face is Some {
            assert(inbound_at(s, f, len - 1));
        }
    }
    let ghost wrap = len - 1;
    let mut i: usize = 1;
    while i < len
        invariant
            1 <= i <= len,
            len == s.len(),
            colors@ == s,
            3 <= len,
            f == face_colors.spec_bits() as int,
            transition_count <= 2,
            transition_count == (if transition_at(s, f, len - 1) { 1nat } else { 0nat }) + count_transitions(s, f, i - 1),
            next_face is Some <==> (outbound_at(s, f, len - 1) || exists|j: int| 0 <= j < i - 1 && #[trigger] outbound_at(s, f, j)),
            previous_face is Some <==> (inbound_at(s, f, len - 1) || exists|j: int| 0 <= j < i - 1 && #[trigger] inbound_at(s, f, j)),
            next_face matches Some(n) ==> exists|k: int| 0 <= k < s.len() && #[trigger] outbound_at(s, f, k) && n == crossing_face(f, s[k], s[(k + 1) % (s.len() as int)]),
            previous_face matches Some(p) ==> exists|k: int| 0 <= k < s.len() && #[trigger] inbound_at(s, f, k) && p == crossing_face(f, s[k], s[(k + 1) % (s.len() as int)]),
        decreases len - i,
    {
        proof {
            vstd::arithmetic::div_mod::lemma_small_mod(i as nat, len as nat);
            assert((i - 1 + 1) % (len as int) == i);
        }
        let ghost old_next = next_face;
        let ghost old_prev = previous_face;
        let crossed = check_edge_transition(colors[i - 1], colors[i], face_colors, &mut previous_face, &mut next_face);
        proof {
            if next_face != old_next {
                assert(outbound_at(s, f, i - 1));
            }
            if previous_face != old_prev {
                assert(inbound_at(s, f, i - 1));
            }
        }
        if crossed {
            transition_count = transition_count + 1;
            if transition_count > 2 {
                proof {
                    lemma_count_mono(s, f, i as int, len as int);
                    lemma_counts_split(s, f, len as int);
                    assert(count_transitions(s, f, len as int) == count_transitions(s, f, len - 1) + if transition_at(s, f, len - 1) { 1nat } else { 0nat });
                    lemma_count_mono(s, f, i as int, len - 1);
                }
                return None;
            }
        }
        i = i + 1;
    }
    proof {
        assert(count_transitions(s, f, len as int) == count_transitions(s, f, len - 1) + if transition_at(s, f, len - 1) { 1nat } else { 0nat });
    }
    if transition_count == 2 {
        proof {
            lemma_out_equals_in(s, f);
            lemma_count_positive_witness_out(s, f, len as int);
            lemma_count_positive_witness_in(s, f, len as int);
            let jo = choose|j: int| 0 <= j < len && #[trigger] outbound_at(s, f, j);
            let ji = choose|j: int| 0 <= j < len && #[trigger] inbound_at(s, f, j);
            if jo < len - 1 {
                assert(outbound_at(s, f, jo));
            }
            if ji < len - 1 {
                assert(inbound_at(s, f, ji));
            }
        }
        match (previous_face, next_face) {
            (Some(p), Some(n)) => Some((p, n)),
            _ => {
                proof {
                    assert(false);
                }
                None
            },
        }
    } else {
        None
    }
}

/// Where the entry for face `f` and cycle `c` is kept in the next/previous face tables.
pub open spec fn cycle_table_index(f: int, c: int) -> int {
    f * 394 + c
}

/// The colors of a cycle, read as a word, meet the face's colors and their complement
/// exactly when the cycle has colors inside and outside the face.
proof fn lemma_fits_face(cb: u64, f: u64, s: Seq<Color>)
    requires
        cb < 64,
        f < 64,
        forall|i: u64| i < 64 ==> (#[trigger] bit(cb, i) <==> exists|j: int| 0 <= j < s.len() && (#[trigger] s[j]).index() == i),
        forall|j: int| 0 <= j < s.len() ==> (#[trigger] s[j]).index() < NCOLORS,
    ensures
        ((cb & f) != 0 && (cb & !f) != 0) == cycle_fits_face(s, f as int),
{
    assert((cb & f) != 0 <==> (bit(cb, 0) && bit(f, 0) || bit(cb, 1) && bit(f, 1) || bit(cb, 2) && bit(f, 2) || bit(cb, 3)
        && bit(f, 3) || bit(cb, 4) && bit(f, 4) || bit(cb, 5) && bit(f, 5))) by (bit_vector)
        requires cb < 64, f < 64;
    assert((cb & !f) != 0 <==> (bit(cb, 0) && !bit(f, 0) || bit(cb, 1) && !bit(f, 1) || bit(cb, 2) && !bit(f, 2) || bit(cb, 3)
        && !bit(f, 3) || bit(cb, 4) && !bit(f, 4) || bit(cb, 5) && !bit(f, 5))) by (bit_vector)
        requires cb < 64;
    let fi = f as int;
    assert((exists|k: int| 0 <= k < s.len() && in_face(fi, #[trigger] s[k])) <==> exists|i: u64| i < 6 && bit(cb, i) && bit(f, i)) by {
        if exists|k: int| 0 <= k < s.len() && in_face(fi, #[trigger] s[k]) {
            let k = choose|k: int| 0 <= k < s.len() && in_face(fi, #[trigger] s[k]);
            let i = s[k].index() as u64;
            assert(bit(cb, i));
        }
        if exists|i: u64| i < 6 && bit(cb, i) && bit(f, i) {
            let i = choose|i: u64| i < 6 && bit(cb, i) && bit(f, i);
            assert(exists|j: int| 0 <= j < s.len() && (#[trigger] s[j]).index() == i);
            let j = choose|j: int| 0 <= j < s.len() && (#[trigger] s[j]).index() == i;
            assert(in_face(fi, s[j]));
        }
    }
    assert((exists|k: int| 0 <= k < s.len() && !in_face(fi, #[trigger] s[k])) <==> exists|i: u64| i < 6 && bit(cb, i) && !bit(f, i)) by {
        if exists|k: int| 0 <= k < s.len() && !in_face(fi, #[trigger] s[k]) {
            let k = choose|k: int| 0 <= k < s.len() && !in_face(fi, #[trigger] s[k]);
            let i = s[k].index() as u64;
            assert(bit(cb, i));
        }
        if exists|i: u64| i < 6 && bit(cb, i) && !bit(f, i) {
            let i = choose|i: u64| i < 6 && bit(cb, i) && !bit(f, i);
            assert(exists|j: int| 0 <= j < s.len() && (#[trigger] s[j]).index() == i);
            let j = choose|j: int| 0 <= j < s.len() && (#[trigger] s[j]).index() == i;
            assert(!in_face(fi, s[j]));
        }
    }
    if exists|i: u64| i < 6 && bit(cb, i) && bit(f, i) {
        let i = choose|i: u64| i < 6 && bit(cb, i) && bit(f, i);
        assert(i == 0 || i == 1 || i == 2 || i == 3 || i == 4 || i == 5);
    }
    if exists|i: u64| i < 6 && bit(cb, i) && !bit(f, i) {
        let i = choose|i: u64| i < 6 && bit(cb, i) && !bit(f, i);
        assert(i == 0 || i == 1 || i == 2 || i == 3 || i == 4 || i == 5);
    }
    lemma_six_witness(cb, f);
}

proof fn lemma_six_witness(cb: u64, f: u64)
    ensures
        (bit(cb, 0) && bit(f, 0) || bit(cb, 1) && bit(f, 1) || bit(cb, 2) && bit(f, 2) || bit(cb, 3) && bit(f, 3) || bit(cb, 4)
            && bit(f, 4) || bit(cb, 5) && bit(f, 5)) ==> exists|i: u64| i < 6 && #[trigger] bit(cb, i) && bit(f, i),
        (bit(cb, 0) && !bit(f, 0) || bit(cb, 1) && !bit(f, 1) || bit(cb, 2) && !bit(f, 2) || bit(cb, 3) && !bit(f, 3) || bit(cb, 4)
            && !bit(f, 4) || bit(cb, 5) && !bit(f, 5)) ==> exists|i: u64| i < 6 && #[trigger] bit(cb, i) && !bit(f, i),
{
    if bit(cb, 0) {
        assert(bit(cb, 0u64));
    }
    if bit(cb, 1) {
        assert(bit(cb, 1u64));
    }
    if bit(cb, 2) {
        assert(bit(cb, 2u64));
    }
    if bit(cb, 3) {
        assert(bit(cb, 3u64));
    }
    if bit(cb, 4) {
        assert(bit(cb, 4u64));
    }
    if bit(cb, 5) {
        assert(bit(cb, 5u64));
    }
}

/// The colors of a cycle as a set, with its word below 64.
fn cycle_colors_word(cycle: &Cycle) -> (r: u64)
    ensures
        r < 64,
        forall|i: u64| i < 64 ==> (#[trigger] bit(r, i) <==> exists|j: int| 0 <= j < cycle@.len() && (#[trigger] cycle@[j]).index() == i),
        forall|j: int| 0 <= j < cycle@.len() ==> (#[trigger] cycle@[j]).index() < NCOLORS,
        r == cycle.spec_colorset().spec_bits(),
{
    proof {
        use_type_invariant(cycle);
        cycle.lemma_inv();
    }
    let cs = cycle.colorset();
    let r = cs.bits();
    proof {
        assert forall|i: u64| 6 <= i < 64 implies !#[trigger] bit(r, i) by {
            assert(!cs.has(i as nat));
        }
        crate::geometry::bits::lemma_high_bits_clear(r, 6);
        assert(1u64 << 6u64 == 64) by (bit_vector);
        assert forall|i: u64| i < 64 implies (#[trigger] bit(r, i) <==> exists|j: int| 0 <= j < cycle@.len() && (#[trigger] cycle@[j]).index() == i) by {
            assert(cs.has(i as nat) == bit(r, i));
        }
    }
    r
}

/// A table of `n` empty entries.
fn none_table(n: usize) -> (r: Vec<Option<FaceId>>)
    ensures
        r@.len() == n,
        forall|k: int| 0 <= k < n ==> (#[trigger] r@[k]) is None,
{
    let mut t: Vec<Option<FaceId>> = Vec::new();
    let mut i: usize = 0;
    while i < n
        invariant
            i <= n,
            t@.len() == i,
            forall|k: int| 0 <= k < i ==> (#[trigger] t@[k]) is None,
        decreases n - i,
    {
        t.push(None);
        i = i + 1;
    }
    t
}

/// The next/previous face table entries of face `f` are right for the cycles below
/// `upto`, and None above.
pub open spec fn tables_ok_for(f: int, upto: int, next: Seq<Option<FaceId>>, prev: Seq<Option<FaceId>>) -> bool {
    &&& forall|c: int|
        #![trigger next[cycle_table_index(f, c)]]
        #![trigger prev[cycle_table_index(f, c)]]
        0 <= c < NCYCLES ==> {
        &&& (next[cycle_table_index(f, c)] is Some <==> (c < upto && face_allows(f, c)))
        &&& (next[cycle_table_index(f, c)] matches Some(n) ==> next_face_ok(f, c, n as int))
        &&& (prev[cycle_table_index(f, c)] is Some <==> (c < upto && face_allows(f, c)))
        &&& (prev[cycle_table_index(f, c)] matches Some(p) ==> previous_face_ok(f, c, p as int))
    }
}

/// Keep only the cycles that face `f` (not the outer or inner face) allows, and record
/// the faces each of them leads to and comes from.
fn restrict_regular_face(
    face: &mut Face,
    f: usize,
    cycles: &CyclesArray,
    next: &mut Vec<Option<FaceId>>,
    prev: &mut Vec<Option<FaceId>>,
)
    requires
        cycles.wf(),
        0 < f < NFACES - 1,
        old(face).colors.spec_bits() == f as u64,
        forall|c: int| old(face).possible_cycles.has(c) <==> 0 <= c < NCYCLES,
        old(next)@.len() == NFACES * NCYCLES,
        old(prev)@.len() == NFACES * NCYCLES,
        tables_ok_for(f as int, 0, old(next)@, old(prev)@),
    ensures
        final(face).id == old(face).id,
        final(face).colors == old(face).colors,
        final(face).edges == old(face).edges,
        final(face).adjacent_faces == old(face).adjacent_faces,
        final(face).cycle_count == old(face).cycle_count,
        forall|c: int| #[trigger] final(face).possible_cycles.has(c) <==> 0 <= c < NCYCLES && face_allows(f as int, c),
        final(next)@.len() == NFACES * NCYCLES,
        final(prev)@.len() == NFACES * NCYCLES,
        tables_ok_for(f as int, NCYCLES as int, final(next)@, final(prev)@),
        forall|g: int, c: int| 0 <= g < NFACES && g != f && 0 <= c < NCYCLES ==> #[trigger] final(next)@[cycle_table_index(g, c)] == old(next)@[cycle_table_index(g, c)],
        forall|g: int, c: int| 0 <= g < NFACES && g != f && 0 <= c < NCYCLES ==> #[trigger] final(prev)@[cycle_table_index(g, c)] == old(prev)@[cycle_table_index(g, c)],
{
    let face_colors = face.colors;
    let mut possible = face.possible_cycles;
    let mut cycle_id: usize = 0;
    while cycle_id < NCYCLES
        invariant
            cycles.wf(),
            0 < f < NFACES - 1,
            cycle_id <= NCYCLES,
            face.id == old(face).id,
            face.colors == old(face).colors,
            face_colors == face.colors,
            face.edges == old(face).edges,
            face.adjacent_faces == old(face).adjacent_faces,
            face.cycle_count == old(face).cycle_count,
            face_colors.spec_bits() == f as u64,
            forall|c: int| possible.has(c) <==> 0 <= c < NCYCLES && (c >= cycle_id || face_allows(f as int, c)),
            next@.len() == NFACES * NCYCLES,
            prev@.len() == NFACES * NCYCLES,
            tables_ok_for(f as int, cycle_id as int, next@, prev@),
            forall|g: int, c: int| 0 <= g < NFACES && g != f && 0 <= c < NCYCLES ==> #[trigger] next@[cycle_table_index(g, c)] == old(next)@[cycle_table_index(g, c)],
            forall|g: int, c: int| 0 <= g < NFACES && g != f && 0 <= c < NCYCLES ==> #[trigger] prev@[cycle_table_index(g, c)] == old(prev)@[cycle_table_index(g, c)],
        decreases NCYCLES - cycle_id,
    {
        let cycle = cycles.get(cycle_id as u64);
        let cb = cycle_colors_word(cycle);
        let ghost s = cycle@;
        proof {
            lemma_fits_face(cb, f as u64, s);
            assert(s == expected_cycles()[cycle_id as int]);
        }
        let idx = f * NCYCLES + cycle_id;
        assert(idx == cycle_table_index(f as int, cycle_id as int));
        let ghost before = possible;
        let cycle_colorset = cycle.colorset();
        let valid = is_cycle_valid_for_face(cycle_colorset, face_colors);
        proof {
            assert(cycle_colorset.spec_bits() == cb);
            assert(valid == cycle_fits_face(s, f as int));
        }
        if !valid {
            possible.remove(cycle_id as u64);
        } else {
            match check_exactly_two_transitions(cycle, face_colors) {
                Some((prev_face, next_face)) => {
                    next.set(idx, Some(next_face));
                    prev.set(idx, Some(prev_face));
                },
                None => {
                    possible.remove(cycle_id as u64);
                },
            }
        }
        proof {
            assert(face_allows(f as int, cycle_id as int) == (cycle_fits_face(s, f as int) && count_transitions(s, f as int, s.len() as int) == 2));
            assert(possible.has(cycle_id as int) == face_allows(f as int, cycle_id as int));
            assert forall|c: int| possible.has(c) <==> 0 <= c < NCYCLES && (c >= cycle_id + 1 || face_allows(f as int, c)) by {
                if c != cycle_id {
                    assert(possible.has(c) == before.has(c));
                }
            }
            assert forall|c: int| 0 <= c < NCYCLES implies {
                &&& (#[trigger] next@[cycle_table_index(f as int, c)] is Some <==> (c < cycle_id + 1 && face_allows(f as int, c)))
                &&& (next@[cycle_table_index(f as int, c)] matches Some(n) ==> next_face_ok(f as int, c, n as int))
                &&& (prev@[cycle_table_index(f as int, c)] is Some <==> (c < cycle_id + 1 && face_allows(f as int, c)))
                &&& (prev@[cycle_table_index(f as int, c)] matches Some(p) ==> previous_face_ok(f as int, c, p as int))
            } by {
            }
        }
        cycle_id = cycle_id + 1;
    }
    face.possible_cycles = possible;
}

/// Keep only the cycles through all NCOLORS colors, for the outer or inner face `f`;
/// each leads to and comes from `f` itself.
fn restrict_end_face(
    face: &mut Face,
    f: usize,
    cycles: &CyclesArray,
    next: &mut Vec<Option<FaceId>>,
    prev: &mut Vec<Option<FaceId>>,
)
    requires
        cycles.wf(),
        f == 0 || f == NFACES - 1,
        forall|c: int| old(face).possible_cycles.has(c) <==> 0 <= c < NCYCLES,
        old(next)@.len() == NFACES * NCYCLES,
        old(prev)@.len() == NFACES * NCYCLES,
        tables_ok_for(f as int, 0, old(next)@, old(prev)@),
    ensures
        final(face).id == old(face).id,
        final(face).colors == old(face).colors,
        final(face).edges == old(face).edges,
        final(face).adjacent_faces == old(face).adjacent_faces,
        final(face).cycle_count == old(face).cycle_count,
        forall|c: int| #[trigger] final(face).possible_cycles.has(c) <==> 0 <= c < NCYCLES && face_allows(f as int, c),
        final(next)@.len() == NFACES * NCYCLES,
        final(prev)@.len() == NFACES * NCYCLES,
        tables_ok_for(f as int, NCYCLES as int, final(next)@, final(prev)@),
        forall|g: int, c: int| 0 <= g < NFACES && g != f && 0 <= c < NCYCLES ==> #[trigger] final(next)@[cycle_table_index(g, c)] == old(next)@[cycle_table_index(g, c)],
        forall|g: int, c: int| 0 <= g < NFACES && g != f && 0 <= c < NCYCLES ==> #[trigger] final(prev)@[cycle_table_index(g, c)] == old(prev)@[cycle_table_index(g, c)],
{
    filter_cycles_by_length(face, cycles, NCOLORS);
    let mut cycle_id: usize = 0;
    while cycle_id < NCYCLES
        invariant
            cycles.wf(),
            f == 0 || f == NFACES - 1,
            cycle_id <= NCYCLES,
            forall|c: int| face.possible_cycles.has(c) <==> 0 <= c < NCYCLES && face_allows(f as int, c),
            next@.len() == NFACES * NCYCLES,
            prev@.len() == NFACES * NCYCLES,
            tables_ok_for(f as int, cycle_id as int, next@, prev@),
            forall|g: int, c: int| 0 <= g < NFACES && g != f && 0 <= c < NCYCLES ==> #[trigger] next@[cycle_table_index(g, c)] == old(next)@[cycle_table_index(g, c)],
            forall|g: int, c: int| 0 <= g < NFACES && g != f && 0 <= c < NCYCLES ==> #[trigger] prev@[cycle_table_index(g, c)] == old(prev)@[cycle_table_index(g, c)],
        decreases NCYCLES - cycle_id,
    {
        let idx = f * NCYCLES + cycle_id;
        assert(idx == cycle_table_index(f as int, cycle_id as int));
        if face.possible_cycles.contains(cycle_id as u64) {
            next.set(idx, Some(f));
            prev.set(idx, Some(f));
        }
        proof {
            assert forall|c: int| 0 <= c < NCYCLES implies {
                &&& (#[trigger] next@[cycle_table_index(f as int, c)] is Some <==> (c < cycle_id + 1 && face_allows(f as int, c)))
                &&& (next@[cycle_table_index(f as int, c)] matches Some(n) ==> next_face_ok(f as int, c, n as int))
                &&& (prev@[cycle_table_index(f as int, c)] is Some <==> (c < cycle_id + 1 && face_allows(f as int, c)))
                &&& (prev@[cycle_table_index(f as int, c)] matches Some(p) ==> previous_face_ok(f as int, c, p as int))
            } by {
            }
        }
        cycle_id = cycle_id + 1;
    }
}

/// Remove from the face every cycle whose length is not `length`.
pub fn filter_cycles_by_length(face: &mut Face, cycles: &CyclesArray, length: usize)
    requires
        cycles.wf(),
    ensures
        final(face).id == old(face).id,
        final(face).colors == old(face).colors,
        final(face).edges == old(face).edges,
        final(face).adjacent_faces == old(face).adjacent_faces,
        final(face).cycle_count == old(face).cycle_count,
        forall|c: int| final(face).possible_cycles.has(c) <==> old(face).possible_cycles.has(c) && !(0 <= c < NCYCLES
            && expected_cycles()[c].len() != length),
{
    let mut cycle_id: usize = 0;
    while cycle_id < NCYCLES
        invariant
            cycles.wf(),
            cycle_id <= NCYCLES,
            face.id == old(face).id,
            face.colors == old(face).colors,
            face.edges == old(face).edges,
            face.adjacent_faces == old(face).adjacent_faces,
            face.cycle_count == old(face).cycle_count,
            forall|c: int| face.possible_cycles.has(c) <==> old(face).possible_cycles.has(c) && !(0 <= c < cycle_id
                && expected_cycles()[c].len() != length),
        decreases NCYCLES - cycle_id,
    {
        let cycle = cycles.get(cycle_id as u64);
        if cycle.len() != length {
            face.possible_cycles.remove(cycle_id as u64);
        }
        cycle_id = cycle_id + 1;
    }
}

/// The face as made by `create_face_with_edges`, before its cycles are restricted.
pub open spec fn face_base_ok(f: int, face: Face) -> bool {
    &&& face.id == f
    &&& face.colors.spec_bits() == f as u64
    &&& forall|i: int| 0 <= i < NCOLORS ==> #[trigger] face.adjacent_faces@[i] == adjacent_face(f, i)
    &&& forall|i: int| 0 <= i < NCOLORS ==> {
        &&& (#[trigger] face.edges@[i]).color.index() == i
        &&& face.edges@[i].face_colors == face.colors
        &&& face.edges@[i].reversed == EdgeRef { face_id: adjacent_face(f, i) as usize, color_idx: i as usize }
        &&& forall|k: int| 0 <= k < NCOLORS ==> (#[trigger] face.edges@[i].possibly_to@[k]) is None
    }
}

/// How far the tables of face `g` are filled once the faces below `f` are done.
spec fn upto_for(g: int, f: int) -> int {
    if g < f {
        NCYCLES as int
    } else {
        0
    }
}

/// Restrict every face to the cycles it allows, and build the tables of the faces each
/// allowed cycle leads to and comes from.
fn apply_monotonicity_constraints(faces0: Vec<Face>, cycles: &CyclesArray) -> (r: (Vec<Face>, Vec<Option<FaceId>>, Vec<Option<FaceId>>))
    requires
        cycles.wf(),
        faces0@.len() == NFACES,
        forall|f: int| 0 <= f < NFACES ==> face_base_ok(f, #[trigger] faces0@[f]),
        forall|f: int, c: int| 0 <= f < NFACES ==> (#[trigger] faces0@[f].possible_cycles.has(c) <==> 0 <= c < NCYCLES),
    ensures
        r.0@.len() == NFACES,
        forall|f: int| 0 <= f < NFACES ==> face_base_ok(f, #[trigger] r.0@[f]),
        forall|f: int, c: int| 0 <= f < NFACES ==> (#[trigger] r.0@[f].possible_cycles.has(c) <==> 0 <= c < NCYCLES && face_allows(f, c)),
        r.1@.len() == NFACES * NCYCLES,
        r.2@.len() == NFACES * NCYCLES,
        forall|f: int| 0 <= f < NFACES ==> #[trigger] tables_ok_for(f, NCYCLES as int, r.1@, r.2@),
{
    let mut faces = faces0;
    let mut next_by_cycle = none_table(NFACES * NCYCLES);
    let mut previous_by_cycle = none_table(NFACES * NCYCLES);
    let mut f: usize = 0;
    while f < NFACES
        invariant
            cycles.wf(),
            f <= NFACES,
            faces@.len() == NFACES,
            next_by_cycle@.len() == NFACES * NCYCLES,
            previous_by_cycle@.len() == NFACES * NCYCLES,
            forall|g: int| 0 <= g < NFACES ==> face_base_ok(g, #[trigger] faces@[g]),
            forall|g: int, c: int| 0 <= g < NFACES ==> (#[trigger] faces@[g].possible_cycles.has(c) <==> 0 <= c < NCYCLES && (g >= f
                || face_allows(g, c))),
            forall|g: int| 0 <= g < NFACES ==> #[trigger] tables_ok_for(g, upto_for(g, f as int), next_by_cycle@, previous_by_cycle@),
        decreases NFACES - f,
    {
        let mut face = faces[f];
        let ghost before_next = next_by_cycle@;
        let ghost before_prev = previous_by_cycle@;
        proof {
            assert(tables_ok_for(f as int, upto_for(f as int, f as int), next_by_cycle@, previous_by_cycle@));
            assert(upto_for(f as int, f as int) == 0);
        }
        if f == 0 || f == NFACES - 1 {
            restrict_end_face(&mut face, f, cycles, &mut next_by_cycle, &mut previous_by_cycle);
        } else {
            restrict_regular_face(&mut face, f, cycles, &mut next_by_cycle, &mut previous_by_cycle);
        }
        let ghost before_faces = faces@;
        faces.set(f, face);
        proof {
            assert forall|g: int| 0 <= g < NFACES implies #[trigger] tables_ok_for(g, upto_for(g, f + 1), next_by_cycle@, previous_by_cycle@) by {
                if g != f {
                    assert(tables_ok_for(g, upto_for(g, f as int), before_next, before_prev));
                    assert forall|c: int| 0 <= c < NCYCLES implies #[trigger] next_by_cycle@[cycle_table_index(g, c)] == before_next[cycle_table_index(g, c)]
                        && previous_by_cycle@[cycle_table_index(g, c)] == before_prev[cycle_table_index(g, c)] by {}
                }
            }
            assert forall|g: int| 0 <= g < NFACES implies face_base_ok(g, #[trigger] faces@[g]) by {
                if g != f {
                    assert(faces@[g] == before_faces[g]);
                } else {
                    assert(faces@[g] == face);
                }
            }
            assert forall|g: int, c: int| 0 <= g < NFACES implies (#[trigger] faces@[g].possible_cycles.has(c) <==> 0 <= c < NCYCLES && (g >= f + 1
                || face_allows(g, c))) by {
                if g != f {
                    assert(faces@[g] == before_faces[g]);
                    assert(before_faces[g].possible_cycles.has(c) <==> 0 <= c < NCYCLES && (g >= f || face_allows(g, c)));
                } else {
                    assert(faces@[g] == face);
                    assert(face.possible_cycles.has(c) <==> 0 <= c < NCYCLES && face_allows(f as int, c));
                }
            }
        }
        f = f + 1;
    }
    proof {
        assert forall|g: int| 0 <= g < NFACES implies #[trigger] tables_ok_for(g, NCYCLES as int, next_by_cycle@, previous_by_cycle@) by {
            assert(tables_ok_for(g, upto_for(g, NFACES as int), next_by_cycle@, previous_by_cycle@));
        }
    }
    (faces, next_by_cycle, previous_by_cycle)
}

impl FacesMemo {
    /// The faces have their ids, colors, edges, adjacency and vertex links, and exactly the
    /// cycles they allow; the degrees are C(NCOLORS, k); the next and previous face tables
    /// are right for every face and cycle.
    pub closed spec fn wf(&self) -> bool {
        &&& self.faces@.len() == NFACES
        &&& forall|f: int| 0 <= f < NFACES ==> face_shape_ok(f, #[trigger] self.faces@[f])
        &&& forall|f: int| 0 <= f < NFACES ==> face_links_ok(f, #[trigger] self.faces@[f])
        &&& forall|k: int| 0 <= k <= NCOLORS ==> #[trigger] self.face_degree_by_color_count@[k] == spec_choose(NCOLORS as nat, k as nat)
        &&& self.next_face_by_cycle@.len() == NFACES * NCYCLES
        &&& self.previous_face_by_cycle@.len() == NFACES * NCYCLES
        &&& forall|f: int| 0 <= f < NFACES ==> #[trigger] tables_ok_for(f, NCYCLES as int, self.next_face_by_cycle@, self.previous_face_by_cycle@)
    }

    /// Each face's links are those of `spec_link`.
    pub proof fn lemma_face_links(&self, f: int)
        requires
            self.wf(),
            0 <= f < NFACES,
        ensures
            face_links_ok(f, self.spec_face(f)),
    {
    }

    /// The face with the given id.
    pub closed spec fn spec_face(&self, f: int) -> Face {
        self.faces@[f]
    }

    /// Build the faces and tables for the cycle table, and link every edge to the vertex
    /// where it meets each other color.
    pub fn initialize(cycles: &CyclesArray, vertices: &VerticesMemo) -> (r: Self)
        requires
            cycles.wf(),
            vertices.wf(),
        ensures
            r.wf(),
    {
        let face_degree_by_color_count = compute_binomial_coefficients();
        let mut faces: Vec<Face> = Vec::new();
        let mut face_id: usize = 0;
        while face_id < NFACES
            invariant
                face_id <= NFACES,
                faces@.len() == face_id,
                forall|f: int| 0 <= f < face_id ==> face_base_ok(f, #[trigger] faces@[f]),
                forall|f: int, c: int| 0 <= f < face_id ==> (#[trigger] faces@[f].possible_cycles.has(c) <==> 0 <= c < NCYCLES),
            decreases NFACES - face_id,
        {
            faces.push(create_face_with_edges(face_id));
            face_id = face_id + 1;
        }
        let (faces, next_face_by_cycle, previous_face_by_cycle) = apply_monotonicity_constraints(faces, cycles);
        let mut memo = FacesMemo { faces, face_degree_by_color_count, next_face_by_cycle, previous_face_by_cycle };
        memo.populate_vertex_links(vertices);
        memo
    }

    /// Link the edge of each color of each face to the vertex where it meets each other
    /// color: the link names the vertex and the edge of the same color on the face across
    /// both colors.
    pub fn populate_vertex_links(&mut self, vertices: &VerticesMemo)
        requires
            vertices.wf(),
            old(self).faces@.len() == NFACES,
            forall|f: int| 0 <= f < NFACES ==> face_base_ok(f, #[trigger] old(self).faces@[f]),
        ensures
            final(self).faces@.len() == NFACES,
            forall|f: int| 0 <= f < NFACES ==> face_links_ok(f, #[trigger] final(self).faces@[f]),
            forall|f: int| 0 <= f < NFACES ==> {
                &&& (#[trigger] final(self).faces@[f]).id == old(self).faces@[f].id
                &&& final(self).faces@[f].colors == old(self).faces@[f].colors
                &&& final(self).faces@[f].possible_cycles == old(self).faces@[f].possible_cycles
                &&& final(self).faces@[f].cycle_count == old(self).faces@[f].cycle_count
                &&& final(self).faces@[f].adjacent_faces == old(self).faces@[f].adjacent_faces
                &&& forall|i: int| 0 <= i < NCOLORS ==> {
                    &&& (#[trigger] final(self).faces@[f].edges@[i]).color == old(self).faces@[f].edges@[i].color
                    &&& final(self).faces@[f].edges@[i].face_colors == old(self).faces@[f].edges@[i].face_colors
                    &&& final(self).faces@[f].edges@[i].reversed == old(self).faces@[f].edges@[i].reversed
                }
            },
            final(self).face_degree_by_color_count == old(self).face_degree_by_color_count,
            final(self).next_face_by_cycle == old(self).next_face_by_cycle,
            final(self).previous_face_by_cycle == old(self).previous_face_by_cycle,
    {
        proof {
            vertices.lemma_wf();
        }
        let mut face_id: usize = 0;
        while face_id < NFACES
            invariant
                vertices.wf(),
                face_id <= NFACES,
                self.faces@.len() == NFACES,
                forall|f: int| 0 <= f < face_id ==> face_links_ok(f, #[trigger] self.faces@[f]),
                forall|f: int| face_id <= f < NFACES ==> self.faces@[f] == old(self).faces@[f],
                forall|f: int| 0 <= f < NFACES ==> {
                    &&& (#[trigger] self.faces@[f]).id == old(self).faces@[f].id
                    &&& self.faces@[f].colors == old(self).faces@[f].colors
                    &&& self.faces@[f].possible_cycles == old(self).faces@[f].possible_cycles
                    &&& self.faces@[f].cycle_count == old(self).faces@[f].cycle_count
                    &&& self.faces@[f].adjacent_faces == old(self).faces@[f].adjacent_faces
                    &&& forall|i: int| 0 <= i < NCOLORS ==> {
                        &&& (#[trigger] self.faces@[f].edges@[i]).color == old(self).faces@[f].edges@[i].color
                        &&& self.faces@[f].edges@[i].face_colors == old(self).faces@[f].edges@[i].face_colors
                        &&& self.faces@[f].edges@[i].reversed == old(self).faces@[f].edges@[i].reversed
                    }
                },
                self.face_degree_by_color_count == old(self).face_degree_by_color_count,
                self.next_face_by_cycle == old(self).next_face_by_cycle,
                self.previous_face_by_cycle == old(self).previous_face_by_cycle,
            decreases NFACES - face_id,
        {
            let face = self.faces[face_id];
            proof {
                assert(face == old(self).faces@[face_id as int]);
                assert(face_base_ok(face_id as int, face));
            }
            let linked = link_face(face, face_id, vertices);
            self.faces.set(face_id, linked);
            face_id = face_id + 1;
        }
    }

    /// The face with the given id.
    pub fn get_face(&self, face_id: FaceId) -> (r: &Face)
        requires
            self.wf(),
            face_id < NFACES,
        ensures
            *r == self.spec_face(face_id as int),
            face_shape_ok(face_id as int, *r),
            face_links_ok(face_id as int, *r),
    {
        &self.faces[face_id]
    }

    /// The face that the cycle of the face leads to, when the face allows the cycle.
    pub fn next_face_by_cycle(&self, face_id: FaceId, cycle_id: CycleId) -> (r: Option<FaceId>)
        requires
            self.wf(),
            face_id < NFACES,
            cycle_id < NCYCLES,
        ensures
            r is Some <==> face_allows(face_id as int, cycle_id as int),
            r matches Some(n) ==> next_face_ok(face_id as int, cycle_id as int, n as int),
    {
        proof {
            assert(tables_ok_for(face_id as int, NCYCLES as int, self.next_face_by_cycle@, self.previous_face_by_cycle@));
            assert(cycle_table_index(face_id as int, cycle_id as int) == face_id * NCYCLES + cycle_id);
        }
        self.next_face_by_cycle[face_id * NCYCLES + cycle_id as usize]
    }

    /// The face that the cycle of the face comes from, when the face allows the cycle.
    pub fn previous_face_by_cycle(&self, face_id: FaceId, cycle_id: CycleId) -> (r: Option<FaceId>)
        requires
            self.wf(),
            face_id < NFACES,
            cycle_id < NCYCLES,
        ensures
            r is Some <==> face_allows(face_id as int, cycle_id as int),
            r matches Some(p) ==> previous_face_ok(face_id as int, cycle_id as int, p as int),
    {
        proof {
            assert(tables_ok_for(face_id as int, NCYCLES as int, self.next_face_by_cycle@, self.previous_face_by_cycle@));
            assert(cycle_table_index(face_id as int, cycle_id as int) == face_id * NCYCLES + cycle_id);
        }
        self.previous_face_by_cycle[face_id * NCYCLES + cycle_id as usize]
    }

    /// The degree C(NCOLORS, k) expected for faces with k colors.
    pub fn face_degree(&self, color_count: usize) -> (r: u64)
        requires
            self.wf(),
            color_count <= NCOLORS,
        ensures
            r == spec_choose(NCOLORS as nat, color_count as nat),
    {
        self.face_degree_by_color_count[color_count]
    }
}

/// The face with the links of all its edges filled in.
fn link_face(face: Face, face_id: usize, vertices: &VerticesMemo) -> (r: Face)
    requires
        vertices.wf(),
        face_id < NFACES,
        face_base_ok(face_id as int, face),
    ensures
        face_links_ok(face_id as int, r),
        r.id == face.id,
        r.colors == face.colors,
        r.possible_cycles == face.possible_cycles,
        r.cycle_count == face.cycle_count,
        r.adjacent_faces == face.adjacent_faces,
        forall|i: int| 0 <= i < NCOLORS ==> {
            &&& (#[trigger] r.edges@[i]).color == face.edges@[i].color
            &&& r.edges@[i].face_colors == face.edges@[i].face_colors
            &&& r.edges@[i].reversed == face.edges@[i].reversed
        },
{
    proof {
        vertices.lemma_wf();
    }
    let mut out = face;
    let face_colors = face.colors;
    let mut edge_color_idx: usize = 0;
    while edge_color_idx < NCOLORS
        invariant
            vertices.wf(),
            face_id < NFACES,
            face_base_ok(face_id as int, face),
            face_colors == face.colors,
            edge_color_idx <= NCOLORS,
            out.id == face.id,
            out.colors == face.colors,
            out.possible_cycles == face.possible_cycles,
            out.cycle_count == face.cycle_count,
            out.adjacent_faces == face.adjacent_faces,
            forall|i: int| 0 <= i < NCOLORS ==> {
                &&& (#[trigger] out.edges@[i]).color == face.edges@[i].color
                &&& out.edges@[i].face_colors == face.edges@[i].face_colors
                &&& out.edges@[i].reversed == face.edges@[i].reversed
            },
            forall|e: int, x: int| 0 <= e < edge_color_idx && 0 <= x < NCOLORS ==> #[trigger] out.edges@[e].possibly_to@[x] == spec_link(face_id as int, e, x),
            forall|e: int, x: int| edge_color_idx <= e < NCOLORS && 0 <= x < NCOLORS ==> (#[trigger] out.edges@[e].possibly_to@[x]) is None,
        decreases NCOLORS - edge_color_idx,
    {
        let edge = link_edge(out.edges[edge_color_idx], face_colors, face_id, edge_color_idx, vertices);
        out.edges[edge_color_idx] = edge;
        edge_color_idx = edge_color_idx + 1;
    }
    out
}

/// The edge of color `edge_color_idx` of face `face_id`, with its link towards every
/// other color filled in.
#[verifier::rlimit(40)]
fn link_edge(edge0: EdgeMemo, face_colors: ColorSet, face_id: usize, edge_color_idx: usize, vertices: &VerticesMemo) -> (r: EdgeMemo)
    requires
        vertices.wf(),
        face_id < NFACES,
        face_colors.spec_bits() == face_id as u64,
        edge_color_idx < NCOLORS,
    ensures
        r.color == edge0.color,
        r.face_colors == edge0.face_colors,
        r.reversed == edge0.reversed,
        forall|x: int| 0 <= x < NCOLORS ==> #[trigger] r.possibly_to@[x] == spec_link(face_id as int, edge_color_idx as int, x),
{
    proof {
        vertices.lemma_wf();
    }
    let mut edge = edge0;
    let edge_color = Color::new(edge_color_idx as u8);
    let mut next_color_idx: usize = 0;
    while next_color_idx < NCOLORS
        invariant
            vertices.wf(),
            face_id < NFACES,
            face_colors.spec_bits() == face_id as u64,
            edge_color_idx < NCOLORS,
            edge_color.index() == edge_color_idx,
            next_color_idx <= NCOLORS,
            edge.color == edge0.color,
            edge.face_colors == edge0.face_colors,
            edge.reversed == edge0.reversed,
            forall|x: int| 0 <= x < next_color_idx ==> #[trigger] edge.possibly_to@[x] == spec_link(face_id as int, edge_color_idx as int, x),
        decreases NCOLORS - next_color_idx,
    {
        if next_color_idx != edge_color_idx {
            let next_color = Color::new(next_color_idx as u8);
            let loc = VertexLocation::new(edge_color, next_color, face_colors);
            let primary_idx = loc.primary.as_usize();
            let secondary_idx = loc.secondary.as_usize();
            proof {
                crate::memo::vertices::lemma_location(face_id as u64, edge_color_idx as u64, next_color_idx as u64);
            }
            let vertex_opt = vertices.get_vertex(loc.outside_face, primary_idx, secondary_idx);
            let ghost n = vertex_index(loc.outside_face as int, primary_idx as int, secondary_idx as int);
            proof {
                assert(n == link_vertex_index(face_id as int, edge_color_idx as int, next_color_idx as int));
                assert(n / 36 == loc.outside_face && (n / 6) % 6 == primary_idx && n % 6 == secondary_idx);
                assert(crate::memo::vertices::vertex_entry_ok(n, vertices.spec_entry(n)));
            }
            if let Some(vertex) = vertex_opt {
                let next_color_bit = 1u64 << next_color_idx as u64;
                proof {
                    crate::geometry::bits::lemma_toggle_two_bits_bound(face_id as u64, next_color_idx as u64, next_color_idx as u64);
                }
                let next_face_id = (face_colors.bits() ^ next_color_bit) as usize;
                let next_edge_ref = EdgeRef::new(next_face_id, edge_color_idx);
                let link = CurveLink::new(next_edge_ref, vertex.id);
                edge.set_possibly_to(next_color_idx, Some(link));
            } else {
                proof {
                    assert(crate::memo::vertices::slot_valid_at(n));
                }
            }
        } else {
            edge.set_possibly_to(next_color_idx, None);
        }
        next_color_idx = next_color_idx + 1;
    }
    edge
}

/// The faces a cycle of a face leads to and comes from are faces.
pub proof fn lemma_crossing_face_bound(f: int, c: int)
    requires
        0 <= f < NFACES,
        0 <= c < NCYCLES,
        expected_cycles().len() == NCYCLES,
    ensures
        forall|k: int| 0 <= k < expected_cycles()[c].len() ==> 0 <= #[trigger] crossing_face(f, expected_cycles()[c][k],
            expected_cycles()[c][(k + 1) % (expected_cycles()[c].len() as int)]) < NFACES,
{
    crate::memo::cycles::lemma_expected_cycle_colors(c);
    let s = expected_cycles()[c];
    assert forall|k: int| 0 <= k < s.len() implies 0 <= #[trigger] crossing_face(f, s[k], s[(k + 1) % (s.len() as int)]) < NFACES by {
        let x = s[k].index() as u64;
        let y = s[(k + 1) % (s.len() as int)].index() as u64;
        let fu = f as u64;
        crate::geometry::bits::lemma_toggle_two_bits_bound(fu, x, y);
    }
}

/// A vertex link names an edge and a vertex that exist, on the same curve.
pub proof fn lemma_spec_link_in_range(f: int, e: int, x: int)
    requires
        0 <= f < NFACES,
        0 <= e < NCOLORS,
        0 <= x < NCOLORS,
        count_valid_below(2304) == crate::geometry::constants::NPOINTS,
    ensures
        spec_link(f, e, x) matches Some(l) ==> {
            &&& crate::state::edge::link_in_range(l)
            &&& l.next.color_idx == e
            &&& l.vertex_id < crate::geometry::constants::NPOINTS
        },
{
    if e != x {
        let fu = f as u64;
        let eu = e as u64;
        let xu = x as u64;
        crate::memo::vertices::lemma_location(fu, eu, xu);
        let n = link_vertex_index(f, e, x);
        let slot = spec_incoming_slot(bit(fu, eu), bit(fu, xu));
        let p = if slot <= 1 { e } else { x };
        let s = if slot <= 1 { x } else { e };
        let o = (fu & !(1u64 << p as u64) & !(1u64 << s as u64)) as int;
        assert(n == vertex_index(o, p, s));
        assert(n / 36 == o && (n / 6) % 6 == p && n % 6 == s);
        assert(crate::memo::vertices::slot_valid_at(n));
        crate::memo::vertices::lemma_vertex_number_bound(n);
        crate::geometry::bits::lemma_toggle_two_bits_bound(fu, xu, xu);
    }
}

/// The link of the edge of color `e` of face `f` towards color `x` names the vertex of the
/// table where `e` and `x` cross, and the edge is one of that vertex's incoming edges, in
/// the slot its position gives.
#[verifier::rlimit(40)]
pub proof fn lemma_link_names_table_vertex(vertices: &VerticesMemo, f: int, e: int, x: int)
    requires
        vertices.wf(),
        0 <= f < NFACES,
        0 <= e < NCOLORS,
        0 <= x < NCOLORS,
        e != x,
    ensures
        spec_link(f, e, x) matches Some(l) && ({
            let v = vertices.spec_by_id()[l.vertex_id as int];
            let slot = spec_incoming_slot(bit(f as u64, e as u64), bit(f as u64, x as u64)) as int;
            &&& l.vertex_id < crate::geometry::constants::NPOINTS
            &&& v.id == l.vertex_id
            &&& (v.primary.index() == e && v.secondary.index() == x) || (v.primary.index() == x && v.secondary.index() == e)
            &&& v.incoming_edges@[slot] == spec_edge_id(f, e) as usize
        }),
{
    vertices.lemma_wf();
    lemma_spec_link_in_range(f, e, x);
    let fu = f as u64;
    let eu = e as u64;
    let xu = x as u64;
    crate::memo::vertices::lemma_location(fu, eu, xu);
    crate::memo::vertices::lemma_incoming_position(fu, eu, xu);
    let n = link_vertex_index(f, e, x);
    let slot = spec_incoming_slot(bit(fu, eu), bit(fu, xu));
    let p = if slot <= 1 { e } else { x };
    let s = if slot <= 1 { x } else { e };
    let o = (fu & !(1u64 << p as u64) & !(1u64 << s as u64)) as int;
    assert(n == vertex_index(o, p, s));
    assert(n / 36 == o && (n / 6) % 6 == p && n % 6 == s);
    assert(crate::memo::vertices::slot_valid_at(n));
    assert(vertices.spec_entry(n) == Some(vertices.spec_by_id()[count_valid_below(n) as int]));
    assert(crate::memo::vertices::vertex_entry_ok(n, vertices.spec_entry(n)));
    let v = vertices.spec_by_id()[count_valid_below(n) as int];
    assert(v.incoming_edges@ == crate::memo::vertices::incoming_spec(o, p, s));
    let ou = o as u64;
    let be = 1u64 << eu;
    let bx = 1u64 << xu;
    if bit(fu, eu) && bit(fu, xu) {
        assert(slot == 0);
        assert((ou | be | bx) == fu);
    } else if bit(fu, eu) {
        assert(slot == 3);
        assert((ou | be) == fu);
    } else if bit(fu, xu) {
        assert(slot == 2);
        assert((ou | bx) == fu);
    } else {
        assert(slot == 1);
        assert(ou == fu);
    }
}

/// Seen from a vertex: each incoming edge of the vertex at table position `n` links,
/// towards the other color crossing there, to that vertex, continuing on the face across
/// that other color only.
pub proof fn lemma_links_from_vertex(n: int, k: int)
    requires
        0 <= n < 2304,
        crate::memo::vertices::slot_valid_at(n),
        0 <= k < 4,
    ensures
        ({
            let p = (n / 6) % 6;
            let s = n % 6;
            let inc = crate::memo::vertices::incoming_spec(n / 36, p, s);
            let f = (inc[k] / 6) as int;
            let c = (inc[k] % 6) as int;
            let x = if c == p { s } else { p };
            spec_link(f, c, x) == Some(
                CurveLink {
                    next: EdgeRef { face_id: (f as u64 ^ (1u64 << x as u64)) as usize, color_idx: c as usize },
                    vertex_id: count_valid_below(n) as usize,
                },
            )
        }),
{
    let o = n / 36;
    let p = (n / 6) % 6;
    let s = n % 6;
    let ou = o as u64;
    let pu = p as u64;
    let su = s as u64;
    crate::memo::vertices::lemma_incoming_shape(n);
    crate::memo::vertices::lemma_added_bits(ou, pu, su);
    crate::memo::vertices::lemma_added_bits_bound(ou, pu, su);
    let inc = crate::memo::vertices::incoming_spec(o, p, s);
    let g0 = (ou | (1u64 << pu) | (1u64 << su)) as int;
    let g2 = (ou | (1u64 << pu)) as int;
    let g3 = (ou | (1u64 << su)) as int;
    assert(inc[0] / 6 == g0 && inc[1] / 6 == o && inc[2] / 6 == g2 && inc[3] / 6 == g3);
    assert(n == crate::memo::vertices::vertex_index(o, p, s));
    let f = (inc[k] / 6) as int;
    let c = (inc[k] % 6) as int;
    let x = if c == p { s } else { p };
    assert(link_vertex_index(f, c, x) == n);
}

} // verus!
