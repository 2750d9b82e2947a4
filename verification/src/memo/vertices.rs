//! The possible vertices: the points where two curves can cross.
//!
//! A vertex is named by (outside face, primary, secondary): the face id with both
//! crossing colors removed, and the two crossing colors in order. Its four incoming
//! edges lie on the faces outside both curves, inside one, or inside both.
//! Vertices are numbered in the lexicographic order of their names.

use crate::geometry::bits::bit;
use crate::geometry::color::Color;
use crate::geometry::color_set::ColorSet;
use crate::geometry::constants::{NCOLORS, NFACES, NPOINTS};
use crate::geometry::edge::{spec_edge_id, EdgeRef};
use crate::geometry::vertex::Vertex;
use vstd::prelude::*;

verus! {

/// Whether an edge runs clockwise around its face: its color bounds the face.
pub fn is_edge_clockwise(edge_color: Color, face_colors: ColorSet) -> (r: bool)
    ensures
        r == face_colors.has(edge_color.index() as nat),
{
    face_colors.contains(edge_color)
}

/// The incoming-edge slot for an edge whose color is (or is not) in the face, crossing a
/// color that is (or is not) in the face.
pub open spec fn spec_incoming_slot(edge_in: bool, other_in: bool) -> usize {
    if edge_in {
        if other_in {
            0
        } else {
            3
        }
    } else if other_in {
        2
    } else {
        1
    }
}

/// Which slot (0-3) an incoming edge occupies at its vertex: 0 clockwise with the other
/// color inside the face, 1 counterclockwise with it outside, 2 counterclockwise with it
/// inside, 3 clockwise with it outside.
pub fn compute_incoming_edge_slot(edge_color: Color, other_color: Color, face_colors: ColorSet) -> (r: usize)
    ensures
        r == spec_incoming_slot(face_colors.has(edge_color.index() as nat), face_colors.has(other_color.index() as nat)),
{
    let is_clockwise = is_edge_clockwise(edge_color, face_colors);
    let other_in_face = face_colors.contains(other_color);
    if is_clockwise {
        if other_in_face {
            0
        } else {
            3
        }
    } else if other_in_face {
        2
    } else {
        1
    }
}

/// The primary and secondary colors for a slot: slots 0 and 1 have the edge's color
/// primary, slots 2 and 3 the other color.
pub fn determine_primary_secondary(slot: usize, edge_color: Color, other_color: Color) -> (r: (Color, Color))
    requires
        slot < 4,
    ensures
        r == (if slot <= 1 { (edge_color, other_color) } else { (other_color, edge_color) }),
{
    if slot <= 1 {
        (edge_color, other_color)
    } else {
        (other_color, edge_color)
    }
}

/// The outside face of a vertex: the face's colors without the two crossing colors.
pub fn compute_outside_face(face_colors: ColorSet, primary: Color, secondary: Color) -> (r: usize)
    ensures
        r == (face_colors.spec_bits() & !(1u64 << primary.index()) & !(1u64 << secondary.index())) as usize,
{
    let mut outside = face_colors;
    outside.remove(primary);
    outside.remove(secondary);
    outside.bits() as usize
}

/// Where a crossing seen from a face is kept: the vertex name and the incoming slot.
pub struct VertexLocation {
    /// The outside face of the vertex.
    pub outside_face: usize,
    /// The primary color.
    pub primary: Color,
    /// The secondary color.
    pub secondary: Color,
    /// The slot of the incoming edge.
    pub slot: usize,
}

impl VertexLocation {
    /// The location of the crossing of the edge of `edge_color` with `other_color`, seen
    /// from a face with the given colors.
    pub fn new(edge_color: Color, other_color: Color, face_colors: ColorSet) -> (r: Self)
        ensures
            r.slot == spec_incoming_slot(face_colors.has(edge_color.index() as nat), face_colors.has(other_color.index() as nat)),
            (r.primary, r.secondary) == (if r.slot <= 1 { (edge_color, other_color) } else { (other_color, edge_color) }),
            r.outside_face == (face_colors.spec_bits() & !(1u64 << r.primary.index()) & !(1u64 << r.secondary.index())) as usize,
    {
        let slot = compute_incoming_edge_slot(edge_color, other_color, face_colors);
        let (primary, secondary) = determine_primary_secondary(slot, edge_color, other_color);
        let outside_face = compute_outside_face(face_colors, primary, secondary);
        VertexLocation { outside_face, primary, secondary, slot }
    }
}

/// (o, p, s) names a possible vertex: two different colors p and s, and an outside face
/// o inside neither.
pub open spec fn vertex_slot_valid(o: int, p: int, s: int) -> bool {
    &&& 0 <= o < NFACES
    &&& 0 <= p < NCOLORS
    &&& 0 <= s < NCOLORS
    &&& p != s
    &&& !bit(o as u64, p as u64)
    &&& !bit(o as u64, s as u64)
}

/// The position of the name (o, p, s) in the table.
pub open spec fn vertex_index(o: int, p: int, s: int) -> int {
    (o * 6 + p) * 6 + s
}

/// Whether table position `n` names a possible vertex.
pub open spec fn slot_valid_at(n: int) -> bool {
    vertex_slot_valid(n / 36, (n / 6) % 6, n % 6)
}

/// The number of possible vertices named before table position `n`.
pub open spec fn count_valid_below(n: int) -> nat
    decreases n,
{
    if n <= 0 {
        0
    } else {
        count_valid_below(n - 1) + if slot_valid_at(n - 1) {
            1nat
        } else {
            0nat
        }
    }
}

/// The incoming edges of the vertex (o, p, s): of color p on the faces inside both and
/// inside neither curve, then of color s on the faces inside p only and inside s only.
pub open spec fn incoming_spec(o: int, p: int, s: int) -> Seq<usize> {
    let bp = 1u64 << (p as u64);
    let bs = 1u64 << (s as u64);
    let ou = o as u64;
    seq![
        spec_edge_id((ou | bp | bs) as int, p) as usize,
        spec_edge_id(o, p) as usize,
        spec_edge_id((ou | bp) as int, s) as usize,
        spec_edge_id((ou | bs) as int, s) as usize,
    ]
}

/// What the table holds at position `n`.
pub open spec fn vertex_entry_ok(n: int, e: Option<Vertex>) -> bool {
    &&& (e is Some <==> slot_valid_at(n))
    &&& (e matches Some(v) ==> {
        &&& v.id == count_valid_below(n)
        &&& v.primary.index() == (n / 6) % 6
        &&& v.secondary.index() == n % 6
        &&& v.incoming_edges@ == incoming_spec(n / 36, (n / 6) % 6, n % 6)
    })
}

proof fn lemma_count_le(n: int)
    requires
        n >= 0,
    ensures
        count_valid_below(n) <= n,
    decreases n,
{
    if n > 0 {
        lemma_count_le(n - 1);
    }
}

proof fn lemma_count_mono(a: int, b: int)
    requires
        a <= b,
    ensures
        count_valid_below(a) <= count_valid_below(b),
    decreases b - a,
{
    if a < b {
        lemma_count_mono(a, b - 1);
    }
}

/// The table of possible vertices, by name and by id.
#[derive(Debug, Clone)]
pub struct VerticesMemo {
    vertices: Vec<Option<Vertex>>,
    vertices_by_id: Vec<Vertex>,
}

impl VerticesMemo {
    /// The table entry at position `n`.
    pub closed spec fn spec_entry(&self, n: int) -> Option<Vertex> {
        self.vertices@[n]
    }

    /// The vertices in id order.
    pub closed spec fn spec_by_id(&self) -> Seq<Vertex> {
        self.vertices_by_id@
    }

    /// Every position holds its vertex exactly when it names a possible vertex, with the
    /// id, colors and incoming edges its name gives; the id list holds the NPOINTS
    /// vertices in id order.
    pub closed spec fn wf(&self) -> bool {
        &&& self.vertices@.len() == 2304
        &&& forall|n: int| 0 <= n < 2304 ==> vertex_entry_ok(n, #[trigger] self.vertices@[n])
        &&& self.vertices_by_id@.len() == NPOINTS
        &&& count_valid_below(2304) == NPOINTS
        &&& forall|n: int| 0 <= n < 2304 && slot_valid_at(n) ==> self.vertices@[n] == Some(
            #[trigger] self.vertices_by_id@[count_valid_below(n) as int],
        )
    }

    /// What `wf` says, stated openly.
    pub proof fn lemma_wf(&self)
        requires
            self.wf(),
        ensures
            forall|n: int| 0 <= n < 2304 ==> vertex_entry_ok(n, #[trigger] self.spec_entry(n)),
            self.spec_by_id().len() == NPOINTS,
            count_valid_below(2304) == NPOINTS,
            forall|n: int| 0 <= n < 2304 && slot_valid_at(n) ==> self.spec_entry(n) == Some(
                #[trigger] self.spec_by_id()[count_valid_below(n) as int],
            ),
            forall|j: int| 0 <= j < NPOINTS ==> (#[trigger] self.spec_by_id()[j]).id == j,
    {
        assert forall|j: int| 0 <= j < NPOINTS implies (#[trigger] self.spec_by_id()[j]).id == j by {
            lemma_by_id_position(self, j);
        }
    }

    /// Build both tables; the table names exactly NPOINTS possible vertices.
    pub fn initialize() -> (r: Self)
        ensures
            r.wf(),
    {
        proof {
            lemma_vertex_count();
        }
        let mut vertices: Vec<Option<Vertex>> = Vec::new();
        let mut k: usize = 0;
        while k < 2304
            invariant
                k <= 2304,
                vertices@.len() == k,
                forall|n: int| 0 <= n < k ==> (#[trigger] vertices@[n]) is None,
            decreases 2304 - k,
        {
            vertices.push(None);
            k = k + 1;
        }
        let mut counter: usize = 0;
        // Phase 1: create each possible vertex when its name is first reached.
        let mut face_id: usize = 0;
        while face_id < NFACES
            invariant
                face_id <= NFACES,
                phase1_state(vertices@, counter as int, vertex_index(face_id as int, 0, 0)),
            decreases NFACES - face_id,
        {
            let mut edge_val: usize = 0;
            while edge_val < NCOLORS
                invariant
                    face_id < NFACES,
                    edge_val <= NCOLORS,
                    phase1_state(vertices@, counter as int, vertex_index(face_id as int, edge_val as int, 0)),
                decreases NCOLORS - edge_val,
            {
                let mut other_val: usize = 0;
                while other_val < NCOLORS
                    invariant
                        face_id < NFACES,
                        edge_val < NCOLORS,
                        other_val <= NCOLORS,
                        phase1_state(vertices@, counter as int, vertex_index(face_id as int, edge_val as int, other_val as int)),
                    decreases NCOLORS - other_val,
                {
                    phase1_step(&mut vertices, &mut counter, face_id, edge_val, other_val);
                    other_val = other_val + 1;
                }
                edge_val = edge_val + 1;
            }
            face_id = face_id + 1;
        }
        proof {
            assert forall|n: int| 0 <= n < 2304 implies (#[trigger] vertices@[n] matches Some(w) ==> {
                &&& w.id == count_valid_below(n)
                &&& w.primary.index() == (n / 6) % 6
                &&& w.secondary.index() == n % 6
                &&& w.incoming_edges@.len() == 4
                &&& forall|q: int| 0 <= q < 4 && incoming_position(n, q) < 0 ==>
                    #[trigger] w.incoming_edges@[q] == incoming_spec(n / 36, (n / 6) % 6, n % 6)[q]
            }) by {}
        }
        // Phase 2: record each incoming edge in its slot.
        let mut face_id: usize = 0;
        while face_id < NFACES
            invariant
                face_id <= NFACES,
                phase2_state(vertices@, vertex_index(face_id as int, 0, 0)),
            decreases NFACES - face_id,
        {
            let mut edge_val: usize = 0;
            while edge_val < NCOLORS
                invariant
                    face_id < NFACES,
                    edge_val <= NCOLORS,
                    phase2_state(vertices@, vertex_index(face_id as int, edge_val as int, 0)),
                decreases NCOLORS - edge_val,
            {
                let mut other_val: usize = 0;
                while other_val < NCOLORS
                    invariant
                        face_id < NFACES,
                        edge_val < NCOLORS,
                        other_val <= NCOLORS,
                        phase2_state(vertices@, vertex_index(face_id as int, edge_val as int, other_val as int)),
                    decreases NCOLORS - other_val,
                {
                    phase2_step(&mut vertices, face_id, edge_val, other_val);
                    other_val = other_val + 1;
                }
                edge_val = edge_val + 1;
            }
            face_id = face_id + 1;
        }
        proof {
            assert forall|m: int| 0 <= m < 2304 implies vertex_entry_ok(m, #[trigger] vertices@[m]) by {
                if let Some(w) = vertices@[m] {
                    assert forall|q: int| 0 <= q < 4 implies incoming_position(m, q) < 2304 by {
                        lemma_position_bound(m, q);
                    }
                    assert(w.incoming_edges@ =~= incoming_spec(m / 36, (m / 6) % 6, m % 6));
                }
            }
        }
        // The id list: the vertices in table order, which is id order.
        let mut vertices_by_id: Vec<Vertex> = Vec::new();
        let mut n: usize = 0;
        while n < 2304
            invariant
                n <= 2304,
                vertices@.len() == 2304,
                vertices_by_id@.len() == count_valid_below(n as int),
                forall|m: int| 0 <= m < 2304 ==> vertex_entry_ok(m, #[trigger] vertices@[m]),
                forall|m: int| 0 <= m < n && slot_valid_at(m) ==> vertices@[m] == Some(
                    #[trigger] vertices_by_id@[count_valid_below(m) as int],
                ),
            decreases 2304 - n,
        {
            proof {
                assert forall|m: int| 0 <= m < n && slot_valid_at(m) implies count_valid_below(m) < count_valid_below(n as int) by {
                    lemma_count_mono(m + 1, n as int);
                }
            }
            if let Some(v) = vertices[n] {
                vertices_by_id.push(v);
            }
            n = n + 1;
        }
        VerticesMemo { vertices, vertices_by_id }
    }

    /// The vertex with the given outside face, primary and secondary color, if possible.
    pub fn get_vertex(&self, face_id: usize, color_a: usize, color_b: usize) -> (r: Option<Vertex>)
        requires
            self.wf(),
            face_id < NFACES,
            color_a < NCOLORS,
            color_b < NCOLORS,
        ensures
            r == self.spec_entry(vertex_index(face_id as int, color_a as int, color_b as int)),
    {
        self.vertices[(face_id * 6 + color_a) * 6 + color_b]
    }

    /// The vertex with the given id, or None when the id is not below NPOINTS.
    pub fn get_vertex_by_id(&self, vertex_id: usize) -> (r: Option<Vertex>)
        requires
            self.wf(),
        ensures
            r == (if vertex_id < NPOINTS { Some(self.spec_by_id()[vertex_id as int]) } else { None }),
    {
        if vertex_id < self.vertices_by_id.len() {
            Some(self.vertices_by_id[vertex_id])
        } else {
            None
        }
    }
}

/// After phase 1 up to traversal position `pos`: the vertices named before `pos`
/// exist, numbered in order, with no incoming edges recorded yet.
spec fn phase1_state(vs: Seq<Option<Vertex>>, counter: int, pos: int) -> bool {
    &&& vs.len() == 2304
    &&& counter == count_valid_below(pos)
    &&& forall|n: int| 0 <= n < 2304 ==> ((#[trigger] vs[n]) is Some <==> (slot_valid_at(n) && n < pos))
    &&& forall|n: int| 0 <= n < 2304 ==> (#[trigger] vs[n] matches Some(v) ==> {
        &&& v.id == count_valid_below(n)
        &&& v.primary.index() == (n / 6) % 6
        &&& v.secondary.index() == n % 6
        &&& v.incoming_edges@ == seq![0usize, 0usize, 0usize, 0usize]
    })
}

/// After phase 2 up to traversal position `pos`: every vertex exists, and its incoming
/// edges reached before `pos` are recorded.
spec fn phase2_state(vs: Seq<Option<Vertex>>, pos: int) -> bool {
    &&& vs.len() == 2304
    &&& forall|n: int| 0 <= n < 2304 ==> ((#[trigger] vs[n]) is Some <==> slot_valid_at(n))
    &&& forall|n: int| 0 <= n < 2304 ==> (#[trigger] vs[n] matches Some(v) ==> {
        &&& v.id == count_valid_below(n)
        &&& v.primary.index() == (n / 6) % 6
        &&& v.secondary.index() == n % 6
        &&& v.incoming_edges@.len() == 4
        &&& forall|q: int| 0 <= q < 4 && incoming_position(n, q) < pos ==>
            #[trigger] v.incoming_edges@[q] == incoming_spec(n / 36, (n / 6) % 6, n % 6)[q]
    })
}

/// Phase 1 at face `face_id`, edge color `edge_val`, other color `other_val`: create the
/// vertex there if it is the first to reach it.
#[verifier::rlimit(40)]
fn phase1_step(vertices: &mut Vec<Option<Vertex>>, counter: &mut usize, face_id: usize, edge_val: usize, other_val: usize)
    requires
        face_id < NFACES,
        edge_val < NCOLORS,
        other_val < NCOLORS,
        phase1_state(old(vertices)@, *old(counter) as int, vertex_index(face_id as int, edge_val as int, other_val as int)),
    ensures
        phase1_state(final(vertices)@, *final(counter) as int, vertex_index(face_id as int, edge_val as int, other_val as int) + 1),
{
    let ghost cur = vertex_index(face_id as int, edge_val as int, other_val as int);
    proof {
        assert(cur / 36 == face_id && (cur / 6) % 6 == edge_val && cur % 6 == other_val);
        assert(count_valid_below(cur + 1) == count_valid_below(cur) + if slot_valid_at(cur) { 1nat } else { 0nat });
    }
    if other_val != edge_val {
        let face_colors = ColorSet::from_bits(face_id as u64);
        let edge_color = Color::new(edge_val as u8);
        let other_color = Color::new(other_val as u8);
        let loc = VertexLocation::new(edge_color, other_color, face_colors);
        let primary_idx = loc.primary.as_usize();
        let secondary_idx = loc.secondary.as_usize();
        proof {
            lemma_location(face_id as u64, edge_val as u64, other_val as u64);
        }
        let idx = (loc.outside_face * 6 + primary_idx) * 6 + secondary_idx;
        proof {
            let ghost o = loc.outside_face as int;
            assert(idx == vertex_index(o, primary_idx as int, secondary_idx as int));
            assert(idx / 36 == o && (idx / 6) % 6 == primary_idx && idx % 6 == secondary_idx);
            assert(slot_valid_at(idx as int));
        }
        if vertices[idx].is_none() {
            proof {
                assert(idx == cur);
                lemma_count_le(cur);
            }
            let vertex = Vertex::new(*counter, loc.primary, loc.secondary, [0usize, 0usize, 0usize, 0usize]);
            let ghost old_vs = vertices@;
            vertices.set(idx, Some(vertex));
            *counter = *counter + 1;
            proof {
                assert(vertex.incoming_edges@ =~= seq![0usize, 0usize, 0usize, 0usize]);
                assert forall|n: int| 0 <= n < 2304 implies ((#[trigger] vertices@[n]) is Some <==> (slot_valid_at(n) && n < cur + 1)) by {
                    if n != cur {
                        assert(vertices@[n] == old_vs[n]);
                    }
                }
                assert forall|n: int| 0 <= n < 2304 implies (#[trigger] vertices@[n] matches Some(v) ==> {
                    &&& v.id == count_valid_below(n)
                    &&& v.primary.index() == (n / 6) % 6
                    &&& v.secondary.index() == n % 6
                    &&& v.incoming_edges@ == seq![0usize, 0usize, 0usize, 0usize]
                }) by {
                    if n != cur {
                        assert(vertices@[n] == old_vs[n]);
                    }
                }
            }
        } else {
            proof {
                assert(idx < cur);
            }
        }
    }
}

/// Phase 2 at face `face_id`, edge color `edge_val`, other color `other_val`: record the
/// edge in its slot of the vertex it runs into.
#[verifier::rlimit(60)]
fn phase2_step(vertices: &mut Vec<Option<Vertex>>, face_id: usize, edge_val: usize, other_val: usize)
    requires
        face_id < NFACES,
        edge_val < NCOLORS,
        other_val < NCOLORS,
        phase2_state(old(vertices)@, vertex_index(face_id as int, edge_val as int, other_val as int)),
    ensures
        phase2_state(final(vertices)@, vertex_index(face_id as int, edge_val as int, other_val as int) + 1),
{
    let ghost cur = vertex_index(face_id as int, edge_val as int, other_val as int);
    if other_val != edge_val {
        let face_colors = ColorSet::from_bits(face_id as u64);
        let edge_color = Color::new(edge_val as u8);
        let other_color = Color::new(other_val as u8);
        let loc = VertexLocation::new(edge_color, other_color, face_colors);
        let primary_idx = loc.primary.as_usize();
        let secondary_idx = loc.secondary.as_usize();
        proof {
            lemma_location(face_id as u64, edge_val as u64, other_val as u64);
        }
        let idx = (loc.outside_face * 6 + primary_idx) * 6 + secondary_idx;
        proof {
            let ghost o = loc.outside_face as int;
            assert(idx == vertex_index(o, primary_idx as int, secondary_idx as int));
            assert(idx / 36 == o && (idx / 6) % 6 == primary_idx && idx % 6 == secondary_idx);
            assert(slot_valid_at(idx as int));
            lemma_incoming_position(face_id as u64, edge_val as u64, other_val as u64);
            assert(incoming_position(idx as int, loc.slot as int) == cur);
            assert(incoming_spec(o, primary_idx as int, secondary_idx as int)[loc.slot as int]
                == spec_edge_id(face_id as int, edge_val as int) as usize);
        }
        let entry = vertices[idx];
        match entry {
            Some(v) => {
                let mut nv = v;
                nv.incoming_edges[loc.slot] = EdgeRef::new(face_id, edge_val).id();
                let ghost old_vs = vertices@;
                vertices.set(idx, Some(nv));
                proof {
                    assert forall|n: int| 0 <= n < 2304 implies ((#[trigger] vertices@[n]) is Some <==> slot_valid_at(n)) by {
                        if n != idx {
                            assert(vertices@[n] == old_vs[n]);
                        }
                    }
                    assert forall|n: int| 0 <= n < 2304 implies (#[trigger] vertices@[n] matches Some(w) ==> {
                        &&& w.id == count_valid_below(n)
                        &&& w.primary.index() == (n / 6) % 6
                        &&& w.secondary.index() == n % 6
                        &&& w.incoming_edges@.len() == 4
                        &&& forall|q: int| 0 <= q < 4 && incoming_position(n, q) < cur + 1 ==>
                            #[trigger] w.incoming_edges@[q] == incoming_spec(n / 36, (n / 6) % 6, n % 6)[q]
                    }) by {
                        if let Some(w) = vertices@[n] {
                            assert forall|q: int| 0 <= q < 4 && incoming_position(n, q) < cur + 1 implies
                                #[trigger] w.incoming_edges@[q] == incoming_spec(n / 36, (n / 6) % 6, n % 6)[q] by {
                                if incoming_position(n, q) == cur {
                                    lemma_position_inverse(n, q, face_id as int, edge_val as int, other_val as int);
                                    assert(n == idx);
                                    assert(q == loc.slot);
                                } else if n == idx && q == loc.slot {
                                    assert(false);
                                } else if n == idx {
                                    assert(w.incoming_edges@[q] == v.incoming_edges@[q]);
                                } else {
                                    assert(vertices@[n] == old_vs[n]);
                                }
                            }
                        }
                    }
                }
            },
            None => {
                proof {
                    assert(false);
                }
            },
        }
    } else {
        proof {
            assert forall|n: int, q: int| 0 <= n < 2304 && slot_valid_at(n) && 0 <= q < 4
                implies incoming_position(n, q) != cur by {
                if incoming_position(n, q) == cur {
                    lemma_position_inverse(n, q, face_id as int, edge_val as int, other_val as int);
                }
            }
        }
    }
}

/// The traversal position (face, edge color, other color) at which slot `q` of the
/// vertex at table position `n` is reached.
pub open spec fn incoming_position(n: int, q: int) -> int {
    let o = (n / 36) as u64;
    let p = (n / 6) % 6;
    let s = n % 6;
    let bp = 1u64 << (p as u64);
    let bs = 1u64 << (s as u64);
    if q == 0 {
        vertex_index((o | bp | bs) as int, p, s)
    } else if q == 1 {
        vertex_index(o as int, p, s)
    } else if q == 2 {
        vertex_index((o | bp) as int, s, p)
    } else {
        vertex_index((o | bs) as int, s, p)
    }
}

spec fn incoming_primary(n: int, q: int, e: int, x: int) -> int {
    if q <= 1 {
        e
    } else {
        x
    }
}

spec fn incoming_secondary(n: int, q: int, e: int, x: int) -> int {
    if q <= 1 {
        x
    } else {
        e
    }
}

pub proof fn lemma_location(f: u64, e: u64, x: u64)
    by (bit_vector)
    requires
        f < 64,
        e < 6,
        x < 6,
        e != x,
    ensures
        (f & !(1u64 << e) & !(1u64 << x)) < 64,
        (f & !(1u64 << x) & !(1u64 << e)) == (f & !(1u64 << e) & !(1u64 << x)),
        !bit(f & !(1u64 << e) & !(1u64 << x), e),
        !bit(f & !(1u64 << e) & !(1u64 << x), x),
        (bit(f, e) || bit(f, x)) ==> (f & !(1u64 << e) & !(1u64 << x)) < f,
        (!bit(f, e) && !bit(f, x)) ==> (f & !(1u64 << e) & !(1u64 << x)) == f,
{
}

pub proof fn lemma_incoming_position(f: u64, e: u64, x: u64)
    by (bit_vector)
    requires
        f < 64,
        e < 6,
        x < 6,
        e != x,
    ensures
        (bit(f, e) && bit(f, x)) ==> ((f & !(1u64 << e) & !(1u64 << x)) | (1u64 << e) | (1u64 << x)) == f,
        (bit(f, e) && !bit(f, x)) ==> ((f & !(1u64 << e) & !(1u64 << x)) | (1u64 << e)) == f,
        (!bit(f, e) && bit(f, x)) ==> ((f & !(1u64 << e) & !(1u64 << x)) | (1u64 << x)) == f,
        ((f & !(1u64 << e) & !(1u64 << x)) | (1u64 << x) | (1u64 << e)) == ((f & !(1u64 << e) & !(1u64 << x)) | (1u64
            << e) | (1u64 << x)),
{
}

/// Adding one or two of the bits p and s (below 6) to a face id below 64 stays below 64.
pub proof fn lemma_added_bits_bound(o: u64, p: u64, s: u64)
    by (bit_vector)
    requires
        o < 64,
        p < 6,
        s < 6,
    ensures
        (o | (1u64 << p) | (1u64 << s)) < 64,
        (o | (1u64 << p)) < 64,
        (o | (1u64 << s)) < 64,
{
}

/// Adding bits p and s, both clear in o, gives four distinct values, and clearing them
/// again gives o back.
pub proof fn lemma_added_bits(o: u64, p: u64, s: u64)
    by (bit_vector)
    requires
        p < 6,
        s < 6,
        p != s,
        !bit(o, p),
        !bit(o, s),
    ensures
        (o | (1u64 << p) | (1u64 << s)) != o,
        (o | (1u64 << p)) != o,
        (o | (1u64 << s)) != o,
        (o | (1u64 << p) | (1u64 << s)) != (o | (1u64 << p)),
        (o | (1u64 << p) | (1u64 << s)) != (o | (1u64 << s)),
        (o | (1u64 << p)) != (o | (1u64 << s)),
        ((o | (1u64 << p) | (1u64 << s)) & !(1u64 << p) & !(1u64 << s)) == o,
        (o & !(1u64 << p) & !(1u64 << s)) == o,
        ((o | (1u64 << p)) & !(1u64 << p) & !(1u64 << s)) == o,
        ((o | (1u64 << s)) & !(1u64 << p) & !(1u64 << s)) == o,
        bit(o | (1u64 << p) | (1u64 << s), p) && bit(o | (1u64 << p) | (1u64 << s), s),
        bit(o | (1u64 << p), p) && !bit(o | (1u64 << p), s),
        bit(o | (1u64 << s), s) && !bit(o | (1u64 << s), p),
{
}

proof fn lemma_position_bound(n: int, q: int)
    requires
        0 <= n < 2304,
        0 <= q < 4,
    ensures
        0 <= incoming_position(n, q) < 2304,
{
    lemma_added_bits_bound((n / 36) as u64, ((n / 6) % 6) as u64, (n % 6) as u64);
}

proof fn lemma_position_inverse(n: int, q: int, f: int, e: int, x: int)
    requires
        0 <= n < 2304,
        slot_valid_at(n),
        0 <= q < 4,
        0 <= f < 64,
        0 <= e < 6,
        0 <= x < 6,
        incoming_position(n, q) == vertex_index(f, e, x),
    ensures
        e != x,
        q == spec_incoming_slot(bit(f as u64, e as u64), bit(f as u64, x as u64)),
        n == vertex_index(
            (f as u64 & !(1u64 << incoming_primary(n, q, e, x) as u64) & !(1u64 << incoming_secondary(n, q, e, x) as u64)) as int,
            incoming_primary(n, q, e, x),
            incoming_secondary(n, q, e, x),
        ),
{
    let o = (n / 36) as u64;
    let p = ((n / 6) % 6) as u64;
    let s = (n % 6) as u64;
    let fu = f as u64;
    lemma_added_bits_bound(o, p, s);
    lemma_added_bits(o, p, s);
    if q == 0 {
        assert(fu == (o | (1u64 << p) | (1u64 << s)) && e == p && x == s);
    } else if q == 1 {
        assert(fu == o);
    } else if q == 2 {
        assert(fu == (o | (1u64 << p)) && e == s && x == p);
    } else {
        assert(fu == (o | (1u64 << s)) && e == s && x == p);
    }
}

proof fn lemma_by_id_position(m: &VerticesMemo, j: int)
    requires
        m.wf(),
        0 <= j < NPOINTS,
    ensures
        m.spec_by_id()[j].id == j,
{
    lemma_count_onto(j, 2304);
    let n = choose|n: int| 0 <= n < 2304 && slot_valid_at(n) && count_valid_below(n) == j;
    assert(m.vertices@[n] == Some(m.vertices_by_id@[count_valid_below(n) as int]));
    assert(vertex_entry_ok(n, m.vertices@[n]));
}

proof fn lemma_count_onto(j: int, limit: int)
    requires
        0 <= j < count_valid_below(limit),
    ensures
        exists|n: int| 0 <= n < limit && slot_valid_at(n) && count_valid_below(n) == j,
    decreases limit,
{
    if limit > 0 {
        if j < count_valid_below(limit - 1) {
            lemma_count_onto(j, limit - 1);
            let n = choose|n: int| 0 <= n < limit - 1 && slot_valid_at(n) && count_valid_below(n) == j;
            assert(0 <= n < limit && slot_valid_at(n) && count_valid_below(n) == j);
        } else {
            assert(slot_valid_at(limit - 1) && count_valid_below(limit - 1) == j);
        }
    }
}

/// A possible vertex's number is below NPOINTS.
pub proof fn lemma_vertex_number_bound(n: int)
    requires
        0 <= n < 2304,
        slot_valid_at(n),
        count_valid_below(2304) == NPOINTS,
    ensures
        count_valid_below(n) < NPOINTS,
{
    lemma_count_mono(n + 1, 2304);
}

/// The incoming edges of a possible vertex are edges of faces (ids below NFACES *
/// NCOLORS), of its primary color in slots 0 and 1 and its secondary color in slots 2
/// and 3.
/// The four incoming edges of the vertex at table position `n`: the first two of its
/// primary color, the last two of its secondary color; the first and last lie on faces
/// inside that color, the middle two on faces outside it.
pub proof fn lemma_incoming_shape(n: int)
    requires
        0 <= n < 2304,
        slot_valid_at(n),
    ensures
        ({
            let p = (n / 6) % 6;
            let s = n % 6;
            let inc = incoming_spec(n / 36, p, s);
            &&& forall|q: int| 0 <= q < 4 ==> #[trigger] inc[q] / 6 < NFACES && inc[q] % 6 == if q < 2 { p } else { s }
            &&& bit((inc[0] / 6) as u64, p as u64)
            &&& !bit((inc[1] / 6) as u64, p as u64)
            &&& !bit((inc[2] / 6) as u64, s as u64)
            &&& bit((inc[3] / 6) as u64, s as u64)
        }),
{
    let o = n / 36;
    let p = (n / 6) % 6;
    let s = n % 6;
    let ou = o as u64;
    let pu = p as u64;
    let su = s as u64;
    lemma_added_bits_bound(ou, pu, su);
    let g0 = (ou | (1u64 << pu) | (1u64 << su)) as int;
    let g2 = (ou | (1u64 << pu)) as int;
    let g3 = (ou | (1u64 << su)) as int;
    let inc = incoming_spec(o, p, s);
    assert(inc[0] == (g0 * 6 + p) as usize);
    assert(inc[1] == (o * 6 + p) as usize);
    assert(inc[2] == (g2 * 6 + s) as usize);
    assert(inc[3] == (g3 * 6 + s) as usize);
    assert(inc[0] / 6 == g0 && inc[1] / 6 == o && inc[2] / 6 == g2 && inc[3] / 6 == g3);
    crate::geometry::bits::lemma_bit_set(ou | (1u64 << pu), su, pu);
    crate::geometry::bits::lemma_bit_set(ou, pu, pu);
    crate::geometry::bits::lemma_bit_set(ou, pu, su);
    crate::geometry::bits::lemma_bit_set(ou, su, su);
}

pub proof fn lemma_incoming_bound(n: int)
    requires
        0 <= n < 2304,
        slot_valid_at(n),
    ensures
        forall|q: int| 0 <= q < 4 ==> {
            &&& (#[trigger] incoming_spec(n / 36, (n / 6) % 6, n % 6)[q]) < 384
            &&& incoming_spec(n / 36, (n / 6) % 6, n % 6)[q] % 6 == if q < 2 { (n / 6) % 6 } else { n % 6 }
        },
{
    lemma_added_bits_bound((n / 36) as u64, ((n / 6) % 6) as u64, (n % 6) as u64);
}

impl VerticesMemo {
    /// The vertex with id `j` is the one at a table position numbered `j`.
    pub proof fn lemma_vertex_by_id(&self, j: int)
        requires
            self.wf(),
            0 <= j < NPOINTS,
        ensures
            exists|n: int| 0 <= n < 2304 && slot_valid_at(n) && count_valid_below(n) == j && #[trigger] self.spec_entry(n) == Some(
                self.spec_by_id()[j],
            ),
    {
        lemma_count_onto(j, 2304);
        let n = choose|n: int| 0 <= n < 2304 && slot_valid_at(n) && count_valid_below(n) == j;
        assert(self.spec_entry(n) == Some(self.spec_by_id()[j]));
    }

    /// Every vertex id names exactly one table position: the one holding that vertex,
    /// at the name (face outside, primary color, secondary color) the vertex carries; and
    /// two positions that hold vertices hold different ids.
    pub proof fn lemma_vertex_id_slot(&self, j: int)
        requires
            self.wf(),
            0 <= j < NPOINTS,
        ensures
            self.spec_by_id()[j].id == j,
            exists|n: int|
                {
                    &&& 0 <= n < 2304
                    &&& slot_valid_at(n)
                    &&& count_valid_below(n) == j
                    &&& #[trigger] self.spec_entry(n) == Some(self.spec_by_id()[j])
                    &&& n == vertex_index(n / 36, self.spec_by_id()[j].primary.index() as int, self.spec_by_id()[j].secondary.index() as int)
                    &&& forall|n2: int| 0 <= n2 < 2304 && slot_valid_at(n2) && count_valid_below(n2) == j ==> n2 == n
                },
    {
        self.lemma_wf();
        self.lemma_vertex_by_id(j);
        let n = choose|n: int| 0 <= n < 2304 && slot_valid_at(n) && count_valid_below(n) == j && #[trigger] self.spec_entry(n) == Some(
            self.spec_by_id()[j],
        );
        assert(vertex_entry_ok(n, self.spec_entry(n)));
        assert forall|n2: int| 0 <= n2 < 2304 && slot_valid_at(n2) && count_valid_below(n2) == j implies n2 == n by {
            if n2 < n {
                lemma_count_mono(n2 + 1, n);
            } else if n < n2 {
                lemma_count_mono(n + 1, n2);
            }
        }
    }
}

/// Bit `i` of `o` is clear, read by division.
pub open spec fn zero_bit(o: int, i: int) -> bool {
    let d: int = if i == 0 {
        1
    } else if i == 1 {
        2
    } else if i == 2 {
        4
    } else if i == 3 {
        8
    } else if i == 4 {
        16
    } else {
        32
    };
    (o / d) % 2 == 0
}

/// Whether the name (o, p, s) is a possible vertex, read by division.
pub open spec fn pair_open(o: int, p: int, s: int) -> nat {
    if p != s && zero_bit(o, p) && zero_bit(o, s) {
        1
    } else {
        0
    }
}

/// The number of possible vertices with primary color `p` outside face `o`.
pub open spec fn row_count(o: int, p: int) -> nat {
    pair_open(o, p, 0) + pair_open(o, p, 1) + pair_open(o, p, 2) + pair_open(o, p, 3) + pair_open(o, p, 4) + pair_open(o, p, 5)
}

/// The number of possible vertices outside face `o`.
pub open spec fn block_count(o: int) -> nat {
    row_count(o, 0) + row_count(o, 1) + row_count(o, 2) + row_count(o, 3) + row_count(o, 4) + row_count(o, 5)
}

/// The number of possible vertices outside the faces below `m`.
pub open spec fn blocks_total(m: int) -> nat
    decreases m,
{
    if m <= 0 {
        0
    } else {
        blocks_total(m - 1) + block_count(m - 1)
    }
}

proof fn lemma_bits_by_division(x: u64)
    by (bit_vector)
    requires
        x < 64,
    ensures
        bit(x, 0) == (x % 2 == 1),
        bit(x, 1) == ((x / 2) % 2 == 1),
        bit(x, 2) == ((x / 4) % 2 == 1),
        bit(x, 3) == ((x / 8) % 2 == 1),
        bit(x, 4) == ((x / 16) % 2 == 1),
        bit(x, 5) == ((x / 32) % 2 == 1),
{
}

proof fn lemma_slot_parts(o: int, k: int)
    requires
        0 <= o,
        0 <= k < 36,
    ensures
        (36 * o + k) / 36 == o,
        ((36 * o + k) / 6) % 6 == k / 6,
        (36 * o + k) % 6 == k % 6,
{
    assert((36 * o + k) / 36 == o && ((36 * o + k) / 6) % 6 == k / 6 && (36 * o + k) % 6 == k % 6) by (nonlinear_arith)
        requires
            0 <= o,
            0 <= k < 36,
    ;
}

/// The possible vertices outside face `o` with primary color `p` fill their row of the
/// table.
proof fn lemma_row(o: int, p: int)
    requires
        0 <= o < 64,
        0 <= p < 6,
    ensures
        count_valid_below(36 * o + 6 * p + 6) == count_valid_below(36 * o + 6 * p) + row_count(o, p),
{
    lemma_bits_by_division(o as u64);
    let base = 36 * o + 6 * p;
    lemma_slot_parts(o, 6 * p + 0);
    lemma_slot_parts(o, 6 * p + 1);
    lemma_slot_parts(o, 6 * p + 2);
    lemma_slot_parts(o, 6 * p + 3);
    lemma_slot_parts(o, 6 * p + 4);
    lemma_slot_parts(o, 6 * p + 5);
    assert(slot_valid_at(base + 0) == (pair_open(o, p, 0) == 1));
    assert(slot_valid_at(base + 1) == (pair_open(o, p, 1) == 1));
    assert(slot_valid_at(base + 2) == (pair_open(o, p, 2) == 1));
    assert(slot_valid_at(base + 3) == (pair_open(o, p, 3) == 1));
    assert(slot_valid_at(base + 4) == (pair_open(o, p, 4) == 1));
    assert(slot_valid_at(base + 5) == (pair_open(o, p, 5) == 1));
    reveal_with_fuel(count_valid_below, 7);
}

/// The possible vertices outside face `o` fill its block of the table.
proof fn lemma_block(o: int)
    requires
        0 <= o < 64,
    ensures
        count_valid_below(36 * o + 36) == count_valid_below(36 * o) + block_count(o),
{
    lemma_row(o, 0);
    lemma_row(o, 1);
    lemma_row(o, 2);
    lemma_row(o, 3);
    lemma_row(o, 4);
    lemma_row(o, 5);
}

/// The possible vertices outside the faces below `m` come first in the table.
proof fn lemma_blocks(m: int)
    requires
        0 <= m <= 64,
    ensures
        count_valid_below(36 * m) == blocks_total(m),
    decreases m,
{
    if m > 0 {
        lemma_blocks(m - 1);
        lemma_block(m - 1);
        assert(36 * (m - 1) + 36 == 36 * m);
    }
}

#[verifier::rlimit(100)]
proof fn lemma_blocks_from_0()
    ensures
        blocks_total(8) == blocks_total(0) + 132,
{
    assert(block_count(0) == 30);
    assert(block_count(1) == 20);
    assert(block_count(2) == 20);
    assert(block_count(3) == 12);
    assert(block_count(4) == 20);
    assert(block_count(5) == 12);
    assert(block_count(6) == 12);
    assert(block_count(7) == 6);
    reveal_with_fuel(blocks_total, 9);
}

#[verifier::rlimit(100)]
proof fn lemma_blocks_from_8()
    ensures
        blocks_total(16) == blocks_total(8) + 76,
{
    assert(block_count(8) == 20);
    assert(block_count(9) == 12);
    assert(block_count(10) == 12);
    assert(block_count(11) == 6);
    assert(block_count(12) == 12);
    assert(block_count(13) == 6);
    assert(block_count(14) == 6);
    assert(block_count(15) == 2);
    reveal_with_fuel(blocks_total, 9);
}

#[verifier::rlimit(100)]
proof fn lemma_blocks_from_16()
    ensures
        blocks_total(24) == blocks_total(16) + 76,
{
    assert(block_count(16) == 20);
    assert(block_count(17) == 12);
    assert(block_count(18) == 12);
    assert(block_count(19) == 6);
    assert(block_count(20) == 12);
    assert(block_count(21) == 6);
    assert(block_count(22) == 6);
    assert(block_count(23) == 2);
    reveal_with_fuel(blocks_total, 9);
}

#[verifier::rlimit(100)]
proof fn lemma_blocks_from_24()
    ensures
        blocks_total(32) == blocks_total(24) + 36,
{
    assert(block_count(24) == 12);
    assert(block_count(25) == 6);
    assert(block_count(26) == 6);
    assert(block_count(27) == 2);
    assert(block_count(28) == 6);
    assert(block_count(29) == 2);
    assert(block_count(30) == 2);
    assert(block_count(31) == 0);
    reveal_with_fuel(blocks_total, 9);
}

#[verifier::rlimit(100)]
proof fn lemma_blocks_from_32()
    ensures
        blocks_total(40) == blocks_total(32) + 76,
{
    assert(block_count(32) == 20);
    assert(block_count(33) == 12);
    assert(block_count(34) == 12);
    assert(block_count(35) == 6);
    assert(block_count(36) == 12);
    assert(block_count(37) == 6);
    assert(block_count(38) == 6);
    assert(block_count(39) == 2);
    reveal_with_fuel(blocks_total, 9);
}

#[verifier::rlimit(100)]
proof fn lemma_blocks_from_40()
    ensures
        blocks_total(48) == blocks_total(40) + 36,
{
    assert(block_count(40) == 12);
    assert(block_count(41) == 6);
    assert(block_count(42) == 6);
    assert(block_count(43) == 2);
    assert(block_count(44) == 6);
    assert(block_count(45) == 2);
    assert(block_count(46) == 2);
    assert(block_count(47) == 0);
    reveal_with_fuel(blocks_total, 9);
}

#[verifier::rlimit(100)]
proof fn lemma_blocks_from_48()
    ensures
        blocks_total(56) == blocks_total(48) + 36,
{
    assert(block_count(48) == 12);
    assert(block_count(49) == 6);
    assert(block_count(50) == 6);
    assert(block_count(51) == 2);
    assert(block_count(52) == 6);
    assert(block_count(53) == 2);
    assert(block_count(54) == 2);
    assert(block_count(55) == 0);
    reveal_with_fuel(blocks_total, 9);
}

#[verifier::rlimit(100)]
proof fn lemma_blocks_from_56()
    ensures
        blocks_total(64) == blocks_total(56) + 12,
{
    assert(block_count(56) == 6);
    assert(block_count(57) == 2);
    assert(block_count(58) == 2);
    assert(block_count(59) == 0);
    assert(block_count(60) == 2);
    assert(block_count(61) == 0);
    assert(block_count(62) == 0);
    assert(block_count(63) == 0);
    reveal_with_fuel(blocks_total, 9);
}

/// The table names NPOINTS possible vertices.
pub proof fn lemma_vertex_count()
    ensures
        count_valid_below(2304) == NPOINTS,
{
    lemma_blocks(64);
    lemma_blocks_from_0();
    lemma_blocks_from_8();
    lemma_blocks_from_16();
    lemma_blocks_from_24();
    lemma_blocks_from_32();
    lemma_blocks_from_40();
    lemma_blocks_from_48();
    lemma_blocks_from_56();
    assert(blocks_total(0) == 0);
}

} // verus!
