//! Edges: the directed, labelled sides of faces, and their links to vertices.

use crate::geometry::color::Color;
use crate::geometry::color_set::ColorSet;
use crate::geometry::constants::{NCOLORS, NFACES};
use vstd::prelude::*;

verus! {

/// A numeric edge identifier: face id * NCOLORS + color index.
pub type EdgeId = usize;

/// Reference to an edge by its face and the index of its color.
#[derive(Debug, Clone, Copy, PartialEq, Eq, Structural, Hash)]
pub struct EdgeRef {
    /// Face id (0..NFACES).
    pub face_id: usize,
    /// Color index within the face's edges (0..NCOLORS).
    pub color_idx: usize,
}

/// The numeric id of the edge with the given face and color.
pub open spec fn spec_edge_id(face_id: int, color_idx: int) -> int {
    face_id * NCOLORS + color_idx
}

impl EdgeRef {
    /// A reference to the edge of the given color on the given face.
    pub fn new(face_id: usize, color_idx: usize) -> (r: Self)
        ensures
            r.face_id == face_id,
            r.color_idx == color_idx,
    {
        Self { face_id, color_idx }
    }

    /// The numeric id of this edge.
    pub fn id(&self) -> (r: EdgeId)
        requires
            self.face_id < NFACES,
            self.color_idx < NCOLORS,
        ensures
            r == spec_edge_id(self.face_id as int, self.color_idx as int),
    {
        self.face_id * NCOLORS + self.color_idx
    }

    /// The edge with the given numeric id.
    pub fn from_id(id: EdgeId) -> (r: Self)
        ensures
            spec_edge_id(r.face_id as int, r.color_idx as int) == id,
            r.color_idx < NCOLORS,
    {
        Self { face_id: id / NCOLORS, color_idx: id % NCOLORS }
    }
}

/// Link from an edge to a vertex: the next edge along the same curve past the vertex.
#[derive(Debug, Clone, Copy, PartialEq, Eq, Structural)]
pub struct CurveLink {
    /// The next edge along the curve.
    pub next: EdgeRef,
    /// The vertex this edge runs into.
    pub vertex_id: usize,
}

impl CurveLink {
    /// A link to `vertex_id` continuing on `next`.
    pub fn new(next: EdgeRef, vertex_id: usize) -> (r: Self)
        ensures
            r.next == next,
            r.vertex_id == vertex_id,
    {
        Self { next, vertex_id }
    }
}

/// Precomputed, fixed edge data.
#[derive(Debug, Clone, Copy)]
pub struct EdgeMemo {
    /// The color (curve) of this edge.
    pub color: Color,
    /// The colors of the face this edge bounds.
    pub face_colors: ColorSet,
    /// The same edge seen from the adjacent face.
    pub reversed: EdgeRef,
    /// The possible vertex connections, one per other color.
    pub possibly_to: [Option<CurveLink>; 6],
}

impl EdgeMemo {
    /// An edge with no possible connections yet.
    pub fn new(color: Color, face_colors: ColorSet, reversed: EdgeRef) -> (r: Self)
        ensures
            r.color == color,
            r.face_colors == face_colors,
            r.reversed == reversed,
            forall|k: int| 0 <= k < NCOLORS ==> (#[trigger] r.possibly_to@[k]) is None,
    {
        Self { color, face_colors, reversed, possibly_to: [None; 6] }
    }

    /// Set the possible connection at index `idx`.
    pub fn set_possibly_to(&mut self, idx: usize, link: Option<CurveLink>)
        requires
            idx < NCOLORS,
        ensures
            final(self).possibly_to@ == old(self).possibly_to@.update(idx as int, link),
            final(self).color == old(self).color,
            final(self).face_colors == old(self).face_colors,
            final(self).reversed == old(self).reversed,
    {
        self.possibly_to[idx] = link;
    }

    /// Whether the edge runs clockwise around its face: its color is one of the face's.
    pub fn is_clockwise(&self) -> (r: bool)
        ensures
            r == self.face_colors.has(self.color.index() as nat),
    {
        self.face_colors.contains(self.color)
    }
}

/// Changing edge data: the vertex connection chosen during search.
#[derive(Debug, Clone, Copy)]
pub struct EdgeDynamic {
    /// The current vertex connection, if any.
    pub to: Option<CurveLink>,
}

impl EdgeDynamic {
    /// No connection.
    pub fn new() -> (r: Self)
        ensures
            r.to is None,
    {
        Self { to: None }
    }
}

impl Default for EdgeDynamic {
    fn default() -> (r: Self)
        ensures
            r.to is None,
    {
        Self::new()
    }
}

} // verus!
