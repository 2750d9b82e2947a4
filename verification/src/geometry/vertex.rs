//! Vertices: the points where two curves cross.

use crate::geometry::color::Color;
use crate::geometry::color_set::ColorSet;
use crate::geometry::edge::EdgeId;
use vstd::prelude::*;

verus! {

/// A vertex id: vertices are numbered 0..NPOINTS.
pub type VertexId = usize;

/// A crossing of two curves, with its four incoming edges.
#[derive(Debug, Clone, Copy, PartialEq, Eq)]
pub struct Vertex {
    /// The vertex id.
    pub id: VertexId,
    /// The curve crossing from inside the secondary to outside it.
    pub primary: Color,
    /// The curve crossing from outside the primary to inside it.
    pub secondary: Color,
    /// The two crossing colors.
    pub colors: ColorSet,
    /// The incoming edges: two of the primary color (slots 0 and 1), then two of the
    /// secondary color (slots 2 and 3).
    pub incoming_edges: [EdgeId; 4],
}

impl Vertex {
    /// A vertex of the given id, crossing colors and incoming edges.
    pub fn new(id: VertexId, primary: Color, secondary: Color, incoming_edges: [EdgeId; 4]) -> (r: Self)
        ensures
            r.id == id,
            r.primary == primary,
            r.secondary == secondary,
            r.incoming_edges == incoming_edges,
            forall|i: nat| r.colors.has(i) <==> (i == primary.index() || i == secondary.index()),
    {
        let mut colors = ColorSet::empty();
        colors.insert(primary);
        colors.insert(secondary);
        Self { id, primary, secondary, colors, incoming_edges }
    }

    /// The two crossing colors, primary first.
    pub fn crossing_colors(&self) -> (r: (Color, Color))
        ensures
            r == (self.primary, self.secondary),
    {
        (self.primary, self.secondary)
    }

    /// Whether the color crosses at this vertex.
    pub fn has_color(&self, color: Color) -> (r: bool)
        ensures
            r == self.colors.has(color.index() as nat),
    {
        self.colors.contains(color)
    }
}

} // verus!
