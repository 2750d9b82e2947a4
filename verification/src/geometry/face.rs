//! Faces: the regions of the diagram, one per subset of the curves.

use crate::geometry::bits::bit;
use crate::geometry::color::Color;
use crate::geometry::color_set::ColorSet;
use crate::geometry::constants::{NCOLORS, NCYCLES, NFACES};
use crate::geometry::cycle::CycleId;
use crate::geometry::cycle_set::{popcount_words, CycleSet};
use crate::geometry::edge::{EdgeMemo, EdgeRef};
use vstd::prelude::*;

verus! {

/// A face id: the bitmask of the curves the face lies inside.
pub type FaceId = usize;

/// The face across curve `color` from face `face_id`.
pub open spec fn adjacent_face(face_id: int, color: int) -> int {
    (face_id as u64 ^ (1u64 << (color as u64))) as int
}

/// A face (region) of the diagram.
#[derive(Debug, Clone, Copy)]
pub struct Face {
    /// The face id: its color set as a bitmask.
    pub id: FaceId,
    /// The colors of the curves bounding the face from the inside.
    pub colors: ColorSet,
    /// The number of possible cycles.
    pub cycle_count: usize,
    /// The possible facial cycles.
    pub possible_cycles: CycleSet,
    /// The face's edges, one per color: edge i has color i.
    pub edges: [EdgeMemo; 6],
    /// The adjacent faces, one per color: across curve i.
    pub adjacent_faces: [usize; 6],
}

impl Face {
    /// A face with the given id, colors and possible cycles. Its edge of color i has the
    /// face's colors and is reversed on the face across curve i.
    pub fn new(id: FaceId, colors: ColorSet, possible_cycles: CycleSet) -> (r: Self)
        ensures
            r.id == id,
            r.colors == colors,
            r.possible_cycles == possible_cycles,
            r.cycle_count == popcount_words(possible_cycles.spec_words(), 7),
            forall|i: int| 0 <= i < NCOLORS ==> #[trigger] r.adjacent_faces@[i] == adjacent_face(id as int, i),
            forall|i: int| 0 <= i < NCOLORS ==> {
                &&& (#[trigger] r.edges@[i]).color.index() == i
                &&& r.edges@[i].face_colors == colors
                &&& r.edges@[i].reversed == EdgeRef { face_id: adjacent_face(id as int, i) as usize, color_idx: i as usize }
                &&& forall|k: int| 0 <= k < NCOLORS ==> (#[trigger] r.edges@[i].possibly_to@[k]) is None
            },
            id < NFACES ==> forall|i: int| 0 <= i < NCOLORS ==> r.adjacent_faces@[i] < NFACES,
    {
        let cycle_count = possible_cycles.len();
        let placeholder = EdgeMemo::new(Color::new(0), colors, EdgeRef::new(0, 0));
        let mut edges = [placeholder; 6];
        let mut adjacent_faces = [0usize; 6];
        let mut i: usize = 0;
        while i < NCOLORS
            invariant
                i <= NCOLORS,
                forall|k: int| 0 <= k < i ==> #[trigger] adjacent_faces@[k] == adjacent_face(id as int, k),
                id < NFACES ==> forall|k: int| 0 <= k < i ==> #[trigger] adjacent_faces@[k] < NFACES,
                forall|k: int| 0 <= k < i ==> {
                    &&& (#[trigger] edges@[k]).color.index() == k
                    &&& edges@[k].face_colors == colors
                    &&& edges@[k].reversed == EdgeRef { face_id: adjacent_face(id as int, k) as usize, color_idx: k as usize }
                    &&& forall|m: int| 0 <= m < NCOLORS ==> (#[trigger] edges@[k].possibly_to@[m]) is None
                },
            decreases NCOLORS - i,
        {
            let adj = ((id as u64) ^ (1u64 << (i as u64))) as usize;
            proof {
                let x = id as u64;
                let b = i as u64;
                assert((x < 64 ==> x ^ (1u64 << b) < 64) && ((id as u64) ^ (1u64 << b)) as usize as int == ((id as u64) ^ (1u64
                    << b)) as int) by (bit_vector)
                    requires
                        b < 6,
                        x == id as u64,
                ;
            }
            adjacent_faces[i] = adj;
            edges[i] = EdgeMemo::new(Color::new(i as u8), colors, EdgeRef::new(adj, i));
            i = i + 1;
        }
        Self { id, colors, cycle_count, possible_cycles, edges, adjacent_faces }
    }

    /// The number of colors bounding the face.
    pub fn num_colors(&self) -> (r: usize)
        ensures
            r == crate::geometry::bits::popcount(self.colors.spec_bits()),
    {
        self.colors.len()
    }

    /// Whether the color bounds the face.
    pub fn has_color(&self, color: Color) -> (r: bool)
        ensures
            r == self.colors.has(color.index() as nat),
    {
        self.colors.contains(color)
    }

    /// Whether exactly one possible cycle remains.
    pub fn has_unique_cycle(&self) -> (r: bool)
        ensures
            r == (self.cycle_count == 1),
    {
        self.cycle_count == 1
    }

    /// The remaining cycle, when exactly one remains: the smallest possible cycle id.
    pub fn unique_cycle(&self) -> (r: Option<CycleId>)
        ensures
            self.cycle_count != 1 ==> r is None,
            r matches Some(id) ==> {
                &&& id < NCYCLES
                &&& self.possible_cycles.has(id as int)
                &&& forall|j: int| 0 <= j < id ==> !self.possible_cycles.has(j)
            },
            (self.cycle_count == 1 && exists|j: int| 0 <= j < NCYCLES && self.possible_cycles.has(j)) ==> r is Some,
    {
        if self.cycle_count == 1 {
            let ids = self.possible_cycles.iter();
            if ids.len() > 0 {
                let first = ids[0];
                proof {
                    assert forall|j: int| 0 <= j < first implies !self.possible_cycles.has(j) by {
                        if self.possible_cycles.has(j) {
                            let k = choose|k: int| 0 <= k < ids@.len() && (#[trigger] ids@[k]) == j;
                            if k > 0 {
                                assert(ids@[0] < ids@[k]);
                            }
                        }
                    }
                }
                Some(first)
            } else {
                proof {
                    if exists|j: int| 0 <= j < NCYCLES && self.possible_cycles.has(j) {
                        let j = choose|j: int| 0 <= j < NCYCLES && self.possible_cycles.has(j);
                        let k = choose|k: int| 0 <= k < ids@.len() && (#[trigger] ids@[k]) == j;
                    }
                }
                None
            }
        } else {
            None
        }
    }

    /// Whether the cycle is among the possible cycles.
    pub fn is_cycle_possible(&self, cycle_id: CycleId) -> (r: bool)
        requires
            cycle_id < NCYCLES,
        ensures
            r == self.possible_cycles.has(cycle_id as int),
    {
        self.possible_cycles.contains(cycle_id)
    }
}

} // verus!
