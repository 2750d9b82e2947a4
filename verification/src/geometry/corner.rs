//! Corner detection state and crossing counts between pairs of curves.

use crate::geometry::color::Color;
use crate::geometry::color_set::ColorSet;
use crate::geometry::constants::NCOLORS;
use vstd::prelude::*;

verus! {

/// Maximum crossings allowed between any pair of curves drawn as triangles.
pub const MAX_CROSSINGS_PER_PAIR: usize = 6;

/// State of a walk around one curve, for the corner detection algorithm.
#[derive(Debug, Clone)]
pub struct CornerWalkState {
    /// Colors of the curves that the walk is currently outside of.
    pub out: ColorSet,
    /// Colors of the curves recently crossed from inside to outside.
    pub passed: ColorSet,
    /// Vertices where corners must be placed.
    pub corner_vertices: Vec<usize>,
}

impl CornerWalkState {
    /// A walk state with empty sets and no corners.
    pub fn new() -> (r: Self)
        ensures
            forall|i: nat| !r.out.has(i),
            forall|i: nat| !r.passed.has(i),
            r.out.spec_bits() == 0,
            r.passed.spec_bits() == 0,
            r.corner_vertices@.len() == 0,
    {
        Self { out: ColorSet::empty(), passed: ColorSet::empty(), corner_vertices: Vec::new() }
    }

    /// Process a vertex where the walk crosses `other_color`.
    ///
    /// If `other_color` is in `out`, it leaves `out`; and if it is also in `passed`, the
    /// vertex is a corner: it is recorded and `passed` is cleared. Otherwise
    /// `other_color` joins both `out` and `passed`.
    pub fn process_vertex(&mut self, other_color: Color, vertex_id: usize)
        ensures
            old(self).out.has(other_color.index() as nat) ==> {
                &&& forall|i: nat| final(self).out.has(i) <==> (old(self).out.has(i) && i != other_color.index())
                &&& old(self).passed.has(other_color.index() as nat) ==> {
                    &&& final(self).corner_vertices@ == old(self).corner_vertices@.push(vertex_id)
                    &&& final(self).passed.spec_bits() == 0
                    &&& forall|i: nat| !final(self).passed.has(i)
                }
                &&& !old(self).passed.has(other_color.index() as nat) ==> {
                    &&& final(self).corner_vertices@ == old(self).corner_vertices@
                    &&& final(self).passed == old(self).passed
                }
            },
            !old(self).out.has(other_color.index() as nat) ==> {
                &&& forall|i: nat| final(self).out.has(i) <==> (old(self).out.has(i) || i == other_color.index())
                &&& forall|i: nat| final(self).passed.has(i) <==> (old(self).passed.has(i) || i == other_color.index())
                &&& final(self).corner_vertices@ == old(self).corner_vertices@
            },
    {
        if self.out.contains(other_color) {
            self.out.remove(other_color);
            if self.passed.contains(other_color) {
                self.corner_vertices.push(vertex_id);
                self.passed = ColorSet::empty();
            }
        } else {
            self.out.insert(other_color);
            self.passed.insert(other_color);
        }
    }

    /// The number of corners found so far.
    pub fn corner_count(&self) -> (r: usize)
        ensures
            r == self.corner_vertices@.len(),
    {
        self.corner_vertices.len()
    }
}

impl Default for CornerWalkState {
    fn default() -> (r: Self)
        ensures
            r.out.spec_bits() == 0,
            r.passed.spec_bits() == 0,
            r.corner_vertices@.len() == 0,
    {
        Self::new()
    }
}

/// Crossing counts between pairs of colors; only pairs i < j are used.
#[derive(Debug, Clone, Copy)]
pub struct CrossingCounts {
    counts: [u64; 36],
}

impl CrossingCounts {
    /// The count for the pair (i, j).
    pub closed spec fn count(self, i: int, j: int) -> u64 {
        self.counts@[i * 6 + j]
    }

    /// All counts zero.
    pub fn new() -> (r: Self)
        ensures
            forall|i: int, j: int| 0 <= i < j < NCOLORS ==> #[trigger] r.count(i, j) == 0,
    {
        Self { counts: [0u64; 36] }
    }

    /// The crossing count for the pair i < j.
    pub fn get(&self, i: usize, j: usize) -> (r: u64)
        requires
            i < j < NCOLORS,
        ensures
            r == self.count(i as int, j as int),
    {
        self.counts[i * 6 + j]
    }

    /// Set the crossing count for the pair i < j.
    pub fn set(&mut self, i: usize, j: usize, value: u64)
        requires
            i < j < NCOLORS,
        ensures
            final(self).count(i as int, j as int) == value,
            forall|a: int, b: int| 0 <= a < b < NCOLORS && (a != i || b != j) ==> #[trigger] final(self).count(a, b) == old(self).count(a, b),
    {
        self.counts[i * 6 + j] = value;
        proof {
            assert forall|a: int, b: int| 0 <= a < b < NCOLORS && (a != i || b != j) implies #[trigger] self.count(a, b) == old(self).count(a, b) by {
                assert(a * 6 + b != i * 6 + j);
            }
        }
    }

    /// Whether the pair i < j has crossed more than MAX_CROSSINGS_PER_PAIR times.
    pub fn exceeds_max(&self, i: usize, j: usize) -> (r: bool)
        requires
            i < j < NCOLORS,
        ensures
            r == (self.count(i as int, j as int) > MAX_CROSSINGS_PER_PAIR),
    {
        self.get(i, j) > MAX_CROSSINGS_PER_PAIR as u64
    }

    /// All counts for pairs i < j, in increasing (i, j) order: the pair (i, j) at position
    /// `pair_rank(i, j)`.
    pub fn all_counts(&self) -> (r: Vec<((usize, usize), u64)>)
        ensures
            r@.len() == NCOLORS * (NCOLORS - 1) / 2,
            forall|i: int, j: int| 0 <= i < j < NCOLORS ==> #[trigger] r@[pair_rank(i, j)] == ((i as usize, j as usize), self.count(i, j)),
            forall|k: int| 0 <= k < r@.len() ==> {
                let ((i, j), c) = #[trigger] r@[k];
                i < j < NCOLORS && c == self.count(i as int, j as int)
            },
    {
        let mut result: Vec<((usize, usize), u64)> = Vec::new();
        let mut i: usize = 0;
        while i < NCOLORS
            invariant
                i <= NCOLORS,
                result@.len() == row_start(i as int),
                forall|k: int| 0 <= k < result@.len() ==> {
                    let ((a, b), c) = #[trigger] result@[k];
                    a < b < NCOLORS && c == self.count(a as int, b as int)
                },
                forall|a: int, b: int| 0 <= a < i && a < b < NCOLORS ==> #[trigger] result@[pair_rank(a, b)] == ((a as usize, b as usize), self.count(a, b)),
            decreases NCOLORS - i,
        {
            let mut j: usize = i + 1;
            while j < NCOLORS
                invariant
                    i < NCOLORS,
                    i + 1 <= j <= NCOLORS,
                    result@.len() == row_start(i as int) + (j - i - 1),
                    forall|k: int| 0 <= k < result@.len() ==> {
                        let ((a, b), c) = #[trigger] result@[k];
                        a < b < NCOLORS && c == self.count(a as int, b as int)
                    },
                    forall|a: int, b: int| 0 <= a < i && a < b < NCOLORS ==> #[trigger] result@[pair_rank(a, b)] == ((a as usize, b as usize), self.count(a, b)),
                    forall|b: int| i < b < j ==> #[trigger] result@[pair_rank(i as int, b)] == ((i as usize, b as usize), self.count(i as int, b)),
                decreases NCOLORS - j,
            {
                proof {
                    assert forall|a: int, b: int| 0 <= a < i && a < b < NCOLORS implies pair_rank(a, b) < result@.len() by {
                        assert(row_start(a) + 5 - a <= row_start(i as int));
                    }
                }
                result.push(((i, j), self.get(i, j)));
                j = j + 1;
            }
            i = i + 1;
        }
        result
    }
}

/// The position of the first pair (i, j) with i = `a` in increasing (i, j) order.
pub open spec fn row_start(a: int) -> int {
    if a <= 0 {
        0
    } else if a == 1 {
        5
    } else if a == 2 {
        9
    } else if a == 3 {
        12
    } else if a == 4 {
        14
    } else {
        15
    }
}

/// The position of the pair (i, j), i < j, in increasing (i, j) order.
pub open spec fn pair_rank(i: int, j: int) -> int {
    row_start(i) + j - i - 1
}

impl Default for CrossingCounts {
    fn default() -> (r: Self)
        ensures
            forall|i: int, j: int| 0 <= i < j < NCOLORS ==> #[trigger] r.count(i, j) == 0,
    {
        Self::new()
    }
}

} // verus!
