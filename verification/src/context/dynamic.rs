//! The changing state of a search. Every part that backtracking restores is a slot: one
//! u64 named by a `Target`.

use crate::geometry::constants::{NCOLORS, NFACES, NPOINTS};
use crate::geometry::corner::CrossingCounts;
use crate::state::edge::DynamicEdge;
use crate::state::faces::DynamicFaces;
use crate::trail::Target;
use super::memoized::MemoizedData;
use vstd::prelude::*;

verus! {

/// The changing state of a search.
#[derive(Debug)]
pub struct DynamicState {
    /// The degree chosen for each face around the inner face, by round.
    pub current_face_degrees: [u64; 6],
    /// The state of every face.
    pub faces: DynamicFaces,
    /// How often each pair of curves crosses so far.
    pub crossing_counts: CrossingCounts,
    /// For each vertex id, 1 once the vertex has been counted.
    pub vertex_processed: Vec<u64>,
    /// Edges assigned per direction and color, at `direction * NCOLORS + color`:
    /// direction 0 for clockwise edges (the face has the color), 1 for counterclockwise.
    pub edge_color_counts: [u64; 12],
    /// For each color, 1 once its curve has been checked.
    pub colors_checked: [u64; 6],
    /// The colors completed during the current propagation, as bits (not restored by
    /// backtracking).
    pub colors_completed_this_call: u64,
}

/// Whether a target names a slot of the state.
pub open spec fn target_valid(t: Target) -> bool {
    match t {
        Target::FaceDegree(r) => r < NCOLORS,
        Target::CurrentCycle(f) => f < NFACES,
        Target::PossibleCycleWord(f, w) => f < NFACES && w < 7,
        Target::CycleCount(f) => f < NFACES,
        Target::EdgeConnection(f, c) => f < NFACES && c < NCOLORS,
        Target::DualFace(f, _) => f < NFACES,
        Target::CrossingCount(i, j) => i < j < NCOLORS,
        Target::VertexProcessed(v) => v < NPOINTS,
        Target::EdgeColorCount(d, c) => d < 2 && c < NCOLORS,
        Target::ColorChecked(c) => c < NCOLORS,
        Target::Registered(_) => false,
    }
}

/// The value of a slot.
pub open spec fn slot_value(s: DynamicState, t: Target) -> u64 {
    match t {
        Target::FaceDegree(r) => s.current_face_degrees@[r as int],
        Target::CurrentCycle(f) => s.faces.faces@[f as int].current_cycle_encoded,
        Target::PossibleCycleWord(f, w) => s.faces.faces@[f as int].possible_cycles.spec_words()[w as int],
        Target::CycleCount(f) => s.faces.faces@[f as int].cycle_count,
        Target::EdgeConnection(f, c) => s.faces.faces@[f as int].edge_dynamic@[c as int].to_encoded,
        Target::DualFace(f, previous) => if previous {
            s.faces.faces@[f as int].previous_face_id_encoded
        } else {
            s.faces.faces@[f as int].next_face_id_encoded
        },
        Target::CrossingCount(i, j) => s.crossing_counts.count(i as int, j as int),
        Target::VertexProcessed(v) => s.vertex_processed@[v as int],
        Target::EdgeColorCount(d, c) => s.edge_color_counts@[d * 6 + c],
        Target::ColorChecked(c) => s.colors_checked@[c as int],
        Target::Registered(_) => 0,
    }
}

impl DynamicState {
    /// Every face has its state and every vertex its flag.
    pub open spec fn wf(&self) -> bool {
        &&& self.faces.faces@.len() == NFACES
        &&& self.vertex_processed@.len() == 512
    }

    /// The initial state: no degrees, every face with its fixed possible cycles, no
    /// crossings, no vertex processed, no edges counted, no color checked.
    pub fn new(memo: &MemoizedData) -> (r: Self)
        requires
            memo.wf(),
        ensures
            r.wf(),
            forall|t: Target| target_valid(t) ==> match t {
                Target::PossibleCycleWord(f, w) => slot_value(r, t) == memo.faces.spec_face(f as int).possible_cycles.spec_words()[w as int],
                Target::CycleCount(f) => slot_value(r, t) == crate::geometry::cycle_set::popcount_words(
                    memo.faces.spec_face(f as int).possible_cycles.spec_words(),
                    7,
                ),
                _ => slot_value(r, t) == 0,
            },
            r.colors_completed_this_call == 0,
    {
        let faces = DynamicFaces::new(&memo.faces);
        let mut vertex_processed: Vec<u64> = Vec::new();
        let mut i: usize = 0;
        while i < 512
            invariant
                i <= 512,
                vertex_processed@.len() == i,
                forall|k: int| 0 <= k < i ==> #[trigger] vertex_processed@[k] == 0,
            decreases 512 - i,
        {
            vertex_processed.push(0);
            i = i + 1;
        }
        DynamicState {
            current_face_degrees: [0u64; 6],
            faces,
            crossing_counts: CrossingCounts::new(),
            vertex_processed,
            edge_color_counts: [0u64; 12],
            colors_checked: [0u64; 6],
            colors_completed_this_call: 0,
        }
    }

    /// The number of edges assigned with the given direction and color.
    pub fn edge_color_count(&self, direction: usize, color: usize) -> (r: u64)
        requires
            direction < 2,
            color < NCOLORS,
        ensures
            r == slot_value(*self, Target::EdgeColorCount(direction as u16, color as u16)),
    {
        self.edge_color_counts[direction * 6 + color]
    }

    /// Read a slot.
    pub(crate) fn read_slot(&self, t: Target) -> (r: u64)
        requires
            self.wf(),
            target_valid(t),
        ensures
            r == slot_value(*self, t),
    {
        match t {
            Target::FaceDegree(r) => self.current_face_degrees[r as usize],
            Target::CurrentCycle(f) => self.faces.faces[f as usize].current_cycle_encoded,
            Target::PossibleCycleWord(f, w) => {
                proof {
                    self.faces.faces@[f as int].possible_cycles.lemma_words_len();
                }
                self.faces.faces[f as usize].possible_cycles.words()[w as usize]
            },
            Target::CycleCount(f) => self.faces.faces[f as usize].cycle_count,
            Target::EdgeConnection(f, c) => self.faces.faces[f as usize].edge_dynamic[c as usize].to_encoded,
            Target::DualFace(f, previous) => if previous {
                self.faces.faces[f as usize].previous_face_id_encoded
            } else {
                self.faces.faces[f as usize].next_face_id_encoded
            },
            Target::CrossingCount(i, j) => self.crossing_counts.get(i as usize, j as usize),
            Target::VertexProcessed(v) => self.vertex_processed[v as usize],
            Target::EdgeColorCount(d, c) => self.edge_color_counts[(d as usize) * 6 + c as usize],
            Target::ColorChecked(c) => self.colors_checked[c as usize],
            Target::Registered(_) => 0,
        }
    }

    /// Write a slot; no other slot changes.
    pub(crate) fn write_slot(&mut self, t: Target, value: u64)
        requires
            old(self).wf(),
            target_valid(t),
        ensures
            final(self).wf(),
            slot_value(*final(self), t) == value,
            forall|u: Target| target_valid(u) && u != t ==> #[trigger] slot_value(*final(self), u) == slot_value(*old(self), u),
            final(self).colors_completed_this_call == old(self).colors_completed_this_call,
    {
        match t {
            Target::CurrentCycle(f) => {
                let mut face = self.faces.faces[f as usize];
                face.current_cycle_encoded = value;
                self.faces.faces.set(f as usize, face);
            },
            Target::FaceDegree(r) => {
                let mut degrees = self.current_face_degrees;
                degrees[r as usize] = value;
                self.current_face_degrees = degrees;
            },
            Target::PossibleCycleWord(f, w) => {
                let mut face = self.faces.faces[f as usize];
                proof {
                    face.possible_cycles.lemma_words_len();
                }
                face.possible_cycles = face.possible_cycles.with_word(w as usize, value);
                self.faces.faces.set(f as usize, face);
            },
            Target::CycleCount(f) => {
                let mut face = self.faces.faces[f as usize];
                face.cycle_count = value;
                self.faces.faces.set(f as usize, face);
            },
            Target::EdgeConnection(f, c) => {
                let mut face = self.faces.faces[f as usize];
                face.edge_dynamic[c as usize] = DynamicEdge { to_encoded: value };
                self.faces.faces.set(f as usize, face);
            },
            Target::DualFace(f, previous) => {
                let mut face = self.faces.faces[f as usize];
                if previous {
                    face.previous_face_id_encoded = value;
                } else {
                    face.next_face_id_encoded = value;
                }
                self.faces.faces.set(f as usize, face);
            },
            Target::CrossingCount(i, j) => {
                self.crossing_counts.set(i as usize, j as usize, value);
            },
            Target::VertexProcessed(v) => {
                self.vertex_processed.set(v as usize, value);
            },
            Target::EdgeColorCount(d, c) => {
                self.edge_color_counts[(d as usize) * 6 + c as usize] = value;
            },
            Target::ColorChecked(c) => {
                self.colors_checked[c as usize] = value;
            },
            Target::Registered(_) => {},
        }
    }
}

} // verus!
