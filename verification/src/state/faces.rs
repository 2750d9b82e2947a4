//! The changing state of each face: its current cycle, its possible cycles and their
//! count, its edges' vertex connections, and its neighbours in the cycle of faces with
//! the same number of colors.
//!
//! Optional ids are encoded in one u64 for the trail: 0 for none, id + 1 otherwise.

use crate::geometry::constants::{NCOLORS, NFACES};
use crate::geometry::cycle::CycleId;
use crate::geometry::cycle_set::{popcount_words, CycleSet};
use crate::memo::faces::FacesMemo;
use crate::state::edge::DynamicEdge;
use vstd::prelude::*;

verus! {

/// The encoding of an optional id: 0 for none, id + 1 otherwise.
pub open spec fn spec_encode_index(value: Option<u64>) -> u64 {
    match value {
        None => 0,
        Some(v) => (v + 1) as u64,
    }
}

/// The decoding of an optional id.
pub open spec fn spec_decode_index(encoded: u64) -> Option<u64> {
    if encoded == 0 {
        None
    } else {
        Some((encoded - 1) as u64)
    }
}

/// Encode an optional id below `limit` (0 for none, id + 1 otherwise).
pub fn encode_optional_index(value: Option<u64>, limit: u64) -> (r: u64)
    requires
        value matches Some(v) ==> v < limit,
    ensures
        r == spec_encode_index(value),
        spec_decode_index(r) == value,
{
    match value {
        None => 0,
        Some(v) => v + 1,
    }
}

/// The changing state of one face.
#[derive(Debug, Clone, Copy)]
pub struct DynamicFace {
    /// The current cycle, encoded (0 for none).
    pub current_cycle_encoded: u64,
    /// The cycles still possible.
    pub possible_cycles: CycleSet,
    /// The number of possible cycles.
    pub cycle_count: u64,
    /// The vertex connections of the face's edges, one per color.
    pub edge_dynamic: [DynamicEdge; 6],
    /// The next face in the cycle of faces, encoded (0 for none).
    pub next_face_id_encoded: u64,
    /// The previous face in the cycle of faces, encoded (0 for none).
    pub previous_face_id_encoded: u64,
}

impl DynamicFace {
    /// A face with the given possible cycles and their count, no current cycle, no edge
    /// connections and no neighbours.
    pub fn new(possible_cycles: CycleSet) -> (r: Self)
        ensures
            r.current_cycle_encoded == 0,
            r.possible_cycles == possible_cycles,
            r.cycle_count == popcount_words(possible_cycles.spec_words(), 7),
            forall|c: int| 0 <= c < NCOLORS ==> (#[trigger] r.edge_dynamic@[c]).to_encoded == 0,
            r.next_face_id_encoded == 0,
            r.previous_face_id_encoded == 0,
    {
        let cycle_count = possible_cycles.len() as u64;
        Self {
            current_cycle_encoded: 0,
            possible_cycles,
            cycle_count,
            edge_dynamic: [DynamicEdge::new(); 6],
            next_face_id_encoded: 0,
            previous_face_id_encoded: 0,
        }
    }

    /// The current cycle.
    pub fn current_cycle(&self) -> (r: Option<CycleId>)
        ensures
            r == spec_decode_index(self.current_cycle_encoded),
    {
        if self.current_cycle_encoded == 0 {
            None
        } else {
            Some(self.current_cycle_encoded - 1)
        }
    }

    /// Set the current cycle.
    pub fn set_current_cycle(&mut self, cycle: Option<CycleId>)
        requires
            cycle matches Some(id) ==> id < u64::MAX,
        ensures
            final(self).current_cycle_encoded == spec_encode_index(cycle),
            final(self).possible_cycles == old(self).possible_cycles,
            final(self).cycle_count == old(self).cycle_count,
            final(self).edge_dynamic == old(self).edge_dynamic,
            final(self).next_face_id_encoded == old(self).next_face_id_encoded,
            final(self).previous_face_id_encoded == old(self).previous_face_id_encoded,
    {
        self.current_cycle_encoded = match cycle {
            None => 0,
            Some(id) => id + 1,
        };
    }

    /// The next face in the cycle of faces.
    pub fn next_face(&self) -> (r: Option<usize>)
        ensures
            r == (if self.next_face_id_encoded == 0 { None } else { Some((self.next_face_id_encoded - 1) as usize) }),
    {
        if self.next_face_id_encoded == 0 {
            None
        } else {
            Some((self.next_face_id_encoded - 1) as usize)
        }
    }

    /// The previous face in the cycle of faces.
    pub fn previous_face(&self) -> (r: Option<usize>)
        ensures
            r == (if self.previous_face_id_encoded == 0 { None } else { Some((self.previous_face_id_encoded - 1) as usize) }),
    {
        if self.previous_face_id_encoded == 0 {
            None
        } else {
            Some((self.previous_face_id_encoded - 1) as usize)
        }
    }
}

/// The changing state of all faces, indexed by face id.
#[derive(Debug)]
pub struct DynamicFaces {
    /// The faces.
    pub faces: Vec<DynamicFace>,
}

impl DynamicFaces {
    /// The initial state of every face: the possible cycles of its fixed data.
    pub fn new(faces_memo: &FacesMemo) -> (r: Self)
        requires
            faces_memo.wf(),
        ensures
            r.faces@.len() == NFACES,
            forall|f: int| 0 <= f < NFACES ==> {
                &&& (#[trigger] r.faces@[f]).current_cycle_encoded == 0
                &&& r.faces@[f].possible_cycles == faces_memo.spec_face(f).possible_cycles
                &&& r.faces@[f].cycle_count == popcount_words(r.faces@[f].possible_cycles.spec_words(), 7)
                &&& forall|c: int| 0 <= c < NCOLORS ==> (#[trigger] r.faces@[f].edge_dynamic@[c]).to_encoded == 0
                &&& r.faces@[f].next_face_id_encoded == 0
                &&& r.faces@[f].previous_face_id_encoded == 0
            },
    {
        let mut faces: Vec<DynamicFace> = Vec::new();
        let mut f: usize = 0;
        while f < NFACES
            invariant
                faces_memo.wf(),
                f <= NFACES,
                faces@.len() == f,
                forall|g: int| 0 <= g < f ==> {
                    &&& (#[trigger] faces@[g]).current_cycle_encoded == 0
                    &&& faces@[g].possible_cycles == faces_memo.spec_face(g).possible_cycles
                    &&& faces@[g].cycle_count == popcount_words(faces@[g].possible_cycles.spec_words(), 7)
                    &&& forall|c: int| 0 <= c < NCOLORS ==> (#[trigger] faces@[g].edge_dynamic@[c]).to_encoded == 0
                    &&& faces@[g].next_face_id_encoded == 0
                    &&& faces@[g].previous_face_id_encoded == 0
                },
            decreases NFACES - f,
        {
            let memo_face = faces_memo.get_face(f);
            faces.push(DynamicFace::new(memo_face.possible_cycles));
            f = f + 1;
        }
        Self { faces }
    }

    /// The state of a face.
    pub fn get(&self, face_id: usize) -> (r: &DynamicFace)
        requires
            face_id < self.faces@.len(),
        ensures
            *r == self.faces@[face_id as int],
    {
        &self.faces[face_id]
    }

    /// The state of one face, for changing.
    pub fn get_mut(&mut self, face_id: usize) -> (r: &mut DynamicFace)
        requires
            face_id < old(self).faces@.len(),
        ensures
            *r == old(self).faces@[face_id as int],
            final(self).faces@ == old(self).faces@.update(face_id as int, *final(r)),
    {
        &mut self.faces[face_id]
    }
}

} // verus!
