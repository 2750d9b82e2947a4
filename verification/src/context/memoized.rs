//! The fixed, precomputed data of a search.

use crate::memo::cycles::{CyclesArray, CyclesMemo};
use crate::geometry::edge::{CurveLink, EdgeRef};
use crate::memo::faces::{lemma_links_from_vertex, FacesMemo};
use crate::memo::vertices::{count_valid_below, lemma_incoming_shape, slot_valid_at, vertex_entry_ok, vertex_index, VerticesMemo};
use crate::geometry::constants::{NCYCLES, NFACES, NPOINTS};
use vstd::prelude::*;

verus! {

/// The fixed tables: cycles, cycle lookups, faces and vertices.
#[derive(Debug, Clone)]
pub struct MemoizedData {
    /// All facial cycles.
    pub cycles: CyclesArray,
    /// Cycle lookup tables.
    pub cycles_memo: CyclesMemo,
    /// Face tables.
    pub faces: FacesMemo,
    /// Vertex tables.
    pub vertices: VerticesMemo,
}

impl MemoizedData {
    /// Every table is complete and consistent with the others.
    pub open spec fn wf(&self) -> bool {
        &&& self.cycles.wf()
        &&& self.cycles_memo.wf()
        &&& self.faces.wf()
        &&& self.vertices.wf()
    }

    /// Build all tables.
    pub fn new() -> (r: Self)
        ensures
            r.wf(),
    {
        let cycles = CyclesArray::generate();
        let cycles_memo = CyclesMemo::initialize(&cycles);
        let vertices = VerticesMemo::initialize();
        let faces = FacesMemo::initialize(&cycles, &vertices);
        MemoizedData { cycles, cycles_memo, faces, vertices }
    }
}

/// Seen from each vertex of the table: its incoming edge of color c on face f links,
/// towards the other color x crossing there, to that vertex, continuing on face f with
/// only x toggled; no edge links towards its own color.
pub proof fn lemma_vertex_links_in_faces(memo: &MemoizedData, j: int, k: int)
    requires
        memo.wf(),
        0 <= j < NPOINTS,
        0 <= k < 4,
    ensures
        ({
            let v = memo.vertices.spec_by_id()[j];
            let f = (v.incoming_edges@[k] / 6) as int;
            let c = (v.incoming_edges@[k] % 6) as int;
            let x = if v.primary.index() == c { v.secondary.index() as int } else { v.primary.index() as int };
            &&& 0 <= f < NFACES
            &&& memo.faces.spec_face(f).edges@[c].possibly_to@[x] == Some(
                CurveLink {
                    next: EdgeRef { face_id: (f as u64 ^ (1u64 << x as u64)) as usize, color_idx: c as usize },
                    vertex_id: j as usize,
                },
            )
            &&& memo.faces.spec_face(f).edges@[c].possibly_to@[c] is None
        }),
{
    memo.vertices.lemma_vertex_id_slot(j);
    memo.vertices.lemma_wf();
    let n = choose|n: int|
        {
            &&& 0 <= n < 2304
            &&& slot_valid_at(n)
            &&& count_valid_below(n) == j
            &&& #[trigger] memo.vertices.spec_entry(n) == Some(memo.vertices.spec_by_id()[j])
            &&& n == vertex_index(n / 36, memo.vertices.spec_by_id()[j].primary.index() as int, memo.vertices.spec_by_id()[j].secondary.index() as int)
            &&& forall|n2: int| 0 <= n2 < 2304 && slot_valid_at(n2) && count_valid_below(n2) == j ==> n2 == n
        };
    assert(vertex_entry_ok(n, memo.vertices.spec_entry(n)));
    lemma_incoming_shape(n);
    lemma_links_from_vertex(n, k);
    let v = memo.vertices.spec_by_id()[j];
    let f = (v.incoming_edges@[k] / 6) as int;
    memo.faces.lemma_face_links(f);
}

} // verus!
