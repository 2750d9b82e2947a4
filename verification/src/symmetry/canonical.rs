//! Canonicality of a complete solution: the sequence of its face degrees, faces taken in
//! a given order, against its images under the dihedral group acting on the colors.
//!
//! The face order and its inverse are parameters: face `order[i]` comes at position `i`,
//! and `inverse[f]` is the position of face `f`.

use crate::context::dynamic::DynamicState;
use crate::context::memoized::MemoizedData;
use crate::geometry::bits::bit;
use crate::geometry::constants::{NCOLORS, NCYCLES, NFACES};
use crate::memo::cycles::expected_cycles;
use crate::state::faces::spec_decode_index;
use crate::symmetry::dihedral::{lemma_dihedral_group_6, DIHEDRAL_GROUP_6};
use crate::symmetry::s6::{lemma_lex_order, lemma_lex_prefix, lex_less, SymmetryType};
use vstd::prelude::*;

verus! {

/// The colors of `face` moved by the color permutation `p`, for the colors below `n`.
pub open spec fn permute_colors_upto(face: u64, p: Seq<u8>, n: nat) -> u64
    decreases n,
{
    if n == 0 {
        0
    } else {
        let prev = permute_colors_upto(face, p, (n - 1) as nat);
        if bit(face, (n - 1) as u64) {
            prev | (1u64 << (p[n - 1] as u64))
        } else {
            prev
        }
    }
}

/// The face whose colors are those of `face` moved by `p`: color `c` becomes `p[c]`.
pub open spec fn spec_colorset_permute(face: u64, p: Seq<u8>) -> u64 {
    permute_colors_upto(face, p, NCOLORS as nat)
}

/// Setting a color bit (below 6) of a face id below 64 gives a face id below 64.
proof fn lemma_set_color_bit(x: u64, q: u64)
    by (bit_vector)
    requires
        x < 64,
        q < 6,
    ensures
        (x | (1u64 << q)) < 64,
{
}

/// Move the colors of a face by a permutation of the colors.
pub fn colorset_permute(face_id: usize, permutation: &[u8; 6]) -> (r: usize)
    requires
        face_id < NFACES,
        forall|c: int| 0 <= c < NCOLORS ==> #[trigger] permutation@[c] < NCOLORS,
    ensures
        r == spec_colorset_permute(face_id as u64, permutation@),
        r < NFACES,
{
    let face = face_id as u64;
    let mut result: u64 = 0;
    let mut color_idx: usize = 0;
    while color_idx < NCOLORS
        invariant
            color_idx <= NCOLORS,
            face == face_id,
            forall|c: int| 0 <= c < NCOLORS ==> #[trigger] permutation@[c] < NCOLORS,
            result == permute_colors_upto(face, permutation@, color_idx as nat),
            result < 64,
        decreases NCOLORS - color_idx,
    {
        if (face >> color_idx as u64) & 1 == 1 {
            let target = permutation[color_idx] as u64;
            proof {
                lemma_set_color_bit(result, target);
            }
            result = result | (1u64 << target);
        }
        color_idx = color_idx + 1;
    }
    result as usize
}

/// Every face has a current cycle, and it is one of the cycles.
pub open spec fn all_faces_assigned(s: DynamicState) -> bool {
    forall|f: int|
        0 <= f < NFACES ==> ((#[trigger] spec_decode_index(s.faces.faces@[f].current_cycle_encoded)) matches Some(c) && c
            < NCYCLES)
}

/// The current cycle of face `f`, known to be assigned.
pub open spec fn assigned_cycle(s: DynamicState, f: int) -> int {
    spec_decode_index(s.faces.faces@[f].current_cycle_encoded)->0 as int
}

/// Whether every face has a current cycle that is one of the cycles.
pub fn check_all_faces_assigned(state: &DynamicState) -> (r: bool)
    requires
        state.wf(),
    ensures
        r == all_faces_assigned(*state),
{
    let mut f: usize = 0;
    while f < NFACES
        invariant
            f <= NFACES,
            state.wf(),
            forall|g: int|
                0 <= g < f ==> ((#[trigger] spec_decode_index(state.faces.faces@[g].current_cycle_encoded)) matches Some(c)
                    && c < NCYCLES),
        decreases NFACES - f,
    {
        match state.faces.faces[f].current_cycle() {
            Some(c) => {
                if c >= NCYCLES as u64 {
                    return false;
                }
            },
            None => {
                return false;
            },
        }
        f = f + 1;
    }
    true
}

/// The face order is a list of faces, and the inverse a list of positions.
pub open spec fn order_ok(order: Seq<usize>, inverse: Seq<usize>) -> bool {
    &&& order.len() == NFACES
    &&& inverse.len() == NFACES
    &&& forall|i: int| 0 <= i < NFACES ==> #[trigger] order[i] < NFACES
    &&& forall|i: int| 0 <= i < NFACES ==> #[trigger] inverse[i] < NFACES
}

/// The degree sequence of a solution: position `i` holds the number of colors of the
/// cycle of face `order[i]`.
pub open spec fn solution_degrees(s: DynamicState, order: Seq<usize>) -> Seq<u8> {
    Seq::new(NFACES as nat, |i: int| expected_cycles()[assigned_cycle(s, order[i] as int)].len() as u8)
}

/// Where position `i` of the order goes under color permutation `p`: the position (through
/// `inverse`) of the face `order[i]` with its colors permuted.
pub open spec fn image_position(order: Seq<usize>, inverse: Seq<usize>, p: Seq<u8>, i: int) -> int {
    inverse[spec_colorset_permute(order[i] as u64, p) as int] as int
}

/// The last position below `n` that goes to `q`, if any.
pub open spec fn last_to(order: Seq<usize>, inverse: Seq<usize>, p: Seq<u8>, q: int, n: nat) -> Option<int>
    decreases n,
{
    if n == 0 {
        None
    } else if image_position(order, inverse, p, n - 1) == q {
        Some(n - 1)
    } else {
        last_to(order, inverse, p, q, (n - 1) as nat)
    }
}

/// The image of a degree sequence under color permutation `p`, from the first `n`
/// positions: position `q` holds the degree at the last position that goes to `q`, and 0
/// when none does.
pub open spec fn image_from(degrees: Seq<u8>, order: Seq<usize>, inverse: Seq<usize>, p: Seq<u8>, n: nat) -> Seq<u8> {
    Seq::new(
        NFACES as nat,
        |q: int|
            match last_to(order, inverse, p, q, n) {
                Some(i) => degrees[i],
                None => 0u8,
            },
    )
}

/// The last position going to `q` does go there, and no later one does.
proof fn lemma_last_to(order: Seq<usize>, inverse: Seq<usize>, p: Seq<u8>, q: int, n: nat)
    ensures
        last_to(order, inverse, p, q, n) matches Some(i) ==> 0 <= i < n && image_position(order, inverse, p, i) == q && forall|j: int|
            i < j < n ==> image_position(order, inverse, p, j) != q,
        last_to(order, inverse, p, q, n) is None ==> forall|j: int| 0 <= j < n ==> image_position(order, inverse, p, j) != q,
    decreases n,
{
    if n > 0 {
        lemma_last_to(order, inverse, p, q, (n - 1) as nat);
    }
}

/// When the positions go to distinct places, the image holds the degree at position `i`
/// at the place `i` goes to.
pub proof fn lemma_image_at_position(degrees: Seq<u8>, order: Seq<usize>, inverse: Seq<usize>, p: Seq<u8>, i: int)
    requires
        0 <= i < NFACES,
        0 <= image_position(order, inverse, p, i) < NFACES,
        forall|j: int, k: int|
            0 <= j < NFACES && 0 <= k < NFACES && j != k ==> image_position(order, inverse, p, j) != image_position(order, inverse, p, k),
    ensures
        image_from(degrees, order, inverse, p, NFACES as nat)[image_position(order, inverse, p, i)] == degrees[i],
{
    let q = image_position(order, inverse, p, i);
    lemma_last_to(order, inverse, p, q, NFACES as nat);
}

/// The image of a degree sequence under element `k` of the dihedral group.
pub open spec fn solution_image(degrees: Seq<u8>, order: Seq<usize>, inverse: Seq<usize>, k: int) -> Seq<u8> {
    image_from(degrees, order, inverse, DIHEDRAL_GROUP_6@[k]@, NFACES as nat)
}

/// The number of group elements among the first `n` whose image equals `m`.
pub open spec fn count_solution_images(degrees: Seq<u8>, order: Seq<usize>, inverse: Seq<usize>, m: Seq<u8>, n: int) -> nat
    decreases n,
{
    if n <= 0 {
        0
    } else {
        count_solution_images(degrees, order, inverse, m, n - 1) + if solution_image(degrees, order, inverse, n - 1) == m {
            1nat
        } else {
            0nat
        }
    }
}

/// The symmetry type of a degree sequence: canonical when it is the lexicographically
/// largest of its images and only one element gives it, equivocal when several do,
/// non-canonical otherwise.
pub open spec fn spec_solution_symmetry(degrees: Seq<u8>, order: Seq<usize>, inverse: Seq<usize>) -> SymmetryType {
    if (forall|k: int| 0 <= k < 12 ==> !lex_less(degrees, #[trigger] solution_image(degrees, order, inverse, k))) && (exists|
        k: int,
    | 0 <= k < 12 && #[trigger] solution_image(degrees, order, inverse, k) == degrees) {
        if count_solution_images(degrees, order, inverse, degrees, 12) > 1 {
            SymmetryType::Equivocal
        } else {
            SymmetryType::Canonical
        }
    } else {
        SymmetryType::NonCanonical
    }
}

/// The cycle lengths of a complete solution, faces taken in the given order.
pub fn get_face_degrees_in_canonical_order(state: &DynamicState, memo: &MemoizedData, order: &[usize; 64]) -> (r: [u8; 64])
    requires
        state.wf(),
        memo.wf(),
        all_faces_assigned(*state),
        order_ok(order@, order@),
    ensures
        r@ == solution_degrees(*state, order@),
{
    let mut degrees = [0u8; 64];
    let mut i: usize = 0;
    while i < NFACES
        invariant
            i <= NFACES,
            state.wf(),
            memo.wf(),
            all_faces_assigned(*state),
            order_ok(order@, order@),
            forall|j: int| 0 <= j < i ==> #[trigger] degrees@[j] == solution_degrees(*state, order@)[j],
        decreases NFACES - i,
    {
        let face_id = order[i];
        assert(spec_decode_index(state.faces.faces@[face_id as int].current_cycle_encoded) is Some);
        let cycle_id = state.faces.faces[face_id].current_cycle().unwrap();
        let cycle = memo.cycles.get(cycle_id);
        degrees[i] = cycle.len() as u8;
        i = i + 1;
    }
    assert(degrees@ =~= solution_degrees(*state, order@));
    degrees
}

/// Lexicographic comparison of two degree sequences: -1, 0 or 1 as `a` is less than,
/// equal to or greater than `b`.
fn compare_face_degrees(a: &[u8; 64], b: &[u8; 64]) -> (r: i8)
    ensures
        r == 0 <==> a@ == b@,
        r < 0 <==> lex_less(a@, b@),
        r > 0 <==> lex_less(b@, a@),
{
    let mut i: usize = 0;
    while i < 64
        invariant
            i <= 64,
            forall|j: int| 0 <= j < i ==> a@[j] == b@[j],
        decreases 64 - i,
    {
        if a[i] != b[i] {
            proof {
                lemma_lex_prefix(a@, b@, i as int);
            }
            if a[i] < b[i] {
                return -1;
            } else {
                return 1;
            }
        }
        i = i + 1;
    }
    proof {
        assert(a@ =~= b@);
        lemma_lex_order(a@, b@, b@);
    }
    0
}

/// The image of a degree sequence under a color permutation.
fn image_of(degrees: &[u8; 64], order: &[usize; 64], inverse: &[usize; 64], permutation: &[u8; 6]) -> (r: [u8; 64])
    requires
        order_ok(order@, inverse@),
        forall|c: int| 0 <= c < NCOLORS ==> #[trigger] permutation@[c] < NCOLORS,
    ensures
        r@ == image_from(degrees@, order@, inverse@, permutation@, NFACES as nat),
{
    let mut permuted = [0u8; 64];
    proof {
        assert(permuted@ =~= image_from(degrees@, order@, inverse@, permutation@, 0));
    }
    let mut order_idx: usize = 0;
    while order_idx < NFACES
        invariant
            order_idx <= NFACES,
            order_ok(order@, inverse@),
            forall|c: int| 0 <= c < NCOLORS ==> #[trigger] permutation@[c] < NCOLORS,
            permuted@ == image_from(degrees@, order@, inverse@, permutation@, order_idx as nat),
        decreases NFACES - order_idx,
    {
        let face_id = order[order_idx];
        let permuted_face_id = colorset_permute(face_id, permutation);
        let permuted_order_idx = inverse[permuted_face_id];
        let ghost before = permuted@;
        permuted[permuted_order_idx] = degrees[order_idx];
        proof {
            assert(permuted_order_idx as int == image_position(order@, inverse@, permutation@, order_idx as int));
            assert(permuted@ =~= image_from(degrees@, order@, inverse@, permutation@, (order_idx + 1) as nat));
        }
        order_idx = order_idx + 1;
    }
    permuted
}

proof fn lemma_count_solution_images(degrees: Seq<u8>, order: Seq<usize>, inverse: Seq<usize>, m: Seq<u8>, n: int)
    requires
        0 <= n <= 12,
    ensures
        count_solution_images(degrees, order, inverse, m, n) >= 1 <==> exists|k: int|
            0 <= k < n && #[trigger] solution_image(degrees, order, inverse, k) == m,
    decreases n,
{
    if n > 0 {
        lemma_count_solution_images(degrees, order, inverse, m, n - 1);
        if exists|k: int| 0 <= k < n && #[trigger] solution_image(degrees, order, inverse, k) == m {
            let k = choose|k: int| 0 <= k < n && #[trigger] solution_image(degrees, order, inverse, k) == m;
            if k < n - 1 {
                assert(exists|k2: int| 0 <= k2 < n - 1 && #[trigger] solution_image(degrees, order, inverse, k2) == m);
            }
        }
        if count_solution_images(degrees, order, inverse, m, n - 1) >= 1 {
            let k = choose|k: int| 0 <= k < n - 1 && #[trigger] solution_image(degrees, order, inverse, k) == m;
            assert(0 <= k < n);
        }
    }
}

proof fn lemma_count_solution_images_zero(degrees: Seq<u8>, order: Seq<usize>, inverse: Seq<usize>, m: Seq<u8>, k: int)
    requires
        0 <= k <= 12,
        forall|j: int| 0 <= j < k ==> solution_image(degrees, order, inverse, j) != m,
    ensures
        count_solution_images(degrees, order, inverse, m, k) == 0,
    decreases k,
{
    if k > 0 {
        lemma_count_solution_images_zero(degrees, order, inverse, m, k - 1);
    }
}

/// Classify a complete solution: its degree sequence (faces in `order`) against its 12
/// images under the dihedral group. The images are compared as they are made, keeping the
/// lexicographically largest and how many elements give it; the solution is non-canonical
/// if its own sequence is not that largest image, equivocal if several elements give it,
/// canonical otherwise.
pub fn check_solution_canonicality(
    state: &DynamicState,
    memo: &MemoizedData,
    order: &[usize; 64],
    inverse: &[usize; 64],
) -> (r: SymmetryType)
    requires
        state.wf(),
        memo.wf(),
        all_faces_assigned(*state),
        order_ok(order@, inverse@),
    ensures
        r == spec_solution_symmetry(solution_degrees(*state, order@), order@, inverse@),
{
    proof {
        lemma_dihedral_group_6();
    }
    let mut degrees = [0u8; 64];
    let mut i: usize = 0;
    while i < NFACES
        invariant
            i <= NFACES,
            state.wf(),
            memo.wf(),
            all_faces_assigned(*state),
            order_ok(order@, inverse@),
            forall|j: int| 0 <= j < i ==> #[trigger] degrees@[j] == solution_degrees(*state, order@)[j],
        decreases NFACES - i,
    {
        let face_id = order[i];
        assert(spec_decode_index(state.faces.faces@[face_id as int].current_cycle_encoded) is Some);
        let cycle_id = state.faces.faces[face_id].current_cycle().unwrap();
        let cycle = memo.cycles.get(cycle_id);
        degrees[i] = cycle.len() as u8;
        i = i + 1;
    }
    assert(degrees@ =~= solution_degrees(*state, order@));
    let ghost d = degrees@;
    let ghost o = order@;
    let ghost v = inverse@;
    let mut max_perm = [0u8; 64];
    let mut max_count: usize = 0;
    let mut first = true;
    let mut k: usize = 0;
    while k < 12
        invariant
            k <= 12,
            d == degrees@,
            o == order@,
            v == inverse@,
            order_ok(o, v),
            DIHEDRAL_GROUP_6@.len() == 12,
            forall|kk: int, c: int| 0 <= kk < 12 && 0 <= c < 6 ==> #[trigger] DIHEDRAL_GROUP_6@[kk]@[c] < NCOLORS,
            first <==> k == 0,
            k > 0 ==> exists|j: int| 0 <= j < k && #[trigger] solution_image(d, o, v, j) == max_perm@,
            forall|j: int| 0 <= j < k ==> !lex_less(max_perm@, #[trigger] solution_image(d, o, v, j)),
            max_count == count_solution_images(d, o, v, max_perm@, k as int),
            max_count <= k,
        decreases 12 - k,
    {
        let permutation = DIHEDRAL_GROUP_6[k];
        assert(forall|c: int| 0 <= c < NCOLORS ==> #[trigger] permutation@[c] < NCOLORS);
        let permuted = image_of(&degrees, order, inverse, &permutation);
        assert(permuted@ == solution_image(d, o, v, k as int));
        let ghost old_max = max_perm@;
        if first {
            max_perm = permuted;
            max_count = 1;
            first = false;
            proof {
                lemma_lex_order(max_perm@, max_perm@, max_perm@);
                assert(count_solution_images(d, o, v, max_perm@, 0) == 0);
                assert(count_solution_images(d, o, v, max_perm@, 1) == 1);
            }
        } else {
            let c = compare_face_degrees(&permuted, &max_perm);
            if c > 0 {
                max_perm = permuted;
                max_count = 1;
                proof {
                    assert forall|j: int| 0 <= j < k + 1 implies !lex_less(max_perm@, #[trigger] solution_image(d, o, v, j)) by {
                        assert(forall|c: int| 0 <= c < NCOLORS ==> #[trigger] DIHEDRAL_GROUP_6@[j]@[c] < NCOLORS);
                        lemma_lex_order(solution_image(d, o, v, j), old_max, max_perm@);
                        lemma_lex_order(max_perm@, solution_image(d, o, v, j), old_max);
                        if j < k {
                            lemma_lex_order(old_max, solution_image(d, o, v, j), old_max);
                        }
                    }
                    assert forall|j: int| 0 <= j < k implies #[trigger] solution_image(d, o, v, j) != max_perm@ by {
                        lemma_lex_order(old_max, max_perm@, max_perm@);
                    }
                    lemma_count_solution_images_zero(d, o, v, max_perm@, k as int);
                    assert(count_solution_images(d, o, v, max_perm@, k + 1) == 1);
                }
            } else if c == 0 {
                max_count = max_count + 1;
                proof {
                    lemma_lex_order(max_perm@, max_perm@, max_perm@);
                    assert(count_solution_images(d, o, v, max_perm@, k + 1) == count_solution_images(d, o, v, max_perm@, k as int)
                        + 1);
                }
            } else {
                proof {
                    lemma_lex_order(permuted@, max_perm@, max_perm@);
                    assert(count_solution_images(d, o, v, max_perm@, k + 1) == count_solution_images(d, o, v, max_perm@, k as int));
                }
            }
        }
        k = k + 1;
    }
    proof {
        let m = max_perm@;
        let j = choose|j: int| 0 <= j < 12 && #[trigger] solution_image(d, o, v, j) == m;
        lemma_lex_order(d, m, m);
        if d != m {
            if lex_less(d, m) {
                assert(lex_less(d, solution_image(d, o, v, j)));
            } else {
                assert(lex_less(m, d));
                assert forall|kk: int| 0 <= kk < 12 implies #[trigger] solution_image(d, o, v, kk) != d by {
                    assert(!lex_less(m, solution_image(d, o, v, kk)));
                }
            }
        } else {
            assert(solution_image(d, o, v, j) == d);
            lemma_count_solution_images(d, o, v, m, 12);
        }
    }
    if compare_face_degrees(&degrees, &max_perm) != 0 {
        return SymmetryType::NonCanonical;
    }
    if max_count > 1 {
        return SymmetryType::Equivocal;
    }
    SymmetryType::Canonical
}

} // verus!
