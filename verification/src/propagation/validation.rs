//! Checking a completed assignment: the faces with the same number of colors form one
//! cycle of the expected length through their next-face links.

use crate::context::dynamic::DynamicState;
use crate::context::memoized::MemoizedData;
use crate::geometry::bits::popcount;
use crate::geometry::constants::{lemma_choose_six, spec_choose, NCOLORS, NFACES};
use super::errors::PropagationFailure;
use vstd::prelude::*;

verus! {

/// The face the next-face link of `f` leads to in `s`, if it is set.
pub open spec fn next_of(s: DynamicState, f: int) -> Option<int> {
    let e = s.faces.faces@[f].next_face_id_encoded;
    if e == 0 {
        None
    } else {
        Some(((e - 1) as usize) as int)
    }
}

/// The face reached from `f` after following `m` next-face links, if every link on the
/// way is set and leads to a face.
pub open spec fn face_walk(s: DynamicState, f: int, m: nat) -> Option<int>
    decreases m,
{
    if m == 0 {
        Some(f)
    } else {
        match face_walk(s, f, (m - 1) as nat) {
            Some(g) => if 0 <= g < NFACES {
                next_of(s, g)
            } else {
                None
            },
            None => None,
        }
    }
}

/// `f` is the face with the smallest id among those with `k` colors.
pub open spec fn first_with_count(f: int, k: nat) -> bool {
    &&& 0 <= f < NFACES
    &&& popcount(f as u64) == k
    &&& forall|g: int| 0 <= g < f ==> #[trigger] popcount(g as u64) != k
}

/// Following next-face links from `f0`, a face with `k` colors, gives `d - 1` other faces
/// with `k` colors and then `f0` again, and every face with `k` colors is on the way.
pub open spec fn ring_from(s: DynamicState, f0: int, k: nat, d: nat) -> bool {
    &&& forall|m: nat|
        #![trigger face_walk(s, f0, m)]
        0 < m < d ==> (face_walk(s, f0, m) matches Some(g) && 0 <= g < NFACES && g != f0 && popcount(g as u64) == k)
    &&& face_walk(s, f0, d) == Some(f0)
    &&& forall|g: int|
        0 <= g < NFACES && #[trigger] popcount(g as u64) == k ==> exists|m: nat| m < d && #[trigger] face_walk(s, f0, m) == Some(g)
}

/// For each count k from 1 to NCOLORS - 1, the faces with k colors form one cycle of
/// C(NCOLORS, k) next-face links.
pub open spec fn face_rings_ok(s: DynamicState) -> bool {
    forall|k: nat, f0: int| 1 <= k < NCOLORS && #[trigger] first_with_count(f0, k) ==> ring_from(s, f0, k, spec_choose(NCOLORS as nat, k))
}

/// Following next-face links from `f0`, having taken `m` steps: the face where the walk
/// fails (a missing link, more than NFACES steps, a link out of the faces, or a return to
/// `f0` after other than `d` steps, which names `f0`), or None when it returns to `f0`
/// after exactly `d` steps.
pub open spec fn walk_failure(s: DynamicState, f0: int, d: nat, m: nat) -> Option<int>
    decreases 65 - m,
{
    if m > 64 {
        None
    } else {
        let cur = face_walk(s, f0, m)->0;
        match next_of(s, cur) {
            None => Some(cur),
            Some(next) => if m + 1 > 64 {
                Some(cur)
            } else if next == f0 {
                if m + 1 != d {
                    Some(f0)
                } else {
                    None
                }
            } else if next >= NFACES {
                Some(cur)
            } else {
                walk_failure(s, f0, d, m + 1)
            },
        }
    }
}

/// The first face from `g` on with `k` colors that the walk of `d` steps from `f0` does
/// not reach.
pub open spec fn first_unreached(s: DynamicState, f0: int, k: nat, d: nat, g: int) -> Option<int>
    decreases NFACES - g,
{
    if g >= NFACES || g < 0 {
        None
    } else if popcount(g as u64) == k && !(exists|m: nat| m < d && #[trigger] face_walk(s, f0, m) == Some(g)) {
        Some(g)
    } else {
        first_unreached(s, f0, k, d, g + 1)
    }
}

/// The face named when the ring of the faces with `k` colors fails, if it does.
pub open spec fn ring_failure(s: DynamicState, k: nat) -> Option<int> {
    let f0 = choose|f: int| first_with_count(f, k);
    let d = spec_choose(NCOLORS as nat, k);
    match walk_failure(s, f0, d, 0) {
        Some(g) => Some(g),
        None => first_unreached(s, f0, k, d, 0),
    }
}

/// The face named by the first failing ring, for the counts from `k` on.
pub open spec fn rings_failure_from(s: DynamicState, k: nat) -> Option<int>
    decreases NCOLORS - k,
{
    if k >= NCOLORS {
        None
    } else {
        match ring_failure(s, k) {
            Some(g) => Some(g),
            None => rings_failure_from(s, (k + 1) as nat),
        }
    }
}

proof fn lemma_counts_small()
    ensures
        spec_choose(6, 1) == 6,
        spec_choose(6, 2) == 15,
        spec_choose(6, 3) == 20,
        spec_choose(6, 4) == 15,
        spec_choose(6, 5) == 6,
        popcount(1) == 1,
        popcount(3) == 2,
        popcount(7) == 3,
        popcount(15) == 4,
        popcount(31) == 5,
{
    lemma_choose_six();
    reveal_with_fuel(popcount, 6);
}

/// The number of faces below `n` with `k` colors.
pub open spec fn count_with_colors(n: int, k: nat) -> nat
    decreases n,
{
    if n <= 0 {
        0
    } else {
        count_with_colors(n - 1, k) + if popcount((n - 1) as u64) == k {
            1nat
        } else {
            0nat
        }
    }
}

/// The faces below `n` with `k` colors.
pub open spec fn faces_with_colors(n: int, k: nat) -> Set<int> {
    Set::new(|g: int| 0 <= g < n && popcount(g as u64) == k)
}

proof fn lemma_faces_with_colors_len(n: int, k: nat)
    requires
        n >= 0,
    ensures
        faces_with_colors(n, k).finite(),
        faces_with_colors(n, k).len() == count_with_colors(n, k),
    decreases n,
{
    if n == 0 {
        assert(faces_with_colors(0, k) =~= Set::empty());
    } else {
        lemma_faces_with_colors_len(n - 1, k);
        if popcount((n - 1) as u64) == k {
            assert(faces_with_colors(n, k) =~= faces_with_colors(n - 1, k).insert(n - 1));
        } else {
            assert(faces_with_colors(n, k) =~= faces_with_colors(n - 1, k));
        }
    }
}

proof fn lemma_faces_per_count()
    ensures
        count_with_colors(64, 1) == 6,
        count_with_colors(64, 2) == 15,
        count_with_colors(64, 3) == 20,
        count_with_colors(64, 4) == 15,
        count_with_colors(64, 5) == 6,
{
    reveal_with_fuel(popcount, 7);
    reveal_with_fuel(count_with_colors, 17);
    assert(count_with_colors(16, 4) == 1);
    assert(count_with_colors(32, 4) == 5);
    assert(count_with_colors(48, 4) == 9);
    assert(count_with_colors(64, 4) == 15);
    assert(count_with_colors(16, 1) == 4);
    assert(count_with_colors(32, 1) == 5);
    assert(count_with_colors(48, 1) == 6);
    assert(count_with_colors(64, 1) == 6);
    assert(count_with_colors(16, 2) == 6);
    assert(count_with_colors(32, 2) == 10);
    assert(count_with_colors(48, 2) == 14);
    assert(count_with_colors(64, 2) == 15);
    assert(count_with_colors(16, 3) == 4);
    assert(count_with_colors(32, 3) == 10);
    assert(count_with_colors(48, 3) == 16);
    assert(count_with_colors(64, 3) == 20);
    assert(count_with_colors(16, 5) == 0);
    assert(count_with_colors(32, 5) == 1);
    assert(count_with_colors(48, 5) == 2);
    assert(count_with_colors(64, 5) == 6);
}

/// The faces reached in fewer than `j` steps from `f0`.
pub open spec fn walk_faces(s: DynamicState, f0: int, j: nat) -> Set<int> {
    Set::new(|g: int| exists|m: nat| m < j && #[trigger] face_walk(s, f0, m) == Some(g))
}

proof fn lemma_walk_faces_len(s: DynamicState, f0: int, j: nat)
    requires
        forall|m: nat| m < j ==> (#[trigger] face_walk(s, f0, m) matches Some(g) && 0 <= g < NFACES),
    ensures
        walk_faces(s, f0, j).finite(),
        walk_faces(s, f0, j).len() <= j,
    decreases j,
{
    if j == 0 {
        assert(walk_faces(s, f0, 0) =~= Set::empty());
    } else {
        let jj = (j - 1) as nat;
        lemma_walk_faces_len(s, f0, jj);
        let g = face_walk(s, f0, jj)->0;
        assert(face_walk(s, f0, jj) == Some(g));
        assert forall|x: int| walk_faces(s, f0, j).contains(x) <==> walk_faces(s, f0, jj).insert(g).contains(x) by {
            if walk_faces(s, f0, j).contains(x) {
                let m = choose|m: nat| m < j && #[trigger] face_walk(s, f0, m) == Some(x);
                if m < jj {
                    assert(walk_faces(s, f0, jj).contains(x));
                }
            }
            if walk_faces(s, f0, jj).contains(x) {
                let m = choose|m: nat| m < jj && #[trigger] face_walk(s, f0, m) == Some(x);
                assert(m < j);
            }
        }
        assert(walk_faces(s, f0, j) =~= walk_faces(s, f0, jj).insert(g));
    }
}

/// A walk of `d` steps that reaches every one of the `d` faces with `k` colors meets no
/// other face.
proof fn lemma_walk_stays_in_count(s: DynamicState, f0: int, k: nat, d: nat)
    requires
        d == count_with_colors(64, k),
        forall|m: nat| m < d ==> (#[trigger] face_walk(s, f0, m) matches Some(g) && 0 <= g < NFACES),
        forall|g: int| 0 <= g < NFACES && #[trigger] popcount(g as u64) == k ==> exists|m: nat| m < d && #[trigger] face_walk(s, f0, m) == Some(g),
    ensures
        forall|m: nat| m < d ==> (#[trigger] face_walk(s, f0, m) matches Some(g) && popcount(g as u64) == k),
{
    lemma_walk_faces_len(s, f0, d);
    lemma_faces_with_colors_len(64, k);
    let w = walk_faces(s, f0, d);
    let kf = faces_with_colors(64, k);
    assert forall|m: nat| m < d implies (#[trigger] face_walk(s, f0, m) matches Some(g) && popcount(g as u64) == k) by {
        let g = face_walk(s, f0, m)->0;
        if popcount(g as u64) != k {
            assert(w.contains(g));
            assert forall|x: int| kf.contains(x) implies w.remove(g).contains(x) by {
                assert(popcount(x as u64) == k);
                let mm = choose|mm: nat| mm < d && #[trigger] face_walk(s, f0, mm) == Some(x);
                assert(w.contains(x));
            }
            vstd::set_lib::lemma_len_subset(kf, w.remove(g));
            assert(false);
        }
    }
}

/// The counts below `k` have their rings.
pub open spec fn rings_below(s: DynamicState, k: nat) -> bool {
    forall|kk: nat, f0: int| 1 <= kk < k && #[trigger] first_with_count(f0, kk) ==> ring_from(s, f0, kk, spec_choose(NCOLORS as nat, kk))
}

/// For each color count k from 1 to NCOLORS - 1: starting from the first face with k
/// colors, follow the next-face links back to the start; the walk must close after
/// C(NCOLORS, k) faces, and every face with k colors must have been visited. A missing
/// link, a walk longer than NFACES + 1, a wrong length or an unvisited face fails with
/// NoMatchingCycles at depth 0, naming the face where the first failing walk stopped
/// (or its start, for a wrong length) or the first unvisited face.
#[verifier::loop_isolation(true)]
#[verifier::rlimit(60)]
pub fn validate_face_cycles(memo: &MemoizedData, state: &DynamicState) -> (r: Result<(), PropagationFailure>)
    requires
        memo.wf(),
        state.wf(),
    ensures
        r is Ok ==> forall|f: int| 0 <= f < NFACES && 0 < popcount(f as u64) < NCOLORS ==> (#[trigger] state.faces.faces@[f]).next_face_id_encoded != 0,
        r matches Err(e) ==> e matches PropagationFailure::NoMatchingCycles { depth, .. } && depth == 0,
        r is Ok <==> face_rings_ok(*state),
        r is Ok <==> rings_failure_from(*state, 1) is None,
        r matches Err(PropagationFailure::NoMatchingCycles { face_id, .. }) ==> rings_failure_from(*state, 1) == Some(face_id as int),
{
    let ghost ok = face_rings_ok(*state);
    proof {
        lemma_counts_small();
        lemma_faces_per_count();
    }
    let mut visited = [false; 64];
    let mut color_count: usize = 1;
    while color_count < NCOLORS
        invariant
            memo.wf(),
            state.wf(),
            1 <= color_count <= NCOLORS,
            forall|f: int| 0 <= f < NFACES && #[trigger] visited@[f] ==> state.faces.faces@[f].next_face_id_encoded != 0,
            ok == face_rings_ok(*state),
            forall|f: int| 0 <= f < NFACES ==> (#[trigger] visited@[f] <==> 0 < popcount(f as u64) < color_count),
            rings_below(*state, color_count as nat),
            rings_failure_from(*state, 1) == rings_failure_from(*state, color_count as nat),
            spec_choose(6, 1) == 6,
            spec_choose(6, 2) == 15,
            spec_choose(6, 3) == 20,
            spec_choose(6, 4) == 15,
            spec_choose(6, 5) == 6,
            popcount(1) == 1,
            popcount(3) == 2,
            popcount(7) == 3,
            popcount(15) == 4,
            popcount(31) == 5,
            count_with_colors(64, 1) == 6,
            count_with_colors(64, 2) == 15,
            count_with_colors(64, 3) == 20,
            count_with_colors(64, 4) == 15,
            count_with_colors(64, 5) == 6,
        decreases NCOLORS - color_count,
    {
        let expected_cycle_length = memo.faces.face_degree(color_count) as usize;
        let ghost d: nat = spec_choose(NCOLORS as nat, color_count as nat);
        assert(1 <= d <= 20);
        assert(d == count_with_colors(64, color_count as nat));
        let mut found_any_face = false;
        let mut start_face_id: usize = 0;
        while start_face_id < NFACES
            invariant_except_break
                !found_any_face,
            invariant
                memo.wf(),
                state.wf(),
                1 <= color_count < NCOLORS,
                start_face_id <= NFACES,
                forall|f: int| 0 <= f < NFACES && #[trigger] visited@[f] ==> state.faces.faces@[f].next_face_id_encoded != 0,
                ok == face_rings_ok(*state),
                expected_cycle_length == d,
                1 <= d <= 20,
                d == spec_choose(NCOLORS as nat, color_count as nat),
                d == count_with_colors(64, color_count as nat),
                popcount(1) == 1,
                popcount(3) == 2,
                popcount(7) == 3,
                popcount(15) == 4,
                popcount(31) == 5,
                forall|f: int|
                    0 <= f < NFACES ==> (#[trigger] visited@[f] <==> (0 < popcount(f as u64) < color_count || (found_any_face && popcount(
                        f as u64,
                    ) == color_count))),
                !found_any_face ==> forall|g: int| 0 <= g < start_face_id ==> #[trigger] popcount(g as u64) != color_count,
                !found_any_face ==> rings_below(*state, color_count as nat),
                rings_failure_from(*state, 1) == rings_failure_from(*state, color_count as nat),
            ensures
                !found_any_face ==> start_face_id >= NFACES,
                found_any_face ==> ring_failure(*state, color_count as nat) is None,
                forall|f: int| 0 <= f < NFACES && #[trigger] visited@[f] ==> state.faces.faces@[f].next_face_id_encoded != 0,
                forall|f: int|
                    0 <= f < NFACES ==> (#[trigger] visited@[f] <==> (0 < popcount(f as u64) < color_count || (found_any_face && popcount(
                        f as u64,
                    ) == color_count))),
                !found_any_face ==> forall|g: int| 0 <= g < start_face_id ==> #[trigger] popcount(g as u64) != color_count,
                found_any_face ==> rings_below(*state, (color_count + 1) as nat),
            decreases NFACES - start_face_id,
        {
            if visited[start_face_id] {
                start_face_id = start_face_id + 1;
                continue;
            }
            let face_colors = memo.faces.get_face(start_face_id).colors;
            if face_colors.len() != color_count {
                start_face_id = start_face_id + 1;
                continue;
            }
            found_any_face = true;
            let mut current_face_id = start_face_id;
            let mut cycle_length: usize = 0;
            let max_iterations = NFACES + 1;
            let ghost f0 = start_face_id as int;
            let ghost lower = visited@;
            proof {
                assert(first_with_count(f0, color_count as nat));
                let c = choose|f: int| first_with_count(f, color_count as nat);
                assert(first_with_count(c, color_count as nat));
                if c < f0 {
                    assert(popcount(c as u64) != color_count);
                } else if f0 < c {
                    assert(popcount(f0 as u64) != color_count);
                }
                assert(c == f0);
                if ok {
                    assert(face_rings_ok(*state));
                    assert(first_with_count(f0, color_count as nat) ==> ring_from(*state, f0, color_count as nat, spec_choose(NCOLORS as nat, color_count as nat)));
                    assert(ring_from(*state, f0, color_count as nat, d));
                }
            }
            loop
                invariant_except_break
                    face_walk(*state, f0, cycle_length as nat) == Some(current_face_id as int),
                    ok ==> cycle_length < d,
                    forall|f: int|
                        0 <= f < NFACES ==> (#[trigger] visited@[f] <==> (lower[f] || exists|m: nat| m < cycle_length && face_walk(*state, f0, m)
                            == Some(f))),
                    forall|m: nat|
                        0 < m <= cycle_length ==> (#[trigger] face_walk(*state, f0, m) matches Some(g) && 0 <= g < NFACES && g != f0),
                    walk_failure(*state, f0, d, 0) == walk_failure(*state, f0, d, cycle_length as nat),
                    cycle_length <= 64,
                invariant
                    1 <= color_count < NCOLORS,
                    d == spec_choose(NCOLORS as nat, color_count as nat),
                    rings_failure_from(*state, 1) == rings_failure_from(*state, color_count as nat),
                    ring_failure(*state, color_count as nat) == (match walk_failure(*state, f0, d, 0) {
                        Some(g) => Some(g),
                        None => first_unreached(*state, f0, color_count as nat, d, 0),
                    }),
                    ok ==> ring_from(*state, f0, color_count as nat, d),
                    forall|f: int| 0 <= f < NFACES ==> (lower[f] <==> 0 < popcount(f as u64) < color_count),
                    lower.len() == 64,
                    f0 == start_face_id,
                    ok == face_rings_ok(*state),
                    expected_cycle_length == d,
                    1 <= d <= 20,
                    state.wf(),
                    current_face_id < NFACES,
                    start_face_id < NFACES,
                    cycle_length <= max_iterations,
                    max_iterations == NFACES + 1,
                    forall|f: int| 0 <= f < NFACES && #[trigger] visited@[f] ==> state.faces.faces@[f].next_face_id_encoded != 0,
                ensures
                    cycle_length == d,
                    walk_failure(*state, f0, d, 0) is None,
                    face_walk(*state, f0, d) == Some(f0),
                    forall|m: nat| 0 < m < d ==> (#[trigger] face_walk(*state, f0, m) matches Some(g) && 0 <= g < NFACES && g != f0),
                    forall|f: int|
                        0 <= f < NFACES ==> (#[trigger] visited@[f] <==> (lower[f] || exists|m: nat| m < d && face_walk(*state, f0, m) == Some(
                            f,
                        ))),
                decreases max_iterations - cycle_length,
            {
                let ghost cl = cycle_length;
                let ghost vis0 = visited@;
                proof {
                    assert(face_walk(*state, f0, (cl + 1) as nat) == next_of(*state, current_face_id as int));
                    if ok {
                        if cl + 1 < d {
                            assert(face_walk(*state, f0, (cl + 1) as nat) matches Some(g) && 0 <= g < NFACES && g != f0);
                        }
                    }
                }
                let next_face_opt = state.faces.faces[current_face_id].next_face();
                proof {
                    assert(face_walk(*state, f0, cl as nat)->0 == current_face_id as int);
                }
                if next_face_opt.is_none() {
                    proof {
                        assert(walk_failure(*state, f0, d, cl as nat) == Some(current_face_id as int));
                    }
                    return Err(PropagationFailure::NoMatchingCycles { face_id: current_face_id, depth: 0 });
                }
                visited[current_face_id] = true;
                cycle_length = cycle_length + 1;
                if cycle_length > max_iterations - 1 {
                    proof {
                        assert(walk_failure(*state, f0, d, cl as nat) == Some(current_face_id as int));
                    }
                    return Err(PropagationFailure::NoMatchingCycles { face_id: current_face_id, depth: 0 });
                }
                let next_face_id = match next_face_opt {
                    Some(n) => n,
                    None => {
                        return Err(PropagationFailure::NoMatchingCycles { face_id: current_face_id, depth: 0 });
                    },
                };
                proof {
                    assert forall|f: int| 0 <= f < NFACES implies (#[trigger] visited@[f] <==> (lower[f] || exists|m: nat| m < cycle_length
                        && face_walk(*state, f0, m) == Some(f))) by {
                        if f == current_face_id as int {
                            assert(face_walk(*state, f0, cl as nat) == Some(f));
                        } else {
                            assert(visited@[f] == vis0[f]);
                            if exists|m: nat| m < cycle_length && face_walk(*state, f0, m) == Some(f) {
                                let m = choose|m: nat| m < cycle_length && face_walk(*state, f0, m) == Some(f);
                                assert(m < cl);
                            }
                        }
                    }
                    assert(face_walk(*state, f0, cycle_length as nat) == Some(next_face_id as int));
                }
                if next_face_id == start_face_id {
                    if cycle_length != expected_cycle_length {
                        proof {
                            assert(walk_failure(*state, f0, d, cl as nat) == Some(f0));
                        }
                        return Err(PropagationFailure::NoMatchingCycles { face_id: start_face_id, depth: 0 });
                    }
                    proof {
                        assert(walk_failure(*state, f0, d, cl as nat) is None);
                    }
                    break;
                }
                if next_face_id >= NFACES {
                    proof {
                        assert(walk_failure(*state, f0, d, cl as nat) == Some(current_face_id as int));
                    }
                    return Err(PropagationFailure::NoMatchingCycles { face_id: current_face_id, depth: 0 });
                }
                current_face_id = next_face_id;
                proof {
                    assert(walk_failure(*state, f0, d, cl as nat) == walk_failure(*state, f0, d, cycle_length as nat));
                }
            }
            let mut check_face_id: usize = 0;
            while check_face_id < NFACES
                invariant
                    ok == face_rings_ok(*state),
                    ok ==> ring_from(*state, f0, color_count as nat, d),
                    forall|f: int|
                        0 <= f < NFACES ==> (#[trigger] visited@[f] <==> (lower[f] || exists|m: nat| m < d && face_walk(*state, f0, m) == Some(
                            f,
                        ))),
                    memo.wf(),
                    check_face_id <= NFACES,
                    1 <= color_count < NCOLORS,
                    forall|f: int| 0 <= f < NFACES ==> (lower[f] <==> 0 < popcount(f as u64) < color_count),
                    rings_failure_from(*state, 1) == rings_failure_from(*state, color_count as nat),
                    ring_failure(*state, color_count as nat) == first_unreached(*state, f0, color_count as nat, d, 0),
                    first_unreached(*state, f0, color_count as nat, d, 0) == first_unreached(*state, f0, color_count as nat, d, check_face_id as int),
                    forall|f: int| 0 <= f < check_face_id && popcount(f as u64) == color_count ==> #[trigger] visited@[f],
                decreases NFACES - check_face_id,
            {
                if !visited[check_face_id] {
                    let check_face_colors = memo.faces.get_face(check_face_id).colors;
                    if check_face_colors.len() == color_count {
                        proof {
                            if ok {
                                assert(popcount(check_face_id as u64) == color_count);
                                let m = choose|m: nat| m < d && #[trigger] face_walk(*state, f0, m) == Some(check_face_id as int);
                                assert(visited@[check_face_id as int]);
                            }
                        }
                        proof {
                            assert(popcount(check_face_id as u64) == color_count);
                            assert(!lower[check_face_id as int]);
                            assert(first_unreached(*state, f0, color_count as nat, d, check_face_id as int) == Some(check_face_id as int));
                        }
                        return Err(PropagationFailure::NoMatchingCycles { face_id: check_face_id, depth: 0 });
                    }
                }
                proof {
                    let g = check_face_id as int;
                    if popcount(g as u64) == color_count {
                        assert(visited@[g]);
                        assert(!lower[g]);
                        assert(exists|m: nat| m < d && face_walk(*state, f0, m) == Some(g));
                    }
                    assert(first_unreached(*state, f0, color_count as nat, d, g) == first_unreached(*state, f0, color_count as nat, d, g + 1));
                }
                check_face_id = check_face_id + 1;
            }
            proof {
                assert(first_unreached(*state, f0, color_count as nat, d, NFACES as int) is None);
                assert(ring_failure(*state, color_count as nat) is None);
                assert forall|g: int| 0 <= g < NFACES && #[trigger] popcount(g as u64) == color_count implies exists|m: nat| m < d
                    && #[trigger] face_walk(*state, f0, m) == Some(g) by {
                    assert(visited@[g]);
                    assert(!lower[g]);
                }
                assert forall|m: nat| m < d implies (#[trigger] face_walk(*state, f0, m) matches Some(g) && 0 <= g < NFACES) by {
                    if m == 0 {
                        assert(face_walk(*state, f0, 0) == Some(f0));
                    }
                }
                lemma_walk_stays_in_count(*state, f0, color_count as nat, d);
                assert(ring_from(*state, f0, color_count as nat, d));
                assert forall|kk: nat, g0: int| 1 <= kk < color_count + 1 && #[trigger] first_with_count(g0, kk) implies ring_from(
                    *state,
                    g0,
                    kk,
                    spec_choose(NCOLORS as nat, kk),
                ) by {
                    if kk == color_count {
                        if g0 < f0 {
                            assert(popcount(g0 as u64) != kk);
                        } else if f0 < g0 {
                            assert(popcount(f0 as u64) != kk);
                        }
                    } else {
                        assert(rings_below(*state, color_count as nat));
                    }
                }
                assert forall|f: int| 0 <= f < NFACES implies (#[trigger] visited@[f] <==> (0 < popcount(f as u64) < color_count || (
                found_any_face && popcount(f as u64) == color_count))) by {
                    if exists|m: nat| m < d && face_walk(*state, f0, m) == Some(f) {
                        let m = choose|m: nat| m < d && face_walk(*state, f0, m) == Some(f);
                        assert(face_walk(*state, f0, m) matches Some(g) && popcount(g as u64) == color_count);
                    }
                    if popcount(f as u64) == color_count {
                        let m = choose|m: nat| m < d && #[trigger] face_walk(*state, f0, m) == Some(f);
                    }
                }
            }
            break;
        }
        if !found_any_face {
            proof {
                {
                    let w: int = if color_count == 1 {
                        1
                    } else if color_count == 2 {
                        3
                    } else if color_count == 3 {
                        7
                    } else if color_count == 4 {
                        15
                    } else {
                        31
                    };
                    assert(popcount(w as u64) == color_count);
                    assert(false);
                }
            }
            return Err(PropagationFailure::NoMatchingCycles { face_id: 0, depth: 0 });
        }
        proof {
            assert(rings_failure_from(*state, color_count as nat) == rings_failure_from(*state, (color_count + 1) as nat));
        }
        color_count = color_count + 1;
    }
    proof {
        assert forall|f: int| 0 <= f < NFACES && 0 < popcount(f as u64) < NCOLORS implies (#[trigger] state.faces.faces@[f]).next_face_id_encoded
            != 0 by {
            assert(visited@[f]);
        }
        assert forall|k: nat, f0: int| 1 <= k < NCOLORS && #[trigger] first_with_count(f0, k) implies ring_from(
            *state,
            f0,
            k,
            spec_choose(NCOLORS as nat, k),
        ) by {
            assert(rings_below(*state, color_count as nat));
        }
        assert(rings_failure_from(*state, NCOLORS as nat) is None);
    }
    Ok(())
}

} // verus!
