//! Canonicality of face degree sequences under the dihedral group D6
//! (rotations and reflections of the colors).

use crate::geometry::constants::NCOLORS;
use crate::symmetry::dihedral::{lemma_dihedral_group_6, DIHEDRAL_GROUP_6};
use vstd::prelude::*;

verus! {

/// How a sequence compares with its images under the dihedral group.
#[derive(Debug, Clone, Copy, PartialEq, Eq, Structural)]
pub enum SymmetryType {
    /// The sequence is the unique lexicographic maximum of its images.
    Canonical,
    /// The sequence is the maximum, and another group element also maps it to itself.
    Equivocal,
    /// Some image is lexicographically larger: the sequence is not canonical.
    NonCanonical,
}

/// Strict lexicographic order on sequences of equal length.
pub open spec fn lex_less(a: Seq<u8>, b: Seq<u8>) -> bool
    decreases a.len(),
{
    if a.len() == 0 || b.len() == 0 {
        false
    } else if a[0] < b[0] {
        true
    } else if a[0] == b[0] {
        lex_less(a.drop_first(), b.drop_first())
    } else {
        false
    }
}

/// `lex_less` is irreflexive and transitive, and any two distinct sequences of equal length
/// are ordered one way or the other.
pub proof fn lemma_lex_order(a: Seq<u8>, b: Seq<u8>, c: Seq<u8>)
    requires
        a.len() == b.len(),
        b.len() == c.len(),
    ensures
        !lex_less(a, a),
        lex_less(a, b) && lex_less(b, c) ==> lex_less(a, c),
        lex_less(a, b) ==> !lex_less(b, a),
        a != b ==> lex_less(a, b) || lex_less(b, a),
    decreases a.len(),
{
    if a.len() > 0 {
        lemma_lex_order(a.drop_first(), b.drop_first(), c.drop_first());
        if a != b && a[0] == b[0] {
            assert(a =~= seq![a[0]] + a.drop_first());
            assert(b =~= seq![b[0]] + b.drop_first());
        }
    } else {
        assert(a =~= b);
    }
}

/// The image of `degrees` under permutation `p`: position i takes `degrees[p[i]]`.
pub open spec fn permuted(degrees: Seq<u8>, p: Seq<u8>) -> Seq<u8> {
    Seq::new(degrees.len(), |i: int| degrees[p[i] as int])
}

/// The image of the degrees under element `k` of the dihedral group.
pub open spec fn dihedral_image(degrees: Seq<u8>, k: int) -> Seq<u8> {
    permuted(degrees, DIHEDRAL_GROUP_6@[k]@)
}

/// The symmetry type of a degree sequence: non-canonical when some image is larger,
/// equivocal when it is the largest and a non-identity element fixes it, else canonical.
pub open spec fn spec_symmetry(degrees: Seq<u8>) -> SymmetryType {
    if exists|k: int| 0 <= k < 12 && lex_less(degrees, #[trigger] dihedral_image(degrees, k)) {
        SymmetryType::NonCanonical
    } else if exists|k: int| 1 <= k < 12 && #[trigger] dihedral_image(degrees, k) == degrees {
        SymmetryType::Equivocal
    } else {
        SymmetryType::Canonical
    }
}

/// The number of group elements among the first `n` whose image equals `m`.
pub open spec fn count_images_equal(degrees: Seq<u8>, m: Seq<u8>, n: int) -> nat
    decreases n,
{
    if n <= 0 {
        0
    } else {
        count_images_equal(degrees, m, n - 1) + if dihedral_image(degrees, n - 1) == m { 1nat } else { 0nat }
    }
}

proof fn lemma_count_images(degrees: Seq<u8>, m: Seq<u8>, n: int)
    requires
        1 <= n <= 12,
        dihedral_image(degrees, 0) == m,
    ensures
        count_images_equal(degrees, m, n) >= 1,
        count_images_equal(degrees, m, n) > 1 <==> exists|k: int| 1 <= k < n && #[trigger] dihedral_image(degrees, k) == m,
    decreases n,
{
    if n > 1 {
        lemma_count_images(degrees, m, n - 1);
        let prev = count_images_equal(degrees, m, n - 1);
        assert(count_images_equal(degrees, m, n) == prev + if dihedral_image(degrees, n - 1) == m { 1nat } else { 0nat });
        if exists|k: int| 1 <= k < n && #[trigger] dihedral_image(degrees, k) == m {
            let k = choose|k: int| 1 <= k < n && #[trigger] dihedral_image(degrees, k) == m;
            if k < n - 1 {
                assert(exists|k2: int| 1 <= k2 < n - 1 && #[trigger] dihedral_image(degrees, k2) == m);
            }
        }
        if count_images_equal(degrees, m, n) > 1 {
            if prev > 1 {
                let k = choose|k: int| 1 <= k < n - 1 && #[trigger] dihedral_image(degrees, k) == m;
                assert(1 <= k < n && dihedral_image(degrees, k) == m);
            } else {
                assert(dihedral_image(degrees, n - 1) == m);
            }
        }
    } else {
        assert(count_images_equal(degrees, m, 0) == 0);
        assert(count_images_equal(degrees, m, 1) == 1);
    }
}

/// Lexicographic comparison: -1, 0 or 1 as `a` is less than, equal to or greater than `b`.
fn compare_lex(a: &[u8; 6], b: &[u8; 6]) -> (r: i8)
    ensures
        r == 0 <==> a@ == b@,
        r < 0 <==> lex_less(a@, b@),
        r > 0 <==> lex_less(b@, a@),
{
    let mut i: usize = 0;
    while i < 6
        invariant
            i <= 6,
            forall|j: int| 0 <= j < i ==> a@[j] == b@[j],
        decreases 6 - i,
    {
        if a[i] != b[i] {
            proof {
                lemma_lex_prefix(a@, b@, i as int);
            }
            if a[i] < b[i] {
                return -1;
            } else {
                return 1;
            }
        }
        i = i + 1;
    }
    proof {
        assert(a@ =~= b@);
        lemma_lex_order(a@, b@, b@);
    }
    0
}

/// Sequences agreeing before position `i` compare as their elements at `i` do.
pub proof fn lemma_lex_prefix(a: Seq<u8>, b: Seq<u8>, i: int)
    requires
        a.len() == b.len(),
        0 <= i < a.len(),
        forall|j: int| 0 <= j < i ==> a[j] == b[j],
        a[i] != b[i],
    ensures
        lex_less(a, b) <==> a[i] < b[i],
        lex_less(b, a) <==> b[i] < a[i],
        a != b,
    decreases i,
{
    if i > 0 {
        lemma_lex_prefix(a.drop_first(), b.drop_first(), i - 1);
    }
}

/// Classify a degree sequence under the dihedral group D6.
///
/// Applies all 12 group elements, keeps the lexicographically largest image and how many
/// elements produce it; the input is non-canonical if it is not that largest image,
/// equivocal if it is and several elements produce it, canonical otherwise.
pub fn check_symmetry(degrees: &[u8; 6]) -> (r: SymmetryType)
    ensures
        r == spec_symmetry(degrees@),
{
    proof {
        lemma_dihedral_group_6();
    }
    let mut max_perm = [0u8; 6];
    let mut max_count: usize = 0;
    let mut first = true;
    let mut k: usize = 0;
    while k < 12
        invariant
            k <= 12,
            first <==> k == 0,
            k > 0 ==> exists|j: int| 0 <= j < k && #[trigger] dihedral_image(degrees@, j) == max_perm@,
            forall|j: int| 0 <= j < k ==> !lex_less(max_perm@, #[trigger] dihedral_image(degrees@, j)),
            max_count == count_images_equal(degrees@, max_perm@, k as int),
            max_count <= k,
        decreases 12 - k,
    {
        let permutation = DIHEDRAL_GROUP_6[k];
        let mut permuted_degrees = [0u8; 6];
        let mut i: usize = 0;
        while i < 6
            invariant
                i <= 6,
                permutation@ == DIHEDRAL_GROUP_6@[k as int]@,
                forall|j: int| 0 <= j < i ==> #[trigger] permuted_degrees@[j] == dihedral_image(degrees@, k as int)[j],
            decreases 6 - i,
        {
            permuted_degrees[i] = degrees[permutation[i] as usize];
            i = i + 1;
        }
        proof {
            assert(permuted_degrees@ =~= dihedral_image(degrees@, k as int));
        }
        let ghost old_max = max_perm@;
        if first {
            max_perm = permuted_degrees;
            max_count = 1;
            first = false;
            proof {
                lemma_lex_order(max_perm@, max_perm@, max_perm@);
                assert(count_images_equal(degrees@, max_perm@, 0) == 0);
                assert(count_images_equal(degrees@, max_perm@, 1) == 1);
            }
        } else {
            let c = compare_lex(&permuted_degrees, &max_perm);
            if c > 0 {
                max_perm = permuted_degrees;
                max_count = 1;
                proof {
                    assert forall|j: int| 0 <= j < k + 1 implies !lex_less(max_perm@, #[trigger] dihedral_image(degrees@, j)) by {
                        lemma_lex_order(dihedral_image(degrees@, j), old_max, max_perm@);
                        lemma_lex_order(max_perm@, dihedral_image(degrees@, j), old_max);
                        if j < k {
                            lemma_lex_order(old_max, dihedral_image(degrees@, j), old_max);
                        }
                    }
                    assert forall|j: int| 0 <= j < k implies #[trigger] dihedral_image(degrees@, j) != max_perm@ by {
                        lemma_lex_order(old_max, max_perm@, max_perm@);
                    }
                    lemma_count_zero(degrees@, max_perm@, k as int);
                    assert(count_images_equal(degrees@, max_perm@, k + 1) == 1);
                }
            } else if c == 0 {
                max_count = max_count + 1;
                proof {
                    lemma_lex_order(max_perm@, max_perm@, max_perm@);
                    assert(count_images_equal(degrees@, max_perm@, k + 1) == count_images_equal(degrees@, max_perm@, k as int) + 1);
                }
            } else {
                proof {
                    lemma_lex_order(permuted_degrees@, max_perm@, max_perm@);
                    assert(count_images_equal(degrees@, max_perm@, k + 1) == count_images_equal(degrees@, max_perm@, k as int));
                }
            }
        }
        k = k + 1;
    }
    proof {
        let m = max_perm@;
        let d = degrees@;
        assert(dihedral_image(d, 0) =~= d);
        if d != m {
            let j = choose|j: int| 0 <= j < 12 && #[trigger] dihedral_image(d, j) == m;
            lemma_lex_order(d, m, m);
            assert(!lex_less(m, dihedral_image(d, 0)));
            assert(lex_less(d, dihedral_image(d, j)));
        } else {
            assert forall|j: int| 0 <= j < 12 implies !lex_less(d, #[trigger] dihedral_image(d, j)) by {}
            lemma_count_images(d, m, 12);
        }
    }
    if compare_lex(degrees, &max_perm) != 0 {
        return SymmetryType::NonCanonical;
    }
    if max_count > 1 {
        return SymmetryType::Equivocal;
    }
    SymmetryType::Canonical
}

proof fn lemma_count_zero(degrees: Seq<u8>, m: Seq<u8>, k: int)
    requires
        0 <= k <= 12,
        forall|j: int| 0 <= j < k ==> dihedral_image(degrees, j) != m,
    ensures
        count_images_equal(degrees, m, k) == 0,
    decreases k,
{
    if k > 0 {
        lemma_count_zero(degrees, m, k - 1);
    }
}

} // verus!
