//! The dihedral groups D_n as permutation tables: rotations first, then reflections.

use vstd::prelude::*;

verus! {

/// D3: the three rotations, then the reflection composed with each rotation.
pub const DIHEDRAL_GROUP_3: [[u8; 3]; 6] = [[0, 1, 2], [1, 2, 0], [2, 0, 1], [2, 1, 0], [0, 2, 1], [1, 0, 2]];

/// D4: the four rotations, then the reflection composed with each rotation.
pub const DIHEDRAL_GROUP_4: [[u8; 4]; 8] = [
    [0, 1, 2, 3],
    [1, 2, 3, 0],
    [2, 3, 0, 1],
    [3, 0, 1, 2],
    [3, 2, 1, 0],
    [0, 3, 2, 1],
    [1, 0, 3, 2],
    [2, 1, 0, 3],
];

/// D5: the five rotations, then the reflection composed with each rotation.
pub const DIHEDRAL_GROUP_5: [[u8; 5]; 10] = [
    [0, 1, 2, 3, 4],
    [1, 2, 3, 4, 0],
    [2, 3, 4, 0, 1],
    [3, 4, 0, 1, 2],
    [4, 0, 1, 2, 3],
    [4, 3, 2, 1, 0],
    [0, 4, 3, 2, 1],
    [1, 0, 4, 3, 2],
    [2, 1, 0, 4, 3],
    [3, 2, 1, 0, 4],
];

/// D6: the six rotations, then the reflection composed with each rotation.
pub const DIHEDRAL_GROUP_6: [[u8; 6]; 12] = [
    [0, 1, 2, 3, 4, 5],
    [1, 2, 3, 4, 5, 0],
    [2, 3, 4, 5, 0, 1],
    [3, 4, 5, 0, 1, 2],
    [4, 5, 0, 1, 2, 3],
    [5, 0, 1, 2, 3, 4],
    [5, 4, 3, 2, 1, 0],
    [0, 5, 4, 3, 2, 1],
    [1, 0, 5, 4, 3, 2],
    [2, 1, 0, 5, 4, 3],
    [3, 2, 1, 0, 5, 4],
    [4, 3, 2, 1, 0, 5],
];

/// Element `k` of D6 maps position i to (i + k) mod 6 for a rotation (k < 6), and to
/// (5 - i + (k - 6)) mod 6 for a reflection (6 <= k < 12).
pub open spec fn spec_dihedral_6(k: int, i: int) -> int {
    if k < 6 {
        (i + k) % 6
    } else {
        (5 - i + (k - 6)) % 6
    }
}

/// The D6 table holds exactly the rotations and reflections.
pub proof fn lemma_dihedral_group_6()
    ensures
        DIHEDRAL_GROUP_6@.len() == 12,
        forall|k: int| 0 <= k < 12 ==> (#[trigger] DIHEDRAL_GROUP_6@[k])@.len() == 6,
        forall|k: int, i: int| 0 <= k < 12 && 0 <= i < 6 ==> #[trigger] DIHEDRAL_GROUP_6@[k]@[i] == spec_dihedral_6(k, i),
        forall|i: int| 0 <= i < 6 ==> #[trigger] DIHEDRAL_GROUP_6@[0]@[i] == i,
{
    assert forall|k: int, i: int| 0 <= k < 12 && 0 <= i < 6 implies #[trigger] DIHEDRAL_GROUP_6@[k]@[i] == spec_dihedral_6(k, i) by {
        assert(DIHEDRAL_GROUP_6@[0]@ == seq![0u8, 1, 2, 3, 4, 5]);
    }
}

} // verus!
