use venn_search::geometry::NCOLORS;
use venn_search::symmetry::{check_symmetry, SymmetryType, DIHEDRAL_GROUP_3, DIHEDRAL_GROUP_6};

#[test]
fn test_dihedral_group_3_structure() {
    let d3 = DIHEDRAL_GROUP_3;

    assert_eq!(d3[0], [0, 1, 2]);
    assert_eq!(d3[1], [1, 2, 0]);
    assert_eq!(d3[2], [2, 0, 1]);

    assert_eq!(d3[3], [2, 1, 0]);
    assert_eq!(d3[4], [0, 2, 1]);
    assert_eq!(d3[5], [1, 0, 2]);
}

#[test]
fn test_dihedral_group_6_structure() {
    let d6 = DIHEDRAL_GROUP_6;

    assert_eq!(d6[0], [0, 1, 2, 3, 4, 5]);
    assert_eq!(d6[1], [1, 2, 3, 4, 5, 0]);
    assert_eq!(d6[6], [5, 4, 3, 2, 1, 0]);
}

#[test]
fn test_current_ncolors_dihedral_group() {
    let group: &[[u8; NCOLORS]] = &DIHEDRAL_GROUP_6;

    assert_eq!(group.len(), 2 * NCOLORS);

    for (i, &value) in group[0].iter().enumerate() {
        assert_eq!(value, i as u8);
    }

    let first_reflection_idx = NCOLORS;
    for (i, &value) in group[first_reflection_idx].iter().enumerate() {
        assert_eq!(value, (NCOLORS - 1 - i) as u8);
    }
}

#[test]
fn test_canonical_sequence_n6() {
    let degrees = [6, 6, 3, 5, 4, 3];
    assert_eq!(check_symmetry(&degrees), SymmetryType::Canonical);
}

#[test]
fn test_noncanonical_sequence_n6() {
    let degrees = [6, 6, 3, 4, 5, 3];
    assert_eq!(check_symmetry(&degrees), SymmetryType::NonCanonical);
}

#[test]
fn test_equivocal_sequence_n6() {
    let degrees = [5, 4, 5, 4, 5, 4];
    assert_eq!(check_symmetry(&degrees), SymmetryType::Equivocal);
}

#[test]
fn test_uniform_sequence_is_equivocal() {
    let value = match NCOLORS {
        3 => 3,
        4 => 4,
        5 => 4,
        6 => 5,
        _ => unreachable!(),
    };

    let degrees = [value; NCOLORS];
    let result = check_symmetry(&degrees);

    assert_eq!(result, SymmetryType::Equivocal);
}

#[test]
fn test_descending_sequence() {
    let degrees: [u8; NCOLORS] = {
        let mut arr = [0u8; NCOLORS];
        for (i, item) in arr.iter_mut().enumerate() {
            *item = (NCOLORS - i) as u8;
        }
        arr
    };

    let result = check_symmetry(&degrees);
    assert_ne!(result, SymmetryType::NonCanonical);
}

#[test]
fn all_rotations_and_reflections_of_a_canonical_sequence_are_rejected_or_equal() {
    let canonical = [6u8, 6, 4, 4, 4, 3];
    assert_eq!(check_symmetry(&canonical), SymmetryType::Canonical);
    let rotated = [6u8, 4, 4, 4, 3, 6];
    assert_eq!(check_symmetry(&rotated), SymmetryType::NonCanonical);
}
