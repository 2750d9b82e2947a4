use venn_search::geometry::constants::{factorial, n_choose_k};
use venn_search::geometry::{
    CYCLESET_LENGTH, NCOLORS, NCYCLES, NFACES, NPOINTS, TOTAL_CENTRAL_NEIGHBOR_DEGREE,
};

#[test]
fn test_factorial() {
    assert_eq!(factorial(0), 1);
    assert_eq!(factorial(1), 1);
    assert_eq!(factorial(2), 2);
    assert_eq!(factorial(3), 6);
    assert_eq!(factorial(4), 24);
    assert_eq!(factorial(5), 120);
    assert_eq!(factorial(6), 720);
}

#[test]
fn test_choose() {
    assert_eq!(n_choose_k(6, 0), 1);
    assert_eq!(n_choose_k(6, 1), 6);
    assert_eq!(n_choose_k(6, 2), 15);
    assert_eq!(n_choose_k(6, 3), 20);
    assert_eq!(n_choose_k(5, 2), 10);
    assert_eq!(n_choose_k(4, 1), 4);
}

#[test]
#[allow(clippy::assertions_on_constants)]
fn test_ncolors_in_valid_range() {
    assert!(
        NCOLORS >= 3 && NCOLORS <= 6,
        "NCOLORS must be 3, 4, 5, or 6"
    );
}

#[test]
fn test_nfaces() {
    assert_eq!(NFACES, 1 << NCOLORS);
    match NCOLORS {
        3 => assert_eq!(NFACES, 8),
        4 => assert_eq!(NFACES, 16),
        5 => assert_eq!(NFACES, 32),
        6 => assert_eq!(NFACES, 64),
        _ => unreachable!(),
    }
}

#[test]
fn test_ncycles() {
    match NCOLORS {
        3 => assert_eq!(NCYCLES, 2),
        4 => assert_eq!(NCYCLES, 14),
        5 => assert_eq!(NCYCLES, 74),
        6 => assert_eq!(NCYCLES, 394),
        _ => unreachable!(),
    }
}

#[test]
#[allow(clippy::assertions_on_constants)]
fn test_cycleset_length() {
    assert!(CYCLESET_LENGTH * 64 >= NCYCLES);
    assert!(CYCLESET_LENGTH * 64 - NCYCLES < 64);
}

#[test]
fn test_npoints() {
    let expected = (1 << (NCOLORS - 2)) * NCOLORS * (NCOLORS - 1);
    assert_eq!(NPOINTS, expected);

    match NCOLORS {
        3 => assert_eq!(NPOINTS, 2 * 3 * 2),
        4 => assert_eq!(NPOINTS, 4 * 4 * 3),
        5 => assert_eq!(NPOINTS, 8 * 5 * 4),
        6 => assert_eq!(NPOINTS, 16 * 6 * 5),
        _ => unreachable!(),
    }
}

#[test]
fn test_total_central_neighbor_degree() {
    let expected = 2 * n_choose_k(NCOLORS, NCOLORS - 1) + n_choose_k(NCOLORS, NCOLORS - 2);
    assert_eq!(TOTAL_CENTRAL_NEIGHBOR_DEGREE, expected);

    match NCOLORS {
        3 => assert_eq!(TOTAL_CENTRAL_NEIGHBOR_DEGREE, 9),
        4 => assert_eq!(TOTAL_CENTRAL_NEIGHBOR_DEGREE, 14),
        5 => assert_eq!(TOTAL_CENTRAL_NEIGHBOR_DEGREE, 20),
        6 => assert_eq!(TOTAL_CENTRAL_NEIGHBOR_DEGREE, 27),
        _ => unreachable!(),
    }
}
