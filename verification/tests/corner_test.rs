use venn_search::geometry::{Color, CornerWalkState, CrossingCounts, MAX_CROSSINGS_PER_PAIR, NCOLORS};

#[test]
fn test_corner_walk_state_creation() {
    let state = CornerWalkState::new();
    assert!(state.out.is_empty());
    assert!(state.passed.is_empty());
    assert_eq!(state.corner_count(), 0);
}

#[test]
fn test_corner_walk_crossing_out_to_in() {
    let mut state = CornerWalkState::new();
    let color_a = Color::new(0);

    state.process_vertex(color_a, 10);
    assert!(state.out.contains(color_a));
    assert!(state.passed.contains(color_a));
    assert_eq!(state.corner_count(), 0);

    state.process_vertex(color_a, 20);
    assert!(!state.out.contains(color_a));
    assert_eq!(state.corner_count(), 1);
    assert_eq!(state.corner_vertices[0], 20);
    assert!(state.passed.is_empty());
}

#[test]
fn test_crossing_counts_creation() {
    let counts = CrossingCounts::new();
    for i in 0..NCOLORS {
        for j in (i + 1)..NCOLORS {
            assert_eq!(counts.get(i, j), 0);
        }
    }
}

#[test]
fn test_crossing_counts_get() {
    let counts = CrossingCounts::new();
    assert_eq!(counts.get(0, 1), 0);
    assert_eq!(counts.get(0, 2), 0);

    if NCOLORS >= 3 {
        assert_eq!(counts.get(1, 2), 0);
    }
}

#[test]
fn test_crossing_counts_all_counts() {
    let counts = CrossingCounts::new();
    let all = counts.all_counts();

    let expected_pairs = NCOLORS * (NCOLORS - 1) / 2;
    assert_eq!(all.len(), expected_pairs);

    for (_, count) in all {
        assert_eq!(count, 0);
    }
}

#[test]
fn test_max_crossings_constant() {
    assert_eq!(MAX_CROSSINGS_PER_PAIR, 6);
}

#[test]
fn crossing_counts_set_changes_one_pair() {
    let mut counts = CrossingCounts::new();
    counts.set(1, 4, 3);
    assert_eq!(counts.get(1, 4), 3);
    assert_eq!(counts.get(1, 3), 0);
    assert!(!counts.exceeds_max(1, 4));
    counts.set(1, 4, 7);
    assert!(counts.exceeds_max(1, 4));
}
