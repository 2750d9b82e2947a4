use venn_search::geometry::{Color, Cycle, CycleSet, CYCLESET_LENGTH, NCOLORS, NCYCLES};

#[test]
fn test_cycle_new() {
    let colors = vec![Color::new(0), Color::new(1), Color::new(2)];
    let cycle = Cycle::new(&colors);

    assert_eq!(cycle.len(), 3);
    assert_eq!(cycle.colors(), &[Color::new(0), Color::new(1), Color::new(2)]);
}

#[test]
fn test_cycle_canonicalization() {
    let colors1 = vec![Color::new(1), Color::new(2), Color::new(0)];
    let cycle1 = Cycle::new(&colors1);

    let colors2 = vec![Color::new(0), Color::new(1), Color::new(2)];
    let cycle2 = Cycle::new(&colors2);

    assert_eq!(cycle1, cycle2);
    assert_eq!(cycle1.to_display_string(), "(abc)");
}

#[test]
fn test_contains_sequence() {
    let colors = vec![Color::new(0), Color::new(2), Color::new(4)];
    let cycle = Cycle::new(&colors);

    assert!(cycle.contains_sequence(Color::new(0), Color::new(2)));
    assert!(cycle.contains_sequence(Color::new(2), Color::new(4)));
    assert!(cycle.contains_sequence(Color::new(4), Color::new(0)));

    assert!(!cycle.contains_sequence(Color::new(0), Color::new(4)));
    assert!(!cycle.contains_sequence(Color::new(2), Color::new(0)));
}

#[test]
fn test_contains_triple() {
    let colors = vec![Color::new(0), Color::new(1), Color::new(2), Color::new(3)];
    let cycle = Cycle::new(&colors);

    assert!(cycle.contains_triple(Color::new(0), Color::new(1), Color::new(2)));
    assert!(cycle.contains_triple(Color::new(1), Color::new(2), Color::new(3)));
    assert!(cycle.contains_triple(Color::new(3), Color::new(0), Color::new(1)));

    assert!(!cycle.contains_triple(Color::new(0), Color::new(2), Color::new(3)));
}

#[test]
fn test_index_of() {
    let colors = vec![Color::new(0), Color::new(2), Color::new(4)];
    let cycle = Cycle::new(&colors);

    assert_eq!(cycle.index_of(Color::new(0)), Some(0));
    assert_eq!(cycle.index_of(Color::new(2)), Some(1));
    assert_eq!(cycle.index_of(Color::new(4)), Some(2));
    assert_eq!(cycle.index_of(Color::new(1)), None);
}

#[test]
fn test_reverse() {
    let colors = vec![Color::new(0), Color::new(1), Color::new(2)];
    let cycle = Cycle::new(&colors);
    let reversed = cycle.reverse();

    assert_eq!(reversed.to_display_string(), "(acb)");

    let double_reversed = reversed.reverse();
    assert_eq!(cycle, double_reversed);
}

#[test]
fn test_colorset() {
    let colors = vec![Color::new(0), Color::new(2), Color::new(4)];
    let cycle = Cycle::new(&colors);
    let colorset = cycle.colorset();

    assert!(colorset.contains(Color::new(0)));
    assert!(!colorset.contains(Color::new(1)));
    assert!(colorset.contains(Color::new(2)));
    assert!(!colorset.contains(Color::new(3)));
    assert!(colorset.contains(Color::new(4)));
}

#[test]
fn cycle_test_display() {
    let colors = vec![Color::new(0), Color::new(1), Color::new(2)];
    let cycle = Cycle::new(&colors);
    assert_eq!(cycle.to_display_string(), "(abc)");
}

#[test]
fn test_display_with_gaps() {
    let colors = vec![Color::new(1), Color::new(3), Color::new(5)];
    let cycle = Cycle::new(&colors);
    assert_eq!(cycle.to_display_string(), "(bdf)");
}

#[test]
fn test_cycle_different_lengths() {
    for len in 3..=NCOLORS {
        let colors: Vec<_> = (0..len as u8).map(Color::new).collect();
        let cycle = Cycle::new(&colors);
        assert_eq!(cycle.len(), len);
    }
}

#[test]
fn cycle_canonical_rotation_starts_at_first_smallest() {
    let colors = vec![Color::new(3), Color::new(5), Color::new(1), Color::new(4)];
    let cycle = Cycle::new(&colors);
    assert_eq!(cycle.to_display_string(), "(bedf)");
    assert!(!cycle.is_empty());
}

#[test]
fn cycle_set_test_empty() {
    let set = CycleSet::empty();
    assert!(set.is_empty());
    assert_eq!(set.len(), 0);
}

#[test]
fn cycle_set_test_full() {
    let set = CycleSet::full();
    assert!(!set.is_empty());
    assert_eq!(set.len(), NCYCLES);

    for i in 0..NCYCLES as u64 {
        assert!(set.contains(i), "Missing cycle ID {}", i);
    }
}

#[test]
fn cycle_set_test_insert_contains() {
    let mut set = CycleSet::empty();
    assert!(!set.contains(0));
    assert!(!set.contains(1));

    set.insert(0);
    assert!(set.contains(0));
    assert!(!set.contains(1));
    assert_eq!(set.len(), 1);

    set.insert(1);
    assert!(set.contains(0));
    assert!(set.contains(1));
    assert_eq!(set.len(), 2);

    set.insert(1);
    assert_eq!(set.len(), 2);
}

#[test]
fn cycle_set_test_remove() {
    let mut set = CycleSet::full();
    let initial_len = set.len();

    set.remove(0);
    assert!(!set.contains(0));
    assert_eq!(set.len(), initial_len - 1);

    set.remove(0);
    assert_eq!(set.len(), initial_len - 1);
}

#[test]
fn cycle_set_test_iter() {
    let mut set = CycleSet::empty();
    set.insert(0);
    set.insert(1);
    if NCYCLES > 2 {
        set.insert(2);
    }

    let ids: Vec<_> = set.iter().into_iter().collect();
    assert_eq!(ids[0], 0);
    assert_eq!(ids[1], 1);
    if NCYCLES > 2 {
        assert_eq!(ids[2], 2);
        assert_eq!(ids.len(), 3);
    } else {
        assert_eq!(ids.len(), 2);
    }
}

#[test]
fn test_iter_empty() {
    let set = CycleSet::empty();
    let ids: Vec<_> = set.iter().into_iter().collect();
    assert_eq!(ids.len(), 0);
}

#[test]
fn test_iter_full() {
    let set = CycleSet::full();
    let ids: Vec<_> = set.iter().into_iter().collect();
    assert_eq!(ids.len(), NCYCLES);

    for (i, &id) in ids.iter().enumerate() {
        assert_eq!(id, i as u64);
    }
}

#[test]
fn test_union() {
    let mut set1 = CycleSet::empty();
    set1.insert(0);
    if NCYCLES > 1 {
        set1.insert(1);
    }

    let mut set2 = CycleSet::empty();
    set2.insert(0);

    let union = set1.union(&set2);
    assert!(union.contains(0));
    if NCYCLES > 1 {
        assert!(union.contains(1));
        assert_eq!(union.len(), 2);
    } else {
        assert_eq!(union.len(), 1);
    }
}

#[test]
fn test_intersection() {
    let mut set1 = CycleSet::empty();
    set1.insert(0);
    if NCYCLES > 1 {
        set1.insert(1);
    }

    let mut set2 = CycleSet::empty();
    set2.insert(0);

    let intersection = set1.intersection(&set2);
    assert!(intersection.contains(0));
    if NCYCLES > 1 {
        assert!(!intersection.contains(1));
    }
    assert_eq!(intersection.len(), 1);
}

#[test]
fn test_difference() {
    let mut set1 = CycleSet::empty();
    set1.insert(0);
    if NCYCLES > 1 {
        set1.insert(1);
    }

    let mut set2 = CycleSet::empty();
    set2.insert(0);

    let diff = set1.difference(&set2);
    assert!(!diff.contains(0));
    if NCYCLES > 1 {
        assert!(diff.contains(1));
        assert_eq!(diff.len(), 1);
    } else {
        assert_eq!(diff.len(), 0);
    }
}

#[test]
fn cycle_set_test_display() {
    let mut set = CycleSet::empty();
    assert_eq!(set.to_display_string(), "{}");

    set.insert(0);
    if NCYCLES > 1 {
        set.insert(1);
        assert_eq!(set.to_display_string(), "{0, 1}");
    } else {
        assert_eq!(set.to_display_string(), "{0}");
    }
}

#[test]
fn cycle_set_test_from_slice() {
    let ids = if NCYCLES >= 2 { vec![0u64, 1] } else { vec![0u64] };
    let set: CycleSet = CycleSet::from_ids(&ids[..]);

    assert!(set.contains(0));
    assert_eq!(set.len(), ids.len());
}

#[test]
fn cycle_set_test_equality() {
    let mut set1 = CycleSet::empty();
    set1.insert(0);

    let mut set2 = CycleSet::empty();
    set2.insert(0);

    assert_eq!(set1, set2);
    assert!(set1.same_words(&set2));

    if NCYCLES > 1 {
        set2.insert(1);
        assert_ne!(set1, set2);
        assert!(!set1.same_words(&set2));
    }
}

#[test]
fn test_cycleset_length_correct() {
    assert!(CYCLESET_LENGTH * 64 >= NCYCLES);
    assert!(CYCLESET_LENGTH * 64 - NCYCLES < 64);

    match NCOLORS {
        3 => assert_eq!(CYCLESET_LENGTH, 1),
        4 => assert_eq!(CYCLESET_LENGTH, 1),
        5 => assert_eq!(CYCLESET_LENGTH, 2),
        6 => assert_eq!(CYCLESET_LENGTH, 7),
        _ => unreachable!(),
    }
}

#[test]
fn test_multi_word_operations() {
    if NCYCLES > 64 {
        let mut set = CycleSet::empty();

        set.insert(0);
        set.insert(63);
        set.insert(64);

        let mut expected = vec![0, 63, 64];
        if (NCYCLES as u64) > 70 {
            set.insert(70);
            expected.push(70);
        }

        assert!(set.contains(0));
        assert!(set.contains(63));
        assert!(set.contains(64));
        assert_eq!(set.len(), expected.len());

        let ids: Vec<_> = set.iter().into_iter().collect();
        assert_eq!(ids, expected);
    }
}

#[test]
fn cycle_set_words_hold_the_bits() {
    let mut set = CycleSet::empty();
    set.insert(65);
    assert_eq!(set.words()[1], 2);
    let copy = CycleSet::from_words(*set.words());
    assert!(copy.contains(65));
    assert_eq!(copy.len(), 1);
}

#[test]
fn cycle_set_display_joins_ids_in_increasing_order() {
    let mut set = CycleSet::empty();
    set.insert(393);
    set.insert(12);
    set.insert(5);
    assert_eq!(set.to_display_string(), "{5, 12, 393}");
}
