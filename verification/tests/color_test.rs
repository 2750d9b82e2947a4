use venn_search::geometry::{Color, ColorSet, NCOLORS};

#[test]
fn test_color_new() {
    let c = Color::new(0);
    assert_eq!(c.value(), 0);

    let c = Color::new(5);
    assert_eq!(c.value(), 5);
}

#[test]
fn test_color_try_new() {
    assert!(Color::try_new(0).is_some());
    assert!(Color::try_new(5).is_some());
    assert!(Color::try_new(6).is_none());
}

#[test]
fn test_color_as_usize() {
    let c = Color::new(3);
    assert_eq!(c.as_usize(), 3);
}

#[test]
fn test_to_char() {
    assert_eq!(Color::new(0).to_char(), 'a');
    assert_eq!(Color::new(1).to_char(), 'b');
    assert_eq!(Color::new(2).to_char(), 'c');

    match NCOLORS {
        3 => {
            assert_eq!(Color::new(2).to_char(), 'c');
        }
        4 => {
            assert_eq!(Color::new(3).to_char(), 'd');
        }
        5 => {
            assert_eq!(Color::new(4).to_char(), 'e');
        }
        6 => {
            assert_eq!(Color::new(5).to_char(), 'f');
        }
        _ => unreachable!(),
    }
}

#[test]
fn test_from_char() {
    assert_eq!(Color::from_char('a'), Some(Color::new(0)));
    assert_eq!(Color::from_char('b'), Some(Color::new(1)));
    assert_eq!(Color::from_char('c'), Some(Color::new(2)));

    assert_eq!(Color::from_char('z'), None);
    assert_eq!(Color::from_char('A'), None);
    assert_eq!(Color::from_char('0'), None);

    match NCOLORS {
        3 => {
            assert!(Color::from_char('c').is_some());
            assert!(Color::from_char('d').is_none());
        }
        4 => {
            assert!(Color::from_char('d').is_some());
            assert!(Color::from_char('e').is_none());
        }
        5 => {
            assert!(Color::from_char('e').is_some());
            assert!(Color::from_char('f').is_none());
        }
        6 => {
            assert!(Color::from_char('f').is_some());
            assert!(Color::from_char('g').is_none());
        }
        _ => unreachable!(),
    }
}

#[test]
fn test_from_char_to_char_round_trip() {
    for i in 0..NCOLORS as u8 {
        let color = Color::new(i);
        let ch = color.to_char();
        assert_eq!(Color::from_char(ch), Some(color));
    }
}

#[test]
fn test_all_iterator() {
    let colors: Vec<_> = Color::all().into_iter().collect();
    assert_eq!(colors.len(), NCOLORS);

    for (i, color) in colors.iter().enumerate() {
        assert_eq!(color.value(), i as u8);
    }
}

#[test]
fn color_test_display() {
    assert_eq!(Color::new(0).to_display_string(), "a");
    assert_eq!(Color::new(1).to_display_string(), "b");
    assert_eq!(Color::new(2).to_display_string(), "c");
}

#[test]
fn test_ordering() {
    assert!(Color::new(0) < Color::new(1));
    assert!(Color::new(1) < Color::new(2));
    assert!(Color::new(2) > Color::new(0));
}

#[test]
fn color_set_test_empty() {
    let set = ColorSet::empty();
    assert!(set.is_empty());
    assert_eq!(set.len(), 0);
    assert_eq!(set.bits(), 0);
}

#[test]
fn color_set_test_full() {
    let set = ColorSet::full();
    assert!(!set.is_empty());
    assert_eq!(set.len(), NCOLORS);

    for i in 0..NCOLORS as u8 {
        assert!(set.contains(Color::new(i)));
    }
}

#[test]
fn color_set_test_insert_contains() {
    let mut set = ColorSet::empty();
    assert!(!set.contains(Color::new(0)));

    set.insert(Color::new(0));
    assert!(set.contains(Color::new(0)));
    assert_eq!(set.len(), 1);

    set.insert(Color::new(2));
    assert!(set.contains(Color::new(0)));
    assert!(set.contains(Color::new(2)));
    assert!(!set.contains(Color::new(1)));
    assert_eq!(set.len(), 2);
}

#[test]
fn color_set_test_remove() {
    let mut set = ColorSet::full();
    assert_eq!(set.len(), NCOLORS);

    set.remove(Color::new(0));
    assert!(!set.contains(Color::new(0)));
    assert_eq!(set.len(), NCOLORS - 1);

    set.remove(Color::new(0));
    assert_eq!(set.len(), NCOLORS - 1);
}

#[test]
fn test_from_colors() {
    let colors = vec![Color::new(0), Color::new(1), Color::new(2)];
    let set = ColorSet::from_colors(&colors);

    assert!(set.contains(Color::new(0)));
    assert!(set.contains(Color::new(1)));
    assert!(set.contains(Color::new(2)));
    assert_eq!(set.len(), 3);
}

#[test]
fn color_set_test_iter() {
    let mut set = ColorSet::empty();
    set.insert(Color::new(0));
    set.insert(Color::new(1));
    set.insert(Color::new(2));

    let colors: Vec<_> = set.iter().into_iter().collect();
    assert_eq!(colors.len(), 3);
    assert_eq!(colors[0], Color::new(0));
    assert_eq!(colors[1], Color::new(1));
    assert_eq!(colors[2], Color::new(2));
}

#[test]
fn color_set_test_display() {
    let mut set = ColorSet::empty();
    assert_eq!(set.to_display_string(), "||");

    set.insert(Color::new(0));
    set.insert(Color::new(1));
    set.insert(Color::new(2));
    assert_eq!(set.to_display_string(), "|abc|");
}

#[test]
fn test_display_full_set() {
    let set = ColorSet::full();
    let display = set.to_display_string();

    match NCOLORS {
        3 => assert_eq!(display, "|abc|"),
        4 => assert_eq!(display, "|abcd|"),
        5 => assert_eq!(display, "|abcde|"),
        6 => assert_eq!(display, "|abcdef|"),
        _ => unreachable!(),
    }
}

#[test]
fn color_set_test_equality() {
    let set1 = ColorSet::from_colors(&[Color::new(0), Color::new(2)]);
    let set2 = ColorSet::from_colors(&[Color::new(2), Color::new(0)]);
    assert_eq!(set1, set2);

    let set3 = ColorSet::from_colors(&[Color::new(0), Color::new(1)]);
    assert_ne!(set1, set3);
}

#[test]
fn color_set_test_from_slice() {
    let colors = [Color::new(0), Color::new(1), Color::new(2)];
    let set: ColorSet = (&colors[..]).into();

    assert!(set.contains(Color::new(0)));
    assert!(set.contains(Color::new(1)));
    assert!(set.contains(Color::new(2)));
    assert_eq!(set.len(), 3);
}

#[test]
fn color_set_display_lists_members_in_order_with_gaps() {
    let mut set = ColorSet::empty();
    set.insert(Color::new(4));
    set.insert(Color::new(0));
    set.insert(Color::new(2));
    assert_eq!(set.to_display_string(), "|ace|");
}
