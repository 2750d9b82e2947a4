use venn_search::geometry::constants::{NCOLORS, NCYCLES, NFACES};
use venn_search::geometry::edge::{CurveLink, EdgeRef};
use venn_search::propagation::corners::{check_corners_for_cycle, count_corners_on_curve};
use venn_search::propagation::curve_disconnection::{
    curve_length, edge_curve_checks, edge_follow_backwards, edge_follow_forwards, find_start_of_curve,
};
use venn_search::propagation::{validate_face_cycles, PropagationFailure};
use venn_search::state::statistics::{Counters, Statistics};
use venn_search::symmetry::canonical::{check_all_faces_assigned, check_solution_canonicality, colorset_permute, get_face_degrees_in_canonical_order};
use venn_search::symmetry::{SymmetryType, DIHEDRAL_GROUP_6};
use venn_search::SearchContext;

fn new_context() -> SearchContext {
    SearchContext::new()
}

#[test]
fn test_propagation_failure_display() {
    let fail1 = PropagationFailure::NoMatchingCycles { face_id: 5, depth: 2 };
    assert!(fail1.to_display_string().contains("Face 5"));
    assert!(fail1.to_display_string().contains("depth 2"));

    let fail2 = PropagationFailure::ConflictingConstraints { face_id: 10, assigned_cycle: 42, depth: 3 };
    assert!(fail2.to_display_string().contains("Face 10"));
    assert!(fail2.to_display_string().contains("cycle 42"));

    let fail3 = PropagationFailure::DepthExceeded { depth: 150 };
    assert!(fail3.to_display_string().contains("150"));
}

#[test]
fn test_direction_tables_populated() {
    let ctx = new_context();
    for cycle_id in 0..NCYCLES as u64 {
        let cycle = ctx.memo.cycles.get(cycle_id);
        for i in 0..cycle.len() {
            let same_dir = ctx.memo.cycles_memo.same_direction(&ctx.memo.cycles, cycle_id, i);
            let opp_dir = ctx.memo.cycles_memo.opposite_direction(&ctx.memo.cycles, cycle_id, i);
            assert!(!same_dir.is_empty(), "Cycle {} edge {} has empty same_direction table", cycle_id, i);
            assert!(!opp_dir.is_empty(), "Cycle {} edge {} has empty opposite_direction table", cycle_id, i);
        }
    }
}

fn link(face: usize, color: usize) -> Option<CurveLink> {
    Some(CurveLink::new(EdgeRef::new(face, color), 0))
}

#[test]
fn curve_walks_follow_the_connections() {
    let mut ctx = new_context();
    {
        let (_, owner) = ctx.parts_mut();
        // Color 0: face 1 -> face 3 -> face 1, a loop of two edges.
        owner.set_edge_connection(1, 0, link(3, 0));
        owner.set_edge_connection(3, 0, link(1, 0));
        // Color 1: face 2 -> face 6 -> face 14, then no connection.
        owner.set_edge_connection(2, 1, link(6, 1));
        owner.set_edge_connection(6, 1, link(14, 1));
    }
    let state = ctx.state();
    assert_eq!(edge_follow_forwards(1, 0, state), Some((3, 0)));
    assert_eq!(edge_follow_forwards(0, 0, state), None);
    assert_eq!(curve_length(1, 0, state), Some(2));
    assert_eq!(curve_length(2, 1, state), Some(3));
    assert_eq!(curve_length(0, 0, state), Some(1));
    // Backwards from face 3's color 0 edge: the reversed edge (face 2) is not connected.
    assert_eq!(edge_follow_backwards(3, 0, &ctx.memo, state), None);
    assert_eq!(find_start_of_curve(3, 0, &ctx.memo, state), Some((3, 0)));
}

#[test]
fn curve_checks_on_a_fresh_state_change_nothing() {
    let mut ctx = new_context();
    let before = format!("{:?}", ctx.state());
    let (memo, owner) = ctx.parts_mut();
    for face in [0, 1, 17, NFACES - 1] {
        for color in 0..NCOLORS {
            assert_eq!(edge_curve_checks(memo, owner, face, color, 0), Ok(()));
        }
    }
    assert_eq!(format!("{:?}", ctx.state()), before);
    assert_eq!(ctx.checkpoint(), 0);
}

#[test]
fn colorset_permute_moves_colors() {
    assert_eq!(colorset_permute(0b000011, &DIHEDRAL_GROUP_6[1]), 0b000110);
    assert_eq!(colorset_permute(0b100000, &DIHEDRAL_GROUP_6[1]), 0b000001);
    assert_eq!(colorset_permute(0b000001, &DIHEDRAL_GROUP_6[6]), 0b100000);
    assert_eq!(colorset_permute(NFACES - 1, &DIHEDRAL_GROUP_6[7]), NFACES - 1);
    assert_eq!(colorset_permute(0, &DIHEDRAL_GROUP_6[3]), 0);
}

#[test]
fn uniform_solution_is_equivocal() {
    let mut ctx = new_context();
    assert!(!check_all_faces_assigned(ctx.state()));
    for face in 0..NFACES {
        ctx.set_retry_cursor_untrailed(face, Some(0));
    }
    assert!(check_all_faces_assigned(ctx.state()));
    let mut order = [0usize; 64];
    for (i, o) in order.iter_mut().enumerate() {
        *o = i;
    }
    let result = check_solution_canonicality(ctx.state(), &ctx.memo, &order, &order);
    assert_eq!(result, SymmetryType::Equivocal);
    assert_eq!(get_face_degrees_in_canonical_order(ctx.state(), &ctx.memo, &order), [3u8; 64]);
}

#[test]
fn solution_with_one_larger_face_under_a_rotation_is_not_canonical() {
    let mut ctx = new_context();
    // Every face gets a cycle of length 3 but face 2 ({color 1}), which gets a longer one.
    let short = (0..NCYCLES as u64).find(|&c| ctx.memo.cycles.get(c).len() == 3).unwrap();
    let long = (0..NCYCLES as u64).find(|&c| ctx.memo.cycles.get(c).len() == 6).unwrap();
    for face in 0..NFACES {
        ctx.set_retry_cursor_untrailed(face, Some(if face == 2 { long } else { short }));
    }
    let mut order = [0usize; 64];
    for (i, o) in order.iter_mut().enumerate() {
        *o = i;
    }
    // The rotation taking color 1 to color 0 moves the long face to position 1, ahead of
    // position 2: a larger image.
    assert_eq!(check_solution_canonicality(ctx.state(), &ctx.memo, &order, &order), SymmetryType::NonCanonical);
    // With the long face first, it is the unique largest image.
    for face in 0..NFACES {
        ctx.set_retry_cursor_untrailed(face, Some(if face == 1 { long } else { short }));
    }
    let result = check_solution_canonicality(ctx.state(), &ctx.memo, &order, &order);
    assert_ne!(result, SymmetryType::NonCanonical);
}

#[test]
fn statistics_count_each_counter_apart() {
    let mut stats = Statistics::new();
    assert_eq!(stats.get(Counters::VennSolutions), 0);
    stats.increment_counter(Counters::VennSolutions);
    stats.increment_counter(Counters::VennSolutions);
    stats.increment_counter(Counters::InnerFaceSolutions);
    assert_eq!(stats.get(Counters::VennSolutions), 2);
    assert_eq!(stats.get(Counters::EquivocalSolutions), 0);
    assert_eq!(stats.get(Counters::InnerFaceSolutions), 1);
    assert_eq!(Statistics::default().get(Counters::VennSolutions), 0);
}

#[test]
fn corner_walks_on_a_fresh_state_find_no_closed_curve() {
    let mut ctx = new_context();
    let before = format!("{:?}", ctx.state());
    let (memo, owner) = ctx.parts_mut();
    for color in 0..NCOLORS {
        let start = CurveLink::new(EdgeRef::new(NFACES - 1, color), 0);
        assert_eq!(count_corners_on_curve(memo, owner, NFACES - 1, color, start, 0), Ok(None));
    }
    assert_eq!(check_corners_for_cycle(memo, owner, NFACES - 1, 0, 0), Ok(()));
    assert_eq!(format!("{:?}", ctx.state()), before);
    assert_eq!(ctx.checkpoint(), 0);
}

fn link_rings(ctx: &mut SearchContext) {
    let (_, owner) = ctx.parts_mut();
    for k in 1..NCOLORS as u32 {
        let ring: Vec<usize> = (0..NFACES).filter(|f| (*f as u64).count_ones() == k).collect();
        for (pos, &f) in ring.iter().enumerate() {
            owner.set_next_face(f, Some(ring[(pos + 1) % ring.len()]));
        }
    }
}

#[test]
fn faces_linked_in_rings_by_color_count_validate() {
    let mut ctx = new_context();
    link_rings(&mut ctx);
    assert_eq!(validate_face_cycles(&ctx.memo, ctx.state()), Ok(()));
}

#[test]
fn a_ring_with_a_missing_link_does_not_validate() {
    let mut ctx = new_context();
    link_rings(&mut ctx);
    {
        let (_, owner) = ctx.parts_mut();
        owner.set_next_face(3, None);
    }
    assert_eq!(
        validate_face_cycles(&ctx.memo, ctx.state()),
        Err(PropagationFailure::NoMatchingCycles { face_id: 3, depth: 0 })
    );
}

#[test]
fn a_ring_that_closes_early_names_its_start() {
    let mut ctx = new_context();
    link_rings(&mut ctx);
    {
        let (_, owner) = ctx.parts_mut();
        owner.set_next_face(2, Some(1));
    }
    assert_eq!(
        validate_face_cycles(&ctx.memo, ctx.state()),
        Err(PropagationFailure::NoMatchingCycles { face_id: 1, depth: 0 })
    );
}
