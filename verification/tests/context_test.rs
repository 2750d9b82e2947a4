use venn_search::context::MemoizedData;
use venn_search::geometry::constants::{NCOLORS, NCYCLES, NFACES, NPOINTS};
use venn_search::geometry::cycle_set::CycleSet;
use venn_search::geometry::edge::{CurveLink, EdgeRef};
use venn_search::propagation::vertices::check_face_vertices;
use venn_search::propagation::{propagate_cycle_choice, restrict_face_cycles, PropagationFailure};
use venn_search::SearchContext;

fn new_context() -> SearchContext {
    SearchContext::new()
}

#[test]
fn test_search_context_new() {
    let ctx = new_context();
    assert_eq!(ctx.trail().len(), 0);
    assert!(!ctx.state().faces.faces.is_empty());
}

#[test]
fn test_independent_contexts() {
    let ctx1 = new_context();
    let ctx2 = new_context();
    assert_eq!(ctx1.trail().len(), 0);
    assert_eq!(ctx2.trail().len(), 0);
    assert!(!ctx1.state().faces.faces.is_empty());
    assert!(!ctx2.state().faces.faces.is_empty());
}

#[test]
fn test_with_memo() {
    let memo = MemoizedData::new();
    let ctx1 = SearchContext::with_memo(memo.clone());
    let ctx2 = SearchContext::with_memo(memo.clone());
    assert_eq!(ctx1.trail().len(), 0);
    assert_eq!(ctx2.trail().len(), 0);
}

#[test]
fn test_memo_size_logging() {
    let ctx = new_context();
    let stack_size = SearchContext::memo_size_bytes();
    let heap_size = ctx.estimate_memo_heap_size();
    let total = stack_size + heap_size;
    println!("MemoizedData stack size: {} bytes", stack_size);
    println!("MemoizedData heap size: {} bytes", heap_size);
    println!("MemoizedData total size: {} bytes ({:.2} KB)", total, total as f64 / 1024.0);
    assert!(total < 1024 * 1024, "MEMO data should be under 1MB");
}

#[test]
fn test_search_context_simple_backtracking() {
    let mut ctx = new_context();
    assert_eq!(ctx.get_face_degree(0), 0);
    let checkpoint = ctx.checkpoint();
    ctx.set_face_degree(0, 100);
    assert_eq!(ctx.get_face_degree(0), 100);
    assert_eq!(ctx.trail().len(), 1);
    ctx.rewind_to(checkpoint);
    assert_eq!(ctx.get_face_degree(0), 0);
    assert_eq!(ctx.trail().len(), 0);
}

#[test]
fn test_search_context_backtracking() {
    let mut ctx = new_context();
    let cp1 = ctx.checkpoint();
    assert_eq!(cp1, 0);
    ctx.set_face_degree(0, 999);
    ctx.set_face_degree(1, 888);
    ctx.set_face_degree(2, 777);
    assert_eq!(ctx.get_face_degree(0), 999);
    assert_eq!(ctx.get_face_degree(1), 888);
    assert_eq!(ctx.get_face_degree(2), 777);
    assert_eq!(ctx.trail().len(), 3);
    let cp2 = ctx.checkpoint();
    assert_eq!(cp2, 3);
    ctx.set_face_degree(0, 111);
    assert_eq!(ctx.trail().len(), 4);
    ctx.rewind_to(cp2);
    assert_eq!(ctx.get_face_degree(0), 999);
    assert_eq!(ctx.trail().len(), 3);
    ctx.rewind_to(cp1);
    assert_eq!(ctx.get_face_degree(0), 0);
    assert_eq!(ctx.get_face_degree(1), 0);
    assert_eq!(ctx.trail().len(), 0);
}

#[test]
fn test_independent_search_contexts() {
    let mut ctx1 = new_context();
    let mut ctx2 = new_context();
    let cp1 = ctx1.checkpoint();
    ctx1.set_face_degree(0, 100);
    assert_eq!(ctx1.get_face_degree(0), 100);
    assert_eq!(ctx1.trail().len(), 1);
    assert_eq!(ctx2.get_face_degree(0), 0);
    assert_eq!(ctx2.trail().len(), 0);
    let _cp2 = ctx2.checkpoint();
    ctx2.set_face_degree(0, 200);
    assert_eq!(ctx1.get_face_degree(0), 100);
    assert_eq!(ctx2.get_face_degree(0), 200);
    assert_eq!(ctx1.trail().len(), 1);
    assert_eq!(ctx2.trail().len(), 1);
    ctx1.rewind_to(cp1);
    assert_eq!(ctx1.get_face_degree(0), 0);
    assert_eq!(ctx1.trail().len(), 0);
    assert_eq!(ctx2.get_face_degree(0), 200);
    assert_eq!(ctx2.trail().len(), 1);
}

#[test]
fn test_trail_freeze() {
    let mut ctx = new_context();
    let cp1 = ctx.checkpoint();
    ctx.set_face_degree(0, 20);
    ctx.freeze();
    let cp2 = ctx.checkpoint();
    ctx.set_face_degree(0, 30);
    ctx.rewind_to(cp2);
    assert_eq!(ctx.get_face_degree(0), 20);
    assert_eq!(ctx.trail().len(), 1);
    ctx.rewind_to(cp1);
    assert_eq!(ctx.get_face_degree(0), 20);
    assert_eq!(ctx.trail().len(), 1);
}

#[test]
fn test_array_operations() {
    let mut ctx = new_context();
    let checkpoint = ctx.checkpoint();
    ctx.set_face_degree(0, 10);
    let middle_idx = NCOLORS / 2;
    if NCOLORS >= 4 {
        ctx.set_face_degree(middle_idx, 50);
    }
    ctx.set_face_degree(NCOLORS - 1, 90);
    assert_eq!(ctx.get_face_degree(0), 10);
    if NCOLORS >= 4 {
        assert_eq!(ctx.get_face_degree(middle_idx), 50);
    }
    assert_eq!(ctx.get_face_degree(NCOLORS - 1), 90);
    let expected_trail_len = if NCOLORS >= 4 { 3 } else { 2 };
    assert_eq!(ctx.trail().len(), expected_trail_len);
    ctx.rewind_to(checkpoint);
    assert_eq!(ctx.get_face_degree(0), 0);
    if NCOLORS >= 4 {
        assert_eq!(ctx.get_face_degree(middle_idx), 0);
    }
    assert_eq!(ctx.get_face_degree(NCOLORS - 1), 0);
}

#[test]
fn test_deep_nesting() {
    let mut ctx = new_context();
    let mut checkpoints = Vec::new();
    for i in 0..NCOLORS {
        let cp = ctx.checkpoint();
        checkpoints.push(cp);
        ctx.set_face_degree(i, (i + 1) as u64 * 10);
    }
    assert_eq!(ctx.get_face_degree(NCOLORS - 1), NCOLORS as u64 * 10);
    assert_eq!(ctx.trail().len(), NCOLORS);
    for i in (0..NCOLORS).rev() {
        ctx.rewind_to(checkpoints[i]);
        if i > 0 {
            assert_eq!(ctx.get_face_degree(i - 1), i as u64 * 10);
        } else {
            assert_eq!(ctx.get_face_degree(0), 0);
        }
    }
    assert_eq!(ctx.trail().len(), 0);
}

#[test]
fn test_memo_size_is_small() {
    let size = SearchContext::memo_size_bytes();
    println!("MemoizedData size: {} bytes", size);
    let ctx = new_context();
    let heap_size = ctx.estimate_memo_heap_size();
    let total = size + heap_size;
    println!("MemoizedData total size: {} bytes ({:.2} KB)", total, total as f64 / 1024.0);
    assert!(total < 1024 * 1024, "MEMO data should be under 1MB");
}

#[test]
fn moved_owner_restores_all_ten_target_kinds() {
    let mut ctx = new_context();
    let initial = format!("{:?}", ctx.state());
    let checkpoint = ctx.checkpoint();
    ctx.set_face_degree(NCOLORS - 1, 42);
    ctx.set_face_cycle(NFACES - 1, (NCYCLES - 1) as u64);
    ctx.set_face_possible_cycles(NFACES - 1, CycleSet::empty());
    let (_, owner) = ctx.parts_mut();
    let link = CurveLink::new(EdgeRef::new(NFACES - 1, NCOLORS - 1), NPOINTS - 1);
    owner.set_edge_connection(NFACES - 1, NCOLORS - 1, Some(link));
    owner.set_next_face(NFACES - 1, Some(0));
    owner.set_previous_face(NFACES - 1, Some(NFACES - 1));
    owner.set_crossing_count(0, NCOLORS - 1, 6);
    owner.mark_vertex_processed(NPOINTS - 1);
    owner.increment_edge_color_count(1, NCOLORS - 1);
    owner.mark_color_checked(NCOLORS - 1);

    assert_eq!(owner.state().faces.faces[NFACES - 1].edge_dynamic[NCOLORS - 1].get_to(), Some(link));
    assert_eq!(owner.state().faces.faces[NFACES - 1].next_face(), Some(0));
    assert_eq!(owner.state().faces.faces[NFACES - 1].previous_face(), Some(NFACES - 1));
    assert_eq!(owner.state().crossing_counts.get(0, NCOLORS - 1), 6);
    assert_eq!(owner.state().vertex_processed[NPOINTS - 1], 1);
    assert_eq!(owner.state().edge_color_count(1, NCOLORS - 1), 1);
    assert_eq!(owner.state().colors_checked[NCOLORS - 1], 1);
    let mut moved = Box::new(ctx);
    moved.rewind_to(checkpoint);
    assert_eq!(format!("{:?}", moved.state()), initial);
    assert!(moved.trail().is_empty());
}

#[test]
fn cycle_words_count_and_retry_cursor_have_distinct_lifetimes() {
    let mut ctx = new_context();
    let entry = ctx.checkpoint();
    ctx.reset_face_cycle(0);
    let choice = ctx.checkpoint();
    let initial = *ctx.get_face_possible_cycles(0);
    let mut selected = CycleSet::empty();
    selected.insert(0);
    selected.insert((NCYCLES - 1) as u64);
    if NCYCLES > 64 {
        selected.insert(63);
        selected.insert(64);
    }
    ctx.set_retry_cursor_untrailed(0, Some(0));
    ctx.set_face_possible_cycles(0, selected);
    assert_eq!(*ctx.get_face_possible_cycles(0), selected);
    assert_eq!(ctx.get_face_cycle_count(0), selected.len() as u64);
    let unchanged = ctx.checkpoint();
    ctx.set_face_possible_cycles(0, selected);
    assert_eq!(ctx.checkpoint(), unchanged);
    ctx.set_face_cycle(0, (NCYCLES - 1) as u64);
    ctx.rewind_to(choice);
    assert_eq!(ctx.state().faces.faces[0].current_cycle(), Some(0));
    assert_eq!(*ctx.get_face_possible_cycles(0), initial);
    assert_eq!(ctx.get_face_cycle_count(0), initial.len() as u64);
    ctx.rewind_to(entry);
    assert_eq!(ctx.state().faces.faces[0].current_cycle(), None);
}

#[test]
fn failed_propagation_restores_partial_writes() {
    let mut ctx = new_context();
    let (_, owner) = ctx.parts_mut();
    for i in 0..NCOLORS {
        for j in i + 1..NCOLORS {
            owner.set_crossing_count(i, j, 6);
        }
    }
    let before = format!("{:?}", ctx.state());
    let checkpoint = ctx.checkpoint();
    let (memo, owner) = ctx.parts_mut();
    let result = propagate_cycle_choice(memo, owner, NFACES - 1, (NCYCLES - 1) as u64, 0);
    assert!(matches!(result, Err(PropagationFailure::CrossingLimitExceeded { count: 7, .. })));
    assert!(ctx.checkpoint() > checkpoint);
    ctx.rewind_to(checkpoint);
    assert_eq!(format!("{:?}", ctx.state()), before);
}

#[test]
fn reset_discards_state_log_and_freeze_together() {
    let mut ctx = new_context();
    let initial = format!("{:?}", ctx.state());
    ctx.set_face_degree(0, 42);
    ctx.freeze();
    ctx.parts_mut().1.add_completed_color(0);
    ctx.reset_state();
    assert_eq!(format!("{:?}", ctx.state()), initial);
    assert_eq!(ctx.checkpoint(), 0);
    ctx.set_face_degree(0, 7);
    ctx.rewind_to(0);
    assert_eq!(ctx.get_face_degree(0), 0);
}

#[test]
fn temporary_accumulator_is_untrailed_and_cleared_explicitly() {
    let mut ctx = new_context();
    let (_, owner) = ctx.parts_mut();
    owner.add_completed_color(0);
    owner.set_face_degree(0, 42);
    owner.rewind_to(0);
    assert_eq!(owner.state().colors_completed_this_call, 1);
    owner.clear_completed_colors();
    assert_eq!(owner.state().colors_completed_this_call, 0);
    assert!(owner.trail().is_empty());
}

#[test]
fn rewinding_restores_every_kind_of_slot_exactly() {
    // Several writes to the same slot, with checkpoints between them: each rewind gives
    // back the value at its checkpoint.
    let mut ctx = new_context();
    let cp0 = ctx.checkpoint();
    ctx.set_face_degree(3, 5);
    let cp1 = ctx.checkpoint();
    ctx.set_face_degree(3, 6);
    ctx.set_face_cycle(10, 7);
    let cp2 = ctx.checkpoint();
    ctx.set_face_degree(3, 4);
    ctx.reset_face_cycle(10);
    ctx.rewind_to(cp2);
    assert_eq!(ctx.get_face_degree(3), 6);
    assert_eq!(ctx.state().faces.faces[10].current_cycle(), Some(7));
    ctx.rewind_to(cp1);
    assert_eq!(ctx.get_face_degree(3), 5);
    assert_eq!(ctx.state().faces.faces[10].current_cycle(), None);
    ctx.rewind_to(cp0);
    assert_eq!(ctx.get_face_degree(3), 0);
}

#[test]
fn crossing_limit_names_the_first_pair_of_the_inner_cycle() {
    let mut ctx = new_context();
    let (_, owner) = ctx.parts_mut();
    for i in 0..NCOLORS {
        for j in i + 1..NCOLORS {
            owner.set_crossing_count(i, j, 6);
        }
    }
    let expected = Err(PropagationFailure::CrossingLimitExceeded { color_i: 0, color_j: 1, count: 7, max_allowed: 6, depth: 0 });
    let checkpoint = ctx.checkpoint();
    let (memo, owner) = ctx.parts_mut();
    assert_eq!(check_face_vertices(memo, owner, NFACES - 1, (NCYCLES - 1) as u64, 0), expected);
    assert_eq!(ctx.state().crossing_counts.get(0, 1), 7);
    ctx.rewind_to(checkpoint);
    let (memo, owner) = ctx.parts_mut();
    assert_eq!(propagate_cycle_choice(memo, owner, NFACES - 1, (NCYCLES - 1) as u64, 0), expected);
}

#[test]
fn restricting_an_open_face_to_every_cycle_changes_nothing() {
    let mut ctx = new_context();
    let mut all = CycleSet::empty();
    for id in 0..NCYCLES as u64 {
        all.insert(id);
    }
    let before = ctx.state().faces.faces[1].possible_cycles.len();
    assert!(before >= 2);
    let (memo, owner) = ctx.parts_mut();
    assert_eq!(restrict_face_cycles(memo, owner, 1, &all, 0), Ok(()));
    assert_eq!(ctx.state().faces.faces[1].possible_cycles.len(), before);
    assert_eq!(ctx.state().faces.faces[1].current_cycle(), None);
}

#[test]
fn restricting_an_open_face_to_two_of_its_cycles_keeps_exactly_those() {
    let mut ctx = new_context();
    let ids = ctx.state().faces.faces[1].possible_cycles.iter();
    assert!(ids.len() >= 2);
    let mut two = CycleSet::empty();
    two.insert(ids[0]);
    two.insert(ids[1]);
    let (memo, owner) = ctx.parts_mut();
    assert_eq!(restrict_face_cycles(memo, owner, 1, &two, 0), Ok(()));
    assert_eq!(ctx.state().faces.faces[1].possible_cycles.iter(), vec![ids[0], ids[1]]);
    assert_eq!(ctx.state().faces.faces[1].current_cycle(), None);
}

#[test]
fn inner_face_vertices_connect_its_edges_and_count_each_color_twice() {
    let mut ctx = new_context();
    let (memo, owner) = ctx.parts_mut();
    assert_eq!(check_face_vertices(memo, owner, NFACES - 1, (NCYCLES - 1) as u64, 0), Ok(()));
    for color in 0..NCOLORS {
        assert!(ctx.state().faces.faces[NFACES - 1].edge_dynamic[color].get_to().is_some());
        assert_eq!(ctx.state().edge_color_count(0, color), 2);
        assert_eq!(ctx.state().edge_color_count(1, color), 2);
    }
}

#[test]
fn configuring_the_same_face_cycle_twice_changes_nothing_the_second_time() {
    let mut ctx = new_context();
    let (memo, owner) = ctx.parts_mut();
    assert_eq!(check_face_vertices(memo, owner, NFACES - 1, (NCYCLES - 1) as u64, 0), Ok(()));
    let len = ctx.trail().len();
    let before = format!("{:?}", ctx.state());
    let (memo, owner) = ctx.parts_mut();
    assert_eq!(check_face_vertices(memo, owner, NFACES - 1, (NCYCLES - 1) as u64, 0), Ok(()));
    assert_eq!(ctx.trail().len(), len);
    assert_eq!(format!("{:?}", ctx.state()), before);
}
