use venn_search::engine::{Predicate, PredicateResult};
use venn_search::geometry::constants::{NCOLORS, NFACES, TOTAL_CENTRAL_NEIGHBOR_DEGREE};
use venn_search::predicates::innerface::InnerFacePredicate;
use venn_search::predicates::test::{
    AlwaysFailPredicate, ChoicePredicate, IntegerRangePredicate, MultiRoundPredicate, SuspendPredicate,
};
use venn_search::predicates::venn::{choose_next_cycle, choose_next_face, VennPredicate};
use venn_search::predicates::InitializePredicate;
use venn_search::SearchContext;

fn new_context() -> SearchContext {
    SearchContext::new()
}

#[test]
fn test_initialize_round_0() {
    let mut ctx = new_context();
    let mut pred = InitializePredicate;
    let result = pred.try_pred(&mut ctx, 0);
    assert_eq!(result, PredicateResult::Success);
}

#[test]
fn initialize_later_round_and_retry_fail() {
    let mut ctx = new_context();
    let mut pred = InitializePredicate;
    assert_eq!(pred.try_pred(&mut ctx, 1), PredicateResult::Failure);
    assert_eq!(pred.retry_pred(&mut ctx, 0, 0), PredicateResult::Failure);
    assert_eq!(pred.name(), "Initialize");
}

#[test]
fn test_innerface_try_pred_choices() {
    let mut ctx = new_context();
    let mut pred = InnerFacePredicate;
    for round in 0..NCOLORS {
        let result = pred.try_pred(&mut ctx, round);
        assert_eq!(result, PredicateResult::Choices(NCOLORS - 2));
    }
}

#[test]
fn test_innerface_retry_pred_sets_degree() {
    let mut ctx = new_context();
    let mut pred = InnerFacePredicate;
    let result = pred.retry_pred(&mut ctx, 0, 0);
    assert_eq!(result, PredicateResult::SuccessSamePredicate);
    assert_eq!(ctx.get_face_degree(0), NCOLORS as u64);
    if NCOLORS >= 4 {
        let result = pred.retry_pred(&mut ctx, 1, 1);
        assert_eq!(result, PredicateResult::SuccessSamePredicate);
        assert_eq!(ctx.get_face_degree(1), (NCOLORS - 1) as u64);
    }
}

#[test]
fn innerface_retry_rejects_degrees_below_three() {
    let mut ctx = new_context();
    let mut pred = InnerFacePredicate;
    assert_eq!(pred.retry_pred(&mut ctx, 0, NCOLORS - 2), PredicateResult::Failure);
    assert_eq!(ctx.get_face_degree(0), 0);
    assert_eq!(ctx.trail().len(), 0);
}

#[test]
fn test_innerface_final_round_checks_sum() {
    let mut ctx = new_context();
    let mut pred = InnerFacePredicate;
    let wrong_degree = if NCOLORS == 3 { 4 } else { 3 };
    for i in 0..NCOLORS {
        ctx.set_face_degree(i, wrong_degree);
    }
    let result = pred.try_pred(&mut ctx, NCOLORS);
    assert_eq!(result, PredicateResult::Failure);
}

#[test]
fn test_innerface_canonical_sequence_succeeds() {
    let mut ctx = new_context();
    let mut pred = InnerFacePredicate;
    let degrees = [6u64, 6, 4, 4, 4, 3];
    for (i, &degree) in degrees.iter().enumerate() {
        ctx.set_face_degree(i, degree);
    }
    assert_eq!(degrees.iter().sum::<u64>(), TOTAL_CENTRAL_NEIGHBOR_DEGREE as u64);
    let result = pred.try_pred(&mut ctx, NCOLORS);
    assert_eq!(result, PredicateResult::Success);
}

#[test]
fn test_innerface_noncanonical_sequence_fails() {
    let mut ctx = new_context();
    let mut pred = InnerFacePredicate;
    let degrees = [6u64, 6, 3, 4, 5, 3];
    for (i, &degree) in degrees.iter().enumerate() {
        ctx.set_face_degree(i, degree);
    }
    let result = pred.try_pred(&mut ctx, NCOLORS);
    assert_eq!(result, PredicateResult::Failure);
}

#[test]
fn test_integer_range_predicate() {
    let mut ctx = new_context();
    let mut pred = IntegerRangePredicate::new(1, 4);
    assert_eq!(pred.try_pred(&mut ctx, 0), PredicateResult::Choices(3));
    assert_eq!(pred.retry_pred(&mut ctx, 0, 0), PredicateResult::Success);
    assert_eq!(pred.retry_pred(&mut ctx, 0, 1), PredicateResult::Success);
    assert_eq!(pred.retry_pred(&mut ctx, 0, 2), PredicateResult::Success);
    assert_eq!(pred.retry_pred(&mut ctx, 0, 3), PredicateResult::Failure);
}

#[test]
fn integer_range_count_of_empty_and_reversed_ranges() {
    assert_eq!(IntegerRangePredicate::new(5, 5).count(), 0);
    assert_eq!(IntegerRangePredicate::new(5, 2).count(), 0);
    assert_eq!(IntegerRangePredicate::new(-2, 3).count(), 5);
}

#[test]
fn test_choice_predicate() {
    let mut ctx = new_context();
    let mut pred = ChoicePredicate::new(vec!["A", "B", "C"]);
    assert_eq!(pred.try_pred(&mut ctx, 0), PredicateResult::Choices(3));
    assert_eq!(pred.retry_pred(&mut ctx, 0, 0), PredicateResult::Success);
    assert_eq!(pred.retry_pred(&mut ctx, 0, 1), PredicateResult::Success);
    assert_eq!(pred.retry_pred(&mut ctx, 0, 2), PredicateResult::Success);
    assert_eq!(pred.retry_pred(&mut ctx, 0, 3), PredicateResult::Failure);
}

#[test]
fn test_empty_choice_predicate() {
    let mut ctx = new_context();
    let mut pred: ChoicePredicate<i32> = ChoicePredicate::new(vec![]);
    assert_eq!(pred.try_pred(&mut ctx, 0), PredicateResult::Failure);
}

#[test]
fn test_suspend_predicate() {
    let mut ctx = new_context();
    let mut pred = SuspendPredicate;
    assert_eq!(pred.try_pred(&mut ctx, 0), PredicateResult::Suspend);
    assert_eq!(pred.retry_pred(&mut ctx, 0, 0), PredicateResult::Failure);
}

#[test]
fn test_fail_predicate() {
    let mut ctx = new_context();
    let mut pred = AlwaysFailPredicate;
    assert_eq!(pred.try_pred(&mut ctx, 0), PredicateResult::Failure);
    assert_eq!(pred.retry_pred(&mut ctx, 0, 0), PredicateResult::Failure);
}

#[test]
fn test_test_multi_round_predicate() {
    let mut ctx = new_context();
    let mut pred = MultiRoundPredicate::new(3);
    assert_eq!(pred.try_pred(&mut ctx, 0), PredicateResult::SuccessSamePredicate);
    assert_eq!(pred.try_pred(&mut ctx, 1), PredicateResult::SuccessSamePredicate);
    assert_eq!(pred.try_pred(&mut ctx, 2), PredicateResult::Success);
    assert_eq!(pred.try_pred(&mut ctx, 3), PredicateResult::Failure);
}

#[test]
fn test_venn_predicate_creation() {
    let pred = VennPredicate::new();
    assert_eq!(pred.name(), "Venn");
    assert_eq!(pred.faces_in_order.len(), NFACES);
}

#[test]
fn test_dynamic_faces_initialization() {
    let ctx = new_context();
    assert_eq!(ctx.state().faces.faces.len(), NFACES);
    for face_id in 0..NFACES {
        let face = ctx.state().faces.get(face_id);
        assert!(face.current_cycle().is_none());
    }
}

#[test]
fn test_choose_next_face_simple() {
    let ctx = new_context();
    let face_id = choose_next_face(&ctx);
    assert!(face_id.is_some());
}

#[test]
fn test_choose_next_face_skip_assigned() {
    let mut ctx = new_context();
    ctx.set_retry_cursor_untrailed(0, Some(0));
    let face_id = choose_next_face(&ctx);
    assert!(face_id.is_some());
    assert_ne!(face_id.unwrap(), 0);
}

#[test]
fn choose_next_face_takes_fewest_cycles() {
    let ctx = new_context();
    let chosen = choose_next_face(&ctx).unwrap();
    let fewest = (0..NFACES).map(|f| ctx.get_face_cycle_count(f)).min().unwrap();
    assert_eq!(ctx.get_face_cycle_count(chosen), fewest);
    let first = (0..NFACES).find(|&f| ctx.get_face_cycle_count(f) == fewest).unwrap();
    assert_eq!(chosen, first);
}

#[test]
fn test_choose_next_cycle_first() {
    let ctx = new_context();
    let face_id = choose_next_face(&ctx).expect("Should have unassigned face");
    let first_cycle = choose_next_cycle(&ctx, face_id, None).unwrap();
    assert!(ctx.get_face_possible_cycles(face_id).contains(first_cycle));
}

#[test]
fn test_choose_next_cycle_iterator() {
    let ctx = new_context();
    let face_id = (0..NFACES).find(|&id| ctx.get_face_cycle_count(id) >= 2).expect("Should have face with multiple cycles");
    let first = choose_next_cycle(&ctx, face_id, None).unwrap();
    let second = choose_next_cycle(&ctx, face_id, Some(first)).unwrap();
    assert_ne!(first, second);
    assert!(ctx.get_face_possible_cycles(face_id).contains(second));
}

#[test]
fn choose_next_cycle_runs_out() {
    let ctx = new_context();
    let face_id = 0;
    let all = ctx.get_face_possible_cycles(face_id).iter();
    let last = *all.last().unwrap();
    assert_eq!(choose_next_cycle(&ctx, face_id, Some(last)), None);
    assert_eq!(choose_next_cycle(&ctx, face_id, None), Some(all[0]));
}

#[test]
fn test_venn_try_pred_round_0() {
    let mut ctx = new_context();
    let mut pred = VennPredicate::new();
    let result = pred.try_pred(&mut ctx, 0);
    match result {
        PredicateResult::Choices(n) => assert!(n > 0),
        _ => panic!("Expected Choices, got {:?}", result),
    }
}

#[test]
fn test_venn_try_pred_resets_cycle() {
    let mut ctx = new_context();
    let mut pred = VennPredicate::new();
    pred.try_pred(&mut ctx, 0);
    let face_id = pred.faces_in_order[0];
    assert!(ctx.state().faces.faces[face_id].current_cycle().is_none());
}

#[test]
fn test_venn_retry_pred_assigns_cycle() {
    let mut ctx = new_context();
    let mut pred = VennPredicate::new();
    pred.try_pred(&mut ctx, 0);
    let result = pred.retry_pred(&mut ctx, 0, 0);
    match result {
        PredicateResult::SuccessSamePredicate => {
            let face_id = pred.faces_in_order[0];
            assert!(ctx.state().faces.faces[face_id].current_cycle().is_some());
        },
        PredicateResult::Failure => {},
        _ => panic!("Expected SuccessSamePredicate or Failure, got {:?}", result),
    }
}

#[test]
fn test_cycle_count_matches_possible_cycles() {
    let ctx = new_context();
    for face_id in 0..NFACES {
        let face = ctx.state().faces.get(face_id);
        let expected_count = face.possible_cycles.len() as u64;
        assert_eq!(face.cycle_count, expected_count);
    }
}
