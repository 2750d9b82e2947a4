use venn_search::engine::{EngineAction, EngineStep, Predicate, PredicateResult, SearchEngine};
use venn_search::predicates::test::{
    AlwaysFailPredicate, ChoicePredicate, IntegerRangePredicate, MultiRoundPredicate, SuspendPredicate,
};
use venn_search::SearchContext;

fn new_context() -> SearchContext {
    SearchContext::new()
}

/// Drive the engine over the predicates: true when suspended, false when exhausted.
fn run(engine: &mut SearchEngine, predicates: &mut [Box<dyn Predicate>], ctx: &mut SearchContext, resume: bool) -> bool {
    if !resume && !engine.start(ctx) {
        return false;
    }
    loop {
        match engine.next_action(ctx) {
            EngineAction::Exhausted => return false,
            EngineAction::Try { predicate_index, round } => {
                let result = predicates[predicate_index].try_pred(ctx, round);
                match engine.after_try(result, ctx) {
                    EngineStep::Continue => {},
                    EngineStep::Suspended => return true,
                    other => panic!("Invalid predicate sequence: {:?}", other),
                }
            },
            EngineAction::Retry { predicate_index, round, choice } => {
                let result = predicates[predicate_index].retry_pred(ctx, round, choice);
                match engine.after_retry(result, ctx) {
                    EngineStep::Continue => {},
                    EngineStep::Suspended => return true,
                    other => panic!("retry_pred returned invalid result: {:?}", other),
                }
            },
        }
    }
}

#[test]
fn test_simple_success_with_suspend() {
    let mut ctx = new_context();
    let mut predicates: Vec<Box<dyn Predicate>> = vec![Box::new(MultiRoundPredicate::new(1)), Box::new(SuspendPredicate)];
    let mut engine = SearchEngine::new(predicates.len());
    assert!(run(&mut engine, &mut predicates, &mut ctx, false));
    assert_eq!(engine.statistics(), (2, 0));
}

#[test]
fn test_immediate_failure() {
    let mut ctx = new_context();
    let mut predicates: Vec<Box<dyn Predicate>> = vec![Box::new(AlwaysFailPredicate)];
    let mut engine = SearchEngine::new(predicates.len());
    assert!(!run(&mut engine, &mut predicates, &mut ctx, false));
}

#[test]
fn mod_test_empty_predicates() {
    let mut ctx = new_context();
    let mut predicates: Vec<Box<dyn Predicate>> = vec![];
    let mut engine = SearchEngine::new(0);
    assert!(!run(&mut engine, &mut predicates, &mut ctx, false));
}

#[test]
fn test_simple_integer_search_with_suspend() {
    let mut ctx = new_context();
    let mut predicates: Vec<Box<dyn Predicate>> = vec![Box::new(IntegerRangePredicate::new(1, 11)), Box::new(SuspendPredicate)];
    let mut engine = SearchEngine::new(predicates.len());
    assert!(run(&mut engine, &mut predicates, &mut ctx, false));
    assert_eq!(engine.statistics(), (2, 1));
}

#[test]
fn test_two_integer_ranges() {
    let mut ctx = new_context();
    let mut predicates: Vec<Box<dyn Predicate>> = vec![
        Box::new(IntegerRangePredicate::new(1, 3)),
        Box::new(IntegerRangePredicate::new(10, 12)),
        Box::new(SuspendPredicate),
    ];
    let mut engine = SearchEngine::new(predicates.len());
    assert!(run(&mut engine, &mut predicates, &mut ctx, false));
    assert_eq!(engine.statistics(), (3, 2));
}

#[test]
fn test_choice_predicate_search() {
    let mut ctx = new_context();
    let mut predicates: Vec<Box<dyn Predicate>> = vec![Box::new(ChoicePredicate::new(vec!["A", "B", "C"])), Box::new(SuspendPredicate)];
    let mut engine = SearchEngine::new(predicates.len());
    assert!(run(&mut engine, &mut predicates, &mut ctx, false));
    assert_eq!(engine.statistics(), (2, 1));
}

#[test]
fn test_backtracking_exhausts_options() {
    let mut ctx = new_context();
    let mut predicates: Vec<Box<dyn Predicate>> = vec![
        Box::new(IntegerRangePredicate::new(1, 4)),
        Box::new(IntegerRangePredicate::new(10, 13)),
        Box::new(AlwaysFailPredicate),
        Box::new(SuspendPredicate),
    ];
    let mut engine = SearchEngine::new(predicates.len());
    assert!(!run(&mut engine, &mut predicates, &mut ctx, false));
    // 1 try of the first range, 3 of the second (one per first choice), 9 of the failing
    // predicate; 3 + 9 retries.
    assert_eq!(engine.statistics(), (13, 12));
}

#[test]
fn test_empty_search_space() {
    let mut ctx = new_context();
    let mut predicates: Vec<Box<dyn Predicate>> = vec![Box::new(IntegerRangePredicate::new(1, 1)), Box::new(SuspendPredicate)];
    let mut engine = SearchEngine::new(predicates.len());
    assert!(!run(&mut engine, &mut predicates, &mut ctx, false));
    assert_eq!(engine.statistics(), (1, 0));
}

#[test]
fn suspended_search_resumes_with_next_choice() {
    let mut ctx = new_context();
    let mut predicates: Vec<Box<dyn Predicate>> = vec![Box::new(IntegerRangePredicate::new(1, 4)), Box::new(SuspendPredicate)];
    let mut engine = SearchEngine::new(predicates.len());
    let mut suspensions = 0;
    let mut resume = false;
    while run(&mut engine, &mut predicates, &mut ctx, resume) {
        suspensions += 1;
        resume = true;
        // Resuming drops the suspending activation, as backtracking would.
        let _ = engine.after_try(PredicateResult::Failure, &ctx);
    }
    assert_eq!(suspensions, 3);
}

#[test]
fn multi_round_predicate_runs_its_rounds() {
    let mut ctx = new_context();
    let mut predicates: Vec<Box<dyn Predicate>> = vec![Box::new(MultiRoundPredicate::new(3)), Box::new(SuspendPredicate)];
    let mut engine = SearchEngine::new(predicates.len());
    assert!(run(&mut engine, &mut predicates, &mut ctx, false));
    assert_eq!(engine.statistics(), (4, 0));
    assert_eq!(engine.stack.len(), 4);
}

#[test]
fn backtracking_restores_state_written_by_a_choice() {
    struct SetDegree;
    impl Predicate for SetDegree {
        fn try_pred(&mut self, _ctx: &mut SearchContext, _round: usize) -> PredicateResult {
            PredicateResult::Choices(2)
        }
        fn retry_pred(&mut self, ctx: &mut SearchContext, _round: usize, choice: usize) -> PredicateResult {
            assert_eq!(ctx.get_face_degree(0), 0, "each choice starts from the state before the choices");
            ctx.set_face_degree(0, 10 + choice as u64);
            PredicateResult::Success
        }
        fn name(&self) -> &'static str {
            "SetDegree"
        }
    }
    let mut ctx = new_context();
    let mut predicates: Vec<Box<dyn Predicate>> = vec![Box::new(SetDegree), Box::new(AlwaysFailPredicate)];
    let mut engine = SearchEngine::new(predicates.len());
    assert!(!run(&mut engine, &mut predicates, &mut ctx, false));
    assert_eq!(engine.statistics(), (3, 2));
}

#[test]
fn success_past_the_end_is_an_invalid_sequence() {
    let ctx = new_context();
    let mut engine = SearchEngine::new(1);
    assert!(engine.start(&ctx));
    assert_eq!(engine.after_try(PredicateResult::Success, &ctx), EngineStep::InvalidSequence);
    assert_eq!(engine.after_retry(PredicateResult::Suspend, &ctx), EngineStep::InvalidRetryResult);
}
