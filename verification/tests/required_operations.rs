use cortex_fusion::strategy::ExecutionStrategy;
use std::sync::Arc;

/// `()` stands in for an optimization: `required_operations` reads only the
/// orderings, so the payload type is irrelevant to what is under test.
fn ops(positions: &[usize]) -> ExecutionStrategy<()> {
    ExecutionStrategy::Operations { ordering: Arc::new(positions.to_vec()) }
}

#[test]
fn an_ordering_of_stream_positions_needs_more_than_its_own_length() {
    let positions = [1usize, 2, 3];
    let s = ops(&positions);
    assert_eq!(s.required_operations(), 4, "[1,2,3] reaches index 3");
    assert!(
        positions.len() < s.required_operations(),
        "a count of {} would admit a queue that cannot hold index {}",
        positions.len(),
        s.required_operations() - 1
    );
}

#[test]
fn a_zero_based_ordering_is_the_case_where_a_count_happens_to_work() {
    assert_eq!(ops(&[0, 1, 2]).required_operations(), 3);
}

#[test]
fn the_reach_is_the_maximum_not_the_final_entry() {
    assert_eq!(ops(&[3, 0, 2, 1]).required_operations(), 4);
}

#[test]
fn a_composition_reaches_as_far_as_its_furthest_member() {
    let c = ExecutionStrategy::Composed(vec![
        Box::new(ops(&[0, 1])),
        Box::new(ops(&[5])),
        Box::new(ops(&[2, 3])),
    ]);
    assert_eq!(c.required_operations(), 6, "member [5] reaches index 5");
}

#[test]
fn an_empty_ordering_requires_no_operations() {
    assert_eq!(ops(&[]).required_operations(), 0);
    assert_eq!(ExecutionStrategy::<()>::Composed(vec![]).required_operations(), 0);
}

#[test]
fn an_optimization_reaches_as_far_as_its_ordering() {
    let s = ExecutionStrategy::Optimization { opt: (), ordering: Arc::new(vec![2, 7, 4]), score: 10 };
    assert_eq!(s.required_operations(), 8);
}

#[test]
fn a_nested_composition_reaches_as_far_as_its_deepest_member() {
    let inner = ExecutionStrategy::Composed(vec![Box::new(ops(&[9])), Box::new(ops(&[1]))]);
    let outer = ExecutionStrategy::Composed(vec![Box::new(ops(&[3])), Box::new(inner)]);
    assert_eq!(outer.required_operations(), 10);
}

#[test]
fn repeated_positions_do_not_add_to_the_reach() {
    assert_eq!(ops(&[2, 2, 2, 2, 2]).required_operations(), 3);
}

#[test]
fn operations_strategy_covers_positions_from_zero() {
    let s = ExecutionStrategy::<()>::operations(5);
    match &s {
        ExecutionStrategy::Operations { ordering } => assert_eq!(**ordering, vec![0, 1, 2, 3, 4]),
        _ => panic!("expected an operations strategy"),
    }
    assert_eq!(s.required_operations(), 5);
    assert_eq!(ExecutionStrategy::<()>::operations(0).required_operations(), 0);
}

#[test]
fn a_copy_reaches_as_far_as_the_original() {
    let c = ExecutionStrategy::Composed(vec![
        Box::new(ops(&[0, 1])),
        Box::new(ExecutionStrategy::Optimization { opt: (), ordering: Arc::new(vec![7]), score: 3 }),
    ]);
    let copy = c.clone();
    assert_eq!(copy, c);
    assert_eq!(copy.required_operations(), 8);
}
