use cortex_fusion::operation::OperationIr;
use cortex_fusion::store::{
    BlockOptimization, ExecutionPlan, ExecutionPlanStore, ExecutionTrigger, SearchQuery, same_trigger,
};
use cortex_fusion::strategy::ExecutionStrategy;

fn plan(operations: Vec<OperationIr>) -> ExecutionPlan<()> {
    let n = operations.len();
    ExecutionPlan {
        operations,
        triggers: Vec::new(),
        optimization: BlockOptimization::new(ExecutionStrategy::operations(n), Vec::new()),
    }
}

fn op(input: u64, out: u64) -> OperationIr {
    OperationIr::new(1, input, out)
}

#[test]
fn plans_are_numbered_in_insertion_order() {
    let mut store = ExecutionPlanStore::new();
    assert_eq!(store.add(plan(vec![op(0, 1)])), 0);
    assert_eq!(store.add(plan(vec![op(0, 1), op(1, 2)])), 1);
    assert_eq!(store.add(plan(vec![op(5, 6)])), 2);
    assert_eq!(store.get_unchecked(1).operations, vec![op(0, 1), op(1, 2)]);
}

#[test]
fn find_returns_the_plans_starting_with_an_operation_in_order() {
    let mut store = ExecutionPlanStore::new();
    store.add(plan(vec![op(0, 1), op(1, 2)]));
    store.add(plan(vec![op(5, 6)]));
    store.add(plan(vec![op(0, 1)]));
    assert_eq!(store.find(SearchQuery::PlansStartingWith(&op(0, 1))), vec![0, 2]);
    assert_eq!(store.find(SearchQuery::PlansStartingWith(&op(5, 6))), vec![1]);
    assert!(store.find(SearchQuery::PlansStartingWith(&op(1, 2))).is_empty());
}

#[test]
fn adding_the_same_trigger_twice_keeps_one() {
    let mut store = ExecutionPlanStore::new();
    let id = store.add(plan(vec![op(0, 1)]));
    store.add_trigger(id, ExecutionTrigger::OnOperations(vec![op(1, 2)]));
    store.add_trigger(id, ExecutionTrigger::OnSync);
    store.add_trigger(id, ExecutionTrigger::OnOperations(vec![op(1, 2)]));
    store.add_trigger(id, ExecutionTrigger::OnOperations(vec![op(1, 3)]));
    store.add_trigger(id, ExecutionTrigger::OnSync);
    assert_eq!(
        store.get_unchecked(id).triggers,
        vec![
            ExecutionTrigger::OnOperations(vec![op(1, 2)]),
            ExecutionTrigger::OnSync,
            ExecutionTrigger::OnOperations(vec![op(1, 3)]),
        ]
    );
}

#[test]
fn a_plan_can_be_modified_in_place() {
    let mut store = ExecutionPlanStore::new();
    let id = store.add(plan(vec![op(0, 1)]));
    store.get_mut_unchecked(id).triggers.push(ExecutionTrigger::Always);
    assert_eq!(store.get_unchecked(id).triggers, vec![ExecutionTrigger::Always]);
}

#[test]
fn triggers_compare_by_what_they_say() {
    assert!(same_trigger(&ExecutionTrigger::Always, &ExecutionTrigger::Always));
    assert!(!same_trigger(&ExecutionTrigger::Always, &ExecutionTrigger::OnSync));
    assert!(same_trigger(
        &ExecutionTrigger::OnOperations(vec![op(0, 1), op(1, 2)]),
        &ExecutionTrigger::OnOperations(vec![op(0, 1), op(1, 2)])
    ));
    assert!(!same_trigger(
        &ExecutionTrigger::OnOperations(vec![op(0, 1)]),
        &ExecutionTrigger::OnOperations(vec![op(0, 1), op(1, 2)])
    ));
    assert!(!same_trigger(
        &ExecutionTrigger::OnOperations(vec![op(0, 1)]),
        &ExecutionTrigger::OnOperations(vec![op(0, 2)])
    ));
}
