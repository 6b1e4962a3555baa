use cortex_fusion::operation::OperationIr;
use cortex_fusion::policy::{Action, ExecutionMode, Policy};
use cortex_fusion::store::{BlockOptimization, ExecutionPlan, ExecutionPlanStore, ExecutionTrigger};
use cortex_fusion::strategy::ExecutionStrategy;
use std::ops::Range;
use std::sync::Arc;

/// The kind of every test operation: a unary `log`.
const LOG: u64 = 1;

#[test]
fn given_no_optimization_should_explore() {
    let store = ExecutionPlanStore::default();
    let mut policy = Policy::new();
    let stream = TestStream::new(3);

    stream.assert_updates(&store, &mut policy, AssertUpdatesOptions::OperationsIndex(0..3), Action::Explore);
}

#[test]
fn given_existing_optimizations_when_sync_should_execute_one_when_available() {
    let mut store = ExecutionPlanStore::default();
    let mut policy = Policy::new();
    let stream = TestStream::new(3);

    let id_1 = store.add(ExecutionPlan {
        operations: stream.operations[0..2].to_vec(),
        triggers: Vec::new(),
        optimization: BlockOptimization::new(ExecutionStrategy::operations(2), Vec::new()),
    });
    let _id_2 = store.add(ExecutionPlan {
        operations: stream.operations[0..3].to_vec(),
        triggers: Vec::new(),
        optimization: BlockOptimization::new(ExecutionStrategy::operations(3), Vec::new()),
    });

    stream.assert_updates(&store, &mut policy, AssertUpdatesOptions::OperationsIndex(0..2), Action::Defer);

    let action = policy.action(&store, &stream.operations[0..2], ExecutionMode::Sync);
    assert_eq!(action, Action::Execute(id_1));
}

#[test]
fn a_plan_whose_ordering_outreaches_the_queue_is_not_executed() {
    let mut store: ExecutionPlanStore<()> = ExecutionPlanStore::default();
    let mut policy: Policy<()> = Policy::new();
    let stream = TestStream::new(3);

    // Three operations covered, but the ordering names positions 1..=3.
    let id = store.add(ExecutionPlan {
        operations: stream.operations[0..3].to_vec(),
        triggers: Vec::new(),
        optimization: BlockOptimization::new(
            ExecutionStrategy::Operations { ordering: Arc::new(vec![1, 2, 3]) },
            Vec::new(),
        ),
    });

    for op in &stream.operations[0..3] {
        policy.update(&store, op);
    }
    policy.found = Some((id, 3));

    let action = policy.action(&store, &stream.operations[0..3], ExecutionMode::Sync);
    assert_ne!(
        action,
        Action::Execute(id),
        "a plan reaching index 3 must not run against only 3 operations — \
         that is the indexing the device runner dies on"
    );
}

#[test]
fn a_plan_whose_ordering_fits_the_queue_is_still_executed() {
    let mut store: ExecutionPlanStore<()> = ExecutionPlanStore::default();
    let mut policy: Policy<()> = Policy::new();
    let stream = TestStream::new(4);

    let id = store.add(ExecutionPlan {
        operations: stream.operations[0..3].to_vec(),
        triggers: Vec::new(),
        optimization: BlockOptimization::new(
            ExecutionStrategy::Operations { ordering: Arc::new(vec![1, 2, 3]) },
            Vec::new(),
        ),
    });
    for op in &stream.operations[0..4] {
        policy.update(&store, op);
    }
    policy.found = Some((id, 3));

    // Four operations: index 3 is now addressable.
    let action = policy.action(&store, &stream.operations[0..4], ExecutionMode::Sync);
    assert_eq!(
        action,
        Action::Execute(id),
        "four operations cover an ordering reaching index 3 — this must still run"
    );
}

#[test]
fn given_existing_plan_when_found_trigger_should_execute_plan() {
    let mut store = ExecutionPlanStore::default();
    let mut policy = Policy::new();

    let stream = TestStream::new(3);
    let id = store.add(ExecutionPlan {
        operations: stream.operations[0..2].to_vec(),
        triggers: stream.operations[2..3]
            .iter()
            .map(|desc| ExecutionTrigger::OnOperations(vec![*desc]))
            .collect(),
        optimization: BlockOptimization::new(ExecutionStrategy::operations(2), Vec::new()),
    });

    stream.assert_updates(&store, &mut policy, AssertUpdatesOptions::OperationsIndex(0..2), Action::Defer);
    stream.assert_updates(&store, &mut policy, AssertUpdatesOptions::OperationsIndex(2..3), Action::Execute(id));
}

#[test]
fn should_support_multiple_triggers() {
    let mut store = ExecutionPlanStore::default();
    let mut policy_1 = Policy::new();
    let mut policy_2 = Policy::new();

    let mut stream_1 = TestStream::new(2);
    let mut stream_2 = TestStream::new(2);

    // Create different end operation for each stream.
    let trigger_id_1 = 5;
    let trigger_id_2 = 6;
    stream_1.new_ops(trigger_id_1);
    stream_2.new_ops(trigger_id_2);

    let id = store.add(ExecutionPlan {
        operations: stream_1.operations[0..2].to_vec(),
        triggers: vec![
            ExecutionTrigger::OnOperations(vec![stream_1.operations[2]]),
            ExecutionTrigger::OnOperations(vec![stream_2.operations[2]]),
        ],
        optimization: BlockOptimization::new(ExecutionStrategy::operations(2), Vec::new()),
    });

    stream_1.assert_updates(&store, &mut policy_1, AssertUpdatesOptions::OperationsIndex(0..2), Action::Defer);
    stream_2.assert_updates(&store, &mut policy_2, AssertUpdatesOptions::OperationsIndex(0..2), Action::Defer);

    stream_1.assert_updates(
        &store,
        &mut policy_1,
        AssertUpdatesOptions::OperationsIndex(2..3), // First trigger.
        Action::Execute(id),
    );
    stream_2.assert_updates(
        &store,
        &mut policy_2,
        AssertUpdatesOptions::OperationsIndex(2..3), // Second trigger.
        Action::Execute(id),
    );
}

#[test]
fn should_select_right_optimization() {
    let mut store = ExecutionPlanStore::default();
    let mut policy_1 = Policy::new();
    let mut policy_2 = Policy::new();

    let mut stream_1 = TestStream::new(2);
    let mut stream_2 = TestStream::new(2);

    // Create different streams after op 2.
    stream_1.new_ops(4);
    stream_1.new_ops(5);

    stream_2.new_ops(5);
    stream_2.new_ops(6);

    let optimization_stream_1 = store.add(ExecutionPlan {
        operations: stream_1.operations[0..3].to_vec(),
        triggers: stream_1.operations[3..4]
            .iter()
            .map(|desc| ExecutionTrigger::OnOperations(vec![*desc]))
            .collect(),
        optimization: BlockOptimization::new(ExecutionStrategy::operations(3), Vec::new()),
    });
    let optimization_stream_2 = store.add(ExecutionPlan {
        operations: stream_2.operations[0..3].to_vec(),
        triggers: stream_2.operations[3..4]
            .iter()
            .map(|desc| ExecutionTrigger::OnOperations(vec![*desc]))
            .collect(),
        optimization: BlockOptimization::new(ExecutionStrategy::operations(3), Vec::new()),
    });
    assert_ne!(optimization_stream_1, optimization_stream_2);

    stream_1.assert_updates(&store, &mut policy_1, AssertUpdatesOptions::OperationsIndex(0..3), Action::Defer);
    stream_2.assert_updates(&store, &mut policy_2, AssertUpdatesOptions::OperationsIndex(0..3), Action::Defer);

    stream_1.assert_updates(
        &store,
        &mut policy_1,
        AssertUpdatesOptions::OperationsIndex(3..4),
        Action::Execute(optimization_stream_1),
    );
    stream_2.assert_updates(
        &store,
        &mut policy_2,
        AssertUpdatesOptions::OperationsIndex(3..4),
        Action::Execute(optimization_stream_2),
    );
}

#[test]
fn should_invalidate_wrong_optimizations() {
    let mut store = ExecutionPlanStore::default();
    let stream_1 = TestStream::new(4);
    let mut stream_2 = TestStream::new(2);
    stream_2.new_ops(6);
    stream_2.new_ops(7);

    store.add(ExecutionPlan {
        operations: stream_1.operations[0..3].to_vec(),
        triggers: stream_1.operations[3..4]
            .iter()
            .map(|desc| ExecutionTrigger::OnOperations(vec![*desc]))
            .collect(),
        optimization: BlockOptimization::new(ExecutionStrategy::operations(3), Vec::new()),
    });

    let mut policy = Policy::new();
    // Same path as stream 1
    stream_2.assert_updates(&store, &mut policy, AssertUpdatesOptions::OperationsIndex(0..2), Action::Defer);

    // But is different.
    stream_2.assert_updates(&store, &mut policy, AssertUpdatesOptions::OperationsIndex(2..4), Action::Explore);
}

#[test]
fn sync_never_defers_even_with_candidates_pending() {
    let mut store: ExecutionPlanStore<()> = ExecutionPlanStore::default();
    let mut policy = Policy::new();
    let stream = TestStream::new(3);
    store.add(ExecutionPlan {
        operations: stream.operations[0..3].to_vec(),
        triggers: Vec::new(),
        optimization: BlockOptimization::new(ExecutionStrategy::operations(3), Vec::new()),
    });
    policy.update(&store, &stream.operations[0]);
    assert_eq!(policy.action(&store, &stream.operations[0..1], ExecutionMode::Lazy), Action::Defer);
    assert_eq!(policy.action(&store, &stream.operations[0..1], ExecutionMode::Sync), Action::Explore);
}

#[test]
fn an_always_trigger_executes_as_soon_as_the_plan_is_matched() {
    let mut store: ExecutionPlanStore<()> = ExecutionPlanStore::default();
    let mut policy = Policy::new();
    let stream = TestStream::new(2);
    let id = store.add(ExecutionPlan {
        operations: stream.operations[0..2].to_vec(),
        triggers: vec![ExecutionTrigger::Always],
        optimization: BlockOptimization::new(ExecutionStrategy::operations(2), Vec::new()),
    });
    policy.update(&store, &stream.operations[0]);
    assert_eq!(policy.found, None);
    policy.update(&store, &stream.operations[1]);
    assert_eq!(policy.found, Some((id, 2)));
    assert_eq!(policy.action(&store, &stream.operations[0..2], ExecutionMode::Lazy), Action::Execute(id));
}

#[test]
fn a_sync_trigger_does_not_fire_during_updates() {
    let mut store: ExecutionPlanStore<()> = ExecutionPlanStore::default();
    let mut policy = Policy::new();
    let stream = TestStream::new(2);
    let id = store.add(ExecutionPlan {
        operations: stream.operations[0..2].to_vec(),
        triggers: vec![ExecutionTrigger::OnSync],
        optimization: BlockOptimization::new(ExecutionStrategy::operations(2), Vec::new()),
    });
    policy.update(&store, &stream.operations[0]);
    policy.update(&store, &stream.operations[1]);
    assert_eq!(policy.found, None);
    assert_eq!(policy.action(&store, &stream.operations[0..2], ExecutionMode::Lazy), Action::Defer);
    assert_eq!(policy.action(&store, &stream.operations[0..2], ExecutionMode::Sync), Action::Execute(id));
}

#[test]
fn reset_forgets_everything_analyzed() {
    let mut store: ExecutionPlanStore<()> = ExecutionPlanStore::default();
    let mut policy = Policy::new();
    let stream = TestStream::new(3);
    store.add(ExecutionPlan {
        operations: stream.operations[0..2].to_vec(),
        triggers: vec![ExecutionTrigger::Always],
        optimization: BlockOptimization::new(ExecutionStrategy::operations(2), Vec::new()),
    });
    policy.update(&store, &stream.operations[0]);
    policy.update(&store, &stream.operations[1]);
    assert!(policy.found.is_some());
    policy.reset();
    assert!(policy.candidates.is_empty());
    assert!(policy.availables.is_empty());
    assert_eq!(policy.found, None);
    assert_eq!(policy.num_operations, 0);
    assert_eq!(policy.action(&store, &stream.operations[0..0], ExecutionMode::Lazy), Action::Explore);
}

#[test]
fn tracking_keeps_only_plans_that_extend_the_stream() {
    let mut store: ExecutionPlanStore<()> = ExecutionPlanStore::default();
    let mut policy = Policy::new();
    let stream = TestStream::new(4);
    let short = store.add(ExecutionPlan {
        operations: stream.operations[0..1].to_vec(),
        triggers: Vec::new(),
        optimization: BlockOptimization::new(ExecutionStrategy::operations(1), Vec::new()),
    });
    let long = store.add(ExecutionPlan {
        operations: stream.operations[0..3].to_vec(),
        triggers: Vec::new(),
        optimization: BlockOptimization::new(ExecutionStrategy::operations(3), Vec::new()),
    });
    let other = store.add(ExecutionPlan {
        operations: stream.operations[1..3].to_vec(),
        triggers: Vec::new(),
        optimization: BlockOptimization::new(ExecutionStrategy::operations(2), Vec::new()),
    });
    policy.update(&store, &stream.operations[0]);
    let candidates: Vec<usize> = policy.candidates.iter().map(|c| c.id).collect();
    let availables: Vec<(usize, usize)> = policy.availables.iter().map(|a| (a.id, a.size)).collect();
    assert_eq!(candidates, vec![long]);
    assert_eq!(availables, vec![(short, 1)]);
    assert!(!candidates.contains(&other));
    policy.update(&store, &stream.operations[1]);
    policy.update(&store, &stream.operations[2]);
    let availables: Vec<(usize, usize)> = policy.availables.iter().map(|a| (a.id, a.size)).collect();
    assert!(policy.candidates.is_empty());
    assert_eq!(availables, vec![(short, 1), (long, 3)]);
}

#[derive(Default, Debug)]
struct TestStream {
    tensors: Vec<u64>,
    operations: Vec<OperationIr>,
}

#[derive(Debug)]
enum AssertUpdatesOptions {
    OperationsIndex(Range<usize>),
}

impl TestStream {
    /// Create a new test stream with `num_ops` operations registered.
    fn new(num_ops: usize) -> Self {
        let mut stream = Self::default();
        for id in 0..num_ops {
            stream.new_ops(id as u64 + 1);
        }

        stream
    }

    /// The first follow should only be cache miss.
    fn assert_updates(
        &self,
        optimizations: &ExecutionPlanStore<()>,
        policy: &mut Policy<()>,
        options: AssertUpdatesOptions,
        action: Action,
    ) {
        match options {
            AssertUpdatesOptions::OperationsIndex(range) => {
                for i in range {
                    let stream = &self.operations[0..i];
                    let next_ops = &self.operations[i];
                    policy.update(optimizations, next_ops);
                    let result = policy.action(optimizations, stream, ExecutionMode::Lazy);

                    assert_eq!(result, action);
                }
            }
        }
    }

    /// Add a simple operation to the stream.
    fn new_ops(&mut self, out_id: u64) {
        if self.tensors.is_empty() {
            // Root node.
            self.tensors.push(0);
        }

        // Out node.
        self.tensors.push(out_id);

        let size = self.tensors.len();
        self.operations
            .push(OperationIr::new(LOG, self.tensors[size - 2], self.tensors[size - 1]));
    }
}

#[test]
fn the_store_may_grow_while_a_policy_follows_it() {
    let mut store: ExecutionPlanStore<()> = ExecutionPlanStore::default();
    let mut policy = Policy::new();
    let stream = TestStream::new(3);
    let id = store.add(ExecutionPlan {
        operations: stream.operations[0..2].to_vec(),
        triggers: vec![ExecutionTrigger::OnOperations(vec![stream.operations[2]])],
        optimization: BlockOptimization::new(ExecutionStrategy::operations(2), Vec::new()),
    });
    policy.update(&store, &stream.operations[0]);
    policy.update(&store, &stream.operations[1]);
    store.add_trigger(id, ExecutionTrigger::OnSync);
    store.add(ExecutionPlan {
        operations: stream.operations[1..3].to_vec(),
        triggers: Vec::new(),
        optimization: BlockOptimization::new(ExecutionStrategy::operations(2), Vec::new()),
    });
    assert_eq!(policy.action(&store, &stream.operations[0..2], ExecutionMode::Lazy), Action::Defer);
    policy.update(&store, &stream.operations[2]);
    assert_eq!(policy.action(&store, &stream.operations[0..2], ExecutionMode::Lazy), Action::Execute(id));
}

#[test]
fn an_empty_store_keeps_the_policy_empty_and_exploring() {
    let store: ExecutionPlanStore<()> = ExecutionPlanStore::default();
    let mut policy: Policy<()> = Policy::new();
    let stream = TestStream::new(4);
    for (k, op) in stream.operations.iter().enumerate() {
        policy.update(&store, op);
        assert!(policy.candidates.is_empty());
        assert!(policy.availables.is_empty());
        assert_eq!(policy.found, None);
        assert_eq!(policy.num_operations, k + 1);
        for n in 0..=k + 1 {
            assert_eq!(policy.action(&store, &stream.operations[0..n], ExecutionMode::Lazy), Action::Explore);
            assert_eq!(policy.action(&store, &stream.operations[0..n], ExecutionMode::Sync), Action::Explore);
        }
    }
}

#[test]
fn a_reset_policy_acts_as_a_new_one() {
    let mut store: ExecutionPlanStore<()> = ExecutionPlanStore::default();
    let stream = TestStream::new(3);
    let id = store.add(ExecutionPlan {
        operations: stream.operations[0..2].to_vec(),
        triggers: vec![ExecutionTrigger::OnOperations(vec![stream.operations[2]])],
        optimization: BlockOptimization::new(ExecutionStrategy::operations(2), Vec::new()),
    });
    let mut reset: Policy<()> = Policy::new();
    for op in &stream.operations {
        reset.update(&store, op);
    }
    assert_eq!(reset.action(&store, &stream.operations[0..2], ExecutionMode::Lazy), Action::Execute(id));
    reset.reset();
    let mut fresh: Policy<()> = Policy::new();
    for op in &stream.operations[0..2] {
        reset.update(&store, op);
        fresh.update(&store, op);
        for mode in [ExecutionMode::Lazy, ExecutionMode::Sync] {
            for n in 0..=fresh.num_operations {
                assert_eq!(
                    reset.action(&store, &stream.operations[0..n], mode),
                    fresh.action(&store, &stream.operations[0..n], mode)
                );
            }
        }
    }
    assert_eq!(reset.found, None);
}

#[test]
fn the_found_plan_is_the_first_available_one_with_a_due_trigger() {
    let mut store: ExecutionPlanStore<()> = ExecutionPlanStore::default();
    let mut policy: Policy<()> = Policy::new();
    let stream = TestStream::new(3);
    let waiting = store.add(ExecutionPlan {
        operations: stream.operations[0..1].to_vec(),
        triggers: vec![ExecutionTrigger::OnOperations(stream.operations[1..3].to_vec())],
        optimization: BlockOptimization::new(ExecutionStrategy::operations(1), Vec::new()),
    });
    let eager = store.add(ExecutionPlan {
        operations: stream.operations[0..2].to_vec(),
        triggers: vec![ExecutionTrigger::Always],
        optimization: BlockOptimization::new(ExecutionStrategy::operations(2), Vec::new()),
    });
    policy.update(&store, &stream.operations[0]);
    assert_eq!(policy.found, None);
    policy.update(&store, &stream.operations[1]);
    assert_eq!(policy.found, Some((eager, 2)));
    policy.update(&store, &stream.operations[2]);
    assert_eq!(policy.found, Some((waiting, 1)));
}
