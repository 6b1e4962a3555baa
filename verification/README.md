# cortex_fusion

The planning side of operation fusion, with contracts and proofs.

- `src/strategy.rs` — execution strategies and how far their orderings reach
  (`required_operations`), with the laws that the reach is the largest position plus one,
  depends only on the positions named, and bounds the count of distinct positions.
- `src/operation.rs` — operations as the planner compares them.
- `src/validator.rs` — validators that match incoming operations against a reference list.
- `src/store.rs` — the store of execution plans and their triggers.
- `src/policy.rs` — the policy that tracks the plans still possible for the current stream
  segment and decides whether to explore, defer or execute; its `action` never executes a
  plan against fewer operations than the plan's orderings reach.
- `src/tracking.rs` — the law that the policy's candidates and available plans are exactly
  the plans compatible with the operations analyzed.
- `src/triggers.rs` — the law that the found plan is the first available plan with a due
  trigger.
- `src/ordering.rs` — the ordered execution of optimizations and single operations.
- `src/activation.rs` — activation modules' constructors and display names.
- `src/doc.rs` — the decisions of the documentation command.
- `app/` — the documentation command itself and serializable copies of the planner's types.
