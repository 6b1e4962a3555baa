use cortex_fusion::ordering::{Operation, Optimization, OrderedExecution, OrderedExecutionView};
use std::sync::Arc;

/// An operation that records its label in the handles when it runs.
#[derive(Debug, PartialEq)]
struct Recorded(u32);

impl Operation<Vec<u32>> for Recorded {
    fn runs(&self, before: Vec<u32>, after: Vec<u32>) -> bool {
        let mut expected = before;
        expected.push(self.0);
        after == expected
    }

    fn execute(&self, handles: &mut Vec<u32>) {
        handles.push(self.0);
    }
}

/// An optimization that falls back on running its operations one by one.
struct Fallback {
    len: usize,
}

impl Optimization<Vec<u32>, Recorded> for Fallback {
    fn spec_len(&self) -> usize {
        self.len
    }

    fn executes(
        &self,
        _execution: OrderedExecutionView<Recorded>,
        before: Vec<u32>,
        after: Vec<u32>,
        _next: Self,
    ) -> bool {
        after.len() == before.len() + self.len
    }

    fn len(&self) -> usize {
        self.len
    }

    fn execute(&mut self, context: &mut Vec<u32>, execution: &OrderedExecution<Recorded>) {
        for index in 0..self.len {
            execution.operation_within_optimization(index).execute(context);
        }
    }
}

fn operations(labels: &[u32]) -> Vec<Arc<Recorded>> {
    labels.iter().map(|l| Arc::new(Recorded(*l))).collect()
}

#[test]
fn operations_run_in_the_given_order_and_finish_returns_the_rest() {
    let mut execution = OrderedExecution::new(operations(&[10, 11, 12, 13]));
    let mut handles = Vec::new();
    execution.execute_operations(&mut handles, &[1, 0]);
    assert_eq!(handles, vec![11, 10]);
    let (rest, executed) = execution.finish();
    assert_eq!(executed, 2);
    let rest: Vec<u32> = rest.iter().map(|o| o.0).collect();
    assert_eq!(rest, vec![12, 13]);
}

#[test]
fn an_optimization_reaches_its_operations_through_the_ordering() {
    let mut execution = OrderedExecution::new(operations(&[10, 11, 12, 13]));
    let mut optimization = Fallback { len: 3 };
    let mut context = Vec::new();
    execution.execute_optimization(&mut optimization, &mut context, Arc::new(vec![2, 0, 3]));
    assert_eq!(context, vec![12, 10, 13]);
    assert_eq!(*execution.operation_within_optimization(1), Recorded(10));
    let (rest, executed) = execution.finish();
    assert_eq!(executed, 3);
    assert_eq!(rest.len(), 1);
    assert_eq!(rest[0].0, 13);
}

#[test]
fn finishing_untouched_returns_everything() {
    let execution = OrderedExecution::new(operations(&[1, 2]));
    let (rest, executed) = execution.finish();
    assert_eq!(executed, 0);
    assert_eq!(rest.len(), 2);
}

#[test]
fn the_executed_count_adds_up_and_stops_at_the_largest_usize() {
    let mut execution = OrderedExecution::new(operations(&[1, 2, 3]));
    execution.record_executed(1);
    execution.record_executed(1);
    let mut other = OrderedExecution::new(operations(&[1]));
    other.record_executed(usize::MAX);
    other.record_executed(5);
    let (rest, executed) = execution.finish();
    assert_eq!(executed, 2);
    assert_eq!(rest.len(), 1);
    let mut handles = Vec::new();
    other.execute_operations(&mut handles, &[]);
    assert!(handles.is_empty());
}
