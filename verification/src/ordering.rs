use std::sync::Arc;
use vstd::prelude::*;

verus! {

/// An operation that can run on its own, outside any optimization, against the
/// tensor handles `H`.
pub trait Operation<H> {
    /// Whether running the operation can take the handles from `before` to `after`.
    spec fn runs(&self, before: H, after: H) -> bool;

    /// Run the operation.
    fn execute(&self, handles: &mut H)
        ensures
            self.runs(*old(handles), *final(handles)),
    ;
}

/// An optimization that runs a block of operations as one, given a context `C`.
pub trait Optimization<C, Op>: Sized {
    /// The number of operations the optimization covers.
    spec fn spec_len(&self) -> usize;

    /// Whether running the optimization once, over `execution`, can take the context from
    /// `before` to `after` and leave the optimization as `next`.
    spec fn executes(&self, execution: OrderedExecutionView<Op>, before: C, after: C, next: Self) -> bool;

    /// The number of operations the optimization covers.
    fn len(&self) -> (n: usize)
        ensures
            n == self.spec_len(),
    ;

    /// Run the optimization; `execution` gives access to the operations it covers, so that
    /// the optimization can fall back on running them one by one. The ordering of the
    /// covered operations is installed before the optimization runs.
    fn execute(&mut self, context: &mut C, execution: &OrderedExecution<Op>)
        requires
            execution@.ordering is Some,
            execution@.ordering.unwrap().len() <= execution@.operations.len(),
        ensures
            old(self).executes(execution@, *old(context), *final(context), *final(self)),
    ;
}

/// Whether `states` are the successive handles of running, in order, the operations at
/// the positions `ordering` of `operations`: each operation takes the handles from one
/// state to the next.
pub open spec fn is_run<H, Op: Operation<H>>(
    operations: Seq<UnfusedOp<Op>>,
    ordering: Seq<usize>,
    states: Seq<H>,
) -> bool {
    &&& states.len() == ordering.len() + 1
    &&& forall|k: int|
        #![trigger ordering[k]]
        0 <= k < ordering.len() ==> (*operations[ordering[k] as int]).runs(states[k], states[k + 1])
}

/// Whether running, in order, the operations at the positions `ordering` of `operations`
/// can take the handles from `before` to `after`.
pub open spec fn runs_in_order<H, Op: Operation<H>>(
    operations: Seq<UnfusedOp<Op>>,
    ordering: Seq<usize>,
    before: H,
    after: H,
) -> bool {
    exists|states: Seq<H>|
        #[trigger] is_run(operations, ordering, states) && states[0] == before && states.last() == after
}

/// An operation kept to run on its own.
pub type UnfusedOp<Op> = Arc<Op>;

/// The state of an ordered execution as a mathematical value.
pub struct OrderedExecutionView<Op> {
    pub operations: Seq<UnfusedOp<Op>>,
    pub num_executed: nat,
    pub ordering: Option<Seq<usize>>,
}

/// Manage the execution of potentially multiple optimizations and operations out of order.
pub struct OrderedExecution<Op> {
    operations: Vec<UnfusedOp<Op>>,
    num_executed: usize,
    ordering: Option<Arc<Vec<usize>>>,
}

impl<Op> View for OrderedExecution<Op> {
    type V = OrderedExecutionView<Op>;

    closed spec fn view(&self) -> OrderedExecutionView<Op> {
        OrderedExecutionView {
            operations: self.operations@,
            num_executed: self.num_executed as nat,
            ordering: match self.ordering {
                Some(o) => Some(o@),
                None => None,
            },
        }
    }
}

impl<Op> OrderedExecution<Op> {
    /// Returns the operation that can be executed without impacting the state of the execution.
    ///
    /// This is useful to implement fallback for optimizations.
    pub fn operation_within_optimization(&self, index: usize) -> (op: UnfusedOp<Op>)
        requires
            self@.ordering is Some,
            index < self@.ordering.unwrap().len(),
            self@.ordering.unwrap()[index as int] < self@.operations.len(),
        ensures
            op == self@.operations[self@.ordering.unwrap()[index as int] as int],
    {
        let ordering = self.ordering.as_ref().unwrap();
        let position = ordering[index];
        self.operations[position].clone()
    }

    /// Start an execution over `operations`, with nothing executed yet.
    pub fn new(operations: Vec<UnfusedOp<Op>>) -> (execution: Self)
        ensures
            execution@ == (OrderedExecutionView { operations: operations@, num_executed: 0, ordering: None }),
    {
        OrderedExecution { operations, num_executed: 0, ordering: None }
    }

    /// End the execution: the operations not executed, in their order, and the number of
    /// operations executed.
    pub fn finish(self) -> (result: (Vec<UnfusedOp<Op>>, usize))
        requires
            self@.num_executed <= self@.operations.len(),
        ensures
            result.0@ == self@.operations.skip(self@.num_executed as int),
            result.1 == self@.num_executed,
    {
        let mut operations = self.operations;
        let remaining = operations.split_off(self.num_executed);
        proof {
            assert(remaining@ =~= self@.operations.skip(self@.num_executed as int));
        }
        (remaining, self.num_executed)
    }

    /// Run `optimization` once over the operations at the positions `ordering`, then count
    /// the operations it covers as executed.
    ///
    /// The ordering is installed before the optimization runs, and the count of executed
    /// operations grows by the optimization's length read before it runs, stopping at the
    /// largest `usize`.
    pub fn execute_optimization<C, Opt: Optimization<C, Op>>(
        &mut self,
        optimization: &mut Opt,
        context: &mut C,
        ordering: Arc<Vec<usize>>,
    )
        requires
            ordering@.len() <= old(self)@.operations.len(),
        ensures
            final(self)@ == (OrderedExecutionView {
                operations: old(self)@.operations,
                num_executed: if old(self)@.num_executed + old(optimization).spec_len() <= usize::MAX {
                    old(self)@.num_executed + old(optimization).spec_len() as nat
                } else {
                    usize::MAX as nat
                },
                ordering: Some(ordering@),
            }),
            old(optimization).executes(
                (OrderedExecutionView {
                    operations: old(self)@.operations,
                    num_executed: old(self)@.num_executed,
                    ordering: Some(ordering@),
                }),
                *old(context),
                *final(context),
                *final(optimization),
            ),
    {
        self.ordering = Some(ordering);
        let num_drained = optimization.len();
        optimization.execute(context, self);
        self.record_executed(num_drained);
    }

    /// Count `num_drained` more operations as executed; the count stops at the largest
    /// `usize`.
    pub fn record_executed(&mut self, num_drained: usize)
        ensures
            final(self)@ == (OrderedExecutionView {
                num_executed: if old(self)@.num_executed + num_drained <= usize::MAX {
                    old(self)@.num_executed + num_drained as nat
                } else {
                    usize::MAX as nat
                },
                ..old(self)@
            }),
    {
        self.num_executed = self.num_executed.saturating_add(num_drained);
    }

    /// Run, one by one, the operations at the positions `ordering`.
    pub fn execute_operations<H>(&mut self, handles: &mut H, ordering: &[usize])
        where Op: Operation<H>,
        requires
            forall|k: int| 0 <= k < ordering@.len() ==> #[trigger] ordering@[k] < old(self)@.operations.len(),
            old(self)@.num_executed + ordering@.len() <= usize::MAX,
        ensures
            final(self)@ == (OrderedExecutionView {
                num_executed: old(self)@.num_executed + ordering@.len(),
                ..old(self)@
            }),
            runs_in_order(old(self)@.operations, ordering@, *old(handles), *final(handles)),
    {
        self.num_executed = self.num_executed + ordering.len();
        let ghost mut states = seq![*handles];
        let mut i: usize = 0;
        while i < ordering.len()
            invariant
                0 <= i <= ordering@.len(),
                self@ == (OrderedExecutionView {
                    num_executed: old(self)@.num_executed + ordering@.len(),
                    ..old(self)@
                }),
                forall|k: int| 0 <= k < ordering@.len() ==> #[trigger] ordering@[k] < self@.operations.len(),
                is_run(self@.operations, ordering@.take(i as int), states),
                states[0] == *old(handles),
                states.last() == *handles,
            decreases ordering@.len() - i,
        {
            let id = ordering[i];
            let op: &Op = &self.operations[id];
            let ghost before = *handles;
            op.execute(handles);
            proof {
                let done = ordering@.take(i + 1);
                let previous = states;
                states = states.push(*handles);
                assert forall|k: int| 0 <= k < done.len() implies (*self@.operations[done[k] as int]).runs(
                    #[trigger] states[k],
                    states[k + 1],
                ) by {
                    if k < i {
                        assert(done[k] == ordering@.take(i as int)[k]);
                    }
                }
                assert(is_run(self@.operations, done, states));
            }
            i = i + 1;
        }
        proof {
            assert(ordering@.take(ordering@.len() as int) =~= ordering@);
            assert(is_run(self@.operations, ordering@, states));
        }
    }
}

} // verus!
