use crate::operation::OperationIr;
use crate::strategy::ExecutionStrategy;
use vstd::prelude::*;

verus! {

/// The trigger that indicates when to stop exploring.
#[derive(Debug, PartialEq)]
pub enum ExecutionTrigger {
    /// Run the plan once these operations follow it.
    OnOperations(Vec<OperationIr>),
    /// Run the plan when the stream is synchronized.
    OnSync,
    /// Run the plan as soon as it is matched.
    Always,
}

/// What a trigger says, as a mathematical value.
pub enum TriggerView {
    OnOperations(Seq<OperationIr>),
    OnSync,
    Always,
}

impl View for ExecutionTrigger {
    type V = TriggerView;

    open spec fn view(&self) -> TriggerView {
        match self {
            ExecutionTrigger::OnOperations(ops) => TriggerView::OnOperations(ops@),
            ExecutionTrigger::OnSync => TriggerView::OnSync,
            ExecutionTrigger::Always => TriggerView::Always,
        }
    }
}

/// The operations a trigger waits for; none for a trigger that does not wait
/// for operations.
pub open spec fn trigger_operations(t: ExecutionTrigger) -> Seq<OperationIr> {
    match t {
        ExecutionTrigger::OnOperations(ops) => ops@,
        _ => Seq::empty(),
    }
}

/// The views of a list of triggers.
pub open spec fn trigger_views(triggers: Seq<ExecutionTrigger>) -> Seq<TriggerView> {
    triggers.map_values(|t: ExecutionTrigger| t@)
}

/// Whether two triggers say the same thing.
pub fn same_trigger(a: &ExecutionTrigger, b: &ExecutionTrigger) -> (same: bool)
    ensures
        same == (a@ == b@),
{
    match (a, b) {
        (ExecutionTrigger::OnOperations(x), ExecutionTrigger::OnOperations(y)) => {
            if x.len() != y.len() {
                proof {
                    assert(x@.len() != y@.len());
                }
                return false;
            }
            let mut i: usize = 0;
            while i < x.len()
                invariant
                    x@.len() == y@.len(),
                    a@ == TriggerView::OnOperations(x@),
                    b@ == TriggerView::OnOperations(y@),
                    0 <= i <= x@.len(),
                    forall|k: int| 0 <= k < i ==> x@[k] == y@[k],
                decreases x@.len() - i,
            {
                if x[i] != y[i] {
                    proof {
                        assert(x@[i as int] != y@[i as int]);
                        assert(x@ != y@);
                    }
                    return false;
                }
                i = i + 1;
            }
            proof {
                assert(x@ =~= y@);
            }
            true
        },
        (ExecutionTrigger::OnSync, ExecutionTrigger::OnSync) => true,
        (ExecutionTrigger::Always, ExecutionTrigger::Always) => true,
        _ => false,
    }
}

/// An optimization found for a block of operations, with the strategy that
/// executes it.
#[derive(Debug)]
pub struct BlockOptimization<O> {
    /// How the block's operations are executed.
    pub strategy: ExecutionStrategy<O>,
    /// The positions of the block's operations in the stream.
    pub ordering: Vec<usize>,
}

impl<O> BlockOptimization<O> {
    /// Pair a strategy with the positions of the operations it covers.
    pub fn new(strategy: ExecutionStrategy<O>, ordering: Vec<usize>) -> (b: Self)
        ensures
            b.strategy == strategy,
            b.ordering == ordering,
    {
        BlockOptimization { strategy, ordering }
    }
}

/// The unique identifier for an exploration that was executed.
pub type ExecutionPlanId = usize;

/// The outcome of an exploration that can be stored.
#[derive(Debug)]
pub struct ExecutionPlan<O> {
    /// The operations on which the exploration is related to.
    pub operations: Vec<OperationIr>,
    /// The criteria that signal when this plan should be executed. Only one trigger is necessary.
    pub triggers: Vec<ExecutionTrigger>,
    /// The optimization that should be used when executing this plan.
    pub optimization: BlockOptimization<O>,
}

/// A question put to the store.
pub enum SearchQuery<'a> {
    /// The plans whose first operation is the given one.
    PlansStartingWith(&'a OperationIr),
}

/// The identifiers, in increasing order, of the plans whose first operation is `op`.
pub open spec fn plans_starting_with<O>(plans: Seq<ExecutionPlan<O>>, op: OperationIr) -> Seq<usize> {
    Seq::new(plans.len(), |i: int| i as usize).filter(starts_with(plans, op))
}

/// Whether the plan with identifier `id` starts with the operation `op`.
pub open spec fn starts_with<O>(plans: Seq<ExecutionPlan<O>>, op: OperationIr) -> spec_fn(usize) -> bool {
    |id: usize| plans[id as int].operations@.len() > 0 && plans[id as int].operations@[0] == op
}

/// The store that contains all explorations done on a device.
pub struct ExecutionPlanStore<O> {
    plans: Vec<ExecutionPlan<O>>,
}

impl<O> ExecutionPlanStore<O> {
    /// The stored plans; a plan's identifier is its position.
    pub closed spec fn plans(&self) -> Seq<ExecutionPlan<O>> {
        self.plans@
    }

    /// Every stored plan covers at least one operation.
    pub open spec fn wf(&self) -> bool {
        forall|i: int| 0 <= i < self.plans().len() ==> #[trigger] self.plans()[i].operations@.len() > 0
    }

    /// An empty store.
    pub fn new() -> (s: Self)
        ensures
            s.plans() == Seq::<ExecutionPlan<O>>::empty(),
            s.wf(),
    {
        ExecutionPlanStore { plans: Vec::new() }
    }

    /// The identifiers of the plans that answer `query`, in increasing order.
    pub fn find(&self, query: SearchQuery<'_>) -> (ids: Vec<ExecutionPlanId>)
        ensures
            ids@ == match query {
                SearchQuery::PlansStartingWith(op) => plans_starting_with(self.plans(), *op),
            },
    {
        match query {
            SearchQuery::PlansStartingWith(op) => {
                let mut ids: Vec<usize> = Vec::new();
                let mut i: usize = 0;
                let ghost all = Seq::new(self.plans@.len(), |i: int| i as usize);
                let ghost pred = starts_with(self.plans@, *op);
                while i < self.plans.len()
                    invariant
                        0 <= i <= self.plans@.len(),
                        all == Seq::new(self.plans@.len(), |i: int| i as usize),
                        pred == starts_with(self.plans@, *op),
                        ids@ == all.take(i as int).filter(pred),
                    decreases self.plans@.len() - i,
                {
                    proof {
                        assert(all.take(i + 1) =~= all.take(i as int).push(i));
                        all.take(i as int).lemma_filter_push(i, pred);
                    }
                    let plan = &self.plans[i];
                    if plan.operations.len() > 0 && plan.operations[0] == *op {
                        ids.push(i);
                    }
                    i = i + 1;
                }
                proof {
                    assert(all.take(self.plans@.len() as int) =~= all);
                }
                ids
            },
        }
    }

    /// Store a new plan; its identifier is the number of plans stored before it.
    pub fn add(&mut self, exploration: ExecutionPlan<O>) -> (id: ExecutionPlanId)
        requires
            exploration.operations@.len() > 0,
        ensures
            id == old(self).plans().len(),
            final(self).plans() == old(self).plans().push(exploration),
            old(self).wf() ==> final(self).wf(),
    {
        let id = self.plans.len();
        self.plans.push(exploration);
        id
    }

    /// The plan stored under `id`, to modify.
    pub fn get_mut_unchecked(&mut self, id: ExecutionPlanId) -> (plan: &mut ExecutionPlan<O>)
        requires
            id < old(self).plans().len(),
        ensures
            *plan == old(self).plans()[id as int],
            final(self).plans() == old(self).plans().update(id as int, *final(plan)),
    {
        &mut self.plans[id]
    }

    /// The plan stored under `id`.
    pub fn get_unchecked(&self, id: ExecutionPlanId) -> (plan: &ExecutionPlan<O>)
        requires
            id < self.plans().len(),
        ensures
            *plan == self.plans()[id as int],
    {
        &self.plans[id]
    }

    /// Add a new end condition for an optimization, unless the plan already has
    /// the same one.
    pub fn add_trigger(&mut self, id: ExecutionPlanId, trigger: ExecutionTrigger)
        requires
            id < old(self).plans().len(),
        ensures
            final(self).plans().len() == old(self).plans().len(),
            forall|j: int|
                0 <= j < old(self).plans().len() && j != id ==> final(self).plans()[j] == old(
                    self,
                ).plans()[j],
            final(self).plans()[id as int].operations == old(self).plans()[id as int].operations,
            final(self).plans()[id as int].optimization == old(
                self,
            ).plans()[id as int].optimization,
            final(self).plans()[id as int].triggers@ == if trigger_views(
                old(self).plans()[id as int].triggers@,
            ).contains(trigger@) {
                old(self).plans()[id as int].triggers@
            } else {
                old(self).plans()[id as int].triggers@.push(trigger)
            },
            old(self).wf() ==> final(self).wf(),
    {
        if !contains_trigger(&self.plans[id].triggers, &trigger) {
            self.plans[id].triggers.push(trigger);
        }
    }
}

/// Whether `triggers` holds a trigger that says the same as `trigger`.
fn contains_trigger(triggers: &Vec<ExecutionTrigger>, trigger: &ExecutionTrigger) -> (found: bool)
    ensures
        found == trigger_views(triggers@).contains(trigger@),
{
    let mut i: usize = 0;
    while i < triggers.len()
        invariant
            0 <= i <= triggers@.len(),
            forall|k: int| 0 <= k < i ==> triggers@[k]@ != trigger@,
        decreases triggers@.len() - i,
    {
        if same_trigger(&triggers[i], trigger) {
            proof {
                assert(trigger_views(triggers@)[i as int] == trigger@);
            }
            return true;
        }
        i = i + 1;
    }
    false
}

impl<O> Default for ExecutionPlanStore<O> {
    fn default() -> (s: Self)
        ensures
            s.plans() == Seq::<ExecutionPlan<O>>::empty(),
    {
        ExecutionPlanStore { plans: Vec::new() }
    }
}

/// The plans found for an operation are exactly those whose first operation is that
/// operation, all of it (kind, input and output), each once and in increasing order.
pub proof fn lemma_found_plans_start_with<O>(plans: Seq<ExecutionPlan<O>>, op: OperationIr)
    requires
        plans.len() <= usize::MAX,
    ensures
        forall|k: int|
            0 <= k < plans_starting_with(plans, op).len() ==> {
                let id = #[trigger] plans_starting_with(plans, op)[k];
                &&& id < plans.len()
                &&& plans[id as int].operations@.len() > 0
                &&& plans[id as int].operations@[0].kind == op.kind
                &&& plans[id as int].operations@[0].input == op.input
                &&& plans[id as int].operations@[0].out == op.out
            },
        forall|id: usize|
            id < plans.len() && plans[id as int].operations@.len() > 0 && #[trigger] plans[id as int].operations@[0]
                == op ==> plans_starting_with(plans, op).contains(id),
        forall|i: int, j: int|
            0 <= i < j < plans_starting_with(plans, op).len() ==> #[trigger] plans_starting_with(plans, op)[i]
                < #[trigger] plans_starting_with(plans, op)[j],
{
    let all = Seq::new(plans.len(), |i: int| i as usize);
    let pred = starts_with(plans, op);
    let found = all.filter(pred);
    assert forall|k: int| 0 <= k < found.len() implies {
        let id = #[trigger] found[k];
        &&& id < plans.len()
        &&& plans[id as int].operations@.len() > 0
        &&& plans[id as int].operations@[0].kind == op.kind
        &&& plans[id as int].operations@[0].input == op.input
        &&& plans[id as int].operations@[0].out == op.out
    } by {
        let id = found[k];
        assert(found.contains(id));
        all.lemma_filter_contains_rev(pred, id);
        assert(pred(id));
    }
    assert forall|id: usize|
        id < plans.len() && plans[id as int].operations@.len() > 0 && #[trigger] plans[id as int].operations@[0]
            == op implies found.contains(id) by {
        assert(all[id as int] == id);
        all.lemma_filter_contains(pred, id as int);
    }
    lemma_filter_increasing(all, pred);
}

/// Filtering an increasing sequence keeps it increasing.
proof fn lemma_filter_increasing(s: Seq<usize>, pred: spec_fn(usize) -> bool)
    requires
        forall|i: int, j: int| 0 <= i < j < s.len() ==> #[trigger] s[i] < #[trigger] s[j],
    ensures
        forall|i: int, j: int| 0 <= i < j < s.filter(pred).len() ==> #[trigger] s.filter(pred)[i] < #[trigger] s.filter(pred)[j],
    decreases s.len(),
{
    reveal(Seq::filter);
    if s.len() > 0 {
        let rest = s.drop_last();
        lemma_filter_increasing(rest, pred);
        let fr = rest.filter(pred);
        assert forall|i: int, j: int| 0 <= i < j < s.filter(pred).len() implies #[trigger] s.filter(pred)[i] < #[trigger] s.filter(pred)[j] by {
            assert(s.filter(pred)[i] == fr[i]);
            if pred(s.last()) && j == fr.len() {
                assert(fr.contains(fr[i]));
                rest.lemma_filter_contains_rev(pred, fr[i]);
                let k = choose|k: int| 0 <= k < rest.len() && rest[k] == fr[i];
                assert(s[k] == rest[k]);
            } else {
                assert(s.filter(pred)[j] == fr[j]);
            }
        }
    }
}

} // verus!
