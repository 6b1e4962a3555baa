use crate::operation::OperationIr;
use crate::store::{ExecutionPlan, ExecutionPlanId, ExecutionPlanStore, ExecutionTrigger, SearchQuery};
use crate::validator::{OperationsValidator, TriggerProgress, TriggerValidator, ValidatorState};
use crate::{store, strategy, validator};
use std::marker::PhantomData;
use vstd::prelude::*;

verus! {

/// Whether the stream is being synchronized while the policy is asked.
#[derive(Clone, Copy, Debug, PartialEq, Eq, Structural)]
pub enum ExecutionMode {
    /// Operations keep arriving; execution may wait.
    Lazy,
    /// The stream must be flushed now.
    Sync,
}

/// Action to be made depending on the stream.
#[derive(PartialEq, Eq, Debug, Structural)]
pub enum Action {
    /// Continue exploring using the optimization builder.
    Explore,
    /// The current policy indicates that an exploration may be possible in the future, so the
    /// best action is to defer any execution.
    ///
    /// Sometimes, it can be a false positive and a new exploration should be built from scratch.
    /// Therefore it's important to keep the previous operations to rebuild the state if it
    /// happens.
    Defer,
    /// An exploration has been found, and the best action is to execute it!
    Execute(ExecutionPlanId),
}

/// A plan whose operations were all matched, with the validators of its triggers.
pub struct AvailableItem {
    /// The plan.
    pub id: ExecutionPlanId,
    /// The number of operations matched.
    pub size: usize,
    /// One validator per trigger of the plan, in the plan's order.
    pub triggers: Vec<TriggerValidator>,
}

impl AvailableItem {
    /// An available plan with the validators of its triggers.
    pub fn new(id: ExecutionPlanId, size: usize, triggers: Vec<TriggerValidator>) -> (item: Self)
        ensures
            item.id == id,
            item.size == size,
            item.triggers == triggers,
    {
        AvailableItem { id, size, triggers }
    }
}

/// An available plan as a mathematical value.
pub struct AvailableView {
    pub id: ExecutionPlanId,
    pub size: usize,
    pub triggers: Seq<TriggerValidator>,
}

/// The mathematical value of an available plan.
pub open spec fn available_view(a: AvailableItem) -> AvailableView {
    AvailableView { id: a.id, size: a.size, triggers: a.triggers@ }
}

/// The state of a policy as a mathematical value.
pub struct PolicyView {
    pub candidates: Seq<OperationsValidator<ExecutionPlanId>>,
    pub availables: Seq<AvailableView>,
    pub found: Option<(ExecutionPlanId, usize)>,
    pub num_operations: nat,
}

/// The state of a policy that has analyzed no operation.
pub open spec fn fresh_policy() -> PolicyView {
    PolicyView {
        candidates: Seq::empty(),
        availables: Seq::empty(),
        found: None,
        num_operations: 0,
    }
}

/// The policy keeps track of all possible execution plans for the current operations.
///
/// Each new operation added is matched against the plans still possible, and a plan is
/// dropped as soon as a different operation arrives, so the work per operation scales with
/// the number of plans that are still possible.
pub struct Policy<O> {
    /// List of potential execution plans that are compatible with current stream segment
    pub candidates: Vec<OperationsValidator<ExecutionPlanId>>,
    /// List of candidate execution plans that have been found; we can still keep searching
    /// to potentially find a better one.
    pub availables: Vec<AvailableItem>,
    /// The found execution plan that should be executed, along with the number of operations
    /// in the plan.
    pub found: Option<(ExecutionPlanId, usize)>,
    /// The number of operations that have been analyzed
    pub num_operations: usize,
    /// The kind of optimization held by the plans of the store the policy reads.
    pub _item_type: PhantomData<O>,
}

impl<O> View for Policy<O> {
    type V = PolicyView;

    open spec fn view(&self) -> PolicyView {
        PolicyView {
            candidates: self.candidates@,
            availables: self.availables@.map_values(|a: AvailableItem| available_view(a)),
            found: self.found,
            num_operations: self.num_operations as nat,
        }
    }
}

/// The operations the trigger `t` of plan `plan_id` waits for.
pub open spec fn watched_operations<O>(
    plans: Seq<ExecutionPlan<O>>,
    plan_id: ExecutionPlanId,
    t: TriggerValidator,
) -> Seq<OperationIr> {
    match t {
        TriggerValidator::OnOperations { matching, .. } => store::trigger_operations(
            plans[plan_id as int].triggers@[matching.id as int],
        ),
        _ => Seq::empty(),
    }
}

/// The validators of a plan's triggers, before any operation follows the plan.
pub open spec fn initial_triggers(triggers: Seq<ExecutionTrigger>) -> Seq<TriggerValidator> {
    Seq::new(
        triggers.len(),
        |i: int|
            match triggers[i] {
                ExecutionTrigger::OnOperations(_) => TriggerValidator::OnOperations {
                    matching: OperationsValidator { id: i as usize, state: ValidatorState::Validating },
                    progress: TriggerProgress::NotInit,
                },
                ExecutionTrigger::OnSync => TriggerValidator::OnSync,
                ExecutionTrigger::Always => TriggerValidator::Always,
            },
    )
}

/// A validator for every plan that starts with `op`.
pub open spec fn seeded_candidates<O>(plans: Seq<ExecutionPlan<O>>, op: OperationIr) -> Seq<
    OperationsValidator<ExecutionPlanId>,
> {
    store::plans_starting_with(plans, op).map_values(
        |id: usize| OperationsValidator { id, state: ValidatorState::Validating },
    )
}

/// Every candidate after `op` arrived at position `position`.
pub open spec fn stepped_candidates<O>(
    cands: Seq<OperationsValidator<ExecutionPlanId>>,
    plans: Seq<ExecutionPlan<O>>,
    op: OperationIr,
    position: nat,
) -> Seq<OperationsValidator<ExecutionPlanId>> {
    cands.map_values(
        |c: OperationsValidator<ExecutionPlanId>|
            validator::validator_step(c, op, position, plans[c.id as int].operations@),
    )
}

/// Whether a candidate has been decided, either found or invalidated.
pub open spec fn settled() -> spec_fn(OperationsValidator<ExecutionPlanId>) -> bool {
    |c: OperationsValidator<ExecutionPlanId>| !(c.state is Validating)
}

/// Whether a candidate matched all the operations of its plan.
pub open spec fn matched() -> spec_fn(OperationsValidator<ExecutionPlanId>) -> bool {
    |c: OperationsValidator<ExecutionPlanId>| c.state is Found
}

/// The plan a candidate stands for.
pub open spec fn candidate_plan() -> spec_fn(OperationsValidator<ExecutionPlanId>) -> ExecutionPlanId {
    |c: OperationsValidator<ExecutionPlanId>| c.id
}

/// Whether a candidate's plan is not among `removed`.
pub open spec fn kept(removed: Seq<ExecutionPlanId>) -> spec_fn(OperationsValidator<ExecutionPlanId>) -> bool {
    |c: OperationsValidator<ExecutionPlanId>| !removed.contains(c.id)
}

/// The plans whose candidates were either found or invalidated.
pub open spec fn settled_ids(cands: Seq<OperationsValidator<ExecutionPlanId>>) -> Seq<ExecutionPlanId> {
    cands.filter(settled()).map_values(candidate_plan())
}

/// The candidates kept: those whose plan was not settled.
pub open spec fn remaining_candidates(cands: Seq<OperationsValidator<ExecutionPlanId>>) -> Seq<
    OperationsValidator<ExecutionPlanId>,
> {
    cands.filter(kept(settled_ids(cands)))
}

/// The available item made of a found candidate.
pub open spec fn found_item<O>(plans: Seq<ExecutionPlan<O>>) -> spec_fn(OperationsValidator<ExecutionPlanId>) -> AvailableView {
    |c: OperationsValidator<ExecutionPlanId>|
        AvailableView {
            id: c.id,
            size: c.state->size,
            triggers: initial_triggers(plans[c.id as int].triggers@),
        }
}

/// The available items made of the found candidates, in candidate order.
pub open spec fn found_items<O>(
    cands: Seq<OperationsValidator<ExecutionPlanId>>,
    plans: Seq<ExecutionPlan<O>>,
) -> Seq<AvailableView> {
    cands.filter(matched()).map_values(found_item(plans))
}

/// An available item after `op` arrived.
pub open spec fn stepped_available<O>(plans: Seq<ExecutionPlan<O>>, a: AvailableView, op: OperationIr) -> AvailableView {
    AvailableView {
        id: a.id,
        size: a.size,
        triggers: a.triggers.map_values(
            |t: TriggerValidator| validator::trigger_step(t, op, watched_operations(plans, a.id, t)),
        ),
    }
}

/// Every available item after `op` arrived.
pub open spec fn stepped_availables<O>(
    avs: Seq<AvailableView>,
    plans: Seq<ExecutionPlan<O>>,
    op: OperationIr,
) -> Seq<AvailableView> {
    avs.map_values(|a: AvailableView| stepped_available(plans, a, op))
}

/// Whether some trigger of the available item fires.
pub open spec fn item_fires(a: AvailableView) -> bool {
    exists|j: int| 0 <= j < a.triggers.len() && validator::trigger_fires(#[trigger] a.triggers[j])
}

/// The first available item, from position `from` on, one of whose triggers fires.
pub open spec fn first_fired(avs: Seq<AvailableView>, from: int) -> Option<(ExecutionPlanId, usize)>
    decreases avs.len() - from,
{
    if from < 0 || from >= avs.len() {
        None
    } else if item_fires(avs[from]) {
        Some((avs[from].id, avs[from].size))
    } else {
        first_fired(avs, from + 1)
    }
}

/// The state of a policy after it analyzed the operation `op`.
pub open spec fn policy_after_update<O>(p: PolicyView, plans: Seq<ExecutionPlan<O>>, op: OperationIr) -> PolicyView {
    let seeded = if p.num_operations == 0 {
        seeded_candidates(plans, op)
    } else {
        p.candidates
    };
    let stepped = stepped_candidates(seeded, plans, op, p.num_operations);
    let availables = stepped_availables(p.availables + found_items(stepped, plans), plans, op);
    PolicyView {
        candidates: remaining_candidates(stepped),
        availables,
        found: match first_fired(availables, 0) {
            Some(f) => Some(f),
            None => p.found,
        },
        num_operations: p.num_operations + 1,
    }
}

/// Whether `n` operations are enough for every position the plan's orderings reach.
pub open spec fn plan_fits<O>(plans: Seq<ExecutionPlan<O>>, id: ExecutionPlanId, n: nat) -> bool {
    n >= strategy::strategy_reach(plans[id as int].optimization.strategy)
}

/// Whether the available item asks to wait: it matched exactly `n` operations, or one of
/// its triggers is still matching.
pub open spec fn item_defers(a: AvailableView, n: nat) -> bool {
    a.size == n || exists|j: int| 0 <= j < a.triggers.len() && validator::trigger_validating(#[trigger] a.triggers[j])
}

/// The action in lazy mode over `n` operations.
pub open spec fn lazy_action(p: PolicyView, n: nat) -> Action {
    if p.candidates.len() > 0 {
        Action::Defer
    } else if exists|i: int| 0 <= i < p.availables.len() && item_defers(#[trigger] p.availables[i], n) {
        Action::Defer
    } else {
        Action::Explore
    }
}

/// The first available item, from position `from` on, that matched exactly `n` operations.
pub open spec fn first_available_of_size(avs: Seq<AvailableView>, n: nat, from: int) -> Option<ExecutionPlanId>
    decreases avs.len() - from,
{
    if from < 0 || from >= avs.len() {
        None
    } else if avs[from].size == n {
        Some(avs[from].id)
    } else {
        first_available_of_size(avs, n, from + 1)
    }
}

/// The first candidate, from position `from` on, whose plan covers exactly `n` operations.
pub open spec fn first_candidate_of_len<O>(
    cands: Seq<OperationsValidator<ExecutionPlanId>>,
    plans: Seq<ExecutionPlan<O>>,
    n: nat,
    from: int,
) -> Option<ExecutionPlanId>
    decreases cands.len() - from,
{
    if from < 0 || from >= cands.len() {
        None
    } else if plans[cands[from].id as int].operations@.len() == n {
        Some(cands[from].id)
    } else {
        first_candidate_of_len(cands, plans, n, from + 1)
    }
}

/// The action in sync mode over `n` operations.
pub open spec fn sync_action<O>(p: PolicyView, plans: Seq<ExecutionPlan<O>>, n: nat) -> Action {
    match first_available_of_size(p.availables, n, 0) {
        Some(id) => Action::Execute(id),
        None => match first_candidate_of_len(p.candidates, plans, n, 0) {
            Some(id) => Action::Execute(id),
            None => Action::Explore,
        },
    }
}

/// Whether a plan was found and fits `n` operations.
pub open spec fn found_fits<O>(p: PolicyView, plans: Seq<ExecutionPlan<O>>, n: nat) -> bool {
    match p.found {
        Some((id, _)) => plan_fits(plans, id, n),
        None => false,
    }
}

/// The action the policy takes over `n` operations: a found plan that fits runs at once;
/// otherwise the mode decides, and a decision to run a plan that does not fit becomes
/// a new exploration.
pub open spec fn policy_action<O>(p: PolicyView, plans: Seq<ExecutionPlan<O>>, n: nat, mode: ExecutionMode) -> Action {
    if found_fits(p, plans, n) {
        Action::Execute(p.found.unwrap().0)
    } else {
        let decided = match mode {
            ExecutionMode::Lazy => lazy_action(p, n),
            ExecutionMode::Sync => sync_action(p, plans, n),
        };
        match decided {
            Action::Execute(id) => if plan_fits(plans, id, n) {
                Action::Execute(id)
            } else {
                Action::Explore
            },
            other => other,
        }
    }
}

/// Every identifier the policy holds names a stored plan, every trigger validator names
/// a trigger of its plan, and no trigger has followed more operations than were analyzed.
pub open spec fn policy_wf<O>(p: PolicyView, plans: Seq<ExecutionPlan<O>>) -> bool {
    &&& forall|i: int| 0 <= i < p.candidates.len() ==> #[trigger] p.candidates[i].id < plans.len()
    &&& forall|i: int| 0 <= i < p.availables.len() ==> available_wf(#[trigger] p.availables[i], plans, p.num_operations)
    &&& match p.found {
        Some((id, _)) => id < plans.len(),
        None => true,
    }
}

pub open spec fn available_wf<O>(a: AvailableView, plans: Seq<ExecutionPlan<O>>, bound: nat) -> bool {
    &&& a.id < plans.len()
    &&& forall|j: int| 0 <= j < a.triggers.len() ==> trigger_wf(#[trigger] a.triggers[j], plans[a.id as int].triggers@.len(), bound)
}

pub open spec fn trigger_wf(t: TriggerValidator, num_triggers: nat, bound: nat) -> bool {
    match t {
        TriggerValidator::OnOperations { matching, progress } => {
            &&& matching.id < num_triggers
            &&& match progress {
                TriggerProgress::NumChecked(n) => n <= bound,
                TriggerProgress::NotInit => true,
            }
        },
        _ => true,
    }
}

/// Every plan's orderings reach no further than a `usize` can count.
pub open spec fn reaches_fit<O>(plans: Seq<ExecutionPlan<O>>) -> bool {
    forall|i: int| 0 <= i < plans.len() ==> strategy::strategy_reach(#[trigger] plans[i].optimization.strategy) <= usize::MAX
}

impl<O> Policy<O> {
    /// Whether the policy's state is consistent with the plans of `store`.
    pub open spec fn wf(&self, store: &ExecutionPlanStore<O>) -> bool {
        policy_wf(self@, store.plans())
    }

    /// Create a new policy.
    pub fn new() -> (p: Self)
        ensures
            p@ == fresh_policy(),
    {
        let p = Policy {
            candidates: Vec::new(),
            availables: Vec::new(),
            found: None,
            num_operations: 0,
            _item_type: PhantomData,
        };
        proof {
            assert(p@.availables =~= Seq::<AvailableView>::empty());
        }
        p
    }

    /// Reset the state of the policy.
    pub fn reset(&mut self)
        ensures
            final(self)@ == fresh_policy(),
    {
        self.candidates.clear();
        self.availables.clear();
        self.num_operations = 0;
        self.found = None;
        proof {
            assert(self@.availables =~= Seq::<AvailableView>::empty());
        }
    }
}

impl<O> Policy<O> {
    /// Returns the [action](Action) that should be taken given the state of the policy.
    ///
    /// A plan is only ever executed against enough operations for every position its
    /// orderings reach, whichever way the decision was reached.
    pub fn action(&self, store: &ExecutionPlanStore<O>, operations: &[OperationIr], mode: ExecutionMode) -> (action: Action)
        requires
            self.wf(store),
            reaches_fit(store.plans()),
            operations@.len() <= self.num_operations,
        ensures
            action == policy_action(self@, store.plans(), operations@.len(), mode),
    {
        if let Some((id, _)) = self.found {
            if Self::plan_fits(store, id, operations) {
                return Action::Execute(id);
            }
        }
        let action = match mode {
            ExecutionMode::Lazy => self.action_lazy(operations),
            ExecutionMode::Sync => self.action_sync(operations, store),
        };
        match action {
            Action::Execute(id) => {
                if Self::plan_fits(store, id, operations) {
                    Action::Execute(id)
                } else {
                    Action::Explore
                }
            },
            other => other,
        }
    }

    /// Whether `operations` is long enough for every index this plan's orderings will reach.
    fn plan_fits(store: &ExecutionPlanStore<O>, id: ExecutionPlanId, operations: &[OperationIr]) -> (fits: bool)
        requires
            id < store.plans().len(),
            reaches_fit(store.plans()),
        ensures
            fits == plan_fits(store.plans(), id, operations@.len()),
    {
        let plan = store.get_unchecked(id);
        proof {
            assert(strategy::strategy_reach(store.plans()[id as int].optimization.strategy) <= usize::MAX);
        }
        operations.len() >= plan.optimization.strategy.required_operations()
    }

    #[verifier::loop_isolation(false)]
    fn action_lazy(&self, operations: &[OperationIr]) -> (action: Action)
        ensures
            action == lazy_action(self@, operations@.len()),
    {
        if self.candidates.len() > 0 {
            return Action::Defer;
        }
        let ghost p = self@;
        let mut i: usize = 0;
        while i < self.availables.len()
            invariant
                0 <= i <= self.availables@.len(),
                p == self@,
                p.candidates.len() == 0,
                forall|k: int| 0 <= k < i ==> !item_defers(#[trigger] p.availables[k], operations@.len()),
            decreases self.availables@.len() - i,
        {
            let available = &self.availables[i];
            proof {
                assert(p.availables[i as int] == available_view(*available));
            }
            if available.size == operations.len() {
                proof {
                    assert(item_defers(p.availables[i as int], operations@.len()));
                }
                return Action::Defer;
            }
            let mut j: usize = 0;
            while j < available.triggers.len()
                invariant
                    0 <= j <= available.triggers@.len(),
                    forall|k: int| 0 <= k < j ==> !validator::trigger_validating(#[trigger] available.triggers@[k]),
                decreases available.triggers@.len() - j,
            {
                if let TriggerValidator::OnOperations { matching, .. } = available.triggers[j] {
                    if let ValidatorState::Validating = matching.state {
                        proof {
                            assert(validator::trigger_validating(available.triggers@[j as int]));
                            assert(validator::trigger_validating(p.availables[i as int].triggers[j as int]));
                            assert(item_defers(p.availables[i as int], operations@.len()));
                        }
                        return Action::Defer;
                    }
                }
                j = j + 1;
            }
            proof {
                assert(!item_defers(p.availables[i as int], operations@.len()));
            }
            i = i + 1;
        }
        Action::Explore
    }

    #[verifier::loop_isolation(false)]
    fn action_sync(&self, operations: &[OperationIr], store: &ExecutionPlanStore<O>) -> (action: Action)
        requires
            self.wf(store),
        ensures
            action == sync_action(self@, store.plans(), operations@.len()),
            action matches Action::Execute(id) ==> id < store.plans().len(),
    {
        let ghost p = self@;
        let ghost n = operations@.len();
        let mut i: usize = 0;
        while i < self.availables.len()
            invariant
                0 <= i <= self.availables@.len(),
                p == self@,
                first_available_of_size(p.availables, n, 0) == first_available_of_size(p.availables, n, i as int),
            decreases self.availables@.len() - i,
        {
            proof {
                assert(p.availables[i as int] == available_view(self.availables@[i as int]));
            }
            if self.availables[i].size == operations.len() {
                proof {
                    assert(first_available_of_size(p.availables, n, i as int) == Some(p.availables[i as int].id));
                    assert(available_wf(p.availables[i as int], store.plans(), p.num_operations));
                }
                return Action::Execute(self.availables[i].id);
            }
            proof {
                assert(first_available_of_size(p.availables, n, i as int) == first_available_of_size(p.availables, n, i + 1));
            }
            i = i + 1;
        }
        let mut i: usize = 0;
        while i < self.candidates.len()
            invariant
                0 <= i <= self.candidates@.len(),
                p == self@,
                self.wf(store),
                first_available_of_size(p.availables, n, 0) is None,
                first_candidate_of_len(p.candidates, store.plans(), n, 0) == first_candidate_of_len(
                    p.candidates,
                    store.plans(),
                    n,
                    i as int,
                ),
            decreases self.candidates@.len() - i,
        {
            let candidate = self.candidates[i];
            proof {
                assert(candidate.id < store.plans().len());
            }
            let item = store.get_unchecked(candidate.id);
            if item.operations.len() == operations.len() {
                proof {
                    assert(first_candidate_of_len(p.candidates, store.plans(), n, i as int) == Some(candidate.id));
                }
                return Action::Execute(candidate.id);
            }
            proof {
                assert(first_candidate_of_len(p.candidates, store.plans(), n, i as int) == first_candidate_of_len(p.candidates, store.plans(), n, i + 1));
            }
            i = i + 1;
        }
        Action::Explore
    }
}

/// Filtering then mapping a sequence extended by one element extends the result by that
/// element's image when the element passes the filter.
proof fn lemma_filter_map_push<A, B>(s: Seq<A>, x: A, pred: spec_fn(A) -> bool, f: spec_fn(A) -> B)
    ensures
        s.push(x).filter(pred).map_values(f) == if pred(x) {
            s.filter(pred).map_values(f).push(f(x))
        } else {
            s.filter(pred).map_values(f)
        },
{
    s.lemma_filter_push(x, pred);
    if pred(x) {
        assert(s.filter(pred).push(x).map_values(f) =~= s.filter(pred).map_values(f).push(f(x)));
    }
}

/// The validators of `triggers` before any operation follows their plan.
fn initial_trigger_validators(triggers: &Vec<ExecutionTrigger>) -> (validators: Vec<TriggerValidator>)
    ensures
        validators@ == initial_triggers(triggers@),
{
    let mut validators: Vec<TriggerValidator> = Vec::with_capacity(triggers.len());
    let mut index: usize = 0;
    while index < triggers.len()
        invariant
            0 <= index <= triggers@.len(),
            validators@ == initial_triggers(triggers@).take(index as int),
        decreases triggers@.len() - index,
    {
        let validator = match &triggers[index] {
            ExecutionTrigger::OnOperations(_) => TriggerValidator::OnOperations {
                matching: OperationsValidator::new(index),
                progress: TriggerProgress::NotInit,
            },
            ExecutionTrigger::OnSync => TriggerValidator::OnSync,
            ExecutionTrigger::Always => TriggerValidator::Always,
        };
        validators.push(validator);
        proof {
            assert(initial_triggers(triggers@).take(index + 1) =~= initial_triggers(triggers@).take(
                index as int,
            ).push(validator));
        }
        index = index + 1;
    }
    proof {
        assert(initial_triggers(triggers@).take(triggers@.len() as int) =~= initial_triggers(triggers@));
    }
    validators
}

/// Whether `ids` holds `id`.
fn contains_id(ids: &Vec<ExecutionPlanId>, id: ExecutionPlanId) -> (found: bool)
    ensures
        found == ids@.contains(id),
{
    let mut i: usize = 0;
    while i < ids.len()
        invariant
            0 <= i <= ids@.len(),
            forall|k: int| 0 <= k < i ==> ids@[k] != id,
        decreases ids@.len() - i,
    {
        if ids[i] == id {
            proof {
                assert(ids@[i as int] == id);
            }
            return true;
        }
        i = i + 1;
    }
    false
}

impl<O> Policy<O> {
    /// Record the first available plan with a trigger that fires, if any.
    #[verifier::loop_isolation(false)]
    fn check_availables(&mut self)
        ensures
            final(self)@ == (PolicyView {
                found: match first_fired(old(self)@.availables, 0) {
                    Some(f) => Some(f),
                    None => old(self)@.found,
                },
                ..old(self)@
            }),
    {
        let ghost p = self@;
        let mut i: usize = 0;
        while i < self.availables.len()
            invariant
                0 <= i <= p.availables.len(),
                self@ == p,
                first_fired(p.availables, 0) == first_fired(p.availables, i as int),
            decreases p.availables.len() - i,
        {
            let id = self.availables[i].id;
            let size = self.availables[i].size;
            let mut j: usize = 0;
            while j < self.availables[i].triggers.len()
                invariant
                    0 <= j <= p.availables[i as int].triggers.len(),
                    self@ == p,
                    forall|k: int| 0 <= k < j ==> !validator::trigger_fires(#[trigger] p.availables[i as int].triggers[k]),
                decreases p.availables[i as int].triggers.len() - j,
            {
                let fires = match self.availables[i].triggers[j] {
                    TriggerValidator::OnOperations { matching, .. } => matching.state.is_found(),
                    TriggerValidator::Always => true,
                    TriggerValidator::OnSync => false,
                };
                proof {
                    assert(p.availables[i as int].triggers[j as int] == self.availables@[i as int].triggers@[j as int]);
                }
                if fires {
                    proof {
                        assert(item_fires(p.availables[i as int]));
                    }
                    self.found = Some((id, size));
                    return ;
                }
                j = j + 1;
            }
            proof {
                assert(!item_fires(p.availables[i as int]));
            }
            i = i + 1;
        }
    }

    /// Compare the operation at position `num_operations` with every candidate.
    #[verifier::loop_isolation(false)]
    fn update_candidates(&mut self, store: &ExecutionPlanStore<O>, operation: &OperationIr)
        requires
            forall|k: int| 0 <= k < old(self).candidates@.len() ==> #[trigger] old(self).candidates@[k].id < store.plans().len(),
            old(self).num_operations < usize::MAX,
        ensures
            final(self)@ == (PolicyView {
                candidates: stepped_candidates(old(self)@.candidates, store.plans(), *operation, old(self)@.num_operations),
                ..old(self)@
            }),
    {
        let ghost p = self@;
        let ghost stepped = stepped_candidates(p.candidates, store.plans(), *operation, p.num_operations);
        let mut i: usize = 0;
        while i < self.candidates.len()
            invariant
                0 <= i <= p.candidates.len(),
                self.candidates@.len() == p.candidates.len(),
                self.availables == old(self).availables,
                self.found == p.found,
                self.num_operations == p.num_operations,
                forall|k: int| 0 <= k < i ==> self.candidates@[k] == stepped[k],
                forall|k: int| i <= k < p.candidates.len() ==> self.candidates@[k] == p.candidates[k],
            decreases p.candidates.len() - i,
        {
            let mut candidate = self.candidates[i];
            proof {
                assert(old(self).candidates@[i as int].id < store.plans().len());
            }
            let plan = store.get_unchecked(candidate.id);
            candidate.update(operation, self.num_operations, plan.operations.as_slice());
            self.candidates[i] = candidate;
            i = i + 1;
        }
        proof {
            assert(self.candidates@ =~= stepped);
            assert(self@.availables == p.availables);
        }
    }
}

impl<O> Policy<O> {
    /// Move every found candidate to the available plans, and drop every candidate whose
    /// plan was found or invalidated.
    #[verifier::loop_isolation(false)]
    fn check_candidates(&mut self, store: &ExecutionPlanStore<O>)
        requires
            forall|k: int| 0 <= k < old(self).candidates@.len() ==> #[trigger] old(self).candidates@[k].id < store.plans().len(),
        ensures
            final(self)@ == (PolicyView {
                candidates: remaining_candidates(old(self)@.candidates),
                availables: old(self)@.availables + found_items(old(self)@.candidates, store.plans()),
                ..old(self)@
            }),
    {
        let ghost p = self@;
        let ghost plans = store.plans();
        let mut candidates_to_remove: Vec<ExecutionPlanId> = Vec::new();
        let mut i: usize = 0;
        while i < self.candidates.len()
            invariant
                0 <= i <= p.candidates.len(),
                self.candidates@ == p.candidates,
                self.found == p.found,
                self.num_operations == p.num_operations,
                candidates_to_remove@ == p.candidates.take(i as int).filter(settled()).map_values(candidate_plan()),
                self@.availables == p.availables + p.candidates.take(i as int).filter(matched()).map_values(found_item(plans)),
            decreases p.candidates.len() - i,
        {
            let candidate = self.candidates[i];
            proof {
                assert(p.candidates.take(i + 1) =~= p.candidates.take(i as int).push(candidate));
                lemma_filter_map_push(p.candidates.take(i as int), candidate, settled(), candidate_plan());
                lemma_filter_map_push(p.candidates.take(i as int), candidate, matched(), found_item(plans));
                assert(old(self).candidates@[i as int].id < plans.len());
            }
            match candidate.state {
                ValidatorState::Found { size } => {
                    let item = store.get_unchecked(candidate.id);
                    let triggers = initial_trigger_validators(&item.triggers);
                    let ghost before = self.availables@;
                    let available = AvailableItem::new(candidate.id, size, triggers);
                    self.availables.push(available);
                    proof {
                        assert(self.availables@.map_values(|a: AvailableItem| available_view(a)) =~= before.map_values(
                            |a: AvailableItem| available_view(a),
                        ).push(available_view(available)));
                        assert(available_view(available) == found_item(plans)(candidate));
                    }
                    candidates_to_remove.push(candidate.id);
                },
                ValidatorState::Invalidated => {
                    candidates_to_remove.push(candidate.id);
                },
                ValidatorState::Validating => {},
            }
            i = i + 1;
        }
        proof {
            assert(p.candidates.take(p.candidates.len() as int) =~= p.candidates);
        }
        let mut updated_candidates: Vec<OperationsValidator<ExecutionPlanId>> = Vec::new();
        core::mem::swap(&mut updated_candidates, &mut self.candidates);
        let mut kept_candidates: Vec<OperationsValidator<ExecutionPlanId>> = Vec::new();
        let ghost removed = settled_ids(p.candidates);
        let mut j: usize = 0;
        while j < updated_candidates.len()
            invariant
                0 <= j <= p.candidates.len(),
                updated_candidates@ == p.candidates,
                candidates_to_remove@ == removed,
                kept_candidates@ == p.candidates.take(j as int).filter(kept(removed)),
            decreases p.candidates.len() - j,
        {
            let candidate = updated_candidates[j];
            proof {
                assert(p.candidates.take(j + 1) =~= p.candidates.take(j as int).push(candidate));
                p.candidates.take(j as int).lemma_filter_push(candidate, kept(removed));
            }
            if !contains_id(&candidates_to_remove, candidate.id) {
                kept_candidates.push(candidate);
            }
            j = j + 1;
        }
        proof {
            assert(p.candidates.take(p.candidates.len() as int) =~= p.candidates);
        }
        self.candidates = kept_candidates;
    }

    /// Let every trigger of every available plan look at the operation `operation`.
    #[verifier::loop_isolation(false)]
    fn update_availables(&mut self, store: &ExecutionPlanStore<O>, operation: &OperationIr)
        requires
            forall|k: int| 0 <= k < old(self)@.availables.len() ==> available_wf(
                #[trigger] old(self)@.availables[k],
                store.plans(),
                old(self)@.num_operations,
            ),
            old(self).num_operations < usize::MAX,
        ensures
            final(self)@ == (PolicyView {
                availables: stepped_availables(old(self)@.availables, store.plans(), *operation),
                ..old(self)@
            }),
    {
        let ghost p = self@;
        let ghost plans = store.plans();
        let ghost stepped = stepped_availables(p.availables, plans, *operation);
        let mut i: usize = 0;
        while i < self.availables.len()
            invariant
                0 <= i <= p.availables.len(),
                self.availables@.len() == p.availables.len(),
                self.candidates == old(self).candidates,
                self.found == p.found,
                self.num_operations == p.num_operations,
                forall|k: int| 0 <= k < i ==> available_view(#[trigger] self.availables@[k]) == stepped[k],
                forall|k: int| i <= k < p.availables.len() ==> available_view(#[trigger] self.availables@[k]) == p.availables[k],
            decreases p.availables.len() - i,
        {
            let id = self.availables[i].id;
            let size = self.availables[i].size;
            proof {
                assert(available_view(self.availables@[i as int]) == p.availables[i as int]);
                assert(available_wf(p.availables[i as int], plans, p.num_operations));
            }
            let plan = store.get_unchecked(id);
            let ghost old_triggers = p.availables[i as int].triggers;
            let mut triggers: Vec<TriggerValidator> = Vec::with_capacity(self.availables[i].triggers.len());
            let mut j: usize = 0;
            while j < self.availables[i].triggers.len()
                invariant
                    0 <= j <= old_triggers.len(),
                    self.availables@[i as int].triggers@ == old_triggers,
                    triggers@ == old_triggers.take(j as int).map_values(
                        |t: TriggerValidator| validator::trigger_step(t, *operation, watched_operations(plans, id, t)),
                    ),
                decreases old_triggers.len() - j,
            {
                let trigger = self.availables[i].triggers[j];
                proof {
                    assert(trigger_wf(old_triggers[j as int], plans[id as int].triggers@.len(), p.num_operations));
                }
                let stepped_trigger = match trigger {
                    TriggerValidator::OnOperations { matching, progress } => match progress {
                        TriggerProgress::NotInit => TriggerValidator::OnOperations {
                            matching,
                            progress: TriggerProgress::NumChecked(0),
                        },
                        TriggerProgress::NumChecked(num_check) => {
                            let mut matching = matching;
                            match &plan.triggers[matching.id] {
                                ExecutionTrigger::OnOperations(watched) => {
                                    matching.update(operation, num_check, watched.as_slice());
                                },
                                _ => {
                                    let nothing: Vec<OperationIr> = Vec::new();
                                    matching.update(operation, num_check, nothing.as_slice());
                                },
                            }
                            TriggerValidator::OnOperations {
                                matching,
                                progress: TriggerProgress::NumChecked(num_check + 1),
                            }
                        },
                    },
                    other => other,
                };
                proof {
                    assert(stepped_trigger == validator::trigger_step(trigger, *operation, watched_operations(plans, id, trigger)));
                }
                triggers.push(stepped_trigger);
                proof {
                    assert(old_triggers.take(j + 1) =~= old_triggers.take(j as int).push(trigger));
                    assert(old_triggers.take(j + 1).map_values(
                        |t: TriggerValidator| validator::trigger_step(t, *operation, watched_operations(plans, id, t)),
                    ) =~= old_triggers.take(j as int).map_values(
                        |t: TriggerValidator| validator::trigger_step(t, *operation, watched_operations(plans, id, t)),
                    ).push(stepped_trigger));
                }
                j = j + 1;
            }
            proof {
                assert(old_triggers.take(old_triggers.len() as int) =~= old_triggers);
            }
            let ghost new_triggers = triggers@;
            self.availables[i] = AvailableItem::new(id, size, triggers);
            proof {
                assert(available_view(self.availables@[i as int]) == stepped[i as int]) by {
                    assert(new_triggers =~= stepped[i as int].triggers);
                }
            }
            i = i + 1;
        }
        proof {
            assert(self@.availables =~= stepped);
        }
    }
}

/// An element of a filtered sequence is an element of the sequence that passes the filter.
proof fn lemma_filter_member<A>(s: Seq<A>, pred: spec_fn(A) -> bool, i: int)
    requires
        0 <= i < s.filter(pred).len(),
    ensures
        s.contains(s.filter(pred)[i]),
        pred(s.filter(pred)[i]),
{
    let x = s.filter(pred)[i];
    assert(s.filter(pred).contains(x));
    s.lemma_filter_contains_rev(pred, x);
}

/// Every seeded candidate names a stored plan.
proof fn lemma_seeded_valid<O>(plans: Seq<ExecutionPlan<O>>, op: OperationIr)
    ensures
        forall|k: int| 0 <= k < seeded_candidates(plans, op).len() ==> #[trigger] seeded_candidates(plans, op)[k].id < plans.len(),
{
    let all = Seq::new(plans.len(), |i: int| i as usize);
    assert forall|k: int| 0 <= k < seeded_candidates(plans, op).len() implies #[trigger] seeded_candidates(plans, op)[k].id < plans.len() by {
        lemma_filter_member(all, store::starts_with(plans, op), k);
        let x = all.filter(store::starts_with(plans, op))[k];
        let idx = choose|idx: int| 0 <= idx < all.len() && all[idx] == x;
    }
}

/// Every candidate kept after filtering is one of the candidates before it.
proof fn lemma_remaining_valid(cands: Seq<OperationsValidator<ExecutionPlanId>>, bound: nat)
    requires
        forall|k: int| 0 <= k < cands.len() ==> #[trigger] cands[k].id < bound,
    ensures
        forall|k: int| 0 <= k < remaining_candidates(cands).len() ==> #[trigger] remaining_candidates(cands)[k].id < bound,
{
    assert forall|k: int| 0 <= k < remaining_candidates(cands).len() implies #[trigger] remaining_candidates(cands)[k].id < bound by {
        lemma_filter_member(cands, kept(settled_ids(cands)), k);
        let x = remaining_candidates(cands)[k];
        let idx = choose|idx: int| 0 <= idx < cands.len() && cands[idx] == x;
    }
}

/// The available items made of found candidates are well formed.
proof fn lemma_found_items_wf<O>(cands: Seq<OperationsValidator<ExecutionPlanId>>, plans: Seq<ExecutionPlan<O>>, bound: nat)
    requires
        forall|k: int| 0 <= k < cands.len() ==> #[trigger] cands[k].id < plans.len(),
    ensures
        forall|k: int| 0 <= k < found_items(cands, plans).len() ==> available_wf(#[trigger] found_items(cands, plans)[k], plans, bound),
{
    assert forall|k: int| 0 <= k < found_items(cands, plans).len() implies available_wf(#[trigger] found_items(cands, plans)[k], plans, bound) by {
        lemma_filter_member(cands, matched(), k);
        let c = cands.filter(matched())[k];
        let idx = choose|idx: int| 0 <= idx < cands.len() && cands[idx] == c;
        let a = found_items(cands, plans)[k];
        assert(a == found_item(plans)(c));
        assert forall|j: int| 0 <= j < a.triggers.len() implies trigger_wf(#[trigger] a.triggers[j], plans[a.id as int].triggers@.len(), bound) by {
        }
    }
}

/// Stepping the available items keeps them well formed, with one more operation analyzed.
proof fn lemma_stepped_availables_wf<O>(avs: Seq<AvailableView>, plans: Seq<ExecutionPlan<O>>, op: OperationIr, bound: nat)
    requires
        forall|k: int| 0 <= k < avs.len() ==> available_wf(#[trigger] avs[k], plans, bound),
    ensures
        forall|k: int| 0 <= k < avs.len() ==> available_wf(#[trigger] stepped_availables(avs, plans, op)[k], plans, bound + 1),
{
    assert forall|k: int| 0 <= k < avs.len() implies available_wf(#[trigger] stepped_availables(avs, plans, op)[k], plans, bound + 1) by {
        let a = avs[k];
        let b = stepped_availables(avs, plans, op)[k];
        assert(available_wf(a, plans, bound));
        assert forall|j: int| 0 <= j < b.triggers.len() implies trigger_wf(#[trigger] b.triggers[j], plans[b.id as int].triggers@.len(), bound + 1) by {
            assert(trigger_wf(a.triggers[j], plans[a.id as int].triggers@.len(), bound));
        }
    }
}

/// A fired plan is one of the available items.
proof fn lemma_first_fired_member(avs: Seq<AvailableView>, from: int)
    requires
        first_fired(avs, from) is Some,
    ensures
        exists|k: int| 0 <= k < avs.len() && #[trigger] avs[k].id == first_fired(avs, from).unwrap().0,
    decreases avs.len() - from,
{
    if 0 <= from < avs.len() && !item_fires(avs[from]) {
        lemma_first_fired_member(avs, from + 1);
    }
}

/// Analyzing an operation keeps the policy consistent with the store.
pub proof fn lemma_update_wf<O>(p: PolicyView, plans: Seq<ExecutionPlan<O>>, op: OperationIr)
    requires
        policy_wf(p, plans),
    ensures
        policy_wf(policy_after_update(p, plans, op), plans),
{
    let seeded = if p.num_operations == 0 {
        seeded_candidates(plans, op)
    } else {
        p.candidates
    };
    lemma_seeded_valid(plans, op);
    let stepped = stepped_candidates(seeded, plans, op, p.num_operations);
    assert forall|k: int| 0 <= k < stepped.len() implies #[trigger] stepped[k].id < plans.len() by {
        assert(seeded[k].id < plans.len());
    }
    lemma_remaining_valid(stepped, plans.len());
    lemma_found_items_wf(stepped, plans, p.num_operations);
    let joined = p.availables + found_items(stepped, plans);
    assert forall|k: int| 0 <= k < joined.len() implies available_wf(#[trigger] joined[k], plans, p.num_operations) by {
        if k >= p.availables.len() {
            assert(joined[k] == found_items(stepped, plans)[k - p.availables.len()]);
        }
    }
    lemma_stepped_availables_wf(joined, plans, op, p.num_operations);
    let next = policy_after_update(p, plans, op);
    if first_fired(next.availables, 0) is Some {
        lemma_first_fired_member(next.availables, 0);
        let k = choose|k: int| 0 <= k < next.availables.len() && #[trigger] next.availables[k].id == first_fired(next.availables, 0).unwrap().0;
        assert(available_wf(next.availables[k], plans, p.num_operations + 1));
    }
}

impl<O> Policy<O> {
    /// Update the policy state with the next operation of the stream.
    pub fn update(&mut self, store: &ExecutionPlanStore<O>, operation: &OperationIr)
        requires
            old(self).wf(store),
            old(self).num_operations < usize::MAX,
        ensures
            final(self)@ == policy_after_update(old(self)@, store.plans(), *operation),
            final(self).wf(store),
    {
        let ghost p = self@;
        let ghost plans = store.plans();
        if self.num_operations == 0 {
            let ids = store.find(SearchQuery::PlansStartingWith(operation));
            let mut candidates: Vec<OperationsValidator<ExecutionPlanId>> = Vec::with_capacity(ids.len());
            let mut i: usize = 0;
            while i < ids.len()
                invariant
                    0 <= i <= ids@.len(),
                    ids@ == store::plans_starting_with(plans, *operation),
                    candidates@ == seeded_candidates(plans, *operation).take(i as int),
                decreases ids@.len() - i,
            {
                let candidate = OperationsValidator::new(ids[i]);
                candidates.push(candidate);
                proof {
                    assert(seeded_candidates(plans, *operation).take(i + 1) =~= seeded_candidates(plans, *operation).take(i as int).push(candidate));
                }
                i = i + 1;
            }
            proof {
                assert(seeded_candidates(plans, *operation).take(ids@.len() as int) =~= seeded_candidates(plans, *operation));
                lemma_seeded_valid(plans, *operation);
            }
            self.candidates = candidates;
        }
        let ghost seeded = self@.candidates;
        proof {
            assert(forall|k: int| 0 <= k < seeded.len() ==> #[trigger] seeded[k].id < plans.len());
        }
        self.update_candidates(store, operation);
        let ghost stepped = self@.candidates;
        proof {
            assert forall|k: int| 0 <= k < stepped.len() implies #[trigger] stepped[k].id < plans.len() by {
                assert(seeded[k].id < plans.len());
            }
        }
        self.check_candidates(store);
        proof {
            lemma_found_items_wf(stepped, plans, p.num_operations);
            let joined = self@.availables;
            assert forall|k: int| 0 <= k < joined.len() implies available_wf(#[trigger] joined[k], plans, p.num_operations) by {
                if k >= p.availables.len() {
                    assert(joined[k] == found_items(stepped, plans)[k - p.availables.len()]);
                } else {
                    assert(joined[k] == p.availables[k]);
                }
            }
        }
        self.update_availables(store, operation);
        self.check_availables();
        self.num_operations = self.num_operations + 1;
        proof {
            lemma_update_wf(p, plans, *operation);
        }
    }
}

/// Whatever route the decision takes, a plan is executed only against enough operations for
/// every position its orderings reach.
pub proof fn lemma_executed_plan_fits<O>(p: PolicyView, plans: Seq<ExecutionPlan<O>>, n: nat, mode: ExecutionMode)
    ensures
        policy_action(p, plans, n, mode) matches Action::Execute(id) ==> plan_fits(plans, id, n),
{
}

/// A plan executed by the policy over `n` operations indexes only positions below `n`:
/// every position named by its ordering, or by the ordering of any member of its
/// composition, is an operation that is present.
pub proof fn lemma_executed_plan_indexes_in_bounds<O>(
    p: PolicyView,
    plans: Seq<ExecutionPlan<O>>,
    n: nat,
    mode: ExecutionMode,
    id: ExecutionPlanId,
)
    requires
        policy_action(p, plans, n, mode) == Action::Execute(id),
    ensures
        plans[id as int].optimization.strategy matches crate::strategy::ExecutionStrategy::Operations { ordering }
            ==> forall|k: int| 0 <= k < ordering@.len() ==> #[trigger] ordering@[k] < n,
        plans[id as int].optimization.strategy matches crate::strategy::ExecutionStrategy::Optimization { ordering, .. }
            ==> forall|k: int| 0 <= k < ordering@.len() ==> #[trigger] ordering@[k] < n,
        plans[id as int].optimization.strategy matches crate::strategy::ExecutionStrategy::Composed(items)
            ==> forall|k: int| 0 <= k < items@.len() ==> strategy::strategy_reach(*#[trigger] items@[k]) <= n,
{
    match plans[id as int].optimization.strategy {
        crate::strategy::ExecutionStrategy::Operations { ordering } => {
            strategy::lemma_ordering_reach_bounds(ordering@);
        },
        crate::strategy::ExecutionStrategy::Optimization { ordering, .. } => {
            strategy::lemma_ordering_reach_bounds(ordering@);
        },
        crate::strategy::ExecutionStrategy::Composed(items) => {
            strategy::lemma_composition_reach(items@);
        },
    }
}

/// When the stream is synchronized the policy never defers: it executes a plan or explores.
pub proof fn lemma_sync_never_defers<O>(p: PolicyView, plans: Seq<ExecutionPlan<O>>, n: nat)
    ensures
        policy_action(p, plans, n, ExecutionMode::Sync) != Action::Defer,
{
}

/// In lazy mode the only plan ever executed is the one found by a trigger.
pub proof fn lemma_lazy_executes_only_found<O>(p: PolicyView, plans: Seq<ExecutionPlan<O>>, n: nat)
    ensures
        policy_action(p, plans, n, ExecutionMode::Lazy) matches Action::Execute(id) ==> p.found matches Some(
            (found_id, _),
        ) && found_id == id,
{
}

/// A policy consistent with a store stays consistent while the store grows: plans are only
/// added, and triggers are only added to plans.
pub proof fn lemma_wf_store_grows<O>(p: PolicyView, plans: Seq<ExecutionPlan<O>>, grown: Seq<ExecutionPlan<O>>)
    requires
        policy_wf(p, plans),
        plans.len() <= grown.len(),
        forall|i: int| 0 <= i < plans.len() ==> #[trigger] plans[i].triggers@.len() <= grown[i].triggers@.len(),
    ensures
        policy_wf(p, grown),
{
    assert forall|i: int| 0 <= i < p.availables.len() implies available_wf(#[trigger] p.availables[i], grown, p.num_operations) by {
        let a = p.availables[i];
        assert(available_wf(a, plans, p.num_operations));
        assert(plans[a.id as int].triggers@.len() <= grown[a.id as int].triggers@.len());
        assert forall|j: int| 0 <= j < a.triggers.len() implies trigger_wf(#[trigger] a.triggers[j], grown[a.id as int].triggers@.len(), p.num_operations) by {
            assert(trigger_wf(a.triggers[j], plans[a.id as int].triggers@.len(), p.num_operations));
        }
    }
}

/// A fresh policy is consistent with every store.
pub proof fn lemma_fresh_wf<O>(plans: Seq<ExecutionPlan<O>>)
    ensures
        policy_wf(fresh_policy(), plans),
{
}

/// A found plan that fits is executed at once, in either mode and whatever the number of
/// operations it matched: the decision does not look at the found plan's size.
pub proof fn lemma_found_fitting_plan_runs<O>(
    p: PolicyView,
    plans: Seq<ExecutionPlan<O>>,
    n: nat,
    mode: ExecutionMode,
    id: ExecutionPlanId,
    size: usize,
)
    requires
        p.found == Some((id, size)),
        n >= strategy::strategy_reach(plans[id as int].optimization.strategy),
    ensures
        policy_action(p, plans, n, mode) == Action::Execute(id),
{
}

/// In lazy mode, when no found plan fits, the policy defers exactly when a plan may still
/// be reached: a candidate is still matching, an available plan matched exactly the `n`
/// operations, or some trigger (at any position) of an available plan is still matching its
/// operations. Otherwise it explores; it never executes.
pub proof fn lemma_lazy_defers_only_while_a_plan_may_come<O>(p: PolicyView, plans: Seq<ExecutionPlan<O>>, n: nat)
    requires
        match p.found {
            Some((id, _)) => n < strategy::strategy_reach(plans[id as int].optimization.strategy),
            None => true,
        },
    ensures
        policy_action(p, plans, n, ExecutionMode::Lazy) == if p.candidates.len() > 0 || exists|i: int|
            0 <= i < p.availables.len() && (p.availables[i].size == n || exists|j: int|
                0 <= j < p.availables[i].triggers.len() && (#[trigger] p.availables[i].triggers[j] matches TriggerValidator::OnOperations {
                    matching,
                    ..
                } && matching.state == ValidatorState::Validating)) {
            Action::Defer
        } else {
            Action::Explore
        },
{
    let waiting = exists|i: int|
        0 <= i < p.availables.len() && (p.availables[i].size == n || exists|j: int|
            0 <= j < p.availables[i].triggers.len() && (#[trigger] p.availables[i].triggers[j] matches TriggerValidator::OnOperations {
                matching,
                ..
            } && matching.state == ValidatorState::Validating));
    if waiting {
        let i = choose|i: int|
            0 <= i < p.availables.len() && (p.availables[i].size == n || exists|j: int|
                0 <= j < p.availables[i].triggers.len() && (#[trigger] p.availables[i].triggers[j] matches TriggerValidator::OnOperations {
                    matching,
                    ..
                } && matching.state == ValidatorState::Validating));
        if p.availables[i].size != n {
            let j = choose|j: int|
                0 <= j < p.availables[i].triggers.len() && (#[trigger] p.availables[i].triggers[j] matches TriggerValidator::OnOperations {
                    matching,
                    ..
                } && matching.state == ValidatorState::Validating);
            assert(validator::trigger_validating(p.availables[i].triggers[j]));
        }
        assert(item_defers(p.availables[i], n));
    } else {
        assert forall|i: int| 0 <= i < p.availables.len() implies !item_defers(#[trigger] p.availables[i], n) by {
            if item_defers(p.availables[i], n) && p.availables[i].size != n {
                let j = choose|j: int| 0 <= j < p.availables[i].triggers.len() && validator::trigger_validating(#[trigger] p.availables[i].triggers[j]);
                assert(p.availables[i].triggers[j] matches TriggerValidator::OnOperations { matching, .. } && matching.state
                    == ValidatorState::Validating);
            }
        }
    }
}

/// The first available item of size `n` from `from` on is the one at `i` when none before
/// it has that size.
proof fn lemma_first_available_of_size_at(avs: Seq<AvailableView>, n: nat, from: int, i: int)
    requires
        0 <= from <= i < avs.len(),
        avs[i].size == n,
        forall|k: int| from <= k < i ==> (#[trigger] avs[k]).size != n,
    ensures
        first_available_of_size(avs, n, from) == Some(avs[i].id),
    decreases i - from,
{
    if from < i {
        lemma_first_available_of_size_at(avs, n, from + 1, i);
    }
}

/// No available item of size `n` from `from` on means none is first.
proof fn lemma_first_available_of_size_none(avs: Seq<AvailableView>, n: nat, from: int)
    requires
        0 <= from,
        forall|k: int| from <= k < avs.len() ==> (#[trigger] avs[k]).size != n,
    ensures
        first_available_of_size(avs, n, from) is None,
    decreases avs.len() - from,
{
    if from < avs.len() {
        lemma_first_available_of_size_none(avs, n, from + 1);
    }
}

/// The first candidate whose plan covers `n` operations from `from` on is the one at `i`
/// when none before it does.
proof fn lemma_first_candidate_of_len_at<O>(
    cands: Seq<OperationsValidator<ExecutionPlanId>>,
    plans: Seq<ExecutionPlan<O>>,
    n: nat,
    from: int,
    i: int,
)
    requires
        0 <= from <= i < cands.len(),
        plans[cands[i].id as int].operations@.len() == n,
        forall|k: int| from <= k < i ==> plans[(#[trigger] cands[k]).id as int].operations@.len() != n,
    ensures
        first_candidate_of_len(cands, plans, n, from) == Some(cands[i].id),
    decreases i - from,
{
    if from < i {
        lemma_first_candidate_of_len_at(cands, plans, n, from + 1, i);
    }
}

/// No candidate whose plan covers `n` operations from `from` on means none is first.
proof fn lemma_first_candidate_of_len_none<O>(
    cands: Seq<OperationsValidator<ExecutionPlanId>>,
    plans: Seq<ExecutionPlan<O>>,
    n: nat,
    from: int,
)
    requires
        0 <= from,
        forall|k: int| from <= k < cands.len() ==> plans[(#[trigger] cands[k]).id as int].operations@.len() != n,
    ensures
        first_candidate_of_len(cands, plans, n, from) is None,
    decreases cands.len() - from,
{
    if from < cands.len() {
        lemma_first_candidate_of_len_none(cands, plans, n, from + 1);
    }
}

/// In sync mode, when no found plan fits, the policy runs the plan that covers exactly the
/// `n` operations: the first available plan that matched exactly `n` operations; failing
/// that, the first candidate whose plan has exactly `n` operations; and it explores when
/// that plan does not fit, or when there is none. A plan that matched fewer operations is
/// never run.
pub proof fn lemma_sync_runs_the_plan_covering_the_segment<O>(p: PolicyView, plans: Seq<ExecutionPlan<O>>, n: nat)
    requires
        match p.found {
            Some((id, _)) => n < strategy::strategy_reach(plans[id as int].optimization.strategy),
            None => true,
        },
    ensures
        forall|i: int|
            0 <= i < p.availables.len() && (#[trigger] p.availables[i]).size == n && (forall|k: int|
                0 <= k < i ==> p.availables[k].size != n) ==> policy_action(p, plans, n, ExecutionMode::Sync) == if n
                >= strategy::strategy_reach(plans[p.availables[i].id as int].optimization.strategy) {
                Action::Execute(p.availables[i].id)
            } else {
                Action::Explore
            },
        (forall|i: int| 0 <= i < p.availables.len() ==> (#[trigger] p.availables[i]).size != n) ==> forall|c: int|
            0 <= c < p.candidates.len() && plans[(#[trigger] p.candidates[c]).id as int].operations@.len() == n && (
            forall|k: int| 0 <= k < c ==> plans[p.candidates[k].id as int].operations@.len() != n) ==> policy_action(
                p,
                plans,
                n,
                ExecutionMode::Sync,
            ) == if n >= strategy::strategy_reach(plans[p.candidates[c].id as int].optimization.strategy) {
                Action::Execute(p.candidates[c].id)
            } else {
                Action::Explore
            },
        (forall|i: int| 0 <= i < p.availables.len() ==> (#[trigger] p.availables[i]).size != n) && (forall|c: int|
            0 <= c < p.candidates.len() ==> plans[(#[trigger] p.candidates[c]).id as int].operations@.len() != n)
            ==> policy_action(p, plans, n, ExecutionMode::Sync) == Action::Explore,
        policy_action(p, plans, n, ExecutionMode::Sync) matches Action::Execute(id) ==> (exists|i: int|
            0 <= i < p.availables.len() && (#[trigger] p.availables[i]).id == id && p.availables[i].size == n) || (exists|c: int|
            0 <= c < p.candidates.len() && (#[trigger] p.candidates[c]).id == id && plans[id as int].operations@.len() == n),
{
    assert forall|i: int|
        0 <= i < p.availables.len() && (#[trigger] p.availables[i]).size == n && (forall|k: int|
            0 <= k < i ==> p.availables[k].size != n) implies policy_action(p, plans, n, ExecutionMode::Sync) == if n
        >= strategy::strategy_reach(plans[p.availables[i].id as int].optimization.strategy) {
        Action::Execute(p.availables[i].id)
    } else {
        Action::Explore
    } by {
        lemma_first_available_of_size_at(p.availables, n, 0, i);
    }
    if forall|i: int| 0 <= i < p.availables.len() ==> (#[trigger] p.availables[i]).size != n {
        lemma_first_available_of_size_none(p.availables, n, 0);
        assert forall|c: int|
            0 <= c < p.candidates.len() && plans[(#[trigger] p.candidates[c]).id as int].operations@.len() == n && (
            forall|k: int| 0 <= k < c ==> plans[p.candidates[k].id as int].operations@.len() != n) implies policy_action(
            p,
            plans,
            n,
            ExecutionMode::Sync,
        ) == if n >= strategy::strategy_reach(plans[p.candidates[c].id as int].optimization.strategy) {
            Action::Execute(p.candidates[c].id)
        } else {
            Action::Explore
        } by {
            lemma_first_candidate_of_len_at(p.candidates, plans, n, 0, c);
        }
        if forall|c: int| 0 <= c < p.candidates.len() ==> plans[(#[trigger] p.candidates[c]).id as int].operations@.len() != n {
            lemma_first_candidate_of_len_none(p.candidates, plans, n, 0);
        }
    }
    if policy_action(p, plans, n, ExecutionMode::Sync) matches Action::Execute(id) {
        lemma_first_available_of_size_member(p.availables, n, 0);
        lemma_first_candidate_of_len_member(p.candidates, plans, n, 0);
    }
}

/// The first available item of size `n` is an available item of that size.
proof fn lemma_first_available_of_size_member(avs: Seq<AvailableView>, n: nat, from: int)
    ensures
        first_available_of_size(avs, n, from) matches Some(id) ==> exists|i: int|
            0 <= i < avs.len() && (#[trigger] avs[i]).id == id && avs[i].size == n,
    decreases avs.len() - from,
{
    if 0 <= from < avs.len() && avs[from].size != n {
        lemma_first_available_of_size_member(avs, n, from + 1);
    }
}

/// The first candidate whose plan covers `n` operations is such a candidate.
proof fn lemma_first_candidate_of_len_member<O>(
    cands: Seq<OperationsValidator<ExecutionPlanId>>,
    plans: Seq<ExecutionPlan<O>>,
    n: nat,
    from: int,
)
    ensures
        first_candidate_of_len(cands, plans, n, from) matches Some(id) ==> exists|c: int|
            0 <= c < cands.len() && (#[trigger] cands[c]).id == id && plans[id as int].operations@.len() == n,
    decreases cands.len() - from,
{
    if 0 <= from < cands.len() && plans[cands[from].id as int].operations@.len() != n {
        lemma_first_candidate_of_len_member(cands, plans, n, from + 1);
    }
}

} // verus!
