use crate::operation::OperationIr;
use crate::policy::AvailableView;
use crate::store::{ExecutionPlan, ExecutionPlanId, ExecutionTrigger};
use crate::validator::{OperationsValidator, TriggerProgress, TriggerValidator, ValidatorState};
use crate::{policy, store, tracking, validator};
use vstd::prelude::*;

verus! {

/// Whether the operations `watched` came, in `ops`, right after the first `covered`
/// operations.
pub open spec fn followed(watched: Seq<OperationIr>, ops: Seq<OperationIr>, covered: nat) -> bool {
    &&& watched.len() > 0
    &&& covered + watched.len() <= ops.len()
    &&& forall|k: int| 0 <= k < watched.len() ==> #[trigger] ops[covered + k] == watched[k]
}

/// Whether the trigger `t`, of a plan covering the first `covered` operations of `ops`,
/// says that the plan should run: it always does, or its operations followed the plan.
pub open spec fn trigger_due(t: ExecutionTrigger, ops: Seq<OperationIr>, covered: nat) -> bool {
    match t {
        ExecutionTrigger::OnOperations(watched) => followed(watched@, ops, covered),
        ExecutionTrigger::OnSync => false,
        ExecutionTrigger::Always => true,
    }
}

/// Whether some trigger of the plan `id` is due after `ops`.
pub open spec fn plan_due<O>(plans: Seq<ExecutionPlan<O>>, id: ExecutionPlanId, ops: Seq<OperationIr>) -> bool {
    exists|j: int|
        0 <= j < plans[id as int].triggers@.len() && trigger_due(
            #[trigger] plans[id as int].triggers@[j],
            ops,
            plans[id as int].operations@.len(),
        )
}

/// The first available item, from position `from` on, whose plan has a due trigger.
pub open spec fn first_due<O>(
    avs: Seq<AvailableView>,
    plans: Seq<ExecutionPlan<O>>,
    ops: Seq<OperationIr>,
    from: int,
) -> Option<(ExecutionPlanId, usize)>
    decreases avs.len() - from,
{
    if from < 0 || from >= avs.len() {
        None
    } else if plan_due(plans, avs[from].id, ops) {
        Some((avs[from].id, avs[from].size))
    } else {
        first_due(avs, plans, ops, from + 1)
    }
}

/// How the matching of the operations `watched` stands once the operations of `ops` past
/// the first `covered` have been compared with them.
pub open spec fn watch_state(watched: Seq<OperationIr>, ops: Seq<OperationIr>, covered: nat) -> ValidatorState {
    let compared = ops.len() - covered;
    if exists|k: int| 0 <= k < compared && k < watched.len() && #[trigger] ops[covered + k] != watched[k] {
        ValidatorState::Invalidated
    } else if watched.len() == 0 {
        if compared == 0 {
            ValidatorState::Validating
        } else {
            ValidatorState::Invalidated
        }
    } else if watched.len() <= compared {
        ValidatorState::Found { size: watched.len() as usize }
    } else {
        ValidatorState::Validating
    }
}

/// The validator of the trigger `t`, at position `j` among its plan's triggers, once the
/// operations of `ops` past the `covered` ones of the plan have been analyzed.
pub open spec fn expected_trigger(t: ExecutionTrigger, j: int, ops: Seq<OperationIr>, covered: nat) -> TriggerValidator {
    match t {
        ExecutionTrigger::OnOperations(watched) => TriggerValidator::OnOperations {
            matching: OperationsValidator { id: j as usize, state: watch_state(watched@, ops, covered) },
            progress: TriggerProgress::NumChecked((ops.len() - covered) as usize),
        },
        ExecutionTrigger::OnSync => TriggerValidator::OnSync,
        ExecutionTrigger::Always => TriggerValidator::Always,
    }
}

/// The validators of the available items are those expected of their plans' triggers.
pub open spec fn triggers_track<O>(avs: Seq<AvailableView>, plans: Seq<ExecutionPlan<O>>, ops: Seq<OperationIr>) -> bool {
    forall|i: int|
        0 <= i < avs.len() ==> (#[trigger] avs[i]).triggers == Seq::new(
            plans[avs[i].id as int].triggers@.len(),
            |j: int|
                expected_trigger(
                    plans[avs[i].id as int].triggers@[j],
                    j,
                    ops,
                    plans[avs[i].id as int].operations@.len(),
                ),
        )
}

/// One more analyzed operation moves a trigger's validator from what is expected before it
/// to what is expected after it.
proof fn lemma_trigger_step(t: ExecutionTrigger, j: int, ops: Seq<OperationIr>, covered: nat, x: OperationIr)
    requires
        1 <= covered <= ops.len(),
        ops.len() < usize::MAX,
        0 <= j <= usize::MAX,
    ensures
        validator::trigger_step(expected_trigger(t, j, ops, covered), x, store::trigger_operations(t))
            == expected_trigger(t, j, ops.push(x), covered),
{
    if let ExecutionTrigger::OnOperations(v) = t {
        let w = v@;
        assert(w.len() == v.len());
        let next = ops.push(x);
        let compared = ops.len() - covered;
        let before = watch_state(w, ops, covered);
        let after = watch_state(w, next, covered);
        let stepped = validator::validator_step(
            OperationsValidator { id: j as usize, state: before },
            x,
            compared as nat,
            w,
        );
        assert forall|k: int| 0 <= k < compared implies #[trigger] next[covered + k] == ops[covered + k] by {}
        if exists|k: int| 0 <= k < compared && k < w.len() && #[trigger] ops[covered + k] != w[k] {
            let k = choose|k: int| 0 <= k < compared && k < w.len() && #[trigger] ops[covered + k] != w[k];
            assert(next[covered + k] != w[k]);
            assert(stepped.state == after);
        } else {
            assert(next[covered + compared] == x);
            if w.len() == 0 {
                assert(stepped.state == after);
            } else if w.len() <= compared {
                assert(stepped.state == after);
            } else if w[compared] == x {
                assert(stepped.state == after);
            } else {
                assert(next[covered + compared] != w[compared]);
                assert(stepped.state == after);
            }
        }
    }
}

/// A plan found with the last analyzed operation starts its triggers' validators as
/// expected.
proof fn lemma_trigger_starts(ts: Seq<ExecutionTrigger>, j: int, ops: Seq<OperationIr>, x: OperationIr)
    requires
        0 <= j < ts.len(),
        ts.len() <= usize::MAX,
    ensures
        validator::trigger_step(policy::initial_triggers(ts)[j], x, store::trigger_operations(ts[j]))
            == expected_trigger(ts[j], j, ops, ops.len()),
{
}

/// A trigger's validator fires exactly when the trigger is due.
proof fn lemma_fires_when_due(t: ExecutionTrigger, j: int, ops: Seq<OperationIr>, covered: nat)
    requires
        covered <= ops.len(),
    ensures
        validator::trigger_fires(expected_trigger(t, j, ops, covered)) <==> trigger_due(t, ops, covered),
{
    if let ExecutionTrigger::OnOperations(v) = t {
        let w = v@;
        let compared = ops.len() - covered;
        if followed(w, ops, covered) {
            assert(!exists|k: int| 0 <= k < compared && k < w.len() && #[trigger] ops[covered + k] != w[k]);
        }
        if watch_state(w, ops, covered) is Found {
            assert forall|k: int| 0 <= k < w.len() implies #[trigger] ops[covered + k] == w[k] by {
                assert(!(0 <= k < compared && k < w.len() && ops[covered + k] != w[k]));
            }
        }
    }
}

/// A due trigger stays due when more operations arrive.
proof fn lemma_due_stays(t: ExecutionTrigger, ops: Seq<OperationIr>, covered: nat, x: OperationIr)
    requires
        trigger_due(t, ops, covered),
    ensures
        trigger_due(t, ops.push(x), covered),
{
    if let ExecutionTrigger::OnOperations(v) = t {
        assert forall|k: int| 0 <= k < v@.len() implies #[trigger] ops.push(x)[covered + k] == v@[k] by {
            assert(ops[covered + k] == v@[k]);
        }
    }
}

/// Whether an item fires is whether its plan has a due trigger.
proof fn lemma_item_fires_when_due<O>(a: AvailableView, plans: Seq<ExecutionPlan<O>>, ops: Seq<OperationIr>)
    requires
        a.id < plans.len(),
        plans[a.id as int].operations@.len() <= ops.len(),
        a.triggers == Seq::new(
            plans[a.id as int].triggers@.len(),
            |j: int| expected_trigger(plans[a.id as int].triggers@[j], j, ops, plans[a.id as int].operations@.len()),
        ),
    ensures
        policy::item_fires(a) <==> plan_due(plans, a.id, ops),
{
    let ts = plans[a.id as int].triggers@;
    let covered = plans[a.id as int].operations@.len();
    if policy::item_fires(a) {
        let j = choose|j: int| 0 <= j < a.triggers.len() && validator::trigger_fires(#[trigger] a.triggers[j]);
        lemma_fires_when_due(ts[j], j, ops, covered);
        assert(trigger_due(ts[j], ops, covered));
    }
    if plan_due(plans, a.id, ops) {
        let j = choose|j: int| 0 <= j < ts.len() && trigger_due(#[trigger] ts[j], ops, covered);
        lemma_fires_when_due(ts[j], j, ops, covered);
        assert(validator::trigger_fires(a.triggers[j]));
    }
}

/// The first fired item is the first item whose plan has a due trigger.
proof fn lemma_first_fired_is_first_due<O>(
    avs: Seq<AvailableView>,
    plans: Seq<ExecutionPlan<O>>,
    ops: Seq<OperationIr>,
    from: int,
)
    requires
        0 <= from,
        triggers_track(avs, plans, ops),
        forall|i: int|
            0 <= i < avs.len() ==> (#[trigger] avs[i]).id < plans.len() && plans[avs[i].id as int].operations@.len() <= ops.len(),
    ensures
        policy::first_fired(avs, from) == first_due(avs, plans, ops, from),
    decreases avs.len() - from,
{
    if from < avs.len() {
        lemma_item_fires_when_due(avs[from], plans, ops);
        lemma_first_fired_is_first_due(avs, plans, ops, from + 1);
    }
}

/// Nothing fires after `from` when nothing is first fired there.
proof fn lemma_first_fired_none(avs: Seq<AvailableView>, from: int, i: int)
    requires
        0 <= from <= i < avs.len(),
        policy::first_fired(avs, from) is None,
    ensures
        !policy::item_fires(avs[i]),
    decreases i - from,
{
    if from < i {
        lemma_first_fired_none(avs, from + 1, i);
    }
}

/// Something that fires after `from` is first fired there or earlier.
proof fn lemma_first_fired_some(avs: Seq<AvailableView>, from: int)
    requires
        0 <= from,
        policy::first_fired(avs, from) is Some,
    ensures
        exists|i: int| from <= i < avs.len() && policy::item_fires(#[trigger] avs[i]),
    decreases avs.len() - from,
{
    if from < avs.len() && !policy::item_fires(avs[from]) {
        lemma_first_fired_some(avs, from + 1);
    }
}

/// The validators of the available items follow their plans' triggers, and the found plan
/// is the first fired item.
proof fn lemma_triggers_follow_plans<O>(plans: Seq<ExecutionPlan<O>>, ops: Seq<OperationIr>)
    requires
        plans.len() <= usize::MAX,
        ops.len() <= usize::MAX,
    ensures
        triggers_track(tracking::policy_after(plans, ops).availables, plans, ops),
        tracking::policy_after(plans, ops).found == policy::first_fired(tracking::policy_after(plans, ops).availables, 0),
    decreases ops.len(),
{
    if ops.len() == 0 {
        return ;
    }
    let s = ops.drop_last();
    let x = ops.last();
    assert(s.push(x) =~= ops);
    lemma_triggers_follow_plans(plans, s);
    let p = tracking::policy_after(plans, s);
    let next = tracking::policy_after(plans, ops);
    if s.len() > 0 {
        tracking::lemma_policy_tracks_plans(plans, s);
    }
    let seeded = if p.num_operations == 0 {
        policy::seeded_candidates(plans, x)
    } else {
        p.candidates
    };
    assert(p.num_operations == s.len()) by {
        if s.len() > 0 {
            tracking::lemma_policy_tracks_plans(plans, s);
        }
    }
    assert forall|k: int| 0 <= k < seeded.len() implies (#[trigger] seeded[k]).state is Validating by {
        if s.len() > 0 {
            assert(p.candidates[k].state is Validating);
        }
    }
    let stepped = policy::stepped_candidates(seeded, plans, x, p.num_operations);
    let found = policy::found_items(stepped, plans);
    let joined = p.availables + found;
    assert forall|i: int| 0 <= i < next.availables.len() implies (#[trigger] next.availables[i]).triggers == Seq::new(
        plans[next.availables[i].id as int].triggers@.len(),
        |j: int|
            expected_trigger(
                plans[next.availables[i].id as int].triggers@[j],
                j,
                ops,
                plans[next.availables[i].id as int].operations@.len(),
            ),
    ) by {
        let a = joined[i];
        assert(next.availables[i] == policy::stepped_available(plans, a, x));
        let ts = plans[a.id as int].triggers@;
        assert(ts.len() == plans[a.id as int].triggers.len());
        let covered = plans[a.id as int].operations@.len();
        if i < p.availables.len() {
            assert(a == p.availables[i]);
            assert(a.id < plans.len() && 0 < covered <= s.len());
            assert forall|j: int| 0 <= j < ts.len() implies #[trigger] next.availables[i].triggers[j] == expected_trigger(ts[j], j, ops, covered) by {
                assert(a.triggers[j] == expected_trigger(ts[j], j, s, covered));
                lemma_trigger_step(ts[j], j, s, covered, x);
            }
        } else {
            let f = i - p.availables.len();
            assert(a == found[f]);
            let k = tracking::lemma_filter_index(stepped, policy::matched(), f);
            assert(a == policy::found_item(plans)(stepped[k]));
            assert(seeded[k].state is Validating);
            assert(covered == ops.len());
            assert forall|j: int| 0 <= j < ts.len() implies #[trigger] next.availables[i].triggers[j] == expected_trigger(ts[j], j, ops, covered) by {
                lemma_trigger_starts(ts, j, ops, x);
            }
        }
        assert(next.availables[i].triggers =~= Seq::new(
            ts.len(),
            |j: int| expected_trigger(ts[j], j, ops, covered),
        ));
    }
    if policy::first_fired(next.availables, 0) is None && p.found is Some {
        lemma_first_fired_some(p.availables, 0);
        let i = choose|i: int| 0 <= i < p.availables.len() && policy::item_fires(#[trigger] p.availables[i]);
        let a = p.availables[i];
        let ts = plans[a.id as int].triggers@;
        let covered = plans[a.id as int].operations@.len();
        let j = choose|j: int| 0 <= j < a.triggers.len() && validator::trigger_fires(#[trigger] a.triggers[j]);
        lemma_fires_when_due(ts[j], j, s, covered);
        lemma_due_stays(ts[j], s, covered, x);
        lemma_fires_when_due(ts[j], j, ops, covered);
        assert(joined[i] == a);
        assert(next.availables[i] == policy::stepped_available(plans, a, x));
        assert(validator::trigger_fires(next.availables[i].triggers[j]));
        lemma_first_fired_none(next.availables, 0, i);
    }
}

/// The found plan is the first available plan, in the order the policy found them, that
/// has a due trigger: a trigger that always fires, or one whose operations came right
/// after the plan's operations. A trigger waiting for synchronization is never due while
/// operations are analyzed, and when no plan has a due trigger none is found.
pub proof fn lemma_found_is_first_due<O>(plans: Seq<ExecutionPlan<O>>, ops: Seq<OperationIr>)
    requires
        plans.len() <= usize::MAX,
        ops.len() <= usize::MAX,
    ensures
        tracking::policy_after(plans, ops).found == first_due(
            tracking::policy_after(plans, ops).availables,
            plans,
            ops,
            0,
        ),
{
    lemma_triggers_follow_plans(plans, ops);
    let avs = tracking::policy_after(plans, ops).availables;
    if ops.len() > 0 {
        tracking::lemma_policy_tracks_plans(plans, ops);
    }
    lemma_first_fired_is_first_due(avs, plans, ops, 0);
}

} // verus!
