use crate::operation::OperationIr;
use crate::policy::{AvailableView, PolicyView};
use crate::store::{ExecutionPlan, ExecutionPlanId};
use crate::validator::{OperationsValidator, ValidatorState};
use crate::{policy, store, validator};
use vstd::prelude::*;

verus! {

/// The state of a fresh policy after it analyzed the operations `ops`, in order.
pub open spec fn policy_after<O>(plans: Seq<ExecutionPlan<O>>, ops: Seq<OperationIr>) -> PolicyView
    decreases ops.len(),
{
    if ops.len() == 0 {
        policy::fresh_policy()
    } else {
        policy::policy_after_update(policy_after(plans, ops.drop_last()), plans, ops.last())
    }
}

/// The first `m` operations of `plan_ops` are those of `s`.
pub open spec fn agrees(plan_ops: Seq<OperationIr>, s: Seq<OperationIr>, m: int) -> bool {
    forall|j: int| 0 <= j < m ==> plan_ops[j] == s[j]
}

/// The plan's operations start with all of `s` and go on past it.
pub open spec fn extends(plan_ops: Seq<OperationIr>, s: Seq<OperationIr>) -> bool {
    plan_ops.len() > s.len() && agrees(plan_ops, s, s.len() as int)
}

/// The plan's operations are a non-empty prefix of `s`.
pub open spec fn covered_by(plan_ops: Seq<OperationIr>, s: Seq<OperationIr>) -> bool {
    0 < plan_ops.len() <= s.len() && agrees(plan_ops, s, plan_ops.len() as int)
}

/// No two candidates stand for the same plan.
pub open spec fn distinct_plans(cands: Seq<OperationsValidator<ExecutionPlanId>>) -> bool {
    forall|i: int, j: int| 0 <= i < j < cands.len() ==> #[trigger] cands[i].id != #[trigger] cands[j].id
}

/// The candidates are exactly the plans that extend `s`, each once, all still matching.
pub open spec fn candidates_track<O>(
    cands: Seq<OperationsValidator<ExecutionPlanId>>,
    plans: Seq<ExecutionPlan<O>>,
    s: Seq<OperationIr>,
) -> bool {
    &&& forall|k: int|
        0 <= k < cands.len() ==> {
            &&& (#[trigger] cands[k]).state is Validating
            &&& cands[k].id < plans.len()
            &&& extends(plans[cands[k].id as int].operations@, s)
        }
    &&& forall|id: ExecutionPlanId|
        id < plans.len() && extends(#[trigger] plans[id as int].operations@, s) ==> exists|k: int|
            0 <= k < cands.len() && cands[k].id == id
    &&& distinct_plans(cands)
}

/// The available items are exactly the plans covered by `s`, each with its size.
pub open spec fn availables_track<O>(avs: Seq<AvailableView>, plans: Seq<ExecutionPlan<O>>, s: Seq<OperationIr>) -> bool {
    &&& forall|k: int|
        0 <= k < avs.len() ==> {
            &&& (#[trigger] avs[k]).id < plans.len()
            &&& covered_by(plans[avs[k].id as int].operations@, s)
            &&& avs[k].size == plans[avs[k].id as int].operations@.len()
        }
    &&& forall|id: ExecutionPlanId|
        id < plans.len() && covered_by(#[trigger] plans[id as int].operations@, s) ==> exists|k: int|
            0 <= k < avs.len() && avs[k].id == id
}

/// Filtering keeps distinct the images of distinct elements.
proof fn lemma_filter_keeps_distinct<A, B>(s: Seq<A>, pred: spec_fn(A) -> bool, f: spec_fn(A) -> B)
    requires
        forall|i: int, j: int| 0 <= i < j < s.len() ==> f(#[trigger] s[i]) != f(#[trigger] s[j]),
    ensures
        forall|i: int, j: int|
            0 <= i < j < s.filter(pred).len() ==> f(#[trigger] s.filter(pred)[i]) != f(#[trigger] s.filter(pred)[j]),
    decreases s.len(),
{
    reveal(Seq::filter);
    if s.len() > 0 {
        let rest = s.drop_last();
        lemma_filter_keeps_distinct(rest, pred, f);
        let fr = rest.filter(pred);
        assert forall|i: int, j: int|
            0 <= i < j < s.filter(pred).len() implies f(#[trigger] s.filter(pred)[i]) != f(#[trigger] s.filter(pred)[j]) by {
            if pred(s.last()) && j == fr.len() {
                assert(s.filter(pred)[j] == s.last());
                assert(s.filter(pred)[i] == fr[i]);
                assert(fr.contains(fr[i]));
                rest.lemma_filter_contains_rev(pred, fr[i]);
                let k = choose|k: int| 0 <= k < rest.len() && rest[k] == fr[i];
                assert(s[k] == rest[k]);
                assert(f(s[k]) != f(s[s.len() - 1]));
            } else {
                assert(s.filter(pred)[i] == fr[i]);
                assert(s.filter(pred)[j] == fr[j]);
            }
        }
    }
}

/// An element of a filtered sequence is an element of the sequence that passes the filter.
pub proof fn lemma_filter_index<A>(s: Seq<A>, pred: spec_fn(A) -> bool, i: int) -> (k: int)
    requires
        0 <= i < s.filter(pred).len(),
    ensures
        0 <= k < s.len(),
        s[k] == s.filter(pred)[i],
        pred(s[k]),
{
    let x = s.filter(pred)[i];
    assert(s.filter(pred).contains(x));
    s.lemma_filter_contains_rev(pred, x);
    choose|k: int| 0 <= k < s.len() && s[k] == x
}

/// An element of a sequence that passes the filter is in the filtered sequence.
proof fn lemma_filter_keeps<A>(s: Seq<A>, pred: spec_fn(A) -> bool, k: int) -> (i: int)
    requires
        0 <= k < s.len(),
        pred(s[k]),
    ensures
        0 <= i < s.filter(pred).len(),
        s.filter(pred)[i] == s[k],
{
    s.lemma_filter_contains(pred, k);
    choose|i: int| 0 <= i < s.filter(pred).len() && s.filter(pred)[i] == s[k]
}

/// One analyzed operation `x` after `s`: candidates that all extend `s` and include every
/// plan that extends `s` with `x` next, stepped, filtered and found, track `s + [x]`.
proof fn lemma_track_step<O>(
    p: PolicyView,
    seeded: Seq<OperationsValidator<ExecutionPlanId>>,
    plans: Seq<ExecutionPlan<O>>,
    s: Seq<OperationIr>,
    x: OperationIr,
)
    requires
        p.num_operations == s.len(),
        seeded == (if p.num_operations == 0 {
            policy::seeded_candidates(plans, x)
        } else {
            p.candidates
        }),
        forall|k: int|
            0 <= k < seeded.len() ==> {
                &&& (#[trigger] seeded[k]).state is Validating
                &&& seeded[k].id < plans.len()
                &&& extends(plans[seeded[k].id as int].operations@, s)
            },
        forall|id: ExecutionPlanId|
            id < plans.len() && #[trigger] extends(plans[id as int].operations@, s) && plans[id as int].operations@[s.len() as int]
                == x ==> exists|k: int| 0 <= k < seeded.len() && seeded[k].id == id,
        distinct_plans(seeded),
        availables_track(p.availables, plans, s),
    ensures
        candidates_track(policy::policy_after_update(p, plans, x).candidates, plans, s.push(x)),
        availables_track(policy::policy_after_update(p, plans, x).availables, plans, s.push(x)),
        policy::policy_after_update(p, plans, x).num_operations == s.len() + 1,
{
    let m = s.len();
    let t = s.push(x);
    let stepped = policy::stepped_candidates(seeded, plans, x, p.num_operations);
    let next = policy::policy_after_update(p, plans, x);
    let settled_ids = policy::settled_ids(stepped);
    let remaining = policy::remaining_candidates(stepped);
    // What stepping does to each candidate.
    assert forall|k: int| 0 <= k < stepped.len() implies {
        let ops = plans[(#[trigger] stepped[k]).id as int].operations@;
        &&& stepped[k].id == seeded[k].id
        &&& (stepped[k].state is Validating <==> (extends(ops, t)))
        &&& (stepped[k].state is Found <==> (ops.len() == m + 1 && ops[m as int] == x))
        &&& (stepped[k].state is Found ==> stepped[k].state->size == ops.len())
    } by {
        let ops = plans[seeded[k].id as int].operations@;
        assert(stepped[k] == validator::validator_step(seeded[k], x, m, ops));
        assert(ops.len() == plans[seeded[k].id as int].operations.len());
        assert(extends(ops, s));
        if extends(ops, t) {
            assert(ops[m as int] == t[m as int]);
        }
        if ops.len() > m + 1 && ops[m as int] == x {
            assert forall|j: int| 0 <= j < t.len() implies ops[j] == t[j] by {
                if j < m {
                    assert(ops[j] == s[j]);
                }
            }
        }
    }
    assert(distinct_plans(stepped)) by {
        assert forall|i: int, j: int| 0 <= i < j < stepped.len() implies #[trigger] stepped[i].id != #[trigger] stepped[j].id by {
            assert(seeded[i].id != seeded[j].id);
        }
    }
    // The kept candidates are exactly the ones still matching.
    assert forall|k: int| 0 <= k < stepped.len() implies (settled_ids.contains(#[trigger] stepped[k].id) <==> !(stepped[k].state is Validating)) by {
        if !(stepped[k].state is Validating) {
            let i = lemma_filter_keeps(stepped, policy::settled(), k);
            assert(settled_ids[i] == stepped[k].id);
        }
        if settled_ids.contains(stepped[k].id) {
            let i = choose|i: int| 0 <= i < settled_ids.len() && settled_ids[i] == stepped[k].id;
            let j = lemma_filter_index(stepped, policy::settled(), i);
            if j != k {
                if j < k {
                    assert(stepped[j].id != stepped[k].id);
                } else {
                    assert(stepped[k].id != stepped[j].id);
                }
            }
        }
    }
    // Candidates of the next state.
    lemma_filter_keeps_distinct(stepped, policy::kept(settled_ids), |c: OperationsValidator<ExecutionPlanId>| c.id);
    assert forall|k: int| 0 <= k < remaining.len() implies {
        &&& (#[trigger] remaining[k]).state is Validating
        &&& remaining[k].id < plans.len()
        &&& extends(plans[remaining[k].id as int].operations@, t)
    } by {
        let i = lemma_filter_index(stepped, policy::kept(settled_ids), k);
        assert(stepped[i].id < plans.len());
    }
    assert forall|id: ExecutionPlanId| id < plans.len() && extends(#[trigger] plans[id as int].operations@, t) implies exists|k: int|
        0 <= k < remaining.len() && remaining[k].id == id by {
        let ops = plans[id as int].operations@;
        assert(extends(ops, s)) by {
            assert forall|j: int| 0 <= j < m implies ops[j] == s[j] by {
                assert(ops[j] == t[j]);
            }
        }
        assert(ops[m as int] == t[m as int]);
        let i = choose|i: int| 0 <= i < seeded.len() && seeded[i].id == id;
        assert(stepped[i].id == id);
        assert(stepped[i].state is Validating);
        let k = lemma_filter_keeps(stepped, policy::kept(settled_ids), i);
        assert(remaining[k].id == id);
    }
    // Available items of the next state.
    let found = policy::found_items(stepped, plans);
    let joined = p.availables + found;
    assert forall|k: int| 0 <= k < found.len() implies {
        &&& (#[trigger] found[k]).id < plans.len()
        &&& covered_by(plans[found[k].id as int].operations@, t)
        &&& found[k].size == plans[found[k].id as int].operations@.len()
    } by {
        let i = lemma_filter_index(stepped, policy::matched(), k);
        assert(found[k] == policy::found_item(plans)(stepped[i]));
        let ops = plans[stepped[i].id as int].operations@;
        assert(stepped[i].id < plans.len()) by {
            assert(seeded[i].id < plans.len());
        }
        assert(agrees(ops, t, ops.len() as int)) by {
            assert(extends(ops, s));
            assert forall|j: int| 0 <= j < ops.len() implies ops[j] == t[j] by {
                if j < m {
                    assert(ops[j] == s[j]);
                }
            }
        }
    }
    assert(availables_track(next.availables, plans, t)) by {
        assert forall|k: int| 0 <= k < next.availables.len() implies {
            &&& (#[trigger] next.availables[k]).id < plans.len()
            &&& covered_by(plans[next.availables[k].id as int].operations@, t)
            &&& next.availables[k].size == plans[next.availables[k].id as int].operations@.len()
        } by {
            assert(next.availables[k].id == joined[k].id);
            assert(next.availables[k].size == joined[k].size);
            if k < p.availables.len() {
                assert(joined[k] == p.availables[k]);
                let ops = plans[joined[k].id as int].operations@;
                assert(covered_by(ops, s));
                assert forall|j: int| 0 <= j < ops.len() implies ops[j] == t[j] by {
                    assert(ops[j] == s[j]);
                }
            } else {
                assert(joined[k] == found[k - p.availables.len()]);
            }
        }
        assert forall|id: ExecutionPlanId| id < plans.len() && covered_by(#[trigger] plans[id as int].operations@, t) implies exists|k: int|
            0 <= k < next.availables.len() && next.availables[k].id == id by {
            let ops = plans[id as int].operations@;
            if ops.len() <= m {
                assert(covered_by(ops, s)) by {
                    assert forall|j: int| 0 <= j < ops.len() implies ops[j] == s[j] by {
                        assert(ops[j] == t[j]);
                    }
                }
                let k = choose|k: int| 0 <= k < p.availables.len() && p.availables[k].id == id;
                assert(joined[k] == p.availables[k]);
                assert(next.availables[k].id == joined[k].id);
            } else {
                assert(extends(ops, s)) by {
                    assert forall|j: int| 0 <= j < m implies ops[j] == s[j] by {
                        assert(ops[j] == t[j]);
                    }
                }
                assert(ops[m as int] == t[m as int]);
                let i = choose|i: int| 0 <= i < seeded.len() && seeded[i].id == id;
                assert(stepped[i].id == id);
                assert(stepped[i].state is Found);
                let f = lemma_filter_keeps(stepped, policy::matched(), i);
                assert(found[f] == policy::found_item(plans)(stepped[i]));
                let k = p.availables.len() + f;
                assert(joined[k] == found[f]);
                assert(next.availables[k].id == joined[k].id);
            }
        }
    }
}

/// A fresh policy tracks the operations it is given: after analyzing any non-empty list of
/// operations `ops` against a fixed store, its candidates are exactly the plans whose
/// operations start with `ops` and go on past them, each once and still matching, and its
/// available items are exactly the plans whose operations are a non-empty prefix of `ops`,
/// each with its number of operations.
pub proof fn lemma_policy_tracks_plans<O>(plans: Seq<ExecutionPlan<O>>, ops: Seq<OperationIr>)
    requires
        ops.len() > 0,
        plans.len() <= usize::MAX,
    ensures
        policy_after(plans, ops).num_operations == ops.len(),
        candidates_track(policy_after(plans, ops).candidates, plans, ops),
        availables_track(policy_after(plans, ops).availables, plans, ops),
    decreases ops.len(),
{
    let s = ops.drop_last();
    let x = ops.last();
    assert(s.push(x) =~= ops);
    if s.len() == 0 {
        let p = policy::fresh_policy();
        assert(policy_after(plans, s) == p);
        let seeded = policy::seeded_candidates(plans, x);
        let all = Seq::new(plans.len(), |i: int| i as usize);
        let psw = store::plans_starting_with(plans, x);
        assert forall|k: int| 0 <= k < seeded.len() implies {
            &&& (#[trigger] seeded[k]).state is Validating
            &&& seeded[k].id < plans.len()
            &&& extends(plans[seeded[k].id as int].operations@, s)
        } by {
            let i = lemma_filter_index(all, store::starts_with(plans, x), k);
        }
        assert forall|id: ExecutionPlanId|
            id < plans.len() && #[trigger] extends(plans[id as int].operations@, s) && plans[id as int].operations@[s.len() as int]
                == x implies exists|k: int| 0 <= k < seeded.len() && seeded[k].id == id by {
            assert(all[id as int] == id);
            let k = lemma_filter_keeps(all, store::starts_with(plans, x), id as int);
            assert(seeded[k].id == id);
        }
        assert forall|i: int, j: int| 0 <= i < j < all.len() implies (|i: usize| i)(#[trigger] all[i]) != (|i: usize| i)(#[trigger] all[j]) by {
        }
        lemma_filter_keeps_distinct(all, store::starts_with(plans, x), |i: usize| i);
        assert(distinct_plans(seeded)) by {
            assert forall|i: int, j: int| 0 <= i < j < seeded.len() implies #[trigger] seeded[i].id != #[trigger] seeded[j].id by {
                assert(psw[i] != psw[j]);
            }
        }
        assert(availables_track(p.availables, plans, s));
        lemma_track_step(p, seeded, plans, s, x);
    } else {
        lemma_policy_tracks_plans(plans, s);
        let p = policy_after(plans, s);
        assert forall|id: ExecutionPlanId|
            id < plans.len() && #[trigger] extends(plans[id as int].operations@, s) && plans[id as int].operations@[s.len() as int]
                == x implies exists|k: int| 0 <= k < p.candidates.len() && p.candidates[k].id == id by {
        }
        lemma_track_step(p, p.candidates, plans, s, x);
    }
}

/// The state reached from the state `start` after analyzing the operations `ops`, in order.
pub open spec fn policy_run<O>(start: PolicyView, plans: Seq<ExecutionPlan<O>>, ops: Seq<OperationIr>) -> PolicyView
    decreases ops.len(),
{
    if ops.len() == 0 {
        start
    } else {
        policy::policy_after_update(policy_run(start, plans, ops.drop_last()), plans, ops.last())
    }
}

/// A reset policy behaves as a new one: `reset` leaves the fresh state whatever state it
/// was in, and after it and any later operations it is in the same state, and so takes
/// the same actions, as a new policy given the same operations. No plan found before the
/// reset is remembered.
pub proof fn lemma_reset_behaves_as_new<O>(
    after_reset: PolicyView,
    plans: Seq<ExecutionPlan<O>>,
    ops: Seq<OperationIr>,
    n: nat,
    mode: policy::ExecutionMode,
)
    requires
        after_reset == policy::fresh_policy(),
    ensures
        policy_run(after_reset, plans, ops) == policy_after(plans, ops),
        policy::policy_action(policy_run(after_reset, plans, ops), plans, n, mode) == policy::policy_action(
            policy_after(plans, ops),
            plans,
            n,
            mode,
        ),
    decreases ops.len(),
{
    if ops.len() > 0 {
        lemma_reset_behaves_as_new(after_reset, plans, ops.drop_last(), n, mode);
    }
}

/// A policy that follows an empty store stays empty: after any operations it holds no
/// candidate, no available plan and no found plan, has counted the operations, and in
/// either mode explores.
pub proof fn lemma_empty_store_explores<O>(
    plans: Seq<ExecutionPlan<O>>,
    ops: Seq<OperationIr>,
    n: nat,
    mode: policy::ExecutionMode,
)
    requires
        plans.len() == 0,
    ensures
        policy_after(plans, ops) == (PolicyView {
            candidates: Seq::empty(),
            availables: Seq::empty(),
            found: None,
            num_operations: ops.len(),
        }),
        policy::policy_action(policy_after(plans, ops), plans, n, mode) == policy::Action::Explore,
    decreases ops.len(),
{
    if ops.len() > 0 {
        lemma_empty_store_explores(plans, ops.drop_last(), n, mode);
        let p = policy_after(plans, ops.drop_last());
        let x = ops.last();
        let all = Seq::new(plans.len(), |i: int| i as usize);
        assert(all =~= Seq::<usize>::empty());
        all.lemma_filter_len(store::starts_with(plans, x));
        let seeded = if p.num_operations == 0 {
            policy::seeded_candidates(plans, x)
        } else {
            p.candidates
        };
        assert(seeded =~= Seq::<OperationsValidator<ExecutionPlanId>>::empty());
        let stepped = policy::stepped_candidates(seeded, plans, x, p.num_operations);
        assert(stepped =~= Seq::<OperationsValidator<ExecutionPlanId>>::empty());
        stepped.lemma_filter_len(policy::kept(policy::settled_ids(stepped)));
        stepped.lemma_filter_len(policy::matched());
        assert(policy::remaining_candidates(stepped) =~= Seq::<OperationsValidator<ExecutionPlanId>>::empty());
        assert(policy::found_items(stepped, plans) =~= Seq::<AvailableView>::empty());
        assert(p.availables + policy::found_items(stepped, plans) =~= Seq::<AvailableView>::empty());
        let next = policy_after(plans, ops);
        assert(next.availables =~= Seq::<AvailableView>::empty());
    }
    let last = policy_after(plans, ops);
    assert(policy::first_available_of_size(last.availables, n, 0) is None);
    assert(policy::first_candidate_of_len(last.candidates, plans, n, 0) is None);
}

} // verus!
