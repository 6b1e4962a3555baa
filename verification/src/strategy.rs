use std::sync::Arc;
use vstd::prelude::*;

verus! {

/// How a list of operations should be executed.
#[derive(PartialEq, Debug)]
pub enum ExecutionStrategy<O> {
    /// An optimization was found, and therefore should be executed.
    Optimization { opt: O, ordering: Arc<Vec<usize>>, score: u64 },
    /// No optimization was found, each operation should be executed individually.
    Operations { ordering: Arc<Vec<usize>> },
    /// A composition of multiple execution strategies.
    Composed(Vec<Box<ExecutionStrategy<O>>>),
}

/// How far an ordering of stream positions reaches: one past its largest
/// position, or zero when it names no position.
pub open spec fn ordering_reach(ordering: Seq<usize>) -> nat
    decreases ordering.len(),
{
    if ordering.len() == 0 {
        0
    } else {
        let rest = ordering_reach(ordering.drop_last());
        let last = (ordering.last() + 1) as nat;
        if last > rest {
            last
        } else {
            rest
        }
    }
}

/// How far a strategy reaches: the reach of its ordering, or for a composition
/// the furthest reach of any member.
pub open spec fn strategy_reach<O>(s: ExecutionStrategy<O>) -> nat
    decreases s, 0nat,
{
    match s {
        ExecutionStrategy::Optimization { ordering, .. } => ordering_reach(ordering@),
        ExecutionStrategy::Operations { ordering } => ordering_reach(ordering@),
        ExecutionStrategy::Composed(items) => members_reach(items@, items@.len()),
    }
}

/// The furthest reach among the first `n` members of a composition.
pub open spec fn members_reach<O>(items: Seq<Box<ExecutionStrategy<O>>>, n: nat) -> nat
    decreases items, n,
{
    if n == 0 || n > items.len() {
        0
    } else {
        let rest = members_reach(items, (n - 1) as nat);
        let last = strategy_reach(*items[n - 1]);
        if last > rest {
            last
        } else {
            rest
        }
    }
}

impl<O> ExecutionStrategy<O> {
    /// Execute the first `num_operations` operations one by one, in stream order.
    pub fn operations(num_operations: usize) -> (strategy: Self)
        ensures
            strategy matches ExecutionStrategy::Operations { ordering } && ordering@ == Seq::new(
                num_operations as nat,
                |i: int| i as usize,
            ),
            strategy_reach(strategy) == num_operations,
    {
        let mut ordering: Vec<usize> = Vec::with_capacity(num_operations);
        let mut i: usize = 0;
        while i < num_operations
            invariant
                0 <= i <= num_operations,
                ordering@ == Seq::new(i as nat, |k: int| k as usize),
            decreases num_operations - i,
        {
            ordering.push(i);
            proof {
                assert(ordering@ =~= Seq::new((i + 1) as nat, |k: int| k as usize));
            }
            i = i + 1;
        }
        proof {
            lemma_reach_of_contiguous_ordering(ordering@);
        }
        ExecutionStrategy::Operations { ordering: Arc::new(ordering) }
    }

    /// How many operations this strategy must be given before its orderings are
    /// safe to index: one past the highest position any of them names.
    pub fn required_operations(&self) -> (n: usize)
        requires
            strategy_reach(*self) <= usize::MAX,
        ensures
            n == strategy_reach(*self),
        decreases self,
    {
        match self {
            ExecutionStrategy::Optimization { ordering, .. } => ordering_required(ordering),
            ExecutionStrategy::Operations { ordering } => ordering_required(ordering),
            ExecutionStrategy::Composed(items) => {
                let mut best: usize = 0;
                let mut i: usize = 0;
                while i < items.len()
                    invariant
                        0 <= i <= items@.len(),
                        best == members_reach(items@, i as nat),
                        members_reach(items@, items@.len()) <= usize::MAX,
                        *self == ExecutionStrategy::<O>::Composed(*items),
                    decreases items@.len() - i,
                {
                    proof {
                        lemma_members_reach_monotone(items@, (i + 1) as nat, items@.len());
                        assert(decreases_to!(*self => (*self)->Composed_0));
                    }
                    let r = items[i].required_operations();
                    if r > best {
                        best = r;
                    }
                    i = i + 1;
                }
                best
            },
        }
    }
}

impl<O: Clone> Clone for ExecutionStrategy<O> {
    /// A copy of the strategy, with the same orderings and the same composition.
    fn clone(&self) -> (copy: Self)
        ensures
            is_copy(*self, copy),
            strategy_reach(copy) == strategy_reach(*self),
        decreases self,
    {
        match self {
            ExecutionStrategy::Optimization { opt, ordering, score } => ExecutionStrategy::Optimization {
                opt: opt.clone(),
                ordering: ordering.clone(),
                score: *score,
            },
            ExecutionStrategy::Operations { ordering } => ExecutionStrategy::Operations { ordering: ordering.clone() },
            ExecutionStrategy::Composed(items) => {
                let mut copies: Vec<Box<ExecutionStrategy<O>>> = Vec::with_capacity(items.len());
                let mut i: usize = 0;
                while i < items.len()
                    invariant
                        0 <= i <= items@.len(),
                        copies@.len() == i,
                        forall|k: int| 0 <= k < i ==> strategy_reach(*#[trigger] copies@[k]) == strategy_reach(*items@[k]),
                        forall|k: int| 0 <= k < i ==> is_copy(*items@[k], *#[trigger] copies@[k]),
                        *self == ExecutionStrategy::<O>::Composed(*items),
                    decreases items@.len() - i,
                {
                    proof {
                        assert(decreases_to!(*self => (*self)->Composed_0));
                    }
                    let copy = ExecutionStrategy::clone(&items[i]);
                    copies.push(Box::new(copy));
                    i = i + 1;
                }
                proof {
                    lemma_members_reach_congruent(copies@, items@, items@.len());
                    lemma_members_copied(items@, copies@, items@.len());
                }
                ExecutionStrategy::Composed(copies)
            },
        }
    }
}

/// Whether `copy` is a copy of `original`: the same variant, with equal orderings and
/// scores, a clone of the optimization, and for a composition, as many members, each a
/// copy of the member in the same place.
pub open spec fn is_copy<O: Clone>(original: ExecutionStrategy<O>, copy: ExecutionStrategy<O>) -> bool
    decreases original, 0nat,
{
    match original {
        ExecutionStrategy::Optimization { opt, ordering, score } => match copy {
            ExecutionStrategy::Optimization { opt: copied_opt, ordering: copied, score: copied_score } => {
                &&& copied@ == ordering@
                &&& copied_score == score
                &&& cloned(opt, copied_opt)
            },
            _ => false,
        },
        ExecutionStrategy::Operations { ordering } => match copy {
            ExecutionStrategy::Operations { ordering: copied } => copied@ == ordering@,
            _ => false,
        },
        ExecutionStrategy::Composed(items) => match copy {
            ExecutionStrategy::Composed(copies) => copies@.len() == items@.len() && members_copied(
                items@,
                copies@,
                items@.len(),
            ),
            _ => false,
        },
    }
}

/// Whether each of the first `n` members of `copies` is a copy of the member of `items` in
/// the same place.
pub open spec fn members_copied<O: Clone>(
    items: Seq<Box<ExecutionStrategy<O>>>,
    copies: Seq<Box<ExecutionStrategy<O>>>,
    n: nat,
) -> bool
    decreases items, n,
{
    if n == 0 || n > items.len() || n > copies.len() {
        n == 0
    } else {
        members_copied(items, copies, (n - 1) as nat) && is_copy(*items[n - 1], *copies[n - 1])
    }
}

proof fn lemma_members_copied<O: Clone>(
    items: Seq<Box<ExecutionStrategy<O>>>,
    copies: Seq<Box<ExecutionStrategy<O>>>,
    n: nat,
)
    requires
        n <= items.len(),
        n <= copies.len(),
        forall|k: int| 0 <= k < n ==> is_copy(*items[k], *#[trigger] copies[k]),
    ensures
        members_copied(items, copies, n),
    decreases n,
{
    if n > 0 {
        lemma_members_copied(items, copies, (n - 1) as nat);
    }
}

/// Two lists of members whose first `n` members reach equally far reach equally far.
proof fn lemma_members_reach_congruent<O>(
    a: Seq<Box<ExecutionStrategy<O>>>,
    b: Seq<Box<ExecutionStrategy<O>>>,
    n: nat,
)
    requires
        n <= a.len(),
        n <= b.len(),
        forall|k: int| 0 <= k < n ==> strategy_reach(*#[trigger] a[k]) == strategy_reach(*b[k]),
    ensures
        members_reach(a, n) == members_reach(b, n),
    decreases n,
{
    if n > 0 {
        lemma_members_reach_congruent(a, b, (n - 1) as nat);
    }
}

/// The reach of an ordering, computed as the largest position plus one.
fn ordering_required(ordering: &Arc<Vec<usize>>) -> (n: usize)
    requires
        ordering_reach(ordering@) <= usize::MAX,
    ensures
        n == ordering_reach(ordering@),
{
    let v: &Vec<usize> = ordering;
    let mut best: usize = 0;
    let mut i: usize = 0;
    while i < v.len()
        invariant
            0 <= i <= v@.len(),
            v@ == ordering@,
            best == ordering_reach(v@.take(i as int)),
            ordering_reach(v@) <= usize::MAX,
        decreases v@.len() - i,
    {
        proof {
            assert(v@.take(i + 1).drop_last() =~= v@.take(i as int));
            lemma_ordering_reach_prefix(v@, i + 1);
        }
        let x = v[i];
        if x + 1 > best {
            best = x + 1;
        }
        i = i + 1;
    }
    proof {
        assert(v@.take(v@.len() as int) =~= v@);
    }
    best
}

/// The reach of a prefix never exceeds the reach of the whole ordering.
pub proof fn lemma_ordering_reach_prefix(s: Seq<usize>, k: int)
    requires
        0 <= k <= s.len(),
    ensures
        ordering_reach(s.take(k)) <= ordering_reach(s),
    decreases s.len(),
{
    if k < s.len() {
        assert(s.drop_last().take(k) =~= s.take(k));
        lemma_ordering_reach_prefix(s.drop_last(), k);
    } else {
        assert(s.take(k) =~= s);
    }
}

/// The furthest reach of a shorter prefix of members never exceeds that of a
/// longer one.
pub proof fn lemma_members_reach_monotone<O>(items: Seq<Box<ExecutionStrategy<O>>>, m: nat, n: nat)
    requires
        m <= n <= items.len(),
    ensures
        members_reach(items, m) <= members_reach(items, n),
        0 < m ==> strategy_reach(*items[m - 1]) <= members_reach(items, n),
    decreases n,
{
    if m < n {
        lemma_members_reach_monotone(items, m, (n - 1) as nat);
    }
}

/// The reach of an ordering bounds every position it names, and is attained: it is one
/// past some named position, or zero for an ordering that names none.
pub proof fn lemma_ordering_reach_bounds(s: Seq<usize>)
    ensures
        forall|k: int| 0 <= k < s.len() ==> #[trigger] s[k] < ordering_reach(s),
        s.len() == 0 ==> ordering_reach(s) == 0,
        s.len() > 0 ==> exists|k: int| 0 <= k < s.len() && #[trigger] s[k] + 1 == ordering_reach(s),
    decreases s.len(),
{
    if s.len() > 0 {
        let rest = s.drop_last();
        lemma_ordering_reach_bounds(rest);
        assert forall|k: int| 0 <= k < s.len() implies #[trigger] s[k] < ordering_reach(s) by {
            if k < s.len() - 1 {
                assert(s[k] == rest[k]);
            }
        }
        if s.last() + 1 >= ordering_reach(rest) {
            assert(s[s.len() - 1] + 1 == ordering_reach(s));
        } else {
            let k = choose|k: int| 0 <= k < rest.len() && #[trigger] rest[k] + 1 == ordering_reach(rest);
            assert(s[k] + 1 == ordering_reach(s));
        }
    }
}

/// The reach of an ordering depends only on the positions it names, not on their order
/// nor on repetitions: it is the maximum, not the final entry.
pub proof fn lemma_reach_depends_only_on_positions(s: Seq<usize>, t: Seq<usize>)
    requires
        s.to_set() == t.to_set(),
    ensures
        ordering_reach(s) == ordering_reach(t),
{
    lemma_ordering_reach_bounds(s);
    lemma_ordering_reach_bounds(t);
    if s.len() > 0 {
        let k = choose|k: int| 0 <= k < s.len() && #[trigger] s[k] + 1 == ordering_reach(s);
        assert(s.to_set().contains(s[k]));
        let j = choose|j: int| 0 <= j < t.len() && t[j] == s[k];
        assert(t[j] < ordering_reach(t));
    } else if t.len() > 0 {
        assert(t.to_set().contains(t[0]));
    }
    if t.len() > 0 {
        let k = choose|k: int| 0 <= k < t.len() && #[trigger] t[k] + 1 == ordering_reach(t);
        assert(t.to_set().contains(t[k]));
        let j = choose|j: int| 0 <= j < s.len() && s[j] == t[k];
        assert(s[j] < ordering_reach(s));
    } else if s.len() > 0 {
        assert(s.to_set().contains(s[0]));
    }
}

/// A count is not a bound: an ordering of distinct positions reaches at least as far as
/// it has entries.
pub proof fn lemma_reach_bounds_count(s: Seq<usize>)
    requires
        s.no_duplicates(),
    ensures
        s.len() <= ordering_reach(s),
{
    let r = ordering_reach(s) as int;
    lemma_ordering_reach_bounds(s);
    let t = s.map_values(|x: usize| x as int);
    assert(t.no_duplicates()) by {
        assert forall|i: int, j: int| 0 <= i < t.len() && 0 <= j < t.len() && i != j implies t[i] != t[j] by {
            assert(s[i] != s[j]);
        }
    }
    t.unique_seq_to_set();
    vstd::set_lib::lemma_int_range(0, r);
    assert forall|x: int| t.to_set().contains(x) implies vstd::set_lib::set_int_range(0, r).contains(x) by {
        let k = choose|k: int| 0 <= k < t.len() && t[k] == x;
        assert(s[k] < r);
    }
    vstd::set_lib::lemma_len_subset(t.to_set(), vstd::set_lib::set_int_range(0, r));
}

/// An ordering that is exactly `0..n` reaches `n`: the one shape where count and reach agree.
pub proof fn lemma_reach_of_contiguous_ordering(s: Seq<usize>)
    requires
        forall|k: int| 0 <= k < s.len() ==> #[trigger] s[k] == k,
    ensures
        ordering_reach(s) == s.len(),
{
    lemma_ordering_reach_bounds(s);
    if s.len() > 0 {
        assert(s[s.len() - 1] < ordering_reach(s));
        let k = choose|k: int| 0 <= k < s.len() && #[trigger] s[k] + 1 == ordering_reach(s);
    }
}

/// A composition reaches as far as its furthest member, and no further: every member
/// indexes the same operations, so the maximum governs rather than the sum.
pub proof fn lemma_composition_reach<O>(items: Seq<Box<ExecutionStrategy<O>>>)
    ensures
        forall|k: int| 0 <= k < items.len() ==> strategy_reach(*#[trigger] items[k]) <= members_reach(items, items.len()),
        items.len() == 0 ==> members_reach(items, items.len()) == 0,
        items.len() > 0 ==> exists|k: int| 0 <= k < items.len() && strategy_reach(*#[trigger] items[k]) == members_reach(items, items.len()),
{
    assert forall|k: int| 0 <= k < items.len() implies strategy_reach(*#[trigger] items[k]) <= members_reach(items, items.len()) by {
        lemma_members_reach_monotone(items, (k + 1) as nat, items.len());
    }
    if items.len() > 0 {
        lemma_members_reach_attained(items, items.len());
    }
}

proof fn lemma_members_reach_attained<O>(items: Seq<Box<ExecutionStrategy<O>>>, n: nat)
    requires
        0 < n <= items.len(),
    ensures
        exists|k: int| 0 <= k < n && strategy_reach(*#[trigger] items[k]) == members_reach(items, n),
    decreases n,
{
    if n > 1 {
        lemma_members_reach_attained(items, (n - 1) as nat);
        if strategy_reach(*items[n - 1]) <= members_reach(items, (n - 1) as nat) {
            let k = choose|k: int| 0 <= k < n - 1 && strategy_reach(*#[trigger] items[k]) == members_reach(items, (n - 1) as nat);
            assert(strategy_reach(*items[k]) == members_reach(items, n));
        } else {
            assert(strategy_reach(*items[n - 1]) == members_reach(items, n));
        }
    } else {
        assert(members_reach(items, 0) == 0);
        assert(strategy_reach(*items[0]) == members_reach(items, n));
    }
}

} // verus!
