//! Features and their composition: constraints are asked in the declared
//! order until one denies, objective costs are added up, and state updates
//! are applied one after the other.

use vstd::prelude::*;

verus! {

/// Enumerated reason of a denial.
#[derive(Clone, Copy, Debug, PartialEq, Eq, Structural, Hash)]
pub struct ViolationCode(pub i32);

/// A denial of a candidate move.
#[derive(Clone, Copy, Debug, PartialEq, Eq, Structural)]
pub struct ConstraintViolation {
    /// Why the move is denied.
    pub code: ViolationCode,
    /// Whether the denial holds for every other position in the route too.
    pub stopped: bool,
}

/// Name of a state slot.
#[derive(Clone, Copy, Debug, PartialEq, Eq, Structural, Hash)]
pub struct StateKey(pub usize);

/// Cost in the smallest unit of cost; lower is better.
pub type Cost = i64;

/// Why features cannot be combined.
#[derive(Clone, Copy, Debug, PartialEq, Eq, Structural)]
pub enum CompositionError {
    /// Two features claim the same state slot. The features are named by
    /// their positions in the declared order.
    SlotCollision { first: usize, second: usize, key: StateKey },
    /// The feature at the position has none of the three capabilities.
    NoCapability { feature: usize },
    /// The feature at the position claims state slots and has no state
    /// capability which could write them.
    SlotsWithoutState { feature: usize },
}

/// A unit with any of three capabilities: `constraint` allows or denies a
/// move, `objective` gives the move's cost, and `state` updates the
/// accumulators after a move. A capability which the feature lacks is absent.
pub struct Feature<C, O, S> {
    pub name: String,
    pub constraint: Option<C>,
    pub objective: Option<O>,
    pub state: Option<S>,
    /// The state slots which the state capability writes.
    pub state_keys: Vec<StateKey>,
}

/// Whether the feature claims the slot.
pub open spec fn claims<C, O, S>(feature: Feature<C, O, S>, key: StateKey) -> bool {
    feature.state_keys@.contains(key)
}

/// Whether the feature has a capability, and claims state slots only with
/// the state capability.
pub open spec fn consistent<C, O, S>(feature: Feature<C, O, S>) -> bool {
    &&& feature.constraint is Some || feature.objective is Some || feature.state is Some
    &&& feature.state is None ==> feature.state_keys@.len() == 0
}

/// Whether every feature is consistent.
pub open spec fn all_consistent<C, O, S>(features: Seq<Feature<C, O, S>>) -> bool {
    forall|i: int| 0 <= i < features.len() ==> consistent(#[trigger] features[i])
}

/// Whether two features claim a common slot.
pub open spec fn collide<C, O, S>(left: Feature<C, O, S>, right: Feature<C, O, S>) -> bool {
    exists|key: StateKey| claims(left, key) && claims(right, key)
}

/// Whether no two of the features claim a common slot.
pub open spec fn disjoint_slots<C, O, S>(features: Seq<Feature<C, O, S>>) -> bool {
    forall|i: int, j: int| 0 <= i < j < features.len() ==> !collide(features[i], features[j])
}

/// The sum of the costs.
pub open spec fn total(costs: Seq<Cost>) -> int
    decreases costs.len(),
{
    if costs.len() == 0 {
        0
    } else {
        total(costs.drop_last()) + costs.last()
    }
}

/// Whether the verdict is one which the feature's constraint gives on the
/// move. A feature without a constraint allows every move.
pub open spec fn gives_verdict<Ctx, C: Fn(&Ctx) -> Option<ConstraintViolation>, O, S>(
    feature: Feature<C, O, S>,
    ctx: &Ctx,
    verdict: Option<ConstraintViolation>,
) -> bool {
    match feature.constraint {
        Some(check) => call_ensures(check, (ctx,), verdict),
        None => verdict is None,
    }
}

/// Whether the verdict is the one of the features together: the denial of the
/// first feature which denies, after every feature before it allowed; or no
/// denial, where every feature allows.
pub open spec fn first_denial<Ctx, C: Fn(&Ctx) -> Option<ConstraintViolation>, O, S>(
    features: Seq<Feature<C, O, S>>,
    ctx: &Ctx,
    verdict: Option<ConstraintViolation>,
) -> bool {
    match verdict {
        Some(violation) => exists|k: int|
            0 <= k < features.len() && #[trigger] gives_verdict(features[k], ctx, verdict) && forall|j: int|
                0 <= j < k ==> #[trigger] gives_verdict(features[j], ctx, None),
        None => forall|j: int| 0 <= j < features.len() ==> #[trigger] gives_verdict(features[j], ctx, None),
    }
}

/// Whether the cost is one which the feature's objective gives on the move.
/// A feature without an objective contributes nothing.
pub open spec fn gives_cost<Ctx, C, O: Fn(&Ctx) -> Cost, S>(feature: Feature<C, O, S>, ctx: &Ctx, cost: Cost) -> bool {
    match feature.objective {
        Some(estimate) => call_ensures(estimate, (ctx,), cost),
        None => cost == 0,
    }
}

/// Whether the costs are those of the features, one for each in the declared
/// order.
pub open spec fn gives_costs<Ctx, C, O: Fn(&Ctx) -> Cost, S>(
    features: Seq<Feature<C, O, S>>,
    ctx: &Ctx,
    costs: Seq<Cost>,
) -> bool {
    &&& costs.len() == features.len()
    &&& forall|i: int| 0 <= i < features.len() ==> #[trigger] gives_cost(features[i], ctx, costs[i])
}

/// Whether the feature's state update takes the one state to the other on
/// the move. A feature without state leaves the state as it is.
pub open spec fn gives_state<Ctx, St, C, O, S: Fn(&Ctx, St) -> St>(
    feature: Feature<C, O, S>,
    ctx: &Ctx,
    before: St,
    after: St,
) -> bool {
    match feature.state {
        Some(update) => call_ensures(update, (ctx, before), after),
        None => after == before,
    }
}

/// Whether the states are those which the features' updates pass through in
/// the declared order: each feature starts from the state which the feature
/// before it left.
pub open spec fn gives_states<Ctx, St, C, O, S: Fn(&Ctx, St) -> St>(
    features: Seq<Feature<C, O, S>>,
    ctx: &Ctx,
    states: Seq<St>,
) -> bool {
    &&& states.len() == features.len() + 1
    &&& forall|i: int|
        0 <= i < features.len() ==> #[trigger] gives_state(features[i], ctx, states[i], states[i + 1])
}

/// The sum of as many costs stays within as many times the range of a cost.
pub proof fn lemma_total_bounds(costs: Seq<Cost>)
    ensures
        -(costs.len() * 0x8000_0000_0000_0000) <= total(costs) <= costs.len() * 0x7fff_ffff_ffff_ffff,
    decreases costs.len(),
{
    if costs.len() > 0 {
        lemma_total_bounds(costs.drop_last());
        assert((costs.len() - 1) * 0x8000_0000_0000_0000 + 0x8000_0000_0000_0000 == costs.len()
            * 0x8000_0000_0000_0000) by (nonlinear_arith);
        assert((costs.len() - 1) * 0x7fff_ffff_ffff_ffff + 0x7fff_ffff_ffff_ffff == costs.len()
            * 0x7fff_ffff_ffff_ffff) by (nonlinear_arith);
    }
}

/// The sum is the sum without one cost, and that cost.
pub proof fn lemma_total_remove(costs: Seq<Cost>, at: int)
    requires
        0 <= at < costs.len(),
    ensures
        total(costs) == total(costs.remove(at)) + costs[at],
    decreases costs.len(),
{
    if at == costs.len() - 1 {
        assert(costs.remove(at) =~= costs.drop_last());
    } else {
        lemma_total_remove(costs.drop_last(), at);
        assert(costs.remove(at).drop_last() =~= costs.drop_last().remove(at));
        assert(costs.remove(at).last() == costs.last());
    }
}

/// The sum of the costs does not depend on the order in which the features
/// are declared: the same costs in another order have the same sum.
pub proof fn lemma_total_any_order(left: Seq<Cost>, right: Seq<Cost>)
    requires
        left.to_multiset() == right.to_multiset(),
    ensures
        total(left) == total(right),
    decreases left.len(),
{
    broadcast use vstd::multiset::group_multiset_axioms;

    vstd::seq_lib::to_multiset_len(left);
    vstd::seq_lib::to_multiset_len(right);
    if left.len() > 0 {
        let cost = left.last();
        let front = left.drop_last();
        assert(left =~= front.push(cost));
        vstd::seq_lib::to_multiset_build(front, cost);
        vstd::seq_lib::to_multiset_contains(right, cost);
        assert(left.to_multiset().count(cost) > 0);
        assert(right.contains(cost));
        let at = right.index_of(cost);
        vstd::seq_lib::to_multiset_remove(right, at);
        assert(front.to_multiset() =~= right.remove(at).to_multiset());
        lemma_total_any_order(front, right.remove(at));
        lemma_total_remove(right, at);
    }
}

/// Tells whether the keys hold the key.
pub fn holds(keys: &Vec<StateKey>, key: StateKey) -> (r: bool)
    ensures
        r == keys@.contains(key),
{
    let mut i: usize = 0;
    while i < keys.len()
        invariant
            i <= keys.len(),
            forall|k: int| 0 <= k < i ==> keys@[k] != key,
        decreases keys.len() - i,
    {
        if keys[i] == key {
            return true;
        }
        i += 1;
    }
    false
}

/// Finds a slot which both lists of keys hold: the first such key of the
/// left list.
pub fn common_key(left: &Vec<StateKey>, right: &Vec<StateKey>) -> (r: Option<StateKey>)
    ensures
        r is None <==> forall|key: StateKey| !(left@.contains(key) && right@.contains(key)),
        r is Some ==> left@.contains(r.unwrap()) && right@.contains(r.unwrap()),
        r is Some ==> exists|a: int|
            0 <= a < left@.len() && #[trigger] left@[a] == r.unwrap() && right@.contains(left@[a]) && forall|b: int|
                0 <= b < a ==> !right@.contains(#[trigger] left@[b]),
{
    let mut a: usize = 0;
    while a < left.len()
        invariant
            a <= left.len(),
            forall|b: int| 0 <= b < a ==> !right@.contains(#[trigger] left@[b]),
        decreases left.len() - a,
    {
        if holds(right, left[a]) {
            return Some(left[a]);
        }
        a += 1;
    }
    proof {
        assert forall|key: StateKey| !(left@.contains(key) && right@.contains(key)) by {
            if left@.contains(key) {
                let w = left@.index_of(key);
                assert(!right@.contains(left@[w]));
            }
        }
    }
    None
}

/// An ordered list of features with pairwise disjoint state slots, which acts
/// as one feature.
pub struct FeatureCombinator<C, O, S> {
    features: Vec<Feature<C, O, S>>,
}

impl<C, O, S> FeatureCombinator<C, O, S> {
    /// The features in the declared order.
    pub closed spec fn view(&self) -> Seq<Feature<C, O, S>> {
        self.features@
    }

    /// Every feature is consistent, and no two features claim a common slot.
    pub open spec fn wf(&self) -> bool {
        all_consistent(self@) && disjoint_slots(self@)
    }

    /// Combines the features in the given order. Fails where a feature is
    /// not consistent, and names the first such feature; else where two
    /// features claim a common state slot, and names the first such pair.
    pub fn combine(features: Vec<Feature<C, O, S>>) -> (r: Result<Self, CompositionError>)
        ensures
            r is Ok <==> all_consistent(features@) && disjoint_slots(features@),
            r is Ok ==> r.unwrap().wf() && r.unwrap()@ == features@,
            match r {
                Err(CompositionError::NoCapability { feature }) => {
                    &&& feature < features@.len()
                    &&& forall|i: int| 0 <= i < feature ==> consistent(#[trigger] features@[i])
                    &&& features@[feature as int].constraint is None
                    &&& features@[feature as int].objective is None
                    &&& features@[feature as int].state is None
                },
                Err(CompositionError::SlotsWithoutState { feature }) => {
                    &&& feature < features@.len()
                    &&& forall|i: int| 0 <= i < feature ==> consistent(#[trigger] features@[i])
                    &&& features@[feature as int].constraint is Some || features@[feature as int].objective is Some
                    &&& features@[feature as int].state is None
                    &&& features@[feature as int].state_keys@.len() > 0
                },
                Err(CompositionError::SlotCollision { first, second, key }) => {
                    &&& all_consistent(features@)
                    &&& first < second < features@.len()
                    &&& claims(features@[first as int], key)
                    &&& claims(features@[second as int], key)
                    &&& forall|i: int, j: int|
                        0 <= i < j < features@.len() && (i < first || (i == first && j < second)) ==> !collide(
                            features@[i],
                            features@[j],
                        )
                },
                Ok(_) => true,
            },
    {
        let n = features.len();
        let mut c: usize = 0;
        while c < n
            invariant
                n == features.len(),
                c <= n,
                forall|x: int| 0 <= x < c ==> consistent(#[trigger] features@[x]),
            decreases n - c,
        {
            let feature = &features[c];
            if feature.state.is_none() {
                if feature.constraint.is_none() && feature.objective.is_none() {
                    assert(!consistent(features@[c as int]));
                    return Err(CompositionError::NoCapability { feature: c });
                }
                if feature.state_keys.len() > 0 {
                    assert(!consistent(features@[c as int]));
                    return Err(CompositionError::SlotsWithoutState { feature: c });
                }
            }
            c += 1;
        }
        let mut i: usize = 0;
        while i < n
            invariant
                n == features.len(),
                i <= n,
                all_consistent(features@),
                forall|x: int, y: int| 0 <= x < y < n && x < i ==> !collide(features@[x], features@[y]),
            decreases n - i,
        {
            let mut j: usize = i + 1;
            while j < n
                invariant
                    n == features.len(),
                    i < n,
                    i < j <= n,
                    all_consistent(features@),
                    forall|x: int, y: int| 0 <= x < y < n && x < i ==> !collide(features@[x], features@[y]),
                    forall|y: int| i < y < j ==> !collide(features@[i as int], features@[y]),
                decreases n - j,
            {
                match common_key(&features[i].state_keys, &features[j].state_keys) {
                    Some(key) => {
                        proof {
                            assert(claims(features@[i as int], key) && claims(features@[j as int], key));
                            assert(collide(features@[i as int], features@[j as int]));
                        }
                        return Err(CompositionError::SlotCollision { first: i, second: j, key });
                    },
                    None => {},
                }
                j += 1;
            }
            i += 1;
        }
        Ok(FeatureCombinator { features })
    }

    /// Asks the constraints in the declared order and returns the first
    /// denial. The constraints after a denial are not asked.
    pub fn evaluate<Ctx>(&self, ctx: &Ctx) -> (r: Option<ConstraintViolation>) where
        C: Fn(&Ctx) -> Option<ConstraintViolation>,

        requires
            forall|i: int|
                0 <= i < self@.len() && (#[trigger] self@[i]).constraint is Some ==> call_requires(
                    self@[i].constraint.unwrap(),
                    (ctx,),
                ),
        ensures
            first_denial(self@, ctx, r),
    {
        let n = self.features.len();
        let mut i: usize = 0;
        while i < n
            invariant
                n == self.features.len(),
                i <= n,
                forall|i: int|
                    0 <= i < self@.len() && (#[trigger] self@[i]).constraint is Some ==> call_requires(
                        self@[i].constraint.unwrap(),
                        (ctx,),
                    ),
                forall|j: int| 0 <= j < i ==> #[trigger] gives_verdict(self@[j], ctx, None),
            decreases n - i,
        {
            assert(self@[i as int] == self.features@[i as int]);
            match &self.features[i].constraint {
                Some(check) => {
                    let verdict = check(ctx);
                    if verdict.is_some() {
                        proof {
                            assert(gives_verdict(self@[i as int], ctx, verdict));
                        }
                        return verdict;
                    }
                },
                None => {},
            }
            i += 1;
        }
        None
    }

    /// Adds up the costs which the objectives give, each asked once in the
    /// declared order.
    pub fn cost<Ctx>(&self, ctx: &Ctx) -> (r: i128) where O: Fn(&Ctx) -> Cost
        requires
            forall|i: int|
                0 <= i < self@.len() && (#[trigger] self@[i]).objective is Some ==> call_requires(
                    self@[i].objective.unwrap(),
                    (ctx,),
                ),
        ensures
            exists|costs: Seq<Cost>| #[trigger] gives_costs(self@, ctx, costs) && r == total(costs),
    {
        let n = self.features.len();
        let mut sum: i128 = 0;
        let ghost mut costs: Seq<Cost> = Seq::empty();
        let mut i: usize = 0;
        while i < n
            invariant
                n == self.features.len(),
                i <= n,
                forall|i: int|
                    0 <= i < self@.len() && (#[trigger] self@[i]).objective is Some ==> call_requires(
                        self@[i].objective.unwrap(),
                        (ctx,),
                    ),
                costs.len() == i,
                forall|j: int| 0 <= j < i ==> #[trigger] gives_cost(self@[j], ctx, costs[j]),
                sum == total(costs),
            decreases n - i,
        {
            assert(self@[i as int] == self.features@[i as int]);
            let cost: Cost = match &self.features[i].objective {
                Some(estimate) => estimate(ctx),
                None => 0,
            };
            proof {
                let ghost more = costs.push(cost);
                assert(more.drop_last() =~= costs);
                lemma_total_bounds(costs);
                lemma_total_bounds(more);
                assert(i * 0x8000_0000_0000_0000 <= 0xffff_ffff_ffff_ffff * 0x8000_0000_0000_0000)
                    by (nonlinear_arith)
                    requires
                        i <= 0xffff_ffff_ffff_ffff,
                ;
                assert(forall|j: int| 0 <= j < i ==> more[j] == costs[j]);
                costs = more;
            }
            sum = sum + cost as i128;
            i += 1;
        }
        proof {
            assert(gives_costs(self@, ctx, costs));
        }
        sum
    }

    /// Applies the state updates in the declared order: each feature gets the
    /// state which the features before it left.
    pub fn accept<Ctx, St>(&self, ctx: &Ctx, state: St) -> (r: St) where S: Fn(&Ctx, St) -> St
        requires
            forall|i: int, before: St|
                0 <= i < self@.len() && (#[trigger] self@[i]).state is Some ==> #[trigger] call_requires(
                    self@[i].state.unwrap(),
                    (ctx, before),
                ),
        ensures
            exists|states: Seq<St>| #[trigger]
                gives_states(self@, ctx, states) && states.first() == state && states.last() == r,
    {
        let n = self.features.len();
        let ghost mut states: Seq<St> = seq![state];
        let mut current = state;
        let mut i: usize = 0;
        while i < n
            invariant
                n == self.features.len(),
                i <= n,
                forall|i: int, before: St|
                    0 <= i < self@.len() && (#[trigger] self@[i]).state is Some ==> #[trigger] call_requires(
                        self@[i].state.unwrap(),
                        (ctx, before),
                    ),
                states.len() == i + 1,
                states.first() == state,
                states.last() == current,
                forall|j: int| 0 <= j < i ==> #[trigger] gives_state(self@[j], ctx, states[j], states[j + 1]),
            decreases n - i,
        {
            let ghost before = states;
            assert(self@[i as int] == self.features@[i as int]);
            let next = match &self.features[i].state {
                Some(update) => update(ctx, current),
                None => current,
            };
            proof {
                states = before.push(next);
                assert(forall|j: int| 0 <= j <= i ==> states[j] == before[j]);
                assert(gives_state(self@[i as int], ctx, states[i as int], states[i + 1]));
            }
            current = next;
            i += 1;
        }
        proof {
            assert(gives_states(self@, ctx, states));
        }
        current
    }

    /// The number of features.
    pub fn len(&self) -> (n: usize)
        ensures
            n == self@.len(),
    {
        self.features.len()
    }
}

} // verus!
