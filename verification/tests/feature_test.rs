use std::cell::Cell;
use std::rc::Rc;
use vrp_model::feature::{
    CompositionError, ConstraintViolation, Cost, Feature, FeatureCombinator, StateKey, ViolationCode,
};

type Check = Box<dyn Fn(&usize) -> Option<ConstraintViolation>>;
type Estimate = Box<dyn Fn(&usize) -> Cost>;
type Update = Box<dyn Fn(&usize, Vec<i64>) -> Vec<i64>>;
type TestFeature = Feature<Check, Estimate, Update>;

fn feature(name: &str) -> TestFeature {
    Feature { name: name.to_string(), constraint: None, objective: None, state: None, state_keys: vec![] }
}

fn deny(code: i32) -> Option<ConstraintViolation> {
    Some(ConstraintViolation { code: ViolationCode(code), stopped: false })
}

fn with_cost(name: &str, cost: Cost) -> TestFeature {
    let mut feature = feature(name);
    feature.objective = Some(Box::new(move |_| cost));
    feature
}

fn with_state(name: &str, keys: Vec<usize>) -> TestFeature {
    let mut feature = feature(name);
    feature.state_keys = keys.into_iter().map(StateKey).collect();
    feature.state = Some(Box::new(|_, state| state));
    feature
}

fn counted(name: &str, calls: Rc<Cell<usize>>, verdict: Option<ConstraintViolation>) -> TestFeature {
    let mut feature = feature(name);
    feature.constraint = Some(Box::new(move |_| {
        calls.set(calls.get() + 1);
        verdict
    }));
    feature
}

fn combine(features: Vec<TestFeature>) -> FeatureCombinator<Check, Estimate, Update> {
    match FeatureCombinator::combine(features) {
        Ok(combined) => combined,
        Err(_) => panic!("features collide"),
    }
}

#[test]
fn first_denial_stops_evaluation() {
    let first = Rc::new(Cell::new(0));
    let second = Rc::new(Cell::new(0));
    let combined =
        combine(vec![counted("first", first.clone(), deny(1)), counted("second", second.clone(), deny(2))]);

    let verdict = combined.evaluate(&0);

    assert_eq!(verdict, deny(1));
    assert_eq!(first.get(), 1);
    assert_eq!(second.get(), 0);
}

#[test]
fn constraints_are_asked_in_declared_order() {
    let first = Rc::new(Cell::new(0));
    let third = Rc::new(Cell::new(0));
    let combined = combine(vec![
        counted("first", first.clone(), None),
        with_cost("second", 5),
        counted("third", third.clone(), deny(3)),
    ]);

    assert_eq!(combined.evaluate(&0), deny(3));
    assert_eq!((first.get(), third.get()), (1, 1));
    assert_eq!(combined.len(), 3);
}

#[test]
fn allows_when_no_feature_denies() {
    let calls = Rc::new(Cell::new(0));
    let combined = combine(vec![counted("a", calls.clone(), None), counted("b", calls.clone(), None)]);

    assert_eq!(combined.evaluate(&0), None);
    assert_eq!(calls.get(), 2);
    assert_eq!(combine(vec![]).evaluate(&0), None);
}

#[test]
fn cost_is_sum_in_any_order() {
    let orders: [[Cost; 3]; 6] =
        [[1000, 2500, 0], [1000, 0, 2500], [2500, 1000, 0], [2500, 0, 1000], [0, 1000, 2500], [0, 2500, 1000]];

    for order in orders {
        let combined = combine(order.iter().map(|cost| with_cost("cost", *cost)).collect());
        assert_eq!(combined.cost(&0), 3500);
    }
}

#[test]
fn feature_without_objective_costs_nothing() {
    let combined = combine(vec![with_cost("a", 7), with_state("b", vec![1]), with_cost("c", -9)]);

    assert_eq!(combined.cost(&0), -2);
    assert_eq!(combine(vec![]).cost(&0), 0);
}

#[test]
fn cost_does_not_overflow() {
    let combined = combine(vec![with_cost("a", i64::MAX), with_cost("b", i64::MAX), with_cost("c", 1)]);

    assert_eq!(combined.cost(&0), 2 * (i64::MAX as i128) + 1);
}

#[test]
fn colliding_state_slots_fail_composition() {
    let calls = Rc::new(Cell::new(0));
    let features = vec![
        counted("constraint", calls.clone(), None),
        with_state("capacity", vec![1, 2]),
        with_state("distance", vec![3]),
        with_state("load", vec![4, 2]),
    ];

    let result = FeatureCombinator::combine(features);

    match result {
        Err(error) => {
            assert_eq!(error, CompositionError::SlotCollision { first: 1, second: 3, key: StateKey(2) })
        }
        Ok(_) => panic!("collision is not detected"),
    }
    assert_eq!(calls.get(), 0);
}

#[test]
fn disjoint_state_slots_compose() {
    let features = vec![with_state("a", vec![1, 1]), with_state("b", vec![2]), with_state("c", vec![])];

    assert!(FeatureCombinator::combine(features).is_ok());
}

#[test]
fn state_updates_see_earlier_updates() {
    let mut push = feature("push");
    push.state_keys = vec![StateKey(1)];
    push.state = Some(Box::new(|ctx, mut state| {
        state.push(*ctx as i64);
        state
    }));
    let mut double = feature("double");
    double.state_keys = vec![StateKey(2)];
    double.state = Some(Box::new(|_, state| state.iter().map(|value| value * 2).collect()));

    let forward = combine(vec![push, with_cost("cost", 1), double]);

    assert_eq!(forward.accept(&3, vec![1]), vec![2, 6]);
}

#[test]
fn feature_needs_a_capability() {
    let result = FeatureCombinator::combine(vec![with_cost("cost", 1), feature("idle"), feature("idle too")]);

    assert_eq!(result.err(), Some(CompositionError::NoCapability { feature: 1 }));
}

#[test]
fn state_slots_need_state_capability() {
    let mut claims = with_cost("claims", 1);
    claims.state_keys = vec![StateKey(1)];

    let result = FeatureCombinator::combine(vec![with_state("state", vec![1]), claims, feature("idle")]);

    assert_eq!(result.err(), Some(CompositionError::SlotsWithoutState { feature: 1 }));
}
