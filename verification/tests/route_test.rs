use vrp_model::enablers::{
    conditional_job, group_keys, has_skills, multi_trip, reserved_time, reserved_within, route_intervals,
};
use vrp_model::feature::{ConstraintViolation, ViolationCode};
use vrp_model::route::{Actor, Costs, RouteContext, RouteSummary};
use vrp_model::solution::SolutionContext;
use vrp_model::tour::{Activity, Job, Place, Schedule, StructuralError, TimeWindow, Tour};

fn visit(location: usize, duration: u64, job: Option<Job>) -> Activity {
    Activity {
        place: Place { location, duration, time: TimeWindow { start: 0, end: u64::MAX } },
        schedule: Schedule { arrival: 0, departure: 0, waiting: 0 },
        job,
    }
}

fn actor(vehicle: usize, capacity: u64, skills: u64) -> Actor {
    Actor { vehicle, costs: Costs { fixed: 10, per_distance: 1, per_time: 2 }, capacity, skills }
}

fn route(jobs: &[usize]) -> RouteContext {
    let mut route = RouteContext::new(actor(0, 10, 0));
    route.set_start(visit(0, 0, None)).unwrap();
    route.set_end(visit(0, 0, None)).unwrap();
    for job in jobs {
        route.insert_last(visit(*job, 5, Some(Job::Single(*job)))).unwrap();
    }
    route
}

fn tour(jobs: &[usize]) -> Tour {
    let mut tour = Tour::new();
    tour.set_start(visit(0, 0, None)).unwrap();
    tour.set_end(visit(0, 0, None)).unwrap();
    for job in jobs {
        tour.insert_last(visit(*job, 5, Some(Job::Single(*job)))).unwrap();
    }
    tour
}

fn denied(code: i32) -> Option<ConstraintViolation> {
    Some(ConstraintViolation { code: ViolationCode(code), stopped: true })
}

#[test]
fn new_route_has_fresh_summary() {
    let route = RouteContext::new(actor(3, 10, 0));

    assert!(!route.is_stale());
    assert_eq!(route.summary(), Some(RouteSummary { activities: 0, job_activities: 0, jobs: 0, service_time: 0 }));
    assert_eq!(route.actor().vehicle, 3);
    assert_eq!(route.tour().total(), 0);
}

#[test]
fn summary_is_stale_after_change_until_refresh() {
    let mut route = route(&[1, 2, 1]);

    assert!(route.is_stale());
    assert_eq!(route.summary(), None);

    route.refresh();

    assert!(!route.is_stale());
    assert_eq!(route.summary(), Some(RouteSummary { activities: 5, job_activities: 3, jobs: 2, service_time: 15 }));

    assert!(route.remove(&Job::Single(1)));
    assert!(route.is_stale());
    route.refresh();
    assert_eq!(route.summary(), Some(RouteSummary { activities: 3, job_activities: 1, jobs: 1, service_time: 5 }));
}

#[test]
fn failed_change_keeps_summary_fresh() {
    let mut route = route(&[1]);
    route.refresh();

    assert_eq!(route.insert_at(visit(2, 1, Some(Job::Single(2))), 0), Err(StructuralError::InvalidIndex));
    assert_eq!(route.insert_at(visit(2, 1, Some(Job::Single(2))), 3), Err(StructuralError::InvalidIndex));
    assert_eq!(route.set_start(visit(2, 1, Some(Job::Single(2)))), Err(StructuralError::AnchorWithJob));
    assert_eq!(route.set_end(visit(2, 1, Some(Job::Single(2)))), Err(StructuralError::AnchorWithJob));
    assert!(!route.remove(&Job::Single(2)));

    assert!(!route.is_stale());
    assert!(route.summary().is_some());

    assert_eq!(route.insert_at(visit(2, 1, Some(Job::Single(2))), 2), Ok(()));
    assert!(route.is_stale());
}

#[test]
fn solution_is_stale_while_a_route_is() {
    let mut solution = SolutionContext::new();
    assert!(!solution.is_stale());
    let mut first = route(&[1]);
    first.refresh();
    solution.add_route(first);
    solution.add_route(RouteContext::new(actor(1, 5, 0)));
    assert!(!solution.is_stale());
    assert_eq!(solution.len(), 2);

    assert_eq!(solution.insert_last(1, visit(1, 1, Some(Job::Single(4)))), Err(StructuralError::MissingStart));
    assert!(!solution.is_stale());
    assert_eq!(solution.insert_last(0, visit(1, 1, Some(Job::Single(4)))), Ok(()));
    assert!(solution.is_stale());
    assert!(solution.route(0).unwrap().is_stale());
    assert!(!solution.route(1).unwrap().is_stale());
    assert!(solution.route(2).is_none());

    solution.refresh();
    assert!(!solution.is_stale());
    assert_eq!(solution.route(0).unwrap().summary().unwrap().jobs, 2);

    assert!(solution.remove(0, &Job::Single(4)));
    assert!(!solution.remove(0, &Job::Single(4)));
    assert!(solution.is_stale());
    assert_eq!(solution.route(0).unwrap().tour().total(), 3);
}

#[test]
fn can_cut_route_into_intervals() {
    let markers = vec![Job::Single(9), Job::Single(8)];

    assert_eq!(route_intervals(&tour(&[1, 2, 9, 3, 8, 4, 5]), &markers), vec![(0, 2), (3, 4), (5, 8)]);
    assert_eq!(route_intervals(&tour(&[1, 2]), &markers), vec![(0, 3)]);
    assert_eq!(route_intervals(&tour(&[9, 9]), &markers), vec![(0, 0), (1, 1), (2, 3)]);
    assert_eq!(route_intervals(&Tour::new(), &markers), vec![]);
}

#[test]
fn reload_must_begin_a_trip() {
    let markers = vec![Job::Single(9)];
    let code = ViolationCode(21);

    assert_eq!(multi_trip(&tour(&[1, 9, 2]), &markers, code), None);
    assert_eq!(multi_trip(&tour(&[9, 1, 9, 2]), &markers, code), None);
    assert_eq!(multi_trip(&tour(&[1, 2]), &markers, code), None);
    assert_eq!(multi_trip(&tour(&[1, 9]), &markers, code), denied(21));
    assert_eq!(multi_trip(&tour(&[1, 9, 9, 2]), &markers, code), denied(21));
}

#[test]
fn vehicles_with_same_characteristics_share_key() {
    let actors = vec![actor(0, 10, 1), actor(1, 20, 1), actor(2, 10, 1), actor(3, 10, 3), actor(4, 20, 1)];

    assert_eq!(group_keys(&actors), vec![0, 1, 0, 3, 1]);
    assert_eq!(group_keys(&vec![]), Vec::<usize>::new());
}

#[test]
fn job_is_gated_by_predicate() {
    let code = ViolationCode(7);
    let skilled = |required: &u64| has_skills(&actor(0, 1, 0b0110), *required);

    assert_eq!(conditional_job(&skilled, &0b0100, code), None);
    assert_eq!(conditional_job(&skilled, &0b0110, code), None);
    assert_eq!(conditional_job(&skilled, &0, code), None);
    assert_eq!(conditional_job(&skilled, &0b0101, code), denied(7));
}

#[test]
fn service_must_not_meet_reserved_time() {
    let code = ViolationCode(4);
    let reserved = vec![TimeWindow { start: 100, end: 110 }, TimeWindow { start: 200, end: 230 }];
    let at = |arrival: u64, departure: u64| {
        let mut activity = visit(1, 0, Some(Job::Single(1)));
        activity.schedule = Schedule { arrival, departure, waiting: 0 };
        activity.place.time.start = 50;
        activity
    };

    assert_eq!(reserved_time(&reserved, &at(10, 99), code), None);
    assert_eq!(reserved_time(&reserved, &at(111, 199), code), None);
    assert_eq!(reserved_time(&reserved, &at(10, 100), code), denied(4));
    assert_eq!(reserved_time(&reserved, &at(110, 120), code), denied(4));
    assert_eq!(reserved_time(&reserved, &at(210, 220), code), denied(4));
    assert_eq!(reserved_time(&vec![TimeWindow { start: 40, end: 45 }], &at(10, 60), code), None);
    assert_eq!(reserved_time(&vec![], &at(10, 60), code), None);
}

#[test]
fn reserved_time_is_held_against_limit() {
    let reserved = vec![
        TimeWindow { start: 100, end: 110 },
        TimeWindow { start: 200, end: 230 },
        TimeWindow { start: 9, end: 3 },
    ];

    assert!(reserved_within(&reserved, 40));
    assert!(!reserved_within(&reserved, 39));
    assert!(reserved_within(&vec![], 0));
    assert!(!reserved_within(&vec![TimeWindow { start: 0, end: u64::MAX }, TimeWindow { start: 0, end: 1 }], u64::MAX));
}
