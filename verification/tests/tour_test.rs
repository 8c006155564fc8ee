use vrp_model::tour::{Activity, Job, Leg, Place, Schedule, StructuralError, TimeWindow, Tour};

fn activity(location: usize, job: Option<Job>) -> Activity {
    Activity {
        place: Place { location, duration: 0, time: TimeWindow { start: 0, end: u64::MAX } },
        schedule: Schedule { arrival: 0, departure: 0, waiting: 0 },
        job,
    }
}

fn anchor() -> Activity {
    activity(0, None)
}

fn with_job(id: usize) -> Activity {
    activity(0, Some(Job::Single(id)))
}

fn same(left: &Activity, right: &Activity) -> bool {
    std::ptr::eq(left, right)
}

fn get_test_tour() -> Tour {
    let mut tour = Tour::default();
    tour.set_start(anchor()).unwrap();
    tour.set_end(anchor()).unwrap();
    tour.insert_last(with_job(1)).unwrap();
    tour.insert_last(with_job(2)).unwrap();

    tour
}

fn compare_legs(left: &Leg, first: &Activity, second: &Activity, index: usize) {
    assert!(same(left.first, first));
    assert!(same(left.second.unwrap(), second));
    assert_eq!(left.index, index);
}

#[test]
fn can_set_and_get_start() {
    let activity = anchor();
    let mut tour = Tour::default();

    tour.set_start(activity).unwrap();

    assert!(same(&tour.all_activities()[0], tour.start().unwrap()));
    assert_eq!(tour.job_activity_count(), 0);
    assert_eq!(tour.job_count(), 0);
}

#[test]
fn can_set_and_get_end() {
    let activity = anchor();
    let mut tour = Tour::default();
    tour.set_start(anchor()).unwrap();

    tour.set_end(activity).unwrap();

    assert!(same(&tour.all_activities()[1], tour.end().unwrap()));
    assert_eq!(tour.job_activity_count(), 0);
    assert_eq!(tour.job_count(), 0);
}

#[test]
fn can_insert_at_specific_position() {
    for position in 1..4 {
        let mut tour = get_test_tour();

        assert_eq!(tour.insert_at(activity(42, Some(Job::Single(9))), position), Ok(()));

        assert_eq!(tour.get(position).unwrap().place.location, 42);
        assert_eq!(tour.total(), 5);
    }
}

#[test]
fn cannot_insert_on_or_outside_anchors() {
    for position in [0, 4, 5, usize::MAX] {
        let mut tour = get_test_tour();

        assert_eq!(tour.insert_at(activity(42, Some(Job::Single(9))), position), Err(StructuralError::InvalidIndex));

        assert_eq!(tour.total(), 4);
        assert_eq!(tour.job_count(), 2);
    }
}

#[test]
fn can_insert_at_last_position() {
    let activity = activity(42, Some(Job::Single(3)));
    let mut tour = get_test_tour();

    tour.insert_last(activity).unwrap();

    assert_eq!(tour.get(3).unwrap().place.location, 42);
}

#[test]
fn can_remove_job() {
    let mut tour = get_test_tour();
    let job = tour.jobs().last().cloned().unwrap();
    assert_eq!(tour.job_count(), 2);

    let removed = tour.remove(&job);

    assert!(removed);
    assert_eq!(tour.job_count(), 1);
}

#[test]
fn can_get_activities_for_job() {
    let mut tour = get_test_tour();
    let activity = with_job(3);
    let job = activity.job.clone().unwrap();

    tour.insert_at(activity, 2).unwrap();

    let result: Vec<&Activity> = tour.job_activities(&job);

    assert_eq!(result.len(), 1);
    assert!(same(&tour.all_activities()[2], result.first().unwrap()));
}

#[test]
fn can_get_legs() {
    let start = anchor();
    let end = anchor();
    let a1 = with_job(1);
    let a2 = with_job(2);

    // s a1 a2 e
    let mut tour = Tour::default();
    tour.set_start(start).unwrap();
    tour.set_end(end).unwrap();
    tour.insert_last(a1).unwrap();
    tour.insert_last(a2).unwrap();

    let legs = tour.legs().unwrap();

    let activities = tour.all_activities();
    let start = &activities[0];
    let end = &activities[3];
    let a1 = &activities[1];
    let a2 = &activities[2];

    // (s,a1) (a1,a2) (a2,e)
    assert_eq!(legs.len(), 3);
    compare_legs(legs.first().unwrap(), start, a1, 0);
    compare_legs(legs.get(1).unwrap(), a1, a2, 1);
    compare_legs(legs.get(2).unwrap(), a2, end, 2);
}

#[test]
fn can_get_job_index() {
    let mut tour = Tour::default();
    tour.set_start(anchor()).unwrap();
    tour.set_end(anchor()).unwrap();
    let job = Job::Single(100);
    tour.insert_last(with_job(1)).unwrap();
    tour.insert_last(activity(0, Some(job))).unwrap();
    tour.insert_last(with_job(2)).unwrap();
    tour.insert_last(activity(0, Some(job))).unwrap();
    tour.insert_last(with_job(3)).unwrap();

    let index = tour.index(&job);

    assert_eq!(index.unwrap(), 2);
    assert_eq!(tour.job_count(), 4);
}

#[test]
fn can_get_activity_and_job_count() {
    let mut tour = Tour::default();

    tour.set_start(anchor()).unwrap();
    assert_eq!(tour.job_activity_count(), 0);
    assert_eq!(tour.job_count(), 0);

    tour.set_end(anchor()).unwrap();
    assert_eq!(tour.job_activity_count(), 0);
    assert_eq!(tour.job_count(), 0);

    tour.insert_last(with_job(1)).unwrap();
    assert_eq!(tour.job_activity_count(), 1);
    assert_eq!(tour.job_count(), 1);
}

#[test]
fn can_get_start_and_end() {
    let mut tour = Tour::default();

    tour.set_start(anchor()).unwrap();
    tour.set_end(anchor()).unwrap();
    tour.insert_last(with_job(1)).unwrap();
    tour.insert_last(with_job(2)).unwrap();

    assert!(same(tour.start().unwrap(), &tour.all_activities()[0]));
    assert!(same(tour.end().unwrap(), &tour.all_activities()[3]));
}

#[test]
fn empty_tour_has_no_anchors_and_zero_counts() {
    let tour = Tour::new();

    assert!(tour.start().is_none());
    assert!(tour.end().is_none());
    assert!(tour.get(0).is_none());
    assert_eq!(tour.job_count(), 0);
    assert_eq!(tour.job_activity_count(), 0);
    assert_eq!(tour.total(), 0);
    assert!(matches!(tour.legs(), Err(StructuralError::MissingStart)));
}

#[test]
fn anchors_must_have_no_job_and_start_comes_first() {
    let mut tour = Tour::default();

    assert_eq!(tour.set_start(with_job(1)), Err(StructuralError::AnchorWithJob));
    assert_eq!(tour.set_end(anchor()), Err(StructuralError::MissingStart));
    assert_eq!(tour.insert_last(with_job(1)), Err(StructuralError::MissingStart));
    assert_eq!(tour.insert_at(with_job(1), 1), Err(StructuralError::InvalidIndex));
    assert_eq!(tour.set_start(anchor()), Ok(()));
    assert_eq!(tour.set_end(with_job(1)), Err(StructuralError::AnchorWithJob));
    assert_eq!(tour.total(), 1);
}

#[test]
fn can_replace_anchors() {
    let mut tour = get_test_tour();

    tour.set_start(activity(7, None)).unwrap();
    tour.set_end(activity(8, None)).unwrap();

    assert_eq!(tour.total(), 4);
    assert_eq!(tour.start().unwrap().place.location, 7);
    assert_eq!(tour.end().unwrap().place.location, 8);
    assert_eq!(tour.job_count(), 2);
}

#[test]
fn insert_at_counts_only_activities_with_job() {
    let mut tour = get_test_tour();

    tour.insert_at(activity(5, None), 1).unwrap();
    assert_eq!(tour.job_activity_count(), 2);
    assert_eq!(*tour.get(1).unwrap(), activity(5, None));

    tour.insert_at(activity(6, Some(Job::Multi(1))), 2).unwrap();
    assert_eq!(tour.job_activity_count(), 3);
    assert_eq!(*tour.get(2).unwrap(), activity(6, Some(Job::Multi(1))));
    assert_eq!(tour.job_count(), 3);
}

#[test]
fn remove_is_idempotent() {
    let mut tour = get_test_tour();
    tour.insert_last(activity(3, Some(Job::Single(1)))).unwrap();

    assert!(tour.remove(&Job::Single(1)));
    assert!(!tour.remove(&Job::Single(1)));

    assert_eq!(tour.total(), 3);
    assert_eq!(tour.job_activities(&Job::Single(1)).len(), 0);
    assert_eq!(tour.job_activities(&Job::Single(2)).len(), 1);
    assert!(!tour.has_job(&Job::Single(1)));
    assert!(tour.has_job(&Job::Single(2)));
    assert!(!tour.remove(&Job::Single(77)));
}

#[test]
fn legs_are_one_more_than_inner_activities() {
    let mut tour = Tour::default();
    tour.set_start(anchor()).unwrap();
    tour.set_end(anchor()).unwrap();
    for k in 0..5 {
        let legs = tour.legs().unwrap();
        assert_eq!(legs.len(), k + 1);
        for (position, leg) in legs.iter().enumerate() {
            assert_eq!(leg.index, position);
            assert!(same(leg.first, tour.get(position).unwrap()));
            assert!(same(leg.second.unwrap(), tour.get(position + 1).unwrap()));
        }
        tour.insert_last(with_job(k)).unwrap();
    }
}

#[test]
fn open_tour_ends_with_a_leg_of_one_activity() {
    let mut tour = Tour::default();
    tour.set_start(anchor()).unwrap();
    assert_eq!(tour.legs().unwrap().len(), 1);
    assert!(tour.legs().unwrap()[0].second.is_none());

    tour.insert_last(with_job(1)).unwrap();
    let legs = tour.legs().unwrap();

    assert_eq!(legs.len(), 2);
    assert!(same(legs[0].second.unwrap(), tour.get(1).unwrap()));
    assert!(same(legs[1].first, tour.get(1).unwrap()));
    assert!(legs[1].second.is_none());
    assert_eq!(legs[1].index, 1);
}

#[test]
fn job_activities_follow_insertions_and_removals() {
    let job = Job::Multi(4);
    let mut tour = get_test_tour();
    assert_eq!(tour.job_activities(&job).len(), 0);
    assert_eq!(tour.index(&job), None);

    tour.insert_at(activity(10, Some(job)), 2).unwrap();
    tour.insert_last(activity(11, Some(job))).unwrap();
    tour.insert_at(activity(12, Some(job)), 1).unwrap();

    let found: Vec<usize> = tour.job_activities(&job).iter().map(|a| a.place.location).collect();
    assert_eq!(found, vec![12, 10, 11]);
    assert_eq!(tour.index(&job), Some(1));
    assert!(same(tour.job_activities(&job)[0], tour.get(tour.index(&job).unwrap()).unwrap()));

    assert!(tour.remove(&job));
    assert_eq!(tour.job_activities(&job).len(), 0);
    assert_eq!(tour.index(&job), None);
    assert_eq!(tour.total(), 4);
}

#[test]
fn can_count_jobs_after_inserting_known_job_last() {
    let first = Job::Single(1);
    let second = Job::Single(2);
    let mut tour = Tour::default();
    tour.set_start(activity(0, None)).unwrap();
    tour.set_end(activity(0, None)).unwrap();
    tour.insert_last(activity(10, Some(first))).unwrap();
    tour.insert_last(activity(20, Some(second))).unwrap();

    tour.insert_last(activity(30, Some(first))).unwrap();

    assert_eq!(tour.job_count(), 2);
    assert_eq!(tour.job_activity_count(), 3);
    assert_eq!(tour.index(&first), Some(1));
    assert_eq!(tour.get(3).unwrap().place.location, 30);
}
