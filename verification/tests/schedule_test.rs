use vrp_model::enablers::{departure_time, travel_info, LegTravel};
use vrp_model::schedule::{add_time, update_schedule};
use vrp_model::tour::{Activity, Job, Place, Schedule, TimeWindow, Tour};
use vrp_model::transport::TransportMatrix;

fn visit(location: usize, opens: u64, duration: u64, job: Option<Job>) -> Activity {
    Activity {
        place: Place { location, duration, time: TimeWindow { start: opens, end: u64::MAX } },
        schedule: Schedule { arrival: 0, departure: 0, waiting: 0 },
        job,
    }
}

fn matrix() -> TransportMatrix {
    TransportMatrix::new(3, vec![0, 10, 20, 11, 0, 5, 7, 6, 0]).expect("matrix is square")
}

fn scheduled_tour(departure: u64) -> Tour {
    let mut start = visit(0, 0, 0, None);
    start.schedule.departure = departure;
    let mut tour = Tour::new();
    tour.set_start(start).unwrap();
    tour.set_end(visit(0, 0, 0, None)).unwrap();
    tour.insert_last(visit(1, 0, 3, Some(Job::Single(1)))).unwrap();
    tour.insert_last(visit(2, 200, 4, Some(Job::Single(2)))).unwrap();
    tour
}

fn schedules(tour: &Tour) -> Vec<(u64, u64)> {
    tour.all_activities().iter().map(|a| (a.schedule.arrival, a.schedule.departure)).collect()
}

#[test]
fn matrix_needs_square_number_of_cells() {
    assert!(TransportMatrix::new(2, vec![0, 1, 2]).is_none());
    assert!(TransportMatrix::new(0, vec![]).is_some());
    assert!(TransportMatrix::new(usize::MAX, vec![]).is_none());
}

#[test]
fn matrix_gives_duration_by_row_and_column() {
    let matrix = matrix();

    assert_eq!(matrix.duration(0, 1), Some(10));
    assert_eq!(matrix.duration(1, 0), Some(11));
    assert_eq!(matrix.duration(2, 1), Some(6));
    assert_eq!(matrix.duration(3, 0), None);
    assert_eq!(matrix.duration(0, 3), None);
}

#[test]
fn can_update_schedule_from_start() {
    let mut tour = scheduled_tour(100);

    update_schedule(&mut tour, &matrix(), 0);

    assert_eq!(schedules(&tour), vec![(0, 100), (110, 113), (118, 204), (211, 211)]);
    assert_eq!(tour.get(1).unwrap().schedule.waiting, 0);
    assert_eq!(tour.get(2).unwrap().schedule.waiting, 82);
    assert_eq!(tour.job_count(), 2);
}

#[test]
fn can_update_schedule_from_position() {
    let mut tour = scheduled_tour(100);
    update_schedule(&mut tour, &matrix(), 1);
    tour.set_schedule(1, Schedule { arrival: 1, departure: 300, waiting: 0 });

    update_schedule(&mut tour, &matrix(), 2);

    assert_eq!(schedules(&tour), vec![(0, 100), (1, 300), (305, 309), (316, 316)]);

    update_schedule(&mut tour, &matrix(), 4);
    update_schedule(&mut tour, &matrix(), usize::MAX);

    assert_eq!(schedules(&tour), vec![(0, 100), (1, 300), (305, 309), (316, 316)]);
}

#[test]
fn schedule_stops_at_largest_time() {
    let mut tour = scheduled_tour(u64::MAX - 5);
    tour.insert_last(visit(9, 0, 1, Some(Job::Single(3)))).unwrap();

    update_schedule(&mut tour, &matrix(), 0);

    assert_eq!(schedules(&tour)[1], (u64::MAX, u64::MAX));
    assert_eq!(schedules(&tour)[3], (u64::MAX, u64::MAX));
    assert_eq!(add_time(3, 4), 7);
    assert_eq!(add_time(u64::MAX, 1), u64::MAX);
}

#[test]
fn can_advance_departure_time() {
    let mut tour = scheduled_tour(0);
    tour.insert_at(visit(1, 50, 2, Some(Job::Single(7))), 1).unwrap();

    departure_time(&mut tour, &matrix());

    assert_eq!(schedules(&tour), vec![(0, 40), (50, 52), (52, 55), (60, 204), (211, 211)]);
    assert_eq!(tour.total(), 5);
}

#[test]
fn departure_stays_within_start_time_window() {
    let mut start = visit(0, 45, 0, None);
    start.place.time.end = 48;
    let mut tour = scheduled_tour(0);
    tour.set_start(start).unwrap();
    tour.insert_at(visit(1, 50, 2, Some(Job::Single(7))), 1).unwrap();

    departure_time(&mut tour, &matrix());
    assert_eq!(schedules(&tour)[0], (0, 45));
    assert_eq!(schedules(&tour)[1], (55, 57));

    let mut tour = Tour::new();
    tour.set_start(visit(0, 0, 0, None)).unwrap();
    departure_time(&mut tour, &matrix());
    assert_eq!(schedules(&tour), vec![(0, 0)]);
}

#[test]
fn can_get_travel_info_of_legs() {
    let mut tour = scheduled_tour(0);
    tour.insert_last(visit(5, 0, 0, Some(Job::Single(3)))).unwrap();

    let legs = travel_info(&tour, &matrix());

    assert_eq!(
        legs,
        vec![
            LegTravel { index: 0, duration: Some(10) },
            LegTravel { index: 1, duration: Some(5) },
            LegTravel { index: 2, duration: None },
            LegTravel { index: 3, duration: None },
        ]
    );
    assert!(travel_info(&Tour::new(), &matrix()).is_empty());
}
