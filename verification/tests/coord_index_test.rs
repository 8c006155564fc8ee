use vrp_model::coord_index::{CoordIndex, CustomLocationType, Location};
use vrp_model::problem::{
    Fleet, Job, JobPlace, JobTask, Plan, Problem, ShiftEnd, ShiftStart, VehicleBreak, VehicleOptionalBreakPlace,
    VehicleRechargeStation, VehicleRecharges, VehicleReload, VehicleShift, VehicleType,
};

fn coordinate(lat: f64, lng: f64) -> Location {
    Location::Coordinate { lat: lat.to_bits(), lng: lng.to_bits() }
}

fn reference(index: usize) -> Location {
    Location::Reference { index }
}

fn custom() -> Location {
    Location::Custom { kind: CustomLocationType::Unknown }
}

fn task(locations: Vec<Location>) -> JobTask {
    JobTask { places: locations.into_iter().map(|location| JobPlace { location }).collect() }
}

fn test_problem() -> Problem {
    Problem {
        plan: Plan {
            jobs: vec![
                Job {
                    pickups: Some(vec![task(vec![coordinate(1., 1.), coordinate(2., 2.)])]),
                    deliveries: Some(vec![task(vec![coordinate(3., 3.)]), task(vec![coordinate(1., 1.)])]),
                    replacements: None,
                    services: None,
                },
                Job {
                    pickups: None,
                    deliveries: None,
                    replacements: Some(vec![task(vec![custom()])]),
                    services: Some(vec![task(vec![coordinate(4., 4.)])]),
                },
            ],
        },
        fleet: Fleet {
            vehicles: vec![VehicleType {
                shifts: vec![VehicleShift {
                    start: ShiftStart { location: coordinate(0., 0.) },
                    end: Some(ShiftEnd { location: coordinate(9., 9.) }),
                    breaks: Some(vec![
                        VehicleBreak::Required,
                        VehicleBreak::Optional {
                            places: vec![
                                VehicleOptionalBreakPlace { location: None },
                                VehicleOptionalBreakPlace { location: Some(coordinate(5., 5.)) },
                            ],
                        },
                    ]),
                    reloads: Some(vec![VehicleReload { location: coordinate(6., 6.) }]),
                    recharges: Some(VehicleRecharges {
                        stations: vec![VehicleRechargeStation { location: coordinate(7., 7.) }],
                    }),
                }],
            }],
        },
    }
}

#[test]
fn can_gather_locations_in_reading_order() {
    let locations = test_problem().locations();

    assert_eq!(
        locations,
        vec![
            coordinate(1., 1.),
            coordinate(2., 2.),
            coordinate(3., 3.),
            coordinate(1., 1.),
            custom(),
            coordinate(4., 4.),
            coordinate(0., 0.),
            coordinate(9., 9.),
            coordinate(5., 5.),
            coordinate(6., 6.),
            coordinate(7., 7.),
        ]
    );
}

#[test]
fn can_index_coordinates_of_problem() {
    let index = CoordIndex::new(&test_problem());

    assert_eq!(index.get_by_loc(&coordinate(1., 1.)), Some(0));
    assert_eq!(index.get_by_loc(&coordinate(2., 2.)), Some(1));
    assert_eq!(index.get_by_loc(&coordinate(3., 3.)), Some(2));
    assert_eq!(index.get_by_loc(&coordinate(4., 4.)), Some(3));
    assert_eq!(index.get_by_loc(&coordinate(0., 0.)), Some(4));
    assert_eq!(index.get_by_loc(&coordinate(7., 7.)), Some(8));
    assert_eq!(index.get_by_loc(&coordinate(8., 8.)), None);
    assert_eq!(index.get_by_idx(2), Some(coordinate(3., 3.)));
    assert_eq!(index.get_by_idx(9), None);
    assert_eq!(index.max_matrix_index(), 8);
    assert!(index.has_coordinates());
    assert!(!index.has_indices());
    assert!(index.has_custom());
}

#[test]
fn can_promote_custom_locations_beyond_matrix() {
    let index = CoordIndex::new(&test_problem());

    assert_eq!(index.custom_locations_len(), 1);
    assert_eq!(index.get_by_loc(&custom()), Some(81));
    assert_eq!(index.get_by_idx(81), Some(custom()));
    assert!(!index.is_special_index(80));
    assert!(index.is_special_index(81));
    assert!(!index.is_special_index(82));
    assert_eq!(index.unique().len(), 10);
    assert_eq!(index.unique().last(), Some(&custom()));
}

#[test]
fn can_index_references_by_their_own_index() {
    let index = CoordIndex::from_locations(&vec![reference(5), reference(2), reference(5), reference(7)]);

    assert_eq!(index.get_by_loc(&reference(5)), Some(5));
    assert_eq!(index.get_by_loc(&reference(2)), Some(2));
    assert_eq!(index.get_by_loc(&reference(7)), Some(7));
    assert_eq!(index.get_by_loc(&reference(3)), None);
    assert_eq!(index.get_by_idx(7), Some(reference(7)));
    assert_eq!(index.unique(), vec![reference(2), reference(5), reference(7)]);
    assert_eq!(index.max_matrix_index(), 2);
    assert!(index.has_indices());
    assert!(!index.has_coordinates());
    assert!(!index.has_custom());
}

#[test]
fn later_location_takes_over_shared_index() {
    let index = CoordIndex::from_locations(&vec![coordinate(1., 2.), reference(0)]);

    assert_eq!(index.get_by_loc(&coordinate(1., 2.)), Some(0));
    assert_eq!(index.get_by_loc(&reference(0)), Some(0));
    assert_eq!(index.get_by_idx(0), Some(reference(0)));
    assert_eq!(index.unique(), vec![reference(0)]);
    assert_eq!(index.max_matrix_index(), 1);
}

#[test]
fn empty_index_knows_nothing() {
    let index = CoordIndex::from_locations(&vec![]);

    assert_eq!(index.get_by_idx(0), None);
    assert_eq!(index.get_by_loc(&custom()), None);
    assert_eq!(index.max_matrix_index(), 0);
    assert_eq!(index.custom_locations_len(), 0);
    assert!(index.unique().is_empty());
    assert!(!index.is_special_index(0));
    assert!(!index.is_special_index(1));
    assert!(!index.has_coordinates() && !index.has_indices() && !index.has_custom());
}

#[test]
fn can_add_locations_one_by_one() {
    let mut index = CoordIndex::from_locations(&vec![coordinate(1., 1.)]);

    index.add(&coordinate(2., 2.));
    index.add(&coordinate(1., 1.));
    index.add(&reference(10));
    index.add(&custom());

    assert_eq!(index.get_by_loc(&coordinate(2., 2.)), Some(1));
    assert_eq!(index.get_by_loc(&reference(10)), Some(10));
    assert_eq!(index.get_by_loc(&custom()), None);
    assert_eq!(index.custom_locations_len(), 1);
    assert_eq!(index.unique(), vec![coordinate(1., 1.), coordinate(2., 2.), reference(10)]);
    assert!(index.has_coordinates() && index.has_indices() && index.has_custom());
}

#[test]
fn locations_are_totally_ordered() {
    let mut locations = vec![custom(), reference(2), coordinate(1., 1.), reference(1)];

    locations.sort();

    assert_eq!(locations, vec![coordinate(1., 1.), reference(1), reference(2), custom()]);
}

#[test]
fn custom_location_gets_index_above_every_reference() {
    let index = CoordIndex::from_locations(&vec![reference(0), custom(), reference(4)]);

    assert_eq!(index.get_by_loc(&reference(0)), Some(0));
    assert_eq!(index.get_by_loc(&reference(4)), Some(4));
    assert_eq!(index.get_by_loc(&custom()), Some(5));
    assert_eq!(index.get_by_idx(4), Some(reference(4)));
    assert_eq!(index.get_by_idx(5), Some(custom()));
    assert_eq!(index.max_matrix_index(), 1);
    assert!(!index.is_special_index(4));
    assert!(index.is_special_index(5));
    assert!(!index.is_special_index(6));
    assert_eq!(index.unique(), vec![reference(0), reference(4), custom()]);
}

#[test]
fn lone_custom_location_is_above_matrix() {
    let index = CoordIndex::from_locations(&vec![custom(), custom()]);

    assert_eq!(index.get_by_loc(&custom()), Some(1));
    assert_eq!(index.get_by_idx(0), None);
    assert_eq!(index.get_by_idx(1), Some(custom()));
    assert_eq!(index.max_matrix_index(), 0);
    assert_eq!(index.custom_locations_len(), 1);
    assert!(!index.is_special_index(0));
    assert!(index.is_special_index(1));
    assert!(!index.is_special_index(2));
    assert!(index.has_custom());
}

#[test]
fn index_is_refused_where_custom_range_does_not_fit() {
    assert!(CoordIndex::try_from_locations(&vec![reference(usize::MAX), custom()]).is_none());
    assert!(CoordIndex::try_from_locations(&vec![reference(usize::MAX - 1), custom()]).is_none());
    assert!(CoordIndex::try_from_locations(&vec![reference(usize::MAX - 1)]).is_some());

    let index = CoordIndex::try_from_locations(&vec![reference(usize::MAX - 2), custom()]);

    match index {
        Some(index) => {
            assert_eq!(index.get_by_loc(&custom()), Some(usize::MAX - 1));
            assert!(index.is_special_index(usize::MAX - 1));
            assert!(!index.is_special_index(usize::MAX));
        }
        None => panic!("the range fits"),
    }
}

#[test]
fn adding_custom_location_sets_it_aside_once() {
    let mut index = CoordIndex::from_locations(&vec![coordinate(1., 1.), reference(3)]);

    index.add(&custom());
    index.add(&custom());

    assert!(index.has_custom());
    assert_eq!(index.custom_locations_len(), 1);
    assert_eq!(index.get_by_loc(&custom()), None);
    assert_eq!(index.get_by_loc(&coordinate(1., 1.)), Some(0));
    assert_eq!(index.get_by_idx(3), Some(reference(3)));
    assert!(index.has_coordinates() && index.has_indices());
}

#[test]
fn coordinates_are_numbered_without_gaps_in_any_order() {
    let a = coordinate(1., 0.);
    let b = coordinate(2.5, 0.);
    let c = coordinate(0., 0.);
    let orders = [[a, b, c], [a, c, b], [b, a, c], [b, c, a], [c, a, b], [c, b, a]];

    for order in orders {
        let locations = vec![order[0], order[1], order[0], order[2], order[1]];
        let index = CoordIndex::from_locations(&locations);
        let unique = index.unique();

        assert_eq!(index.max_matrix_index(), 2);
        assert_eq!(unique, order.to_vec());
        for (position, location) in unique.iter().enumerate() {
            assert_eq!(index.get_by_loc(location), Some(position));
            assert_eq!(index.get_by_idx(position), Some(*location));
        }
        assert_eq!(index.get_by_idx(3), None);
    }
}
