//! Building blocks which several features use: segments of a tour between
//! marker activities, travel along the legs, and keys of vehicle groups.

use vstd::prelude::*;
use crate::feature::{ConstraintViolation, ViolationCode};
use crate::route::Actor;
use crate::schedule::{rescheduled, travel, update_schedule};
use crate::tour::{Activity, Job, Schedule, TimeWindow, Tour, with_schedule};
use crate::transport::TransportMatrix;

verus! {

/// Whether the activity realizes one of the marker jobs.
pub open spec fn is_marker(markers: Seq<Job>, activity: Activity) -> bool {
    activity.job is Some && markers.contains(activity.job.unwrap())
}

/// Whether the intervals, given by their first and last position, are the
/// segments of the activities: they follow each other from the first
/// activity to the last, each but the first begins at a marker, and no other
/// activity of an interval is a marker.
pub open spec fn segments(markers: Seq<Job>, activities: Seq<Activity>, intervals: Seq<(usize, usize)>) -> bool {
    &&& activities.len() == 0 ==> intervals.len() == 0
    &&& activities.len() > 0 ==> intervals.len() > 0 && intervals.first().0 == 0 && intervals.last().1
        == activities.len() - 1
    &&& forall|k: int| 0 <= k < intervals.len() ==> (#[trigger] intervals[k]).0 <= intervals[k].1
    &&& forall|k: int| 0 < k < intervals.len() ==> (#[trigger] intervals[k]).0 == intervals[k - 1].1 + 1
    &&& forall|k: int|
        0 < k < intervals.len() ==> (#[trigger] intervals[k]).0 < activities.len() && is_marker(
            markers,
            activities[intervals[k].0 as int],
        )
    &&& forall|k: int, i: int|
        0 <= k < intervals.len() && (#[trigger] intervals[k]).0 < i <= intervals[k].1 && i < activities.len()
            ==> !is_marker(markers, #[trigger] activities[i])
}

/// Tells whether the activity realizes one of the marker jobs.
pub fn marks(markers: &Vec<Job>, activity: &Activity) -> (r: bool)
    ensures
        r == is_marker(markers@, *activity),
{
    match activity.job {
        Some(job) => {
            let mut i: usize = 0;
            while i < markers.len()
                invariant
                    i <= markers.len(),
                    activity.job == Some(job),
                    forall|k: int| 0 <= k < i ==> markers@[k] != job,
                decreases markers.len() - i,
            {
                if markers[i] == job {
                    assert(markers@[i as int] == job);
                    return true;
                }
                i += 1;
            }
            false
        },
        None => false,
    }
}

/// Cuts the tour into the intervals which begin at the start anchor and at
/// each marker activity.
pub fn route_intervals(tour: &Tour, markers: &Vec<Job>) -> (intervals: Vec<(usize, usize)>)
    ensures
        segments(markers@, tour@, intervals@),
{
    let activities = tour.all_activities();
    let n = activities.len();
    let mut intervals: Vec<(usize, usize)> = Vec::new();
    if n == 0 {
        return intervals;
    }
    let mut begin: usize = 0;
    let mut i: usize = 1;
    while i < n
        invariant
            n == activities@.len(),
            activities@ == tour@,
            1 <= i <= n,
            begin < i,
            intervals@.len() == 0 ==> begin == 0,
            intervals@.len() > 0 ==> intervals@.first().0 == 0 && intervals@.last().1 + 1 == begin,
            begin > 0 ==> is_marker(markers@, activities@[begin as int]),
            forall|k: int| 0 <= k < intervals@.len() ==> (#[trigger] intervals@[k]).0 <= intervals@[k].1,
            forall|k: int| 0 < k < intervals@.len() ==> (#[trigger] intervals@[k]).0 == intervals@[k - 1].1 + 1,
            forall|k: int|
                0 < k < intervals@.len() ==> (#[trigger] intervals@[k]).0 < n && is_marker(
                    markers@,
                    activities@[intervals@[k].0 as int],
                ),
            forall|k: int, x: int|
                0 <= k < intervals@.len() && (#[trigger] intervals@[k]).0 < x <= intervals@[k].1 && x < n
                    ==> !is_marker(markers@, #[trigger] activities@[x]),
            forall|x: int| begin < x < i ==> !is_marker(markers@, #[trigger] activities@[x]),
        decreases n - i,
    {
        if marks(markers, &activities[i]) {
            intervals.push((begin, i - 1));
            begin = i;
        }
        i += 1;
    }
    intervals.push((begin, n - 1));
    intervals
}

/// Travel along one leg of a tour.
#[derive(Clone, Copy, Debug, PartialEq, Eq)]
pub struct LegTravel {
    /// The position of the leg's first activity.
    pub index: usize,
    /// The travel duration of the leg; none where a location is outside the
    /// matrix.
    pub duration: Option<u64>,
}

/// The travel durations of the legs between adjacent activities.
pub fn travel_info(tour: &Tour, matrix: &TransportMatrix) -> (legs: Vec<LegTravel>)
    requires
        matrix.wf(),
    ensures
        tour@.len() == 0 ==> legs@.len() == 0,
        tour@.len() > 0 ==> legs@.len() == tour@.len() - 1,
        forall|i: int|
            0 <= i < legs@.len() ==> (#[trigger] legs@[i]).index == i && legs@[i].duration
                == matrix.duration_spec(tour@[i].place.location, tour@[i + 1].place.location),
{
    let activities = tour.all_activities();
    let n = activities.len();
    let mut legs: Vec<LegTravel> = Vec::new();
    let mut i: usize = 0;
    while i + 1 < n
        invariant
            n == activities@.len(),
            activities@ == tour@,
            matrix.wf(),
            n > 0 ==> i + 1 <= n,
            n == 0 ==> i == 0,
            legs@.len() == i,
            forall|k: int|
                0 <= k < i ==> (#[trigger] legs@[k]).index == k && legs@[k].duration == matrix.duration_spec(
                    tour@[k].place.location,
                    tour@[k + 1].place.location,
                ),
        decreases n - i,
    {
        let duration = matrix.duration(activities[i].place.location, activities[i + 1].place.location);
        legs.push(LegTravel { index: i, duration });
        i += 1;
    }
    legs
}

/// Whether two vehicles have the same operating characteristics.
pub open spec fn same_group(left: Actor, right: Actor) -> bool {
    left.costs == right.costs && left.capacity == right.capacity && left.skills == right.skills
}

/// Whether the key is the position of the first vehicle with the operating
/// characteristics of the vehicle at the position.
pub open spec fn first_of_group(actors: Seq<Actor>, at: int, key: int) -> bool {
    &&& 0 <= key <= at
    &&& same_group(actors[key], actors[at])
    &&& forall|j: int| 0 <= j < key ==> !same_group(#[trigger] actors[j], actors[at])
}

/// Tells whether two vehicles have the same operating characteristics.
pub fn in_same_group(left: &Actor, right: &Actor) -> (r: bool)
    ensures
        r == same_group(*left, *right),
{
    left.costs == right.costs && left.capacity == right.capacity && left.skills == right.skills
}

/// Gives each vehicle the key of its group: the position of the first
/// vehicle with the same operating characteristics.
pub fn group_keys(actors: &Vec<Actor>) -> (keys: Vec<usize>)
    ensures
        keys@.len() == actors@.len(),
        forall|i: int| 0 <= i < actors@.len() ==> first_of_group(actors@, i, #[trigger] keys@[i] as int),
{
    let n = actors.len();
    let mut keys: Vec<usize> = Vec::new();
    let mut i: usize = 0;
    while i < n
        invariant
            n == actors@.len(),
            i <= n,
            keys@.len() == i,
            forall|x: int| 0 <= x < i ==> first_of_group(actors@, x, #[trigger] keys@[x] as int),
        decreases n - i,
    {
        let mut j: usize = 0;
        while j < i && !in_same_group(&actors[j], &actors[i])
            invariant
                n == actors@.len(),
                i < n,
                j <= i,
                forall|y: int| 0 <= y < j ==> !same_group(#[trigger] actors@[y], actors@[i as int]),
            decreases i - j,
        {
            j += 1;
        }
        keys.push(j);
        i += 1;
    }
    keys
}

/// Two vehicles have the same key where they have the same operating
/// characteristics, and only there.
pub proof fn lemma_group_keys_partition(actors: Seq<Actor>, left: int, right: int, left_key: int, right_key: int)
    requires
        0 <= left < actors.len(),
        0 <= right < actors.len(),
        first_of_group(actors, left, left_key),
        first_of_group(actors, right, right_key),
    ensures
        left_key == right_key <==> same_group(actors[left], actors[right]),
{
    if same_group(actors[left], actors[right]) {
        if left_key < right_key {
            assert(!same_group(actors[left_key], actors[right]));
        } else if right_key < left_key {
            assert(!same_group(actors[right_key], actors[left]));
        }
    }
}

/// The denial of a move for the whole route.
pub open spec fn denial(code: ViolationCode) -> Option<ConstraintViolation> {
    Some(ConstraintViolation { code, stopped: true })
}

/// Allows a job where the predicate holds of the state, and denies it with
/// the code elsewhere. The state is read only.
pub fn conditional_job<Ctx, P: Fn(&Ctx) -> bool>(eligible: &P, ctx: &Ctx, code: ViolationCode) -> (r: Option<
    ConstraintViolation,
>)
    requires
        call_requires(*eligible, (ctx,)),
    ensures
        call_ensures(*eligible, (ctx,), r is None),
        r is Some ==> r == denial(code),
{
    if eligible(ctx) {
        None
    } else {
        Some(ConstraintViolation { code, stopped: true })
    }
}

/// Tells whether the vehicle has every required skill.
pub fn has_skills(actor: &Actor, required: u64) -> (r: bool)
    ensures
        r == (required & !actor.skills == 0),
{
    required & !actor.skills == 0
}

/// Whether a reload is where a trip can begin: it is followed by an activity
/// which realizes a job and is no reload itself.
pub open spec fn reload_placed(markers: Seq<Job>, activities: Seq<Activity>, at: int) -> bool {
    at + 1 < activities.len() && activities[at + 1].job is Some && !is_marker(markers, activities[at + 1])
}

/// Allows a tour in which every reload begins a trip, and denies any other.
pub fn multi_trip(tour: &Tour, markers: &Vec<Job>, code: ViolationCode) -> (r: Option<ConstraintViolation>)
    ensures
        r is None <==> forall|i: int|
            0 <= i < tour@.len() && is_marker(markers@, #[trigger] tour@[i]) ==> reload_placed(markers@, tour@, i),
        r is Some ==> r == denial(code),
{
    let activities = tour.all_activities();
    let n = activities.len();
    let mut i: usize = 0;
    while i < n
        invariant
            n == activities@.len(),
            activities@ == tour@,
            i <= n,
            forall|k: int|
                0 <= k < i && is_marker(markers@, #[trigger] tour@[k]) ==> reload_placed(markers@, tour@, k),
        decreases n - i,
    {
        if marks(markers, &activities[i]) {
            let placed = i + 1 < n && activities[i + 1].job.is_some() && !marks(markers, &activities[i + 1]);
            if !placed {
                assert(is_marker(markers@, tour@[i as int]) && !reload_placed(markers@, tour@, i as int));
                return Some(ConstraintViolation { code, stopped: true });
            }
        }
        i += 1;
    }
    None
}

/// Whether two intervals of time have a moment in common.
pub open spec fn overlap(left: TimeWindow, right: TimeWindow) -> bool {
    left.start <= right.end && right.start <= left.end
}

/// The interval from the begin of the service of an activity to its
/// departure.
pub open spec fn service_of(activity: Activity) -> TimeWindow {
    TimeWindow {
        start: if activity.schedule.arrival < activity.place.time.start {
            activity.place.time.start
        } else {
            activity.schedule.arrival
        },
        end: activity.schedule.departure,
    }
}

/// Allows an activity whose service meets none of the reserved times, and
/// denies any other.
pub fn reserved_time(reserved: &Vec<TimeWindow>, activity: &Activity, code: ViolationCode) -> (r: Option<
    ConstraintViolation,
>)
    ensures
        r is None <==> forall|k: int|
            0 <= k < reserved@.len() ==> !overlap(#[trigger] reserved@[k], service_of(*activity)),
        r is Some ==> r == denial(code),
{
    let begin = if activity.schedule.arrival < activity.place.time.start {
        activity.place.time.start
    } else {
        activity.schedule.arrival
    };
    let end = activity.schedule.departure;
    let mut k: usize = 0;
    while k < reserved.len()
        invariant
            k <= reserved.len(),
            service_of(*activity) == (TimeWindow { start: begin, end }),
            forall|x: int| 0 <= x < k ==> !overlap(#[trigger] reserved@[x], service_of(*activity)),
        decreases reserved.len() - k,
    {
        if reserved[k].start <= end && begin <= reserved[k].end {
            assert(overlap(reserved@[k as int], service_of(*activity)));
            return Some(ConstraintViolation { code, stopped: true });
        }
        k += 1;
    }
    None
}

/// The length of the reserved times together; a time whose end is before its
/// start has no length.
pub open spec fn reserved_length(reserved: Seq<TimeWindow>) -> int
    decreases reserved.len(),
{
    if reserved.len() == 0 {
        0
    } else {
        let last = reserved.last();
        reserved_length(reserved.drop_last()) + (if last.end >= last.start {
            last.end - last.start
        } else {
            0
        })
    }
}

/// The reserved times together are at most as many times the longest time.
pub proof fn lemma_reserved_length_bounds(reserved: Seq<TimeWindow>)
    ensures
        0 <= reserved_length(reserved) <= reserved.len() * 0xffff_ffff_ffff_ffff,
    decreases reserved.len(),
{
    if reserved.len() > 0 {
        lemma_reserved_length_bounds(reserved.drop_last());
        assert((reserved.len() - 1) * 0xffff_ffff_ffff_ffff + 0xffff_ffff_ffff_ffff == reserved.len()
            * 0xffff_ffff_ffff_ffff) by (nonlinear_arith);
    }
}

/// Tells whether the reserved times together stay within the limit of the
/// shift's duration.
pub fn reserved_within(reserved: &Vec<TimeWindow>, limit: u64) -> (r: bool)
    ensures
        r == (reserved_length(reserved@) <= limit),
{
    let n = reserved.len();
    let mut used: u128 = 0;
    let mut k: usize = 0;
    while k < n
        invariant
            n == reserved@.len(),
            k <= n,
            used == reserved_length(reserved@.take(k as int)),
        decreases n - k,
    {
        proof {
            let longer = reserved@.take(k + 1);
            assert(longer.drop_last() =~= reserved@.take(k as int));
            lemma_reserved_length_bounds(longer);
            assert(longer.len() * 0xffff_ffff_ffff_ffff <= 0xffff_ffff_ffff_ffff * 0xffff_ffff_ffff_ffff)
                by (nonlinear_arith)
                requires
                    longer.len() <= 0xffff_ffff_ffff_ffff,
            ;
        }
        let block = reserved[k];
        if block.end >= block.start {
            used = used + (block.end - block.start) as u128;
        }
        k += 1;
    }
    proof {
        assert(reserved@.take(n as int) =~= reserved@);
    }
    used <= limit as u128
}

/// The departure from the start anchor with which the vehicle reaches the
/// first activity when its time window opens, kept within the time window
/// of the start anchor.
pub open spec fn advanced_departure(matrix: TransportMatrix, start: Activity, first: Activity) -> u64 {
    let duration = travel(matrix, start, first);
    let wanted = if first.place.time.start >= duration {
        (first.place.time.start - duration) as u64
    } else {
        0
    };
    let capped = if wanted > start.place.time.end {
        start.place.time.end
    } else {
        wanted
    };
    if capped < start.place.time.start {
        start.place.time.start
    } else {
        capped
    }
}

/// The activities after the departure from the start anchor is moved to the
/// first activity's time window and the schedules after it are computed
/// anew. A tour without an activity after the start anchor stays as it is.
pub open spec fn departure_advanced(matrix: TransportMatrix, activities: Seq<Activity>) -> Seq<Activity> {
    if activities.len() < 2 {
        activities
    } else {
        let start = activities[0];
        let departure = advanced_departure(matrix, start, activities[1]);
        rescheduled(
            matrix,
            activities.update(0, with_schedule(
                start,
                Schedule { arrival: start.schedule.arrival, departure, waiting: start.schedule.waiting },
            )),
            1,
        )
    }
}

/// Moves the departure from the start anchor to the first activity's time
/// window. Only schedules change.
pub fn departure_time(tour: &mut Tour, matrix: &TransportMatrix)
    requires
        old(tour).wf(),
        matrix.wf(),
    ensures
        final(tour).wf(),
        final(tour).closed() == old(tour).closed(),
        final(tour).job_list() == old(tour).job_list(),
        final(tour)@ == departure_advanced(*matrix, old(tour)@),
{
    if tour.total() < 2 {
        return;
    }
    let start = *tour.get(0).unwrap();
    let first = *tour.get(1).unwrap();
    let duration = match matrix.duration(start.place.location, first.place.location) {
        Some(duration) => duration,
        None => u64::MAX,
    };
    let wanted = if first.place.time.start >= duration { first.place.time.start - duration } else { 0 };
    let capped = if wanted > start.place.time.end { start.place.time.end } else { wanted };
    let departure = if capped < start.place.time.start { start.place.time.start } else { capped };
    tour.set_schedule(
        0,
        Schedule { arrival: start.schedule.arrival, departure, waiting: start.schedule.waiting },
    );
    update_schedule(tour, matrix, 1);
}

} // verus!
