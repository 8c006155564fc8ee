//! Recomputes arrivals and departures along a tour after its structure has
//! changed.

use vstd::prelude::*;
use crate::tour::{Activity, Schedule, Tour, with_schedule};
use crate::transport::TransportMatrix;

verus! {

/// The sum, or the largest time where the sum is beyond it.
pub open spec fn saturating(left: u64, right: u64) -> u64 {
    if left + right > u64::MAX {
        u64::MAX
    } else {
        (left + right) as u64
    }
}

/// The travel duration between two activities; a location outside the matrix
/// is never reached.
pub open spec fn travel(matrix: TransportMatrix, from: Activity, to: Activity) -> u64 {
    match matrix.duration_spec(from.place.location, to.place.location) {
        Some(duration) => duration,
        None => u64::MAX,
    }
}

/// The schedule of an activity which is reached from the one before it: the
/// vehicle arrives after the travel, waits for the time window to open, and
/// leaves after the service.
pub open spec fn schedule_after(matrix: TransportMatrix, previous: Activity, next: Activity) -> Schedule {
    let arrival = saturating(previous.schedule.departure, travel(matrix, previous, next));
    let begin = if arrival < next.place.time.start {
        next.place.time.start
    } else {
        arrival
    };
    Schedule { arrival, departure: saturating(begin, next.place.duration), waiting: (begin - arrival) as u64 }
}

/// The activities with the schedules from the position `from` on computed
/// anew, each from the departure of the activity before it. The schedule of
/// the start anchor is given and stays.
pub open spec fn rescheduled(matrix: TransportMatrix, activities: Seq<Activity>, from: int) -> Seq<Activity>
    decreases activities.len(),
{
    if activities.len() == 0 {
        activities
    } else {
        let front = rescheduled(matrix, activities.drop_last(), from);
        let last = activities.last();
        if activities.len() - 1 < from || activities.len() == 1 {
            front.push(last)
        } else {
            front.push(with_schedule(last, schedule_after(matrix, front.last(), last)))
        }
    }
}

/// Rescheduling keeps the number of activities.
pub proof fn lemma_rescheduled_len(matrix: TransportMatrix, activities: Seq<Activity>, from: int)
    ensures
        rescheduled(matrix, activities, from).len() == activities.len(),
    decreases activities.len(),
{
    if activities.len() > 0 {
        lemma_rescheduled_len(matrix, activities.drop_last(), from);
    }
}

/// Rescheduling leaves the activities before the position as they are.
pub proof fn lemma_rescheduled_before(matrix: TransportMatrix, activities: Seq<Activity>, from: int)
    requires
        activities.len() <= from || activities.len() <= 1,
    ensures
        rescheduled(matrix, activities, from) == activities,
    decreases activities.len(),
{
    if activities.len() > 0 {
        lemma_rescheduled_before(matrix, activities.drop_last(), from);
        assert(activities.drop_last().push(activities.last()) =~= activities);
    }
}

/// Adds two times and stops at the largest time.
pub fn add_time(left: u64, right: u64) -> (r: u64)
    ensures
        r == saturating(left, right),
{
    match left.checked_add(right) {
        Some(sum) => sum,
        None => u64::MAX,
    }
}

/// Recomputes the schedules of the activities from the position on.
pub fn update_schedule(tour: &mut Tour, matrix: &TransportMatrix, from: usize)
    requires
        old(tour).wf(),
        matrix.wf(),
    ensures
        final(tour).wf(),
        final(tour).closed() == old(tour).closed(),
        final(tour).job_list() == old(tour).job_list(),
        final(tour)@ == rescheduled(*matrix, old(tour)@, from as int),
{
    let n = tour.total();
    let mut i: usize = if from < 1 { 1 } else { from };
    proof {
        if i <= n {
            lemma_rescheduled_before(*matrix, tour@.take(i as int), from as int);
            assert(tour@.take(i as int) + tour@.skip(i as int) =~= tour@);
        } else {
            lemma_rescheduled_before(*matrix, tour@, from as int);
        }
    }
    while i < n
        invariant
            n == tour@.len(),
            n == old(tour)@.len(),
            1 <= i,
            from <= i,
            tour.wf(),
            matrix.wf(),
            tour.closed() == old(tour).closed(),
            tour.job_list() == old(tour).job_list(),
            i <= n ==> tour@ == rescheduled(*matrix, old(tour)@.take(i as int), from as int) + old(tour)@.skip(
                i as int,
            ),
            i > n ==> tour@ == rescheduled(*matrix, old(tour)@, from as int),
        decreases n - i,
    {
        let ghost before = tour@;
        let ghost done = rescheduled(*matrix, old(tour)@.take(i as int), from as int);
        proof {
            lemma_rescheduled_len(*matrix, old(tour)@.take(i as int), from as int);
        }
        let previous = *tour.get(i - 1).unwrap();
        let next = *tour.get(i).unwrap();
        let duration = match matrix.duration(previous.place.location, next.place.location) {
            Some(duration) => duration,
            None => u64::MAX,
        };
        let arrival = add_time(previous.schedule.departure, duration);
        let begin = if arrival < next.place.time.start { next.place.time.start } else { arrival };
        let departure = add_time(begin, next.place.duration);
        tour.set_schedule(i, Schedule { arrival, departure, waiting: begin - arrival });
        proof {
            let longer = old(tour)@.take(i + 1);
            assert(longer.drop_last() =~= old(tour)@.take(i as int));
            assert(longer.last() == old(tour)@[i as int]);
            assert(before[i - 1] == done.last());
            assert(before[i as int] == old(tour)@[i as int]);
            assert(tour@ =~= rescheduled(*matrix, longer, from as int) + old(tour)@.skip(i + 1));
        }
        i += 1;
    }
    proof {
        if i == n {
            assert(old(tour)@.take(n as int) =~= old(tour)@);
            assert(tour@ =~= rescheduled(*matrix, old(tour)@, from as int));
        }
    }
}

} // verus!
