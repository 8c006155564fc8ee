//! A tour with its vehicle, and the quantities derived from the tour which
//! are kept until the tour changes.

use vstd::prelude::*;
use crate::tour::{Activity, Job, StructuralError, Tour, jobs_of, with_job};

verus! {

/// What it costs to operate a vehicle.
#[derive(Clone, Copy, Debug, PartialEq, Eq, Structural, Hash)]
pub struct Costs {
    pub fixed: u64,
    pub per_distance: u64,
    pub per_time: u64,
}

/// A vehicle with its operating characteristics. Skills are a set of bits.
#[derive(Clone, Copy, Debug, PartialEq, Eq, Structural, Hash)]
pub struct Actor {
    pub vehicle: usize,
    pub costs: Costs,
    pub capacity: u64,
    pub skills: u64,
}

/// Quantities derived from the activities of a tour.
#[derive(Clone, Copy, Debug, PartialEq, Eq, Structural)]
pub struct RouteSummary {
    /// The number of activities, anchors included.
    pub activities: usize,
    /// The number of activities which realize a job.
    pub job_activities: usize,
    /// The number of distinct jobs.
    pub jobs: usize,
    /// The time spent at the places of all activities.
    pub service_time: u128,
}

/// The time spent at the places of the activities.
pub open spec fn service_time(activities: Seq<Activity>) -> int
    decreases activities.len(),
{
    if activities.len() == 0 {
        0
    } else {
        service_time(activities.drop_last()) + activities.last().place.duration
    }
}

/// The service time of as many activities is at most as many times the
/// longest duration.
pub proof fn lemma_service_time_bounds(activities: Seq<Activity>)
    ensures
        0 <= service_time(activities) <= activities.len() * 0xffff_ffff_ffff_ffff,
    decreases activities.len(),
{
    if activities.len() > 0 {
        lemma_service_time_bounds(activities.drop_last());
        assert((activities.len() - 1) * 0xffff_ffff_ffff_ffff + 0xffff_ffff_ffff_ffff == activities.len()
            * 0xffff_ffff_ffff_ffff) by (nonlinear_arith);
    }
}

/// Whether the summary is the one of the activities.
pub open spec fn summarizes(summary: RouteSummary, activities: Seq<Activity>) -> bool {
    &&& summary.activities == activities.len()
    &&& summary.job_activities == activities.filter(with_job()).len()
    &&& summary.jobs == jobs_of(activities).len()
    &&& summary.service_time == service_time(activities)
}

/// Computes the summary of a tour.
pub fn summarize(tour: &Tour) -> (summary: RouteSummary)
    requires
        tour.wf(),
    ensures
        summarizes(summary, tour@),
{
    let activities = tour.all_activities();
    let n = activities.len();
    let mut time: u128 = 0;
    let mut i: usize = 0;
    while i < n
        invariant
            n == activities@.len(),
            i <= n,
            time == service_time(activities@.take(i as int)),
        decreases n - i,
    {
        proof {
            let longer = activities@.take(i + 1);
            assert(longer.drop_last() =~= activities@.take(i as int));
            lemma_service_time_bounds(longer);
            assert(longer.len() * 0xffff_ffff_ffff_ffff <= 0xffff_ffff_ffff_ffff * 0xffff_ffff_ffff_ffff)
                by (nonlinear_arith)
                requires
                    longer.len() <= 0xffff_ffff_ffff_ffff,
            ;
        }
        time = time + activities[i].place.duration as u128;
        i += 1;
    }
    proof {
        assert(activities@.take(n as int) =~= activities@);
    }
    RouteSummary {
        activities: n,
        job_activities: tour.job_activity_count(),
        jobs: tour.job_count(),
        service_time: time,
    }
}

/// A tour with its vehicle and with the summary of the tour. The summary is
/// stale from a change of the tour's structure until it is refreshed.
pub struct RouteContext {
    actor: Actor,
    tour: Tour,
    summary: RouteSummary,
    is_stale: bool,
}

impl RouteContext {
    /// The tour.
    pub closed spec fn tour_spec(&self) -> Tour {
        self.tour
    }

    /// The vehicle.
    pub closed spec fn actor_spec(&self) -> Actor {
        self.actor
    }

    /// Whether the structure of the tour has changed since the summary was
    /// computed.
    pub closed spec fn stale(&self) -> bool {
        self.is_stale
    }

    /// The summary as it was last computed.
    pub closed spec fn kept(&self) -> RouteSummary {
        self.summary
    }

    /// The tour is well-formed, and a summary which is not stale is the
    /// summary of the tour.
    pub open spec fn wf(&self) -> bool {
        &&& self.tour_spec().wf()
        &&& !self.stale() ==> summarizes(self.kept(), self.tour_spec()@)
    }

    /// A route of the vehicle with a tour without anchors.
    pub fn new(actor: Actor) -> (ctx: RouteContext)
        ensures
            ctx.wf(),
            !ctx.stale(),
            ctx.actor_spec() == actor,
            ctx.tour_spec()@ == Seq::<Activity>::empty(),
            !ctx.tour_spec().closed(),
    {
        let tour = Tour::new();
        let summary = summarize(&tour);
        RouteContext { actor, tour, summary, is_stale: false }
    }

    /// The vehicle.
    pub fn actor(&self) -> (r: &Actor)
        ensures
            *r == self.actor_spec(),
    {
        &self.actor
    }

    /// The tour.
    pub fn tour(&self) -> (r: &Tour)
        ensures
            *r == self.tour_spec(),
    {
        &self.tour
    }

    /// Tells whether the summary has to be refreshed before it is used.
    pub fn is_stale(&self) -> (r: bool)
        ensures
            r == self.stale(),
    {
        self.is_stale
    }

    /// The summary of the tour, unless it is stale.
    pub fn summary(&self) -> (r: Option<RouteSummary>)
        requires
            self.wf(),
        ensures
            r is Some <==> !self.stale(),
            r is Some ==> summarizes(r.unwrap(), self.tour_spec()@),
    {
        if self.is_stale {
            None
        } else {
            Some(self.summary)
        }
    }

    /// Computes the summary anew.
    pub fn refresh(&mut self)
        requires
            old(self).wf(),
        ensures
            final(self).wf(),
            !final(self).stale(),
            final(self).tour_spec() == old(self).tour_spec(),
            final(self).actor_spec() == old(self).actor_spec(),
    {
        self.summary = summarize(&self.tour);
        self.is_stale = false;
    }

    /// Installs or replaces the start anchor of the tour.
    pub fn set_start(&mut self, activity: Activity) -> (r: Result<(), StructuralError>)
        requires
            old(self).wf(),
        ensures
            final(self).wf(),
            final(self).actor_spec() == old(self).actor_spec(),
            final(self).stale() == (old(self).stale() || r is Ok),
            r is Ok <==> activity.job is None,
            r is Ok ==> final(self).tour_spec()@ == (if old(self).tour_spec()@.len() == 0 {
                seq![activity]
            } else {
                old(self).tour_spec()@.update(0, activity)
            }),
            r is Err ==> final(self).tour_spec()@ == old(self).tour_spec()@,
            final(self).tour_spec().closed() == old(self).tour_spec().closed(),
    {
        let r = self.tour.set_start(activity);
        if r.is_ok() {
            self.is_stale = true;
        }
        r
    }

    /// Installs or replaces the end anchor of the tour.
    pub fn set_end(&mut self, activity: Activity) -> (r: Result<(), StructuralError>)
        requires
            old(self).wf(),
        ensures
            final(self).wf(),
            final(self).actor_spec() == old(self).actor_spec(),
            final(self).stale() == (old(self).stale() || r is Ok),
            r is Ok <==> activity.job is None && old(self).tour_spec()@.len() > 0,
            r is Ok ==> final(self).tour_spec().closed() && final(self).tour_spec()@ == (if old(
                self,
            ).tour_spec().closed() {
                old(self).tour_spec()@.update(old(self).tour_spec()@.len() - 1, activity)
            } else {
                old(self).tour_spec()@.push(activity)
            }),
            r is Err ==> final(self).tour_spec()@ == old(self).tour_spec()@ && final(self).tour_spec().closed()
                == old(self).tour_spec().closed(),
    {
        let r = self.tour.set_end(activity);
        if r.is_ok() {
            self.is_stale = true;
        }
        r
    }

    /// Inserts the activity into the tour at the position.
    pub fn insert_at(&mut self, activity: Activity, index: usize) -> (r: Result<(), StructuralError>)
        requires
            old(self).wf(),
        ensures
            final(self).wf(),
            final(self).actor_spec() == old(self).actor_spec(),
            final(self).stale() == (old(self).stale() || r is Ok),
            final(self).tour_spec().closed() == old(self).tour_spec().closed(),
            r is Ok <==> old(self).tour_spec().insertable(index as int),
            r is Ok ==> final(self).tour_spec()@ == old(self).tour_spec()@.insert(index as int, activity),
            r is Err ==> final(self).tour_spec()@ == old(self).tour_spec()@,
    {
        let r = self.tour.insert_at(activity, index);
        if r.is_ok() {
            self.is_stale = true;
        }
        r
    }

    /// Inserts the activity into the tour before the end anchor.
    pub fn insert_last(&mut self, activity: Activity) -> (r: Result<(), StructuralError>)
        requires
            old(self).wf(),
        ensures
            final(self).wf(),
            final(self).actor_spec() == old(self).actor_spec(),
            final(self).stale() == (old(self).stale() || r is Ok),
            final(self).tour_spec().closed() == old(self).tour_spec().closed(),
            r is Ok <==> old(self).tour_spec()@.len() > 0,
            r is Ok ==> final(self).tour_spec()@ == old(self).tour_spec()@.insert(
                old(self).tour_spec().insertion_bound(),
                activity,
            ),
            r is Err ==> final(self).tour_spec()@ == old(self).tour_spec()@,
    {
        let r = self.tour.insert_last(activity);
        if r.is_ok() {
            self.is_stale = true;
        }
        r
    }

    /// Removes the job from the tour.
    pub fn remove(&mut self, job: &Job) -> (removed: bool)
        requires
            old(self).wf(),
        ensures
            final(self).wf(),
            final(self).actor_spec() == old(self).actor_spec(),
            final(self).stale() == (old(self).stale() || removed),
            final(self).tour_spec().closed() == old(self).tour_spec().closed(),
            removed == jobs_of(old(self).tour_spec()@).contains(*job),
            final(self).tour_spec()@ == old(self).tour_spec()@.filter(crate::tour::not_bound_to(*job)),
    {
        let removed = self.tour.remove(job);
        if removed {
            self.is_stale = true;
        } else {
            proof {
                crate::tour::lemma_remove_nothing(old(self).tour@, *job);
            }
        }
        removed
    }
}

} // verus!
