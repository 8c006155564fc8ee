//! The routes of a solution with their summaries.

use vstd::prelude::*;
use crate::route::RouteContext;
use crate::tour::{Activity, Job, StructuralError, jobs_of, not_bound_to};

verus! {

/// The routes of one solution. The solution is stale while the summary of
/// one of its routes is stale.
pub struct SolutionContext {
    routes: Vec<RouteContext>,
}

impl SolutionContext {
    /// The routes in their order.
    pub closed spec fn view(&self) -> Seq<RouteContext> {
        self.routes@
    }

    /// Every route is well-formed.
    pub open spec fn wf(&self) -> bool {
        forall|i: int| 0 <= i < self@.len() ==> (#[trigger] self@[i]).wf()
    }

    /// Whether the summary of some route is stale.
    pub open spec fn stale(&self) -> bool {
        exists|i: int| 0 <= i < self@.len() && (#[trigger] self@[i]).stale()
    }

    /// A solution without routes.
    pub fn new() -> (solution: SolutionContext)
        ensures
            solution.wf(),
            solution@.len() == 0,
            !solution.stale(),
    {
        SolutionContext { routes: Vec::new() }
    }

    /// Adds a route at the end.
    pub fn add_route(&mut self, route: RouteContext)
        requires
            old(self).wf(),
            route.wf(),
        ensures
            final(self).wf(),
            final(self)@ == old(self)@.push(route),
    {
        self.routes.push(route);
    }

    /// The number of routes.
    pub fn len(&self) -> (n: usize)
        ensures
            n == self@.len(),
    {
        self.routes.len()
    }

    /// The route at the position.
    pub fn route(&self, index: usize) -> (r: Option<&RouteContext>)
        ensures
            index < self@.len() ==> r == Some(&self@[index as int]),
            index >= self@.len() ==> r is None,
    {
        if index < self.routes.len() {
            Some(&self.routes[index])
        } else {
            None
        }
    }

    /// Tells whether the summary of some route has to be refreshed.
    pub fn is_stale(&self) -> (r: bool)
        ensures
            r == self.stale(),
    {
        let n = self.routes.len();
        let mut i: usize = 0;
        while i < n
            invariant
                n == self@.len(),
                i <= n,
                forall|k: int| 0 <= k < i ==> !(#[trigger] self@[k]).stale(),
            decreases n - i,
        {
            if self.routes[i].is_stale() {
                assert(self@[i as int].stale());
                return true;
            }
            i += 1;
        }
        false
    }

    /// Inserts the activity into the route before its end anchor. Only the
    /// summary of that route becomes stale.
    pub fn insert_last(&mut self, index: usize, activity: Activity) -> (r: Result<(), StructuralError>)
        requires
            old(self).wf(),
            index < old(self)@.len(),
        ensures
            final(self).wf(),
            final(self)@.len() == old(self)@.len(),
            forall|k: int| 0 <= k < old(self)@.len() && k != index ==> final(self)@[k] == old(self)@[k],
            r is Ok <==> old(self)@[index as int].tour_spec()@.len() > 0,
            final(self)@[index as int].actor_spec() == old(self)@[index as int].actor_spec(),
            final(self)@[index as int].tour_spec().closed() == old(self)@[index as int].tour_spec().closed(),
            final(self)@[index as int].stale() == (old(self)@[index as int].stale() || r is Ok),
            r is Ok ==> final(self)@[index as int].tour_spec()@ == old(self)@[index as int].tour_spec()@.insert(
                old(self)@[index as int].tour_spec().insertion_bound(),
                activity,
            ),
            r is Err ==> final(self)@[index as int].tour_spec()@ == old(self)@[index as int].tour_spec()@,
    {
        let mut route = self.routes.remove(index);
        let r = route.insert_last(activity);
        self.routes.insert(index, route);
        r
    }

    /// Removes the job from the route. Only the summary of that route can
    /// become stale.
    pub fn remove(&mut self, index: usize, job: &Job) -> (removed: bool)
        requires
            old(self).wf(),
            index < old(self)@.len(),
        ensures
            final(self).wf(),
            final(self)@.len() == old(self)@.len(),
            forall|k: int| 0 <= k < old(self)@.len() && k != index ==> final(self)@[k] == old(self)@[k],
            removed == jobs_of(old(self)@[index as int].tour_spec()@).contains(*job),
            final(self)@[index as int].actor_spec() == old(self)@[index as int].actor_spec(),
            final(self)@[index as int].tour_spec().closed() == old(self)@[index as int].tour_spec().closed(),
            final(self)@[index as int].stale() == (old(self)@[index as int].stale() || removed),
            final(self)@[index as int].tour_spec()@ == old(self)@[index as int].tour_spec()@.filter(
                not_bound_to(*job),
            ),
    {
        let mut route = self.routes.remove(index);
        let removed = route.remove(job);
        self.routes.insert(index, route);
        removed
    }

    /// Computes the summary of every route anew.
    pub fn refresh(&mut self)
        requires
            old(self).wf(),
        ensures
            final(self).wf(),
            !final(self).stale(),
            final(self)@.len() == old(self)@.len(),
            forall|k: int|
                0 <= k < old(self)@.len() ==> (#[trigger] final(self)@[k]).tour_spec() == old(self)@[k].tour_spec()
                    && final(self)@[k].actor_spec() == old(self)@[k].actor_spec(),
    {
        let n = self.routes.len();
        let mut i: usize = 0;
        while i < n
            invariant
                n == self@.len(),
                n == old(self)@.len(),
                i <= n,
                self.wf(),
                forall|k: int| 0 <= k < i ==> !(#[trigger] self@[k]).stale(),
                forall|k: int|
                    0 <= k < n ==> (#[trigger] self@[k]).tour_spec() == old(self)@[k].tour_spec()
                        && self@[k].actor_spec() == old(self)@[k].actor_spec(),
            decreases n - i,
        {
            let mut route = self.routes.remove(i);
            route.refresh();
            self.routes.insert(i, route);
            i += 1;
        }
    }
}

} // verus!
