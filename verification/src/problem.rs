//! The parts of a problem definition which name locations, and the order in
//! which the locations are met when the definition is read from top to bottom.

use vstd::prelude::*;
use crate::coord_index::Location;

verus! {

/// A place at which a task can be performed.
pub struct JobPlace {
    pub location: Location,
}

/// One task of a job, with the places among which the solver chooses.
pub struct JobTask {
    pub places: Vec<JobPlace>,
}

/// A job with its tasks by kind.
pub struct Job {
    pub pickups: Option<Vec<JobTask>>,
    pub deliveries: Option<Vec<JobTask>>,
    pub replacements: Option<Vec<JobTask>>,
    pub services: Option<Vec<JobTask>>,
}

/// What is to be served.
pub struct Plan {
    pub jobs: Vec<Job>,
}

/// Where a shift begins.
pub struct ShiftStart {
    pub location: Location,
}

/// Where a shift ends.
pub struct ShiftEnd {
    pub location: Location,
}

/// A place at which an optional break may be taken; without a location the
/// break is taken wherever the vehicle is.
pub struct VehicleOptionalBreakPlace {
    pub location: Option<Location>,
}

/// A break of a vehicle.
pub enum VehicleBreak {
    /// A break which may be skipped, with its places.
    Optional { places: Vec<VehicleOptionalBreakPlace> },
    /// A break which is taken on the way and has no place.
    Required,
}

/// A place at which a vehicle reloads.
pub struct VehicleReload {
    pub location: Location,
}

/// A station at which a vehicle recharges.
pub struct VehicleRechargeStation {
    pub location: Location,
}

/// The recharge stations of a shift.
pub struct VehicleRecharges {
    pub stations: Vec<VehicleRechargeStation>,
}

/// One shift of a vehicle.
pub struct VehicleShift {
    pub start: ShiftStart,
    pub end: Option<ShiftEnd>,
    pub breaks: Option<Vec<VehicleBreak>>,
    pub reloads: Option<Vec<VehicleReload>>,
    pub recharges: Option<VehicleRecharges>,
}

/// A type of vehicle with its shifts.
pub struct VehicleType {
    pub shifts: Vec<VehicleShift>,
}

/// The vehicles which serve the plan.
pub struct Fleet {
    pub vehicles: Vec<VehicleType>,
}

/// A problem: what is to be served, and by whom.
pub struct Problem {
    pub plan: Plan,
    pub fleet: Fleet,
}

/// The locations of the items one after the other, in the order of the items.
pub open spec fn gather<T>(items: Seq<T>, each: spec_fn(T) -> Seq<Location>) -> Seq<Location>
    decreases items.len(),
{
    if items.len() == 0 {
        Seq::empty()
    } else {
        gather(items.drop_last(), each) + each(items.last())
    }
}

/// One more item adds its locations at the end.
pub proof fn lemma_gather_step<T>(items: Seq<T>, each: spec_fn(T) -> Seq<Location>, i: int)
    requires
        0 <= i < items.len(),
    ensures
        gather(items.take(i + 1), each) == gather(items.take(i), each) + each(items[i]),
{
    assert(items.take(i + 1).drop_last() =~= items.take(i));
}

/// The location of a place.
pub open spec fn of_place() -> spec_fn(JobPlace) -> Seq<Location> {
    |p: JobPlace| seq![p.location]
}

/// The locations of the places of a task.
pub open spec fn of_task() -> spec_fn(JobTask) -> Seq<Location> {
    |t: JobTask| gather(t.places@, of_place())
}

/// The locations of the tasks of one kind; none where the job has no such tasks.
pub open spec fn of_tasks(tasks: Option<Vec<JobTask>>) -> Seq<Location> {
    match tasks {
        Some(tasks) => gather(tasks@, of_task()),
        None => Seq::empty(),
    }
}

/// The locations of a job: those of its pickups, deliveries, replacements and
/// services, in this order.
pub open spec fn of_job() -> spec_fn(Job) -> Seq<Location> {
    |j: Job| of_tasks(j.pickups) + of_tasks(j.deliveries) + of_tasks(j.replacements) + of_tasks(j.services)
}

/// The location of a break place, where it has one.
pub open spec fn of_break_place() -> spec_fn(VehicleOptionalBreakPlace) -> Seq<Location> {
    |p: VehicleOptionalBreakPlace|
        match p.location {
            Some(location) => seq![location],
            None => Seq::empty(),
        }
}

/// The locations of the places of an optional break; a required break has none.
pub open spec fn of_break() -> spec_fn(VehicleBreak) -> Seq<Location> {
    |b: VehicleBreak|
        match b {
            VehicleBreak::Optional { places } => gather(places@, of_break_place()),
            VehicleBreak::Required => Seq::empty(),
        }
}

/// The location of a reload.
pub open spec fn of_reload() -> spec_fn(VehicleReload) -> Seq<Location> {
    |r: VehicleReload| seq![r.location]
}

/// The location of a recharge station.
pub open spec fn of_station() -> spec_fn(VehicleRechargeStation) -> Seq<Location> {
    |s: VehicleRechargeStation| seq![s.location]
}

/// The location of the end of a shift, where it has one.
pub open spec fn of_end(end: Option<ShiftEnd>) -> Seq<Location> {
    match end {
        Some(end) => seq![end.location],
        None => Seq::empty(),
    }
}

/// The locations of the breaks of a shift.
pub open spec fn of_breaks(breaks: Option<Vec<VehicleBreak>>) -> Seq<Location> {
    match breaks {
        Some(breaks) => gather(breaks@, of_break()),
        None => Seq::empty(),
    }
}

/// The locations of the reloads of a shift.
pub open spec fn of_reloads(reloads: Option<Vec<VehicleReload>>) -> Seq<Location> {
    match reloads {
        Some(reloads) => gather(reloads@, of_reload()),
        None => Seq::empty(),
    }
}

/// The locations of the recharge stations of a shift.
pub open spec fn of_recharges(recharges: Option<VehicleRecharges>) -> Seq<Location> {
    match recharges {
        Some(recharges) => gather(recharges.stations@, of_station()),
        None => Seq::empty(),
    }
}

/// The locations of a shift: its start, its end, and those of its breaks,
/// reloads and recharge stations, in this order.
pub open spec fn of_shift() -> spec_fn(VehicleShift) -> Seq<Location> {
    |s: VehicleShift|
        seq![s.start.location] + of_end(s.end) + of_breaks(s.breaks) + of_reloads(s.reloads) + of_recharges(
            s.recharges,
        )
}

/// The locations of the shifts of a vehicle.
pub open spec fn of_vehicle() -> spec_fn(VehicleType) -> Seq<Location> {
    |v: VehicleType| gather(v.shifts@, of_shift())
}

/// The locations of a problem in the order in which an index meets them:
/// those of the jobs (pickups, deliveries, replacements, services), then
/// those of the shifts (start, end, break places, reloads, recharge stations).
pub open spec fn problem_locations(problem: Problem) -> Seq<Location> {
    gather(problem.plan.jobs@, of_job()) + gather(problem.fleet.vehicles@, of_vehicle())
}

impl JobTask {
    /// Appends the locations of the task's places.
    pub fn collect(&self, out: &mut Vec<Location>)
        ensures
            final(out)@ == old(out)@ + of_task()(*self),
    {
        let ghost start = out@;
        let n = self.places.len();
        let mut i: usize = 0;
        while i < n
            invariant
                n == self.places.len(),
                i <= n,
                out@ == start + gather(self.places@.take(i as int), of_place()),
            decreases n - i,
        {
            out.push(self.places[i].location);
            proof {
                lemma_gather_step(self.places@, of_place(), i as int);
                assert(out@ =~= start + gather(self.places@.take(i + 1), of_place()));
            }
            i += 1;
        }
        proof {
            assert(self.places@.take(n as int) =~= self.places@);
        }
    }
}

/// Appends the locations of the tasks.
pub fn collect_tasks(tasks: &Option<Vec<JobTask>>, out: &mut Vec<Location>)
    ensures
        final(out)@ == old(out)@ + of_tasks(*tasks),
{
    let ghost start = out@;
    match tasks {
        Some(tasks) => {
            let n = tasks.len();
            let mut i: usize = 0;
            while i < n
                invariant
                    n == tasks.len(),
                    i <= n,
                    out@ == start + gather(tasks@.take(i as int), of_task()),
                decreases n - i,
            {
                tasks[i].collect(out);
                proof {
                    lemma_gather_step(tasks@, of_task(), i as int);
                    assert(out@ =~= start + gather(tasks@.take(i + 1), of_task()));
                }
                i += 1;
            }
            proof {
                assert(tasks@.take(n as int) =~= tasks@);
            }
        },
        None => {
            proof {
                assert(out@ =~= start + Seq::<Location>::empty());
            }
        },
    }
}

impl Job {
    /// Appends the locations of the job's tasks.
    pub fn collect(&self, out: &mut Vec<Location>)
        ensures
            final(out)@ == old(out)@ + of_job()(*self),
    {
        let ghost start = out@;
        collect_tasks(&self.pickups, out);
        collect_tasks(&self.deliveries, out);
        collect_tasks(&self.replacements, out);
        collect_tasks(&self.services, out);
        proof {
            assert(out@ =~= start + of_job()(*self));
        }
    }
}

impl VehicleBreak {
    /// Appends the locations of the places of an optional break.
    pub fn collect(&self, out: &mut Vec<Location>)
        ensures
            final(out)@ == old(out)@ + of_break()(*self),
    {
        let ghost start = out@;
        match self {
            VehicleBreak::Optional { places } => {
                let n = places.len();
                let mut i: usize = 0;
                while i < n
                    invariant
                        n == places.len(),
                        i <= n,
                        out@ == start + gather(places@.take(i as int), of_break_place()),
                    decreases n - i,
                {
                    match places[i].location {
                        Some(location) => {
                            out.push(location);
                        },
                        None => {},
                    }
                    proof {
                        lemma_gather_step(places@, of_break_place(), i as int);
                        assert(out@ =~= start + gather(places@.take(i + 1), of_break_place()));
                    }
                    i += 1;
                }
                proof {
                    assert(places@.take(n as int) =~= places@);
                }
            },
            VehicleBreak::Required => {
                proof {
                    assert(out@ =~= start + Seq::<Location>::empty());
                }
            },
        }
    }
}

/// Appends the locations of the breaks.
pub fn collect_breaks(breaks: &Option<Vec<VehicleBreak>>, out: &mut Vec<Location>)
    ensures
        final(out)@ == old(out)@ + of_breaks(*breaks),
{
    let ghost start = out@;
    match breaks {
        Some(breaks) => {
            let n = breaks.len();
            let mut i: usize = 0;
            while i < n
                invariant
                    n == breaks.len(),
                    i <= n,
                    out@ == start + gather(breaks@.take(i as int), of_break()),
                decreases n - i,
            {
                breaks[i].collect(out);
                proof {
                    lemma_gather_step(breaks@, of_break(), i as int);
                    assert(out@ =~= start + gather(breaks@.take(i + 1), of_break()));
                }
                i += 1;
            }
            proof {
                assert(breaks@.take(n as int) =~= breaks@);
            }
        },
        None => {
            proof {
                assert(out@ =~= start + Seq::<Location>::empty());
            }
        },
    }
}

/// Appends the locations of the reloads.
pub fn collect_reloads(reloads: &Option<Vec<VehicleReload>>, out: &mut Vec<Location>)
    ensures
        final(out)@ == old(out)@ + of_reloads(*reloads),
{
    let ghost start = out@;
    match reloads {
        Some(reloads) => {
            let n = reloads.len();
            let mut i: usize = 0;
            while i < n
                invariant
                    n == reloads.len(),
                    i <= n,
                    out@ == start + gather(reloads@.take(i as int), of_reload()),
                decreases n - i,
            {
                out.push(reloads[i].location);
                proof {
                    lemma_gather_step(reloads@, of_reload(), i as int);
                    assert(out@ =~= start + gather(reloads@.take(i + 1), of_reload()));
                }
                i += 1;
            }
            proof {
                assert(reloads@.take(n as int) =~= reloads@);
            }
        },
        None => {
            proof {
                assert(out@ =~= start + Seq::<Location>::empty());
            }
        },
    }
}

/// Appends the locations of the recharge stations.
pub fn collect_recharges(recharges: &Option<VehicleRecharges>, out: &mut Vec<Location>)
    ensures
        final(out)@ == old(out)@ + of_recharges(*recharges),
{
    let ghost start = out@;
    match recharges {
        Some(recharges) => {
            let n = recharges.stations.len();
            let mut i: usize = 0;
            while i < n
                invariant
                    n == recharges.stations.len(),
                    i <= n,
                    out@ == start + gather(recharges.stations@.take(i as int), of_station()),
                decreases n - i,
            {
                out.push(recharges.stations[i].location);
                proof {
                    lemma_gather_step(recharges.stations@, of_station(), i as int);
                    assert(out@ =~= start + gather(recharges.stations@.take(i + 1), of_station()));
                }
                i += 1;
            }
            proof {
                assert(recharges.stations@.take(n as int) =~= recharges.stations@);
            }
        },
        None => {
            proof {
                assert(out@ =~= start + Seq::<Location>::empty());
            }
        },
    }
}

impl VehicleShift {
    /// Appends the start and the end of the shift.
    fn collect_anchors(&self, out: &mut Vec<Location>)
        ensures
            final(out)@ == old(out)@ + (seq![self.start.location] + of_end(self.end)),
    {
        let ghost start = out@;
        out.push(self.start.location);
        match &self.end {
            Some(end) => {
                out.push(end.location);
            },
            None => {},
        }
        proof {
            assert(out@ =~= start + (seq![self.start.location] + of_end(self.end)));
        }
    }

    /// Appends the locations of the shift.
    pub fn collect(&self, out: &mut Vec<Location>)
        ensures
            final(out)@ == old(out)@ + of_shift()(*self),
    {
        let ghost start = out@;
        self.collect_anchors(out);
        collect_breaks(&self.breaks, out);
        collect_reloads(&self.reloads, out);
        collect_recharges(&self.recharges, out);
        proof {
            assert(out@ =~= start + of_shift()(*self));
        }
    }
}

impl VehicleType {
    /// Appends the locations of the vehicle's shifts.
    pub fn collect(&self, out: &mut Vec<Location>)
        ensures
            final(out)@ == old(out)@ + of_vehicle()(*self),
    {
        let ghost start = out@;
        let n = self.shifts.len();
        let mut i: usize = 0;
        while i < n
            invariant
                n == self.shifts.len(),
                i <= n,
                out@ == start + gather(self.shifts@.take(i as int), of_shift()),
            decreases n - i,
        {
            self.shifts[i].collect(out);
            proof {
                lemma_gather_step(self.shifts@, of_shift(), i as int);
                assert(out@ =~= start + gather(self.shifts@.take(i + 1), of_shift()));
            }
            i += 1;
        }
        proof {
            assert(self.shifts@.take(n as int) =~= self.shifts@);
        }
    }
}

impl Problem {
    /// The locations of the problem, in the order in which they are met.
    pub fn locations(&self) -> (out: Vec<Location>)
        ensures
            out@ == problem_locations(*self),
    {
        let mut out: Vec<Location> = Vec::new();
        let jobs = &self.plan.jobs;
        let n = jobs.len();
        let mut i: usize = 0;
        while i < n
            invariant
                n == jobs.len(),
                i <= n,
                out@ == gather(jobs@.take(i as int), of_job()),
            decreases n - i,
        {
            jobs[i].collect(&mut out);
            proof {
                lemma_gather_step(jobs@, of_job(), i as int);
            }
            i += 1;
        }
        let ghost planned = out@;
        proof {
            assert(jobs@.take(n as int) =~= jobs@);
        }
        let vehicles = &self.fleet.vehicles;
        let m = vehicles.len();
        let mut k: usize = 0;
        while k < m
            invariant
                m == vehicles.len(),
                k <= m,
                out@ == planned + gather(vehicles@.take(k as int), of_vehicle()),
            decreases m - k,
        {
            vehicles[k].collect(&mut out);
            proof {
                lemma_gather_step(vehicles@, of_vehicle(), k as int);
                assert(out@ =~= planned + gather(vehicles@.take(k + 1), of_vehicle()));
            }
            k += 1;
        }
        proof {
            assert(vehicles@.take(m as int) =~= vehicles@);
        }
        out
    }
}

} // verus!
