//! The tour of one vehicle: an ordered sequence of activities bounded by a
//! start and an end anchor, with a lookup of the jobs that are served.

use vstd::prelude::*;

verus! {

/// Identity of a job: the slot that the problem model assigned to it.
#[derive(Clone, Copy, Debug, PartialEq, Eq, Structural, Hash)]
pub enum Job {
    /// A job of one task.
    Single(usize),
    /// A group of tasks which share one identity.
    Multi(usize),
}

/// An interval of time in which a visit may start.
#[derive(Clone, Copy, Debug, PartialEq, Eq, Structural)]
pub struct TimeWindow {
    pub start: u64,
    pub end: u64,
}

/// Where and when an activity takes place.
#[derive(Clone, Copy, Debug, PartialEq, Eq, Structural)]
pub struct Place {
    /// Resolved location index.
    pub location: usize,
    /// Time spent at the location.
    pub duration: u64,
    /// Time window of the visit.
    pub time: TimeWindow,
}

/// Arrival, waiting and departure of a visit, filled in during evaluation.
#[derive(Clone, Copy, Debug, PartialEq, Eq, Structural)]
pub struct Schedule {
    /// When the vehicle arrives.
    pub arrival: u64,
    /// When the vehicle leaves.
    pub departure: u64,
    /// How long the vehicle waits for the time window to open.
    pub waiting: u64,
}

/// One stop of a vehicle. Anchors have no job.
#[derive(Clone, Copy, Debug, PartialEq, Eq)]
pub struct Activity {
    pub place: Place,
    pub schedule: Schedule,
    pub job: Option<Job>,
}

/// Why a structural change of a tour was refused.
#[derive(Clone, Copy, Debug, PartialEq, Eq, Structural)]
pub enum StructuralError {
    /// The insertion index is on an anchor or outside the tour.
    InvalidIndex,
    /// An anchor must not be bound to a job.
    AnchorWithJob,
    /// The tour has no start anchor yet.
    MissingStart,
}

/// Two adjacent activities and the position of the first one. The last leg of
/// a tour without an end anchor has no second activity.
pub struct Leg<'a> {
    pub first: &'a Activity,
    pub second: Option<&'a Activity>,
    pub index: usize,
}

/// The activity with another schedule.
pub open spec fn with_schedule(activity: Activity, schedule: Schedule) -> Activity {
    Activity { place: activity.place, schedule, job: activity.job }
}

/// Activities which realize the given job.
pub open spec fn bound_to(job: Job) -> spec_fn(Activity) -> bool {
    |a: Activity| a.job == Some(job)
}

/// Activities which do not realize the given job.
pub open spec fn not_bound_to(job: Job) -> spec_fn(Activity) -> bool {
    |a: Activity| a.job != Some(job)
}

/// Activities which realize some job.
pub open spec fn with_job() -> spec_fn(Activity) -> bool {
    |a: Activity| a.job is Some
}

/// The jobs which at least one activity of the sequence realizes.
pub open spec fn jobs_of(activities: Seq<Activity>) -> Set<Job> {
    Set::new(|j: Job| exists|i: int| 0 <= i < activities.len() && (#[trigger] activities[i]).job == Some(j))
}

/// Position of the first activity which realizes the job, if there is one.
pub open spec fn first_position(activities: Seq<Activity>, job: Job, at: int) -> bool {
    &&& 0 <= at < activities.len()
    &&& activities[at].job == Some(job)
    &&& forall|k: int| 0 <= k < at ==> (#[trigger] activities[k]).job != Some(job)
}

impl Activity {
    /// Tells whether the activity realizes the job.
    pub fn has_same_job(&self, job: &Job) -> (r: bool)
        ensures
            r == (self.job == Some(*job)),
    {
        match self.job {
            Some(own) => own == *job,
            None => false,
        }
    }
}

/// Ordered activities of one vehicle.
pub struct Tour {
    activities: Vec<Activity>,
    jobs: Vec<Job>,
    is_closed: bool,
}

impl Tour {
    /// The activities in tour order, anchors included.
    pub closed spec fn view(&self) -> Seq<Activity> {
        self.activities@
    }

    /// Whether the end anchor is set.
    pub closed spec fn closed(&self) -> bool {
        self.is_closed
    }

    /// The distinct jobs of the tour, in the order kept by the lookup.
    pub closed spec fn job_list(&self) -> Seq<Job> {
        self.jobs@
    }

    /// The anchors are where they belong and the job lookup agrees with the
    /// activities.
    pub open spec fn wf(&self) -> bool {
        &&& self@.len() > 0 ==> self@[0].job is None
        &&& self.closed() ==> self@.len() >= 2 && self@.last().job is None
        &&& self.job_list().no_duplicates()
        &&& forall|i: int|
            0 <= i < self@.len() && (#[trigger] self@[i]).job is Some ==> self.job_list().contains(
                self@[i].job.unwrap(),
            )
        &&& forall|k: int|
            0 <= k < self.job_list().len() ==> jobs_of(self@).contains(#[trigger] self.job_list()[k])
    }

    /// One past the last position at which an activity may be inserted.
    pub open spec fn insertion_bound(&self) -> int {
        if self.closed() {
            self@.len() - 1
        } else {
            self@.len() as int
        }
    }

    /// The number of activities after the start anchor and before the end
    /// anchor.
    pub open spec fn inner_count(&self) -> int {
        self.insertion_bound() - 1
    }

    /// Whether an activity may be inserted at the position.
    pub open spec fn insertable(&self, index: int) -> bool {
        1 <= index <= self.insertion_bound()
    }

    /// The activities which realize the job, in tour order.
    pub open spec fn occurrences(&self, job: Job) -> Seq<Activity> {
        self@.filter(bound_to(job))
    }

    /// Creates a tour without anchors.
    pub fn new() -> (tour: Tour)
        ensures
            tour.wf(),
            tour@ == Seq::<Activity>::empty(),
            !tour.closed(),
    {
        Tour { activities: Vec::new(), jobs: Vec::new(), is_closed: false }
    }

    /// Installs the start anchor, or replaces it.
    pub fn set_start(&mut self, activity: Activity) -> (r: Result<(), StructuralError>)
        requires
            old(self).wf(),
        ensures
            final(self).wf(),
            final(self).closed() == old(self).closed(),
            final(self).job_list() == old(self).job_list(),
            jobs_of(final(self)@) == jobs_of(old(self)@),
            final(self)@.filter(with_job()) == old(self)@.filter(with_job()),
            forall|job: Job|
                #![trigger final(self).occurrences(job)]
                final(self).occurrences(job) == old(self).occurrences(job),
            activity.job is Some ==> r == Err::<(), StructuralError>(StructuralError::AnchorWithJob)
                && final(self)@ == old(self)@,
            activity.job is None ==> r is Ok && final(self)@ == (if old(self)@.len() == 0 {
                seq![activity]
            } else {
                old(self)@.update(0, activity)
            }),
    {
        if activity.job.is_some() {
            return Err(StructuralError::AnchorWithJob);
        }
        if self.activities.len() == 0 {
            self.activities.push(activity);
            proof {
                assert(self.activities@ =~= seq![activity]);
                lemma_push_jobless(old(self)@, activity);
            }
        } else {
            self.activities.set(0, activity);
            proof {
                self.lemma_anchor_replaced(*old(self), 0);
                lemma_replace_jobless(old(self)@, 0, activity);
            }
        }
        Ok(())
    }

    /// Installs the end anchor, or replaces it. The start anchor comes first.
    pub fn set_end(&mut self, activity: Activity) -> (r: Result<(), StructuralError>)
        requires
            old(self).wf(),
        ensures
            final(self).wf(),
            final(self).job_list() == old(self).job_list(),
            jobs_of(final(self)@) == jobs_of(old(self)@),
            final(self)@.filter(with_job()) == old(self)@.filter(with_job()),
            forall|job: Job|
                #![trigger final(self).occurrences(job)]
                final(self).occurrences(job) == old(self).occurrences(job),
            activity.job is Some ==> r == Err::<(), StructuralError>(StructuralError::AnchorWithJob),
            activity.job is None && old(self)@.len() == 0 ==> r == Err::<(), StructuralError>(
                StructuralError::MissingStart,
            ),
            r is Err ==> final(self)@ == old(self)@ && final(self).closed() == old(self).closed(),
            activity.job is None && old(self)@.len() > 0 ==> r is Ok && final(self).closed()
                && final(self)@ == (if old(self).closed() {
                old(self)@.update(old(self)@.len() - 1, activity)
            } else {
                old(self)@.push(activity)
            }),
    {
        if activity.job.is_some() {
            return Err(StructuralError::AnchorWithJob);
        }
        let n = self.activities.len();
        if n == 0 {
            return Err(StructuralError::MissingStart);
        }
        if self.is_closed {
            self.activities.set(n - 1, activity);
            proof {
                self.lemma_anchor_replaced(*old(self), n - 1);
                lemma_replace_jobless(old(self)@, n - 1, activity);
            }
        } else {
            self.activities.push(activity);
            self.is_closed = true;
            proof {
                let before = old(self)@;
                let after = self@;
                lemma_push_jobless(before, activity);
                assert forall|k: int| 0 <= k < self.job_list().len() implies jobs_of(after).contains(
                    #[trigger] self.job_list()[k],
                ) by {
                    let j = self.job_list()[k];
                    assert(jobs_of(before).contains(j));
                    let i = choose|i: int| 0 <= i < before.len() && (#[trigger] before[i]).job == Some(j);
                    assert(after[i].job == Some(j));
                }
                assert forall|i: int| 0 <= i < after.len() && (#[trigger] after[i]).job is Some implies self.job_list().contains(
                    after[i].job.unwrap(),
                ) by {
                    assert(after[i] == before[i]);
                }
            }
        }
        Ok(())
    }

    /// Replacing an anchor by another activity without a job keeps the tour
    /// well-formed.
    proof fn lemma_anchor_replaced(self, before: Tour, at: int)
        requires
            before.wf(),
            0 <= at < before@.len(),
            before@[at].job is None,
            self@ == before@.update(at, self@[at]),
            self@[at].job is None,
            self.job_list() == before.job_list(),
            self.closed() == before.closed(),
        ensures
            self.wf(),
    {
        assert forall|k: int| 0 <= k < self.job_list().len() implies jobs_of(self@).contains(
            #[trigger] self.job_list()[k],
        ) by {
            let j = self.job_list()[k];
            assert(jobs_of(before@).contains(j));
            let i = choose|i: int| 0 <= i < before@.len() && (#[trigger] before@[i]).job == Some(j);
            assert(self@[i].job == Some(j));
        }
        assert forall|i: int| 0 <= i < self@.len() && (#[trigger] self@[i]).job is Some implies self.job_list().contains(
            self@[i].job.unwrap(),
        ) by {
            assert(self@[i] == before@[i]);
        }
    }

    /// Inserts the activity at the position, which lies after the start
    /// anchor and not after the end anchor.
    pub fn insert_at(&mut self, activity: Activity, index: usize) -> (r: Result<(), StructuralError>)
        requires
            old(self).wf(),
        ensures
            final(self).wf(),
            final(self).closed() == old(self).closed(),
            r is Ok <==> old(self).insertable(index as int),
            r is Err ==> r == Err::<(), StructuralError>(StructuralError::InvalidIndex) && final(self)@ == old(
                self,
            )@ && final(self).job_list() == old(self).job_list(),
            r is Ok ==> final(self)@ == old(self)@.insert(index as int, activity),
            r is Ok ==> final(self)@[index as int] == activity,
            r is Ok ==> final(self)@.filter(with_job()).len() == old(self)@.filter(with_job()).len() + (if activity.job is Some {
                1int
            } else {
                0int
            }),
            r is Ok ==> forall|job: Job|
                #![trigger final(self).occurrences(job)]
                final(self).occurrences(job).len() == old(self).occurrences(job).len() + (if activity.job
                    == Some(job) {
                    1int
                } else {
                    0int
                }),
            r is Ok ==> jobs_of(final(self)@) == (match activity.job {
                Some(job) => jobs_of(old(self)@).insert(job),
                None => jobs_of(old(self)@),
            }),
    {
        let n = self.activities.len();
        let limit = if self.is_closed { n - 1 } else { n };
        if index < 1 || index > limit {
            return Err(StructuralError::InvalidIndex);
        }
        match activity.job {
            Some(job) => {
                if !self.knows(&job) {
                    self.jobs.push(job);
                }
            },
            None => {},
        }
        self.activities.insert(index, activity);
        proof {
            let before = old(self)@;
            let after = self@;
            lemma_insert_filter_len(before, index as int, activity, with_job());
            assert forall|job: Job|
                #![trigger self.occurrences(job)]
                self.occurrences(job).len() == old(self).occurrences(job).len() + (if activity.job == Some(job) {
                    1int
                } else {
                    0int
                }) by {
                lemma_insert_filter_len(before, index as int, activity, bound_to(job));
            }
            lemma_insert_jobs(before, index as int, activity);
            assert forall|k: int| 0 <= k < self.job_list().len() implies jobs_of(after).contains(
                #[trigger] self.job_list()[k],
            ) by {
                let j = self.job_list()[k];
                if k < old(self).job_list().len() {
                    assert(j == old(self).job_list()[k]);
                    assert(jobs_of(before).contains(j));
                }
            }
            assert forall|i: int| 0 <= i < after.len() && (#[trigger] after[i]).job is Some implies self.job_list().contains(
                after[i].job.unwrap(),
            ) by {
                let j = after[i].job.unwrap();
                assert(jobs_of(after).contains(j));
                if activity.job == Some(j) {
                    if old(self).job_list().contains(j) {
                        let w = old(self).job_list().index_of(j);
                        assert(self.job_list()[w] == j);
                    } else {
                        assert(self.job_list().last() == j);
                    }
                } else {
                    assert(jobs_of(before).contains(j));
                    let m = choose|m: int| 0 <= m < before.len() && (#[trigger] before[m]).job == Some(j);
                    assert(old(self).job_list().contains(before[m].job.unwrap()));
                    let w = old(self).job_list().index_of(j);
                    assert(self.job_list()[w] == j);
                }
            }
        }
        Ok(())
    }

    /// Inserts the activity right before the end anchor, or at the end of a
    /// tour which has none.
    pub fn insert_last(&mut self, activity: Activity) -> (r: Result<(), StructuralError>)
        requires
            old(self).wf(),
        ensures
            final(self).wf(),
            final(self).closed() == old(self).closed(),
            r is Ok <==> old(self)@.len() > 0,
            r is Err ==> r == Err::<(), StructuralError>(StructuralError::MissingStart) && final(self)@ == old(
                self,
            )@ && final(self).job_list() == old(self).job_list(),
            r is Ok ==> final(self)@ == old(self)@.insert(old(self).insertion_bound(), activity),
            r is Ok ==> jobs_of(final(self)@) == (match activity.job {
                Some(job) => jobs_of(old(self)@).insert(job),
                None => jobs_of(old(self)@),
            }),
            r is Ok ==> final(self)@.filter(with_job()).len() == old(self)@.filter(with_job()).len() + (if activity.job is Some {
                1int
            } else {
                0int
            }),
    {
        let n = self.activities.len();
        if n == 0 {
            return Err(StructuralError::MissingStart);
        }
        let index = if self.is_closed { n - 1 } else { n };
        self.insert_at(activity, index)
    }

    /// Sets the arrival and departure of the activity at the position. The
    /// structure of the tour stays as it is.
    pub fn set_schedule(&mut self, index: usize, schedule: Schedule)
        requires
            old(self).wf(),
            index < old(self)@.len(),
        ensures
            final(self).wf(),
            final(self).closed() == old(self).closed(),
            final(self).job_list() == old(self).job_list(),
            final(self)@ == old(self)@.update(index as int, with_schedule(old(self)@[index as int], schedule)),
    {
        let current = self.activities[index];
        let changed = Activity { place: current.place, schedule, job: current.job };
        self.activities.set(index, changed);
        proof {
            let before = old(self)@;
            let after = self@;
            assert forall|k: int| 0 <= k < self.job_list().len() implies jobs_of(after).contains(
                #[trigger] self.job_list()[k],
            ) by {
                let j = self.job_list()[k];
                assert(jobs_of(before).contains(j));
                let i = choose|i: int| 0 <= i < before.len() && (#[trigger] before[i]).job == Some(j);
                assert(after[i].job == Some(j));
            }
            assert forall|i: int| 0 <= i < after.len() && (#[trigger] after[i]).job is Some implies self.job_list().contains(
                after[i].job.unwrap(),
            ) by {
                assert(after[i].job == before[i].job);
            }
        }
    }

    /// Removes every activity which realizes the job and tells whether the
    /// tour held the job.
    pub fn remove(&mut self, job: &Job) -> (removed: bool)
        requires
            old(self).wf(),
        ensures
            final(self).wf(),
            final(self).closed() == old(self).closed(),
            removed == jobs_of(old(self)@).contains(*job),
            final(self)@ == old(self)@.filter(not_bound_to(*job)),
            jobs_of(final(self)@) == jobs_of(old(self)@).remove(*job),
            final(self).occurrences(*job).len() == 0,
            forall|other: Job|
                #![trigger final(self).occurrences(other)]
                other != *job ==> final(self).occurrences(other) == old(self).occurrences(other),
    {
        let n = self.activities.len();
        let mut kept: Vec<Activity> = Vec::new();
        let mut i: usize = 0;
        while i < n
            invariant
                n == self.activities.len(),
                i <= n,
                self.activities@ == old(self)@,
                old(self).wf(),
                kept@ == old(self)@.take(i as int).filter(not_bound_to(*job)),
                i >= 1 ==> kept.len() >= 1 && kept@[0] == old(self)@[0],
                i >= 1 && not_bound_to(*job)(old(self)@[i - 1]) ==> kept@.last() == old(self)@[i - 1],
                i >= 2 && not_bound_to(*job)(old(self)@[i - 1]) ==> kept.len() >= 2,
            decreases n - i,
        {
            let a = self.activities[i];
            proof {
                let next = old(self)@.take(i + 1);
                assert(next.drop_last() =~= old(self)@.take(i as int));
                Seq::lemma_filter_push(old(self)@.take(i as int), a, not_bound_to(*job));
                assert(next =~= old(self)@.take(i as int).push(a));
            }
            if !a.has_same_job(job) {
                kept.push(a);
            }
            i += 1;
        }
        let m = self.jobs.len();
        let mut rest: Vec<Job> = Vec::new();
        let mut removed = false;
        let mut k: usize = 0;
        while k < m
            invariant
                m == self.jobs.len(),
                k <= m,
                self.jobs@ == old(self).job_list(),
                old(self).wf(),
                rest@.no_duplicates(),
                forall|x: int|
                    0 <= x < rest@.len() ==> (#[trigger] rest@[x]) != *job && old(self).job_list().take(
                        k as int,
                    ).contains(rest@[x]),
                forall|w: int|
                    0 <= w < k && (#[trigger] old(self).job_list()[w]) != *job ==> rest@.contains(
                        old(self).job_list()[w],
                    ),
                removed == old(self).job_list().take(k as int).contains(*job),
            decreases m - k,
        {
            let j = self.jobs[k];
            let ghost names = old(self).job_list();
            let ghost head = names.take(k as int);
            let ghost next = names.take(k + 1);
            let ghost earlier = rest@;
            proof {
                assert(next =~= head.push(j));
                if head.contains(*job) {
                    let w = head.index_of(*job);
                    assert(next[w] == *job);
                }
                if next.contains(*job) && j != *job {
                    let w = next.index_of(*job);
                    assert(head[w] == *job);
                }
                if j == *job {
                    assert(next[k as int] == *job);
                }
                assert forall|x: int| 0 <= x < earlier.len() implies next.contains(#[trigger] earlier[x])
                    && earlier[x] != j by {
                    let w = head.index_of(earlier[x]);
                    assert(next[w] == earlier[x]);
                    assert(names[w] == earlier[x]);
                }
            }
            if j == *job {
                removed = true;
            } else {
                rest.push(j);
                proof {
                    assert(next[k as int] == j);
                    assert(rest@[earlier.len() as int] == j);
                    assert forall|w: int| 0 <= w < k + 1 && (#[trigger] names[w]) != *job implies rest@.contains(
                        names[w],
                    ) by {
                        if w < k {
                            let x = earlier.index_of(names[w]);
                            assert(rest@[x] == names[w]);
                        }
                    }
                }
            }
            k += 1;
        }
        proof {
            let before = old(self)@;
            let names = old(self).job_list();
            assert(before.take(n as int) =~= before);
            assert(names.take(m as int) =~= names);
            lemma_filter_jobs(before, *job);
            lemma_filter_none_left(before, *job);
            assert forall|other: Job| other != *job implies #[trigger] before.filter(not_bound_to(*job)).filter(
                bound_to(other),
            ) == before.filter(bound_to(other)) by {
                lemma_filter_keeps_others(before, *job, other);
            }
            if removed {
                let w = names.index_of(*job);
                assert(jobs_of(before).contains(names[w]));
            }
            if jobs_of(before).contains(*job) {
                let w = choose|w: int| 0 <= w < before.len() && (#[trigger] before[w]).job == Some(*job);
                assert(names.contains(before[w].job.unwrap()));
            }
            assert forall|x: int| 0 <= x < rest@.len() implies jobs_of(kept@).contains(#[trigger] rest@[x]) by {
                let j = rest@[x];
                let w = names.index_of(j);
                assert(jobs_of(before).contains(names[w]));
            }
            assert forall|x: int| 0 <= x < kept@.len() && (#[trigger] kept@[x]).job is Some implies rest@.contains(
                kept@[x].job.unwrap(),
            ) by {
                let j = kept@[x].job.unwrap();
                assert(jobs_of(kept@).contains(j));
                assert(jobs_of(before).contains(j) && j != *job);
                let w = choose|w: int| 0 <= w < before.len() && (#[trigger] before[w]).job == Some(j);
                assert(names.contains(before[w].job.unwrap()));
                let v = names.index_of(j);
                assert(names[v] == j);
            }
            if self.is_closed {
                assert(not_bound_to(*job)(before[n - 1]));
            }
        }
        self.activities = kept;
        self.jobs = rest;
        removed
    }

    /// The activity at the position.
    pub fn get(&self, index: usize) -> (r: Option<&Activity>)
        ensures
            index < self@.len() ==> r == Some(&self@[index as int]),
            index >= self@.len() ==> r is None,
    {
        if index < self.activities.len() {
            Some(&self.activities[index])
        } else {
            None
        }
    }

    /// The start anchor, once it is set.
    pub fn start(&self) -> (r: Option<&Activity>)
        ensures
            self@.len() > 0 ==> r == Some(&self@[0]),
            self@.len() == 0 ==> r is None,
    {
        self.get(0)
    }

    /// The end anchor, once it is set.
    pub fn end(&self) -> (r: Option<&Activity>)
        requires
            self.wf(),
        ensures
            self.closed() ==> r == Some(&self@.last()),
            !self.closed() ==> r is None,
    {
        if self.is_closed {
            self.get(self.activities.len() - 1)
        } else {
            None
        }
    }

    /// All activities in tour order.
    pub fn all_activities(&self) -> (r: &Vec<Activity>)
        ensures
            r@ == self@,
    {
        &self.activities
    }

    /// The distinct jobs of the tour.
    pub fn jobs(&self) -> (r: &Vec<Job>)
        requires
            self.wf(),
        ensures
            r@ == self.job_list(),
            r@.no_duplicates(),
            r@.to_set() == jobs_of(self@),
    {
        proof {
            self.lemma_job_list_is_job_set();
        }
        &self.jobs
    }

    /// The lookup holds each job of the tour once.
    proof fn lemma_job_list_is_job_set(self)
        requires
            self.wf(),
        ensures
            self.job_list().to_set() == jobs_of(self@),
            self.job_list().len() == jobs_of(self@).len(),
    {
        let names = self.job_list();
        assert forall|j: Job| jobs_of(self@).contains(j) implies names.to_set().contains(j) by {
            let w = choose|w: int| 0 <= w < self@.len() && (#[trigger] self@[w]).job == Some(j);
            assert(names.contains(self@[w].job.unwrap()));
        }
        assert forall|j: Job| names.to_set().contains(j) implies jobs_of(self@).contains(j) by {
            let w = names.index_of(j);
            assert(jobs_of(self@).contains(names[w]));
        }
        assert(names.to_set() =~= jobs_of(self@));
        names.unique_seq_to_set();
    }

    /// The activities which realize the job, in tour order.
    pub fn job_activities(&self, job: &Job) -> (r: Vec<&Activity>)
        ensures
            r@.len() == self.occurrences(*job).len(),
            forall|i: int| 0 <= i < r@.len() ==> *(#[trigger] r@[i]) == self.occurrences(*job)[i],
    {
        let n = self.activities.len();
        let mut found: Vec<&Activity> = Vec::new();
        let mut i: usize = 0;
        while i < n
            invariant
                n == self.activities.len(),
                i <= n,
                found@.len() == self@.take(i as int).filter(bound_to(*job)).len(),
                forall|x: int|
                    0 <= x < found@.len() ==> *(#[trigger] found@[x]) == self@.take(i as int).filter(
                        bound_to(*job),
                    )[x],
            decreases n - i,
        {
            let a = &self.activities[i];
            proof {
                Seq::lemma_filter_push(self@.take(i as int), *a, bound_to(*job));
                assert(self@.take(i + 1) =~= self@.take(i as int).push(*a));
            }
            if a.has_same_job(job) {
                found.push(a);
            }
            i += 1;
        }
        proof {
            assert(self@.take(n as int) =~= self@);
        }
        found
    }

    /// The legs of the tour: one for each pair of adjacent activities, and one
    /// more for the last activity of a tour without an end anchor.
    pub fn legs(&self) -> (r: Result<Vec<Leg<'_>>, StructuralError>)
        requires
            self.wf(),
        ensures
            self@.len() == 0 ==> r == Err::<Vec<Leg<'_>>, StructuralError>(StructuralError::MissingStart),
            self@.len() > 0 ==> r is Ok && r.unwrap()@.len() == self.inner_count() + 1,
            r is Ok ==> forall|i: int|
                0 <= i < r.unwrap()@.len() ==> {
                    let leg = #[trigger] r.unwrap()@[i];
                    &&& leg.index == i
                    &&& *leg.first == self@[i]
                    &&& leg.second == (if i + 1 < self@.len() {
                        Some(&self@[i + 1])
                    } else {
                        None
                    })
                },
    {
        let n = self.activities.len();
        if n == 0 {
            return Err(StructuralError::MissingStart);
        }
        let count = if self.is_closed { n - 1 } else { n };
        let mut legs: Vec<Leg<'_>> = Vec::new();
        let mut i: usize = 0;
        while i < count
            invariant
                n == self.activities.len(),
                count <= n,
                i <= count,
                legs@.len() == i,
                forall|x: int|
                    0 <= x < i ==> {
                        let leg = #[trigger] legs@[x];
                        &&& leg.index == x
                        &&& *leg.first == self@[x]
                        &&& leg.second == (if x + 1 < self@.len() {
                            Some(&self@[x + 1])
                        } else {
                            None
                        })
                    },
            decreases count - i,
        {
            let second = if i + 1 < n { Some(&self.activities[i + 1]) } else { None };
            legs.push(Leg { first: &self.activities[i], second, index: i });
            i += 1;
        }
        Ok(legs)
    }

    /// The position of the first activity which realizes the job.
    pub fn index(&self, job: &Job) -> (r: Option<usize>)
        ensures
            r is Some <==> jobs_of(self@).contains(*job),
            r is Some ==> first_position(self@, *job, r.unwrap() as int),
    {
        let n = self.activities.len();
        let mut i: usize = 0;
        while i < n
            invariant
                n == self.activities.len(),
                i <= n,
                forall|k: int| 0 <= k < i ==> (#[trigger] self@[k]).job != Some(*job),
            decreases n - i,
        {
            if self.activities[i].has_same_job(job) {
                return Some(i);
            }
            i += 1;
        }
        None
    }

    /// Tells whether some activity realizes the job.
    pub fn has_job(&self, job: &Job) -> (r: bool)
        requires
            self.wf(),
        ensures
            r == jobs_of(self@).contains(*job),
    {
        proof {
            self.lemma_job_list_is_job_set();
        }
        self.knows(job)
    }

    /// The number of distinct jobs of the tour.
    pub fn job_count(&self) -> (n: usize)
        requires
            self.wf(),
        ensures
            n == jobs_of(self@).len(),
    {
        proof {
            self.lemma_job_list_is_job_set();
        }
        self.jobs.len()
    }

    /// The number of activities which realize a job; anchors realize none.
    pub fn job_activity_count(&self) -> (n: usize)
        ensures
            n == self@.filter(with_job()).len(),
    {
        let len = self.activities.len();
        let mut count: usize = 0;
        let mut i: usize = 0;
        while i < len
            invariant
                len == self.activities.len(),
                i <= len,
                count <= i,
                count == self@.take(i as int).filter(with_job()).len(),
            decreases len - i,
        {
            proof {
                Seq::lemma_filter_push(self@.take(i as int), self@[i as int], with_job());
                assert(self@.take(i + 1) =~= self@.take(i as int).push(self@[i as int]));
            }
            if self.activities[i].job.is_some() {
                count += 1;
            }
            i += 1;
        }
        proof {
            assert(self@.take(len as int) =~= self@);
        }
        count
    }

    /// The number of activities, anchors included.
    pub fn total(&self) -> (n: usize)
        ensures
            n == self@.len(),
    {
        self.activities.len()
    }

    /// Tells whether the lookup holds the job.
    fn knows(&self, job: &Job) -> (r: bool)
        ensures
            r == self.job_list().contains(*job),
    {
        let mut i: usize = 0;
        while i < self.jobs.len()
            invariant
                i <= self.jobs.len(),
                forall|k: int| 0 <= k < i ==> self.jobs@[k] != *job,
            decreases self.jobs.len() - i,
        {
            if self.jobs[i] == *job {
                return true;
            }
            i += 1;
        }
        false
    }
}

impl Default for Tour {
    /// A tour without anchors.
    fn default() -> (tour: Tour)
        ensures
            tour.wf(),
            tour@ == Seq::<Activity>::empty(),
            !tour.closed(),
    {
        Tour::new()
    }
}

/// Inserting one activity adds one to the number of activities which satisfy
/// a predicate where the new activity satisfies it, and nothing otherwise.
pub proof fn lemma_insert_filter_len(s: Seq<Activity>, at: int, a: Activity, p: spec_fn(Activity) -> bool)
    requires
        0 <= at <= s.len(),
    ensures
        s.insert(at, a).filter(p).len() == s.filter(p).len() + (if p(a) {
            1int
        } else {
            0int
        }),
{
    let head = s.take(at);
    let tail = s.skip(at);
    assert(s =~= head + tail);
    assert(s.insert(at, a) =~= head.push(a) + tail);
    Seq::filter_distributes_over_add(head, tail, p);
    Seq::filter_distributes_over_add(head.push(a), tail, p);
    Seq::lemma_filter_push(head, a, p);
}

/// An activity without a job at the end changes neither the jobs served nor
/// the activities of any job.
pub proof fn lemma_push_jobless(s: Seq<Activity>, a: Activity)
    requires
        a.job is None,
    ensures
        jobs_of(s.push(a)) == jobs_of(s),
        s.push(a).filter(with_job()) == s.filter(with_job()),
        forall|job: Job| #[trigger] s.push(a).filter(bound_to(job)) == s.filter(bound_to(job)),
{
    lemma_insert_jobs(s, s.len() as int, a);
    assert(s.insert(s.len() as int, a) =~= s.push(a));
    Seq::lemma_filter_push(s, a, with_job());
    assert forall|job: Job| #[trigger] s.push(a).filter(bound_to(job)) == s.filter(bound_to(job)) by {
        Seq::lemma_filter_push(s, a, bound_to(job));
    }
}

/// An activity without a job in the place of another one without a job
/// changes neither the jobs served nor the activities of any job.
pub proof fn lemma_replace_jobless(s: Seq<Activity>, at: int, a: Activity)
    requires
        0 <= at < s.len(),
        s[at].job is None,
        a.job is None,
    ensures
        jobs_of(s.update(at, a)) == jobs_of(s),
        s.update(at, a).filter(with_job()) == s.filter(with_job()),
        forall|job: Job| #[trigger] s.update(at, a).filter(bound_to(job)) == s.filter(bound_to(job)),
{
    let t = s.update(at, a);
    let head = s.take(at);
    let tail = s.skip(at + 1);
    assert(s =~= head.push(s[at]) + tail);
    assert(t =~= head.push(a) + tail);
    Seq::filter_distributes_over_add(head.push(s[at]), tail, with_job());
    Seq::filter_distributes_over_add(head.push(a), tail, with_job());
    Seq::lemma_filter_push(head, s[at], with_job());
    Seq::lemma_filter_push(head, a, with_job());
    assert forall|job: Job| #[trigger] t.filter(bound_to(job)) == s.filter(bound_to(job)) by {
        Seq::filter_distributes_over_add(head.push(s[at]), tail, bound_to(job));
        Seq::filter_distributes_over_add(head.push(a), tail, bound_to(job));
        Seq::lemma_filter_push(head, s[at], bound_to(job));
        Seq::lemma_filter_push(head, a, bound_to(job));
    }
    assert forall|j: Job| jobs_of(t).contains(j) <==> jobs_of(s).contains(j) by {
        if jobs_of(t).contains(j) {
            let i = choose|i: int| 0 <= i < t.len() && (#[trigger] t[i]).job == Some(j);
            assert(s[i].job == Some(j));
        }
        if jobs_of(s).contains(j) {
            let i = choose|i: int| 0 <= i < s.len() && (#[trigger] s[i]).job == Some(j);
            assert(t[i].job == Some(j));
        }
    }
    assert(jobs_of(t) =~= jobs_of(s));
}

/// Inserting one activity adds its job, if it has one, to the jobs served.
pub proof fn lemma_insert_jobs(s: Seq<Activity>, at: int, a: Activity)
    requires
        0 <= at <= s.len(),
    ensures
        jobs_of(s.insert(at, a)) == (match a.job {
            Some(job) => jobs_of(s).insert(job),
            None => jobs_of(s),
        }),
{
    let t = s.insert(at, a);
    let expected = match a.job {
        Some(job) => jobs_of(s).insert(job),
        None => jobs_of(s),
    };
    assert forall|j: Job| jobs_of(t).contains(j) implies expected.contains(j) by {
        let i = choose|i: int| 0 <= i < t.len() && (#[trigger] t[i]).job == Some(j);
        if i < at {
            assert(s[i].job == Some(j));
        } else if i > at {
            assert(s[i - 1].job == Some(j));
        }
    }
    assert forall|j: Job| expected.contains(j) implies jobs_of(t).contains(j) by {
        if a.job == Some(j) {
            assert(t[at].job == Some(j));
        } else {
            let i = choose|i: int| 0 <= i < s.len() && (#[trigger] s[i]).job == Some(j);
            if i < at {
                assert(t[i].job == Some(j));
            } else {
                assert(t[i + 1].job == Some(j));
            }
        }
    }
    assert(jobs_of(t) =~= expected);
}

/// Dropping the activities of one job leaves the other jobs, and only them.
pub proof fn lemma_filter_jobs(s: Seq<Activity>, job: Job)
    ensures
        jobs_of(s.filter(not_bound_to(job))) == jobs_of(s).remove(job),
{
    let t = s.filter(not_bound_to(job));
    assert forall|j: Job| jobs_of(t).contains(j) implies jobs_of(s).remove(job).contains(j) by {
        let i = choose|i: int| 0 <= i < t.len() && (#[trigger] t[i]).job == Some(j);
        Seq::lemma_filter_pred(s, not_bound_to(job), i);
        assert(t.contains(t[i]));
        Seq::lemma_filter_contains_rev(s, not_bound_to(job), t[i]);
        let w = s.index_of(t[i]);
        assert(s[w].job == Some(j));
    }
    assert forall|j: Job| jobs_of(s).remove(job).contains(j) implies jobs_of(t).contains(j) by {
        let i = choose|i: int| 0 <= i < s.len() && (#[trigger] s[i]).job == Some(j);
        Seq::lemma_filter_contains(s, not_bound_to(job), i);
        let w = t.index_of(s[i]);
        assert(t[w].job == Some(j));
    }
    assert(jobs_of(t) =~= jobs_of(s).remove(job));
}

/// After the activities of one job are dropped, none of them is left.
pub proof fn lemma_filter_none_left(s: Seq<Activity>, job: Job)
    ensures
        s.filter(not_bound_to(job)).filter(bound_to(job)).len() == 0,
{
    let t = s.filter(not_bound_to(job));
    let u = t.filter(bound_to(job));
    if u.len() > 0 {
        Seq::lemma_filter_pred(t, bound_to(job), 0);
        assert(u.contains(u[0]));
        Seq::lemma_filter_contains_rev(t, bound_to(job), u[0]);
        let w = t.index_of(u[0]);
        Seq::lemma_filter_pred(s, not_bound_to(job), w);
    }
}
/// Dropping the activities of one job leaves the activities of every other
/// job as they were.
pub proof fn lemma_filter_keeps_others(s: Seq<Activity>, job: Job, other: Job)
    requires
        other != job,
    ensures
        s.filter(not_bound_to(job)).filter(bound_to(other)) == s.filter(bound_to(other)),
    decreases s.len(),
{
    reveal(Seq::filter);
    if s.len() > 0 {
        let front = s.drop_last();
        lemma_filter_keeps_others(front, job, other);
        if not_bound_to(job)(s.last()) {
            Seq::lemma_filter_push(front.filter(not_bound_to(job)), s.last(), bound_to(other));
        }
    }
}

/// Removing a job which no activity realizes leaves the activities as they
/// are.
pub proof fn lemma_remove_nothing(s: Seq<Activity>, job: Job)
    requires
        !jobs_of(s).contains(job),
    ensures
        s.filter(not_bound_to(job)) == s,
    decreases s.len(),
{
    reveal(Seq::filter);
    if s.len() > 0 {
        let front = s.drop_last();
        assert(s[s.len() - 1].job != Some(job));
        assert forall|i: int| 0 <= i < front.len() implies (#[trigger] front[i]).job != Some(job) by {
            assert(s[i].job != Some(job));
        }
        lemma_remove_nothing(front, job);
        assert(front.push(s.last()) =~= s);
    }
}

/// Removing a job twice is removing it once: after the first removal no
/// activity realizes the job, so a second removal finds nothing to remove and
/// leaves the activities as they are.
pub proof fn lemma_remove_idempotent(s: Seq<Activity>, job: Job)
    ensures
        !jobs_of(s.filter(not_bound_to(job))).contains(job),
        s.filter(not_bound_to(job)).filter(not_bound_to(job)) == s.filter(not_bound_to(job)),
    decreases s.len(),
{
    reveal(Seq::filter);
    lemma_filter_jobs(s, job);
    if s.len() > 0 {
        let front = s.drop_last();
        lemma_remove_idempotent(front, job);
        if not_bound_to(job)(s.last()) {
            Seq::lemma_filter_push(front.filter(not_bound_to(job)), s.last(), not_bound_to(job));
        }
    }
}

/// The first activity among the occurrences of a job is the activity at the
/// job's first position, and no occurrence lies before that position.
pub proof fn lemma_index_is_first_occurrence(s: Seq<Activity>, job: Job, at: int)
    requires
        first_position(s, job, at),
    ensures
        s.take(at).filter(bound_to(job)).len() == 0,
        s.filter(bound_to(job)).len() > 0,
        s.filter(bound_to(job))[0] == s[at],
        s.filter(bound_to(job)) == seq![s[at]] + s.skip(at + 1).filter(bound_to(job)),
{
    let p = bound_to(job);
    let head = s.take(at);
    let tail = s.skip(at + 1);
    let early = head.filter(p);
    if early.len() > 0 {
        Seq::lemma_filter_pred(head, p, 0);
        assert(early.contains(early[0]));
        Seq::lemma_filter_contains_rev(head, p, early[0]);
        let w = head.index_of(early[0]);
        assert(s[w].job == Some(job));
    }
    assert(s =~= head.push(s[at]) + tail);
    Seq::filter_distributes_over_add(head.push(s[at]), tail, p);
    Seq::lemma_filter_push(head, s[at], p);
    assert(early.push(s[at]) =~= seq![s[at]]);
}

} // verus!
