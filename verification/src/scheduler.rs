//! The job scheduler: a priority queue of waiting jobs, a set of running
//! jobs, completed results, and qubit-resource gating.
//!
//! Its well-formedness carries the scheduler laws: submissions are conserved
//! across queue, running set and terminal counters; no qubit is ever granted
//! to two running jobs at once; the queue stays sorted by priority.

use vstd::prelude::*;

use crate::job::Job;
use crate::job::JobId;
use crate::job::JobQueue;
use crate::job::JobResult;
use crate::job::JobStatus;
use crate::job::job_matches;
use crate::job::rank;
use crate::job::sorted_by_priority;
use crate::qubit::LogicalQubitId;

verus! {

/// Monotonically increasing scheduling counters.
#[derive(Debug, Clone, Copy, PartialEq, Eq, Structural)]
pub struct SchedulerStats {
    pub total_submitted: u64,
    pub total_completed: u64,
    pub total_failed: u64,
    pub total_cancelled: u64,
    pub current_queue_depth: u64,
}

impl Default for SchedulerStats {
    fn default() -> (r: Self)
        ensures
            r.total_submitted == 0,
            r.total_completed == 0,
            r.total_failed == 0,
            r.total_cancelled == 0,
            r.current_queue_depth == 0,
    {
        SchedulerStats {
            total_submitted: 0,
            total_completed: 0,
            total_failed: 0,
            total_cancelled: 0,
            current_queue_depth: 0,
        }
    }
}

/// Whether two qubit lists share no qubit.
pub open spec fn qubits_disjoint(a: Seq<LogicalQubitId>, b: Seq<LogicalQubitId>) -> bool {
    forall|q: LogicalQubitId| !(#[trigger] a.contains(q) && #[trigger] b.contains(q))
}

/// Manages the waiting queue, running jobs, completed results and qubit
/// resources.
#[derive(Debug)]
pub struct JobScheduler {
    pub queue: JobQueue,
    /// Jobs currently holding resources, keyed by unique id.
    pub running: Vec<Job>,
    /// Results of finished jobs, keyed by unique id.
    pub completed: Vec<(JobId, JobResult)>,
    /// Qubits currently free, without duplicates.
    pub available_qubits: Vec<LogicalQubitId>,
    pub max_concurrent_jobs: usize,
    pub stats: SchedulerStats,
}

impl JobScheduler {
    pub open spec fn running_has(&self, id: JobId) -> bool {
        exists|k: int| 0 <= k < self.running@.len() && (#[trigger] self.running@[k]).id == id
    }

    pub open spec fn completed_has(&self, id: JobId) -> bool {
        exists|k: int| 0 <= k < self.completed@.len() && (#[trigger] self.completed@[k]).0 == id
    }

    pub open spec fn queue_has(&self, id: JobId) -> bool {
        exists|k: int|
            0 <= k < self.queue.jobs@.len() && (#[trigger] self.queue.jobs@[k]).id == id
    }

    /// The scheduler invariant:
    /// - the queue is sorted by priority;
    /// - running jobs and completed results carry unique ids;
    /// - the free-qubit list has no duplicates;
    /// - no qubit is held by two running jobs, nor both held and free;
    /// - every submission is still in the queue, running, or accounted for by
    ///   exactly one terminal counter;
    /// - the recorded queue depth is the queue length.
    pub open spec fn wf(&self) -> bool {
        &&& self.queue.wf()
        &&& forall|i: int, j: int|
            0 <= i < self.running@.len() && 0 <= j < self.running@.len() && i != j ==> (
            #[trigger] self.running@[i]).id != (#[trigger] self.running@[j]).id
        &&& forall|i: int, j: int|
            0 <= i < self.completed@.len() && 0 <= j < self.completed@.len() && i != j ==> (
            #[trigger] self.completed@[i]).0 != (#[trigger] self.completed@[j]).0
        &&& forall|i: int, j: int|
            0 <= i < self.queue.jobs@.len() && 0 <= j < self.queue.jobs@.len() && i != j ==> (
            #[trigger] self.queue.jobs@[i]).id != (#[trigger] self.queue.jobs@[j]).id
        &&& forall|i: int, j: int|
            #![trigger self.queue.jobs@[i], self.running@[j]]
            0 <= i < self.queue.jobs@.len() && 0 <= j < self.running@.len()
                ==> self.queue.jobs@[i].id != self.running@[j].id
        &&& forall|k: int| 0 <= k < self.queue.jobs@.len() ==> (#[trigger] self.queue.jobs@[k]).wf()
        &&& forall|k: int| 0 <= k < self.running@.len() ==> (#[trigger] self.running@[k]).wf()
        &&& self.available_qubits@.no_duplicates()
        &&& forall|i: int, j: int|
            #![trigger self.running@[i], self.running@[j]]
            0 <= i < self.running@.len() && 0 <= j < self.running@.len() && i != j
                ==> qubits_disjoint(
                self.running@[i].allocated_qubits@,
                self.running@[j].allocated_qubits@,
            )
        &&& forall|i: int|
            0 <= i < self.running@.len() ==> qubits_disjoint(
                (#[trigger] self.running@[i]).allocated_qubits@,
                self.available_qubits@,
            )
        &&& self.stats.total_submitted as int == self.queue.jobs@.len() + self.running@.len()
            + self.stats.total_completed + self.stats.total_failed + self.stats.total_cancelled
        &&& self.stats.current_queue_depth as int == self.queue.jobs@.len()
    }

    /// Whether `job` may be scheduled now: every dependency is completed and
    /// every required qubit is free.
    pub open spec fn spec_can_schedule(&self, job: Job) -> bool {
        &&& forall|k: int|
            0 <= k < job.depends_on@.len() ==> self.completed_has(#[trigger] job.depends_on@[k])
        &&& forall|k: int|
            0 <= k < job.allocated_qubits@.len() ==> self.available_qubits@.contains(
                #[trigger] job.allocated_qubits@[k],
            )
    }

    pub fn new(max_concurrent_jobs: usize) -> (r: Self)
        ensures
            r.wf(),
            r.queue.jobs@.len() == 0,
            r.running@.len() == 0,
            r.completed@.len() == 0,
            r.available_qubits@.len() == 0,
            r.max_concurrent_jobs == max_concurrent_jobs,
            r.stats == (SchedulerStats {
                total_submitted: 0,
                total_completed: 0,
                total_failed: 0,
                total_cancelled: 0,
                current_queue_depth: 0,
            }),
    {
        JobScheduler {
            queue: JobQueue::new(),
            running: Vec::new(),
            completed: Vec::new(),
            available_qubits: Vec::new(),
            max_concurrent_jobs,
            stats: SchedulerStats::default(),
        }
    }

    /// Declares the pool of free qubits, deduplicated.
    pub fn with_qubits(self, qubits: Vec<LogicalQubitId>) -> (r: Self)
        requires
            self.wf(),
            self.running@.len() == 0,
        ensures
            r.wf(),
            r.queue == self.queue,
            r.running@.len() == 0,
            r.completed == self.completed,
            r.max_concurrent_jobs == self.max_concurrent_jobs,
            r.stats == self.stats,
            forall|q: LogicalQubitId|
                #[trigger] r.available_qubits@.contains(q) <==> qubits@.contains(q),
    {
        let mut pool: Vec<LogicalQubitId> = Vec::new();
        let mut i: usize = 0;
        while i < qubits.len()
            invariant
                i <= qubits@.len(),
                pool@.no_duplicates(),
                forall|q: LogicalQubitId|
                    #[trigger] pool@.contains(q) <==> qubits@.take(i as int).contains(q),
            decreases qubits@.len() - i,
        {
            let q = qubits[i];
            proof {
                assert(qubits@.take(i + 1) == qubits@.take(i as int).push(qubits@[i as int]));
            }
            if !qubit_list_contains(&pool, q) {
                let ghost pre = pool@;
                pool.push(q);
                proof {
                    assert(pool@.last() == q);
                    assert forall|q2: LogicalQubitId| #[trigger] pool@.contains(q2) implies qubits@.take(
                        i + 1,
                    ).contains(q2) by {
                        let k = choose|k: int| 0 <= k < pool@.len() && pool@[k] == q2;
                        if k < pre.len() {
                            assert(pre.contains(q2));
                            assert(qubits@.take(i as int).contains(q2));
                            let k2 = choose|k2: int|
                                0 <= k2 < qubits@.take(i as int).len() && qubits@.take(i as int)[k2]
                                    == q2;
                            assert(qubits@.take(i + 1)[k2] == q2);
                        } else {
                            assert(qubits@.take(i + 1).last() == q2);
                        }
                    };
                    assert forall|q2: LogicalQubitId|
                        qubits@.take(i + 1).contains(q2) implies #[trigger] pool@.contains(q2) by {
                        let k = choose|k: int|
                            0 <= k < qubits@.take(i + 1).len() && #[trigger] qubits@.take(
                                i + 1,
                            )[k] == q2;
                        if k < i as int {
                            assert(qubits@.take(i as int)[k] == q2);
                            assert(qubits@.take(i as int).contains(q2));
                            assert(pre.contains(q2));
                            let k2 = choose|k2: int| 0 <= k2 < pre.len() && pre[k2] == q2;
                            assert(pool@[k2] == q2);
                        } else {
                            assert(q2 == q);
                            assert(pool@.last() == q2);
                        }
                    };
                }
            } else {
                proof {
                    assert forall|q2: LogicalQubitId|
                        qubits@.take(i + 1).contains(q2) implies #[trigger] pool@.contains(q2) by {
                        let k = choose|k: int|
                            0 <= k < qubits@.take(i + 1).len() && #[trigger] qubits@.take(
                                i + 1,
                            )[k] == q2;
                        if k < i as int {
                            assert(qubits@.take(i as int)[k] == q2);
                            assert(qubits@.take(i as int).contains(q2));
                        } else {
                            assert(q2 == q);
                        }
                    };
                    assert forall|q2: LogicalQubitId| #[trigger] pool@.contains(q2) implies qubits@.take(
                        i + 1,
                    ).contains(q2) by {
                        assert(qubits@.take(i as int).contains(q2));
                        let k2 = choose|k2: int|
                            0 <= k2 < qubits@.take(i as int).len() && qubits@.take(i as int)[k2]
                                == q2;
                        assert(qubits@.take(i + 1)[k2] == q2);
                    };
                }
            }
            i = i + 1;
        }
        proof {
            assert(qubits@.take(qubits@.len() as int) == qubits@);
        }
        JobScheduler { available_qubits: pool, ..self }
    }

    fn any_running_holds(&self, q: LogicalQubitId) -> (r: bool)
        ensures
            r == exists|k: int|
                0 <= k < self.running@.len() && (#[trigger] self.running@[k]).allocated_qubits@.contains(
                    q,
                ),
    {
        let mut k: usize = 0;
        while k < self.running.len()
            invariant
                k <= self.running@.len(),
                forall|k2: int|
                    0 <= k2 < k ==> !(#[trigger] self.running@[k2]).allocated_qubits@.contains(q),
            decreases self.running@.len() - k,
        {
            if qubit_list_contains(&self.running[k].allocated_qubits, q) {
                return true;
            }
            k = k + 1;
        }
        false
    }

    /// Makes every listed qubit known to the scheduler: a qubit that is
    /// neither free nor held by a running job joins the free pool.
    #[verifier::loop_isolation(false)]
    pub fn track_qubits(&mut self, qubits: &Vec<LogicalQubitId>)
        requires
            old(self).wf(),
        ensures
            final(self).wf(),
            final(self).queue == old(self).queue,
            final(self).running@ == old(self).running@,
            final(self).completed@ == old(self).completed@,
            final(self).stats == old(self).stats,
            final(self).max_concurrent_jobs == old(self).max_concurrent_jobs,
            forall|q: LogicalQubitId|
                old(self).available_qubits@.contains(q) ==> final(self).available_qubits@.contains(
                    q,
                ),
    {
        let mut i: usize = 0;
        while i < qubits.len()
            invariant
                self.wf(),
                self.queue == old(self).queue,
                self.running@ == old(self).running@,
                self.completed@ == old(self).completed@,
                self.stats == old(self).stats,
                self.max_concurrent_jobs == old(self).max_concurrent_jobs,
                i <= qubits@.len(),
                forall|q: LogicalQubitId|
                    old(self).available_qubits@.contains(q) ==> self.available_qubits@.contains(
                        q,
                    ),
            decreases qubits@.len() - i,
        {
            let q = qubits[i];
            if !qubit_list_contains(&self.available_qubits, q) && !self.any_running_holds(q) {
                let ghost pre = self.available_qubits@;
                self.available_qubits.push(q);
                proof {
                    assert(self.available_qubits@.last() == q);
                    assert forall|a: int, b: int|
                        0 <= a < self.available_qubits@.len() && 0 <= b
                            < self.available_qubits@.len() && a != b implies (
                    #[trigger] self.available_qubits@[a]) != (
                    #[trigger] self.available_qubits@[b]) by {
                        let n2 = pre.len() as int;
                        if a < n2 && b < n2 {
                        } else if a == n2 {
                            assert(self.available_qubits@[b] == pre[b]);
                            assert(pre.contains(pre[b]));
                        } else {
                            assert(self.available_qubits@[a] == pre[a]);
                            assert(pre.contains(pre[a]));
                        }
                    };
                    assert forall|a: int|
                        0 <= a < self.running@.len() implies qubits_disjoint(
                        (#[trigger] self.running@[a]).allocated_qubits@,
                        self.available_qubits@,
                    ) by {
                        assert forall|q2: LogicalQubitId|
                            !(#[trigger] self.running@[a].allocated_qubits@.contains(q2)
                                && #[trigger] self.available_qubits@.contains(q2)) by {
                            if self.available_qubits@.contains(q2) {
                                let w = choose|w: int|
                                    0 <= w < self.available_qubits@.len()
                                        && self.available_qubits@[w] == q2;
                                if w < pre.len() {
                                    assert(pre.contains(q2));
                                    assert(qubits_disjoint(
                                        self.running@[a].allocated_qubits@,
                                        pre,
                                    ));
                                } else {
                                    assert(q2 == q);
                                }
                            }
                        };
                    };
                    assert forall|q2: LogicalQubitId|
                        old(self).available_qubits@.contains(q2) implies self.available_qubits@.contains(
                            q2,
                        ) by {
                        assert(pre.contains(q2));
                        let w = choose|w: int| 0 <= w < pre.len() && pre[w] == q2;
                        assert(self.available_qubits@[w] == q2);
                    };
                }
            }
            i = i + 1;
        }
    }

    /// Submits a job: transitions it to `Queued`, counts the submission and
    /// enqueues it by priority.  Returns the job's id.
    pub fn submit(&mut self, job: Job) -> (r: JobId)
        requires
            old(self).wf(),
            job.wf(),
            old(self).stats.total_submitted < u64::MAX,
            !old(self).queue_has(job.id),
            !old(self).running_has(job.id),
        ensures
            final(self).wf(),
            r == job.id,
            final(self).queue.jobs@.len() == old(self).queue.jobs@.len() + 1,
            final(self).stats.total_submitted == old(self).stats.total_submitted + 1,
            final(self).stats.total_completed == old(self).stats.total_completed,
            final(self).stats.total_failed == old(self).stats.total_failed,
            final(self).stats.total_cancelled == old(self).stats.total_cancelled,
            final(self).running@ == old(self).running@,
            final(self).completed@ == old(self).completed@,
            final(self).available_qubits@ == old(self).available_qubits@,
            final(self).max_concurrent_jobs == old(self).max_concurrent_jobs,
            exists|pos: int|
                {
                    &&& 0 <= pos <= old(self).queue.jobs@.len()
                    &&& (#[trigger] final(self).queue.jobs@[pos]) == (Job {
                        status: JobStatus::Queued,
                        submitted_at: final(self).queue.jobs@[pos].submitted_at,
                        ..job
                    })
                    &&& final(self).queue.jobs@[pos].submitted_at is Some
                    &&& final(self).queue.jobs@[pos].id == job.id
                    &&& (forall|i: int|
                        0 <= i < pos ==> rank((#[trigger] old(self).queue.jobs@[i]).priority)
                            >= rank(job.priority))
                    &&& (pos < old(self).queue.jobs@.len() ==> rank(
                        old(self).queue.jobs@[pos].priority,
                    ) < rank(job.priority))
                    &&& forall|i: int|
                        0 <= i < pos ==> final(self).queue.jobs@[i] == old(self).queue.jobs@[i]
                    &&& forall|i: int|
                        pos < i < final(self).queue.jobs@.len() ==> final(self).queue.jobs@[i]
                            == old(self).queue.jobs@[i - 1]
                },
    {
        let mut job = job;
        let job_id = job.id;
        job.set_status(JobStatus::Queued);
        self.stats.total_submitted = self.stats.total_submitted + 1;
        self.queue.push(job);
        let depth = self.queue.len();
        self.stats.current_queue_depth = depth as u64;
        proof {
            let pos = choose|pos: int|
                {
                    &&& 0 <= pos <= old(self).queue.jobs@.len()
                    &&& (forall|i: int|
                        0 <= i < pos ==> rank(
                            (#[trigger] old(self).queue.jobs@[i]).priority,
                        ) >= rank(job.priority))
                    &&& (pos < old(self).queue.jobs@.len() ==> rank(
                        old(self).queue.jobs@[pos].priority,
                    ) < rank(job.priority))
                    &&& self.queue.jobs@ == old(self).queue.jobs@.insert(pos, job)
                };
            assert(self.queue.jobs@[pos] == job);
            assert forall|i: int| 0 <= i < pos implies self.queue.jobs@[i] == old(self).queue.jobs@[i] by {};
            let nq = self.queue.jobs@;
            let o = old(self).queue.jobs@;
            assert forall|i: int, j: int|
                0 <= i < nq.len() && 0 <= j < nq.len() && i != j implies (#[trigger] nq[i]).id != (
            #[trigger] nq[j]).id by {
                let i0: int = if i < pos { i } else { i - 1 };
                let j0: int = if j < pos { j } else { j - 1 };
                if i == pos {
                    assert(nq[j] == o[j0]);
                    if old(self).queue_has(job.id) {
                    } else {
                        assert(o[j0].id != job.id);
                    }
                } else if j == pos {
                    assert(nq[i] == o[i0]);
                    assert(o[i0].id != job.id);
                } else {
                    assert(nq[i] == o[i0]);
                    assert(nq[j] == o[j0]);
                }
            };
            assert forall|i: int, j: int|
                #![trigger nq[i], self.running@[j]]
                0 <= i < nq.len() && 0 <= j < self.running@.len() implies nq[i].id
                != self.running@[j].id by {
                if i == pos {
                    assert(!old(self).running_has(job.id));
                    assert(self.running@[j].id != job.id);
                } else {
                    let i0: int = if i < pos { i } else { i - 1 };
                    assert(nq[i] == o[i0]);
                }
            };
        }
        job_id
    }

    /// Whether `job` can be scheduled against the current completed set and
    /// free qubits.
    fn can_schedule(&self, job: &Job) -> (r: bool)
        ensures
            r == self.spec_can_schedule(*job),
    {
        let mut k: usize = 0;
        while k < job.depends_on.len()
            invariant
                k <= job.depends_on@.len(),
                forall|k2: int|
                    0 <= k2 < k ==> self.completed_has(#[trigger] job.depends_on@[k2]),
            decreases job.depends_on@.len() - k,
        {
            if !self.completed_contains(job.depends_on[k]) {
                return false;
            }
            k = k + 1;
        }
        let mut k2: usize = 0;
        while k2 < job.allocated_qubits.len()
            invariant
                k2 <= job.allocated_qubits@.len(),
                forall|k3: int|
                    0 <= k3 < k2 ==> self.available_qubits@.contains(
                        #[trigger] job.allocated_qubits@[k3],
                    ),
            decreases job.allocated_qubits@.len() - k2,
        {
            if !qubit_list_contains(&self.available_qubits, job.allocated_qubits[k2]) {
                return false;
            }
            k2 = k2 + 1;
        }
        true
    }

    fn completed_contains(&self, id: JobId) -> (r: bool)
        ensures
            r == self.completed_has(id),
    {
        let mut k: usize = 0;
        while k < self.completed.len()
            invariant
                k <= self.completed@.len(),
                forall|k2: int| 0 <= k2 < k ==> (#[trigger] self.completed@[k2]).0 != id,
            decreases self.completed@.len() - k,
        {
            if self.completed[k].0 == id {
                return true;
            }
            k = k + 1;
        }
        false
    }

    /// Picks the earliest schedulable job of the highest priority: because
    /// the queue is sorted, that is the first schedulable job in queue order.
    /// Returns `None` when the concurrency cap is reached or nothing is
    /// schedulable.  The chosen job turns `Ready`, its qubits leave the free
    /// pool, and a copy is tracked as running.
    #[verifier::loop_isolation(false)]
    #[verifier::rlimit(100)]
    #[verifier::spinoff_prover]
    pub fn schedule_next(&mut self) -> (r: Option<Job>)
        requires
            old(self).wf(),
        ensures
            final(self).wf(),
            final(self).stats.total_submitted == old(self).stats.total_submitted,
            final(self).stats.total_completed == old(self).stats.total_completed,
            final(self).stats.total_failed == old(self).stats.total_failed,
            final(self).stats.total_cancelled == old(self).stats.total_cancelled,
            final(self).max_concurrent_jobs == old(self).max_concurrent_jobs,
            final(self).completed@ == old(self).completed@,
            match r {
                None => *final(self) == *old(self) && (old(self).running@.len() >= old(self).max_concurrent_jobs || forall|i: int|
                    0 <= i < old(self).queue.jobs@.len() ==> !old(self).spec_can_schedule(
                        #[trigger] old(self).queue.jobs@[i],
                    )),
                Some(job) => {
                    &&& old(self).running@.len() < old(self).max_concurrent_jobs
                    &&& exists|i: int|
                        {
                            &&& 0 <= i < old(self).queue.jobs@.len()
                            &&& old(self).spec_can_schedule(#[trigger] old(self).queue.jobs@[i])
                            &&& (forall|i2: int|
                                0 <= i2 < i ==> !old(self).spec_can_schedule(
                                    #[trigger] old(self).queue.jobs@[i2],
                                ))
                            &&& job == (Job { status: JobStatus::Ready, ..old(self).queue.jobs@[i] })
                            &&& final(self).queue.jobs@ == old(self).queue.jobs@.remove(i)
                        }
                    &&& (forall|k: int|
                        0 <= k < old(self).queue.jobs@.len() && old(self).spec_can_schedule(
                            #[trigger] old(self).queue.jobs@[k],
                        ) ==> rank(job.priority) >= rank(old(self).queue.jobs@[k].priority))
                    &&& final(self).running@.len() == old(self).running@.len() + 1
                    &&& forall|k: int|
                        0 <= k < old(self).running@.len() ==> final(self).running@[k] == old(self).running@[k]
                    &&& job_matches(final(self).running@.last(), job)
                    &&& (forall|q: LogicalQubitId|
                        #[trigger] final(self).available_qubits@.contains(q) <==> (old(self).available_qubits@.contains(q) && !job.allocated_qubits@.contains(q)))
                },
            },
    {
        if self.running.len() >= self.max_concurrent_jobs {
            return None;
        }
        let n = self.queue.len();
        let mut i: usize = 0;
        let mut pick: Option<usize> = None;
        while i < n && pick.is_none()
            invariant
                i <= n,
                match pick {
                    Some(p) => p < n && p == i && self.spec_can_schedule(self.queue.jobs@[p as int])
                        && forall|i2: int|
                        0 <= i2 < p ==> !self.spec_can_schedule(
                            #[trigger] self.queue.jobs@[i2],
                        ),
                    None => forall|i2: int|
                        0 <= i2 < i ==> !self.spec_can_schedule(#[trigger] self.queue.jobs@[i2]),
                },
            decreases n - i, if pick is Some { 0int } else { 1int },
        {
            if self.can_schedule(&self.queue.jobs[i]) {
                pick = Some(i);
            } else {
                i = i + 1;
            }
        }
        let chosen = match pick {
            Some(p) => p,
            None => {
                return None;
            },
        };
        let ghost oq = self.queue.jobs@;
        let mut job = self.queue.jobs.remove(chosen);
        proof {
            assert forall|a: int, b: int|
                0 <= a < b < self.queue.jobs@.len() implies rank(
                (#[trigger] self.queue.jobs@[a]).priority,
            ) >= rank((#[trigger] self.queue.jobs@[b]).priority) by {
                let a0: int = if a < chosen { a } else { a + 1 };
                let b0: int = if b < chosen { b } else { b + 1 };
                assert(self.queue.jobs@[a] == oq[a0]);
                assert(self.queue.jobs@[b] == oq[b0]);
            };
        }
        job.set_status(JobStatus::Ready);
        // grant the job's qubits
        let ghost pre_avail = self.available_qubits@;
        let mut k: usize = 0;
        while k < job.allocated_qubits.len()
            invariant
                k <= job.allocated_qubits@.len(),
                self.running@ == old(self).running@,
                self.queue.jobs@ == oq.remove(chosen as int),
                self.completed@ == old(self).completed@,
                self.stats == old(self).stats,
                self.max_concurrent_jobs == old(self).max_concurrent_jobs,
                self.available_qubits@.no_duplicates(),
                forall|q: LogicalQubitId|
                    #[trigger] self.available_qubits@.contains(q) <==> (pre_avail.contains(q)
                        && !job.allocated_qubits@.take(k as int).contains(q)),
            decreases job.allocated_qubits@.len() - k,
        {
            proof {
                assert(job.allocated_qubits@.take(k + 1) == job.allocated_qubits@.take(
                    k as int,
                ).push(job.allocated_qubits@[k as int]));
            }
            remove_qubit(&mut self.available_qubits, job.allocated_qubits[k]);
            proof {
                assert forall|q: LogicalQubitId|
                    #[trigger] self.available_qubits@.contains(q) implies (pre_avail.contains(q)
                        && !job.allocated_qubits@.take(k + 1).contains(q)) by {
                    if job.allocated_qubits@.take(k + 1).contains(q) {
                        let w = choose|w: int|
                            0 <= w < k + 1 && #[trigger] job.allocated_qubits@.take(k + 1)[w]
                                == q;
                        if w < k as int {
                            assert(job.allocated_qubits@.take(k as int)[w] == q);
                            assert(job.allocated_qubits@.take(k as int).contains(q));
                        } else {
                            assert(q == job.allocated_qubits@[k as int]);
                        }
                    }
                };
                assert forall|q: LogicalQubitId|
                    (pre_avail.contains(q) && !job.allocated_qubits@.take(k + 1).contains(q))
                    implies #[trigger] self.available_qubits@.contains(q) by {
                    assert(job.allocated_qubits@.take(k + 1)[k as int] == job.allocated_qubits@[k as int]);
                    assert(q != job.allocated_qubits@[k as int]);
                    assert forall|w: int|
                        0 <= w < k implies job.allocated_qubits@.take(k as int)[w] != q by {
                        assert(job.allocated_qubits@.take(k + 1)[w] == job.allocated_qubits@.take(
                            k as int,
                        )[w]);
                    };
                    assert(!job.allocated_qubits@.take(k as int).contains(q));
                };
            }
            k = k + 1;
        }
        proof {
            assert(job.allocated_qubits@.take(job.allocated_qubits@.len() as int)
                == job.allocated_qubits@);
        }
        let copy = job.clone();
        self.running.push(copy);
        let depth = self.queue.len();
        self.stats.current_queue_depth = depth as u64;
        proof {
            // the new running job holds only qubits that were free, so it is
            // disjoint from every other running job and from the free pool
            let nr = self.running@;
            let last = nr.len() - 1;
            assert forall|a: int, b: int|
                #![trigger nr[a], nr[b]]
                0 <= a < nr.len() && 0 <= b < nr.len() && a != b implies qubits_disjoint(
                nr[a].allocated_qubits@,
                nr[b].allocated_qubits@,
            ) by {
                if a == last || b == last {
                    let o: int = if a == last { b } else { a };
                    assert(0 <= o < old(self).running@.len());
                    assert(nr[o] == old(self).running@[o]);
                    assert(qubits_disjoint(
                        old(self).running@[o].allocated_qubits@,
                        old(self).available_qubits@,
                    ));
                    assert forall|q: LogicalQubitId|
                        !(#[trigger] nr[last].allocated_qubits@.contains(q)
                            && #[trigger] nr[o].allocated_qubits@.contains(q)) by {
                        if nr[last].allocated_qubits@.contains(q) {
                            assert(job.allocated_qubits@.contains(q));
                            let w = choose|w: int|
                                0 <= w < job.allocated_qubits@.len()
                                    && job.allocated_qubits@[w] == q;
                            assert(old(self).available_qubits@.contains(q));
                        }
                    };
                }
            };
            assert forall|a: int|
                0 <= a < nr.len() implies qubits_disjoint(
                (#[trigger] nr[a]).allocated_qubits@,
                self.available_qubits@,
            ) by {
                if a == last {
                    assert forall|q: LogicalQubitId|
                        !(#[trigger] nr[last].allocated_qubits@.contains(q)
                            && #[trigger] self.available_qubits@.contains(q)) by {
                        if self.available_qubits@.contains(q) {
                            assert(!job.allocated_qubits@.contains(q));
                        }
                    };
                } else {
                    assert(nr[a] == old(self).running@[a]);
                    assert forall|q: LogicalQubitId|
                        !(#[trigger] nr[a].allocated_qubits@.contains(q)
                            && #[trigger] self.available_qubits@.contains(q)) by {
                        if self.available_qubits@.contains(q) {
                            assert(pre_avail.contains(q));
                        }
                    };
                }
            };
            // unique ids: the chosen job came out of the queue, whose ids
            // are distinct from each other and from every running id
            assert(nr == old(self).running@.push(copy));
            assert(job.id == oq[chosen as int].id);
            assert forall|a: int, b: int|
                0 <= a < nr.len() && 0 <= b < nr.len() && a != b implies (#[trigger] nr[a]).id != (
            #[trigger] nr[b]).id by {
                if a == last {
                    assert(nr[b] == old(self).running@[b]);
                    assert(oq[chosen as int].id != old(self).running@[b].id);
                } else if b == last {
                    assert(nr[a] == old(self).running@[a]);
                    assert(oq[chosen as int].id != old(self).running@[a].id);
                } else {
                    assert(nr[a] == old(self).running@[a]);
                    assert(nr[b] == old(self).running@[b]);
                }
            };
            let nq = self.queue.jobs@;
            assert forall|a: int, b: int|
                0 <= a < nq.len() && 0 <= b < nq.len() && a != b implies (#[trigger] nq[a]).id != (
            #[trigger] nq[b]).id by {
                let a0: int = if a < chosen { a } else { a + 1 };
                let b0: int = if b < chosen { b } else { b + 1 };
                assert(nq[a] == oq[a0]);
                assert(nq[b] == oq[b0]);
            };
            assert forall|a: int, b: int|
                #![trigger nq[a], nr[b]]
                0 <= a < nq.len() && 0 <= b < nr.len() implies nq[a].id != nr[b].id by {
                let a0: int = if a < chosen { a } else { a + 1 };
                assert(nq[a] == oq[a0]);
                if b == last {
                    assert(oq[a0].id != oq[chosen as int].id);
                } else {
                    assert(nr[b] == old(self).running@[b]);
                }
            };
        }
        Some(job)
    }
}

impl JobScheduler {
    fn running_index(&self, job_id: JobId) -> (r: Option<usize>)
        ensures
            match r {
                Some(k) => k < self.running@.len() && self.running@[k as int].id == job_id,
                None => !self.running_has(job_id),
            },
    {
        let mut k: usize = 0;
        while k < self.running.len()
            invariant
                k <= self.running@.len(),
                forall|k2: int| 0 <= k2 < k ==> (#[trigger] self.running@[k2]).id != job_id,
            decreases self.running@.len() - k,
        {
            if self.running[k].id == job_id {
                return Some(k);
            }
            k = k + 1;
        }
        proof {
            assert forall|k2: int|
                0 <= k2 < self.running@.len() implies (#[trigger] self.running@[k2]).id
                != job_id by {};
        }
        None
    }

    /// Marks a job finished: removes it from the running set, returns its
    /// qubits to the free pool, counts the completion or failure, and records
    /// the result.  A job id that is not running is ignored.
    #[verifier::loop_isolation(false)]
    #[verifier::rlimit(100)]
    #[verifier::spinoff_prover]
    pub fn complete(&mut self, job_id: JobId, result: JobResult)
        requires
            old(self).wf(),
            old(self).stats.total_completed < u64::MAX,
            old(self).stats.total_failed < u64::MAX,
        ensures
            final(self).wf(),
            final(self).queue == old(self).queue,
            final(self).max_concurrent_jobs == old(self).max_concurrent_jobs,
            final(self).stats.total_submitted == old(self).stats.total_submitted,
            final(self).stats.total_cancelled == old(self).stats.total_cancelled,
            !old(self).running_has(job_id) ==> *final(self) == *old(self),
            forall|id2: JobId|
                id2 != job_id ==> (#[trigger] final(self).completed_has(id2) <==> old(
                    self,
                ).completed_has(id2)),
            old(self).running_has(job_id) ==> {
                &&& final(self).running@.len() == old(self).running@.len() - 1
                &&& !final(self).running_has(job_id)
                &&& exists|k: int|
                    {
                        &&& 0 <= k < old(self).running@.len()
                        &&& (#[trigger] old(self).running@[k]).id == job_id
                        &&& forall|q: crate::qubit::LogicalQubitId|
                            #[trigger] final(self).available_qubits@.contains(q) <==> (old(
                                self,
                            ).available_qubits@.contains(q)
                                || old(self).running@[k].allocated_qubits@.contains(q))
                    }
                &&& (result.status is Completed ==> final(self).stats.total_completed == old(self).stats.total_completed + 1 && final(self).stats.total_failed == old(self).stats.total_failed)
                &&& (!(result.status is Completed) ==> final(self).stats.total_failed == old(self).stats.total_failed + 1 && final(self).stats.total_completed == old(self).stats.total_completed)
                &&& final(self).completed_has(job_id)
                &&& exists|k: int|
                    0 <= k < final(self).completed@.len() && (#[trigger] final(self).completed@[k]) == (job_id, result)
            },
    {
        let found = self.running_index(job_id);
        let k = match found {
            Some(k) => k,
            None => {
                return ;
            },
        };
        let ghost orun = self.running@;
        let job = self.running.remove(k);
        proof {
            assert forall|a: int, b: int|
                0 <= a < self.running@.len() && 0 <= b < self.running@.len() && a != b implies (
            #[trigger] self.running@[a]).id != (#[trigger] self.running@[b]).id by {
                let a0: int = if a < k { a } else { a + 1 };
                let b0: int = if b < k { b } else { b + 1 };
                assert(self.running@[a] == orun[a0]);
                assert(self.running@[b] == orun[b0]);
            };
            assert forall|a: int, b: int|
                #![trigger self.running@[a], self.running@[b]]
                0 <= a < self.running@.len() && 0 <= b < self.running@.len() && a
                    != b implies qubits_disjoint(
                self.running@[a].allocated_qubits@,
                self.running@[b].allocated_qubits@,
            ) by {
                let a0: int = if a < k { a } else { a + 1 };
                let b0: int = if b < k { b } else { b + 1 };
                assert(self.running@[a] == orun[a0]);
                assert(self.running@[b] == orun[b0]);
            };
            assert forall|a: int, b: int|
                #![trigger self.queue.jobs@[a], self.running@[b]]
                0 <= a < self.queue.jobs@.len() && 0 <= b < self.running@.len()
                    implies self.queue.jobs@[a].id != self.running@[b].id by {
                let b0: int = if b < k { b } else { b + 1 };
                assert(self.running@[b] == orun[b0]);
            };
            assert forall|a: int|
                0 <= a < self.running@.len() implies (#[trigger] self.running@[a]).wf() by {
                let a0: int = if a < k { a } else { a + 1 };
                assert(self.running@[a] == orun[a0]);
            };
            assert(!self.running_has(job_id)) by {
                if self.running_has(job_id) {
                    let w = choose|w: int|
                        0 <= w < self.running@.len() && (#[trigger] self.running@[w]).id == job_id;
                    let w0: int = if w < k { w } else { w + 1 };
                    assert(self.running@[w] == orun[w0]);
                    assert(orun[w0].id == orun[k as int].id);
                }
            };
        }
        // the job's qubits return to the pool
        let ghost pre_avail = self.available_qubits@;
        let mut i: usize = 0;
        while i < job.allocated_qubits.len()
            invariant
                i <= job.allocated_qubits@.len(),
                self.running@ == orun.remove(k as int),
                self.queue == old(self).queue,
                self.completed@ == old(self).completed@,
                self.stats == old(self).stats,
                self.max_concurrent_jobs == old(self).max_concurrent_jobs,
                self.available_qubits@.no_duplicates(),
                forall|q: LogicalQubitId|
                    #[trigger] self.available_qubits@.contains(q) <==> (pre_avail.contains(q)
                        || job.allocated_qubits@.take(i as int).contains(q)),
            decreases job.allocated_qubits@.len() - i,
        {
            proof {
                assert(job.allocated_qubits@.take(i + 1) == job.allocated_qubits@.take(
                    i as int,
                ).push(job.allocated_qubits@[i as int]));
            }
            let q = job.allocated_qubits[i];
            if !qubit_list_contains(&self.available_qubits, q) {
                let ghost pre = self.available_qubits@;
                self.available_qubits.push(q);
                proof {
                    assert(self.available_qubits@.last() == q);
                    assert forall|a: int, b: int|
                        0 <= a < self.available_qubits@.len() && 0 <= b
                            < self.available_qubits@.len() && a != b implies (
                    #[trigger] self.available_qubits@[a]) != (
                    #[trigger] self.available_qubits@[b]) by {
                        let n2 = pre.len() as int;
                        if a < n2 && b < n2 {
                        } else if a == n2 {
                            assert(self.available_qubits@[b] == pre[b]);
                            assert(pre.contains(pre[b]));
                        } else {
                            assert(self.available_qubits@[a] == pre[a]);
                            assert(pre.contains(pre[a]));
                        }
                    };
                    assert forall|q2: LogicalQubitId|
                        #[trigger] self.available_qubits@.contains(q2) implies (pre_avail.contains(
                            q2,
                        ) || job.allocated_qubits@.take(i + 1).contains(q2)) by {
                        let w = choose|w: int|
                            0 <= w < self.available_qubits@.len() && self.available_qubits@[w]
                                == q2;
                        if w < pre.len() {
                            assert(pre.contains(q2));
                        } else {
                            assert(q2 == q);
                            assert(job.allocated_qubits@.take(i + 1)[i as int] == q);
                        }
                    };
                    assert forall|q2: LogicalQubitId|
                        (pre_avail.contains(q2) || job.allocated_qubits@.take(i + 1).contains(
                            q2,
                        )) implies #[trigger] self.available_qubits@.contains(q2) by {
                        if pre_avail.contains(q2) || job.allocated_qubits@.take(
                            i as int,
                        ).contains(q2) {
                            assert(pre.contains(q2));
                            let w = choose|w: int| 0 <= w < pre.len() && pre[w] == q2;
                            assert(self.available_qubits@[w] == q2);
                        } else {
                            let w = choose|w: int|
                                0 <= w < i + 1 && #[trigger] job.allocated_qubits@.take(i + 1)[w]
                                    == q2;
                            assert(w == i as int);
                            assert(q2 == q);
                            assert(self.available_qubits@.last() == q);
                        }
                    };
                }
            } else {
                proof {
                    assert forall|q2: LogicalQubitId|
                        (pre_avail.contains(q2) || job.allocated_qubits@.take(i + 1).contains(
                            q2,
                        )) implies #[trigger] self.available_qubits@.contains(q2) by {
                        if pre_avail.contains(q2) || job.allocated_qubits@.take(
                            i as int,
                        ).contains(q2) {
                        } else {
                            let w = choose|w: int|
                                0 <= w < i + 1 && #[trigger] job.allocated_qubits@.take(i + 1)[w]
                                    == q2;
                            assert(w == i as int);
                            assert(q2 == q);
                        }
                    };
                }
            }
            i = i + 1;
        }
        proof {
            assert(job.allocated_qubits@.take(job.allocated_qubits@.len() as int)
                == job.allocated_qubits@);
            assert forall|a: int|
                0 <= a < self.running@.len() implies qubits_disjoint(
                (#[trigger] self.running@[a]).allocated_qubits@,
                self.available_qubits@,
            ) by {
                let a0: int = if a < k { a } else { a + 1 };
                assert(self.running@[a] == orun[a0]);
                assert forall|q: LogicalQubitId|
                    !(#[trigger] orun[a0].allocated_qubits@.contains(q)
                        && #[trigger] self.available_qubits@.contains(q)) by {
                    if self.available_qubits@.contains(q) {
                        if pre_avail.contains(q) {
                            assert(qubits_disjoint(orun[a0].allocated_qubits@, pre_avail));
                        } else {
                            assert(job.allocated_qubits@.contains(q));
                            assert(orun[k as int].allocated_qubits@.contains(q));
                            assert(a0 != k as int);
                            assert(qubits_disjoint(
                                orun[a0].allocated_qubits@,
                                orun[k as int].allocated_qubits@,
                            ));
                        }
                    }
                };
            };
        }
        // count the outcome and record the result, replacing any stale entry
        if result.status.is_terminal() && matches!(result.status, JobStatus::Completed) {
            self.stats.total_completed = self.stats.total_completed + 1;
        } else {
            self.stats.total_failed = self.stats.total_failed + 1;
        }
        let ghost precomp = self.completed@;
        let mut c: usize = 0;
        let mut found_c: Option<usize> = None;
        while c < self.completed.len()
            invariant
                c <= self.completed@.len(),
                match found_c {
                    Some(f) => f < self.completed@.len() && self.completed@[f as int].0 == job_id,
                    None => forall|c2: int|
                        0 <= c2 < c ==> (#[trigger] self.completed@[c2]).0 != job_id,
                },
            decreases self.completed@.len() - c,
        {
            if found_c.is_none() && self.completed[c].0 == job_id {
                found_c = Some(c);
            }
            c = c + 1;
        }
        match found_c {
            Some(f) => {
                self.completed[f] = (job_id, result);
                proof {
                    let nc = self.completed@;
                    assert(nc == precomp.update(f as int, nc[f as int]));
                    assert forall|id2: JobId| id2 != job_id implies (#[trigger] self.completed_has(
                        id2,
                    ) <==> old(self).completed_has(id2)) by {
                        if self.completed_has(id2) {
                            let w = choose|w: int|
                                0 <= w < nc.len() && (#[trigger] nc[w]).0 == id2;
                            assert(w != f as int);
                            assert(precomp[w] == nc[w]);
                        }
                        if old(self).completed_has(id2) {
                            let w = choose|w: int|
                                0 <= w < precomp.len() && (#[trigger] precomp[w]).0 == id2;
                            assert(w != f as int);
                            assert(nc[w] == precomp[w]);
                        }
                    };
                    assert forall|a: int, b: int|
                        0 <= a < nc.len() && 0 <= b < nc.len() && a != b implies (
                    #[trigger] nc[a]).0 != (#[trigger] nc[b]).0 by {
                        if a != f as int && b != f as int {
                            assert(nc[a] == precomp[a]);
                            assert(nc[b] == precomp[b]);
                        } else if a == f as int {
                            assert(nc[b] == precomp[b]);
                            assert(precomp[b].0 != precomp[f as int].0);
                        } else {
                            assert(nc[a] == precomp[a]);
                            assert(precomp[a].0 != precomp[f as int].0);
                        }
                    };
                }
            },
            None => {
                self.completed.push((job_id, result));
                proof {
                    let nc = self.completed@;
                    assert forall|id2: JobId| id2 != job_id implies (#[trigger] self.completed_has(
                        id2,
                    ) <==> old(self).completed_has(id2)) by {
                        if self.completed_has(id2) {
                            let w = choose|w: int|
                                0 <= w < nc.len() && (#[trigger] nc[w]).0 == id2;
                            assert(w < precomp.len());
                            assert(precomp[w] == nc[w]);
                        }
                        if old(self).completed_has(id2) {
                            let w = choose|w: int|
                                0 <= w < precomp.len() && (#[trigger] precomp[w]).0 == id2;
                            assert(nc[w] == precomp[w]);
                        }
                    };
                    assert forall|a: int, b: int|
                        0 <= a < nc.len() && 0 <= b < nc.len() && a != b implies (
                    #[trigger] nc[a]).0 != (#[trigger] nc[b]).0 by {
                        let n2 = precomp.len() as int;
                        if a < n2 && b < n2 {
                        } else if a == n2 {
                            assert(nc[b] == precomp[b]);
                        } else {
                            assert(nc[a] == precomp[a]);
                        }
                    };
                    assert(nc.last() == (job_id, result));
                }
            },
        }
    }

    /// Cancels a job in the queue (dropping it) or running (releasing its
    /// qubits).  Returns false for unknown or already terminal jobs.
    #[verifier::loop_isolation(false)]
    #[verifier::rlimit(100)]
    #[verifier::spinoff_prover]
    pub fn cancel(&mut self, job_id: JobId) -> (r: bool)
        requires
            old(self).wf(),
            old(self).stats.total_cancelled < u64::MAX,
        ensures
            final(self).wf(),
            r == (old(self).queue_has(job_id) || old(self).running_has(job_id)),
            final(self).max_concurrent_jobs == old(self).max_concurrent_jobs,
            final(self).completed@ == old(self).completed@,
            final(self).stats.total_submitted == old(self).stats.total_submitted,
            final(self).stats.total_completed == old(self).stats.total_completed,
            final(self).stats.total_failed == old(self).stats.total_failed,
            !r ==> *final(self) == *old(self),
            r ==> final(self).stats.total_cancelled == old(self).stats.total_cancelled + 1,
            r ==> !final(self).queue_has(job_id) && !final(self).running_has(job_id),
            old(self).queue_has(job_id) ==> final(self).available_qubits@ == old(
                self,
            ).available_qubits@,
            (!old(self).queue_has(job_id) && old(self).running_has(job_id)) ==> exists|k: int|
                {
                    &&& 0 <= k < old(self).running@.len()
                    &&& (#[trigger] old(self).running@[k]).id == job_id
                    &&& forall|q: crate::qubit::LogicalQubitId|
                        #[trigger] final(self).available_qubits@.contains(q) <==> (old(
                            self,
                        ).available_qubits@.contains(q)
                            || old(self).running@[k].allocated_qubits@.contains(q))
                },
    {
        let from_queue = self.queue.remove(job_id);
        if let Some(job) = from_queue {
            let mut job = job;
            let _ = job.cancel();
            self.stats.total_cancelled = self.stats.total_cancelled + 1;
            let depth = self.queue.len();
            self.stats.current_queue_depth = depth as u64;
            proof {
                let oq = old(self).queue.jobs@;
                let w = choose|w: int|
                    {
                        &&& 0 <= w < oq.len()
                        &&& oq[w].id == job_id
                        &&& self.queue.jobs@ == oq.remove(w)
                        &&& forall|k2: int| 0 <= k2 < w ==> (#[trigger] oq[k2]).id != job_id
                    };
                assert forall|a: int, b: int|
                    0 <= a < self.queue.jobs@.len() && 0 <= b < self.queue.jobs@.len() && a
                        != b implies (#[trigger] self.queue.jobs@[a]).id != (
                #[trigger] self.queue.jobs@[b]).id by {
                    let a0: int = if a < w { a } else { a + 1 };
                    let b0: int = if b < w { b } else { b + 1 };
                    assert(self.queue.jobs@[a] == oq[a0]);
                    assert(self.queue.jobs@[b] == oq[b0]);
                };
                assert forall|a: int, b: int|
                    #![trigger self.queue.jobs@[a], self.running@[b]]
                    0 <= a < self.queue.jobs@.len() && 0 <= b < self.running@.len()
                        implies self.queue.jobs@[a].id != self.running@[b].id by {
                    let a0: int = if a < w { a } else { a + 1 };
                    assert(self.queue.jobs@[a] == oq[a0]);
                };
                assert forall|a: int|
                    0 <= a < self.queue.jobs@.len() implies (
                #[trigger] self.queue.jobs@[a]).wf() by {
                    let a0: int = if a < w { a } else { a + 1 };
                    assert(self.queue.jobs@[a] == oq[a0]);
                };
                assert(!self.queue_has(job_id)) by {
                    if self.queue_has(job_id) {
                        let v = choose|v: int|
                            0 <= v < self.queue.jobs@.len() && (#[trigger] self.queue.jobs@[v]).id
                                == job_id;
                        let v0: int = if v < w { v } else { v + 1 };
                        assert(self.queue.jobs@[v] == oq[v0]);
                        assert(oq[v0].id == oq[w].id);
                    }
                };
                assert(!self.running_has(job_id)) by {
                    if self.running_has(job_id) {
                        let v = choose|v: int|
                            0 <= v < self.running@.len() && (#[trigger] self.running@[v]).id
                                == job_id;
                        assert(oq[w].id != self.running@[v].id);
                    }
                };
                assert(old(self).queue_has(job_id));
            }
            return true;
        }
        let found = self.running_index(job_id);
        let k = match found {
            Some(k) => k,
            None => {
                proof {
                    assert(!old(self).queue_has(job_id)) by {
                        if old(self).queue_has(job_id) {
                            let v = choose|v: int|
                                0 <= v < old(self).queue.jobs@.len() && (#[trigger] old(self).queue.jobs@[v]).id == job_id;
                        }
                    };
                }
                return false;
            },
        };
        let ghost orun = self.running@;
        let mut job = self.running.remove(k);
        let _ = job.cancel();
        self.stats.total_cancelled = self.stats.total_cancelled + 1;
        proof {
            assert forall|a: int, b: int|
                0 <= a < self.running@.len() && 0 <= b < self.running@.len() && a != b implies (
            #[trigger] self.running@[a]).id != (#[trigger] self.running@[b]).id by {
                let a0: int = if a < k { a } else { a + 1 };
                let b0: int = if b < k { b } else { b + 1 };
                assert(self.running@[a] == orun[a0]);
                assert(self.running@[b] == orun[b0]);
            };
            assert forall|a: int, b: int|
                #![trigger self.running@[a], self.running@[b]]
                0 <= a < self.running@.len() && 0 <= b < self.running@.len() && a
                    != b implies qubits_disjoint(
                self.running@[a].allocated_qubits@,
                self.running@[b].allocated_qubits@,
            ) by {
                let a0: int = if a < k { a } else { a + 1 };
                let b0: int = if b < k { b } else { b + 1 };
                assert(self.running@[a] == orun[a0]);
                assert(self.running@[b] == orun[b0]);
            };
            assert forall|a: int, b: int|
                #![trigger self.queue.jobs@[a], self.running@[b]]
                0 <= a < self.queue.jobs@.len() && 0 <= b < self.running@.len()
                    implies self.queue.jobs@[a].id != self.running@[b].id by {
                let b0: int = if b < k { b } else { b + 1 };
                assert(self.running@[b] == orun[b0]);
            };
            assert forall|a: int|
                0 <= a < self.running@.len() implies (#[trigger] self.running@[a]).wf() by {
                let a0: int = if a < k { a } else { a + 1 };
                assert(self.running@[a] == orun[a0]);
            };
            assert(!self.running_has(job_id)) by {
                if self.running_has(job_id) {
                    let w = choose|w: int|
                        0 <= w < self.running@.len() && (#[trigger] self.running@[w]).id == job_id;
                    let w0: int = if w < k { w } else { w + 1 };
                    assert(self.running@[w] == orun[w0]);
                    assert(orun[w0].id == orun[k as int].id);
                }
            };
            assert(!self.queue_has(job_id)) by {
                if self.queue_has(job_id) {
                    let v = choose|v: int|
                        0 <= v < self.queue.jobs@.len() && (#[trigger] self.queue.jobs@[v]).id
                            == job_id;
                    assert(self.queue.jobs@[v].id != orun[k as int].id);
                }
            };
        }
        // return the cancelled job's qubits to the pool
        let ghost pre_avail = self.available_qubits@;
        let mut i: usize = 0;
        while i < job.allocated_qubits.len()
            invariant
                i <= job.allocated_qubits@.len(),
                job.allocated_qubits@ == orun[k as int].allocated_qubits@,
                self.running@ == orun.remove(k as int),
                self.queue == old(self).queue,
                self.completed@ == old(self).completed@,
                self.stats.total_submitted == old(self).stats.total_submitted,
                self.stats.total_completed == old(self).stats.total_completed,
                self.stats.total_failed == old(self).stats.total_failed,
                self.stats.total_cancelled == old(self).stats.total_cancelled + 1,
                self.stats.current_queue_depth == old(self).stats.current_queue_depth,
                self.max_concurrent_jobs == old(self).max_concurrent_jobs,
                self.available_qubits@.no_duplicates(),
                forall|q: LogicalQubitId|
                    #[trigger] self.available_qubits@.contains(q) <==> (pre_avail.contains(q)
                        || job.allocated_qubits@.take(i as int).contains(q)),
            decreases job.allocated_qubits@.len() - i,
        {
            proof {
                assert(job.allocated_qubits@.take(i + 1) == job.allocated_qubits@.take(
                    i as int,
                ).push(job.allocated_qubits@[i as int]));
            }
            let q = job.allocated_qubits[i];
            if !qubit_list_contains(&self.available_qubits, q) {
                let ghost pre = self.available_qubits@;
                self.available_qubits.push(q);
                proof {
                    assert(self.available_qubits@.last() == q);
                    assert forall|a: int, b: int|
                        0 <= a < self.available_qubits@.len() && 0 <= b
                            < self.available_qubits@.len() && a != b implies (
                    #[trigger] self.available_qubits@[a]) != (
                    #[trigger] self.available_qubits@[b]) by {
                        let n2 = pre.len() as int;
                        if a < n2 && b < n2 {
                        } else if a == n2 {
                            assert(self.available_qubits@[b] == pre[b]);
                            assert(pre.contains(pre[b]));
                        } else {
                            assert(self.available_qubits@[a] == pre[a]);
                            assert(pre.contains(pre[a]));
                        }
                    };
                    assert forall|q2: LogicalQubitId|
                        #[trigger] self.available_qubits@.contains(q2) implies (pre_avail.contains(
                            q2,
                        ) || job.allocated_qubits@.take(i + 1).contains(q2)) by {
                        let w = choose|w: int|
                            0 <= w < self.available_qubits@.len() && self.available_qubits@[w]
                                == q2;
                        if w < pre.len() {
                            assert(pre.contains(q2));
                        } else {
                            assert(q2 == q);
                            assert(job.allocated_qubits@.take(i + 1)[i as int] == q);
                        }
                    };
                    assert forall|q2: LogicalQubitId|
                        (pre_avail.contains(q2) || job.allocated_qubits@.take(i + 1).contains(
                            q2,
                        )) implies #[trigger] self.available_qubits@.contains(q2) by {
                        if pre_avail.contains(q2) || job.allocated_qubits@.take(
                            i as int,
                        ).contains(q2) {
                            assert(pre.contains(q2));
                            let w = choose|w: int| 0 <= w < pre.len() && pre[w] == q2;
                            assert(self.available_qubits@[w] == q2);
                        } else {
                            let w = choose|w: int|
                                0 <= w < i + 1 && #[trigger] job.allocated_qubits@.take(i + 1)[w]
                                    == q2;
                            assert(w == i as int);
                            assert(q2 == q);
                            assert(self.available_qubits@.last() == q);
                        }
                    };
                }
            } else {
                proof {
                    assert forall|q2: LogicalQubitId|
                        (pre_avail.contains(q2) || job.allocated_qubits@.take(i + 1).contains(
                            q2,
                        )) implies #[trigger] self.available_qubits@.contains(q2) by {
                        if pre_avail.contains(q2) || job.allocated_qubits@.take(
                            i as int,
                        ).contains(q2) {
                        } else {
                            let w = choose|w: int|
                                0 <= w < i + 1 && #[trigger] job.allocated_qubits@.take(i + 1)[w]
                                    == q2;
                            assert(w == i as int);
                            assert(q2 == q);
                        }
                    };
                }
            }
            i = i + 1;
        }
        proof {
            assert(job.allocated_qubits@.take(job.allocated_qubits@.len() as int)
                == job.allocated_qubits@);
            assert forall|a: int|
                0 <= a < self.running@.len() implies qubits_disjoint(
                (#[trigger] self.running@[a]).allocated_qubits@,
                self.available_qubits@,
            ) by {
                let a0: int = if a < k { a } else { a + 1 };
                assert(self.running@[a] == orun[a0]);
                assert forall|q: LogicalQubitId|
                    !(#[trigger] orun[a0].allocated_qubits@.contains(q)
                        && #[trigger] self.available_qubits@.contains(q)) by {
                    if self.available_qubits@.contains(q) {
                        if pre_avail.contains(q) {
                            assert(qubits_disjoint(orun[a0].allocated_qubits@, pre_avail));
                        } else {
                            assert(job.allocated_qubits@.contains(q));
                            assert(orun[k as int].allocated_qubits@.contains(q));
                            assert(a0 != k as int);
                            assert(qubits_disjoint(
                                orun[a0].allocated_qubits@,
                                orun[k as int].allocated_qubits@,
                            ));
                        }
                    }
                };
            };
        }
        true
    }

    /// Marks a tracked running job as `Running`.  Returns whether the job was
    /// found in the running set.
    pub fn start_execution(&mut self, job_id: JobId) -> (r: bool)
        requires
            old(self).wf(),
        ensures
            final(self).wf(),
            r == old(self).running_has(job_id),
            !r ==> *final(self) == *old(self),
            r ==> exists|k: int|
                {
                    &&& 0 <= k < old(self).running@.len()
                    &&& old(self).running@[k].id == job_id
                    &&& (#[trigger] final(self).running@[k]).status == JobStatus::Running
                    &&& final(self).running@[k].id == job_id
                    &&& final(self).running@ == old(self).running@.update(
                        k,
                        final(self).running@[k],
                    )
                    &&& final(self).running@[k].allocated_qubits@ == old(self).running@[k].allocated_qubits@
                },
            final(self).queue == old(self).queue,
            final(self).completed@ == old(self).completed@,
            final(self).available_qubits@ == old(self).available_qubits@,
            final(self).stats == old(self).stats,
            final(self).max_concurrent_jobs == old(self).max_concurrent_jobs,
    {
        let found = self.running_index(job_id);
        let k = match found {
            Some(k) => k,
            None => {
                return false;
            },
        };
        let ghost orun = self.running@;
        self.running[k].set_status(JobStatus::Running);
        proof {
            assert(self.running@ == orun.update(k as int, self.running@[k as int]));
            assert forall|a: int, b: int|
                0 <= a < self.running@.len() && 0 <= b < self.running@.len() && a != b implies (
            #[trigger] self.running@[a]).id != (#[trigger] self.running@[b]).id by {
                assert(self.running@[a].id == orun[a].id);
                assert(self.running@[b].id == orun[b].id);
            };
            assert forall|a: int, b: int|
                #![trigger self.running@[a], self.running@[b]]
                0 <= a < self.running@.len() && 0 <= b < self.running@.len() && a
                    != b implies qubits_disjoint(
                self.running@[a].allocated_qubits@,
                self.running@[b].allocated_qubits@,
            ) by {
                assert(self.running@[a].allocated_qubits@ == orun[a].allocated_qubits@);
                assert(self.running@[b].allocated_qubits@ == orun[b].allocated_qubits@);
            };
            assert forall|a: int|
                0 <= a < self.running@.len() implies qubits_disjoint(
                (#[trigger] self.running@[a]).allocated_qubits@,
                self.available_qubits@,
            ) by {
                assert(self.running@[a].allocated_qubits@ == orun[a].allocated_qubits@);
            };
            assert forall|a: int, b: int|
                #![trigger self.queue.jobs@[a], self.running@[b]]
                0 <= a < self.queue.jobs@.len() && 0 <= b < self.running@.len()
                    implies self.queue.jobs@[a].id != self.running@[b].id by {
                assert(self.running@[b].id == orun[b].id);
            };
        }
        true
    }

    /// The status of a job, probing the queue, then the running set, then the
    /// completed results.
    pub fn get_status(&self, job_id: JobId) -> (r: Option<JobStatus>)
        ensures
            match r {
                Some(st) => {
                    &&& (self.queue_has(job_id) || self.running_has(job_id)
                        || self.completed_has(job_id))
                    &&& (self.queue_has(job_id) ==> exists|k: int|
                        0 <= k < self.queue.jobs@.len() && (#[trigger] self.queue.jobs@[k]).id
                            == job_id && self.queue.jobs@[k].status == st)
                    &&& ((!self.queue_has(job_id) && self.running_has(job_id)) ==> exists|k: int|
                        0 <= k < self.running@.len() && (#[trigger] self.running@[k]).id == job_id
                            && self.running@[k].status == st)
                    &&& ((!self.queue_has(job_id) && !self.running_has(job_id)) ==> exists|k: int|
                        0 <= k < self.completed@.len() && (#[trigger] self.completed@[k]).0
                            == job_id && self.completed@[k].1.status == st)
                },
                None => !self.queue_has(job_id) && !self.running_has(job_id)
                    && !self.completed_has(job_id),
            },
    {
        let in_queue = self.queue.find(job_id);
        if let Some(job) = in_queue {
            proof {
                let w = choose|w: int|
                    0 <= w < self.queue.jobs@.len() && (#[trigger] self.queue.jobs@[w]) == *job
                        && job.id == job_id;
            }
            return Some(job.status);
        }
        let in_running = self.running_index(job_id);
        if let Some(k) = in_running {
            return Some(self.running[k].status);
        }
        let mut c: usize = 0;
        while c < self.completed.len()
            invariant
                !self.queue_has(job_id),
                !self.running_has(job_id),
                c <= self.completed@.len(),
                forall|c2: int| 0 <= c2 < c ==> (#[trigger] self.completed@[c2]).0 != job_id,
            decreases self.completed@.len() - c,
        {
            if self.completed[c].0 == job_id {
                proof {
                    assert(self.completed@[c as int].0 == job_id);
                }
                return Some(self.completed[c].1.status);
            }
            c = c + 1;
        }
        None
    }

    /// The result of a finished job, if any.
    pub fn get_result(&self, job_id: JobId) -> (r: Option<&JobResult>)
        ensures
            match r {
                Some(res) => exists|k: int|
                    0 <= k < self.completed@.len() && (#[trigger] self.completed@[k]).0 == job_id
                        && self.completed@[k].1 == *res,
                None => !self.completed_has(job_id),
            },
    {
        let mut c: usize = 0;
        while c < self.completed.len()
            invariant
                c <= self.completed@.len(),
                forall|c2: int| 0 <= c2 < c ==> (#[trigger] self.completed@[c2]).0 != job_id,
            decreases self.completed@.len() - c,
        {
            if self.completed[c].0 == job_id {
                return Some(&self.completed[c].1);
            }
            c = c + 1;
        }
        None
    }

    /// Copies of the jobs currently running.
    pub fn running_jobs(&self) -> (r: Vec<Job>)
        ensures
            r@.len() == self.running@.len(),
            forall|k: int|
                0 <= k < r@.len() ==> job_matches(#[trigger] r@[k], self.running@[k]),
    {
        let mut out: Vec<Job> = Vec::new();
        let mut k: usize = 0;
        while k < self.running.len()
            invariant
                k <= self.running@.len(),
                out@.len() == k,
                forall|k2: int|
                    0 <= k2 < k ==> job_matches(#[trigger] out@[k2], self.running@[k2]),
            decreases self.running@.len() - k,
        {
            out.push(self.running[k].clone());
            k = k + 1;
        }
        out
    }

    /// Number of jobs waiting in the queue.
    pub fn queue_length(&self) -> (r: usize)
        ensures
            r == self.queue.jobs@.len(),
    {
        self.queue.len()
    }

    /// The scheduling counters.
    pub fn stats(&self) -> (r: &SchedulerStats)
        ensures
            *r == self.stats,
    {
        &self.stats
    }
}

impl Default for JobScheduler {
    fn default() -> (r: Self)
        ensures
            r.wf(),
            r.max_concurrent_jobs == 4,
            r.queue.jobs@.len() == 0,
            r.running@.len() == 0,
            r.completed@.len() == 0,
    {
        JobScheduler::new(4)
    }
}

/// Conservation: every submission is in the queue, running, or counted by
/// exactly one terminal counter.
pub proof fn lemma_scheduler_conservation(s: JobScheduler)
    requires
        s.wf(),
    ensures
        s.stats.total_submitted as int == s.queue.jobs@.len() + s.running@.len()
            + s.stats.total_completed + s.stats.total_failed + s.stats.total_cancelled,
{
}

/// Priority: the first schedulable job of a well-formed scheduler has
/// priority at least that of every schedulable job.
pub proof fn lemma_priority_law(s: JobScheduler, i: int, k: int)
    requires
        s.wf(),
        0 <= i < s.queue.jobs@.len(),
        0 <= k < s.queue.jobs@.len(),
        s.spec_can_schedule(s.queue.jobs@[i]),
        forall|i2: int| 0 <= i2 < i ==> !s.spec_can_schedule(#[trigger] s.queue.jobs@[i2]),
        s.spec_can_schedule(s.queue.jobs@[k]),
    ensures
        rank(s.queue.jobs@[i].priority) >= rank(s.queue.jobs@[k].priority),
{
    if k < i {
        assert(!s.spec_can_schedule(s.queue.jobs@[k]));
    }
}

/// Resource exclusion: no qubit is held by two running jobs at once, and no
/// held qubit is simultaneously free.
pub proof fn lemma_resource_law(s: JobScheduler, i: int, j: int)
    requires
        s.wf(),
        0 <= i < s.running@.len(),
        0 <= j < s.running@.len(),
        i != j,
    ensures
        qubits_disjoint(s.running@[i].allocated_qubits@, s.running@[j].allocated_qubits@),
        qubits_disjoint(s.running@[i].allocated_qubits@, s.available_qubits@),
{
}

/// Whether `v` holds the qubit id `q`.
fn qubit_list_contains(v: &Vec<LogicalQubitId>, q: LogicalQubitId) -> (r: bool)
    ensures
        r == v@.contains(q),
{
    let mut i: usize = 0;
    while i < v.len()
        invariant
            i <= v@.len(),
            forall|k: int| 0 <= k < i ==> (#[trigger] v@[k]) != q,
        decreases v@.len() - i,
    {
        if v[i].0 == q.0 {
            return true;
        }
        i = i + 1;
    }
    false
}

/// Removes the first occurrence of `q`, if present.
fn remove_qubit(v: &mut Vec<LogicalQubitId>, q: LogicalQubitId)
    requires
        old(v)@.no_duplicates(),
    ensures
        final(v)@.no_duplicates(),
        forall|q2: LogicalQubitId|
            #[trigger] final(v)@.contains(q2) <==> (old(v)@.contains(q2) && q2 != q),
{
    let mut i: usize = 0;
    while i < v.len()
        invariant
            old(v)@.no_duplicates(),
            *v == *old(v),
            i <= v@.len(),
            forall|k: int| 0 <= k < i ==> (#[trigger] v@[k]) != q,
        decreases v@.len() - i,
    {
        if v[i].0 == q.0 {
            let ghost pre = v@;
            v.remove(i);
            proof {
                assert forall|a: int, b: int|
                    0 <= a < v@.len() && 0 <= b < v@.len() && a != b implies (#[trigger] v@[a]) != (
                #[trigger] v@[b]) by {
                    let a0: int = if a < i { a } else { a + 1 };
                    let b0: int = if b < i { b } else { b + 1 };
                    assert(v@[a] == pre[a0]);
                    assert(v@[b] == pre[b0]);
                };
                assert forall|q2: LogicalQubitId| #[trigger] v@.contains(q2) implies (
                pre.contains(q2) && q2 != q) by {
                    let k = choose|k: int| 0 <= k < v@.len() && v@[k] == q2;
                    let k0: int = if k < i { k } else { k + 1 };
                    assert(v@[k] == pre[k0]);
                    assert(q2 != pre[i as int] || k0 == i as int);
                    if q2 == q {
                        assert(pre[k0] == q);
                        assert(pre[i as int] == q);
                        assert(k0 == i as int);
                        assert(false);
                    }
                };
                assert forall|q2: LogicalQubitId|
                    (pre.contains(q2) && q2 != q) implies #[trigger] v@.contains(q2) by {
                    let k = choose|k: int| 0 <= k < pre.len() && pre[k] == q2;
                    assert(k != i as int);
                    if k < i as int {
                        assert(v@[k] == q2);
                    } else {
                        assert(v@[k - 1] == q2);
                    }
                };
            }
            return ;
        }
        i = i + 1;
    }
    proof {
        assert forall|q2: LogicalQubitId| #[trigger] v@.contains(q2) implies (old(v)@.contains(q2)
            && q2 != q) by {
            let k = choose|k: int| 0 <= k < v@.len() && v@[k] == q2;
        };
    }
}

} // verus!
