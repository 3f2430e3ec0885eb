//! The runtime coordinator: owns a backend registry and a scheduler, and
//! drives schedule-execute-complete ticks to completion.

use vstd::prelude::*;

use crate::backend::BackendCapabilities;
use crate::backend::BackendInstance;
use crate::circuit::CircuitDag;
use crate::job::Job;
use crate::job::JobId;
use crate::job::JobIdGenerator;
use crate::job::JobMetadata;
use crate::job::JobResult;
use crate::job::JobStatus;
use crate::job::Priority;
use crate::job::result_matches;
use crate::scheduler::JobScheduler;

verus! {

/// Configuration of a runtime instance.
#[derive(Debug)]
pub struct RuntimeConfig {
    pub max_concurrent_jobs: usize,
    pub default_backend: String,
    pub job_timeout_secs: u64,
    pub verbose: bool,
}

impl Clone for RuntimeConfig {
    fn clone(&self) -> (res: Self)
        ensures
            res.max_concurrent_jobs == self.max_concurrent_jobs,
            res.default_backend@ == self.default_backend@,
            res.job_timeout_secs == self.job_timeout_secs,
            res.verbose == self.verbose,
    {
        RuntimeConfig {
            max_concurrent_jobs: self.max_concurrent_jobs,
            default_backend: self.default_backend.clone(),
            job_timeout_secs: self.job_timeout_secs,
            verbose: self.verbose,
        }
    }
}

impl Default for RuntimeConfig {
    fn default() -> (r: Self)
        ensures
            r.max_concurrent_jobs == 4,
            r.default_backend@ == "default"@,
            r.job_timeout_secs == 300,
            !r.verbose,
    {
        RuntimeConfig {
            max_concurrent_jobs: 4,
            default_backend: "default".to_owned(),
            job_timeout_secs: 300,
            verbose: false,
        }
    }
}

impl RuntimeConfig {
    pub fn new() -> (r: Self)
        ensures
            r.max_concurrent_jobs == 4,
            r.default_backend@ == "default"@,
            r.job_timeout_secs == 300,
            !r.verbose,
    {
        RuntimeConfig::default()
    }

    pub fn with_max_jobs(self, max: usize) -> (r: Self)
        ensures
            r == (RuntimeConfig { max_concurrent_jobs: max, ..self }),
    {
        RuntimeConfig { max_concurrent_jobs: max, ..self }
    }

    pub fn with_default_backend(self, backend: &str) -> (r: Self)
        ensures
            r.default_backend@ == backend@,
            r.max_concurrent_jobs == self.max_concurrent_jobs,
            r.job_timeout_secs == self.job_timeout_secs,
            r.verbose == self.verbose,
    {
        RuntimeConfig { default_backend: backend.to_owned(), ..self }
    }

    pub fn with_timeout(self, secs: u64) -> (r: Self)
        ensures
            r == (RuntimeConfig { job_timeout_secs: secs, ..self }),
    {
        RuntimeConfig { job_timeout_secs: secs, ..self }
    }

    pub fn with_verbose(self, verbose: bool) -> (r: Self)
        ensures
            r == (RuntimeConfig { verbose, ..self }),
    {
        RuntimeConfig { verbose, ..self }
    }
}

/// Named lookup of backend adapters.
#[derive(Debug)]
pub struct BackendRegistry {
    pub entries: Vec<(String, BackendInstance)>,
}

impl BackendRegistry {
    /// Whether a backend is registered under a name with these characters.
    pub open spec fn spec_contains(&self, id: Seq<char>) -> bool {
        exists|k: int| 0 <= k < self.entries@.len() && (#[trigger] self.entries@[k]).0@ == id
    }

    pub fn new() -> (r: Self)
        ensures
            r.entries@.len() == 0,
    {
        BackendRegistry { entries: Vec::new() }
    }

    fn find(&self, id: &str) -> (r: Option<usize>)
        ensures
            match r {
                Some(k) => k < self.entries@.len() && self.entries@[k as int].0@ == id@,
                None => !self.spec_contains(id@),
            },
    {
        let key = id.to_owned();
        let mut k: usize = 0;
        while k < self.entries.len()
            invariant
                key@ == id@,
                k <= self.entries@.len(),
                forall|k2: int| 0 <= k2 < k ==> (#[trigger] self.entries@[k2]).0@ != id@,
            decreases self.entries@.len() - k,
        {
            if self.entries[k].0 == key {
                return Some(k);
            }
            k = k + 1;
        }
        proof {
            if self.spec_contains(id@) {
                let w = choose|w: int|
                    0 <= w < self.entries@.len() && (#[trigger] self.entries@[w]).0@ == id@;
            }
        }
        None
    }

    /// Registers a backend under `id`, replacing any previous entry of that
    /// name.
    pub fn register(&mut self, id: &str, backend: BackendInstance)
        ensures
            final(self).spec_contains(id@),
    {
        let found = self.find(id);
        match found {
            Some(k) => {
                self.entries[k] = (id.to_owned(), backend);
                proof {
                    assert(final(self).entries@[k as int].0@ == id@);
                }
            },
            None => {
                self.entries.push((id.to_owned(), backend));
                proof {
                    assert(final(self).entries@.last().0@ == id@);
                }
            },
        }
    }

    /// The backend registered under `id`, if any.
    pub fn get(&self, id: &str) -> (r: Option<&BackendInstance>)
        ensures
            r is Some <==> self.spec_contains(id@),
    {
        match self.find(id) {
            Some(k) => {
                proof {
                    assert(self.entries@[k as int].0@ == id@);
                }
                Some(&self.entries[k].1)
            },
            None => None,
        }
    }

    /// The registered backend names.
    pub fn list(&self) -> (r: Vec<String>)
        ensures
            r@.len() == self.entries@.len(),
            forall|k: int| 0 <= k < r@.len() ==> (#[trigger] r@[k])@ == (#[trigger] self.entries@[k]).0@,
    {
        let mut out: Vec<String> = Vec::new();
        let mut k: usize = 0;
        while k < self.entries.len()
            invariant
                k <= self.entries@.len(),
                out@.len() == k,
                forall|k2: int|
                    0 <= k2 < k ==> (#[trigger] out@[k2])@ == (#[trigger] self.entries@[k2]).0@,
            decreases self.entries@.len() - k,
        {
            out.push(self.entries[k].0.clone());
            k = k + 1;
        }
        out
    }

    /// Whether a backend is registered under `id`.
    pub fn contains(&self, id: &str) -> (r: bool)
        ensures
            r == self.spec_contains(id@),
    {
        self.find(id).is_some()
    }
}

impl Default for BackendRegistry {
    fn default() -> (r: Self)
        ensures
            r.entries@.len() == 0,
    {
        BackendRegistry::new()
    }
}

/// Execution counters of a runtime instance.
#[derive(Debug, Clone, Copy, PartialEq, Eq, Structural)]
pub struct RuntimeStats {
    pub total_jobs_submitted: u64,
    pub total_jobs_completed: u64,
    pub total_jobs_failed: u64,
    pub total_execution_time_ms: u64,
    pub current_running_jobs: u64,
}

impl Default for RuntimeStats {
    fn default() -> (r: Self)
        ensures
            r.total_jobs_submitted == 0,
            r.total_jobs_completed == 0,
            r.total_jobs_failed == 0,
            r.total_execution_time_ms == 0,
            r.current_running_jobs == 0,
    {
        RuntimeStats {
            total_jobs_submitted: 0,
            total_jobs_completed: 0,
            total_jobs_failed: 0,
            total_execution_time_ms: 0,
            current_running_jobs: 0,
        }
    }
}

/// Coordinates the backend registry, the scheduler and per-job accounting.
#[derive(Debug)]
pub struct QuantumRuntime {
    pub config: RuntimeConfig,
    pub registry: BackendRegistry,
    pub scheduler: JobScheduler,
    pub stats: RuntimeStats,
    /// Mints ids for jobs created through this runtime.
    pub ids: JobIdGenerator,
    pub running: bool,
}

impl QuantumRuntime {
    /// The runtime invariant: the scheduler is well formed and the counters
    /// have headroom for further bookkeeping.
    pub open spec fn wf(&self) -> bool {
        &&& self.scheduler.wf()
        &&& self.ids.wf()
    }

    pub fn new(config: RuntimeConfig) -> (r: Self)
        ensures
            r.wf(),
            r.config.max_concurrent_jobs == config.max_concurrent_jobs,
            r.config.default_backend@ == config.default_backend@,
            r.scheduler.queue.jobs@.len() == 0,
            r.scheduler.running@.len() == 0,
            r.stats == (RuntimeStats {
                total_jobs_submitted: 0,
                total_jobs_completed: 0,
                total_jobs_failed: 0,
                total_execution_time_ms: 0,
                current_running_jobs: 0,
            }),
            !r.running,
    {
        let max_jobs = config.max_concurrent_jobs;
        QuantumRuntime {
            config,
            registry: BackendRegistry::new(),
            scheduler: JobScheduler::new(max_jobs),
            stats: RuntimeStats::default(),
            ids: JobIdGenerator::new(),
            running: false,
        }
    }

    /// Registers a backend under `id`.
    pub fn register_backend(&mut self, id: &str, backend: BackendInstance)
        requires
            old(self).wf(),
        ensures
            final(self).wf(),
            final(self).registry.spec_contains(id@),
            final(self).scheduler == old(self).scheduler,
            final(self).stats == old(self).stats,
    {
        self.registry.register(id, backend);
    }

    /// The backend registered under `id`, if any.
    pub fn get_backend(&self, id: &str) -> (r: Option<&BackendInstance>)
        ensures
            r is Some <==> self.registry.spec_contains(id@),
    {
        self.registry.get(id)
    }

    /// The registered backend names.
    pub fn list_backends(&self) -> (r: Vec<String>)
        ensures
            r@.len() == self.registry.entries@.len(),
    {
        self.registry.list()
    }

    /// The capability sheet of the backend registered under `id`, if any.
    pub fn get_backend_capabilities(&self, id: &str) -> (r: Option<BackendCapabilities>)
        ensures
            r is Some <==> self.registry.spec_contains(id@),
    {
        match self.registry.get(id) {
            Some(backend) => Some(backend.caps()),
            None => None,
        }
    }

    /// Submits a job to the scheduler and counts the submission.
    pub fn submit_job(&mut self, job: Job) -> (r: JobId)
        requires
            old(self).wf(),
            job.wf(),
            old(self).stats.total_jobs_submitted < u64::MAX,
            old(self).scheduler.stats.total_submitted < u64::MAX,
            !old(self).scheduler.queue_has(job.id),
            !old(self).scheduler.running_has(job.id),
        ensures
            final(self).wf(),
            r == job.id,
            final(self).stats.total_jobs_submitted == old(self).stats.total_jobs_submitted + 1,
            final(self).scheduler.queue.jobs@.len() == old(self).scheduler.queue.jobs@.len() + 1,
            final(self).ids == old(self).ids,
            exists|pos: int|
                {
                    &&& 0 <= pos < final(self).scheduler.queue.jobs@.len()
                    &&& (#[trigger] final(self).scheduler.queue.jobs@[pos]) == (Job {
                        status: JobStatus::Queued,
                        submitted_at: final(self).scheduler.queue.jobs@[pos].submitted_at,
                        ..job
                    })
                    &&& final(self).scheduler.queue.jobs@[pos].submitted_at is Some
                },
    {
        self.scheduler.track_qubits(&job.allocated_qubits);
        proof {
            if self.scheduler.queue_has(job.id) {
                let w = choose|w: int|
                    0 <= w < self.scheduler.queue.jobs@.len() && (
                    #[trigger] self.scheduler.queue.jobs@[w]).id == job.id;
            }
            if self.scheduler.running_has(job.id) {
                let w = choose|w: int|
                    0 <= w < self.scheduler.running@.len() && (
                    #[trigger] self.scheduler.running@[w]).id == job.id;
            }
        }
        let job_id = self.scheduler.submit(job);
        self.stats.total_jobs_submitted = self.stats.total_jobs_submitted + 1;
        job_id
    }

    /// Builds a job over `circuit` targeting the default backend and submits
    /// it.  Returns the fresh job id.
    pub fn create_job(
        &mut self,
        circuit: CircuitDag,
        shots: u32,
        priority: Priority,
        metadata: JobMetadata,
    ) -> (r: JobId)
        requires
            old(self).wf(),
            old(self).stats.total_jobs_submitted < u64::MAX,
            old(self).scheduler.stats.total_submitted < u64::MAX,
            old(self).ids.next < u64::MAX,
            forall|k: int|
                0 <= k < old(self).scheduler.queue.jobs@.len() ==> (#[trigger] old(self).scheduler.queue.jobs@[k]).id < old(self).ids.next,
            forall|k: int|
                0 <= k < old(self).scheduler.running@.len() ==> (#[trigger] old(self).scheduler.running@[k]).id < old(self).ids.next,
        ensures
            final(self).wf(),
            r == old(self).ids.next,
            final(self).ids.next == old(self).ids.next + 1,
            final(self).stats.total_jobs_submitted == old(self).stats.total_jobs_submitted + 1,
            final(self).scheduler.queue.jobs@.len() == old(self).scheduler.queue.jobs@.len() + 1,
            exists|pos: int|
                {
                    &&& 0 <= pos < final(self).scheduler.queue.jobs@.len()
                    &&& (#[trigger] final(self).scheduler.queue.jobs@[pos]).id == r
                    &&& final(self).scheduler.queue.jobs@[pos].priority == priority
                    &&& final(self).scheduler.queue.jobs@[pos].shots == shots
                    &&& final(self).scheduler.queue.jobs@[pos].status == JobStatus::Queued
                    &&& final(self).scheduler.queue.jobs@[pos].target_backend@ == old(self).config.default_backend@
                    &&& final(self).scheduler.queue.jobs@[pos].metadata == metadata
                    &&& final(self).scheduler.queue.jobs@[pos].circuit == circuit
                    &&& final(self).scheduler.queue.jobs@[pos].submitted_at is Some
                },
    {
        let backend = self.config.default_backend.clone();
        let job = Job::new(circuit, shots, backend.as_str(), &mut self.ids).with_priority(
            priority,
        ).with_metadata(metadata);
        proof {
            if self.scheduler.queue_has(job.id) {
                let w = choose|w: int|
                    0 <= w < self.scheduler.queue.jobs@.len() && (
                    #[trigger] self.scheduler.queue.jobs@[w]).id == job.id;
            }
            if self.scheduler.running_has(job.id) {
                let w = choose|w: int|
                    0 <= w < self.scheduler.running@.len() && (
                    #[trigger] self.scheduler.running@[w]).id == job.id;
            }
        }
        self.submit_job(job)
    }

    /// One tick: asks the scheduler for the first schedulable job and
    /// executes it on its target backend.  A missing backend synthesizes a
    /// failure result; both outcomes flow through the completion path, and
    /// the tick returns the result either way.  `None` comes exactly when
    /// the concurrency cap is reached or no queued job is schedulable.
    #[verifier::spinoff_prover]
    pub fn schedule_and_execute(&mut self) -> (r: Option<JobResult>)
        requires
            old(self).wf(),
            old(self).scheduler.stats.total_completed < u64::MAX,
            old(self).scheduler.stats.total_failed < u64::MAX,
            old(self).stats.total_jobs_completed < u64::MAX,
            old(self).stats.total_jobs_failed < u64::MAX,
        ensures
            final(self).wf(),
            final(self).stats.total_jobs_submitted == old(self).stats.total_jobs_submitted,
            (r is None) <==> (old(self).scheduler.running@.len() >= old(self).scheduler.max_concurrent_jobs || forall|i: int|
                0 <= i < old(self).scheduler.queue.jobs@.len() ==> !old(self).scheduler.spec_can_schedule(#[trigger] old(self).scheduler.queue.jobs@[i])),
            match r {
                None => *final(self) == *old(self),
                Some(res) => {
                    &&& res.wf()
                    &&& (res.status is Completed || res.status is Failed)
                    &&& exists|i: int|
                        {
                            &&& 0 <= i < old(self).scheduler.queue.jobs@.len()
                            &&& old(self).scheduler.spec_can_schedule(
                                #[trigger] old(self).scheduler.queue.jobs@[i],
                            )
                            &&& (forall|i2: int|
                                0 <= i2 < i ==> !old(self).scheduler.spec_can_schedule(
                                    #[trigger] old(self).scheduler.queue.jobs@[i2],
                                ))
                            &&& final(self).scheduler.queue.jobs@ == old(self).scheduler.queue.jobs@.remove(i)
                            &&& final(self).scheduler.completed_has(
                                old(self).scheduler.queue.jobs@[i].id,
                            )
                            &&& (!old(self).registry.spec_contains(
                                old(self).scheduler.queue.jobs@[i].target_backend@,
                            ) ==> res.job_id == old(self).scheduler.queue.jobs@[i].id
                                && res.status is Failed && res.error is Some)
                        }
                    &&& final(self).scheduler.queue.jobs@.len() == old(self).scheduler.queue.jobs@.len() - 1
                    &&& final(self).scheduler.stats.total_completed <= old(self).scheduler.stats.total_completed + 1
                    &&& final(self).scheduler.stats.total_failed <= old(self).scheduler.stats.total_failed + 1
                    &&& final(self).stats.total_jobs_completed <= old(self).stats.total_jobs_completed + 1
                    &&& final(self).stats.total_jobs_failed <= old(self).stats.total_jobs_failed
                        + 1
                },
            },
    {
        let scheduled = self.scheduler.schedule_next();
        let job = match scheduled {
            Some(job) => job,
            None => {
                return None;
            },
        };
        let ghost chosen = choose|i: int|
            {
                &&& 0 <= i < old(self).scheduler.queue.jobs@.len()
                &&& old(self).scheduler.spec_can_schedule(
                    #[trigger] old(self).scheduler.queue.jobs@[i],
                )
                &&& (forall|i2: int|
                    0 <= i2 < i ==> !old(self).scheduler.spec_can_schedule(
                        #[trigger] old(self).scheduler.queue.jobs@[i2],
                    ))
                &&& job == (Job {
                    status: JobStatus::Ready,
                    ..old(self).scheduler.queue.jobs@[i]
                })
                &&& self.scheduler.queue.jobs@ == old(self).scheduler.queue.jobs@.remove(i)
            };
        proof {
            assert(job.id == old(self).scheduler.queue.jobs@[chosen].id);
            assert(self.scheduler.running_has(job.id));
        }
        let job_id = job.id;
        let backend_name = job.target_backend.clone();
        let found = self.registry.find(backend_name.as_str());
        let outcome: Result<JobResult, crate::IrError> = match found {
            Some(k) => self.registry.entries[k].1.run(&job),
            None => Err(
                crate::IrError::BackendUnavailable("no backend registered under the job's target name".to_owned()),
            ),
        };
        match outcome {
            Ok(result) => {
                if let Some(ms) = result.execution_time_ms {
                    if self.stats.total_execution_time_ms <= u64::MAX - ms {
                        self.stats.total_execution_time_ms = self.stats.total_execution_time_ms
                            + ms;
                    }
                }
                let copy = result.clone();
                self.scheduler.complete(job_id, copy);
                self.stats.total_jobs_completed = self.stats.total_jobs_completed + 1;
                Some(result)
            },
            Err(e) => {
                let message = e.message();
                let result = JobResult::failure(job_id, message.as_str());
                let copy = result.clone();
                self.scheduler.complete(job_id, copy);
                self.stats.total_jobs_failed = self.stats.total_jobs_failed + 1;
                Some(result)
            },
        }
    }

    /// Repeats ticks until the concurrency cap is reached or no queued job
    /// is schedulable, collecting one result per completed tick.
    #[verifier::spinoff_prover]
    pub fn execute_all(&mut self) -> (r: Vec<JobResult>)
        requires
            old(self).wf(),
            old(self).scheduler.stats.total_completed < u64::MAX - old(self).scheduler.queue.jobs@.len(),
            old(self).scheduler.stats.total_failed < u64::MAX - old(self).scheduler.queue.jobs@.len(),
            old(self).stats.total_jobs_completed < u64::MAX - old(self).scheduler.queue.jobs@.len(),
            old(self).stats.total_jobs_failed < u64::MAX - old(self).scheduler.queue.jobs@.len(),
        ensures
            final(self).wf(),
            final(self).stats.total_jobs_submitted == old(self).stats.total_jobs_submitted,
            // nothing further can be scheduled
            final(self).scheduler.running@.len() >= final(self).scheduler.max_concurrent_jobs
                || forall|i: int|
                0 <= i < final(self).scheduler.queue.jobs@.len() ==> !final(self).scheduler.spec_can_schedule(#[trigger] final(self).scheduler.queue.jobs@[i]),
            // one result per job that left the queue
            r@.len() == old(self).scheduler.queue.jobs@.len() - final(self).scheduler.queue.jobs@.len(),
            forall|j: int|
                0 <= j < r@.len() ==> (#[trigger] r@[j]).wf() && (r@[j].status is Completed
                    || r@[j].status is Failed),
    {
        let mut results: Vec<JobResult> = Vec::new();
        loop
            invariant
                self.wf(),
                self.stats.total_jobs_submitted == old(self).stats.total_jobs_submitted,
                self.scheduler.queue.jobs@.len() <= old(self).scheduler.queue.jobs@.len(),
                results@.len() == old(self).scheduler.queue.jobs@.len()
                    - self.scheduler.queue.jobs@.len(),
                forall|j: int|
                    0 <= j < results@.len() ==> (#[trigger] results@[j]).wf() && (
                    results@[j].status is Completed || results@[j].status is Failed),
                self.scheduler.stats.total_completed < u64::MAX
                    - self.scheduler.queue.jobs@.len(),
                self.scheduler.stats.total_failed < u64::MAX - self.scheduler.queue.jobs@.len(),
                self.stats.total_jobs_completed < u64::MAX - self.scheduler.queue.jobs@.len(),
                self.stats.total_jobs_failed < u64::MAX - self.scheduler.queue.jobs@.len(),
            ensures
                self.scheduler.running@.len() >= self.scheduler.max_concurrent_jobs || forall|
                    i: int,
                |
                    0 <= i < self.scheduler.queue.jobs@.len() ==> !self.scheduler.spec_can_schedule(
                        #[trigger] self.scheduler.queue.jobs@[i],
                    ),
            decreases self.scheduler.queue.jobs@.len(),
        {
            let step = self.schedule_and_execute();
            match step {
                Some(result) => {
                    results.push(result);
                },
                None => {
                    break ;
                },
            }
        }
        results
    }

    /// The status of a job known to the scheduler, probing the queue, then
    /// the running set, then the completed results.
    pub fn get_job_status(&self, job_id: JobId) -> (r: Option<JobStatus>)
        ensures
            match r {
                Some(st) => {
                    &&& (self.scheduler.queue_has(job_id) ==> exists|k: int|
                        0 <= k < self.scheduler.queue.jobs@.len() && (
                        #[trigger] self.scheduler.queue.jobs@[k]).id == job_id
                            && self.scheduler.queue.jobs@[k].status == st)
                    &&& ((!self.scheduler.queue_has(job_id) && self.scheduler.running_has(job_id))
                        ==> exists|k: int|
                        0 <= k < self.scheduler.running@.len() && (
                        #[trigger] self.scheduler.running@[k]).id == job_id
                            && self.scheduler.running@[k].status == st)
                    &&& ((!self.scheduler.queue_has(job_id) && !self.scheduler.running_has(job_id))
                        ==> exists|k: int|
                        0 <= k < self.scheduler.completed@.len() && (
                        #[trigger] self.scheduler.completed@[k]).0 == job_id
                            && self.scheduler.completed@[k].1.status == st)
                },
                None => !self.scheduler.queue_has(job_id) && !self.scheduler.running_has(job_id)
                    && !self.scheduler.completed_has(job_id),
            },
    {
        self.scheduler.get_status(job_id)
    }

    /// A copy of the result of a finished job, if any.
    pub fn get_job_result(&self, job_id: JobId) -> (r: Option<JobResult>)
        ensures
            match r {
                Some(res) => exists|k: int|
                    0 <= k < self.scheduler.completed@.len() && (
                    #[trigger] self.scheduler.completed@[k]).0 == job_id && result_matches(
                        res,
                        self.scheduler.completed@[k].1,
                    ),
                None => !self.scheduler.completed_has(job_id),
            },
    {
        match self.scheduler.get_result(job_id) {
            Some(res) => Some(res.clone()),
            None => None,
        }
    }

    /// Cancels a queued or running job.
    pub fn cancel_job(&mut self, job_id: JobId) -> (r: bool)
        requires
            old(self).wf(),
            old(self).scheduler.stats.total_cancelled < u64::MAX,
        ensures
            final(self).wf(),
            r == (old(self).scheduler.queue_has(job_id) || old(self).scheduler.running_has(
                job_id,
            )),
            !r ==> *final(self) == *old(self),
            r ==> final(self).scheduler.stats.total_cancelled == old(self).scheduler.stats.total_cancelled + 1,
            r ==> !final(self).scheduler.queue_has(job_id) && !final(self).scheduler.running_has(
                job_id,
            ),
            final(self).scheduler.completed@ == old(self).scheduler.completed@,
            final(self).stats == old(self).stats,
            (!old(self).scheduler.queue_has(job_id) && old(self).scheduler.running_has(job_id))
                ==> exists|k: int|
                {
                    &&& 0 <= k < old(self).scheduler.running@.len()
                    &&& (#[trigger] old(self).scheduler.running@[k]).id == job_id
                    &&& forall|q: crate::qubit::LogicalQubitId|
                        #[trigger] final(self).scheduler.available_qubits@.contains(q) <==> (old(self).scheduler.available_qubits@.contains(q)
                            || old(self).scheduler.running@[k].allocated_qubits@.contains(q))
                },
    {
        self.scheduler.cancel(job_id)
    }

    /// The runtime counters.
    pub fn stats(&self) -> (r: &RuntimeStats)
        ensures
            *r == self.stats,
    {
        &self.stats
    }

    /// The scheduler, read-only.
    pub fn scheduler(&self) -> (r: &JobScheduler)
        ensures
            *r == self.scheduler,
    {
        &self.scheduler
    }

    /// The scheduler, for direct manipulation.
    pub fn scheduler_mut(&mut self) -> (r: &mut JobScheduler)
        ensures
            *r == old(self).scheduler,
            *final(r) == final(self).scheduler,
            final(self).config == old(self).config,
            final(self).stats == old(self).stats,
            final(self).running == old(self).running,
            final(self).ids == old(self).ids,
    {
        &mut self.scheduler
    }

    /// Whether the runtime is started.
    pub fn is_running(&self) -> (r: bool)
        ensures
            r == self.running,
    {
        self.running
    }

    /// Starts the runtime flag.
    pub fn start(&mut self)
        ensures
            *final(self) == (QuantumRuntime { running: true, ..*old(self) }),
    {
        self.running = true;
    }

    /// Stops the runtime flag.
    pub fn stop(&mut self)
        ensures
            *final(self) == (QuantumRuntime { running: false, ..*old(self) }),
    {
        self.running = false;
    }

    /// Zeroes the runtime counters.
    pub fn reset_stats(&mut self)
        ensures
            *final(self) == (QuantumRuntime { stats: final(self).stats, ..*old(self) }),
            final(self).stats == (RuntimeStats {
                total_jobs_submitted: 0,
                total_jobs_completed: 0,
                total_jobs_failed: 0,
                total_execution_time_ms: 0,
                current_running_jobs: 0,
            }),
    {
        self.stats = RuntimeStats::default();
    }
}

/// Handle naming one runtime instance for asynchronous drivers.
#[derive(Debug, Clone, Copy, PartialEq, Eq, Structural)]
pub struct AsyncRuntimeHandle {
    pub runtime_id: u64,
}

impl AsyncRuntimeHandle {
    pub fn new(runtime_id: u64) -> (r: Self)
        ensures
            r.runtime_id == runtime_id,
    {
        AsyncRuntimeHandle { runtime_id }
    }

    pub fn runtime_id(&self) -> (r: u64)
        ensures
            r == self.runtime_id,
    {
        self.runtime_id
    }
}

/// Names one in-flight execution: a job on a backend.
#[derive(Debug)]
pub struct AsyncExecutionContext {
    pub job_id: JobId,
    pub backend_id: String,
}

impl AsyncExecutionContext {
    pub fn new(job_id: JobId, backend_id: &str) -> (r: Self)
        ensures
            r.job_id == job_id,
            r.backend_id@ == backend_id@,
    {
        AsyncExecutionContext { job_id, backend_id: backend_id.to_owned() }
    }

    pub fn job_id(&self) -> (r: JobId)
        ensures
            r == self.job_id,
    {
        self.job_id
    }

    pub fn backend_id(&self) -> (r: &str)
        ensures
            r@ == self.backend_id@,
    {
        self.backend_id.as_str()
    }
}

impl Default for QuantumRuntime {
    fn default() -> (r: Self)
        ensures
            r.wf(),
            !r.running,
            r.scheduler.queue.jobs@.len() == 0,
    {
        QuantumRuntime::new(RuntimeConfig::default())
    }
}

} // verus!
