//! Jobs: a circuit plus shots, priority, lifecycle status and timestamps,
//! together with execution results and the priority queue that orders
//! waiting jobs.

use vstd::prelude::*;

use crate::circuit::CircuitDag;
use crate::circuit::circuit_qubits;
use crate::circuit::dag_matches;
use crate::qubit::LogicalQubitId;

verus! {

/// Globally unique job identifier.
pub type JobId = u64;

/// Handle to a scheduler instance.
pub type SchedulerHandle = u64;

/// Priority level of a job: `Low < Normal < High < Urgent`.
#[derive(Debug, Clone, Copy, PartialEq, Eq, Structural)]
pub enum Priority {
    Low,
    Normal,
    High,
    Urgent,
}

/// Numeric rank of a priority; higher dispatches first.
pub open spec fn rank(p: Priority) -> int {
    match p {
        Priority::Low => 0,
        Priority::Normal => 1,
        Priority::High => 2,
        Priority::Urgent => 3,
    }
}

impl Priority {
    /// The priority ranked `value`; values above three saturate at `Urgent`.
    pub fn from_u8(value: u8) -> (r: Self)
        ensures
            r == (match value {
                0u8 => Priority::Low,
                1u8 => Priority::Normal,
                2u8 => Priority::High,
                _ => Priority::Urgent,
            }),
    {
        match value {
            0 => Priority::Low,
            1 => Priority::Normal,
            2 => Priority::High,
            _ => Priority::Urgent,
        }
    }

    pub fn to_u8(self) -> (r: u8)
        ensures
            r as int == rank(self),
    {
        match self {
            Priority::Low => 0,
            Priority::Normal => 1,
            Priority::High => 2,
            Priority::Urgent => 3,
        }
    }
}

impl Default for Priority {
    fn default() -> (r: Self)
        ensures
            r == Priority::Normal,
    {
        Priority::Normal
    }
}

/// Lifecycle status of a job.
#[derive(Debug, Clone, Copy, PartialEq, Eq, Structural)]
pub enum JobStatus {
    /// Created, not yet submitted.
    Pending,
    /// Submitted to the scheduler.
    Queued,
    /// Resources granted, waiting to run.
    Ready,
    /// Executing on a backend.
    Running,
    /// Finished successfully.
    Completed,
    /// Finished with an error.
    Failed,
    /// Cancelled before completion.
    Cancelled,
    /// Waiting on a dependency.
    Waiting,
}

impl JobStatus {
    /// `Completed`, `Failed` and `Cancelled` are terminal.
    pub fn is_terminal(&self) -> (r: bool)
        ensures
            r == (*self is Completed || *self is Failed || *self is Cancelled),
    {
        matches!(self, JobStatus::Completed | JobStatus::Failed | JobStatus::Cancelled)
    }

    pub fn is_runnable(&self) -> (r: bool)
        ensures
            r == (*self is Ready || *self is Running),
    {
        matches!(self, JobStatus::Ready | JobStatus::Running)
    }

    pub fn is_queued(&self) -> (r: bool)
        ensures
            r == (*self is Queued || *self is Ready || *self is Waiting),
    {
        matches!(self, JobStatus::Queued | JobStatus::Ready | JobStatus::Waiting)
    }
}

/// Caller-supplied description of a job.
#[derive(Debug)]
pub struct JobMetadata {
    pub user_id: Option<String>,
    pub project: Option<String>,
    pub experiment_name: Option<String>,
    /// Free-form key-value pairs; keys are unique.
    pub custom: Vec<(String, String)>,
}

/// Structural sameness of two metadata records, down to string views.
pub open spec fn job_metadata_matches(a: JobMetadata, b: JobMetadata) -> bool {
    &&& match (a.user_id, b.user_id) {
        (Some(x), Some(y)) => x@ == y@,
        (None, None) => true,
        _ => false,
    }
    &&& match (a.project, b.project) {
        (Some(x), Some(y)) => x@ == y@,
        (None, None) => true,
        _ => false,
    }
    &&& match (a.experiment_name, b.experiment_name) {
        (Some(x), Some(y)) => x@ == y@,
        (None, None) => true,
        _ => false,
    }
    &&& a.custom@.len() == b.custom@.len()
    &&& forall|i: int|
        0 <= i < a.custom@.len() ==> (#[trigger] a.custom@[i]).0@ == (#[trigger] b.custom@[i]).0@
            && a.custom@[i].1@ == b.custom@[i].1@
}

impl Clone for JobMetadata {
    fn clone(&self) -> (res: Self)
        ensures
            job_metadata_matches(res, *self),
    {
        let user_id = match &self.user_id {
            Some(s) => Some(s.clone()),
            None => None,
        };
        let project = match &self.project {
            Some(s) => Some(s.clone()),
            None => None,
        };
        let experiment_name = match &self.experiment_name {
            Some(s) => Some(s.clone()),
            None => None,
        };
        let mut custom: Vec<(String, String)> = Vec::new();
        let mut i: usize = 0;
        while i < self.custom.len()
            invariant
                i <= self.custom@.len(),
                custom@.len() == i,
                forall|k: int|
                    0 <= k < i ==> (#[trigger] custom@[k]).0@ == (#[trigger] self.custom@[k]).0@
                        && custom@[k].1@ == self.custom@[k].1@,
            decreases self.custom@.len() - i,
        {
            custom.push((self.custom[i].0.clone(), self.custom[i].1.clone()));
            i = i + 1;
        }
        JobMetadata { user_id, project, experiment_name, custom }
    }
}

impl JobMetadata {
    pub fn new() -> (r: Self)
        ensures
            r.user_id is None,
            r.project is None,
            r.experiment_name is None,
            r.custom@.len() == 0,
    {
        JobMetadata { user_id: None, project: None, experiment_name: None, custom: Vec::new() }
    }

    pub fn with_user(self, user_id: &str) -> (r: Self)
        ensures
            r.user_id matches Some(s) && s@ == user_id@,
            r.project == self.project,
            r.experiment_name == self.experiment_name,
            r.custom == self.custom,
    {
        JobMetadata { user_id: Some(user_id.to_owned()), ..self }
    }

    pub fn with_project(self, project: &str) -> (r: Self)
        ensures
            r.project matches Some(s) && s@ == project@,
            r.user_id == self.user_id,
            r.experiment_name == self.experiment_name,
            r.custom == self.custom,
    {
        JobMetadata { project: Some(project.to_owned()), ..self }
    }

    pub fn with_experiment(self, name: &str) -> (r: Self)
        ensures
            r.experiment_name matches Some(s) && s@ == name@,
            r.user_id == self.user_id,
            r.project == self.project,
            r.custom == self.custom,
    {
        JobMetadata { experiment_name: Some(name.to_owned()), ..self }
    }

    /// Appends a custom key-value pair.
    pub fn with_custom(self, key: &str, value: &str) -> (r: Self)
        ensures
            r.user_id == self.user_id,
            r.project == self.project,
            r.experiment_name == self.experiment_name,
            r.custom@.len() == self.custom@.len() + 1,
            forall|i: int| 0 <= i < self.custom@.len() ==> r.custom@[i] == self.custom@[i],
            r.custom@.last().0@ == key@,
            r.custom@.last().1@ == value@,
    {
        let mut s = self;
        s.custom.push((key.to_owned(), value.to_owned()));
        s
    }
}

impl Default for JobMetadata {
    fn default() -> (r: Self)
        ensures
            r.user_id is None,
            r.project is None,
            r.experiment_name is None,
            r.custom@.len() == 0,
    {
        JobMetadata::new()
    }
}

/// An exact probability as a ratio: `ones` one-outcomes out of `total` shots.
#[derive(Debug, Clone, Copy, PartialEq, Eq, Structural)]
pub struct ProbabilityRatio {
    pub ones: u64,
    pub total: u64,
}

/// Number of entries equal to one.
pub open spec fn count_ones(s: Seq<u8>) -> int
    decreases s.len(),
{
    if s.len() == 0 {
        0
    } else {
        count_ones(s.drop_last()) + if s.last() == 1u8 {
            1int
        } else {
            0int
        }
    }
}

/// Sum of the entries.
pub open spec fn sum_of(s: Seq<u8>) -> int
    decreases s.len(),
{
    if s.len() == 0 {
        0
    } else {
        sum_of(s.drop_last()) + s.last()
    }
}

proof fn lemma_count_ones_bounds(s: Seq<u8>)
    ensures
        0 <= count_ones(s) <= s.len(),
    decreases s.len(),
{
    if s.len() > 0 {
        lemma_count_ones_bounds(s.drop_last());
    }
}

/// For a vector of zeroes and ones, the number of ones is the sum, so the
/// recorded ratio is exactly the mean of the outcomes.
pub proof fn lemma_ones_is_sum(s: Seq<u8>)
    requires
        forall|i: int| 0 <= i < s.len() ==> (#[trigger] s[i]) <= 1,
    ensures
        count_ones(s) == sum_of(s),
    decreases s.len(),
{
    if s.len() > 0 {
        assert(forall|i: int| 0 <= i < s.drop_last().len() ==> (#[trigger] s.drop_last()[i]) <= 1);
        lemma_ones_is_sum(s.drop_last());
        assert(s.last() <= 1);
    }
}

/// Result of executing one job: per-qubit measurement outcomes and their
/// exact statistics.
#[derive(Debug)]
pub struct JobResult {
    pub job_id: JobId,
    pub status: JobStatus,
    /// Per-qubit outcome vectors of zeroes and ones.
    pub counts: Vec<(LogicalQubitId, Vec<u8>)>,
    /// Per-qubit probability of measuring one, aligned with `counts`.
    pub statistics: Vec<(LogicalQubitId, ProbabilityRatio)>,
    pub execution_time_ms: Option<u64>,
    pub error: Option<String>,
    pub backend_data: Option<String>,
}

/// Structural sameness of two results, down to the views of their fields.
pub open spec fn result_matches(a: JobResult, b: JobResult) -> bool {
    &&& a.job_id == b.job_id
    &&& a.status == b.status
    &&& a.counts@.len() == b.counts@.len()
    &&& forall|i: int|
        0 <= i < a.counts@.len() ==> (#[trigger] a.counts@[i]).0 == (#[trigger] b.counts@[i]).0
            && a.counts@[i].1@ == b.counts@[i].1@
    &&& a.statistics@ == b.statistics@
    &&& a.execution_time_ms == b.execution_time_ms
    &&& match (a.error, b.error) {
        (Some(x), Some(y)) => x@ == y@,
        (None, None) => true,
        _ => false,
    }
    &&& match (a.backend_data, b.backend_data) {
        (Some(x), Some(y)) => x@ == y@,
        (None, None) => true,
        _ => false,
    }
}

impl Clone for JobResult {
    fn clone(&self) -> (res: Self)
        ensures
            result_matches(res, *self),
    {
        let mut counts: Vec<(LogicalQubitId, Vec<u8>)> = Vec::new();
        let mut i: usize = 0;
        while i < self.counts.len()
            invariant
                i <= self.counts@.len(),
                counts@.len() == i,
                forall|k: int|
                    0 <= k < i ==> (#[trigger] counts@[k]).0 == (#[trigger] self.counts@[k]).0
                        && counts@[k].1@ == self.counts@[k].1@,
            decreases self.counts@.len() - i,
        {
            let v = self.counts[i].1.clone();
            proof {
                assert(v@ =~= self.counts@[i as int].1@);
            }
            counts.push((self.counts[i].0, v));
            i = i + 1;
        }
        let mut statistics: Vec<(LogicalQubitId, ProbabilityRatio)> = Vec::new();
        let mut j: usize = 0;
        while j < self.statistics.len()
            invariant
                j <= self.statistics@.len(),
                statistics@ == self.statistics@.take(j as int),
            decreases self.statistics@.len() - j,
        {
            statistics.push((self.statistics[j].0, self.statistics[j].1));
            proof {
                assert(self.statistics@[j as int] == (
                    self.statistics@[j as int].0,
                    self.statistics@[j as int].1,
                ));
                assert(self.statistics@.take(j + 1) == self.statistics@.take(j as int).push(
                    self.statistics@[j as int],
                ));
            }
            j = j + 1;
        }
        proof {
            assert(self.statistics@.take(self.statistics@.len() as int) == self.statistics@);
        }
        let error = match &self.error {
            Some(e) => Some(e.clone()),
            None => None,
        };
        let backend_data = match &self.backend_data {
            Some(b) => Some(b.clone()),
            None => None,
        };
        JobResult {
            job_id: self.job_id,
            status: self.status,
            counts,
            statistics,
            execution_time_ms: self.execution_time_ms,
            error,
            backend_data,
        }
    }
}

impl JobResult {
    /// The statistics table mirrors the counts table: same qubits in the same
    /// order, each ratio being exactly the number of ones over the number of
    /// shots; keys are unique.
    pub open spec fn wf(&self) -> bool {
        &&& self.statistics@.len() == self.counts@.len()
        &&& forall|k: int|
            0 <= k < self.counts@.len() ==> (#[trigger] self.statistics@[k]).0 == (
            #[trigger] self.counts@[k]).0
        &&& forall|k: int|
            0 <= k < self.counts@.len() ==> (#[trigger] self.statistics@[k]).1.ones == count_ones(
                (#[trigger] self.counts@[k]).1@,
            ) && self.statistics@[k].1.total == self.counts@[k].1@.len()
        &&& forall|i: int, j: int|
            0 <= i < self.counts@.len() && 0 <= j < self.counts@.len() && i != j ==> (
            #[trigger] self.counts@[i]).0 != (#[trigger] self.counts@[j]).0
    }

    /// Whether the result records outcomes `s` for qubit `q`.
    pub open spec fn has_counts(&self, q: LogicalQubitId, s: Seq<u8>) -> bool {
        exists|k: int|
            0 <= k < self.counts@.len() && (#[trigger] self.counts@[k]).0 == q
                && self.counts@[k].1@ == s
    }

    /// Whether the result records the ratio `p` for qubit `q`.
    pub open spec fn has_stat(&self, q: LogicalQubitId, p: ProbabilityRatio) -> bool {
        exists|k: int|
            0 <= k < self.statistics@.len() && (#[trigger] self.statistics@[k]).0 == q
                && self.statistics@[k].1 == p
    }

    /// An empty `Completed` result.
    pub fn success(job_id: JobId) -> (r: Self)
        ensures
            r.wf(),
            r.job_id == job_id,
            r.status == JobStatus::Completed,
            r.counts@.len() == 0,
            r.statistics@.len() == 0,
            r.execution_time_ms is None,
            r.error is None,
            r.backend_data is None,
    {
        JobResult {
            job_id,
            status: JobStatus::Completed,
            counts: Vec::new(),
            statistics: Vec::new(),
            execution_time_ms: None,
            error: None,
            backend_data: None,
        }
    }

    /// An empty `Failed` result carrying an error message.
    pub fn failure(job_id: JobId, error: &str) -> (r: Self)
        ensures
            r.wf(),
            r.job_id == job_id,
            r.status == JobStatus::Failed,
            r.counts@.len() == 0,
            r.statistics@.len() == 0,
            r.execution_time_ms is None,
            r.error matches Some(e) && e@ == error@,
            r.backend_data is None,
    {
        JobResult {
            job_id,
            status: JobStatus::Failed,
            counts: Vec::new(),
            statistics: Vec::new(),
            execution_time_ms: None,
            error: Some(error.to_owned()),
            backend_data: None,
        }
    }

    /// Records the outcome vector for `qubit`, replacing any earlier record,
    /// and keeps the statistics table exactly in step.
    pub fn add_counts(&mut self, qubit: LogicalQubitId, counts: Vec<u8>)
        requires
            old(self).wf(),
        ensures
            final(self).wf(),
            final(self).job_id == old(self).job_id,
            final(self).status == old(self).status,
            final(self).execution_time_ms == old(self).execution_time_ms,
            final(self).error == old(self).error,
            final(self).backend_data == old(self).backend_data,
            final(self).has_counts(qubit, counts@),
            forall|q2: LogicalQubitId, s: Seq<u8>|
                q2 != qubit ==> (#[trigger] final(self).has_counts(q2, s) <==> old(self).has_counts(q2, s)),
            forall|s: Seq<u8>| #[trigger] final(self).has_counts(qubit, s) ==> s == counts@,
    {
        let total = counts.len() as u64;
        let mut ones: u64 = 0;
        let mut i: usize = 0;
        while i < counts.len()
            invariant
                i <= counts@.len(),
                ones == count_ones(counts@.take(i as int)),
                ones <= i,
            decreases counts@.len() - i,
        {
            proof {
                assert(counts@.take(i + 1) == counts@.take(i as int).push(counts@[i as int]));
                assert(counts@.take(i + 1).drop_last() == counts@.take(i as int));
            }
            if counts[i] == 1 {
                ones = ones + 1;
            }
            i = i + 1;
        }
        proof {
            assert(counts@.take(counts@.len() as int) == counts@);
        }
        let stat = ProbabilityRatio { ones, total };
        // find any existing record for the qubit
        let mut found: Option<usize> = None;
        let mut k: usize = 0;
        while k < self.counts.len()
            invariant
                old(self).wf(),
                *self == *old(self),
                k <= self.counts@.len(),
                match found {
                    Some(f) => f < self.counts@.len() && self.counts@[f as int].0 == qubit,
                    None => forall|k2: int|
                        0 <= k2 < k ==> (#[trigger] self.counts@[k2]).0 != qubit,
                },
            decreases self.counts@.len() - k,
        {
            if found.is_none() && self.counts[k].0.0 == qubit.0 {
                found = Some(k);
            }
            k = k + 1;
        }
        let ghost prec = self.counts@;
        let ghost pres = self.statistics@;
        if let Some(f) = found {
            self.counts[f] = (qubit, counts);
            self.statistics[f] = (qubit, stat);
            proof {
                assert(self.counts@ == prec.update(f as int, (qubit, self.counts@[f as int].1)));
                assert(self.counts@[f as int].0 == qubit && self.counts@[f as int].1@ == counts@);
                assert forall|q2: LogicalQubitId, s: Seq<u8>| q2 != qubit implies (
                #[trigger] self.has_counts(q2, s) <==> old(self).has_counts(q2, s)) by {
                    if self.has_counts(q2, s) {
                        let k2 = choose|k2: int|
                            0 <= k2 < self.counts@.len() && (#[trigger] self.counts@[k2]).0 == q2
                                && self.counts@[k2].1@ == s;
                        assert(k2 != f as int);
                        assert(prec[k2] == self.counts@[k2]);
                    }
                    if old(self).has_counts(q2, s) {
                        let k2 = choose|k2: int|
                            0 <= k2 < prec.len() && (#[trigger] prec[k2]).0 == q2 && prec[k2].1@
                                == s;
                        assert(k2 != f as int);
                        assert(self.counts@[k2] == prec[k2]);
                    }
                };
                assert forall|s: Seq<u8>| #[trigger] self.has_counts(qubit, s) implies s
                    == counts@ by {
                    let k2 = choose|k2: int|
                        0 <= k2 < self.counts@.len() && (#[trigger] self.counts@[k2]).0 == qubit
                            && self.counts@[k2].1@ == s;
                    if k2 != f as int {
                        assert(prec[k2].0 == qubit);
                        assert(old(self).counts@[f as int].0 == qubit);
                        assert(false);
                    }
                };
            }
        } else {
            self.counts.push((qubit, counts));
            self.statistics.push((qubit, stat));
            proof {
                assert(self.counts@.last().0 == qubit && self.counts@.last().1@ == counts@);
                assert forall|q2: LogicalQubitId, s: Seq<u8>| q2 != qubit implies (
                #[trigger] self.has_counts(q2, s) <==> old(self).has_counts(q2, s)) by {
                    if self.has_counts(q2, s) {
                        let k2 = choose|k2: int|
                            0 <= k2 < self.counts@.len() && (#[trigger] self.counts@[k2]).0 == q2
                                && self.counts@[k2].1@ == s;
                        assert(k2 < prec.len());
                        assert(prec[k2] == self.counts@[k2]);
                    }
                    if old(self).has_counts(q2, s) {
                        let k2 = choose|k2: int|
                            0 <= k2 < prec.len() && (#[trigger] prec[k2]).0 == q2 && prec[k2].1@
                                == s;
                        assert(self.counts@[k2] == prec[k2]);
                    }
                };
                assert forall|s: Seq<u8>| #[trigger] self.has_counts(qubit, s) implies s
                    == counts@ by {
                    let k2 = choose|k2: int|
                        0 <= k2 < self.counts@.len() && (#[trigger] self.counts@[k2]).0 == qubit
                            && self.counts@[k2].1@ == s;
                    if k2 < prec.len() {
                        assert(prec[k2].0 == qubit);
                        assert(false);
                    }
                };
            }
        }
    }

    /// The recorded outcome vector for `qubit`, if any.
    pub fn get_counts(&self, qubit: LogicalQubitId) -> (r: Option<&Vec<u8>>)
        ensures
            match r {
                Some(v) => self.has_counts(qubit, v@),
                None => forall|s: Seq<u8>| !self.has_counts(qubit, s),
            },
    {
        let mut k: usize = 0;
        while k < self.counts.len()
            invariant
                k <= self.counts@.len(),
                forall|k2: int| 0 <= k2 < k ==> (#[trigger] self.counts@[k2]).0 != qubit,
            decreases self.counts@.len() - k,
        {
            if self.counts[k].0.0 == qubit.0 {
                return Some(&self.counts[k].1);
            }
            k = k + 1;
        }
        proof {
            assert forall|s: Seq<u8>| !self.has_counts(qubit, s) by {
                if self.has_counts(qubit, s) {
                    let k2 = choose|k2: int|
                        0 <= k2 < self.counts@.len() && (#[trigger] self.counts@[k2]).0 == qubit
                            && self.counts@[k2].1@ == s;
                }
            };
        }
        None
    }

    /// The recorded probability of measuring one on `qubit`: exactly the
    /// number of one-outcomes over the number of shots.
    pub fn get_probability(&self, qubit: LogicalQubitId) -> (r: Option<ProbabilityRatio>)
        requires
            self.wf(),
        ensures
            match r {
                Some(p) => self.has_stat(qubit, p) && exists|s: Seq<u8>|
                    #[trigger] self.has_counts(qubit, s) && p.ones == count_ones(s) && p.total
                        == s.len(),
                None => forall|p: ProbabilityRatio| !self.has_stat(qubit, p),
            },
    {
        let mut k: usize = 0;
        while k < self.statistics.len()
            invariant
                self.wf(),
                k <= self.statistics@.len(),
                forall|k2: int| 0 <= k2 < k ==> (#[trigger] self.statistics@[k2]).0 != qubit,
            decreases self.statistics@.len() - k,
        {
            if self.statistics[k].0.0 == qubit.0 {
                let p = self.statistics[k].1;
                proof {
                    assert(self.has_stat(qubit, p));
                    assert(self.counts@[k as int].0 == qubit);
                    assert(self.has_counts(qubit, self.counts@[k as int].1@));
                    assert(p.ones == count_ones(self.counts@[k as int].1@));
                }
                return Some(p);
            }
            k = k + 1;
        }
        proof {
            assert forall|p: ProbabilityRatio| !self.has_stat(qubit, p) by {
                if self.has_stat(qubit, p) {
                    let k2 = choose|k2: int|
                        0 <= k2 < self.statistics@.len() && (#[trigger] self.statistics@[k2]).0
                            == qubit && self.statistics@[k2].1 == p;
                }
            };
        }
        None
    }
}

/// The recorded ratio for a qubit is exactly ones-over-shots of its recorded
/// outcomes; on vectors of zeroes and ones that is the mean of the outcomes.
pub proof fn lemma_statistics_law(
    r: JobResult,
    q: LogicalQubitId,
    s: Seq<u8>,
    p: ProbabilityRatio,
)
    requires
        r.wf(),
        r.has_counts(q, s),
        r.has_stat(q, p),
    ensures
        p.ones == count_ones(s),
        p.total == s.len(),
        (forall|i: int| 0 <= i < s.len() ==> (#[trigger] s[i]) <= 1) ==> p.ones == sum_of(s),
{
    let k1 = choose|k: int|
        0 <= k < r.counts@.len() && (#[trigger] r.counts@[k]).0 == q && r.counts@[k].1@ == s;
    let k2 = choose|k: int|
        0 <= k < r.statistics@.len() && (#[trigger] r.statistics@[k]).0 == q && r.statistics@[k].1
            == p;
    if k1 != k2 {
        assert(r.counts@[k2].0 == q);
        assert(false);
    }
    if forall|i: int| 0 <= i < s.len() ==> (#[trigger] s[i]) <= 1 {
        lemma_ones_is_sum(s);
    }
}

/// Mints fresh, strictly increasing job ids, starting at one.
#[derive(Debug)]
pub struct JobIdGenerator {
    pub next: u64,
}

impl JobIdGenerator {
    pub open spec fn wf(&self) -> bool {
        self.next >= 1
    }

    pub fn new() -> (r: Self)
        ensures
            r.wf(),
            r.next == 1,
    {
        JobIdGenerator { next: 1 }
    }

    /// The next fresh id; never zero.
    pub fn fresh(&mut self) -> (r: JobId)
        requires
            old(self).wf(),
            old(self).next < u64::MAX,
        ensures
            final(self).wf(),
            r == old(self).next,
            r >= 1,
            final(self).next == old(self).next + 1,
    {
        let id = self.next;
        self.next = self.next + 1;
        id
    }
}

impl Default for JobIdGenerator {
    fn default() -> (r: Self)
        ensures
            r.wf(),
            r.next == 1,
    {
        JobIdGenerator::new()
    }
}

/// A quantum computation job: a circuit with shots, priority, target backend
/// and lifecycle bookkeeping.
#[derive(Debug)]
pub struct Job {
    pub id: JobId,
    pub circuit: CircuitDag,
    pub shots: u32,
    pub priority: Priority,
    pub target_backend: String,
    pub status: JobStatus,
    pub metadata: JobMetadata,
    pub created_at: u64,
    pub submitted_at: Option<u64>,
    pub started_at: Option<u64>,
    pub completed_at: Option<u64>,
    /// Ids of jobs that must complete before this one may run.
    pub depends_on: Vec<JobId>,
    /// Snapshot of the circuit's qubits at construction.
    pub allocated_qubits: Vec<LogicalQubitId>,
}

/// Structural sameness of two jobs, down to the views of their fields.
pub open spec fn job_matches(a: Job, b: Job) -> bool {
    &&& a.id == b.id
    &&& dag_matches(a.circuit, b.circuit)
    &&& a.shots == b.shots
    &&& a.priority == b.priority
    &&& a.target_backend@ == b.target_backend@
    &&& a.status == b.status
    &&& job_metadata_matches(a.metadata, b.metadata)
    &&& a.created_at == b.created_at
    &&& a.submitted_at == b.submitted_at
    &&& a.started_at == b.started_at
    &&& a.completed_at == b.completed_at
    &&& a.depends_on@ == b.depends_on@
    &&& a.allocated_qubits@ == b.allocated_qubits@
}

impl Clone for Job {
    fn clone(&self) -> (res: Self)
        ensures
            job_matches(res, *self),
    {
        let depends_on = self.depends_on.clone();
        let allocated_qubits = self.allocated_qubits.clone();
        proof {
            assert(depends_on@ =~= self.depends_on@);
            assert(allocated_qubits@ =~= self.allocated_qubits@);
        }
        Job {
            id: self.id,
            circuit: self.circuit.clone(),
            shots: self.shots,
            priority: self.priority,
            target_backend: self.target_backend.clone(),
            status: self.status,
            metadata: self.metadata.clone(),
            created_at: self.created_at,
            submitted_at: self.submitted_at,
            started_at: self.started_at,
            completed_at: self.completed_at,
            depends_on,
            allocated_qubits,
        }
    }
}

/// Relies on `std::time::SystemTime::now` and `duration_since` against the
/// Unix epoch, read as whole seconds; zero if the clock sits before the
/// epoch.  The result depends on the machine's clock, so nothing is promised
/// of it.
#[verifier::external_body]
pub(crate) fn current_timestamp() -> u64 {
    match std::time::SystemTime::now().duration_since(std::time::UNIX_EPOCH) {
        Ok(d) => d.as_secs(),
        Err(_) => 0,
    }
}

impl Job {
    /// Timestamps respect the lifecycle order whenever they are defined.
    pub open spec fn wf(&self) -> bool {
        &&& match self.submitted_at {
            Some(t) => self.created_at <= t,
            None => true,
        }
        &&& match self.started_at {
            Some(t) => self.created_at <= t && match self.submitted_at {
                Some(s) => s <= t,
                None => true,
            },
            None => true,
        }
        &&& match self.completed_at {
            Some(t) => {
                &&& self.created_at <= t
                &&& match self.submitted_at {
                    Some(s) => s <= t,
                    None => true,
                }
                &&& match self.started_at {
                    Some(s) => s <= t,
                    None => true,
                }
            },
            None => true,
        }
    }

    /// A fresh `Pending` job over `circuit`, holding a snapshot of the
    /// circuit's qubits, under an id minted by `ids`.
    pub fn new(
        circuit: CircuitDag,
        shots: u32,
        target_backend: &str,
        ids: &mut JobIdGenerator,
    ) -> (r: Job)
        requires
            old(ids).wf(),
            old(ids).next < u64::MAX,
        ensures
            r.wf(),
            final(ids).wf(),
            r.id == old(ids).next,
            r.id >= 1,
            final(ids).next == old(ids).next + 1,
            r.circuit == circuit,
            r.shots == shots,
            r.priority == Priority::Normal,
            r.target_backend@ == target_backend@,
            r.status == JobStatus::Pending,
            r.submitted_at is None,
            r.started_at is None,
            r.completed_at is None,
            r.depends_on@.len() == 0,
            r.allocated_qubits@.no_duplicates(),
            forall|q: LogicalQubitId|
                #[trigger] r.allocated_qubits@.contains(q) <==> circuit_qubits(circuit).contains(
                    q,
                ),
    {
        let allocated_qubits = circuit.all_qubits();
        Job {
            id: ids.fresh(),
            circuit,
            shots,
            priority: Priority::Normal,
            target_backend: target_backend.to_owned(),
            status: JobStatus::Pending,
            metadata: JobMetadata::new(),
            created_at: current_timestamp(),
            submitted_at: None,
            started_at: None,
            completed_at: None,
            depends_on: Vec::new(),
            allocated_qubits,
        }
    }

    pub fn with_priority(self, priority: Priority) -> (r: Self)
        ensures
            r == (Job { priority, ..self }),
    {
        Job { priority, ..self }
    }

    pub fn with_metadata(self, metadata: JobMetadata) -> (r: Self)
        ensures
            r == (Job { metadata, ..self }),
    {
        Job { metadata, ..self }
    }

    pub fn with_dependency(self, job_id: JobId) -> (r: Self)
        ensures
            r.depends_on@ == self.depends_on@.push(job_id),
            r == (Job { depends_on: r.depends_on, ..self }),
    {
        let mut s = self;
        s.depends_on.push(job_id);
        s
    }

    /// Transitions the status, stamping the matching timestamp: `Queued`
    /// defines `submitted_at`, `Running` defines `started_at`, a terminal
    /// status defines `completed_at`.  Timestamps never run backwards.
    pub fn set_status(&mut self, status: JobStatus)
        requires
            old(self).wf(),
        ensures
            final(self).wf(),
            final(self).status == status,
            final(self).id == old(self).id,
            final(self).circuit == old(self).circuit,
            final(self).shots == old(self).shots,
            final(self).priority == old(self).priority,
            final(self).target_backend == old(self).target_backend,
            final(self).metadata == old(self).metadata,
            final(self).created_at == old(self).created_at,
            final(self).depends_on == old(self).depends_on,
            final(self).allocated_qubits == old(self).allocated_qubits,
            status is Queued ==> final(self).submitted_at is Some && final(self).started_at == old(self).started_at && final(self).completed_at == old(self).completed_at,
            status is Running ==> final(self).started_at is Some && final(self).submitted_at
                == old(self).submitted_at && final(self).completed_at == old(self).completed_at,
            (status is Completed || status is Failed || status is Cancelled) ==> final(self).completed_at is Some && final(self).submitted_at == old(self).submitted_at && final(self).started_at == old(self).started_at,
            !(status is Queued || status is Running || status is Completed || status is Failed
                || status is Cancelled) ==> final(self).submitted_at == old(self).submitted_at
                && final(self).started_at == old(self).started_at && final(self).completed_at
                == old(self).completed_at,
    {
        let now = current_timestamp();
        self.status = status;
        match status {
            JobStatus::Queued => {
                let mut t = now;
                if t < self.created_at {
                    t = self.created_at;
                }
                // never move past an already defined later timestamp
                if let Some(s) = self.started_at {
                    if t > s {
                        t = s;
                    }
                }
                if let Some(c) = self.completed_at {
                    if t > c {
                        t = c;
                    }
                }
                self.submitted_at = Some(t);
            },
            JobStatus::Running => {
                let mut t = now;
                if t < self.created_at {
                    t = self.created_at;
                }
                if let Some(s) = self.submitted_at {
                    if t < s {
                        t = s;
                    }
                }
                if let Some(c) = self.completed_at {
                    if t > c {
                        t = c;
                    }
                }
                self.started_at = Some(t);
            },
            JobStatus::Completed | JobStatus::Failed | JobStatus::Cancelled => {
                let mut t = now;
                if t < self.created_at {
                    t = self.created_at;
                }
                if let Some(s) = self.submitted_at {
                    if t < s {
                        t = s;
                    }
                }
                if let Some(s) = self.started_at {
                    if t < s {
                        t = s;
                    }
                }
                self.completed_at = Some(t);
            },
            _ => {},
        }
    }

    /// Cancels the job unless it is already terminal; returns whether a
    /// transition happened.
    pub fn cancel(&mut self) -> (r: bool)
        requires
            old(self).wf(),
        ensures
            final(self).wf(),
            r == !(old(self).status is Completed || old(self).status is Failed || old(self).status is Cancelled),
            !r ==> *final(self) == *old(self),
            r ==> final(self).status == JobStatus::Cancelled && final(self).completed_at is Some
                && *final(self) == (Job {
                status: JobStatus::Cancelled,
                completed_at: final(self).completed_at,
                ..*old(self)
            }),
            final(self).id == old(self).id,
    {
        if self.status.is_terminal() {
            return false;
        }
        self.set_status(JobStatus::Cancelled);
        true
    }

    /// Wall time between start and completion, when both are defined.
    pub fn execution_duration(&self) -> (r: Option<u64>)
        requires
            self.wf(),
        ensures
            match (self.started_at, self.completed_at) {
                (Some(s), Some(c)) => r == Some((c - s) as u64),
                _ => r is None,
            },
    {
        match (self.started_at, self.completed_at) {
            (Some(start), Some(end)) => Some(end - start),
            _ => None,
        }
    }
}

/// Whether `s` is sorted by non-increasing priority rank.
pub open spec fn sorted_by_priority(s: Seq<Job>) -> bool {
    forall|i: int, j: int|
        0 <= i < j < s.len() ==> rank((#[trigger] s[i]).priority) >= rank((#[trigger] s[j]).priority)
}

/// The waiting queue: jobs ordered by priority, first-in-first-out among
/// equals.
#[derive(Debug)]
pub struct JobQueue {
    pub jobs: Vec<Job>,
}

impl JobQueue {
    pub open spec fn wf(&self) -> bool {
        sorted_by_priority(self.jobs@)
    }

    pub fn new() -> (r: Self)
        ensures
            r.wf(),
            r.jobs@.len() == 0,
    {
        JobQueue { jobs: Vec::new() }
    }

    /// Inserts `job` immediately before the first job of strictly lower
    /// priority, preserving the order of earlier arrivals of the same
    /// priority.
    pub fn push(&mut self, job: Job)
        requires
            old(self).wf(),
        ensures
            final(self).wf(),
            final(self).jobs@.len() == old(self).jobs@.len() + 1,
            exists|pos: int|
                {
                    &&& 0 <= pos <= old(self).jobs@.len()
                    &&& (forall|i: int|
                        0 <= i < pos ==> rank((#[trigger] old(self).jobs@[i]).priority) >= rank(
                            job.priority,
                        ))
                    &&& (pos < old(self).jobs@.len() ==> rank(old(self).jobs@[pos].priority)
                        < rank(job.priority))
                    &&& final(self).jobs@ == old(self).jobs@.insert(pos, job)
                },
    {
        let mut pos: usize = 0;
        let mut stop = false;
        while pos < self.jobs.len() && !stop
            invariant
                *self == *old(self),
                pos <= self.jobs@.len(),
                forall|i: int|
                    0 <= i < pos ==> rank((#[trigger] self.jobs@[i]).priority) >= rank(
                        job.priority,
                    ),
                stop ==> pos < self.jobs@.len() && rank(self.jobs@[pos as int].priority) < rank(
                    job.priority,
                ),
            decreases self.jobs@.len() - pos, if stop { 0int } else { 1int },
        {
            if self.jobs[pos].priority.to_u8() < job.priority.to_u8() {
                stop = true;
            } else {
                pos = pos + 1;
            }
        }
        let ghost p = pos as int;
        self.jobs.insert(pos, job);
        proof {
            assert forall|i: int, j: int|
                0 <= i < j < self.jobs@.len() implies rank((#[trigger] self.jobs@[i]).priority)
                >= rank((#[trigger] self.jobs@[j]).priority) by {
                let o = old(self).jobs@;
                let i0: int = if i < p {
                    i
                } else {
                    i - 1
                };
                let j0: int = if j < p {
                    j
                } else {
                    j - 1
                };
                if i == p && j == p {
                } else if i == p {
                    assert(self.jobs@[j] == o[j - 1]);
                    if j - 1 > p - 1 && p < o.len() {
                        assert(rank(o[p].priority) < rank(job.priority));
                    }
                } else if j == p {
                    assert(self.jobs@[i] == o[i]);
                } else {
                    assert(self.jobs@[i] == o[i0]);
                    assert(self.jobs@[j] == o[j0]);
                }
            };
        }
    }

    /// Removes and returns the front job, if any.
    pub fn pop(&mut self) -> (r: Option<Job>)
        requires
            old(self).wf(),
        ensures
            final(self).wf(),
            match r {
                Some(job) => old(self).jobs@.len() > 0 && job == old(self).jobs@[0] && final(self).jobs@ == old(self).jobs@.drop_first(),
                None => old(self).jobs@.len() == 0 && *final(self) == *old(self),
            },
    {
        if self.jobs.len() == 0 {
            return None;
        }
        let job = self.jobs.remove(0);
        proof {
            assert(self.jobs@ =~= old(self).jobs@.drop_first());
        }
        Some(job)
    }

    /// The front job, if any.
    pub fn peek(&self) -> (r: Option<&Job>)
        ensures
            match r {
                Some(job) => self.jobs@.len() > 0 && *job == self.jobs@[0],
                None => self.jobs@.len() == 0,
            },
    {
        if self.jobs.len() == 0 {
            None
        } else {
            Some(&self.jobs[0])
        }
    }

    pub fn len(&self) -> (r: usize)
        ensures
            r == self.jobs@.len(),
    {
        self.jobs.len()
    }

    pub fn is_empty(&self) -> (r: bool)
        ensures
            r == (self.jobs@.len() == 0),
    {
        self.jobs.len() == 0
    }

    /// The first job with the given id, if any.
    pub fn find(&self, id: JobId) -> (r: Option<&Job>)
        ensures
            match r {
                Some(job) => exists|k: int|
                    0 <= k < self.jobs@.len() && (#[trigger] self.jobs@[k]) == *job && job.id == id,
                None => forall|k: int| 0 <= k < self.jobs@.len() ==> (#[trigger] self.jobs@[k]).id != id,
            },
    {
        let mut k: usize = 0;
        while k < self.jobs.len()
            invariant
                k <= self.jobs@.len(),
                forall|k2: int| 0 <= k2 < k ==> (#[trigger] self.jobs@[k2]).id != id,
            decreases self.jobs@.len() - k,
        {
            if self.jobs[k].id == id {
                return Some(&self.jobs[k]);
            }
            k = k + 1;
        }
        None
    }

    /// Removes and returns the first job with the given id, if any.
    #[verifier::rlimit(50)]
    pub fn remove(&mut self, id: JobId) -> (r: Option<Job>)
        requires
            old(self).wf(),
        ensures
            final(self).wf(),
            match r {
                Some(job) => {
                    &&& job.id == id
                    &&& exists|k: int|
                        {
                            &&& 0 <= k < old(self).jobs@.len()
                            &&& old(self).jobs@[k] == job
                            &&& final(self).jobs@ == old(self).jobs@.remove(k)
                            &&& forall|k2: int|
                                0 <= k2 < k ==> (#[trigger] old(self).jobs@[k2]).id != id
                        }
                },
                None => *final(self) == *old(self) && forall|k: int|
                    0 <= k < old(self).jobs@.len() ==> (#[trigger] old(self).jobs@[k]).id != id,
            },
    {
        let mut k: usize = 0;
        while k < self.jobs.len()
            invariant
                old(self).wf(),
                *self == *old(self),
                k <= self.jobs@.len(),
                forall|k2: int| 0 <= k2 < k ==> (#[trigger] self.jobs@[k2]).id != id,
            decreases self.jobs@.len() - k,
        {
            if self.jobs[k].id == id {
                let job = self.jobs.remove(k);
                proof {
                    let o = old(self).jobs@;
                    assert forall|i: int, j: int|
                        0 <= i < j < self.jobs@.len() implies rank(
                        (#[trigger] self.jobs@[i]).priority,
                    ) >= rank((#[trigger] self.jobs@[j]).priority) by {
                        let i0: int = if i < k { i } else { i + 1 };
                        let j0: int = if j < k { j } else { j + 1 };
                        assert(self.jobs@[i] == o[i0]);
                        assert(self.jobs@[j] == o[j0]);
                    };
                }
                return Some(job);
            }
            k = k + 1;
        }
        None
    }
}

impl Default for JobQueue {
    fn default() -> (r: Self)
        ensures
            r.wf(),
            r.jobs@.len() == 0,
    {
        JobQueue::new()
    }
}

} // verus!
