use quantum_ir::circuit::bell_state_dag;
use quantum_ir::job::{Job, JobIdGenerator, JobQueue, JobResult, JobStatus, Priority};
use quantum_ir::qubit::LogicalQubitId;
use quantum_ir::scheduler::JobScheduler;

#[test]
fn test_job_creation() {
    let mut ids = JobIdGenerator::new();
    let circuit = bell_state_dag();
    let job = Job::new(circuit, 100, "simulator", &mut ids);

    assert!(job.id > 0);
    assert_eq!(job.shots, 100);
    assert_eq!(job.priority, Priority::Normal);
    assert_eq!(job.status, JobStatus::Pending);
}

#[test]
fn test_job_priority() {
    let mut ids = JobIdGenerator::new();
    let circuit = bell_state_dag();
    let job = Job::new(circuit, 100, "simulator", &mut ids).with_priority(Priority::High);

    assert_eq!(job.priority, Priority::High);
}

#[test]
fn test_job_queue_ordering() {
    let mut ids = JobIdGenerator::new();
    let mut queue = JobQueue::new();

    let job1 = Job::new(bell_state_dag(), 100, "sim", &mut ids);
    let job2 = Job::new(bell_state_dag(), 100, "sim", &mut ids).with_priority(Priority::High);
    let job3 = Job::new(bell_state_dag(), 100, "sim", &mut ids).with_priority(Priority::Low);

    queue.push(job1);
    queue.push(job2);
    queue.push(job3);

    // the high-priority job leaves the queue first
    let next = queue.pop().unwrap();
    assert_eq!(next.priority, Priority::High);
}

#[test]
fn test_scheduler_submit() {
    let mut ids = JobIdGenerator::new();
    let mut scheduler = JobScheduler::new(4);
    let circuit = bell_state_dag();

    let job_id = scheduler.submit(Job::new(circuit, 100, "simulator", &mut ids));

    assert!(job_id > 0);
    assert_eq!(scheduler.queue_length(), 1);
    assert_eq!(scheduler.stats.total_submitted, 1);
}

#[test]
fn test_scheduler_schedule() {
    let mut ids = JobIdGenerator::new();
    let mut scheduler = JobScheduler::new(4)
        .with_qubits(vec![LogicalQubitId::new(0), LogicalQubitId::new(1)]);

    let circuit = bell_state_dag();
    let job_id = scheduler.submit(Job::new(circuit, 100, "simulator", &mut ids));

    let scheduled = scheduler.schedule_next();
    assert!(scheduled.is_some());
    assert_eq!(scheduled.unwrap().id, job_id);
}

#[test]
fn test_job_result() {
    let mut result = JobResult::success(1);
    result.add_counts(LogicalQubitId::new(0), vec![0, 1, 0, 1, 1]);

    assert_eq!(result.status, JobStatus::Completed);
    assert_eq!(result.get_counts(LogicalQubitId::new(0)).unwrap().len(), 5);
    let p = result.get_probability(LogicalQubitId::new(0)).unwrap();
    assert!((p.ones as f64 / p.total as f64 - 0.6).abs() < 0.01);
}

#[test]
fn test_scheduler_resource_management() {
    let mut ids = JobIdGenerator::new();
    let mut scheduler = JobScheduler::new(2)
        .with_qubits(vec![LogicalQubitId::new(0), LogicalQubitId::new(1)]);

    let circuit = bell_state_dag();
    let job = Job::new(circuit, 100, "simulator", &mut ids);
    let _job_id = scheduler.submit(job);

    let scheduled = scheduler.schedule_next();
    assert!(scheduled.is_some());

    assert_eq!(scheduler.queue_length(), 0);
}

#[test]
fn test_statistics_law_exact() {
    // the recorded ratio is exactly ones over shots for every recorded qubit
    let mut result = JobResult::success(7);
    result.add_counts(LogicalQubitId::new(0), vec![1, 1, 0, 1]);
    result.add_counts(LogicalQubitId::new(1), vec![0, 0]);
    result.add_counts(LogicalQubitId::new(2), vec![]);
    let p0 = result.get_probability(LogicalQubitId::new(0)).unwrap();
    assert_eq!((p0.ones, p0.total), (3, 4));
    let p1 = result.get_probability(LogicalQubitId::new(1)).unwrap();
    assert_eq!((p1.ones, p1.total), (0, 2));
    let p2 = result.get_probability(LogicalQubitId::new(2)).unwrap();
    assert_eq!((p2.ones, p2.total), (0, 0));
    // replacing a record keeps the law
    result.add_counts(LogicalQubitId::new(0), vec![0, 1]);
    let p0 = result.get_probability(LogicalQubitId::new(0)).unwrap();
    assert_eq!((p0.ones, p0.total), (1, 2));
}

#[test]
fn test_priority_levels() {
    assert_eq!(Priority::from_u8(0), Priority::Low);
    assert_eq!(Priority::from_u8(1), Priority::Normal);
    assert_eq!(Priority::from_u8(2), Priority::High);
    assert_eq!(Priority::from_u8(3), Priority::Urgent);
    assert_eq!(Priority::from_u8(200), Priority::Urgent);
    assert_eq!(Priority::Urgent.to_u8(), 3);
    assert!(JobStatus::Completed.is_terminal());
    assert!(JobStatus::Ready.is_runnable());
    assert!(JobStatus::Waiting.is_queued());
}

#[test]
fn test_conservation_law_concrete() {
    // submissions equal queue + running + terminal counters at every step
    let mut ids = JobIdGenerator::new();
    let mut scheduler = JobScheduler::new(4)
        .with_qubits(vec![LogicalQubitId::new(0), LogicalQubitId::new(1)]);
    let conserved = |s: &JobScheduler| {
        s.stats.total_submitted as usize
            == s.queue_length()
                + s.running_jobs().len()
                + (s.stats.total_completed + s.stats.total_failed + s.stats.total_cancelled)
                    as usize
    };
    assert!(conserved(&scheduler));
    let id1 = scheduler.submit(Job::new(bell_state_dag(), 10, "sim", &mut ids));
    let _id2 = scheduler.submit(Job::new(bell_state_dag(), 10, "sim", &mut ids));
    assert!(conserved(&scheduler));
    let picked = scheduler.schedule_next().unwrap();
    assert_eq!(picked.id, id1);
    assert!(conserved(&scheduler));
    scheduler.complete(id1, JobResult::success(id1));
    assert!(conserved(&scheduler));
    assert_eq!(scheduler.stats.total_completed, 1);
    let cancelled = scheduler.cancel(_id2);
    assert!(cancelled);
    assert!(conserved(&scheduler));
}

#[test]
fn test_cancel_unknown_job() {
    let mut scheduler = JobScheduler::new(4);
    assert!(!scheduler.cancel(12345));
}
