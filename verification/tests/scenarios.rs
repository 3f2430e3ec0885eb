use quantum_ir::backend::{BackendInstance, IdealSimulatorBackend};
use quantum_ir::circuit::{bell_state_dag, CircuitDag};
use quantum_ir::job::{Job, JobIdGenerator, JobMetadata, JobStatus, Priority};
use quantum_ir::operation::{cnot, h, x};
use quantum_ir::qubit::LogicalQubitId;
use quantum_ir::runtime::{QuantumRuntime, RuntimeConfig};
use quantum_ir::scheduler::JobScheduler;

#[test]
fn bell_state_dag_shape() {
    let mut dag = bell_state_dag();
    assert_eq!(dag.num_qubits(), 2);
    assert_eq!(dag.num_operations(), 4);
    assert_eq!(dag.depth(), 3);
}

#[test]
fn parallel_islands() {
    let q0 = LogicalQubitId::new(0);
    let q1 = LogicalQubitId::new(1);
    let q2 = LogicalQubitId::new(2);
    let mut dag = CircuitDag::new();
    let nh = dag.add_node(h(q0));
    let nx = dag.add_node(x(q1));
    let nc = dag.add_node(cnot(q0, q1));
    dag.add_edge(nh, nc).unwrap();
    dag.add_edge(nx, nc).unwrap();
    let nh2 = dag.add_node(h(q2));

    assert!(dag.can_parallel(nh, nx));
    assert!(dag.can_parallel(nh, nh2));
    assert!(!dag.can_parallel(nh, nc));

    let groups = dag.compute_parallel_groups();
    assert_eq!(groups.len(), 2);
}

#[test]
fn cycle_rejection_leaves_graph_unchanged() {
    let q0 = LogicalQubitId::new(0);
    let mut dag = CircuitDag::new();
    let n1 = dag.add_node(h(q0));
    let n2 = dag.add_node(x(q0));
    dag.add_edge(n1, n2).unwrap();
    let err = dag.add_edge(n2, n1).unwrap_err();
    assert!(matches!(err, quantum_ir::IrError::CyclicDependency(_)));
    assert_eq!(dag.num_nodes(), 2);
    assert_eq!(dag.edges().len(), 1);
}

fn two_qubit_job(ids: &mut JobIdGenerator, priority: Priority) -> Job {
    let mut dag = CircuitDag::new();
    dag.add_node(cnot(LogicalQubitId::new(0), LogicalQubitId::new(1)));
    Job::new(dag, 10, "sim", ids).with_priority(priority)
}

#[test]
fn priority_preemption() {
    let mut ids = JobIdGenerator::new();
    let mut scheduler = JobScheduler::new(1)
        .with_qubits(vec![LogicalQubitId::new(0), LogicalQubitId::new(1)]);
    let _a = scheduler.submit(two_qubit_job(&mut ids, Priority::Normal));
    let b = scheduler.submit(two_qubit_job(&mut ids, Priority::Urgent));
    let first = scheduler.schedule_next().unwrap();
    assert_eq!(first.id, b);
    assert_eq!(first.priority, Priority::Urgent);
}

#[test]
fn resource_blocking() {
    let mut ids = JobIdGenerator::new();
    let mut scheduler = JobScheduler::new(4).with_qubits(vec![LogicalQubitId::new(0)]);
    let one_qubit_job = |ids: &mut JobIdGenerator| {
        let mut dag = CircuitDag::new();
        dag.add_node(x(LogicalQubitId::new(0)));
        Job::new(dag, 10, "sim", ids)
    };
    let first_id = scheduler.submit(one_qubit_job(&mut ids));
    let second_id = scheduler.submit(one_qubit_job(&mut ids));
    let first = scheduler.schedule_next().unwrap();
    assert_eq!(first.id, first_id);
    // the shared qubit is taken: nothing else can be scheduled
    assert!(scheduler.schedule_next().is_none());
    // completing the first job returns the qubit; the second becomes schedulable
    scheduler.complete(first_id, quantum_ir::job::JobResult::success(first_id));
    let second = scheduler.schedule_next().unwrap();
    assert_eq!(second.id, second_id);
}

#[test]
fn end_to_end_runtime() {
    let config = RuntimeConfig::new().with_default_backend("simulator");
    let mut runtime = QuantumRuntime::new(config);
    runtime.register_backend(
        "simulator",
        BackendInstance::IdealSim(IdealSimulatorBackend::new()),
    );
    let _job_id = runtime.create_job(bell_state_dag(), 100, Priority::Normal, JobMetadata::new());
    let results = runtime.execute_all();
    assert_eq!(results.len(), 1);
    assert_eq!(results[0].status, JobStatus::Completed);
    assert!(results[0].execution_time_ms.is_some());
    let c0 = results[0].get_counts(LogicalQubitId::new(0)).unwrap();
    let c1 = results[0].get_counts(LogicalQubitId::new(1)).unwrap();
    assert_eq!(c0.len(), 100);
    assert_eq!(c1.len(), 100);
    assert_eq!(runtime.stats.total_jobs_submitted, 1);
    assert_eq!(runtime.stats.total_jobs_completed, 1);
}

#[test]
fn queue_pop_law() {
    // pushing Normal, High, Low: the first pop yields the High job
    let mut ids = JobIdGenerator::new();
    let mut queue = quantum_ir::job::JobQueue::new();
    queue.push(two_qubit_job(&mut ids, Priority::Normal));
    let high_id;
    {
        let job = two_qubit_job(&mut ids, Priority::High);
        high_id = job.id;
        queue.push(job);
    }
    queue.push(two_qubit_job(&mut ids, Priority::Low));
    let first = queue.pop().unwrap();
    assert_eq!(first.id, high_id);
    assert_eq!(first.priority, Priority::High);
}

#[test]
fn acyclicity_preserved_under_construction() {
    // no sequence of accepted insertions produces a path back to a source
    let q0 = LogicalQubitId::new(0);
    let mut dag = CircuitDag::new();
    let mut nodes = Vec::new();
    for _ in 0..5 {
        nodes.push(dag.add_node(x(q0)));
    }
    dag.add_edge(nodes[0], nodes[1]).unwrap();
    dag.add_edge(nodes[1], nodes[2]).unwrap();
    dag.add_edge(nodes[0], nodes[2]).unwrap();
    dag.add_edge(nodes[3], nodes[4]).unwrap();
    dag.add_edge(nodes[2], nodes[3]).unwrap();
    // every back edge is refused
    assert!(dag.add_edge(nodes[4], nodes[0]).is_err());
    assert!(dag.add_edge(nodes[2], nodes[0]).is_err());
    // the topological order witnesses acyclicity
    let order = dag.topological_sort();
    assert_eq!(order.len(), 5);
    let pos = |n: usize| order.iter().position(|&m| m == n).unwrap();
    for &(f, t) in dag.edges() {
        assert!(pos(f) < pos(t));
    }
}
