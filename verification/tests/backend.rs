use quantum_ir::backend::{
    BackendAdapter, BackendCapabilities, BackendType, CouplingMap, ErrorModel,
    IdealSimulatorBackend, MockBackendAdapter,
};
use quantum_ir::circuit::bell_state_dag;
use quantum_ir::job::{Job, JobIdGenerator, JobStatus};

#[test]
fn test_backend_capabilities() {
    let caps = BackendCapabilities::ideal_simulator();
    assert_eq!(caps.backend_type, BackendType::IdealSimulator);
    assert!(caps.supports_measurement);
    assert!(caps.supported_1q_gates.iter().any(|g| g == "H"));
}

#[test]
fn test_coupling_map() {
    let fully = CouplingMap::fully_connected(4);
    assert!(fully.allows_connection(0, 1));
    assert!(fully.allows_connection(3, 0));

    let linear = CouplingMap::linear_chain(4);
    assert!(linear.allows_connection(0, 1));
    assert!(!linear.allows_connection(0, 3));
}

#[test]
fn test_mock_backend() {
    let mut backend = MockBackendAdapter::new();
    let mut ids = JobIdGenerator::new();
    let circuit = bell_state_dag();
    let job = Job::new(circuit, 100, "mock_backend", &mut ids);

    let job_id = backend.submit_job(&job).unwrap();
    assert!(job_id > 0);

    let status = backend.get_job_status(job_id).unwrap();
    assert_eq!(status, JobStatus::Completed);

    let result = backend.get_job_result(job_id).unwrap();
    assert_eq!(result.status, JobStatus::Completed);
}

#[test]
fn test_ideal_simulator() {
    let backend = IdealSimulatorBackend::new();
    assert_eq!(backend.id(), "ideal_simulator");

    let caps = backend.capabilities();
    assert_eq!(caps.num_qubits, 32);
}

#[test]
fn test_error_model() {
    let ideal = ErrorModel::ideal();
    assert_eq!(ideal.single_qubit_error_ppm, 0);
    assert!(ideal.t1_time_ns.is_none());

    let noisy = ErrorModel::new(1000, 10000, 20000, Some(100_000), Some(50_000));
    assert_eq!(noisy.single_qubit_error_ppm, 1000);
    assert_eq!(noisy.two_qubit_error_ppm, 10000);
}

#[test]
fn test_validate_rejects_oversized_circuit() {
    let mut caps = BackendCapabilities::ideal_simulator();
    caps.num_qubits = 1;
    let circuit = bell_state_dag();
    let err = quantum_ir::backend::validate_circuit_caps(&caps, &circuit).unwrap_err();
    assert!(matches!(err, quantum_ir::IrError::UnsupportedOperation(_)));
}

#[test]
fn test_validate_enforces_coupling() {
    // a CNOT between non-neighbouring qubits is rejected on a linear chain
    let mut caps = BackendCapabilities::ideal_simulator();
    caps.coupling_map = Some(CouplingMap::linear_chain(8));
    let mut dag = quantum_ir::circuit::CircuitDag::new();
    dag.add_node(quantum_ir::operation::cnot(
        quantum_ir::qubit::LogicalQubitId::new(0),
        quantum_ir::qubit::LogicalQubitId::new(5),
    ));
    let err = quantum_ir::backend::validate_circuit_caps(&caps, &dag).unwrap_err();
    assert!(matches!(err, quantum_ir::IrError::UnsupportedOperation(_)));
    // neighbouring qubits pass
    let mut ok_dag = quantum_ir::circuit::CircuitDag::new();
    ok_dag.add_node(quantum_ir::operation::cnot(
        quantum_ir::qubit::LogicalQubitId::new(2),
        quantum_ir::qubit::LogicalQubitId::new(3),
    ));
    assert!(quantum_ir::backend::validate_circuit_caps(&caps, &ok_dag).is_ok());
}

#[test]
fn test_cancel_terminal_job_refused() {
    let mut backend = MockBackendAdapter::new();
    let mut ids = JobIdGenerator::new();
    let job = Job::new(bell_state_dag(), 10, "mock_backend", &mut ids);
    let job_id = backend.submit_job(&job).unwrap();
    // the simulated job completes immediately, so cancelling refuses
    let err = backend.cancel_job(job_id).unwrap_err();
    assert!(matches!(err, quantum_ir::IrError::JobExecutionFailed(_)));
    let err = backend.get_job_status(99999).unwrap_err();
    assert!(matches!(err, quantum_ir::IrError::QubitNotFound(_)));
}

#[test]
fn test_simulated_counts_shape() {
    let mut backend = MockBackendAdapter::new();
    let mut ids = JobIdGenerator::new();
    let job = Job::new(bell_state_dag(), 16, "mock_backend", &mut ids);
    let result = backend.execute(&job).unwrap();
    assert_eq!(result.execution_time_ms, Some(1));
    let counts = result
        .get_counts(quantum_ir::qubit::LogicalQubitId::new(0))
        .unwrap();
    assert_eq!(counts.len(), 16);
    assert!(counts.iter().all(|&b| b <= 1));
    // deterministic parity alternates with the shot index
    assert_ne!(counts[0], counts[1]);
}
