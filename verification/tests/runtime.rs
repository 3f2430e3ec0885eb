use quantum_ir::backend::{BackendInstance, MockBackendAdapter};
use quantum_ir::circuit::bell_state_dag;
use quantum_ir::job::{JobMetadata, Priority};
use quantum_ir::runtime::{QuantumRuntime, RuntimeConfig};

#[test]
fn test_runtime_creation() {
    let config = RuntimeConfig::new()
        .with_max_jobs(8)
        .with_default_backend("simulator");

    let runtime = QuantumRuntime::new(config);

    assert_eq!(runtime.config.max_concurrent_jobs, 8);
    assert!(!runtime.is_running());
}

#[test]
fn test_runtime_backend_registration() {
    let mut runtime = QuantumRuntime::default();
    let backend = BackendInstance::Mock(MockBackendAdapter::new());

    runtime.register_backend("test_backend", backend);

    assert!(runtime.get_backend("test_backend").is_some());
    assert!(runtime
        .list_backends()
        .iter()
        .any(|name| name == "test_backend"));
}

#[test]
fn test_runtime_job_submission() {
    let mut runtime = QuantumRuntime::default();
    let circuit = bell_state_dag();

    let job_id = runtime.create_job(circuit, 100, Priority::Normal, JobMetadata::new());

    assert!(job_id > 0);
    assert_eq!(runtime.stats.total_jobs_submitted, 1);
}

#[test]
fn test_runtime_stats() {
    let mut runtime = QuantumRuntime::default();

    runtime.stats.total_jobs_submitted = 10;
    runtime.stats.total_jobs_completed = 8;
    runtime.stats.total_execution_time_ms = 800;

    let average =
        runtime.stats.total_execution_time_ms as f64 / runtime.stats.total_jobs_completed as f64;
    assert_eq!(average, 100.0);
}

#[test]
fn test_runtime_start_stop() {
    let mut runtime = QuantumRuntime::default();

    assert!(!runtime.is_running());

    runtime.start();
    assert!(runtime.is_running());

    runtime.stop();
    assert!(!runtime.is_running());
}

#[test]
fn test_missing_backend_fails_job() {
    // a scheduled job whose backend is unregistered completes as failed
    let mut runtime = QuantumRuntime::default();
    let job_id = runtime.create_job(bell_state_dag(), 10, Priority::Normal, JobMetadata::new());
    let results = runtime.execute_all();
    assert_eq!(results.len(), 1);
    assert_eq!(results[0].status, quantum_ir::job::JobStatus::Failed);
    assert!(results[0].error.is_some());
    let stored = runtime.get_job_result(job_id).unwrap();
    assert_eq!(stored.status, quantum_ir::job::JobStatus::Failed);
}
