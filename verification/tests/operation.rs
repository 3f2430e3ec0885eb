use quantum_ir::operation::{cnot, rz, toffoli, x, CustomOp, Operation};
use quantum_ir::qubit::LogicalQubitId;

#[test]
fn test_single_qubit_gates() {
    let op = x(LogicalQubitId::new(0));
    assert_eq!(op.name(), "X");
    assert_eq!(op.qubits().len(), 1);

    let op = rz(LogicalQubitId::new(1), std::f64::consts::PI.to_bits());
    assert!(op.parameters().len() == 1);
}

#[test]
fn test_two_qubit_gates() {
    let op = cnot(LogicalQubitId::new(0), LogicalQubitId::new(1));
    assert_eq!(op.name(), "CNOT");
    assert_eq!(op.qubits().len(), 2);
}

#[test]
fn test_three_qubit_gates() {
    let op = toffoli(
        LogicalQubitId::new(0),
        LogicalQubitId::new(1),
        LogicalQubitId::new(2),
    );
    assert_eq!(op.name(), "Toffoli");
    assert_eq!(op.qubits().len(), 3);
}

#[test]
fn test_custom_operation() {
    let custom = CustomOp::new("MyGate")
        .with_qubits(vec![LogicalQubitId::new(0), LogicalQubitId::new(1)])
        .with_params(vec![1.57f64.to_bits(), 3.14f64.to_bits()])
        .with_metadata("version", "1.0");

    let op = Operation::Custom(custom);
    assert!(op.is_custom());
    assert_eq!(op.qubits().len(), 2);
    assert_eq!(op.parameters().len(), 2);
}

#[test]
fn test_operation_qubits() {
    let q0 = LogicalQubitId::new(0);
    let q1 = LogicalQubitId::new(1);

    let op = cnot(q0, q1);
    let qubits = op.qubits();
    assert_eq!(qubits.len(), 2);
    assert!(qubits.contains(&q0));
    assert!(qubits.contains(&q1));
}

#[test]
fn test_predicates_and_names() {
    let q0 = LogicalQubitId::new(0);
    let m = Operation::measure(q0);
    assert!(m.is_measurement());
    assert_eq!(m.name(), "M");
    let r = Operation::reset(q0);
    assert!(r.is_reset());
    assert_eq!(r.name(), "Reset");
    let b = Operation::barrier(vec![q0]);
    assert!(b.is_barrier());
    assert_eq!(b.name(), "Barrier");
}
