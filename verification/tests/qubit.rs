use quantum_ir::qubit::{LogicalQubit, LogicalQubitId, LogicalQubitManager, PhysicalQubitId, QubitMapping};

#[test]
fn test_logical_qubit_creation() {
    let qubit = LogicalQubit::new(LogicalQubitId::new(0));
    assert_eq!(qubit.id.value(), 0);
    assert!(qubit.state.is_available());
    assert!(!qubit.is_ancilla);
}

#[test]
fn test_ancilla_qubit() {
    let qubit = LogicalQubit::with_ancilla(LogicalQubitId::new(0));
    assert!(qubit.is_ancilla);
}

#[test]
fn test_qubit_manager_allocation() {
    let mut manager = LogicalQubitManager::new();

    let q1 = manager.allocate();
    let q2 = manager.allocate();

    assert_eq!(q1.value(), 0);
    assert_eq!(q2.value(), 1);
    assert!(manager.contains(q1));
    assert!(manager.contains(q2));
}

#[test]
fn test_qubit_manager_free_and_reuse() {
    let mut manager = LogicalQubitManager::new();

    let q1 = manager.allocate();
    assert!(manager.free(q1));

    let q2 = manager.allocate();
    // the freed id is reused
    assert_eq!(q2.value(), q1.value());
}

#[test]
fn test_qubit_mapping() {
    let mut mapping = QubitMapping::new();

    let logical = LogicalQubitId::new(0);
    let physical = PhysicalQubitId::new(5);

    mapping.map(logical, physical);

    assert_eq!(mapping.get_physical(logical), Some(physical));
    assert_eq!(mapping.get_logical(physical), Some(logical));
    assert!(mapping.is_mapped(logical));
}

#[test]
fn test_type_safety() {
    let logical = LogicalQubitId::new(0);
    let physical = PhysicalQubitId::new(0);

    // the two id kinds are distinct types; values compare only explicitly
    assert_eq!(logical.value(), physical.value());
}

#[test]
fn test_double_free_keeps_one_entry() {
    let mut manager = LogicalQubitManager::new();
    let q = manager.allocate();
    assert!(manager.free(q));
    assert!(manager.free(q));
    // the id re-emerges exactly once
    let r1 = manager.allocate();
    assert_eq!(r1.value(), q.value());
    let r2 = manager.allocate();
    assert_ne!(r2.value(), q.value());
}

#[test]
fn test_active_count_and_reset() {
    let mut manager = LogicalQubitManager::new();
    let q1 = manager.allocate();
    let _q2 = manager.allocate();
    assert_eq!(manager.active_count(), 2);
    manager.free(q1);
    assert_eq!(manager.active_count(), 1);
    manager.reset();
    assert_eq!(manager.active_count(), 0);
    assert_eq!(manager.all_qubits().len(), 0);
}

#[test]
fn test_mapping_eviction() {
    let mut mapping = QubitMapping::new();
    let l0 = LogicalQubitId::new(0);
    let l1 = LogicalQubitId::new(1);
    let p0 = PhysicalQubitId::new(10);
    let p1 = PhysicalQubitId::new(11);
    mapping.map(l0, p0);
    mapping.map(l1, p1);
    // remapping l0 onto p1 evicts both stale pairs
    let old = mapping.map(l0, p1);
    assert_eq!(old, Some(p0));
    assert_eq!(mapping.get_physical(l0), Some(p1));
    assert_eq!(mapping.get_physical(l1), None);
    assert_eq!(mapping.get_logical(p0), None);
    assert_eq!(mapping.unmap(l0), Some(p1));
    assert!(!mapping.is_mapped(l0));
}
