use quantum_ir::circuit::{bell_state_dag, CircuitDag};
use quantum_ir::operation::{cnot, h, x, z};
use quantum_ir::qubit::LogicalQubitId;

#[test]
fn test_dag_creation() {
    let mut dag = CircuitDag::with_name("Test");
    let q0 = LogicalQubitId::new(0);

    dag.add_node(h(q0));
    dag.add_node(x(q0));

    assert_eq!(dag.num_nodes(), 2);
    assert_eq!(dag.num_qubits(), 1);
}

#[test]
fn test_dag_dependency() {
    let mut dag = CircuitDag::new();
    let q0 = LogicalQubitId::new(0);

    let n1 = dag.add_node(h(q0));
    let n2 = dag.add_node(x(q0));
    dag.add_edge(n1, n2).unwrap();

    assert!(dag.get_node(n2).unwrap().depends_on_node(n1));
}

#[test]
fn test_topological_sort() {
    let mut dag = CircuitDag::new();
    let q0 = LogicalQubitId::new(0);

    let n1 = dag.add_node(h(q0));
    let n2 = dag.add_node(x(q0));
    let n3 = dag.add_node(z(q0));

    dag.add_edge(n1, n2).unwrap();
    dag.add_edge(n2, n3).unwrap();

    let order = dag.topological_sort();
    assert_eq!(order, vec![n1, n2, n3]);
}

#[test]
fn test_depth_calculation() {
    let mut dag = CircuitDag::new();
    let q0 = LogicalQubitId::new(0);
    let q1 = LogicalQubitId::new(1);

    // two parallel operations feeding one gate
    let n1 = dag.add_node(h(q0));
    let n2 = dag.add_node(h(q1));

    let n3 = dag.add_node(cnot(q0, q1));
    dag.add_edge(n1, n3).unwrap();
    dag.add_edge(n2, n3).unwrap();

    assert_eq!(dag.depth(), 2);
}

#[test]
fn test_parallel_detection() {
    let mut dag = CircuitDag::new();
    let q0 = LogicalQubitId::new(0);
    let q1 = LogicalQubitId::new(1);

    dag.add_node(h(q0));
    dag.add_node(h(q1));

    assert!(dag.can_parallel(0, 1));
}

#[test]
fn test_bell_dag() {
    let dag = bell_state_dag();
    assert_eq!(dag.num_qubits(), 2);
    assert_eq!(dag.num_operations(), 4);
}

#[test]
fn test_cyclic_dependency_detection() {
    let mut dag = CircuitDag::new();
    let q0 = LogicalQubitId::new(0);

    let n1 = dag.add_node(h(q0));
    let n2 = dag.add_node(x(q0));

    dag.add_edge(n1, n2).unwrap();

    // the reverse edge would close a cycle
    let result = dag.add_edge(n2, n1);
    assert!(result.is_err());
}

#[test]
fn test_parallel_groups() {
    let mut dag = CircuitDag::new();
    let q0 = LogicalQubitId::new(0);

    // a linear circuit of three gates
    let n1 = dag.add_node(h(q0));
    let n2 = dag.add_node(x(q0));
    let n3 = dag.add_node(z(q0));

    dag.add_edge(n1, n2).unwrap();
    dag.add_edge(n2, n3).unwrap();

    let groups = dag.compute_parallel_groups();
    assert!(!groups.is_empty());
    let total_nodes: usize = groups.iter().map(|g| g.len()).sum();
    assert_eq!(total_nodes, 3);
}

#[test]
fn test_add_edge_out_of_range() {
    let mut dag = CircuitDag::new();
    let q0 = LogicalQubitId::new(0);
    dag.add_node(h(q0));
    let err = dag.add_edge(0, 7).unwrap_err();
    assert!(matches!(err, quantum_ir::IrError::QubitNotFound(_)));
    assert_eq!(dag.num_nodes(), 1);
    assert_eq!(dag.edges().len(), 0);
}

#[test]
fn test_cycle_error_kind_and_unchanged() {
    let mut dag = CircuitDag::new();
    let q0 = LogicalQubitId::new(0);
    let n1 = dag.add_node(h(q0));
    let n2 = dag.add_node(x(q0));
    dag.add_edge(n1, n2).unwrap();
    let err = dag.add_edge(n2, n1).unwrap_err();
    assert!(matches!(err, quantum_ir::IrError::CyclicDependency(_)));
    assert_eq!(dag.edges().len(), 1);
    assert_eq!(dag.num_nodes(), 2);
}

#[test]
fn test_linear_chain_depth_law() {
    // a chain of n nodes has depth n; the empty circuit has depth zero
    let mut empty = CircuitDag::new();
    assert_eq!(empty.depth(), 0);
    let q0 = LogicalQubitId::new(0);
    let mut dag = CircuitDag::new();
    let mut prev = dag.add_node(h(q0));
    for _ in 0..4 {
        let next = dag.add_node(x(q0));
        dag.add_edge(prev, next).unwrap();
        prev = next;
    }
    assert_eq!(dag.depth(), 5);
}

#[test]
fn test_layering_partition_law() {
    // layers cover every node exactly once and respect every edge
    let mut dag = CircuitDag::new();
    let q0 = LogicalQubitId::new(0);
    let q1 = LogicalQubitId::new(1);
    let n1 = dag.add_node(h(q0));
    let n2 = dag.add_node(h(q1));
    let n3 = dag.add_node(cnot(q0, q1));
    dag.add_edge(n1, n3).unwrap();
    dag.add_edge(n2, n3).unwrap();
    let groups = dag.compute_parallel_groups();
    assert_eq!(groups.len(), 2);
    let mut seen = vec![false; 3];
    for g in &groups {
        for &m in g {
            assert!(!seen[m]);
            seen[m] = true;
        }
    }
    assert!(seen.iter().all(|&b| b));
    let layer_of = |node: usize| groups.iter().position(|g| g.contains(&node)).unwrap();
    for &(f, t) in dag.edges() {
        assert!(layer_of(f) < layer_of(t));
    }
    // parallel peers are the other members of the same layer
    assert!(dag.get_node(n1).unwrap().can_parallel_with(n2));
    assert!(!dag.get_node(n1).unwrap().can_parallel_with(n3));
}
