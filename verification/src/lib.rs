//! Quantum-computing intermediate representation and runtime.
//!
//! Quantum programs are directed-acyclic gate graphs ([`circuit::CircuitDag`])
//! over logical qubits ([`qubit::LogicalQubitId`]) carrying operations
//! ([`operation::Operation`]).  Circuits are wrapped in jobs ([`job::Job`]),
//! ordered by a priority- and resource-aware scheduler
//! ([`scheduler::JobScheduler`]) and dispatched by a runtime coordinator
//! ([`runtime::QuantumRuntime`]) to named backends ([`backend`]).

use vstd::prelude::*;

pub mod backend;
pub mod circuit;
pub mod graph;
pub mod job;
pub mod operation;
pub mod qubit;
pub mod runtime;
pub mod scheduler;

pub use backend::BackendAdapter;
pub use backend::BackendCapabilities;
pub use backend::BackendCircuit;
pub use circuit::CircuitDag;
pub use circuit::OperationNode;
pub use job::Job;
pub use job::JobId;
pub use job::JobResult;
pub use scheduler::JobScheduler;
pub use job::JobStatus;
pub use job::Priority;
pub use operation::CustomOp;
pub use operation::Operation;
pub use operation::SingleQubitGate;
pub use operation::TwoQubitGate;
pub use qubit::LogicalQubitId;
pub use qubit::PhysicalQubitId;
pub use qubit::QubitState;
pub use runtime::QuantumRuntime;

verus! {

/// Error taxonomy surfaced by every fallible operation of the crate.
#[derive(Debug)]
pub enum IrError {
    /// A qubit, node index or job id was not found.
    QubitNotFound(String),
    /// A qubit was already allocated.
    QubitAlreadyAllocated(String),
    /// A malformed operation was supplied.
    InvalidOperation(String),
    /// The circuit exceeds the backend's capabilities.
    UnsupportedOperation(String),
    /// The named backend is absent from the registry.
    BackendUnavailable(String),
    /// The backend reported a failure (including an illegal cancel).
    JobExecutionFailed(String),
    /// The requested edge would close a cycle in the DAG.
    CyclicDependency(String),
    /// Reserved: a scheduling conflict.
    SchedulingConflict(String),
    /// Reserved: an operation timed out.
    Timeout(String),
}

impl IrError {
    /// The detail message carried by the error.
    pub open spec fn spec_message(&self) -> Seq<char> {
        match self {
            IrError::QubitNotFound(m) => m@,
            IrError::QubitAlreadyAllocated(m) => m@,
            IrError::InvalidOperation(m) => m@,
            IrError::UnsupportedOperation(m) => m@,
            IrError::BackendUnavailable(m) => m@,
            IrError::JobExecutionFailed(m) => m@,
            IrError::CyclicDependency(m) => m@,
            IrError::SchedulingConflict(m) => m@,
            IrError::Timeout(m) => m@,
        }
    }

    /// The detail message carried by the error.
    pub fn message(&self) -> (r: String)
        ensures
            r@ == self.spec_message(),
    {
        match self {
            IrError::QubitNotFound(m) => m.clone(),
            IrError::QubitAlreadyAllocated(m) => m.clone(),
            IrError::InvalidOperation(m) => m.clone(),
            IrError::UnsupportedOperation(m) => m.clone(),
            IrError::BackendUnavailable(m) => m.clone(),
            IrError::JobExecutionFailed(m) => m.clone(),
            IrError::CyclicDependency(m) => m.clone(),
            IrError::SchedulingConflict(m) => m.clone(),
            IrError::Timeout(m) => m.clone(),
        }
    }
}

impl Clone for IrError {
    fn clone(&self) -> (res: Self)
        ensures
            res == *self,
    {
        match self {
            IrError::QubitNotFound(m) => IrError::QubitNotFound(m.clone()),
            IrError::QubitAlreadyAllocated(m) => IrError::QubitAlreadyAllocated(m.clone()),
            IrError::InvalidOperation(m) => IrError::InvalidOperation(m.clone()),
            IrError::UnsupportedOperation(m) => IrError::UnsupportedOperation(m.clone()),
            IrError::BackendUnavailable(m) => IrError::BackendUnavailable(m.clone()),
            IrError::JobExecutionFailed(m) => IrError::JobExecutionFailed(m.clone()),
            IrError::CyclicDependency(m) => IrError::CyclicDependency(m.clone()),
            IrError::SchedulingConflict(m) => IrError::SchedulingConflict(m.clone()),
            IrError::Timeout(m) => IrError::Timeout(m.clone()),
        }
    }
}

/// A simplified future: polled until it yields a value.
pub trait FutureLike<T> {
    fn poll(&mut self) -> Option<T>;
}

/// Handle for a task whose result arrives later.
#[derive(Debug)]
pub struct AsyncTaskHandle<T> {
    pub id: u64,
    pub completed: bool,
    pub result: Option<T>,
}

impl<T> AsyncTaskHandle<T> {
    pub fn new(id: u64) -> (r: Self)
        ensures
            r.id == id,
            !r.completed,
            r.result is None,
    {
        AsyncTaskHandle { id, completed: false, result: None }
    }

    pub fn is_completed(&self) -> (r: bool)
        ensures
            r == self.completed,
    {
        self.completed
    }

    pub fn set_result(&mut self, result: T)
        ensures
            final(self).id == old(self).id,
            final(self).completed,
            final(self).result == Some(result),
    {
        self.result = Some(result);
        self.completed = true;
    }

    pub fn get_result(&self) -> (r: Option<&T>)
        ensures
            match r {
                Some(v) => self.result == Some(*v),
                None => self.result is None,
            },
    {
        self.result.as_ref()
    }
}

} // verus!
