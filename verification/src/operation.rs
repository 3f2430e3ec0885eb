//! Quantum operations: gates, measurement, reset, barrier and custom
//! operations.
//!
//! Rotation angles are carried as raw 64-bit patterns (the caller supplies
//! the bit representation of its angle); the IR never interprets them.

use vstd::prelude::*;

use crate::qubit::LogicalQubitId;

verus! {

/// A single-qubit gate.  Parametric gates carry the bit pattern of their
/// angle.
#[derive(Debug, Clone, Copy, PartialEq, Eq, Structural)]
pub enum SingleQubitGate {
    X,
    Y,
    Z,
    H,
    S,
    T,
    /// S-dagger.
    Sdg,
    /// T-dagger.
    Tdg,
    Rx(u64),
    Ry(u64),
    Rz(u64),
    P(u64),
    /// General single-qubit gate with three angles.
    U(u64, u64, u64),
}

impl SingleQubitGate {
    /// Stable short name used by backends for capability lookup.
    pub open spec fn spec_name(&self) -> Seq<char> {
        match self {
            SingleQubitGate::X => "X"@,
            SingleQubitGate::Y => "Y"@,
            SingleQubitGate::Z => "Z"@,
            SingleQubitGate::H => "H"@,
            SingleQubitGate::S => "S"@,
            SingleQubitGate::T => "T"@,
            SingleQubitGate::Sdg => "Sdg"@,
            SingleQubitGate::Tdg => "Tdg"@,
            SingleQubitGate::Rx(_) => "Rx"@,
            SingleQubitGate::Ry(_) => "Ry"@,
            SingleQubitGate::Rz(_) => "Rz"@,
            SingleQubitGate::P(_) => "P"@,
            SingleQubitGate::U(_, _, _) => "U"@,
        }
    }

    pub fn name(&self) -> (r: &'static str)
        ensures
            r@ == self.spec_name(),
    {
        match self {
            SingleQubitGate::X => "X",
            SingleQubitGate::Y => "Y",
            SingleQubitGate::Z => "Z",
            SingleQubitGate::H => "H",
            SingleQubitGate::S => "S",
            SingleQubitGate::T => "T",
            SingleQubitGate::Sdg => "Sdg",
            SingleQubitGate::Tdg => "Tdg",
            SingleQubitGate::Rx(_) => "Rx",
            SingleQubitGate::Ry(_) => "Ry",
            SingleQubitGate::Rz(_) => "Rz",
            SingleQubitGate::P(_) => "P",
            SingleQubitGate::U(_, _, _) => "U",
        }
    }

    /// Numeric parameters for parametric gates; empty otherwise.
    pub open spec fn spec_parameters(&self) -> Seq<u64> {
        match self {
            SingleQubitGate::Rx(theta) => seq![*theta],
            SingleQubitGate::Ry(theta) => seq![*theta],
            SingleQubitGate::Rz(theta) => seq![*theta],
            SingleQubitGate::P(phi) => seq![*phi],
            SingleQubitGate::U(theta, phi, lam) => seq![*theta, *phi, *lam],
            _ => Seq::empty(),
        }
    }

    pub fn is_parametric(&self) -> (r: bool)
        ensures
            r == (self.spec_parameters().len() > 0),
    {
        matches!(
            self,
            SingleQubitGate::Rx(_) | SingleQubitGate::Ry(_) | SingleQubitGate::Rz(_)
                | SingleQubitGate::P(_) | SingleQubitGate::U(_, _, _)
        )
    }

    pub fn parameters(&self) -> (r: Vec<u64>)
        ensures
            r@ == self.spec_parameters(),
    {
        let mut r: Vec<u64> = Vec::new();
        match self {
            SingleQubitGate::Rx(theta) => {
                r.push(*theta);
            },
            SingleQubitGate::Ry(theta) => {
                r.push(*theta);
            },
            SingleQubitGate::Rz(theta) => {
                r.push(*theta);
            },
            SingleQubitGate::P(phi) => {
                r.push(*phi);
            },
            SingleQubitGate::U(theta, phi, lam) => {
                r.push(*theta);
                r.push(*phi);
                r.push(*lam);
            },
            _ => {},
        }
        proof {
            assert(r@ =~= self.spec_parameters());
        }
        r
    }
}

/// A two-qubit gate.  Parametric gates carry the bit pattern of their angle.
#[derive(Debug, Clone, Copy, PartialEq, Eq, Structural)]
pub enum TwoQubitGate {
    CNOT,
    CZ,
    SWAP,
    CP(u64),
    ISWAP,
    SqrtSWAP,
    /// Moelmer-Soerensen gate.
    MS(u64),
}

impl TwoQubitGate {
    /// Stable short name used by backends for capability lookup.
    pub open spec fn spec_name(&self) -> Seq<char> {
        match self {
            TwoQubitGate::CNOT => "CNOT"@,
            TwoQubitGate::CZ => "CZ"@,
            TwoQubitGate::SWAP => "SWAP"@,
            TwoQubitGate::CP(_) => "CP"@,
            TwoQubitGate::ISWAP => "iSWAP"@,
            TwoQubitGate::SqrtSWAP => "SqrtSWAP"@,
            TwoQubitGate::MS(_) => "MS"@,
        }
    }

    pub fn name(&self) -> (r: &'static str)
        ensures
            r@ == self.spec_name(),
    {
        match self {
            TwoQubitGate::CNOT => "CNOT",
            TwoQubitGate::CZ => "CZ",
            TwoQubitGate::SWAP => "SWAP",
            TwoQubitGate::CP(_) => "CP",
            TwoQubitGate::ISWAP => "iSWAP",
            TwoQubitGate::SqrtSWAP => "SqrtSWAP",
            TwoQubitGate::MS(_) => "MS",
        }
    }

    /// Numeric parameters for parametric gates; empty otherwise.
    pub open spec fn spec_parameters(&self) -> Seq<u64> {
        match self {
            TwoQubitGate::CP(phi) => seq![*phi],
            TwoQubitGate::MS(theta) => seq![*theta],
            _ => Seq::empty(),
        }
    }

    pub fn is_parametric(&self) -> (r: bool)
        ensures
            r == (self.spec_parameters().len() > 0),
    {
        matches!(self, TwoQubitGate::CP(_) | TwoQubitGate::MS(_))
    }

    pub fn parameters(&self) -> (r: Vec<u64>)
        ensures
            r@ == self.spec_parameters(),
    {
        let mut r: Vec<u64> = Vec::new();
        match self {
            TwoQubitGate::CP(phi) => {
                r.push(*phi);
            },
            TwoQubitGate::MS(theta) => {
                r.push(*theta);
            },
            _ => {},
        }
        proof {
            assert(r@ =~= self.spec_parameters());
        }
        r
    }
}

/// A three-qubit gate.
#[derive(Debug, Clone, Copy, PartialEq, Eq, Structural)]
pub enum ThreeQubitGate {
    /// CCNOT.
    Toffoli,
    /// CSWAP.
    Fredkin,
    CCZ,
}

impl ThreeQubitGate {
    /// Stable short name used by backends for capability lookup.
    pub open spec fn spec_name(&self) -> Seq<char> {
        match self {
            ThreeQubitGate::Toffoli => "Toffoli"@,
            ThreeQubitGate::Fredkin => "Fredkin"@,
            ThreeQubitGate::CCZ => "CCZ"@,
        }
    }

    pub fn name(&self) -> (r: &'static str)
        ensures
            r@ == self.spec_name(),
    {
        match self {
            ThreeQubitGate::Toffoli => "Toffoli",
            ThreeQubitGate::Fredkin => "Fredkin",
            ThreeQubitGate::CCZ => "CCZ",
        }
    }
}

/// Classical outcome of measuring one qubit.
#[derive(Debug, Clone, Copy, PartialEq, Eq, Structural)]
pub enum MeasurementResult {
    Zero,
    One,
}

/// A user-defined operation, described by name, footprint, parameters and
/// free-form metadata.
#[derive(Debug)]
pub struct CustomOp {
    pub name: String,
    pub qubits: Vec<LogicalQubitId>,
    /// Numeric parameters, as 64-bit patterns.
    pub params: Vec<u64>,
    /// String-to-string metadata; keys are unique.
    pub metadata: Vec<(String, String)>,
}

/// Structural sameness of two custom operations, down to the views of their
/// string and list fields.
pub open spec fn custom_op_matches(a: CustomOp, b: CustomOp) -> bool {
    &&& a.name@ == b.name@
    &&& a.qubits@ == b.qubits@
    &&& a.params@ == b.params@
    &&& a.metadata@.len() == b.metadata@.len()
    &&& forall|i: int|
        0 <= i < a.metadata@.len() ==> (#[trigger] a.metadata@[i]).0@ == (
        #[trigger] b.metadata@[i]).0@ && a.metadata@[i].1@ == b.metadata@[i].1@
}

impl Clone for CustomOp {
    fn clone(&self) -> (res: Self)
        ensures
            custom_op_matches(res, *self),
    {
        let qubits = self.qubits.clone();
        let params = self.params.clone();
        proof {
            assert(qubits@ =~= self.qubits@);
            assert(params@ =~= self.params@);
        }
        let mut metadata: Vec<(String, String)> = Vec::new();
        let mut i: usize = 0;
        while i < self.metadata.len()
            invariant
                i <= self.metadata@.len(),
                metadata@.len() == i,
                forall|k: int|
                    0 <= k < i ==> (#[trigger] metadata@[k]).0@ == (
                    #[trigger] self.metadata@[k]).0@ && metadata@[k].1@ == self.metadata@[k].1@,
            decreases self.metadata@.len() - i,
        {
            metadata.push((self.metadata[i].0.clone(), self.metadata[i].1.clone()));
            i = i + 1;
        }
        CustomOp { name: self.name.clone(), qubits, params, metadata }
    }
}

impl CustomOp {
    /// Keys of the metadata table are unique.
    pub open spec fn wf(&self) -> bool {
        forall|i: int, j: int|
            0 <= i < self.metadata@.len() && 0 <= j < self.metadata@.len() && i != j
                ==> (#[trigger] self.metadata@[i]).0@ != (#[trigger] self.metadata@[j]).0@
    }

    pub fn new(name: &str) -> (r: Self)
        ensures
            r.name@ == name@,
            r.qubits@.len() == 0,
            r.params@.len() == 0,
            r.metadata@.len() == 0,
            r.wf(),
    {
        CustomOp {
            name: name.to_owned(),
            qubits: Vec::new(),
            params: Vec::new(),
            metadata: Vec::new(),
        }
    }

    pub fn with_qubits(self, qubits: Vec<LogicalQubitId>) -> (r: Self)
        ensures
            r == (CustomOp { qubits, ..self }),
    {
        CustomOp { qubits, ..self }
    }

    pub fn with_params(self, params: Vec<u64>) -> (r: Self)
        ensures
            r == (CustomOp { params, ..self }),
    {
        CustomOp { params, ..self }
    }

    /// Inserts metadata under `key`, replacing any existing entry.
    pub fn with_metadata(self, key: &str, value: &str) -> (r: Self)
        requires
            self.wf(),
        ensures
            r.wf(),
            r.name@ == self.name@,
            r.qubits@ == self.qubits@,
            r.params@ == self.params@,
            r.metadata@.len() > 0,
            r.metadata@.last().0@ == key@,
            r.metadata@.last().1@ == value@,
            forall|i: int|
                0 <= i < r.metadata@.len() - 1 ==> (#[trigger] r.metadata@[i]).0@ != key@
                    && self.metadata@.contains(r.metadata@[i]),
    {
        let mut s = self;
        let key_string = key.to_owned();
        let mut i: usize = 0;
        let mut found: Option<usize> = None;
        while i < s.metadata.len()
            invariant
                i <= s.metadata@.len(),
                key_string@ == key@,
                match found {
                    Some(f) => f < s.metadata@.len() && s.metadata@[f as int].0@ == key@,
                    None => forall|k: int|
                        0 <= k < i ==> (#[trigger] s.metadata@[k]).0@ != key@,
                },
            decreases s.metadata@.len() - i,
        {
            if found.is_none() {
                let same = s.metadata[i].0 == key_string;
                if same {
                    found = Some(i);
                }
            }
            i = i + 1;
        }
        let ghost pre = s.metadata@;
        if let Some(f) = found {
            s.metadata.remove(f);
            proof {
                assert forall|k: int| 0 <= k < s.metadata@.len() implies (
                #[trigger] s.metadata@[k]).0@ != key@ && pre.contains(s.metadata@[k]) by {
                    if k < f {
                        assert(s.metadata@[k] == pre[k]);
                    } else {
                        assert(s.metadata@[k] == pre[k + 1]);
                    }
                };
            }
        } else {
            proof {
                assert forall|k: int| 0 <= k < s.metadata@.len() implies (
                #[trigger] s.metadata@[k]).0@ != key@ && pre.contains(s.metadata@[k]) by {
                    assert(s.metadata@[k] == pre[k]);
                };
            }
        }
        let ghost mid = s.metadata@;
        s.metadata.push((key_string, value.to_owned()));
        proof {
            assert forall|a: int, b: int|
                0 <= a < s.metadata@.len() && 0 <= b < s.metadata@.len() && a != b implies (
            #[trigger] s.metadata@[a]).0@ != (#[trigger] s.metadata@[b]).0@ by {
                let n = mid.len() as int;
                if a < n && b < n {
                    // survivors come from distinct source slots
                    match found {
                        Some(f) => {
                            let fi = f as int;
                            let a0: int = if a < fi { a } else { a + 1 };
                            let b0: int = if b < fi { b } else { b + 1 };
                            assert(mid[a] == pre[a0]);
                            assert(mid[b] == pre[b0]);
                            assert(pre[a0].0@ != pre[b0].0@);
                        },
                        None => {
                            assert(mid[a] == pre[a]);
                            assert(mid[b] == pre[b]);
                        },
                    }
                }
            };
        }
        s
    }
}

/// One quantum operation: the unified abstraction that circuit nodes carry.
#[derive(Debug)]
pub enum Operation {
    /// A single-qubit gate.
    Gate1 { gate: SingleQubitGate, target: LogicalQubitId },
    /// A two-qubit gate; canonical footprint order is control, target.
    Gate2 { gate: TwoQubitGate, control: LogicalQubitId, target: LogicalQubitId },
    /// A three-qubit gate; canonical order is control 1, control 2, target.
    Gate3 { gate: ThreeQubitGate, controls: [LogicalQubitId; 2], target: LogicalQubitId },
    /// Measurement, optionally into a classical register slot.
    Measure { qubit: LogicalQubitId, classical_reg: Option<usize> },
    /// Reset to the ground state.
    Reset { qubit: LogicalQubitId },
    /// Synchronisation barrier over the given qubits.
    Barrier { qubits: Vec<LogicalQubitId> },
    /// A user-defined operation.
    Custom(CustomOp),
}

/// Structural sameness of two operations, down to the views of their list
/// fields.
pub open spec fn op_matches(a: Operation, b: Operation) -> bool {
    match (a, b) {
        (Operation::Gate1 { gate: g1, target: t1 }, Operation::Gate1 { gate: g2, target: t2 }) => {
            g1 == g2 && t1 == t2
        },
        (
            Operation::Gate2 { gate: g1, control: c1, target: t1 },
            Operation::Gate2 { gate: g2, control: c2, target: t2 },
        ) => g1 == g2 && c1 == c2 && t1 == t2,
        (
            Operation::Gate3 { gate: g1, controls: c1, target: t1 },
            Operation::Gate3 { gate: g2, controls: c2, target: t2 },
        ) => g1 == g2 && c1 == c2 && t1 == t2,
        (
            Operation::Measure { qubit: q1, classical_reg: r1 },
            Operation::Measure { qubit: q2, classical_reg: r2 },
        ) => q1 == q2 && r1 == r2,
        (Operation::Reset { qubit: q1 }, Operation::Reset { qubit: q2 }) => q1 == q2,
        (Operation::Barrier { qubits: q1 }, Operation::Barrier { qubits: q2 }) => q1@ == q2@,
        (Operation::Custom(c1), Operation::Custom(c2)) => custom_op_matches(c1, c2),
        _ => false,
    }
}

impl Clone for Operation {
    fn clone(&self) -> (res: Self)
        ensures
            op_matches(res, *self),
    {
        match self {
            Operation::Gate1 { gate, target } => Operation::Gate1 { gate: *gate, target: *target },
            Operation::Gate2 { gate, control, target } => Operation::Gate2 {
                gate: *gate,
                control: *control,
                target: *target,
            },
            Operation::Gate3 { gate, controls, target } => Operation::Gate3 {
                gate: *gate,
                controls: *controls,
                target: *target,
            },
            Operation::Measure { qubit, classical_reg } => Operation::Measure {
                qubit: *qubit,
                classical_reg: *classical_reg,
            },
            Operation::Reset { qubit } => Operation::Reset { qubit: *qubit },
            Operation::Barrier { qubits } => {
                let qs = qubits.clone();
                proof {
                    assert(qs@ =~= qubits@);
                }
                Operation::Barrier { qubits: qs }
            },
            Operation::Custom(op) => Operation::Custom(op.clone()),
        }
    }
}

impl Operation {
    pub fn gate1(gate: SingleQubitGate, target: LogicalQubitId) -> (r: Self)
        ensures
            r == (Operation::Gate1 { gate, target }),
    {
        Operation::Gate1 { gate, target }
    }

    pub fn gate2(gate: TwoQubitGate, control: LogicalQubitId, target: LogicalQubitId) -> (r: Self)
        ensures
            r == (Operation::Gate2 { gate, control, target }),
    {
        Operation::Gate2 { gate, control, target }
    }

    pub fn gate3(
        gate: ThreeQubitGate,
        control1: LogicalQubitId,
        control2: LogicalQubitId,
        target: LogicalQubitId,
    ) -> (r: Self)
        ensures
            r matches Operation::Gate3 { gate: g, controls, target: t } && g == gate && t == target
                && controls@ == seq![control1, control2],
    {
        let controls = [control1, control2];
        proof {
            assert(controls@ =~= seq![control1, control2]);
        }
        Operation::Gate3 { gate, controls, target }
    }

    pub fn measure(qubit: LogicalQubitId) -> (r: Self)
        ensures
            r == (Operation::Measure { qubit, classical_reg: None }),
    {
        Operation::Measure { qubit, classical_reg: None }
    }

    pub fn measure_to(qubit: LogicalQubitId, classical_reg: usize) -> (r: Self)
        ensures
            r == (Operation::Measure { qubit, classical_reg: Some(classical_reg) }),
    {
        Operation::Measure { qubit, classical_reg: Some(classical_reg) }
    }

    pub fn reset(qubit: LogicalQubitId) -> (r: Self)
        ensures
            r == (Operation::Reset { qubit }),
    {
        Operation::Reset { qubit }
    }

    pub fn barrier(qubits: Vec<LogicalQubitId>) -> (r: Self)
        ensures
            r == (Operation::Barrier { qubits }),
    {
        Operation::Barrier { qubits }
    }

    /// The qubit footprint: every logical qubit the operation touches, in
    /// canonical order.
    pub open spec fn spec_qubits(&self) -> Seq<LogicalQubitId> {
        match self {
            Operation::Gate1 { target, .. } => seq![*target],
            Operation::Gate2 { control, target, .. } => seq![*control, *target],
            Operation::Gate3 { controls, target, .. } => seq![controls@[0], controls@[1], *target],
            Operation::Measure { qubit, .. } => seq![*qubit],
            Operation::Reset { qubit } => seq![*qubit],
            Operation::Barrier { qubits } => qubits@,
            Operation::Custom(op) => op.qubits@,
        }
    }

    /// The qubit footprint, as a fresh list.
    pub fn qubits(&self) -> (r: Vec<LogicalQubitId>)
        ensures
            r@ == self.spec_qubits(),
    {
        match self {
            Operation::Gate1 { target, .. } => {
                let mut r: Vec<LogicalQubitId> = Vec::new();
                r.push(*target);
                proof {
                    assert(r@ =~= self.spec_qubits());
                }
                r
            },
            Operation::Gate2 { control, target, .. } => {
                let mut r: Vec<LogicalQubitId> = Vec::new();
                r.push(*control);
                r.push(*target);
                proof {
                    assert(r@ =~= self.spec_qubits());
                }
                r
            },
            Operation::Gate3 { controls, target, .. } => {
                let mut r: Vec<LogicalQubitId> = Vec::new();
                r.push(controls[0]);
                r.push(controls[1]);
                r.push(*target);
                proof {
                    assert(r@ =~= self.spec_qubits());
                }
                r
            },
            Operation::Measure { qubit, .. } => {
                let mut r: Vec<LogicalQubitId> = Vec::new();
                r.push(*qubit);
                proof {
                    assert(r@ =~= self.spec_qubits());
                }
                r
            },
            Operation::Reset { qubit } => {
                let mut r: Vec<LogicalQubitId> = Vec::new();
                r.push(*qubit);
                proof {
                    assert(r@ =~= self.spec_qubits());
                }
                r
            },
            Operation::Barrier { qubits } => {
                let r = qubits.clone();
                proof {
                    assert(r@ =~= qubits@);
                }
                r
            },
            Operation::Custom(op) => {
                let r = op.qubits.clone();
                proof {
                    assert(r@ =~= op.qubits@);
                }
                r
            },
        }
    }

    /// Stable short name used by backends for capability lookup.
    pub open spec fn spec_name(&self) -> Seq<char> {
        match self {
            Operation::Gate1 { gate, .. } => gate.spec_name(),
            Operation::Gate2 { gate, .. } => gate.spec_name(),
            Operation::Gate3 { gate, .. } => gate.spec_name(),
            Operation::Measure { .. } => "M"@,
            Operation::Reset { .. } => "Reset"@,
            Operation::Barrier { .. } => "Barrier"@,
            Operation::Custom(op) => op.name@,
        }
    }

    pub fn name(&self) -> (r: &str)
        ensures
            r@ == self.spec_name(),
    {
        match self {
            Operation::Gate1 { gate, .. } => gate.name(),
            Operation::Gate2 { gate, .. } => gate.name(),
            Operation::Gate3 { gate, .. } => gate.name(),
            Operation::Measure { .. } => "M",
            Operation::Reset { .. } => "Reset",
            Operation::Barrier { .. } => "Barrier",
            Operation::Custom(op) => op.name.as_str(),
        }
    }

    /// Numeric parameters of the operation, as 64-bit patterns.
    pub open spec fn spec_parameters(&self) -> Seq<u64> {
        match self {
            Operation::Gate1 { gate, .. } => gate.spec_parameters(),
            Operation::Gate2 { gate, .. } => gate.spec_parameters(),
            Operation::Custom(op) => op.params@,
            _ => Seq::empty(),
        }
    }

    pub fn parameters(&self) -> (r: Vec<u64>)
        ensures
            r@ == self.spec_parameters(),
    {
        match self {
            Operation::Gate1 { gate, .. } => gate.parameters(),
            Operation::Gate2 { gate, .. } => gate.parameters(),
            Operation::Custom(op) => {
                let r = op.params.clone();
                proof {
                    assert(r@ =~= op.params@);
                }
                r
            },
            _ => {
                let r: Vec<u64> = Vec::new();
                proof {
                    assert(r@ =~= self.spec_parameters());
                }
                r
            },
        }
    }

    pub fn is_measurement(&self) -> (r: bool)
        ensures
            r == (*self is Measure),
    {
        matches!(self, Operation::Measure { .. })
    }

    pub fn is_barrier(&self) -> (r: bool)
        ensures
            r == (*self is Barrier),
    {
        matches!(self, Operation::Barrier { .. })
    }

    pub fn is_reset(&self) -> (r: bool)
        ensures
            r == (*self is Reset),
    {
        matches!(self, Operation::Reset { .. })
    }

    pub fn is_custom(&self) -> (r: bool)
        ensures
            r == (*self is Custom),
    {
        matches!(self, Operation::Custom(_))
    }
}

/// Pauli-X on `qubit`.
pub fn x(qubit: LogicalQubitId) -> (r: Operation)
    ensures
        r == (Operation::Gate1 { gate: SingleQubitGate::X, target: qubit }),
{
    Operation::gate1(SingleQubitGate::X, qubit)
}

/// Pauli-Y on `qubit`.
pub fn y(qubit: LogicalQubitId) -> (r: Operation)
    ensures
        r == (Operation::Gate1 { gate: SingleQubitGate::Y, target: qubit }),
{
    Operation::gate1(SingleQubitGate::Y, qubit)
}

/// Pauli-Z on `qubit`.
pub fn z(qubit: LogicalQubitId) -> (r: Operation)
    ensures
        r == (Operation::Gate1 { gate: SingleQubitGate::Z, target: qubit }),
{
    Operation::gate1(SingleQubitGate::Z, qubit)
}

/// Hadamard on `qubit`.
pub fn h(qubit: LogicalQubitId) -> (r: Operation)
    ensures
        r == (Operation::Gate1 { gate: SingleQubitGate::H, target: qubit }),
{
    Operation::gate1(SingleQubitGate::H, qubit)
}

/// Phase gate S on `qubit`.
pub fn s(qubit: LogicalQubitId) -> (r: Operation)
    ensures
        r == (Operation::Gate1 { gate: SingleQubitGate::S, target: qubit }),
{
    Operation::gate1(SingleQubitGate::S, qubit)
}

/// Phase gate T on `qubit`.
pub fn t(qubit: LogicalQubitId) -> (r: Operation)
    ensures
        r == (Operation::Gate1 { gate: SingleQubitGate::T, target: qubit }),
{
    Operation::gate1(SingleQubitGate::T, qubit)
}

/// X-rotation by the angle whose bit pattern is `theta_bits`.
pub fn rx(qubit: LogicalQubitId, theta_bits: u64) -> (r: Operation)
    ensures
        r == (Operation::Gate1 { gate: SingleQubitGate::Rx(theta_bits), target: qubit }),
{
    Operation::gate1(SingleQubitGate::Rx(theta_bits), qubit)
}

/// Y-rotation by the angle whose bit pattern is `theta_bits`.
pub fn ry(qubit: LogicalQubitId, theta_bits: u64) -> (r: Operation)
    ensures
        r == (Operation::Gate1 { gate: SingleQubitGate::Ry(theta_bits), target: qubit }),
{
    Operation::gate1(SingleQubitGate::Ry(theta_bits), qubit)
}

/// Z-rotation by the angle whose bit pattern is `theta_bits`.
pub fn rz(qubit: LogicalQubitId, theta_bits: u64) -> (r: Operation)
    ensures
        r == (Operation::Gate1 { gate: SingleQubitGate::Rz(theta_bits), target: qubit }),
{
    Operation::gate1(SingleQubitGate::Rz(theta_bits), qubit)
}

/// Controlled-NOT with the given control and target.
pub fn cnot(control: LogicalQubitId, target: LogicalQubitId) -> (r: Operation)
    ensures
        r == (Operation::Gate2 { gate: TwoQubitGate::CNOT, control, target }),
{
    Operation::gate2(TwoQubitGate::CNOT, control, target)
}

/// Controlled-Z with the given control and target.
pub fn cz(control: LogicalQubitId, target: LogicalQubitId) -> (r: Operation)
    ensures
        r == (Operation::Gate2 { gate: TwoQubitGate::CZ, control, target }),
{
    Operation::gate2(TwoQubitGate::CZ, control, target)
}

/// SWAP of the two qubits.
pub fn swap(q1: LogicalQubitId, q2: LogicalQubitId) -> (r: Operation)
    ensures
        r == (Operation::Gate2 { gate: TwoQubitGate::SWAP, control: q1, target: q2 }),
{
    Operation::gate2(TwoQubitGate::SWAP, q1, q2)
}

/// Toffoli with controls `c1`, `c2` and target `tgt`.
pub fn toffoli(c1: LogicalQubitId, c2: LogicalQubitId, tgt: LogicalQubitId) -> (r: Operation)
    ensures
        r matches Operation::Gate3 { gate, controls, target } && gate == ThreeQubitGate::Toffoli
            && controls@ == seq![c1, c2] && target == tgt,
{
    Operation::gate3(ThreeQubitGate::Toffoli, c1, c2, tgt)
}

/// Measurement of `qubit`.
pub fn measure(qubit: LogicalQubitId) -> (r: Operation)
    ensures
        r == (Operation::Measure { qubit, classical_reg: None }),
{
    Operation::measure(qubit)
}

} // verus!
