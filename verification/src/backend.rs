//! Backend adapters: capability descriptions, circuit validation against
//! capabilities, and two in-memory simulator adapters.
//!
//! Error rates are carried in parts per million and decoherence times in
//! whole nanoseconds, `None` standing for an unbounded time.

use vstd::prelude::*;

use crate::IrError;
use crate::circuit::CircuitDag;
use crate::circuit::circuit_qubits;
use crate::job::Job;
use crate::job::JobId;
use crate::job::JobResult;
use crate::job::JobStatus;
use crate::job::result_matches;
use crate::qubit::QubitMapping;

verus! {

/// Kind of execution backend.
#[derive(Debug, Clone, Copy, PartialEq, Eq, Structural)]
pub enum BackendType {
    IdealSimulator,
    NoiseSimulator,
    Superconducting,
    IonTrap,
    Photonic,
    NeutralAtom,
    Custom,
}

/// Device topology: the set of directed qubit pairs that support a two-qubit
/// gate.
#[derive(Debug)]
pub struct CouplingMap {
    pub edges: Vec<(usize, usize)>,
}

impl Clone for CouplingMap {
    fn clone(&self) -> (res: Self)
        ensures
            res.edges@ == self.edges@,
    {
        let mut edges: Vec<(usize, usize)> = Vec::new();
        let mut i: usize = 0;
        while i < self.edges.len()
            invariant
                i <= self.edges@.len(),
                edges@ == self.edges@.take(i as int),
            decreases self.edges@.len() - i,
        {
            edges.push((self.edges[i].0, self.edges[i].1));
            proof {
                assert(self.edges@[i as int] == (self.edges@[i as int].0, self.edges@[i as int].1));
                assert(self.edges@.take(i + 1) == self.edges@.take(i as int).push(
                    self.edges@[i as int],
                ));
            }
            i = i + 1;
        }
        proof {
            assert(self.edges@.take(self.edges@.len() as int) == self.edges@);
        }
        CouplingMap { edges }
    }
}

impl CouplingMap {
    pub fn new(edges: Vec<(usize, usize)>) -> (r: Self)
        ensures
            r.edges@ == edges@,
    {
        CouplingMap { edges }
    }

    /// All ordered pairs of distinct qubits below `n`.
    pub fn fully_connected(n: usize) -> (r: Self)
        ensures
            r.edges@.no_duplicates(),
            forall|a: usize, b: usize|
                #[trigger] r.edges@.contains((a, b)) <==> ((a as int) < n && (b as int) < n && a
                    != b),
    {
        let mut edges: Vec<(usize, usize)> = Vec::new();
        let mut i: usize = 0;
        while i < n
            invariant
                i <= n,
                edges@.no_duplicates(),
                forall|a: usize, b: usize|
                    #[trigger] edges@.contains((a, b)) <==> ((a as int) < i && (b as int) < n && a
                        != b),
            decreases n - i,
        {
            let mut j: usize = 0;
            while j < n
                invariant
                    i < n,
                    j <= n,
                    edges@.no_duplicates(),
                    forall|a: usize, b: usize|
                        #[trigger] edges@.contains((a, b)) <==> (((a as int) < i && (b as int) < n
                            && a != b) || (a == i && (b as int) < j && a != b)),
                decreases n - j,
            {
                if i != j {
                    let ghost pre = edges@;
                    edges.push((i, j));
                    proof {
                        assert(edges@.last() == (i, j));
                        assert(!pre.contains((i, j)));
                        assert forall|x: int, y: int|
                            0 <= x < edges@.len() && 0 <= y < edges@.len() && x != y implies (
                        #[trigger] edges@[x]) != (#[trigger] edges@[y]) by {
                            let n2 = pre.len() as int;
                            if x < n2 && y < n2 {
                            } else if x == n2 {
                                assert(edges@[y] == pre[y]);
                                assert(pre.contains(pre[y]));
                            } else {
                                assert(edges@[x] == pre[x]);
                                assert(pre.contains(pre[x]));
                            }
                        };
                        assert forall|a: usize, b: usize| #[trigger] edges@.contains(
                            (a, b),
                        ) implies (((a as int) < i && (b as int) < n && a != b) || (a == i && (
                        b as int) < j + 1 && a != b)) by {
                            let w = choose|w: int| 0 <= w < edges@.len() && edges@[w] == (a, b);
                            if w < pre.len() {
                                assert(pre.contains((a, b)));
                            }
                        };
                        assert forall|a: usize, b: usize|
                            (((a as int) < i && (b as int) < n && a != b) || (a == i && (b as int)
                                < j + 1 && a != b)) implies #[trigger] edges@.contains(
                            (a, b),
                        ) by {
                            if ((a as int) < i && (b as int) < n && a != b) || (a == i && (
                            b as int) < j && a != b) {
                                assert(pre.contains((a, b)));
                                let w = choose|w: int| 0 <= w < pre.len() && pre[w] == (a, b);
                                assert(edges@[w] == (a, b));
                            } else {
                                assert(a == i && b == j);
                                assert(edges@.last() == (a, b));
                            }
                        };
                    }
                } else {
                    proof {
                        assert forall|a: usize, b: usize|
                            (((a as int) < i && (b as int) < n && a != b) || (a == i && (b as int)
                                < j + 1 && a != b)) implies #[trigger] edges@.contains(
                            (a, b),
                        ) by {
                            if a == i && b == j {
                                assert(false);
                            }
                        };
                    }
                }
                j = j + 1;
            }
            i = i + 1;
        }
        CouplingMap { edges }
    }

    /// A bidirectional nearest-neighbour chain over `n` qubits.
    pub fn linear_chain(n: usize) -> (r: Self)
        requires
            n >= 1,
        ensures
            forall|a: usize, b: usize|
                #[trigger] r.edges@.contains((a, b)) <==> ((b as int) < n && (a as int) < n && (
                a + 1 == b || b + 1 == a)),
    {
        let mut edges: Vec<(usize, usize)> = Vec::new();
        let mut i: usize = 0;
        while i < n - 1
            invariant
                n >= 1,
                i <= n - 1,
                forall|a: usize, b: usize|
                    #[trigger] edges@.contains((a, b)) <==> ((a as int) < i && (b as int) < n && (
                    a + 1 == b || b + 1 == a) || ((b as int) < i && (a as int) < n && (a + 1 == b
                        || b + 1 == a))),
            decreases n - 1 - i,
        {
            let ghost pre = edges@;
            edges.push((i, i + 1));
            edges.push((i + 1, i));
            proof {
                assert(edges@[edges@.len() - 2] == (i, (i + 1) as usize));
                assert(edges@[edges@.len() - 1] == (((i + 1) as usize), i));
                assert forall|a: usize, b: usize| #[trigger] edges@.contains((a, b)) implies ((
                a as int) < i + 1 && (b as int) < n && (a + 1 == b || b + 1 == a) || ((b as int) < i
                    + 1 && (a as int) < n && (a + 1 == b || b + 1 == a))) by {
                    let w = choose|w: int| 0 <= w < edges@.len() && edges@[w] == (a, b);
                    if w < pre.len() {
                        assert(pre.contains((a, b)));
                    }
                };
                assert forall|a: usize, b: usize|
                    ((a as int) < i + 1 && (b as int) < n && (a + 1 == b || b + 1 == a) || ((
                    b as int) < i + 1 && (a as int) < n && (a + 1 == b || b + 1 == a))) implies
                    #[trigger] edges@.contains((a, b)) by {
                    if ((a as int) < i && (b as int) < n && (a + 1 == b || b + 1 == a) || ((
                    b as int) < i && (a as int) < n && (a + 1 == b || b + 1 == a))) {
                        assert(pre.contains((a, b)));
                        let w = choose|w: int| 0 <= w < pre.len() && pre[w] == (a, b);
                        assert(edges@[w] == (a, b));
                    } else {
                        if a as int == i as int {
                            assert(b == i + 1);
                            assert(edges@[edges@.len() - 2] == (a, b));
                        } else {
                            assert(b as int == i as int && a == i + 1);
                            assert(edges@[edges@.len() - 1] == (a, b));
                        }
                    }
                };
            }
            i = i + 1;
        }
        CouplingMap { edges }
    }

    /// Whether a two-qubit gate between `q1` and `q2` is supported, in either
    /// direction.
    pub fn allows_connection(&self, q1: usize, q2: usize) -> (r: bool)
        ensures
            r == (self.edges@.contains((q1, q2)) || self.edges@.contains((q2, q1))),
    {
        let mut i: usize = 0;
        while i < self.edges.len()
            invariant
                i <= self.edges@.len(),
                forall|k: int|
                    0 <= k < i ==> (#[trigger] self.edges@[k]) != (q1, q2) && self.edges@[k] != (
                    q2,
                    q1,
                ),
            decreases self.edges@.len() - i,
        {
            let e = (self.edges[i].0, self.edges[i].1);
            proof {
                assert(self.edges@[i as int] == e);
            }
            if (e.0 == q1 && e.1 == q2) || (e.0 == q2 && e.1 == q1) {
                proof {
                    assert(self.edges@.contains(e));
                }
                return true;
            }
            i = i + 1;
        }
        proof {
            if self.edges@.contains((q1, q2)) {
                let w = choose|w: int| 0 <= w < self.edges@.len() && self.edges@[w] == (q1, q2);
            }
            if self.edges@.contains((q2, q1)) {
                let w = choose|w: int| 0 <= w < self.edges@.len() && self.edges@[w] == (q2, q1);
            }
        }
        false
    }
}

/// Noise description: gate and measurement error rates in parts per million,
/// decoherence times in nanoseconds (`None` = unbounded).
#[derive(Debug, Clone, Copy, PartialEq, Eq, Structural)]
pub struct ErrorModel {
    pub single_qubit_error_ppm: u64,
    pub two_qubit_error_ppm: u64,
    pub measurement_error_ppm: u64,
    pub t1_time_ns: Option<u64>,
    pub t2_time_ns: Option<u64>,
}

impl ErrorModel {
    pub fn new(
        single_qubit_error_ppm: u64,
        two_qubit_error_ppm: u64,
        measurement_error_ppm: u64,
        t1_time_ns: Option<u64>,
        t2_time_ns: Option<u64>,
    ) -> (r: Self)
        ensures
            r == (ErrorModel {
                single_qubit_error_ppm,
                two_qubit_error_ppm,
                measurement_error_ppm,
                t1_time_ns,
                t2_time_ns,
            }),
    {
        ErrorModel {
            single_qubit_error_ppm,
            two_qubit_error_ppm,
            measurement_error_ppm,
            t1_time_ns,
            t2_time_ns,
        }
    }

    /// No errors, unbounded coherence.
    pub fn ideal() -> (r: Self)
        ensures
            r.single_qubit_error_ppm == 0,
            r.two_qubit_error_ppm == 0,
            r.measurement_error_ppm == 0,
            r.t1_time_ns is None,
            r.t2_time_ns is None,
    {
        ErrorModel {
            single_qubit_error_ppm: 0,
            two_qubit_error_ppm: 0,
            measurement_error_ppm: 0,
            t1_time_ns: None,
            t2_time_ns: None,
        }
    }
}

/// What a backend can execute.
#[derive(Debug)]
pub struct BackendCapabilities {
    pub name: String,
    pub version: String,
    pub backend_type: BackendType,
    /// Number of qubits the backend offers.
    pub num_qubits: usize,
    pub supported_1q_gates: Vec<String>,
    pub supported_2q_gates: Vec<String>,
    pub supported_3q_gates: Vec<String>,
    pub supports_measurement: bool,
    pub supports_reset: bool,
    pub supports_barrier: bool,
    pub supports_custom: bool,
    pub max_shots: u32,
    pub native_gates: Vec<String>,
    pub coupling_map: Option<CouplingMap>,
    pub error_model: Option<ErrorModel>,
}

/// Pushes each name of `names` onto a fresh list.
fn gate_list(names: &[&str]) -> (r: Vec<String>)
    ensures
        r@.len() == names@.len(),
        forall|i: int| 0 <= i < names@.len() ==> (#[trigger] r@[i])@ == (#[trigger] names@[i])@,
{
    let mut r: Vec<String> = Vec::new();
    let mut i: usize = 0;
    while i < names.len()
        invariant
            i <= names@.len(),
            r@.len() == i,
            forall|k: int| 0 <= k < i ==> (#[trigger] r@[k])@ == (#[trigger] names@[k])@,
        decreases names@.len() - i,
    {
        r.push(names[i].to_owned());
        i = i + 1;
    }
    r
}

impl Clone for BackendCapabilities {
    fn clone(&self) -> (res: Self)
        ensures
            res.name@ == self.name@,
            res.version@ == self.version@,
            res.backend_type == self.backend_type,
            res.num_qubits == self.num_qubits,
            res.supported_1q_gates@.len() == self.supported_1q_gates@.len(),
            forall|i: int|
                0 <= i < self.supported_1q_gates@.len() ==> (
                #[trigger] res.supported_1q_gates@[i])@ == (
                #[trigger] self.supported_1q_gates@[i])@,
            res.supported_2q_gates@.len() == self.supported_2q_gates@.len(),
            forall|i: int|
                0 <= i < self.supported_2q_gates@.len() ==> (
                #[trigger] res.supported_2q_gates@[i])@ == (
                #[trigger] self.supported_2q_gates@[i])@,
            res.supported_3q_gates@.len() == self.supported_3q_gates@.len(),
            forall|i: int|
                0 <= i < self.supported_3q_gates@.len() ==> (
                #[trigger] res.supported_3q_gates@[i])@ == (
                #[trigger] self.supported_3q_gates@[i])@,
            res.supports_measurement == self.supports_measurement,
            res.supports_reset == self.supports_reset,
            res.supports_barrier == self.supports_barrier,
            res.supports_custom == self.supports_custom,
            res.max_shots == self.max_shots,
            match (res.coupling_map, self.coupling_map) {
                (Some(a), Some(b)) => a.edges@ == b.edges@,
                (None, None) => true,
                _ => false,
            },
            res.error_model == self.error_model,
    {
        let mut s1: Vec<String> = Vec::new();
        let mut i: usize = 0;
        while i < self.supported_1q_gates.len()
            invariant
                i <= self.supported_1q_gates@.len(),
                s1@.len() == i,
                forall|k: int|
                    0 <= k < i ==> (#[trigger] s1@[k])@ == (
                    #[trigger] self.supported_1q_gates@[k])@,
            decreases self.supported_1q_gates@.len() - i,
        {
            s1.push(self.supported_1q_gates[i].clone());
            i = i + 1;
        }
        let mut s2: Vec<String> = Vec::new();
        let mut i2: usize = 0;
        while i2 < self.supported_2q_gates.len()
            invariant
                i2 <= self.supported_2q_gates@.len(),
                s2@.len() == i2,
                forall|k: int|
                    0 <= k < i2 ==> (#[trigger] s2@[k])@ == (
                    #[trigger] self.supported_2q_gates@[k])@,
            decreases self.supported_2q_gates@.len() - i2,
        {
            s2.push(self.supported_2q_gates[i2].clone());
            i2 = i2 + 1;
        }
        let mut s3: Vec<String> = Vec::new();
        let mut i3: usize = 0;
        while i3 < self.supported_3q_gates.len()
            invariant
                i3 <= self.supported_3q_gates@.len(),
                s3@.len() == i3,
                forall|k: int|
                    0 <= k < i3 ==> (#[trigger] s3@[k])@ == (
                    #[trigger] self.supported_3q_gates@[k])@,
            decreases self.supported_3q_gates@.len() - i3,
        {
            s3.push(self.supported_3q_gates[i3].clone());
            i3 = i3 + 1;
        }
        let mut ng: Vec<String> = Vec::new();
        let mut i4: usize = 0;
        while i4 < self.native_gates.len()
            invariant
                i4 <= self.native_gates@.len(),
                ng@.len() == i4,
                forall|k: int|
                    0 <= k < i4 ==> (#[trigger] ng@[k])@ == (#[trigger] self.native_gates@[k])@,
            decreases self.native_gates@.len() - i4,
        {
            ng.push(self.native_gates[i4].clone());
            i4 = i4 + 1;
        }
        let coupling_map = match &self.coupling_map {
            Some(m) => Some(m.clone()),
            None => None,
        };
        BackendCapabilities {
            name: self.name.clone(),
            version: self.version.clone(),
            backend_type: self.backend_type,
            num_qubits: self.num_qubits,
            supported_1q_gates: s1,
            supported_2q_gates: s2,
            supported_3q_gates: s3,
            supports_measurement: self.supports_measurement,
            supports_reset: self.supports_reset,
            supports_barrier: self.supports_barrier,
            supports_custom: self.supports_custom,
            max_shots: self.max_shots,
            native_gates: ng,
            coupling_map,
            error_model: self.error_model,
        }
    }
}

impl BackendCapabilities {
    /// The capability sheet of an ideal 32-qubit simulator.
    pub fn ideal_simulator() -> (r: Self)
        ensures
            r.backend_type == BackendType::IdealSimulator,
            r.num_qubits == 32,
            r.supports_measurement,
            r.supports_reset,
            r.supports_barrier,
            r.supports_custom,
            r.max_shots == 1000000,
            r.coupling_map is Some,
            r.error_model matches Some(m) && m.single_qubit_error_ppm == 0,
            exists|i: int|
                0 <= i < r.supported_1q_gates@.len() && (#[trigger] r.supported_1q_gates@[i])@
                    == "H"@,
    {
        let supported_1q = gate_list(&["X", "Y", "Z", "H", "S", "T", "Rx", "Ry", "Rz", "U"]);
        proof {
            assert(supported_1q@[3]@ == "H"@);
        }
        let caps = BackendCapabilities {
            name: "Ideal Simulator".to_owned(),
            version: "1.0.0".to_owned(),
            backend_type: BackendType::IdealSimulator,
            num_qubits: 32,
            supported_1q_gates: supported_1q,
            supported_2q_gates: gate_list(&["CNOT", "CZ", "SWAP", "CP", "iSWAP"]),
            supported_3q_gates: gate_list(&["Toffoli", "Fredkin"]),
            supports_measurement: true,
            supports_reset: true,
            supports_barrier: true,
            supports_custom: true,
            max_shots: 1000000,
            native_gates: gate_list(&["X", "Y", "Z", "H", "S", "T", "CNOT", "Rx", "Ry", "Rz"]),
            coupling_map: Some(CouplingMap::fully_connected(32)),
            error_model: Some(ErrorModel::ideal()),
        };
        proof {
            assert(caps.supported_1q_gates@[3]@ == "H"@);
        }
        caps
    }

    /// The capability sheet of a noisy linear-chain device.
    pub fn nisq_device() -> (r: Self)
        ensures
            r.backend_type == BackendType::Superconducting,
            r.num_qubits == 100,
            r.supports_measurement,
            !r.supports_custom,
            r.max_shots == 10000,
            r.coupling_map is Some,
            r.error_model matches Some(m) && m.single_qubit_error_ppm == 1000
                && m.two_qubit_error_ppm == 10000 && m.measurement_error_ppm == 20000,
    {
        BackendCapabilities {
            name: "NISQ Device".to_owned(),
            version: "1.0.0".to_owned(),
            backend_type: BackendType::Superconducting,
            num_qubits: 100,
            supported_1q_gates: gate_list(&["X", "Y", "Z", "H", "S", "T", "Rx", "Ry", "Rz"]),
            supported_2q_gates: gate_list(&["CNOT", "CZ", "SWAP"]),
            supported_3q_gates: gate_list(&["Toffoli"]),
            supports_measurement: true,
            supports_reset: true,
            supports_barrier: true,
            supports_custom: false,
            max_shots: 10000,
            native_gates: gate_list(&["X", "Y", "Z", "H", "S", "T", "CNOT", "Rz"]),
            coupling_map: Some(CouplingMap::linear_chain(100)),
            error_model: Some(
                ErrorModel::new(1000, 10000, 20000, Some(100000), Some(50000)),
            ),
        }
    }

    /// Whether a gate of the given name is supported.
    pub fn supports_gate(&self, gate_name: &str) -> (r: bool)
        ensures
            r == ((exists|i: int|
                0 <= i < self.supported_1q_gates@.len() && (
                #[trigger] self.supported_1q_gates@[i])@ == gate_name@) || (exists|i: int|
                0 <= i < self.supported_2q_gates@.len() && (
                #[trigger] self.supported_2q_gates@[i])@ == gate_name@) || (exists|i: int|
                0 <= i < self.supported_3q_gates@.len() && (
                #[trigger] self.supported_3q_gates@[i])@ == gate_name@)),
    {
        let name = gate_name.to_owned();
        if string_list_contains(&self.supported_1q_gates, &name) {
            return true;
        }
        if string_list_contains(&self.supported_2q_gates, &name) {
            return true;
        }
        string_list_contains(&self.supported_3q_gates, &name)
    }
}

/// Whether some entry of `v` has the same characters as `s`.
fn string_list_contains(v: &Vec<String>, s: &String) -> (r: bool)
    ensures
        r == exists|i: int| 0 <= i < v@.len() && (#[trigger] v@[i])@ == s@,
{
    let mut i: usize = 0;
    while i < v.len()
        invariant
            i <= v@.len(),
            forall|k: int| 0 <= k < i ==> (#[trigger] v@[k])@ != s@,
        decreases v@.len() - i,
    {
        if v[i] == *s {
            return true;
        }
        i = i + 1;
    }
    false
}

/// A circuit translated into a backend-specific byte form.
#[derive(Debug)]
pub struct BackendCircuit {
    pub backend_name: String,
    /// Backend-specific circuit encoding.
    pub data: Vec<u8>,
    pub metadata: Vec<(String, String)>,
    pub qubit_mapping: QubitMapping,
}

impl BackendCircuit {
    pub fn new(backend_name: &str) -> (r: Self)
        ensures
            r.backend_name@ == backend_name@,
            r.data@.len() == 0,
            r.metadata@.len() == 0,
            r.qubit_mapping.pairs@.len() == 0,
    {
        BackendCircuit {
            backend_name: backend_name.to_owned(),
            data: Vec::new(),
            metadata: Vec::new(),
            qubit_mapping: QubitMapping::new(),
        }
    }

    pub fn with_data(backend_name: &str, data: Vec<u8>) -> (r: Self)
        ensures
            r.backend_name@ == backend_name@,
            r.data@ == data@,
            r.metadata@.len() == 0,
            r.qubit_mapping.pairs@.len() == 0,
    {
        BackendCircuit {
            backend_name: backend_name.to_owned(),
            data,
            metadata: Vec::new(),
            qubit_mapping: QubitMapping::new(),
        }
    }

    pub fn with_mapping(backend_name: &str, mapping: QubitMapping) -> (r: Self)
        ensures
            r.backend_name@ == backend_name@,
            r.data@.len() == 0,
            r.metadata@.len() == 0,
            r.qubit_mapping == mapping,
    {
        BackendCircuit {
            backend_name: backend_name.to_owned(),
            data: Vec::new(),
            metadata: Vec::new(),
            qubit_mapping: mapping,
        }
    }
}

/// Validates a circuit against a capability sheet: the circuit may not use
/// more qubits than the backend offers, and when a coupling map is declared,
/// every two-qubit gate must sit on a connected pair.
pub open spec fn spec_circuit_fits(caps: BackendCapabilities, circuit: CircuitDag) -> bool {
    &&& circuit_qubits(circuit).len() <= caps.num_qubits
    &&& match caps.coupling_map {
        Some(map) => forall|i: int|
            0 <= i < circuit.nodes@.len() ==> match (#[trigger] circuit.nodes@[i]).op {
                crate::operation::Operation::Gate2 { control, target, .. } => map.edges@.contains(
                    (((control.0 as usize)), ((target.0 as usize))),
                ) || map.edges@.contains((((target.0 as usize)), ((control.0 as usize)))),
                _ => true,
            },
        None => true,
    }
}

/// Checks `spec_circuit_fits`, reporting an `UnsupportedOperation` error
/// exactly when the circuit does not fit.
pub fn validate_circuit_caps(caps: &BackendCapabilities, circuit: &CircuitDag) -> (r: Result<
    (),
    IrError,
>)
    ensures
        r is Ok <==> spec_circuit_fits(*caps, *circuit),
        r matches Err(e) ==> e is UnsupportedOperation,
{
    let used = circuit.num_qubits();
    if used > caps.num_qubits {
        return Err(
            IrError::UnsupportedOperation("circuit uses more qubits than the backend offers".to_owned()),
        );
    }
    if let Some(map) = &caps.coupling_map {
        let mut i: usize = 0;
        while i < circuit.nodes().len()
            invariant
                i <= circuit.nodes@.len(),
                forall|k: int|
                    0 <= k < i ==> match (#[trigger] circuit.nodes@[k]).op {
                        crate::operation::Operation::Gate2 { control, target, .. } => match caps.coupling_map {
                            Some(m) => m.edges@.contains(
                                (((control.0 as usize)), ((target.0 as usize))),
                            ) || m.edges@.contains(
                                (((target.0 as usize)), ((control.0 as usize))),
                            ),
                            None => true,
                        },
                        _ => true,
                    },
                caps.coupling_map matches Some(m) && m.edges@ == map.edges@,
            decreases circuit.nodes@.len() - i,
        {
            let node = &circuit.nodes()[i];
            if let crate::operation::Operation::Gate2 { control, target, .. } = &node.op {
                let c = #[verifier::truncate] (control.0 as usize);
                let t = #[verifier::truncate] (target.0 as usize);
                if !map.allows_connection(c, t) {
                    return Err(
                        IrError::UnsupportedOperation("two-qubit gate on an unconnected pair".to_owned()),
                    );
                }
            }
            i = i + 1;
        }
    }
    Ok(())
}

/// The deterministic simulated outcome: the parity of job id, shot index and
/// qubit id.
pub open spec fn parity3(a: u64, b: u64, c: u64) -> u8 {
    (((a % 2) + (b % 2) + (c % 2)) % 2) as u8
}

/// A fixed-width encoding of the circuit: one tag byte per node.
fn encode_circuit(circuit: &CircuitDag) -> (r: Vec<u8>)
    ensures
        r@.len() == circuit.nodes@.len(),
{
    let mut data: Vec<u8> = Vec::new();
    let mut i: usize = 0;
    while i < circuit.nodes().len()
        invariant
            i <= circuit.nodes@.len(),
            data@.len() == i,
        decreases circuit.nodes@.len() - i,
    {
        let tag: u8 = match &circuit.nodes()[i].op {
            crate::operation::Operation::Gate1 { .. } => 1,
            crate::operation::Operation::Gate2 { .. } => 2,
            crate::operation::Operation::Gate3 { .. } => 3,
            crate::operation::Operation::Measure { .. } => 4,
            crate::operation::Operation::Reset { .. } => 5,
            crate::operation::Operation::Barrier { .. } => 6,
            crate::operation::Operation::Custom(_) => 7,
        };
        data.push(tag);
        i = i + 1;
    }
    data
}

/// In-memory job table shared by the simulator adapters.
#[derive(Debug)]
pub struct SimulatedJobTable {
    jobs: Vec<(JobId, JobStatus, JobResult)>,
    next_job_id: u64,
}

impl SimulatedJobTable {
    spec fn wf(&self) -> bool {
        &&& forall|i: int, j: int|
            0 <= i < self.jobs@.len() && 0 <= j < self.jobs@.len() && i != j ==> (
            #[trigger] self.jobs@[i]).0 != (#[trigger] self.jobs@[j]).0
        &&& forall|i: int| 0 <= i < self.jobs@.len() ==> (#[trigger] self.jobs@[i]).0 < self.next_job_id
        &&& forall|i: int| 0 <= i < self.jobs@.len() ==> (#[trigger] self.jobs@[i]).2.wf()
    }

    spec fn has_job(&self, id: JobId) -> bool {
        exists|k: int| 0 <= k < self.jobs@.len() && (#[trigger] self.jobs@[k]).0 == id
    }

    fn new(first_id: u64) -> (r: Self)
        ensures
            r.jobs@.len() == 0,
            r.next_job_id == first_id,
    {
        SimulatedJobTable { jobs: Vec::new(), next_job_id: first_id }
    }

    fn find(&self, id: JobId) -> (r: Option<usize>)
        ensures
            match r {
                Some(k) => k < self.jobs@.len() && self.jobs@[k as int].0 == id,
                None => !self.has_job(id),
            },
    {
        let mut k: usize = 0;
        while k < self.jobs.len()
            invariant
                k <= self.jobs@.len(),
                forall|k2: int| 0 <= k2 < k ==> (#[trigger] self.jobs@[k2]).0 != id,
            decreases self.jobs@.len() - k,
        {
            if self.jobs[k].0 == id {
                return Some(k);
            }
            k = k + 1;
        }
        proof {
            if self.has_job(id) {
                let w = choose|w: int|
                    0 <= w < self.jobs@.len() && (#[trigger] self.jobs@[w]).0 == id;
            }
        }
        None
    }

    /// Simulates one job to completion: mints an id, records a `Completed`
    /// result holding, per circuit qubit, `shots` deterministic parity
    /// outcomes, and hands the result back.
    #[verifier::loop_isolation(false)]
    fn submit_simulated(&mut self, job: &Job) -> (r: (JobId, JobResult))
        requires
            old(self).next_job_id < u64::MAX,
        ensures
            old(self).wf() ==> final(self).wf(),
            r.0 == old(self).next_job_id,
            r.1.wf(),
            r.1.job_id == r.0,
            r.1.status == JobStatus::Completed,
            r.1.execution_time_ms == Some(1u64),
            final(self).next_job_id == old(self).next_job_id + 1,
            final(self).jobs@.len() == old(self).jobs@.len() + 1,
            final(self).jobs@.last().0 == r.0,
            final(self).jobs@.last().1 == JobStatus::Completed,
            final(self).jobs@.last().2.wf(),
            final(self).jobs@.last().2.job_id == r.0,
            final(self).jobs@.last().2.status == JobStatus::Completed,
            final(self).jobs@.last().2.execution_time_ms == Some(1u64),
            forall|k: int| 0 <= k < old(self).jobs@.len() ==> final(self).jobs@[k] == old(self).jobs@[k],
    {
        let id = self.next_job_id;
        self.next_job_id = self.next_job_id + 1;
        let mut result = JobResult::success(id);
        result.execution_time_ms = Some(1);
        let qubits = job.circuit.all_qubits();
        let mut qi: usize = 0;
        while qi < qubits.len()
            invariant
                result.wf(),
                result.job_id == id,
                result.status == JobStatus::Completed,
                result.execution_time_ms == Some(1u64),
            decreases qubits@.len() - qi,
        {
            let q = qubits[qi];
            let mut counts: Vec<u8> = Vec::new();
            let mut s: u32 = 0;
            while s < job.shots
                invariant
                    counts@.len() == s,
                    forall|x: int|
                        0 <= x < counts@.len() ==> (#[trigger] counts@[x]) == parity3(
                            id,
                            x as u64,
                            q.0,
                        ),
                decreases job.shots - s,
            {
                let bit = (((id % 2) + ((s as u64) % 2) + (q.0 % 2)) % 2) as u8;
                counts.push(bit);
                s = s + 1;
            }
            result.add_counts(q, counts);
            qi = qi + 1;
        }
        let ghost pre = self.jobs@;
        let stored = result.clone();
        proof {
            lemma_result_matches_wf(stored, result);
        }
        self.jobs.push((id, JobStatus::Completed, stored));
        proof {
            assert(self.jobs@.last() == (id, JobStatus::Completed, self.jobs@.last().2));
            if old(self).wf() {
                assert forall|i: int, j: int|
                    0 <= i < self.jobs@.len() && 0 <= j < self.jobs@.len() && i != j implies (
                #[trigger] self.jobs@[i]).0 != (#[trigger] self.jobs@[j]).0 by {
                    let n2 = pre.len() as int;
                    if i < n2 && j < n2 {
                        assert(self.jobs@[i] == pre[i]);
                        assert(self.jobs@[j] == pre[j]);
                    } else if i == n2 {
                        assert(self.jobs@[j] == pre[j]);
                        assert(pre[j].0 < id);
                    } else {
                        assert(self.jobs@[i] == pre[i]);
                        assert(pre[i].0 < id);
                    }
                };
                assert forall|i: int|
                    0 <= i < self.jobs@.len() implies (#[trigger] self.jobs@[i]).0
                        < self.next_job_id by {
                    if i < pre.len() {
                        assert(self.jobs@[i] == pre[i]);
                    }
                };
                assert forall|i: int|
                    0 <= i < self.jobs@.len() implies (#[trigger] self.jobs@[i]).2.wf() by {
                    if i < pre.len() {
                        assert(self.jobs@[i] == pre[i]);
                    }
                };
            }
        }
        (id, result)
    }

    fn status_of(&self, id: JobId) -> (r: Result<JobStatus, IrError>)
        ensures
            match r {
                Ok(st) => exists|k: int|
                    0 <= k < self.jobs@.len() && (#[trigger] self.jobs@[k]).0 == id
                        && self.jobs@[k].1 == st,
                Err(e) => !self.has_job(id) && e is QubitNotFound,
            },
    {
        match self.find(id) {
            Some(k) => Ok(self.jobs[k].1),
            None => Err(IrError::QubitNotFound("job not found".to_owned())),
        }
    }

    fn result_of(&self, id: JobId) -> (r: Result<JobResult, IrError>)
        ensures
            match r {
                Ok(res) => (self.wf() ==> res.wf()) && exists|k: int|
                    0 <= k < self.jobs@.len() && (#[trigger] self.jobs@[k]).0 == id
                        && result_matches(res, self.jobs@[k].2),
                Err(e) => !self.has_job(id) && e is QubitNotFound,
            },
    {
        match self.find(id) {
            Some(k) => {
                let res = self.jobs[k].2.clone();
                proof {
                    if self.wf() {
                        lemma_result_matches_wf(res, self.jobs@[k as int].2);
                    }
                }
                Ok(res)
            },
            None => Err(IrError::QubitNotFound("job not found".to_owned())),
        }
    }

    /// Cancels a non-terminal job; terminal or unknown jobs refuse with
    /// `JobExecutionFailed`.
    fn cancel_in_table(&mut self, id: JobId) -> (r: Result<(), IrError>)
        ensures
            old(self).wf() ==> final(self).wf(),
            old(self).wf() ==> (r is Ok <==> (exists|k: int|
                0 <= k < old(self).jobs@.len() && (#[trigger] old(self).jobs@[k]).0 == id && !(
                old(self).jobs@[k].1 is Completed || old(self).jobs@[k].1 is Failed || old(
                    self,
                ).jobs@[k].1 is Cancelled))),
            r matches Err(e) ==> e is JobExecutionFailed && *final(self) == *old(self),
    {
        let found = self.find(id);
        if let Some(k) = found {
            if !self.jobs[k].1.is_terminal() {
                let ghost pre = self.jobs@;
                self.jobs[k] = (self.jobs[k].0, JobStatus::Cancelled, self.jobs[k].2.clone());
                proof {
                    assert(self.jobs@ == pre.update(k as int, self.jobs@[k as int]));
                    assert(self.jobs@[k as int].0 == id);
                    if old(self).wf() {
                        assert forall|i: int, j: int|
                            0 <= i < self.jobs@.len() && 0 <= j < self.jobs@.len() && i
                                != j implies (#[trigger] self.jobs@[i]).0 != (
                        #[trigger] self.jobs@[j]).0 by {
                            assert(self.jobs@[i].0 == pre[i].0);
                            assert(self.jobs@[j].0 == pre[j].0);
                        };
                        assert forall|i: int|
                            0 <= i < self.jobs@.len() implies (
                        #[trigger] self.jobs@[i]).2.wf() by {
                            if i == k as int {
                                lemma_result_matches_wf(self.jobs@[i].2, pre[i].2);
                            } else {
                                assert(self.jobs@[i] == pre[i]);
                            }
                        };
                        assert forall|i: int|
                            0 <= i < self.jobs@.len() implies (#[trigger] self.jobs@[i]).0
                                < self.next_job_id by {
                            assert(self.jobs@[i].0 == pre[i].0);
                        };
                    }
                }
                return Ok(());
            }
        }
        Err(IrError::JobExecutionFailed("job cannot be cancelled".to_owned()))
    }
}

/// A structurally equal copy of a well-formed result is well formed.
proof fn lemma_result_matches_wf(a: JobResult, b: JobResult)
    requires
        result_matches(a, b),
        b.wf(),
    ensures
        a.wf(),
{
    assert(a.statistics@.len() == b.statistics@.len());
    assert forall|k: int|
        0 <= k < a.counts@.len() implies (#[trigger] a.statistics@[k]).1.ones == crate::job::count_ones(
        (#[trigger] a.counts@[k]).1@,
    ) && a.statistics@[k].1.total == a.counts@[k].1@.len() by {
        assert(a.counts@[k].1@ == b.counts@[k].1@);
        assert(a.statistics@[k] == b.statistics@[k]);
    };
    assert forall|k: int|
        0 <= k < a.counts@.len() implies (#[trigger] a.statistics@[k]).0 == (
    #[trigger] a.counts@[k]).0 by {
        assert(a.counts@[k].0 == b.counts@[k].0);
        assert(a.statistics@[k] == b.statistics@[k]);
    };
    assert forall|i: int, j: int|
        0 <= i < a.counts@.len() && 0 <= j < a.counts@.len() && i != j implies (
    #[trigger] a.counts@[i]).0 != (#[trigger] a.counts@[j]).0 by {
        assert(a.counts@[i].0 == b.counts@[i].0);
        assert(a.counts@[j].0 == b.counts@[j].0);
    };
}

/// The adapter interface every backend implements.
pub trait BackendAdapter {
    fn id(&self) -> &str;

    fn capabilities(&self) -> BackendCapabilities;

    fn translate_circuit(&self, circuit: &CircuitDag) -> Result<BackendCircuit, IrError>;

    fn validate_circuit(&self, circuit: &CircuitDag) -> Result<(), IrError>;

    fn submit_job(&mut self, job: &Job) -> Result<JobId, IrError>;

    fn get_job_status(&self, job_id: JobId) -> Result<JobStatus, IrError>;

    fn get_job_result(&self, job_id: JobId) -> Result<JobResult, IrError>;

    fn cancel_job(&mut self, job_id: JobId) -> Result<(), IrError>;

    fn execute(&mut self, job: &Job) -> (r: Result<JobResult, IrError>)
        ensures
            r matches Ok(res) ==> res.wf() && res.status is Completed
                && res.execution_time_ms is Some,
    ;

    fn is_available(&self) -> bool;
}

/// Test adapter: completes every job immediately with deterministic parity
/// outcomes.
#[derive(Debug)]
pub struct MockBackendAdapter {
    pub capabilities: BackendCapabilities,
    table: SimulatedJobTable,
}

impl MockBackendAdapter {
    pub fn new() -> (r: Self) {
        MockBackendAdapter {
            capabilities: BackendCapabilities::ideal_simulator(),
            table: SimulatedJobTable::new(1000),
        }
    }

    pub fn with_capabilities(capabilities: BackendCapabilities) -> (r: Self) {
        MockBackendAdapter { capabilities, table: SimulatedJobTable::new(1000) }
    }
}

impl Default for MockBackendAdapter {
    fn default() -> (r: Self) {
        MockBackendAdapter::new()
    }
}

impl BackendAdapter for MockBackendAdapter {
    fn id(&self) -> &str {
        "mock_backend"
    }

    fn capabilities(&self) -> BackendCapabilities {
        self.capabilities.clone()
    }

    fn translate_circuit(&self, circuit: &CircuitDag) -> Result<BackendCircuit, IrError> {
        match validate_circuit_caps(&self.capabilities, circuit) {
            Ok(_) => Ok(BackendCircuit::with_data("mock_backend", encode_circuit(circuit))),
            Err(e) => Err(e),
        }
    }

    fn validate_circuit(&self, circuit: &CircuitDag) -> Result<(), IrError> {
        validate_circuit_caps(&self.capabilities, circuit)
    }

    fn submit_job(&mut self, job: &Job) -> Result<JobId, IrError> {
        if self.table.next_job_id == u64::MAX {
            return Err(IrError::JobExecutionFailed("job table exhausted".to_owned()));
        }
        let (id, _result) = self.table.submit_simulated(job);
        Ok(id)
    }

    fn get_job_status(&self, job_id: JobId) -> Result<JobStatus, IrError> {
        self.table.status_of(job_id)
    }

    fn get_job_result(&self, job_id: JobId) -> Result<JobResult, IrError> {
        self.table.result_of(job_id)
    }

    fn cancel_job(&mut self, job_id: JobId) -> Result<(), IrError> {
        self.table.cancel_in_table(job_id)
    }

    fn execute(&mut self, job: &Job) -> (r: Result<JobResult, IrError>) {
        if self.table.next_job_id == u64::MAX {
            return Err(IrError::JobExecutionFailed("job table exhausted".to_owned()));
        }
        let (_id, result) = self.table.submit_simulated(job);
        Ok(result)
    }

    fn is_available(&self) -> bool {
        true
    }
}

/// Ideal-simulator adapter: completes every job immediately with
/// deterministic parity outcomes.
#[derive(Debug)]
pub struct IdealSimulatorBackend {
    pub capabilities: BackendCapabilities,
    table: SimulatedJobTable,
}

impl IdealSimulatorBackend {
    pub fn new() -> (r: Self) {
        IdealSimulatorBackend {
            capabilities: BackendCapabilities::ideal_simulator(),
            table: SimulatedJobTable::new(2000),
        }
    }
}

impl Default for IdealSimulatorBackend {
    fn default() -> (r: Self) {
        IdealSimulatorBackend::new()
    }
}

impl BackendAdapter for IdealSimulatorBackend {
    fn id(&self) -> &str {
        "ideal_simulator"
    }

    fn capabilities(&self) -> BackendCapabilities {
        self.capabilities.clone()
    }

    fn translate_circuit(&self, circuit: &CircuitDag) -> Result<BackendCircuit, IrError> {
        match validate_circuit_caps(&self.capabilities, circuit) {
            Ok(_) => Ok(BackendCircuit::new("ideal_simulator")),
            Err(e) => Err(e),
        }
    }

    fn validate_circuit(&self, circuit: &CircuitDag) -> Result<(), IrError> {
        validate_circuit_caps(&self.capabilities, circuit)
    }

    fn submit_job(&mut self, job: &Job) -> Result<JobId, IrError> {
        if self.table.next_job_id == u64::MAX {
            return Err(IrError::JobExecutionFailed("job table exhausted".to_owned()));
        }
        let (id, _result) = self.table.submit_simulated(job);
        Ok(id)
    }

    fn get_job_status(&self, job_id: JobId) -> Result<JobStatus, IrError> {
        self.table.status_of(job_id)
    }

    fn get_job_result(&self, job_id: JobId) -> Result<JobResult, IrError> {
        self.table.result_of(job_id)
    }

    fn cancel_job(&mut self, job_id: JobId) -> Result<(), IrError> {
        self.table.cancel_in_table(job_id)
    }

    fn execute(&mut self, job: &Job) -> (r: Result<JobResult, IrError>) {
        if self.table.next_job_id == u64::MAX {
            return Err(IrError::JobExecutionFailed("job table exhausted".to_owned()));
        }
        let (_id, result) = self.table.submit_simulated(job);
        Ok(result)
    }

    fn is_available(&self) -> bool {
        true
    }
}

/// A backend held by the registry: one of the shipped adapters.
#[derive(Debug)]
pub enum BackendInstance {
    Mock(MockBackendAdapter),
    IdealSim(IdealSimulatorBackend),
}

impl BackendInstance {
    /// Runs the job on the adapter and hands back its result.
    pub fn run(&mut self, job: &Job) -> (r: Result<JobResult, IrError>)
        ensures
            r matches Ok(res) ==> res.wf() && res.status is Completed
                && res.execution_time_ms is Some,
    {
        match self {
            BackendInstance::Mock(b) => b.execute(job),
            BackendInstance::IdealSim(b) => b.execute(job),
        }
    }

    /// The adapter's capability sheet.
    pub fn caps(&self) -> BackendCapabilities {
        match self {
            BackendInstance::Mock(b) => b.capabilities(),
            BackendInstance::IdealSim(b) => b.capabilities(),
        }
    }
}

} // verus!
