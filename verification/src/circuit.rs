//! The circuit DAG: nodes wrap operations, edges encode happens-before.
//!
//! Every mutation preserves acyclicity; `add_edge` rejects, with a typed
//! error, exactly those edges that would close a cycle.  Topological order,
//! critical-path depth and parallel layering are specified against the
//! reachability reading of the edge list (see [`crate::graph`]).

use vstd::prelude::*;

use crate::IrError;
use crate::graph::acyclic;
use crate::graph::ancestors;
use crate::graph::edge_in;
use crate::graph::is_chain;
use crate::graph::lemma_acyclic_push;
use crate::graph::lemma_reaches_closed;
use crate::graph::lemma_reaches_edge;
use crate::graph::lemma_reaches_extend;
use crate::graph::lemma_reaches_first_step;
use crate::graph::lemma_reaches_self;
use crate::graph::lemma_reaches_trans;
use crate::graph::lemma_source_exists;
use crate::graph::reaches;
use crate::operation::Operation;
use crate::operation::op_matches;
use crate::qubit::LogicalQubitId;

verus! {

/// One node of the circuit DAG.
#[derive(Debug)]
pub struct OperationNode {
    /// The node's index within its owning DAG; stable for the DAG's life.
    pub id: usize,
    /// The operation the node carries.
    pub op: Operation,
    /// Ids of the nodes this node depends on (its predecessors).
    pub depends_on: Vec<usize>,
    /// Ids of the nodes sharing this node's layer; derived by
    /// [`CircuitDag::compute_parallel_groups`].
    pub parallel_with: Vec<usize>,
    /// Snapshot of the operation's qubit footprint.
    pub qubits: Vec<LogicalQubitId>,
}

/// Structural sameness of two nodes, down to the views of their list fields.
pub open spec fn node_matches(a: OperationNode, b: OperationNode) -> bool {
    &&& a.id == b.id
    &&& op_matches(a.op, b.op)
    &&& a.depends_on@ == b.depends_on@
    &&& a.parallel_with@ == b.parallel_with@
    &&& a.qubits@ == b.qubits@
}

impl Clone for OperationNode {
    fn clone(&self) -> (res: Self)
        ensures
            node_matches(res, *self),
    {
        let depends_on = self.depends_on.clone();
        let parallel_with = self.parallel_with.clone();
        let qubits = self.qubits.clone();
        proof {
            assert(depends_on@ =~= self.depends_on@);
            assert(parallel_with@ =~= self.parallel_with@);
            assert(qubits@ =~= self.qubits@);
        }
        OperationNode { id: self.id, op: self.op.clone(), depends_on, parallel_with, qubits }
    }
}

impl OperationNode {
    pub fn new(id: usize, op: Operation) -> (r: Self)
        ensures
            r.id == id,
            r.op == op,
            r.depends_on@.len() == 0,
            r.parallel_with@.len() == 0,
            r.qubits@ == op.spec_qubits(),
    {
        let qubits = op.qubits();
        OperationNode { id, op, depends_on: Vec::new(), parallel_with: Vec::new(), qubits }
    }

    pub fn with_dependency(self, node_id: usize) -> (r: Self)
        ensures
            r.id == self.id,
            r.op == self.op,
            r.depends_on@ == self.depends_on@.push(node_id),
            r.parallel_with@ == self.parallel_with@,
            r.qubits@ == self.qubits@,
    {
        let mut s = self;
        s.depends_on.push(node_id);
        s
    }

    pub fn with_dependencies(self, node_ids: Vec<usize>) -> (r: Self)
        ensures
            r.id == self.id,
            r.op == self.op,
            r.depends_on@ == node_ids@,
            r.parallel_with@ == self.parallel_with@,
            r.qubits@ == self.qubits@,
    {
        let mut s = self;
        s.depends_on = node_ids;
        s
    }

    /// Whether `other_id` is a direct predecessor of this node.
    pub fn depends_on_node(&self, other_id: usize) -> (r: bool)
        ensures
            r == self.depends_on@.contains(other_id),
    {
        let mut i: usize = 0;
        while i < self.depends_on.len()
            invariant
                i <= self.depends_on@.len(),
                forall|k: int| 0 <= k < i ==> self.depends_on@[k] != other_id,
            decreases self.depends_on@.len() - i,
        {
            if self.depends_on[i] == other_id {
                return true;
            }
            i = i + 1;
        }
        false
    }

    /// Whether `other_id` was put in this node's layer by the last
    /// [`CircuitDag::compute_parallel_groups`] run.
    pub fn can_parallel_with(&self, other_id: usize) -> (r: bool)
        ensures
            r == self.parallel_with@.contains(other_id),
    {
        let mut i: usize = 0;
        while i < self.parallel_with.len()
            invariant
                i <= self.parallel_with@.len(),
                forall|k: int| 0 <= k < i ==> self.parallel_with@[k] != other_id,
            decreases self.parallel_with@.len() - i,
        {
            if self.parallel_with[i] == other_id {
                return true;
            }
            i = i + 1;
        }
        false
    }

    /// Number of qubits the node's operation touches.
    pub fn gate_size(&self) -> (r: usize)
        ensures
            r == self.qubits@.len(),
    {
        self.qubits.len()
    }
}

/// Free-form description of a circuit.
#[derive(Debug)]
pub struct CircuitMetadata {
    pub name: Option<String>,
    pub description: Option<String>,
    pub tags: Vec<String>,
    pub created_at: Option<u64>,
}

/// Structural sameness of two metadata records, down to string views.
pub open spec fn circuit_metadata_matches(a: CircuitMetadata, b: CircuitMetadata) -> bool {
    &&& match (a.name, b.name) {
        (Some(x), Some(y)) => x@ == y@,
        (None, None) => true,
        _ => false,
    }
    &&& match (a.description, b.description) {
        (Some(x), Some(y)) => x@ == y@,
        (None, None) => true,
        _ => false,
    }
    &&& a.tags@.len() == b.tags@.len()
    &&& forall|i: int| 0 <= i < a.tags@.len() ==> (#[trigger] a.tags@[i])@ == (#[trigger] b.tags@[i])@
    &&& a.created_at == b.created_at
}

impl Clone for CircuitMetadata {
    fn clone(&self) -> (res: Self)
        ensures
            circuit_metadata_matches(res, *self),
    {
        let name = match &self.name {
            Some(n) => Some(n.clone()),
            None => None,
        };
        let description = match &self.description {
            Some(d) => Some(d.clone()),
            None => None,
        };
        let mut tags: Vec<String> = Vec::new();
        let mut i: usize = 0;
        while i < self.tags.len()
            invariant
                i <= self.tags@.len(),
                tags@.len() == i,
                forall|k: int| 0 <= k < i ==> (#[trigger] tags@[k])@ == (#[trigger] self.tags@[k])@,
            decreases self.tags@.len() - i,
        {
            tags.push(self.tags[i].clone());
            i = i + 1;
        }
        CircuitMetadata { name, description, tags, created_at: self.created_at }
    }
}

impl Default for CircuitMetadata {
    fn default() -> (r: Self)
        ensures
            r.name is None,
            r.description is None,
            r.tags@.len() == 0,
            r.created_at is None,
    {
        CircuitMetadata { name: None, description: None, tags: Vec::new(), created_at: None }
    }
}

/// A quantum circuit as a DAG of operation nodes.
#[derive(Debug)]
pub struct CircuitDag {
    /// All operation nodes; a node's id is its index here.
    pub nodes: Vec<OperationNode>,
    /// Happens-before edges: `(from, to)` means `from` executes before `to`.
    pub edges: Vec<(usize, usize)>,
    /// Input qubits, as declared by the caller.
    pub inputs: Vec<LogicalQubitId>,
    /// Output qubits, as declared by the caller.
    pub outputs: Vec<LogicalQubitId>,
    /// Free-form description.
    pub metadata: CircuitMetadata,
    /// Memoised depth; cleared on every structural mutation.
    pub cached_depth: Option<usize>,
}

/// Acyclicity: in a well-formed DAG no sequence of accepted insertions can
/// have produced an edge that reaches back to its own source.
pub proof fn lemma_dag_acyclic(dag: CircuitDag)
    requires
        dag.wf(),
    ensures
        acyclic(dag.edges@),
        forall|k: int|
            0 <= k < dag.edges@.len() ==> !reaches(
                dag.edges@,
                (#[trigger] dag.edges@[k]).1 as int,
                dag.edges@[k].0 as int,
            ),
{
}

/// Whether some layer of `layers` contains `i`.
pub open spec fn covered_by_layers(layers: Seq<Vec<usize>>, i: usize) -> bool {
    exists|g: int| 0 <= g < layers.len() && #[trigger] layers[g]@.contains(i)
}

/// A chain through valid node indices of the DAG.
pub open spec fn node_chain(dag: CircuitDag, p: Seq<int>) -> bool {
    &&& p.len() >= 1
    &&& forall|i: int| 0 <= i < p.len() ==> 0 <= #[trigger] p[i] < dag.nodes@.len()
    &&& is_chain(dag.edges@, p)
}

/// `d` is the length, in nodes, of the longest chain of the DAG (zero for the
/// empty DAG).
pub open spec fn is_depth(dag: CircuitDag, d: int) -> bool {
    &&& forall|p: Seq<int>| #[trigger] node_chain(dag, p) ==> p.len() <= d
    &&& if dag.nodes@.len() == 0 {
        d == 0
    } else {
        exists|p: Seq<int>| #[trigger] node_chain(dag, p) && p.len() == d
    }
}

impl CircuitDag {
    /// Structural well-formedness:
    /// - every edge's endpoints index into `nodes`;
    /// - a node's id is its index;
    /// - the per-node predecessor lists and the edge list agree;
    /// - the graph is acyclic;
    /// - a memoised depth equals the depth recomputed from scratch.
    pub open spec fn wf(&self) -> bool {
        &&& forall|k: int|
            0 <= k < self.edges@.len() ==> (#[trigger] self.edges@[k]).0 < self.nodes@.len()
                && self.edges@[k].1 < self.nodes@.len()
        &&& forall|i: int| 0 <= i < self.nodes@.len() ==> (#[trigger] self.nodes@[i]).id == i
        &&& forall|t: int, j: int|
            0 <= t < self.nodes@.len() && 0 <= j < (#[trigger] self.nodes@[t]).depends_on@.len()
                ==> edge_in(self.edges@, #[trigger] self.nodes@[t].depends_on@[j] as int, t)
        &&& forall|k: int|
            0 <= k < self.edges@.len() ==> self.nodes@[(#[trigger] self.edges@[k]).1 as int].depends_on@.contains(
                self.edges@[k].0,
            )
        &&& acyclic(self.edges@)
        &&& match self.cached_depth {
            Some(d) => is_depth(*self, d as int),
            None => true,
        }
    }

    pub fn new() -> (r: Self)
        ensures
            r.wf(),
            r.nodes@.len() == 0,
            r.edges@.len() == 0,
            r.inputs@.len() == 0,
            r.outputs@.len() == 0,
            r.metadata.name is None,
            r.cached_depth is None,
    {
        CircuitDag {
            nodes: Vec::new(),
            edges: Vec::new(),
            inputs: Vec::new(),
            outputs: Vec::new(),
            metadata: CircuitMetadata::default(),
            cached_depth: None,
        }
    }

    pub fn with_name(name: &str) -> (r: Self)
        ensures
            r.wf(),
            r.nodes@.len() == 0,
            r.edges@.len() == 0,
            r.inputs@.len() == 0,
            r.outputs@.len() == 0,
            r.metadata.name matches Some(n) && n@ == name@,
            r.cached_depth is None,
    {
        let mut dag = CircuitDag::new();
        dag.metadata.name = Some(name.to_owned());
        dag
    }

    pub fn with_inputs(self, inputs: Vec<LogicalQubitId>) -> (r: Self)
        ensures
            r == (CircuitDag { inputs, ..self }),
    {
        CircuitDag { inputs, ..self }
    }

    /// Appends a node carrying `op`, with no edges.  Returns the new node's
    /// id.  Clears the memoised depth.
    pub fn add_node(&mut self, op: Operation) -> (r: usize)
        requires
            old(self).wf(),
        ensures
            final(self).wf(),
            r == old(self).nodes@.len(),
            final(self).nodes@.len() == old(self).nodes@.len() + 1,
            forall|i: int|
                0 <= i < old(self).nodes@.len() ==> final(self).nodes@[i] == old(self).nodes@[i],
            final(self).nodes@.last().id == r,
            final(self).nodes@.last().op == op,
            final(self).nodes@.last().depends_on@.len() == 0,
            final(self).nodes@.last().qubits@ == op.spec_qubits(),
            final(self).edges@ == old(self).edges@,
            final(self).inputs@ == old(self).inputs@,
            final(self).outputs@ == old(self).outputs@,
            final(self).metadata == old(self).metadata,
            final(self).cached_depth is None,
    {
        let id = self.nodes.len();
        let node = OperationNode::new(id, op);
        self.nodes.push(node);
        self.cached_depth = None;
        id
    }

    /// Number of nodes.
    pub fn num_nodes(&self) -> (r: usize)
        ensures
            r == self.nodes@.len(),
    {
        self.nodes.len()
    }

    /// Number of operations (one per node).
    pub fn num_operations(&self) -> (r: usize)
        ensures
            r == self.nodes@.len(),
    {
        self.nodes.len()
    }

    /// The node with the given id, if it exists.
    pub fn get_node(&self, id: usize) -> (r: Option<&OperationNode>)
        ensures
            match r {
                Some(node) => id < self.nodes@.len() && *node == self.nodes@[id as int],
                None => id >= self.nodes@.len(),
            },
    {
        if id < self.nodes.len() {
            Some(&self.nodes[id])
        } else {
            None
        }
    }

    /// All nodes, by reference.
    pub fn nodes(&self) -> (r: &Vec<OperationNode>)
        ensures
            r@ == self.nodes@,
    {
        &self.nodes
    }

    /// All edges, by reference.
    pub fn edges(&self) -> (r: &Vec<(usize, usize)>)
        ensures
            r@ == self.edges@,
    {
        &self.edges
    }

    /// The circuit metadata.
    pub fn metadata(&self) -> (r: &CircuitMetadata)
        ensures
            *r == self.metadata,
    {
        &self.metadata
    }

    /// Replaces the circuit metadata.
    pub fn set_metadata(&mut self, metadata: CircuitMetadata)
        ensures
            *final(self) == (CircuitDag { metadata, ..*old(self) }),
    {
        self.metadata = metadata;
    }

    /// Removes every node and edge.  Inputs, outputs and metadata stay.
    pub fn clear(&mut self)
        ensures
            final(self).wf(),
            final(self).nodes@.len() == 0,
            final(self).edges@.len() == 0,
            final(self).inputs@ == old(self).inputs@,
            final(self).outputs@ == old(self).outputs@,
            final(self).metadata == old(self).metadata,
            final(self).cached_depth is None,
    {
        self.nodes.clear();
        self.edges.clear();
        self.cached_depth = None;
    }
}

/// Number of `true` entries of a boolean sequence.
pub open spec fn count_true(s: Seq<bool>) -> int
    decreases s.len(),
{
    if s.len() == 0 {
        0
    } else {
        count_true(s.drop_last()) + if s.last() {
            1int
        } else {
            0int
        }
    }
}

proof fn lemma_count_true_bounds(s: Seq<bool>)
    ensures
        0 <= count_true(s) <= s.len(),
    decreases s.len(),
{
    if s.len() > 0 {
        lemma_count_true_bounds(s.drop_last());
    }
}

proof fn lemma_count_true_update(s: Seq<bool>, i: int)
    requires
        0 <= i < s.len(),
        !s[i],
    ensures
        count_true(s.update(i, true)) == count_true(s) + 1,
    decreases s.len(),
{
    let u = s.update(i, true);
    if i == s.len() - 1 {
        assert(u.drop_last() =~= s.drop_last());
        assert(u.last());
    } else {
        assert(u.drop_last() =~= s.drop_last().update(i, true));
        assert(u.last() == s.last());
        lemma_count_true_update(s.drop_last(), i);
    }
}

impl CircuitDag {
    /// Whether a directed path leads from `start` to `target`, by a
    /// depth-first search over outgoing edges.
    fn has_path_from(&self, start: usize, target: usize) -> (r: bool)
        requires
            start < self.nodes@.len(),
            target < self.nodes@.len(),
            forall|k: int|
                0 <= k < self.edges@.len() ==> (#[trigger] self.edges@[k]).0 < self.nodes@.len()
                    && self.edges@[k].1 < self.nodes@.len(),
        ensures
            r == reaches(self.edges@, start as int, target as int),
    {
        let n = self.nodes.len();
        if start == target {
            proof {
                lemma_reaches_self(self.edges@, start as int);
            }
            return true;
        }
        let mut visited: Vec<bool> = vec![false; n];
        visited[start] = true;
        let mut stack: Vec<usize> = Vec::new();
        stack.push(start);
        proof {
            lemma_reaches_self(self.edges@, start as int);
            lemma_count_true_bounds(visited@);
            assert(stack@[0] == start);
            assert(stack@.contains(start));
        }
        while stack.len() > 0
            invariant
                start < n,
                target < n,
                start != target,
                n == self.nodes@.len(),
                visited@.len() == n,
                forall|k: int|
                    0 <= k < self.edges@.len() ==> (#[trigger] self.edges@[k]).0
                        < self.nodes@.len() && self.edges@[k].1 < self.nodes@.len(),
                forall|j: int| 0 <= j < stack@.len() ==> (#[trigger] stack@[j]) < n,
                forall|j: int| 0 <= j < stack@.len() ==> visited@[#[trigger] stack@[j] as int],
                visited@[start as int],
                !visited@[target as int],
                forall|i: int|
                    0 <= i < n && visited@[i] ==> reaches(self.edges@, start as int, i),
                // every visited node is still on the stack or fully expanded
                forall|i: int, k: int|
                    #![trigger visited@[i], self.edges@[k]]
                    0 <= i < n && visited@[i] && !stack@.contains(i as usize) && 0 <= k
                        < self.edges@.len() && self.edges@[k].0 == i
                        ==> visited@[self.edges@[k].1 as int],
            decreases n - count_true(visited@), stack@.len(),
        {
            let ghost pre_visited = visited@;
            let ghost pre_stack = stack@;
            let cur = stack.pop().unwrap();
            proof {
                lemma_count_true_bounds(visited@);
                assert(stack@ == pre_stack.drop_last());
                assert forall|xx: usize|
                    pre_stack.contains(xx) && xx != cur implies stack@.contains(xx) by {
                    let j = choose|j: int| 0 <= j < pre_stack.len() && pre_stack[j] == xx;
                    assert(j != pre_stack.len() - 1);
                    assert(stack@[j] == xx);
                };
            }
            let mut k: usize = 0;
            let m = self.edges.len();
            while k < m
                invariant
                    start < n,
                    target < n,
                    start != target,
                    n == self.nodes@.len(),
                    m == self.edges@.len(),
                    cur < n,
                    k <= m,
                    visited@.len() == n,
                    forall|kk: int|
                        0 <= kk < self.edges@.len() ==> (#[trigger] self.edges@[kk]).0
                            < self.nodes@.len() && self.edges@[kk].1 < self.nodes@.len(),
                    forall|j: int| 0 <= j < stack@.len() ==> (#[trigger] stack@[j]) < n,
                    forall|j: int| 0 <= j < stack@.len() ==> visited@[#[trigger] stack@[j] as int],
                    visited@[start as int],
                    !visited@[target as int],
                    visited@[cur as int],
                    forall|i: int|
                        0 <= i < n && visited@[i] ==> reaches(self.edges@, start as int, i),
                    // nodes other than `cur` are on the stack or fully expanded
                    forall|i: int, kk: int|
                        #![trigger visited@[i], self.edges@[kk]]
                        0 <= i < n && visited@[i] && !stack@.contains(i as usize) && i != cur
                            && 0 <= kk < self.edges@.len() && self.edges@[kk].0 == i
                            ==> visited@[self.edges@[kk].1 as int],
                    // cur's edges scanned so far lead to visited nodes
                    forall|kk: int|
                        0 <= kk < k && (#[trigger] self.edges@[kk]).0 == cur
                            ==> visited@[self.edges@[kk].1 as int],
                    // progress measure: never un-visit, only extend
                    count_true(pre_visited) <= count_true(visited@),
                    count_true(visited@) <= n,
                    count_true(visited@) > count_true(pre_visited) || stack@.len()
                        < pre_stack.len(),
                decreases m - k,
            {
                let (from, to) = (self.edges[k].0, self.edges[k].1);
                if from == cur {
                    if to == target {
                        proof {
                            assert(edge_in(self.edges@, cur as int, to as int));
                            lemma_reaches_extend(
                                self.edges@,
                                start as int,
                                cur as int,
                                to as int,
                            );
                        }
                        return true;
                    }
                    if !visited[to] {
                        proof {
                            lemma_count_true_update(visited@, to as int);
                            lemma_count_true_bounds(visited@.update(to as int, true));
                        }
                        visited[to] = true;
                        let ghost spre = stack@;
                        stack.push(to);
                        proof {
                            assert(edge_in(self.edges@, cur as int, to as int));
                            lemma_reaches_extend(
                                self.edges@,
                                start as int,
                                cur as int,
                                to as int,
                            );
                            assert(stack@.last() == to);
                            assert(stack@.contains(to));
                            assert forall|xx: usize| spre.contains(xx) implies stack@.contains(
                                xx,
                            ) by {
                                let j = choose|j: int| 0 <= j < spre.len() && spre[j] == xx;
                                assert(stack@[j] == xx);
                            };
                        }
                    }
                }
                k = k + 1;
            }
        }
        proof {
            let closed = Set::new(|i: int| 0 <= i < n && visited@[i]);
            assert forall|x: int, y: int|
                closed.contains(x) && #[trigger] edge_in(self.edges@, x, y) implies closed.contains(
                y,
            ) by {
                let k = choose|k: int|
                    0 <= k < self.edges@.len() && (#[trigger] self.edges@[k]).0 == x
                        && self.edges@[k].1 == y;
                assert(!stack@.contains(x as usize));
                assert(visited@[self.edges@[k].1 as int]);
            };
            if reaches(self.edges@, start as int, target as int) {
                lemma_reaches_closed(self.edges@, start as int, target as int, closed);
                assert(false);
            }
        }
        false
    }

    /// Whether inserting the edge `(from, to)` would close a directed cycle.
    fn would_create_cycle(&self, from: usize, to: usize) -> (r: bool)
        requires
            from < self.nodes@.len(),
            to < self.nodes@.len(),
            forall|k: int|
                0 <= k < self.edges@.len() ==> (#[trigger] self.edges@[k]).0 < self.nodes@.len()
                    && self.edges@[k].1 < self.nodes@.len(),
        ensures
            r == reaches(self.edges@, to as int, from as int),
    {
        self.has_path_from(to, from)
    }

    /// Adds the happens-before edge `(from, to)`.
    ///
    /// Fails with `QubitNotFound` when either index is out of range, and with
    /// `CyclicDependency` exactly when the edge would close a cycle; a failed
    /// call leaves the DAG unchanged.
    pub fn add_edge(&mut self, from: usize, to: usize) -> (r: Result<(), IrError>)
        requires
            old(self).wf(),
        ensures
            final(self).wf(),
            match r {
                Ok(_) => {
                    &&& from < old(self).nodes@.len()
                    &&& to < old(self).nodes@.len()
                    &&& !reaches(old(self).edges@, to as int, from as int)
                    &&& final(self).edges@ == old(self).edges@.push((from, to))
                    &&& final(self).nodes@.len() == old(self).nodes@.len()
                    &&& forall|i: int|
                        0 <= i < old(self).nodes@.len() && i != to
                            ==> final(self).nodes@[i] == old(self).nodes@[i]
                    &&& final(self).nodes@[to as int].depends_on@ == old(self).nodes@[to as int].depends_on@.push(from)
                    &&& final(self).nodes@[to as int].id == old(self).nodes@[to as int].id
                    &&& final(self).nodes@[to as int].op == old(self).nodes@[to as int].op
                    &&& final(self).nodes@[to as int].qubits@ == old(self).nodes@[to as int].qubits@
                    &&& final(self).inputs@ == old(self).inputs@
                    &&& final(self).outputs@ == old(self).outputs@
                    &&& final(self).metadata == old(self).metadata
                    &&& final(self).cached_depth is None
                },
                Err(e) => {
                    &&& *final(self) == *old(self)
                    &&& (e is QubitNotFound <==> (from >= old(self).nodes@.len() || to >= old(self).nodes@.len()))
                    &&& (e is CyclicDependency <==> (from < old(self).nodes@.len() && to < old(self).nodes@.len() && reaches(old(self).edges@, to as int, from as int)))
                },
            },
    {
        if from >= self.nodes.len() || to >= self.nodes.len() {
            return Err(IrError::QubitNotFound("node index out of bounds".to_owned()));
        }
        if self.would_create_cycle(from, to) {
            return Err(
                IrError::CyclicDependency("adding this edge would close a cycle".to_owned()),
            );
        }
        self.edges.push((from, to));
        let node = &mut self.nodes[to];
        node.depends_on.push(from);
        self.cached_depth = None;
        proof {
            lemma_acyclic_push(old(self).edges@, from, to);
            let olds = old(self).nodes@;
            let news = self.nodes@;
            let olde = old(self).edges@;
            let newe = self.edges@;
            assert(newe == olde.push((from, to)));
            // predecessor lists and edges still agree, in both directions
            assert forall|t2: int, j: int|
                0 <= t2 < news.len() && 0 <= j < (#[trigger] news[t2]).depends_on@.len() implies edge_in(
                newe,
                #[trigger] news[t2].depends_on@[j] as int,
                t2,
            ) by {
                if t2 == to as int && j == news[t2].depends_on@.len() - 1 {
                    assert(newe[newe.len() - 1] == (from, to));
                    assert(edge_in(newe, from as int, to as int));
                } else {
                    assert(olds[t2].depends_on@[j] == news[t2].depends_on@[j]);
                    assert(edge_in(olde, olds[t2].depends_on@[j] as int, t2));
                    let k = choose|k: int|
                        0 <= k < olde.len() && (#[trigger] olde[k]).0 == olds[t2].depends_on@[j]
                            && olde[k].1 == t2;
                    assert(newe[k] == olde[k]);
                }
            };
            assert forall|k: int| 0 <= k < newe.len() implies news[(
            #[trigger] newe[k]).1 as int].depends_on@.contains(newe[k].0) by {
                if k < olde.len() {
                    let t2 = olde[k].1 as int;
                    assert(olds[t2].depends_on@.contains(olde[k].0));
                    let j = choose|j: int|
                        0 <= j < olds[t2].depends_on@.len() && olds[t2].depends_on@[j] == olde[k].0;
                    if t2 == to as int {
                        assert(news[t2].depends_on@[j] == olde[k].0);
                    } else {
                        assert(news[t2].depends_on@[j] == olde[k].0);
                    }
                } else {
                    assert(newe[k] == (from, to));
                    assert(news[to as int].depends_on@.last() == from);
                }
            };
        }
        Ok(())
    }

    /// Adds a node carrying `op` that depends on every node of `depends_on`.
    ///
    /// All dependencies are validated first: an out-of-range id fails with
    /// `QubitNotFound` and leaves the DAG unchanged.  No cycle is possible
    /// since the new node is brand new.
    #[verifier::rlimit(40)]
    #[verifier::spinoff_prover]
    pub fn add_node_with_deps(&mut self, op: Operation, depends_on: Vec<usize>) -> (r: Result<
        usize,
        IrError,
    >)
        requires
            old(self).wf(),
        ensures
            final(self).wf(),
            match r {
                Ok(id) => {
                    &&& (forall|j: int|
                        0 <= j < depends_on@.len() ==> (#[trigger] depends_on@[j]) < old(self).nodes@.len())
                    &&& id == old(self).nodes@.len()
                    &&& final(self).nodes@.len() == old(self).nodes@.len() + 1
                    &&& forall|i: int|
                        0 <= i < old(self).nodes@.len() ==> final(self).nodes@[i] == old(self).nodes@[i]
                    &&& final(self).nodes@.last().id == id
                    &&& final(self).nodes@.last().op == op
                    &&& final(self).nodes@.last().depends_on@ == depends_on@
                    &&& final(self).nodes@.last().qubits@ == op.spec_qubits()
                    &&& final(self).edges@.len() == old(self).edges@.len() + depends_on@.len()
                    &&& forall|k: int|
                        0 <= k < old(self).edges@.len() ==> final(self).edges@[k] == old(self).edges@[k]
                    &&& forall|j: int|
                        0 <= j < depends_on@.len() ==> final(self).edges@[old(self).edges@.len()
                            + j] == (depends_on@[j], id)
                    &&& final(self).inputs@ == old(self).inputs@
                    &&& final(self).outputs@ == old(self).outputs@
                    &&& final(self).metadata == old(self).metadata
                    &&& final(self).cached_depth is None
                },
                Err(e) => {
                    &&& *final(self) == *old(self)
                    &&& e is QubitNotFound
                    &&& exists|j: int|
                        0 <= j < depends_on@.len() && (#[trigger] depends_on@[j]) >= old(self).nodes@.len()
                },
            },
    {
        let mut j: usize = 0;
        while j < depends_on.len()
            invariant
                *self == *old(self),
                old(self).wf(),
                j <= depends_on@.len(),
                forall|k: int| 0 <= k < j ==> (#[trigger] depends_on@[k]) < self.nodes@.len(),
            decreases depends_on@.len() - j,
        {
            if depends_on[j] >= self.nodes.len() {
                return Err(IrError::QubitNotFound("dependency node does not exist".to_owned()));
            }
            j = j + 1;
        }
        let id = self.nodes.len();
        let node = OperationNode::new(id, op).with_dependencies(depends_on);
        let ghost deps = node.depends_on@;
        self.nodes.push(node);
        let mut j2: usize = 0;
        let ghost olde = old(self).edges@;
        while j2 < self.nodes[id].depends_on.len()
            invariant
                old(self).wf(),
                id == old(self).nodes@.len(),
                self.nodes@.len() == id + 1,
                forall|i: int| 0 <= i < id ==> self.nodes@[i] == old(self).nodes@[i],
                self.nodes@.last().id == id,
                self.nodes@.last().op == op,
                self.nodes@.last().depends_on@ == deps,
                self.nodes@.last().qubits@ == op.spec_qubits(),
                deps == depends_on@,
                forall|k: int| 0 <= k < deps.len() ==> (#[trigger] deps[k]) < id,
                j2 <= deps.len(),
                self.edges@.len() == olde.len() + j2,
                forall|k: int| 0 <= k < olde.len() ==> self.edges@[k] == olde[k],
                forall|k: int|
                    0 <= k < j2 ==> self.edges@[olde.len() + k] == (deps[k], (id as usize)),
                self.inputs@ == old(self).inputs@,
                self.outputs@ == old(self).outputs@,
                self.metadata == old(self).metadata,
                acyclic(self.edges@),
                forall|k: int|
                    0 <= k < self.edges@.len() ==> (#[trigger] self.edges@[k]).0 < id + 1
                        && self.edges@[k].1 < id + 1,
                // no edge leaves the new node
                forall|k: int| 0 <= k < self.edges@.len() ==> (#[trigger] self.edges@[k]).0 != id,
            decreases deps.len() - j2,
        {
            let dep = self.nodes[id].depends_on[j2];
            let ghost pre = self.edges@;
            self.edges.push((dep, id));
            proof {
                // the new node has no outgoing edges, so it reaches nothing
                // but itself, and the pushed edge cannot close a cycle
                if reaches(pre, id as int, dep as int) {
                    lemma_reaches_first_step(pre, id as int, dep as int);
                    let c = choose|c: int| #[trigger] edge_in(pre, id as int, c) && reaches(
                        pre,
                        c,
                        dep as int,
                    );
                    let k = choose|k: int|
                        0 <= k < pre.len() && (#[trigger] pre[k]).0 == id as int && pre[k].1 == c;
                    assert(false);
                }
                lemma_acyclic_push(pre, dep, id);
            }
            j2 = j2 + 1;
        }
        self.cached_depth = None;
        proof {
            let news = self.nodes@;
            let newe = self.edges@;
            assert forall|t2: int, j3: int|
                0 <= t2 < news.len() && 0 <= j3 < (#[trigger] news[t2]).depends_on@.len() implies edge_in(
                newe,
                #[trigger] news[t2].depends_on@[j3] as int,
                t2,
            ) by {
                if t2 == id as int {
                    assert(newe[olde.len() + j3] == (deps[j3], (id as usize)));
                } else {
                    assert(edge_in(olde, old(self).nodes@[t2].depends_on@[j3] as int, t2));
                    let k = choose|k: int|
                        0 <= k < olde.len() && (#[trigger] olde[k]).0
                            == old(self).nodes@[t2].depends_on@[j3] && olde[k].1 == t2;
                    assert(newe[k] == olde[k]);
                }
            };
            assert forall|k: int| 0 <= k < newe.len() implies news[(
            #[trigger] newe[k]).1 as int].depends_on@.contains(newe[k].0) by {
                if k < olde.len() {
                    let t2 = olde[k].1 as int;
                    assert(old(self).nodes@[t2].depends_on@.contains(olde[k].0));
                    let j3 = choose|j3: int|
                        0 <= j3 < old(self).nodes@[t2].depends_on@.len() && old(self).nodes@[t2].depends_on@[j3] == olde[k].0;
                    assert(news[t2].depends_on@[j3] == olde[k].0);
                } else {
                    let j3 = k - olde.len();
                    assert(newe[k] == (deps[j3], (id as usize)));
                    assert(news[id as int].depends_on@[j3] == deps[j3]);
                }
            };
        }
        Ok(id)
    }
}

proof fn lemma_count_true_zero(s: Seq<bool>)
    requires
        forall|i: int| 0 <= i < s.len() ==> !s[i],
    ensures
        count_true(s) == 0,
    decreases s.len(),
{
    if s.len() > 0 {
        lemma_count_true_zero(s.drop_last());
    }
}

proof fn lemma_count_true_missing(s: Seq<bool>)
    requires
        count_true(s) < s.len(),
    ensures
        exists|i: int| 0 <= i < s.len() && !s[i],
    decreases s.len(),
{
    if s.len() > 0 {
        if !s.last() {
            assert(!s[s.len() - 1]);
        } else {
            lemma_count_true_bounds(s.drop_last());
            lemma_count_true_missing(s.drop_last());
            let i = choose|i: int| 0 <= i < s.drop_last().len() && !s.drop_last()[i];
            assert(!s[i]);
        }
    }
}

/// Along every chain the depth labels strictly increase, so a chain is no
/// longer than the label of its last node.
proof fn lemma_chain_depth_bound(dag: CircuitDag, depths: Seq<usize>, p: Seq<int>)
    requires
        depths.len() == dag.nodes@.len(),
        forall|k: int|
            0 <= k < dag.edges@.len() ==> depths[(#[trigger] dag.edges@[k]).0 as int]
                < depths[dag.edges@[k].1 as int],
        forall|i: int| 0 <= i < depths.len() ==> 1 <= #[trigger] depths[i],
        node_chain(dag, p),
    ensures
        p.len() <= depths[p.last()],
    decreases p.len(),
{
    if p.len() == 1 {
        assert(1 <= depths[p.last()]);
    } else {
        let q = p.drop_last();
        assert forall|i: int| 0 <= i < q.len() - 1 implies edge_in(
            dag.edges@,
            #[trigger] q[i],
            q[i + 1],
        ) by {
            assert(q[i] == p[i] && q[i + 1] == p[i + 1]);
            assert(edge_in(dag.edges@, p[i], p[i + 1]));
        };
        assert(node_chain(dag, q));
        lemma_chain_depth_bound(dag, depths, q);
        assert(edge_in(dag.edges@, p[p.len() - 2], p[p.len() - 1]));
        let k = choose|k: int|
            0 <= k < dag.edges@.len() && (#[trigger] dag.edges@[k]).0 == p[p.len() - 2]
                && dag.edges@[k].1 == p[p.len() - 1];
        assert(depths[p[p.len() - 2]] < depths[p.last()]);
        assert(q.last() == p[p.len() - 2]);
    }
}

/// Every node is the endpoint of a chain exactly as long as its depth label.
proof fn lemma_chain_witness(dag: CircuitDag, depths: Seq<usize>, i: int)
    requires
        depths.len() == dag.nodes@.len(),
        forall|k: int|
            0 <= k < dag.edges@.len() ==> (#[trigger] dag.edges@[k]).0 < dag.nodes@.len()
                && dag.edges@[k].1 < dag.nodes@.len(),
        forall|j: int| 0 <= j < depths.len() ==> 1 <= #[trigger] depths[j],
        forall|j: int|
            0 <= j < depths.len() ==> (#[trigger] depths[j] == 1 || exists|k: int|
                0 <= k < dag.edges@.len() && (#[trigger] dag.edges@[k]).1 == j
                    && depths[dag.edges@[k].0 as int] + 1 == depths[j]),
        0 <= i < depths.len(),
    ensures
        exists|p: Seq<int>|
            #[trigger] node_chain(dag, p) && p.last() == i && p.len() == depths[i],
    decreases depths[i],
{
    if depths[i] == 1 {
        let p = seq![i];
        assert(is_chain(dag.edges@, p));
        assert(node_chain(dag, p) && p.last() == i && p.len() == depths[i]);
    } else {
        let k = choose|k: int|
            0 <= k < dag.edges@.len() && (#[trigger] dag.edges@[k]).1 == i && depths[dag.edges@[k].0 as int]
                + 1 == depths[i];
        let from = dag.edges@[k].0 as int;
        lemma_chain_witness(dag, depths, from);
        let p0 = choose|p: Seq<int>|
            #[trigger] node_chain(dag, p) && p.last() == from && p.len() == depths[from];
        let p = p0.push(i);
        assert forall|j: int| 0 <= j < p.len() - 1 implies edge_in(
            dag.edges@,
            #[trigger] p[j],
            p[j + 1],
        ) by {
            if j < p0.len() - 1 {
                assert(p[j] == p0[j] && p[j + 1] == p0[j + 1]);
                assert(edge_in(dag.edges@, p0[j], p0[j + 1]));
            } else {
                assert(p[j] == from && p[j + 1] == i);
                assert(edge_in(dag.edges@, from, i));
            }
        };
        assert(node_chain(dag, p) && p.last() == i && p.len() == depths[i]);
    }
}

impl CircuitDag {
    /// Whether every direct predecessor of node `i` is marked in `visited`.
    fn deps_visited(&self, visited: &Vec<bool>, i: usize) -> (r: bool)
        requires
            self.wf(),
            i < self.nodes@.len(),
            visited@.len() == self.nodes@.len(),
        ensures
            r == forall|j: int|
                0 <= j < self.nodes@[i as int].depends_on@.len()
                    ==> visited@[#[trigger] self.nodes@[i as int].depends_on@[j] as int],
    {
        let mut j: usize = 0;
        while j < self.nodes[i].depends_on.len()
            invariant
                self.wf(),
                i < self.nodes@.len(),
                visited@.len() == self.nodes@.len(),
                j <= self.nodes@[i as int].depends_on@.len(),
                forall|jj: int|
                    0 <= jj < j ==> visited@[
                        #[trigger] self.nodes@[i as int].depends_on@[jj] as int],
            decreases self.nodes@[i as int].depends_on@.len() - j,
        {
            let dep = self.nodes[i].depends_on[j];
            proof {
                assert(edge_in(self.edges@, dep as int, i as int));
                let k = choose|k: int|
                    0 <= k < self.edges@.len() && (#[trigger] self.edges@[k]).0 == dep
                        && self.edges@[k].1 == i;
            }
            if !visited[dep] {
                return false;
            }
            j = j + 1;
        }
        true
    }

    /// Topological order by Kahn's rule, smallest ready id first: every node
    /// appears exactly once, and every edge's source precedes its target.
    #[verifier::rlimit(40)]
    #[verifier::spinoff_prover]
    pub fn topological_sort(&self) -> (r: Vec<usize>)
        requires
            self.wf(),
        ensures
            r@.len() == self.nodes@.len(),
            forall|j: int| 0 <= j < r@.len() ==> (#[trigger] r@[j]) < self.nodes@.len(),
            r@.no_duplicates(),
            forall|j: int, k: int|
                #![trigger r@[j], self.edges@[k]]
                0 <= j < r@.len() && 0 <= k < self.edges@.len() && self.edges@[k].1 == r@[j]
                    ==> exists|j2: int| 0 <= j2 < j && r@[j2] == self.edges@[k].0,
            // ties break deterministically: each position holds the smallest
            // not-yet-placed node whose predecessors are all placed, so equal
            // DAGs yield identical orders
            forall|j: int, m: usize|
                #![trigger r@.subrange(0, j).contains(m)]
                0 <= j < r@.len() && (m as int) < self.nodes@.len() && m < r@[j]
                    && !r@.subrange(0, j).contains(m) ==> exists|d: int|
                    0 <= d < self.nodes@[m as int].depends_on@.len() && !r@.subrange(
                        0,
                        j,
                    ).contains(#[trigger] self.nodes@[m as int].depends_on@[d]),
    {
        let n = self.nodes.len();
        let mut visited: Vec<bool> = vec![false; n];
        let mut result: Vec<usize> = Vec::new();
        proof {
            lemma_count_true_zero(visited@);
        }
        while result.len() < n
            invariant
                self.wf(),
                n == self.nodes@.len(),
                visited@.len() == n,
                result@.len() <= n,
                result@.no_duplicates(),
                forall|j: int| 0 <= j < result@.len() ==> (#[trigger] result@[j]) < n,
                forall|i: int| 0 <= i < n ==> (visited@[i] <==> result@.contains(i as usize)),
                result@.len() == count_true(visited@),
                forall|j: int, k: int|
                    #![trigger result@[j], self.edges@[k]]
                    0 <= j < result@.len() && 0 <= k < self.edges@.len() && self.edges@[k].1
                        == result@[j] ==> exists|j2: int| 0 <= j2 < j && result@[j2]
                        == self.edges@[k].0,
                forall|j: int, m: usize|
                    #![trigger result@.subrange(0, j).contains(m)]
                    0 <= j < result@.len() && (m as int) < n && m < result@[j]
                        && !result@.subrange(0, j).contains(m) ==> exists|d: int|
                        0 <= d < self.nodes@[m as int].depends_on@.len() && !result@.subrange(
                            0,
                            j,
                        ).contains(#[trigger] self.nodes@[m as int].depends_on@[d]),
            decreases n - result@.len(),
        {
            let mut pick: Option<usize> = None;
            let mut i: usize = 0;
            while i < n
                invariant
                    self.wf(),
                    n == self.nodes@.len(),
                    visited@.len() == n,
                    i <= n,
                    match pick {
                        Some(p) => p < n && !visited@[p as int] && (forall|j: int|
                            0 <= j < self.nodes@[p as int].depends_on@.len()
                                ==> visited@[#[trigger] self.nodes@[p as int].depends_on@[j] as int])
                            && (forall|ii: int|
                            0 <= ii < p ==> (visited@[ii] || exists|j: int|
                                0 <= j < self.nodes@[ii].depends_on@.len()
                                    && !visited@[#[trigger] self.nodes@[ii].depends_on@[j] as int])),
                        None => forall|ii: int|
                            0 <= ii < i ==> (visited@[ii] || exists|j: int|
                                0 <= j < self.nodes@[ii].depends_on@.len()
                                    && !visited@[#[trigger] self.nodes@[ii].depends_on@[j] as int]),
                    },
                decreases n - i,
            {
                if pick.is_none() && !visited[i] {
                    if self.deps_visited(&visited, i) {
                        pick = Some(i);
                    }
                }
                i = i + 1;
            }
            proof {
                if pick is None {
                    // some node is still unvisited, and the acyclic graph
                    // must offer one whose predecessors are all visited
                    lemma_count_true_bounds(visited@);
                    lemma_count_true_missing(visited@);
                    let u = choose|i: int| 0 <= i < n && !visited@[i];
                    let s = Set::new(|m: int| 0 <= m < n && !visited@[m]);
                    crate::graph::lemma_source_exists(self.edges@, n as int, s, u);
                    let m = choose|m: int|
                        #[trigger] s.contains(m) && forall|x: int|
                            #[trigger] edge_in(self.edges@, x, m) ==> !s.contains(x);
                    // every predecessor of m is visited
                    assert forall|j: int|
                        0 <= j < self.nodes@[m].depends_on@.len() implies visited@[
                        #[trigger] self.nodes@[m].depends_on@[j] as int] by {
                        let d = self.nodes@[m].depends_on@[j];
                        assert(edge_in(self.edges@, d as int, m));
                        let k = choose|k: int|
                            0 <= k < self.edges@.len() && (#[trigger] self.edges@[k]).0 == d
                                && self.edges@[k].1 == m;
                        assert(!s.contains(d as int));
                    };
                    assert(false);
                }
            }
            let p = pick.unwrap();
            let ghost pre_visited = visited@;
            proof {
                lemma_count_true_update(visited@, p as int);
                assert(!result@.contains(p));
            }
            visited[p] = true;
            let ghost pre_result = result@;
            result.push(p);
            proof {
                assert forall|i2: int| 0 <= i2 < n implies (visited@[i2] <==> result@.contains(
                    i2 as usize,
                )) by {
                    if visited@[i2] {
                        if i2 == p as int {
                            assert(result@.last() == p);
                        } else {
                            assert(pre_result.contains(i2 as usize));
                            let j = choose|j: int|
                                0 <= j < pre_result.len() && pre_result[j] == i2 as usize;
                            assert(result@[j] == i2 as usize);
                        }
                    } else {
                        if result@.contains(i2 as usize) {
                            let j = choose|j: int|
                                0 <= j < result@.len() && result@[j] == i2 as usize;
                            assert(j < pre_result.len());
                            assert(pre_result[j] == i2 as usize);
                        }
                    }
                };
                assert forall|j: int, k: int|
                    #![trigger result@[j], self.edges@[k]]
                    0 <= j < result@.len() && 0 <= k < self.edges@.len() && self.edges@[k].1
                        == result@[j] implies exists|j2: int| 0 <= j2 < j && result@[j2]
                    == self.edges@[k].0 by {
                    if j < pre_result.len() {
                        assert(pre_result[j] == result@[j]);
                        let j2 = choose|j2: int| 0 <= j2 < j && pre_result[j2] == self.edges@[k].0;
                        assert(result@[j2] == self.edges@[k].0);
                    } else {
                        // the new entry: its predecessor was visited, hence
                        // already in the order
                        assert(result@[j] == p);
                        let from = self.edges@[k].0;
                        assert(self.nodes@[p as int].depends_on@.contains(from));
                        let jj = choose|jj: int|
                            0 <= jj < self.nodes@[p as int].depends_on@.len()
                                && self.nodes@[p as int].depends_on@[jj] == from;
                        assert(pre_visited[from as int]);
                        assert(pre_result.contains(from));
                        let j2 = choose|j2: int|
                            0 <= j2 < pre_result.len() && pre_result[j2] == from;
                        assert(result@[j2] == from);
                    }
                };
                // minimality: below each placed node, every unplaced node
                // still waits on an unplaced predecessor
                assert forall|j: int, m: usize|
                    #![trigger result@.subrange(0, j).contains(m)]
                    0 <= j < result@.len() && (m as int) < n && m < result@[j]
                        && !result@.subrange(0, j).contains(m) implies exists|d: int|
                    0 <= d < self.nodes@[m as int].depends_on@.len() && !result@.subrange(
                        0,
                        j,
                    ).contains(#[trigger] self.nodes@[m as int].depends_on@[d]) by {
                    if j < pre_result.len() {
                        assert(result@.subrange(0, j) =~= pre_result.subrange(0, j));
                        assert(result@[j] == pre_result[j]);
                        assert(!pre_result.subrange(0, j).contains(m));
                        let d = choose|d: int|
                            0 <= d < self.nodes@[m as int].depends_on@.len()
                                && !pre_result.subrange(0, j).contains(
                                #[trigger] self.nodes@[m as int].depends_on@[d],
                            );
                        assert(!result@.subrange(0, j).contains(
                            self.nodes@[m as int].depends_on@[d],
                        ));
                    } else {
                        assert(j == pre_result.len() as int);
                        assert(result@.subrange(0, j) =~= pre_result);
                        assert(result@[j] == p);
                        assert(!pre_result.contains(m));
                        assert(!pre_visited[m as int]);
                        assert(exists|jj: int|
                            0 <= jj < self.nodes@[m as int].depends_on@.len() && !pre_visited[
                                #[trigger] self.nodes@[m as int].depends_on@[jj] as int]);
                        let d = choose|jj: int|
                            0 <= jj < self.nodes@[m as int].depends_on@.len() && !pre_visited[
                                #[trigger] self.nodes@[m as int].depends_on@[jj] as int];
                        let dep = self.nodes@[m as int].depends_on@[d];
                        assert(edge_in(self.edges@, dep as int, m as int));
                        let ke = choose|ke: int|
                            0 <= ke < self.edges@.len() && (#[trigger] self.edges@[ke]).0 == dep
                                && self.edges@[ke].1 == m;
                        assert((dep as int) < n);
                        assert(!pre_result.contains(dep));
                        assert(!result@.subrange(0, j).contains(dep));
                    }
                };
            }
        }
        result
    }
}

/// A duplicate-free list of `n` indices below `n` contains every index below
/// `n`.
proof fn lemma_permutation_covers(order: Seq<usize>, n: int, i: usize)
    requires
        order.len() == n,
        forall|j: int| 0 <= j < n ==> (#[trigger] order[j]) < n,
        order.no_duplicates(),
        0 <= i < n,
    ensures
        order.contains(i),
{
    vstd::set_lib::lemma_int_range(0, n);
    let ints = order.map_values(|x: usize| x as int);
    assert forall|a: int, b: int|
        0 <= a < ints.len() && 0 <= b < ints.len() && a != b implies ints[a] != ints[b] by {
        assert(order[a] != order[b]);
    };
    assert(ints.no_duplicates());
    ints.unique_seq_to_set();
    let s = ints.to_set();
    if !order.contains(i) {
        let smaller = vstd::set_lib::set_int_range(0, n).remove(i as int);
        assert forall|x: int| s.contains(x) implies smaller.contains(x) by {
            let j = choose|j: int| 0 <= j < ints.len() && ints[j] == x;
            assert(order[j] < n);
            assert(order[j] != i);
        };
        vstd::set_lib::lemma_len_subset(s, smaller);
        assert(smaller.len() == n - 1);
        assert(false);
    }
}

/// Two DAGs with the same node count and the same edges have the same depth.
proof fn lemma_same_structure_depth(a: CircuitDag, b: CircuitDag, d: int)
    requires
        a.nodes@.len() == b.nodes@.len(),
        a.edges@ == b.edges@,
        is_depth(a, d),
    ensures
        is_depth(b, d),
{
    assert forall|p: Seq<int>| #[trigger] node_chain(b, p) implies p.len() <= d by {
        assert(node_chain(a, p));
    };
    if b.nodes@.len() > 0 {
        let p = choose|p: Seq<int>| #[trigger] node_chain(a, p) && p.len() == d;
        assert(node_chain(b, p));
    }
}

/// The largest entry of a non-empty list of positive labels.
fn max_label(labels: &Vec<usize>) -> (r: usize)
    requires
        labels@.len() >= 1,
        forall|i: int| 0 <= i < labels@.len() ==> 1 <= #[trigger] labels@[i],
    ensures
        1 <= r,
        forall|i: int| 0 <= i < labels@.len() ==> #[trigger] labels@[i] <= r,
        exists|i: int| 0 <= i < labels@.len() && #[trigger] labels@[i] == r,
{
    let n = labels.len();
    let mut r = labels[0];
    let mut i: usize = 1;
    while i < n
        invariant
            n == labels@.len(),
            1 <= i <= n,
            forall|j: int| 0 <= j < labels@.len() ==> 1 <= #[trigger] labels@[j],
            1 <= r,
            forall|j: int| 0 <= j < i ==> #[trigger] labels@[j] <= r,
            exists|j: int| 0 <= j < i && #[trigger] labels@[j] == r,
        decreases n - i,
    {
        if labels[i] > r {
            r = labels[i];
        }
        i = i + 1;
    }
    r
}

/// Collects, per label value `1 ..= d`, the indices carrying that label, in
/// ascending order.
fn build_layers(labels: &Vec<usize>, d: usize) -> (r: Vec<Vec<usize>>)
    requires
        forall|i: int| 0 <= i < labels@.len() ==> 1 <= #[trigger] labels@[i] && labels@[i] <= d,
    ensures
        r@.len() == d,
        forall|g: int| 0 <= g < d ==> (#[trigger] r@[g])@.no_duplicates(),
        forall|g: int, i: usize|
            #![trigger r@[g]@.contains(i)]
            0 <= g < d ==> (r@[g]@.contains(i) <==> ((i as int) < labels@.len()
                && labels@[i as int] == g + 1)),
{
    let n = labels.len();
    let mut groups: Vec<Vec<usize>> = Vec::new();
    let mut g: usize = 0;
    while g < d
        invariant
            n == labels@.len(),
            groups@.len() == g,
            g <= d,
            forall|g1: int| 0 <= g1 < g ==> (#[trigger] groups@[g1])@.no_duplicates(),
            forall|g1: int, i1: usize|
                #![trigger groups@[g1]@.contains(i1)]
                0 <= g1 < g ==> (groups@[g1]@.contains(i1) <==> ((i1 as int) < n
                    && labels@[i1 as int] == g1 + 1)),
        decreases d - g,
    {
        let mut layer: Vec<usize> = Vec::new();
        let mut i2: usize = 0;
        while i2 < n
            invariant
                n == labels@.len(),
                g < d,
                i2 <= n,
                layer@.no_duplicates(),
                forall|j: int| 0 <= j < layer@.len() ==> (#[trigger] layer@[j] as int) < i2,
                forall|i1: usize|
                    #![trigger layer@.contains(i1)]
                    layer@.contains(i1) <==> ((i1 as int) < i2 && labels@[i1 as int] == g + 1),
            decreases n - i2,
        {
            if labels[i2] == g + 1 {
                let ghost pre = layer@;
                layer.push(i2);
                proof {
                    assert(layer@.last() == i2);
                    assert forall|i1: usize| #[trigger] layer@.contains(i1) implies ((i1 as int)
                        < i2 + 1 && labels@[i1 as int] == g + 1) by {
                        let j = choose|j: int| 0 <= j < layer@.len() && layer@[j] == i1;
                        if j < pre.len() {
                            assert(pre.contains(i1));
                        }
                    };
                    assert forall|i1: usize|
                        ((i1 as int) < i2 + 1 && labels@[i1 as int] == g + 1) implies
                        #[trigger] layer@.contains(i1) by {
                        if (i1 as int) < i2 {
                            assert(pre.contains(i1));
                            let j = choose|j: int| 0 <= j < pre.len() && pre[j] == i1;
                            assert(layer@[j] == i1);
                        } else {
                            assert(layer@.last() == i1);
                        }
                    };
                }
            } else {
                proof {
                    assert forall|i1: usize|
                        ((i1 as int) < i2 + 1 && labels@[i1 as int] == g + 1) implies
                        #[trigger] layer@.contains(i1) by {
                        assert((i1 as int) != i2 as int);
                    };
                }
            }
            i2 = i2 + 1;
        }
        let ghost pre_groups = groups@;
        groups.push(layer);
        proof {
            assert forall|g1: int, i1: usize|
                #![trigger groups@[g1]@.contains(i1)]
                0 <= g1 < g + 1 implies (groups@[g1]@.contains(i1) <==> ((i1 as int) < n
                    && labels@[i1 as int] == g1 + 1)) by {
                if g1 < g as int {
                    assert(groups@[g1] == pre_groups[g1]);
                } else {
                    assert(groups@[g1] == layer);
                }
            };
        }
        g = g + 1;
    }
    groups
}

/// The members of `layer` other than `member`, in order.
fn layer_peers(layer: &Vec<usize>, member: usize) -> (r: Vec<usize>)
    ensures
        forall|x: usize|
            #![trigger r@.contains(x)]
            r@.contains(x) <==> (layer@.contains(x) && x != member),
{
    let mut peers: Vec<usize> = Vec::new();
    let mut jj: usize = 0;
    let n = layer.len();
    while jj < n
        invariant
            n == layer@.len(),
            jj <= n,
            forall|x: usize|
                #![trigger peers@.contains(x)]
                peers@.contains(x) <==> (exists|j2: int|
                    0 <= j2 < jj && #[trigger] layer@[j2] == x && x != member),
        decreases n - jj,
    {
        let other = layer[jj];
        if other != member {
            let ghost pre_peers = peers@;
            peers.push(other);
            proof {
                assert(peers@.last() == other);
                assert forall|x: usize| #[trigger] peers@.contains(x) implies (exists|j2: int|
                    0 <= j2 < jj + 1 && #[trigger] layer@[j2] == x && x != member) by {
                    let jx = choose|jx: int| 0 <= jx < peers@.len() && peers@[jx] == x;
                    if jx < pre_peers.len() {
                        assert(pre_peers.contains(x));
                    } else {
                        assert(x == other);
                        assert(layer@[jj as int] == x);
                    }
                };
                assert forall|x: usize|
                    (exists|j2: int| 0 <= j2 < jj + 1 && #[trigger] layer@[j2] == x && x != member)
                    implies #[trigger] peers@.contains(x) by {
                    let j2 = choose|j2: int|
                        0 <= j2 < jj + 1 && #[trigger] layer@[j2] == x && x != member;
                    if j2 < jj as int {
                        assert(pre_peers.contains(x));
                        let jx = choose|jx: int|
                            0 <= jx < pre_peers.len() && pre_peers[jx] == x;
                        assert(peers@[jx] == x);
                    } else {
                        assert(peers@.last() == x);
                    }
                };
            }
        } else {
            proof {
                assert forall|x: usize|
                    (exists|j2: int| 0 <= j2 < jj + 1 && #[trigger] layer@[j2] == x && x != member)
                    implies #[trigger] peers@.contains(x) by {
                    let j2 = choose|j2: int|
                        0 <= j2 < jj + 1 && #[trigger] layer@[j2] == x && x != member;
                    assert(j2 != jj as int);
                };
            }
        }
        jj = jj + 1;
    }
    proof {
        assert forall|x: usize| #[trigger] peers@.contains(x) implies (layer@.contains(x) && x
            != member) by {
            let j2 = choose|j2: int| 0 <= j2 < n && #[trigger] layer@[j2] == x && x != member;
        };
        assert forall|x: usize| (layer@.contains(x) && x != member) implies #[trigger] peers@.contains(
            x,
        ) by {
            let j2 = choose|j2: int| 0 <= j2 < layer@.len() && layer@[j2] == x;
        };
    }
    peers
}

impl CircuitDag {
    /// Critical-path label per node: `1 +` the maximum label among direct
    /// predecessors, `1` at sources.
    fn compute_depths(&self) -> (r: Vec<usize>)
        requires
            self.wf(),
        ensures
            r@.len() == self.nodes@.len(),
            forall|i: int| 0 <= i < r@.len() ==> 1 <= #[trigger] r@[i] && r@[i] <= r@.len(),
            forall|k: int|
                0 <= k < self.edges@.len() ==> r@[(#[trigger] self.edges@[k]).0 as int]
                    < r@[self.edges@[k].1 as int],
            forall|i: int|
                0 <= i < r@.len() ==> (#[trigger] r@[i] == 1 || exists|k: int|
                    0 <= k < self.edges@.len() && (#[trigger] self.edges@[k]).1 == i
                        && r@[self.edges@[k].0 as int] + 1 == r@[i]),
    {
        let n = self.nodes.len();
        let order = self.topological_sort();
        let mut depths: Vec<usize> = vec![0; n];
        let mut idx: usize = 0;
        while idx < n
            invariant
                self.wf(),
                n == self.nodes@.len(),
                order@.len() == n,
                forall|j: int| 0 <= j < n ==> (#[trigger] order@[j]) < n,
                order@.no_duplicates(),
                forall|j: int, k: int|
                    #![trigger order@[j], self.edges@[k]]
                    0 <= j < n && 0 <= k < self.edges@.len() && self.edges@[k].1 == order@[j]
                        ==> exists|j2: int| 0 <= j2 < j && order@[j2] == self.edges@[k].0,
                idx <= n,
                depths@.len() == n,
                forall|i: int|
                    0 <= i < n ==> ((#[trigger] depths@[i] >= 1) <==> exists|j: int|
                        0 <= j < idx && order@[j] == i),
                forall|i: int| 0 <= i < n ==> #[trigger] depths@[i] <= idx,
                forall|k: int|
                    0 <= k < self.edges@.len() && depths@[(#[trigger] self.edges@[k]).1 as int]
                        >= 1 ==> depths@[self.edges@[k].0 as int] >= 1
                        && depths@[self.edges@[k].0 as int] < depths@[self.edges@[k].1 as int],
                forall|i: int|
                    0 <= i < n && #[trigger] depths@[i] >= 1 ==> (depths@[i] == 1 || exists|k: int|
                        0 <= k < self.edges@.len() && (#[trigger] self.edges@[k]).1 == i
                            && depths@[self.edges@[k].0 as int] >= 1
                            && depths@[self.edges@[k].0 as int] + 1 == depths@[i]),
            decreases n - idx,
        {
            let nodeid = order[idx];
            let mut m: usize = 0;
            let mut jj: usize = 0;
            let ghost deps = self.nodes@[nodeid as int].depends_on@;
            while jj < self.nodes[nodeid].depends_on.len()
                invariant
                    self.wf(),
                    n == self.nodes@.len(),
                    nodeid < n,
                    depths@.len() == n,
                    deps == self.nodes@[nodeid as int].depends_on@,
                    jj <= deps.len(),
                    idx < n,
                    forall|i: int| 0 <= i < n ==> #[trigger] depths@[i] <= idx,
                    forall|kk: int| 0 <= kk < jj ==> depths@[(#[trigger] deps[kk]) as int] <= m,
                    m == 0 || exists|kk: int|
                        0 <= kk < jj && depths@[(#[trigger] deps[kk]) as int] == m,
                    m <= idx,
                decreases deps.len() - jj,
            {
                let dep = self.nodes[nodeid].depends_on[jj];
                proof {
                    assert(edge_in(self.edges@, dep as int, nodeid as int));
                    let k = choose|k: int|
                        0 <= k < self.edges@.len() && (#[trigger] self.edges@[k]).0 == dep
                            && self.edges@[k].1 == nodeid;
                }
                if depths[dep] > m {
                    m = depths[dep];
                }
                jj = jj + 1;
            }
            proof {
                // the node at this position has not been processed yet
                if depths@[nodeid as int] >= 1 {
                    let j = choose|j: int| 0 <= j < idx && order@[j] == nodeid as int;
                    assert(order@[j] == order@[idx as int]);
                    assert(false);
                }
            }
            let ghost pre_depths = depths@;
            depths[nodeid] = m + 1;
            proof {
                let e = self.edges@;
                // predecessors of this node are all processed and no deeper
                // than the maximum the scan found
                assert forall|k: int|
                    0 <= k < e.len() && depths@[(#[trigger] e[k]).1 as int] >= 1 implies depths@[e[k].0 as int]
                    >= 1 && depths@[e[k].0 as int] < depths@[e[k].1 as int] by {
                    let from = e[k].0 as int;
                    let to = e[k].1 as int;
                    if to == nodeid as int {
                        // a self-loop would contradict acyclicity
                        if from == to {
                            lemma_reaches_self(e, from);
                            assert(false);
                        }
                        assert(self.nodes@[to].depends_on@.contains(e[k].0));
                        let kk = choose|kk: int|
                            0 <= kk < deps.len() && deps[kk] == e[k].0;
                        assert(pre_depths[from] <= m);
                        // `from` was processed: the order places it before
                        assert(edge_in(e, from, to));
                        assert(order@[idx as int] == e[k].1);
                        let j2 = choose|j2: int| 0 <= j2 < idx && order@[j2] == e[k].0;
                        assert(pre_depths[from] >= 1);
                        assert(depths@[from] == pre_depths[from]);
                    } else {
                        if from == nodeid as int {
                            // an out-edge to a processed node would put this
                            // node earlier in the order, contradicting that it
                            // was unprocessed
                            assert(pre_depths[to] == depths@[to]);
                            assert(pre_depths[to] >= 1);
                            assert(pre_depths[from] >= 1);
                            assert(false);
                        }
                        assert(depths@[from] == pre_depths[from]);
                        assert(depths@[to] == pre_depths[to]);
                    }
                };
                assert forall|i: int|
                    0 <= i < n && #[trigger] depths@[i] >= 1 implies (depths@[i] == 1 || exists|k:
                int|
                    0 <= k < e.len() && (#[trigger] e[k]).1 == i && depths@[e[k].0 as int] >= 1
                        && depths@[e[k].0 as int] + 1 == depths@[i]) by {
                    if i == nodeid as int {
                        if m > 0 {
                            let kk = choose|kk: int|
                                0 <= kk < deps.len() && pre_depths[(#[trigger] deps[kk]) as int]
                                    == m;
                            assert(edge_in(e, deps[kk] as int, i));
                            let k = choose|k: int|
                                0 <= k < e.len() && (#[trigger] e[k]).0 == deps[kk] && e[k].1
                                    == nodeid;
                            assert(pre_depths[deps[kk] as int] >= 1 || pre_depths[deps[kk] as int]
                                == 0);
                            if pre_depths[deps[kk] as int] == 0 {
                                assert(m == 0);
                                assert(false);
                            }
                            assert(deps[kk] as int != i);
                            assert(depths@[e[k].0 as int] + 1 == depths@[i]);
                        }
                    } else {
                        assert(depths@[i] == pre_depths[i]);
                        if pre_depths[i] != 1 {
                            let k = choose|k: int|
                                0 <= k < e.len() && (#[trigger] e[k]).1 == i && pre_depths[e[k].0 as int]
                                    >= 1 && pre_depths[e[k].0 as int] + 1 == pre_depths[i];
                            assert(e[k].0 as int != nodeid as int);
                            assert(depths@[e[k].0 as int] == pre_depths[e[k].0 as int]);
                        }
                    }
                };
            }
            idx = idx + 1;
        }
        proof {
            assert forall|i: int| 0 <= i < n implies 1 <= #[trigger] depths@[i] by {
                lemma_permutation_covers(order@, n as int, i as usize);
                let j = choose|j: int| 0 <= j < order@.len() && order@[j] == i as usize;
            }
        }
        depths
    }

    /// Partitions the nodes into parallel-executable layers: a node's layer
    /// is its longest predecessor distance, so layers are pairwise disjoint,
    /// cover every node, and every edge points into a strictly later layer.
    /// Also repopulates every node's `parallel_with` with the other members
    /// of its layer, and memoises the depth (the number of layers).
    #[verifier::spinoff_prover]
    pub fn compute_parallel_groups(&mut self) -> (r: Vec<Vec<usize>>)
        requires
            old(self).wf(),
        ensures
            final(self).wf(),
            final(self).edges@ == old(self).edges@,
            final(self).inputs@ == old(self).inputs@,
            final(self).outputs@ == old(self).outputs@,
            final(self).metadata == old(self).metadata,
            final(self).nodes@.len() == old(self).nodes@.len(),
            forall|i: int|
                0 <= i < old(self).nodes@.len() ==> {
                    &&& (#[trigger] final(self).nodes@[i]).id == old(self).nodes@[i].id
                    &&& final(self).nodes@[i].op == old(self).nodes@[i].op
                    &&& final(self).nodes@[i].depends_on@ == old(self).nodes@[i].depends_on@
                    &&& final(self).nodes@[i].qubits@ == old(self).nodes@[i].qubits@
                },
            final(self).cached_depth == Some(r@.len() as usize),
            r@.len() <= usize::MAX,
            is_depth(*final(self), r@.len() as int),
            forall|g: int| 0 <= g < r@.len() ==> (#[trigger] r@[g])@.no_duplicates(),
            forall|g: int, j: int|
                0 <= g < r@.len() && 0 <= j < r@[g]@.len() ==> ((#[trigger] r@[g]@[j]) as int)
                    < final(self).nodes@.len(),
            forall|i: usize|
                (i as int) < final(self).nodes@.len() ==> #[trigger] covered_by_layers(r@, i),
            forall|g1: int, g2: int, i: usize|
                #![trigger r@[g1]@.contains(i), r@[g2]@.contains(i)]
                0 <= g1 < r@.len() && 0 <= g2 < r@.len() && g1 != g2 && r@[g1]@.contains(i)
                    ==> !r@[g2]@.contains(i),
            forall|k: int, g1: int, g2: int|
                #![trigger final(self).edges@[k], r@[g1], r@[g2]]
                0 <= k < final(self).edges@.len() && 0 <= g1 < r@.len() && 0 <= g2 < r@.len()
                    && r@[g1]@.contains(final(self).edges@[k].0) && r@[g2]@.contains(
                    final(self).edges@[k].1,
                ) ==> g1 < g2,
            // a node's layer is its longest-predecessor distance: every node
            // beyond the first layer has a predecessor in the layer before it
            forall|g: int, j: int|
                #![trigger r@[g]@[j]]
                1 <= g < r@.len() && 0 <= j < r@[g]@.len() ==> exists|k: int|
                    0 <= k < final(self).edges@.len() && (#[trigger] final(self).edges@[k]).1
                        == r@[g]@[j] && r@[g - 1]@.contains(final(self).edges@[k].0),
            forall|g: int, j: int, x: usize|
                #![trigger r@[g]@[j], final(self).nodes@[r@[g]@[j] as int].parallel_with@.contains(x)]
                0 <= g < r@.len() && 0 <= j < r@[g]@.len() ==> (final(self).nodes@[r@[g]@[j] as int].parallel_with@.contains(
                    x,
                ) <==> (r@[g]@.contains(x) && x != r@[g]@[j])),
    {
        let n = self.nodes.len();
        if n == 0 {
            self.cached_depth = Some(0);
            proof {
                assert forall|p: Seq<int>| #[trigger] node_chain(*old(self), p) implies p.len()
                    <= 0 by {
                    assert(0 <= p[0] < old(self).nodes@.len());
                };
                assert(is_depth(*old(self), 0));
                lemma_same_structure_depth(*old(self), *self, 0);
            }
            return Vec::new();
        }
        let depths = self.compute_depths();
        let d = max_label(&depths);
        let groups = build_layers(&depths, d);
        self.populate_parallel(&groups, Ghost(depths@));
        self.cached_depth = Some(d);
        proof {
            let dd = d as int;
            assert forall|p: Seq<int>| #[trigger] node_chain(*old(self), p) implies p.len()
                <= dd by {
                lemma_chain_depth_bound(*old(self), depths@, p);
                assert(0 <= p.last() < n);
            };
            let u = choose|u: int| 0 <= u < depths@.len() && depths@[u] == d;
            lemma_chain_witness(*old(self), depths@, u);
            assert(is_depth(*old(self), dd));
            lemma_same_structure_depth(*old(self), *self, dd);
            // every edge crosses into a strictly later layer
            assert forall|k: int, g1: int, g3: int|
                #![trigger self.edges@[k], groups@[g1], groups@[g3]]
                0 <= k < self.edges@.len() && 0 <= g1 < groups@.len() && 0 <= g3 < groups@.len()
                    && groups@[g1]@.contains(self.edges@[k].0) && groups@[g3]@.contains(
                    self.edges@[k].1,
                ) implies g1 < g3 by {
                assert(depths@[self.edges@[k].0 as int] < depths@[self.edges@[k].1 as int]);
            };
            // every node sits in the layer of its depth label
            assert forall|i1: usize| (i1 as int) < n implies covered_by_layers(
                groups@,
                i1,
            ) by {
                let g1 = depths@[i1 as int] - 1;
                assert(0 <= g1 < dd);
                assert(groups@[g1]@.contains(i1));
            };
            assert forall|g1: int, j1: int|
                0 <= g1 < groups@.len() && 0 <= j1 < groups@[g1]@.len() implies ((
            #[trigger] groups@[g1]@[j1]) as int) < n by {
                assert(groups@[g1]@.contains(groups@[g1]@[j1]));
            };
            // a non-first layer's member has a predecessor one layer down
            assert forall|g1: int, j1: int|
                #![trigger groups@[g1]@[j1]]
                1 <= g1 < groups@.len() && 0 <= j1 < groups@[g1]@.len() implies exists|k: int|
                0 <= k < self.edges@.len() && (#[trigger] self.edges@[k]).1 == groups@[g1]@[j1]
                    && groups@[g1 - 1]@.contains(self.edges@[k].0) by {
                let i1 = groups@[g1]@[j1];
                assert(groups@[g1]@.contains(i1));
                assert((i1 as int) < n && depths@[i1 as int] == g1 + 1);
                assert(depths@[i1 as int] >= 2);
                let k = choose|k: int|
                    0 <= k < self.edges@.len() && (#[trigger] self.edges@[k]).1 == i1
                        && depths@[self.edges@[k].0 as int] + 1 == depths@[i1 as int];
                assert((self.edges@[k].0 as int) < n);
                assert(depths@[self.edges@[k].0 as int] == g1);
                assert(groups@[g1 - 1]@.contains(self.edges@[k].0));
            };
        }
        groups
    }

    /// Writes each listed node's layer peers into its `parallel_with` field.
    /// `labels` is the ghost depth labelling that `groups` partitions by.
    fn populate_parallel(
        &mut self,
        groups: &Vec<Vec<usize>>,
        Ghost(labels): Ghost<Seq<usize>>,
    )
        requires
            old(self).wf(),
            labels.len() == old(self).nodes@.len(),
            forall|g1: int| 0 <= g1 < groups@.len() ==> (#[trigger] groups@[g1])@.no_duplicates(),
            forall|g1: int, i1: usize|
                #![trigger groups@[g1]@.contains(i1)]
                0 <= g1 < groups@.len() ==> (groups@[g1]@.contains(i1) <==> ((i1 as int)
                    < old(self).nodes@.len() && labels[i1 as int] == g1 + 1)),
            forall|i: int| 0 <= i < labels.len() ==> 1 <= #[trigger] labels[i] && labels[i]
                <= groups@.len(),
        ensures
            final(self).wf(),
            final(self).edges@ == old(self).edges@,
            final(self).inputs@ == old(self).inputs@,
            final(self).outputs@ == old(self).outputs@,
            final(self).metadata == old(self).metadata,
            final(self).cached_depth == old(self).cached_depth,
            final(self).nodes@.len() == old(self).nodes@.len(),
            forall|i: int|
                0 <= i < old(self).nodes@.len() ==> {
                    &&& (#[trigger] final(self).nodes@[i]).id == old(self).nodes@[i].id
                    &&& final(self).nodes@[i].op == old(self).nodes@[i].op
                    &&& final(self).nodes@[i].depends_on@ == old(self).nodes@[i].depends_on@
                    &&& final(self).nodes@[i].qubits@ == old(self).nodes@[i].qubits@
                },
            forall|g: int, j: int, x: usize|
                #![trigger groups@[g]@[j], final(self).nodes@[groups@[g]@[j] as int].parallel_with@.contains(x)]
                0 <= g < groups@.len() && 0 <= j < groups@[g]@.len() ==> (final(self).nodes@[groups@[g]@[j] as int].parallel_with@.contains(
                    x,
                ) <==> (groups@[g]@.contains(x) && x != groups@[g]@[j])),
    {
        let n = self.nodes.len();
        let d = groups.len();
        let mut g2: usize = 0;
        while g2 < d
            invariant
                old(self).wf(),
                n == self.nodes@.len(),
                n == old(self).nodes@.len(),
                n == labels.len(),
                g2 <= d,
                groups@.len() == d,
                self.edges@ == old(self).edges@,
                self.inputs@ == old(self).inputs@,
                self.outputs@ == old(self).outputs@,
                self.metadata == old(self).metadata,
                self.cached_depth == old(self).cached_depth,
                forall|g1: int| 0 <= g1 < d ==> (#[trigger] groups@[g1])@.no_duplicates(),
                forall|g1: int, i1: usize|
                    #![trigger groups@[g1]@.contains(i1)]
                    0 <= g1 < d ==> (groups@[g1]@.contains(i1) <==> ((i1 as int) < n
                        && labels[i1 as int] == g1 + 1)),
                forall|i: int| 0 <= i < n ==> 1 <= #[trigger] labels[i] && labels[i] <= d,
                forall|i1: int|
                    0 <= i1 < n ==> {
                        &&& (#[trigger] self.nodes@[i1]).id == old(self).nodes@[i1].id
                        &&& self.nodes@[i1].op == old(self).nodes@[i1].op
                        &&& self.nodes@[i1].depends_on@ == old(self).nodes@[i1].depends_on@
                        &&& self.nodes@[i1].qubits@ == old(self).nodes@[i1].qubits@
                    },
                forall|i1: int|
                    #![trigger self.nodes@[i1].parallel_with]
                    0 <= i1 < n && 1 <= labels[i1] <= g2 ==> (forall|x: usize|
                        (#[trigger] self.nodes@[i1].parallel_with@.contains(x)) <==> (
                        groups@[labels[i1] - 1]@.contains(x) && (x as int) != i1)),
            decreases d - g2,
        {
            let mut j: usize = 0;
            while j < groups[g2].len()
                invariant
                    old(self).wf(),
                    n == self.nodes@.len(),
                    n == old(self).nodes@.len(),
                    n == labels.len(),
                    g2 < d,
                    j <= groups@[g2 as int]@.len(),
                    groups@.len() == d,
                    self.edges@ == old(self).edges@,
                    self.inputs@ == old(self).inputs@,
                    self.outputs@ == old(self).outputs@,
                    self.metadata == old(self).metadata,
                    self.cached_depth == old(self).cached_depth,
                    forall|g1: int| 0 <= g1 < d ==> (#[trigger] groups@[g1])@.no_duplicates(),
                    forall|g1: int, i1: usize|
                        #![trigger groups@[g1]@.contains(i1)]
                        0 <= g1 < d ==> (groups@[g1]@.contains(i1) <==> ((i1 as int) < n
                            && labels[i1 as int] == g1 + 1)),
                    forall|i: int| 0 <= i < n ==> 1 <= #[trigger] labels[i] && labels[i] <= d,
                    forall|i1: int|
                        0 <= i1 < n ==> {
                            &&& (#[trigger] self.nodes@[i1]).id == old(self).nodes@[i1].id
                            &&& self.nodes@[i1].op == old(self).nodes@[i1].op
                            &&& self.nodes@[i1].depends_on@ == old(self).nodes@[i1].depends_on@
                            &&& self.nodes@[i1].qubits@ == old(self).nodes@[i1].qubits@
                        },
                    forall|i1: int|
                        #![trigger self.nodes@[i1].parallel_with]
                        0 <= i1 < n && 1 <= labels[i1] <= g2 ==> (forall|x: usize|
                            (#[trigger] self.nodes@[i1].parallel_with@.contains(x)) <==> (
                            groups@[labels[i1] - 1]@.contains(x) && (x as int) != i1)),
                    forall|j1: int|
                        #![trigger groups@[g2 as int]@[j1]]
                        0 <= j1 < j ==> (forall|x: usize|
                            (#[trigger] self.nodes@[groups@[g2 as int]@[j1] as int].parallel_with@.contains(
                                x,
                            )) <==> (groups@[g2 as int]@.contains(x) && x != groups@[g2 as int]@[j1])),
                decreases groups@[g2 as int]@.len() - j,
            {
                let nodeid = groups[g2][j];
                proof {
                    assert(groups@[g2 as int]@.contains(groups@[g2 as int]@[j as int]));
                }
                let peers = layer_peers(&groups[g2], nodeid);
                let ghost pre_nodes = self.nodes@;
                self.nodes[nodeid].parallel_with = peers;
                proof {
                    assert((nodeid as int) < n && labels[nodeid as int] == g2 + 1);
                    assert forall|i1: int|
                        0 <= i1 < n && i1 != nodeid as int implies self.nodes@[i1]
                        == pre_nodes[i1] by {};
                    assert forall|j1: int|
                        #![trigger groups@[g2 as int]@[j1]]
                        0 <= j1 < j + 1 implies (forall|x: usize|
                            (#[trigger] self.nodes@[groups@[g2 as int]@[j1] as int].parallel_with@.contains(
                                x,
                            )) <==> (groups@[g2 as int]@.contains(x) && x
                            != groups@[g2 as int]@[j1])) by {
                        if j1 < j as int {
                            let other_id = groups@[g2 as int]@[j1];
                            assert(groups@[g2 as int]@.contains(other_id));
                            assert((other_id as int) < n);
                            assert(other_id != groups@[g2 as int]@[j as int]);
                            assert(self.nodes@[other_id as int] == pre_nodes[other_id as int]);
                        }
                    };
                }
                j = j + 1;
            }
            proof {
                assert forall|i1: int|
                    #![trigger self.nodes@[i1].parallel_with]
                    0 <= i1 < n && 1 <= labels[i1] <= g2 + 1 implies (forall|x: usize|
                        (#[trigger] self.nodes@[i1].parallel_with@.contains(x)) <==> (
                        groups@[labels[i1] - 1]@.contains(x) && (x as int) != i1)) by {
                    if labels[i1] == g2 + 1 {
                        assert(groups@[g2 as int]@.contains(i1 as usize));
                        let j1 = choose|j1: int|
                            0 <= j1 < groups@[g2 as int]@.len() && groups@[g2 as int]@[j1]
                                == i1 as usize;
                    }
                };
            }
            g2 = g2 + 1;
        }
        proof {
            assert forall|g: int, j: int, x: usize|
                #![trigger groups@[g]@[j], self.nodes@[groups@[g]@[j] as int].parallel_with@.contains(x)]
                0 <= g < groups@.len() && 0 <= j < groups@[g]@.len() implies (self.nodes@[groups@[g]@[j] as int].parallel_with@.contains(
                    x,
                ) <==> (groups@[g]@.contains(x) && x != groups@[g]@[j])) by {
                let i1 = groups@[g]@[j];
                assert(groups@[g]@.contains(i1));
                assert(labels[i1 as int] == g + 1);
            };
            // the structure that well-formedness speaks of is untouched
            assert forall|t: int, j: int|
                0 <= t < self.nodes@.len() && 0 <= j < (#[trigger] self.nodes@[t]).depends_on@.len()
                implies edge_in(
                self.edges@,
                #[trigger] self.nodes@[t].depends_on@[j] as int,
                t,
            ) by {
                assert(self.nodes@[t].depends_on@ == old(self).nodes@[t].depends_on@);
                assert(edge_in(old(self).edges@, old(self).nodes@[t].depends_on@[j] as int, t));
            };
            assert forall|k: int| 0 <= k < self.edges@.len() implies self.nodes@[(
            #[trigger] self.edges@[k]).1 as int].depends_on@.contains(self.edges@[k].0) by {
                assert(old(self).nodes@[old(self).edges@[k].1 as int].depends_on@.contains(
                    old(self).edges@[k].0,
                ));
            };
            match self.cached_depth {
                Some(d0) => {
                    lemma_same_structure_depth(*old(self), *self, d0 as int);
                },
                None => {},
            }
        }
    }

    /// The circuit depth: the length, in nodes, of the longest chain from any
    /// source to any sink; zero for the empty circuit.  Memoised.
    pub fn depth(&mut self) -> (r: usize)
        requires
            old(self).wf(),
        ensures
            final(self).wf(),
            final(self).nodes@ == old(self).nodes@,
            final(self).edges@ == old(self).edges@,
            final(self).inputs@ == old(self).inputs@,
            final(self).outputs@ == old(self).outputs@,
            final(self).metadata == old(self).metadata,
            final(self).cached_depth == Some(r),
            is_depth(*old(self), r as int),
    {
        if let Some(d) = self.cached_depth {
            return d;
        }
        if self.nodes.len() == 0 {
            self.cached_depth = Some(0);
            proof {
                assert forall|p: Seq<int>| #[trigger] node_chain(*old(self), p) implies p.len()
                    <= 0 by {
                    assert(0 <= p[0] < old(self).nodes@.len());
                };
                assert(is_depth(*old(self), 0));
                lemma_same_structure_depth(*old(self), *self, 0);
            }
            return 0;
        }
        let depths = self.compute_depths();
        let n = self.nodes.len();
        let mut m: usize = depths[0];
        let ghost mut u: int = 0;
        let mut i: usize = 1;
        while i < n
            invariant
                n == depths@.len(),
                1 <= i <= n,
                0 <= u < n,
                depths@[u] == m,
                forall|j: int| 0 <= j < i ==> #[trigger] depths@[j] <= m,
            decreases n - i,
        {
            if depths[i] > m {
                m = depths[i];
                proof {
                    u = i as int;
                }
            }
            i = i + 1;
        }
        self.cached_depth = Some(m);
        proof {
            assert forall|p: Seq<int>| #[trigger] node_chain(*old(self), p) implies p.len()
                <= m as int by {
                lemma_chain_depth_bound(*old(self), depths@, p);
                assert(0 <= p.last() < n);
            };
            lemma_chain_witness(*old(self), depths@, u);
            let p = choose|p: Seq<int>|
                #[trigger] node_chain(*old(self), p) && p.last() == u && p.len() == depths@[u];
            assert(is_depth(*old(self), m as int));
            lemma_same_structure_depth(*old(self), *self, m as int);
        }
        m
    }
}

/// Whether `v` holds the qubit id `q`.
fn id_vec_contains(v: &Vec<LogicalQubitId>, q: LogicalQubitId) -> (r: bool)
    ensures
        r == v@.contains(q),
{
    let mut i: usize = 0;
    while i < v.len()
        invariant
            i <= v@.len(),
            forall|k: int| 0 <= k < i ==> (#[trigger] v@[k]) != q,
        decreases v@.len() - i,
    {
        if v[i].0 == q.0 {
            return true;
        }
        i = i + 1;
    }
    false
}

/// The set of qubits touched by any node of the DAG.
pub open spec fn circuit_qubits(dag: CircuitDag) -> Set<LogicalQubitId> {
    Set::new(
        |q: LogicalQubitId|
            exists|i: int|
                0 <= i < dag.nodes@.len() && (#[trigger] dag.nodes@[i]).qubits@.contains(q),
    )
}

impl CircuitDag {
    /// The qubits the circuit uses, deduplicated, in first-appearance order.
    #[verifier::rlimit(40)]
    pub fn all_qubits(&self) -> (r: Vec<LogicalQubitId>)
        ensures
            r@.no_duplicates(),
            forall|q: LogicalQubitId| #[trigger] r@.contains(q) <==> circuit_qubits(*self).contains(q),
    {
        let mut out: Vec<LogicalQubitId> = Vec::new();
        let mut i: usize = 0;
        while i < self.nodes.len()
            invariant
                i <= self.nodes@.len(),
                out@.no_duplicates(),
                forall|q: LogicalQubitId|
                    #[trigger] out@.contains(q) <==> exists|i2: int|
                        0 <= i2 < i && (#[trigger] self.nodes@[i2]).qubits@.contains(q),
            decreases self.nodes@.len() - i,
        {
            let mut j: usize = 0;
            while j < self.nodes[i].qubits.len()
                invariant
                    i < self.nodes@.len(),
                    j <= self.nodes@[i as int].qubits@.len(),
                    out@.no_duplicates(),
                    forall|q: LogicalQubitId|
                        #[trigger] out@.contains(q) <==> ((exists|i2: int|
                            0 <= i2 < i && (#[trigger] self.nodes@[i2]).qubits@.contains(q))
                            || (exists|j2: int|
                            0 <= j2 < j && (#[trigger] self.nodes@[i as int].qubits@[j2]) == q)),
                decreases self.nodes@[i as int].qubits@.len() - j,
            {
                let q = self.nodes[i].qubits[j];
                if !id_vec_contains(&out, q) {
                    let ghost pre = out@;
                    out.push(q);
                    proof {
                        assert(out@.last() == q);
                        assert forall|q2: LogicalQubitId| #[trigger] out@.contains(q2) implies ((
                        exists|i2: int|
                            0 <= i2 < i && (#[trigger] self.nodes@[i2]).qubits@.contains(q2)) || (
                        exists|j2: int|
                            0 <= j2 < j + 1 && (#[trigger] self.nodes@[i as int].qubits@[j2])
                                == q2)) by {
                            let k = choose|k: int| 0 <= k < out@.len() && out@[k] == q2;
                            if k < pre.len() {
                                assert(pre.contains(q2));
                            } else {
                                assert(q2 == q);
                                assert(self.nodes@[i as int].qubits@[j as int] == q2);
                            }
                        };
                        assert forall|q2: LogicalQubitId|
                            ((exists|i2: int|
                                0 <= i2 < i && (#[trigger] self.nodes@[i2]).qubits@.contains(q2))
                                || (exists|j2: int|
                                0 <= j2 < j + 1 && (#[trigger] self.nodes@[i as int].qubits@[j2])
                                    == q2)) implies #[trigger] out@.contains(q2) by {
                            if q2 == q {
                                assert(out@.last() == q2);
                            } else {
                                assert(pre.contains(q2));
                                let k = choose|k: int| 0 <= k < pre.len() && pre[k] == q2;
                                assert(out@[k] == q2);
                            }
                        };
                    }
                } else {
                    proof {
                        assert(out@.contains(q));
                        assert forall|q2: LogicalQubitId|
                            ((exists|i2: int|
                                0 <= i2 < i && (#[trigger] self.nodes@[i2]).qubits@.contains(q2))
                                || (exists|j2: int|
                                0 <= j2 < j + 1 && (#[trigger] self.nodes@[i as int].qubits@[j2])
                                    == q2)) implies #[trigger] out@.contains(q2) by {
                            if (exists|i2: int|
                                0 <= i2 < i && (#[trigger] self.nodes@[i2]).qubits@.contains(q2))
                                || (exists|j2: int|
                                0 <= j2 < j && (#[trigger] self.nodes@[i as int].qubits@[j2])
                                    == q2) {
                            } else {
                                let j2 = choose|j2: int|
                                    0 <= j2 < j + 1 && (
                                    #[trigger] self.nodes@[i as int].qubits@[j2]) == q2;
                                assert(self.nodes@[i as int].qubits@[j as int] == q);
                                assert(q2 == q);
                            }
                        };
                    }
                }
                j = j + 1;
            }
            proof {
                assert forall|q2: LogicalQubitId| #[trigger] out@.contains(q2) implies exists|
                    i2: int,
                |
                    0 <= i2 < i + 1 && (#[trigger] self.nodes@[i2]).qubits@.contains(q2) by {
                    if exists|i2: int|
                        0 <= i2 < i && (#[trigger] self.nodes@[i2]).qubits@.contains(q2) {
                    } else {
                        let j2 = choose|j2: int|
                            0 <= j2 < self.nodes@[i as int].qubits@.len() && (
                            #[trigger] self.nodes@[i as int].qubits@[j2]) == q2;
                        assert(self.nodes@[i as int].qubits@.contains(q2));
                    }
                };
                assert forall|q2: LogicalQubitId|
                    (exists|i2: int|
                        0 <= i2 < i + 1 && (#[trigger] self.nodes@[i2]).qubits@.contains(q2))
                    implies #[trigger] out@.contains(q2) by {
                    let i2 = choose|i2: int|
                        0 <= i2 < i + 1 && (#[trigger] self.nodes@[i2]).qubits@.contains(q2);
                    if i2 < i as int {
                    } else {
                        let j2 = choose|j2: int|
                            0 <= j2 < self.nodes@[i2].qubits@.len()
                                && self.nodes@[i2].qubits@[j2] == q2;
                    }
                };
            }
            i = i + 1;
        }
        out
    }

    /// Number of distinct qubits the circuit touches.
    pub fn num_qubits(&self) -> (r: usize)
        ensures
            r == circuit_qubits(*self).len(),
    {
        let all = self.all_qubits();
        proof {
            all@.unique_seq_to_set();
            assert(all@.to_set() =~= circuit_qubits(*self));
        }
        all.len()
    }

    /// Whether the footprints of two nodes share no qubit.
    fn footprints_disjoint(&self, a: usize, b: usize) -> (r: bool)
        requires
            a < self.nodes@.len(),
            b < self.nodes@.len(),
        ensures
            r == forall|q: LogicalQubitId|
                !(#[trigger] self.nodes@[a as int].qubits@.contains(q)
                    && self.nodes@[b as int].qubits@.contains(q)),
    {
        let mut i: usize = 0;
        while i < self.nodes[a].qubits.len()
            invariant
                a < self.nodes@.len(),
                b < self.nodes@.len(),
                i <= self.nodes@[a as int].qubits@.len(),
                forall|k: int|
                    0 <= k < i ==> !self.nodes@[b as int].qubits@.contains(
                        #[trigger] self.nodes@[a as int].qubits@[k],
                    ),
            decreases self.nodes@[a as int].qubits@.len() - i,
        {
            let q = self.nodes[a].qubits[i];
            if id_vec_contains(&self.nodes[b].qubits, q) {
                proof {
                    assert(self.nodes@[a as int].qubits@[i as int] == q);
                    assert(self.nodes@[a as int].qubits@.contains(q));
                }
                return false;
            }
            i = i + 1;
        }
        proof {
            assert forall|q: LogicalQubitId|
                !(#[trigger] self.nodes@[a as int].qubits@.contains(q)
                    && self.nodes@[b as int].qubits@.contains(q)) by {
                if self.nodes@[a as int].qubits@.contains(q) {
                    let k = choose|k: int|
                        0 <= k < self.nodes@[a as int].qubits@.len()
                            && self.nodes@[a as int].qubits@[k] == q;
                }
            };
        }
        true
    }

    /// Whether two nodes may execute concurrently: neither reaches the other
    /// through the dependency relation, and their qubit footprints are
    /// disjoint.  Out-of-range ids are never parallel.
    pub fn can_parallel(&self, node1: usize, node2: usize) -> (r: bool)
        requires
            self.wf(),
        ensures
            r == (node1 < self.nodes@.len() && node2 < self.nodes@.len() && !reaches(
                self.edges@,
                node1 as int,
                node2 as int,
            ) && !reaches(self.edges@, node2 as int, node1 as int) && forall|q: LogicalQubitId|
                !(#[trigger] self.nodes@[node1 as int].qubits@.contains(q)
                    && self.nodes@[node2 as int].qubits@.contains(q))),
    {
        if node1 >= self.nodes.len() || node2 >= self.nodes.len() {
            return false;
        }
        if self.has_path_from(node1, node2) {
            return false;
        }
        if self.has_path_from(node2, node1) {
            return false;
        }
        self.footprints_disjoint(node1, node2)
    }

    /// Copies of the nodes whose operation is a measurement, in node order.
    pub fn measurement_nodes(&self) -> (r: Vec<OperationNode>)
        ensures
            r@.len() == self.nodes@.filter(|nd: OperationNode| nd.op is Measure).len(),
            forall|k: int|
                0 <= k < r@.len() ==> node_matches(
                    #[trigger] r@[k],
                    self.nodes@.filter(|nd: OperationNode| nd.op is Measure)[k],
                ),
    {
        let ghost pred = |nd: OperationNode| nd.op is Measure;
        let mut out: Vec<OperationNode> = Vec::new();
        let mut i: usize = 0;
        while i < self.nodes.len()
            invariant
                i <= self.nodes@.len(),
                out@.len() == self.nodes@.take(i as int).filter(
                    |nd: OperationNode| nd.op is Measure,
                ).len(),
                forall|k: int|
                    0 <= k < out@.len() ==> node_matches(
                        #[trigger] out@[k],
                        self.nodes@.take(i as int).filter(|nd: OperationNode| nd.op is Measure)[k],
                    ),
            decreases self.nodes@.len() - i,
        {
            proof {
                assert(self.nodes@.take(i + 1) == self.nodes@.take(i as int).push(
                    self.nodes@[i as int],
                ));
                self.nodes@.take(i as int).lemma_filter_push(
                    self.nodes@[i as int],
                    |nd: OperationNode| nd.op is Measure,
                );
            }
            if self.nodes[i].op.is_measurement() {
                out.push(self.nodes[i].clone());
            }
            i = i + 1;
        }
        proof {
            assert(self.nodes@.take(self.nodes@.len() as int) == self.nodes@);
        }
        out
    }
}

/// A fresh copy of an edge list.
fn copy_edge_list(edges: &Vec<(usize, usize)>) -> (r: Vec<(usize, usize)>)
    ensures
        r@ == edges@,
{
    let mut out: Vec<(usize, usize)> = Vec::new();
    let mut i: usize = 0;
    while i < edges.len()
        invariant
            i <= edges@.len(),
            out@ == edges@.take(i as int),
        decreases edges@.len() - i,
    {
        out.push((edges[i].0, edges[i].1));
        proof {
            assert(edges@[i as int] == (edges@[i as int].0, edges@[i as int].1));
            assert(edges@.take(i + 1) == edges@.take(i as int).push(edges@[i as int]));
        }
        i = i + 1;
    }
    proof {
        assert(edges@.take(edges@.len() as int) == edges@);
    }
    out
}

/// Structural sameness of two DAGs, down to the views of their list fields.
pub open spec fn dag_matches(a: CircuitDag, b: CircuitDag) -> bool {
    &&& a.nodes@.len() == b.nodes@.len()
    &&& forall|i: int| 0 <= i < a.nodes@.len() ==> node_matches(#[trigger] a.nodes@[i], b.nodes@[i])
    &&& a.edges@ == b.edges@
    &&& a.inputs@ == b.inputs@
    &&& a.outputs@ == b.outputs@
    &&& circuit_metadata_matches(a.metadata, b.metadata)
    &&& a.cached_depth == b.cached_depth
}

impl Clone for CircuitDag {
    fn clone(&self) -> (res: Self)
        ensures
            dag_matches(res, *self),
    {
        let mut nodes: Vec<OperationNode> = Vec::new();
        let mut i: usize = 0;
        while i < self.nodes.len()
            invariant
                i <= self.nodes@.len(),
                nodes@.len() == i,
                forall|k: int|
                    0 <= k < i ==> node_matches(#[trigger] nodes@[k], self.nodes@[k]),
            decreases self.nodes@.len() - i,
        {
            nodes.push(self.nodes[i].clone());
            i = i + 1;
        }
        let edges = copy_edge_list(&self.edges);
        let inputs = self.inputs.clone();
        let outputs = self.outputs.clone();
        proof {
            assert(inputs@ =~= self.inputs@);
            assert(outputs@ =~= self.outputs@);
        }
        CircuitDag {
            nodes,
            edges,
            inputs,
            outputs,
            metadata: self.metadata.clone(),
            cached_depth: self.cached_depth,
        }
    }
}

impl Default for CircuitDag {
    fn default() -> (r: Self)
        ensures
            r.wf(),
            r.nodes@.len() == 0,
            r.edges@.len() == 0,
            r.cached_depth is None,
    {
        CircuitDag::new()
    }
}

/// Whether `v` holds `x`.
fn usize_vec_contains(v: &Vec<usize>, x: usize) -> (r: bool)
    ensures
        r == v@.contains(x),
{
    let mut i: usize = 0;
    while i < v.len()
        invariant
            i <= v@.len(),
            forall|k: int| 0 <= k < i ==> (#[trigger] v@[k]) != x,
        decreases v@.len() - i,
    {
        if v[i] == x {
            return true;
        }
        i = i + 1;
    }
    false
}

/// Slot of a qubit in the builder's last-operation table.
pub open spec fn qubit_slot(q: LogicalQubitId) -> int {
    q.0 as usize as int
}

/// Builds a DAG operation by operation, inferring the dependencies of each
/// new operation from footprint overlap: the new node depends on the last
/// node that touched each of its qubits.
#[derive(Debug)]
pub struct CircuitDagBuilder {
    pub dag: CircuitDag,
    /// Per qubit slot, the last node that touched the qubit.
    pub last_ops: Vec<Option<usize>>,
}

impl CircuitDagBuilder {
    pub open spec fn wf(&self) -> bool {
        &&& self.dag.wf()
        &&& forall|k: int|
            0 <= k < self.last_ops@.len() ==> match #[trigger] self.last_ops@[k] {
                Some(j) => j < self.dag.nodes@.len(),
                None => true,
            }
    }

    /// The last node that touched `q`, if any.
    pub open spec fn spec_last_op(&self, q: LogicalQubitId) -> Option<usize> {
        if 0 <= qubit_slot(q) < self.last_ops@.len() {
            self.last_ops@[qubit_slot(q)]
        } else {
            None
        }
    }

    pub fn new() -> (r: Self)
        ensures
            r.wf(),
            r.dag.nodes@.len() == 0,
            r.dag.edges@.len() == 0,
            r.dag.inputs@.len() == 0,
            r.last_ops@.len() == 0,
    {
        CircuitDagBuilder { dag: CircuitDag::new(), last_ops: Vec::new() }
    }

    pub fn with_name(name: &str) -> (r: Self)
        ensures
            r.wf(),
            r.dag.nodes@.len() == 0,
            r.dag.edges@.len() == 0,
            r.dag.inputs@.len() == 0,
            r.dag.metadata.name matches Some(n) && n@ == name@,
            r.last_ops@.len() == 0,
    {
        CircuitDagBuilder { dag: CircuitDag::with_name(name), last_ops: Vec::new() }
    }

    /// Declares an input qubit.
    pub fn add_input(&mut self, qubit: LogicalQubitId)
        requires
            old(self).wf(),
        ensures
            final(self).wf(),
            final(self).dag.inputs@ == old(self).dag.inputs@.push(qubit),
            final(self).dag.nodes@ == old(self).dag.nodes@,
            final(self).dag.edges@ == old(self).dag.edges@,
            final(self).dag.metadata == old(self).dag.metadata,
            final(self).dag.cached_depth == old(self).dag.cached_depth,
            final(self).last_ops@ == old(self).last_ops@,
    {
        self.dag.inputs.push(qubit);
        proof {
            match self.dag.cached_depth {
                Some(d0) => {
                    lemma_same_structure_depth(old(self).dag, self.dag, d0 as int);
                },
                None => {},
            }
        }
    }

    /// Appends an operation whose node depends on the last node that touched
    /// each of its qubits, then records the new node as the last operation on
    /// every qubit of its footprint.  Returns the new node's id.
    #[verifier::loop_isolation(false)]
    #[verifier::rlimit(100)]
    #[verifier::spinoff_prover]
    pub fn add_op(&mut self, op: Operation) -> (r: usize)
        requires
            old(self).wf(),
            old(self).dag.nodes@.len() < usize::MAX,
        ensures
            final(self).wf(),
            r == old(self).dag.nodes@.len(),
            final(self).dag.nodes@.len() == r + 1,
            forall|i: int|
                0 <= i < r ==> final(self).dag.nodes@[i] == old(self).dag.nodes@[i],
            final(self).dag.nodes@.last().op == op,
            final(self).dag.nodes@.last().qubits@ == op.spec_qubits(),
            final(self).dag.nodes@.last().depends_on@.no_duplicates(),
            forall|d: usize|
                #[trigger] final(self).dag.nodes@.last().depends_on@.contains(d) <==> exists|
                    j: int,
                |
                    0 <= j < op.spec_qubits().len() && old(self).spec_last_op(
                        #[trigger] op.spec_qubits()[j],
                    ) == Some(d),
            forall|q: LogicalQubitId|
                #![trigger qubit_slot(q)]
                final(self).spec_last_op(q) == if exists|j: int|
                    0 <= j < op.spec_qubits().len() && qubit_slot(#[trigger] op.spec_qubits()[j])
                        == qubit_slot(q) {
                    Some(r as usize)
                } else {
                    old(self).spec_last_op(q)
                },
            final(self).dag.edges@.len() == old(self).dag.edges@.len() + final(self).dag.nodes@.last().depends_on@.len(),
            forall|k: int|
                0 <= k < old(self).dag.edges@.len() ==> final(self).dag.edges@[k] == old(self).dag.edges@[k],
            forall|k: int|
                old(self).dag.edges@.len() <= k < final(self).dag.edges@.len() ==> (
                #[trigger] final(self).dag.edges@[k]).1 == r && final(self).dag.nodes@.last().depends_on@.contains(final(self).dag.edges@[k].0),
            final(self).dag.inputs@ == old(self).dag.inputs@,
            final(self).dag.outputs@ == old(self).dag.outputs@,
            final(self).dag.metadata == old(self).dag.metadata,
            final(self).dag.cached_depth is None,
    {
        let qubits = op.qubits();
        let ghost fp = op.spec_qubits();
        let mut deps: Vec<usize> = Vec::new();
        let mut i: usize = 0;
        while i < qubits.len()
            invariant
                old(self).wf(),
                *self == *old(self),
                qubits@ == fp,
                i <= fp.len(),
                deps@.no_duplicates(),
                forall|k: int|
                    0 <= k < deps@.len() ==> (#[trigger] deps@[k]) < self.dag.nodes@.len(),
                forall|d: usize|
                    #[trigger] deps@.contains(d) <==> exists|j: int|
                        0 <= j < i && old(self).spec_last_op(#[trigger] fp[j]) == Some(d),
            decreases fp.len() - i,
        {
            let q = qubits[i];
            let qidx = #[verifier::truncate] (q.0 as usize);
            proof {
                assert(qubit_slot(q) == qidx as int);
            }
            if qidx < self.last_ops.len() {
                let slot = self.last_ops[qidx];
                if let Some(d) = slot {
                    if !usize_vec_contains(&deps, d) {
                        let ghost pre = deps@;
                        deps.push(d);
                        proof {
                            assert(deps@.last() == d);
                            assert forall|d2: usize| #[trigger] deps@.contains(d2) implies (exists|
                                j: int,
                            |
                                0 <= j < i + 1 && old(self).spec_last_op(#[trigger] fp[j]) == Some(
                                    d2,
                                )) by {
                                let k = choose|k: int| 0 <= k < deps@.len() && deps@[k] == d2;
                                if k < pre.len() {
                                    assert(pre.contains(d2));
                                } else {
                                    assert(d2 == d);
                                    assert(fp[i as int] == q);
                                    assert(old(self).spec_last_op(fp[i as int]) == Some(d));
                                }
                            };
                            assert forall|d2: usize|
                                (exists|j: int|
                                    0 <= j < i + 1 && old(self).spec_last_op(#[trigger] fp[j])
                                        == Some(d2)) implies #[trigger] deps@.contains(d2) by {
                                let j = choose|j: int|
                                    0 <= j < i + 1 && old(self).spec_last_op(#[trigger] fp[j])
                                        == Some(d2);
                                if j < i as int {
                                    assert(pre.contains(d2));
                                    let k = choose|k: int| 0 <= k < pre.len() && pre[k] == d2;
                                    assert(deps@[k] == d2);
                                } else {
                                    assert(d2 == d);
                                    assert(deps@.last() == d2);
                                }
                            };
                        }
                    } else {
                        proof {
                            assert(fp[i as int] == q);
                            assert forall|d2: usize|
                                (exists|j: int|
                                    0 <= j < i + 1 && old(self).spec_last_op(#[trigger] fp[j])
                                        == Some(d2)) implies #[trigger] deps@.contains(d2) by {
                                let j = choose|j: int|
                                    0 <= j < i + 1 && old(self).spec_last_op(#[trigger] fp[j])
                                        == Some(d2);
                                if j == i as int {
                                    assert(d2 == d);
                                }
                            };
                        }
                    }
                } else {
                    proof {
                        assert(fp[i as int] == q);
                        assert forall|d2: usize|
                            (exists|j: int|
                                0 <= j < i + 1 && old(self).spec_last_op(#[trigger] fp[j]) == Some(
                                    d2,
                                )) implies #[trigger] deps@.contains(d2) by {
                            let j = choose|j: int|
                                0 <= j < i + 1 && old(self).spec_last_op(#[trigger] fp[j]) == Some(
                                    d2,
                                );
                            assert(j != i as int);
                        };
                    }
                }
            } else {
                proof {
                    assert(fp[i as int] == q);
                    assert(old(self).spec_last_op(q) is None);
                    assert forall|d2: usize|
                        (exists|j: int|
                            0 <= j < i + 1 && old(self).spec_last_op(#[trigger] fp[j]) == Some(
                                d2,
                            )) implies #[trigger] deps@.contains(d2) by {
                        let j = choose|j: int|
                            0 <= j < i + 1 && old(self).spec_last_op(#[trigger] fp[j]) == Some(d2);
                        assert(j != i as int);
                    };
                }
            }
            i = i + 1;
        }
        let ghost depsv = deps@;
        let added = self.dag.add_node_with_deps(op, deps);
        let id = match added {
            Ok(got) => got,
            Err(_) => {
                // unreachable: every inferred dependency indexes an existing
                // node
                proof {
                    assert(false);
                }
                0
            },
        };
        let ghost dag_after = self.dag;
        // record the new node as the last operation on its footprint
        let mut i2: usize = 0;
        while i2 < qubits.len()
            invariant
                qubits@ == fp,
                i2 <= fp.len(),
                id < self.dag.nodes@.len(),
                self.dag == dag_after,
                forall|k: int|
                    0 <= k < self.last_ops@.len() ==> match #[trigger] self.last_ops@[k] {
                        Some(j) => j < self.dag.nodes@.len(),
                        None => true,
                    },
                self.last_ops@.len() >= old(self).last_ops@.len(),
                forall|q: LogicalQubitId|
                    #![trigger qubit_slot(q)]
                    self.spec_last_op(q) == if exists|j: int|
                        0 <= j < i2 && qubit_slot(#[trigger] fp[j]) == qubit_slot(q) {
                        Some(id)
                    } else {
                        old(self).spec_last_op(q)
                    },
            decreases fp.len() - i2,
        {
            let q = qubits[i2];
            let qidx = #[verifier::truncate] (q.0 as usize);
            proof {
                assert(qubit_slot(q) == qidx as int);
            }
            let ghost pre_ops = self.last_ops@;
            while self.last_ops.len() <= qidx
                invariant
                    self.dag == dag_after,
                    self.last_ops@.len() >= pre_ops.len(),
                    forall|k: int|
                        0 <= k < pre_ops.len() ==> #[trigger] self.last_ops@[k] == pre_ops[k],
                    forall|k: int|
                        pre_ops.len() <= k < self.last_ops@.len() ==> #[trigger] self.last_ops@[k]
                            is None,
                decreases qidx + 1 - self.last_ops@.len(),
            {
                self.last_ops.push(None);
            }
            self.last_ops[qidx] = Some(id);
            proof {
                let cur = self.last_ops@;
                assert(cur[qidx as int] == Some(id));
                assert forall|q2: LogicalQubitId|
                    #![trigger qubit_slot(q2)]
                    self.spec_last_op(q2) == (if exists|j: int|
                        0 <= j < i2 + 1 && qubit_slot(#[trigger] fp[j]) == qubit_slot(q2) {
                        Some(id)
                    } else {
                        old(self).spec_last_op(q2)
                    }) by {
                    let sl = qubit_slot(q2);
                    if sl == qidx as int {
                        assert(self.spec_last_op(q2) == Some(id));
                        assert(qubit_slot(fp[i2 as int]) == sl);
                    } else {
                        // the slot of q2 kept the value it had at the top of
                        // this iteration
                        let startv: Option<usize> = if 0 <= sl < pre_ops.len() {
                            pre_ops[sl]
                        } else {
                            None
                        };
                        if 0 <= sl < pre_ops.len() {
                            assert(cur[sl] == pre_ops[sl]);
                        } else if 0 <= sl < cur.len() {
                            assert(cur[sl] is None);
                        }
                        assert(self.spec_last_op(q2) == startv);
                        if exists|j: int|
                            0 <= j < i2 + 1 && qubit_slot(#[trigger] fp[j]) == qubit_slot(q2) {
                            let j = choose|j: int|
                                0 <= j < i2 + 1 && qubit_slot(#[trigger] fp[j]) == qubit_slot(q2);
                            assert(j < i2 as int);
                            assert(startv == Some(id));
                        } else {
                            assert(startv == old(self).spec_last_op(q2));
                        }
                    }
                };
            }
            i2 = i2 + 1;
        }
        proof {
            assert forall|k: int|
                old(self).dag.edges@.len() <= k < self.dag.edges@.len() implies (
            #[trigger] self.dag.edges@[k]).1 == id && self.dag.nodes@.last().depends_on@.contains(
                self.dag.edges@[k].0,
            ) by {
                let j = k - old(self).dag.edges@.len();
                assert(self.dag.edges@[old(self).dag.edges@.len() + j] == (depsv[j], id));
                assert(depsv[j] == self.dag.nodes@.last().depends_on@[j]);
            };
        }
        id
    }

    /// Finishes the build and hands the DAG over.
    pub fn build(self) -> (r: CircuitDag)
        ensures
            r == self.dag,
    {
        self.dag
    }
}

/// A four-node circuit shaped like the Bell-state construction touches
/// exactly two qubits and has depth three.
#[verifier::spinoff_prover]
proof fn lemma_bell_shape(dag: CircuitDag)
    requires
        dag.nodes@.len() == 4,
        dag.edges@ == seq![(0usize, 1usize), (1usize, 2usize), (1usize, 3usize)],
        dag.nodes@[0].qubits@ == seq![LogicalQubitId(0)],
        dag.nodes@[1].qubits@ == seq![LogicalQubitId(0), LogicalQubitId(1)],
        dag.nodes@[2].qubits@ == seq![LogicalQubitId(0)],
        dag.nodes@[3].qubits@ == seq![LogicalQubitId(1)],
    ensures
        circuit_qubits(dag).len() == 2,
        is_depth(dag, 3),
{
    let q0 = LogicalQubitId(0);
    let q1 = LogicalQubitId(1);
    let qs = Set::empty().insert(q0).insert(q1);
    assert(circuit_qubits(dag) =~= qs) by {
        assert forall|q: LogicalQubitId| circuit_qubits(dag).contains(q) implies qs.contains(
            q,
        ) by {
            let i = choose|i: int|
                0 <= i < dag.nodes@.len() && (#[trigger] dag.nodes@[i]).qubits@.contains(q);
            let j = choose|j: int|
                0 <= j < dag.nodes@[i].qubits@.len() && dag.nodes@[i].qubits@[j] == q;
        };
        assert forall|q: LogicalQubitId| qs.contains(q) implies circuit_qubits(dag).contains(
            q,
        ) by {
            if q == q0 {
                assert(dag.nodes@[0].qubits@[0] == q);
                assert(dag.nodes@[0].qubits@.contains(q));
            } else {
                assert(dag.nodes@[3].qubits@[0] == q);
                assert(dag.nodes@[3].qubits@.contains(q));
            }
        };
    }
    vstd::set::axiom_set_insert_len(Set::<LogicalQubitId>::empty(), q0);
    vstd::set::axiom_set_insert_len(Set::<LogicalQubitId>::empty().insert(q0), q1);
    assert(qs.len() == 2);
    // the longest chain runs H, CNOT, measurement
    let labels: Seq<usize> = seq![1usize, 2usize, 3usize, 3usize];
    assert forall|p: Seq<int>| #[trigger] node_chain(dag, p) implies p.len() <= 3 by {
        assert forall|k: int|
            0 <= k < dag.edges@.len() implies labels[(#[trigger] dag.edges@[k]).0 as int]
            < labels[dag.edges@[k].1 as int] by {};
        lemma_chain_depth_bound(dag, labels, p);
        assert(labels[p.last()] <= 3);
    };
    let w: Seq<int> = seq![0int, 1int, 2int];
    assert(edge_in(dag.edges@, 0, 1)) by {
        assert(dag.edges@[0] == (0usize, 1usize));
    }
    assert(edge_in(dag.edges@, 1, 2)) by {
        assert(dag.edges@[1] == (1usize, 2usize));
    }
    assert(is_chain(dag.edges@, w)) by {
        assert forall|i: int| 0 <= i < w.len() - 1 implies edge_in(
            dag.edges@,
            #[trigger] w[i],
            w[i + 1],
        ) by {
            if i == 0 {
                assert(w[0] == 0 && w[1] == 1);
            } else {
                assert(w[1] == 1 && w[2] == 2);
            }
        };
    }
    assert(node_chain(dag, w) && w.len() == 3);
    assert(is_depth(dag, 3));
}

/// The Bell-state circuit: H on qubit 0, CNOT from 0 to 1, then a
/// measurement of each qubit, with dependencies inferred from footprint
/// overlap: two qubits, four operations, depth three.
/// Declares the Bell-state inputs and adds the H and CNOT gates.
#[verifier::rlimit(100)]
#[verifier::spinoff_prover]
fn bell_state_start() -> (b: CircuitDagBuilder)
    ensures
        b.wf(),
        b.dag.nodes@.len() == 2,
        b.dag.edges@ == seq![(0usize, 1usize)],
        b.dag.inputs@.len() == 2,
        b.dag.nodes@[0].qubits@ == seq![LogicalQubitId(0)],
        b.dag.nodes@[1].qubits@ == seq![LogicalQubitId(0), LogicalQubitId(1)],
        b.spec_last_op(LogicalQubitId(0)) == Some(1usize),
        b.spec_last_op(LogicalQubitId(1)) == Some(1usize),
{
    let mut builder = CircuitDagBuilder::with_name("Bell State");
    let q0 = LogicalQubitId::new(0);
    let q1 = LogicalQubitId::new(1);
    builder.add_input(q0);
    builder.add_input(q1);
    proof {
        assert(qubit_slot(q0) == 0 && qubit_slot(q1) == 1);
        assert(builder.spec_last_op(q0) is None);
        assert(builder.spec_last_op(q1) is None);
    }
    let op0 = crate::operation::h(q0);
    let ghost fp0 = op0.spec_qubits();
    let n0 = builder.add_op(op0);
    proof {
        assert(fp0 == seq![q0]);
        assert(qubit_slot(fp0[0]) == qubit_slot(q0));
        // no qubit had been touched: the first node has no dependencies
        assert(builder.dag.nodes@.last().depends_on@.len() == 0) by {
            let deps = builder.dag.nodes@.last().depends_on@;
            if deps.len() > 0 {
                assert(deps.contains(deps[0]));
            }
        }
        assert(builder.dag.edges@.len() == 0);
        assert(builder.spec_last_op(q0) == Some(0usize));
        assert(builder.spec_last_op(q1) is None) by {
            assert(qubit_slot(fp0[0]) == 0);
        }
    }
    let op1 = crate::operation::cnot(q0, q1);
    let ghost fp1 = op1.spec_qubits();
    let n1 = builder.add_op(op1);
    proof {
        assert(fp1 == seq![q0, q1]);
        assert(qubit_slot(fp1[0]) == qubit_slot(q0));
        assert(qubit_slot(fp1[1]) == qubit_slot(q1));
        let deps = builder.dag.nodes@.last().depends_on@;
        // the CNOT depends exactly on the H gate
        assert(deps.contains(0usize)) by {
            assert(qubit_slot(fp1[0]) == 0);
        }
        assert(forall|d: usize| #[trigger] deps.contains(d) ==> d == 0) by {
            assert(qubit_slot(fp1[0]) == 0 && qubit_slot(fp1[1]) == 1);
        }
        assert(deps =~= seq![0usize]) by {
            assert(deps.contains(deps[0]));
            if deps.len() > 1 {
                assert(deps.contains(deps[1]));
            }
        }
        assert(builder.dag.edges@ =~= seq![(0usize, 1usize)]) by {
            assert(builder.dag.edges@[0].1 == 1usize);
            assert(deps.contains(builder.dag.edges@[0].0));
        }
        assert(builder.spec_last_op(q0) == Some(1usize));
        assert(builder.spec_last_op(q1) == Some(1usize)) by {
            assert(qubit_slot(fp1[1]) == qubit_slot(q1));
        }
    }
    builder
}

#[verifier::rlimit(100)]
#[verifier::spinoff_prover]
pub fn bell_state_dag() -> (r: CircuitDag)
    ensures
        r.wf(),
        r.nodes@.len() == 4,
        r.inputs@.len() == 2,
        r.edges@ == seq![(0usize, 1usize), (1usize, 2usize), (1usize, 3usize)],
        circuit_qubits(r).len() == 2,
        is_depth(r, 3),
{
    let mut builder = bell_state_start();
    let q0 = LogicalQubitId::new(0);
    let q1 = LogicalQubitId::new(1);
    proof {
        assert(qubit_slot(q0) == 0 && qubit_slot(q1) == 1);
    }
    let op2 = crate::operation::measure(q0);
    let ghost fp2 = op2.spec_qubits();
    let n2 = builder.add_op(op2);
    proof {
        assert(fp2 == seq![q0]);
        assert(qubit_slot(fp2[0]) == qubit_slot(q0));
        let deps = builder.dag.nodes@.last().depends_on@;
        assert(deps.contains(1usize)) by {
            assert(qubit_slot(fp2[0]) == 0);
        }
        assert(forall|d: usize| #[trigger] deps.contains(d) ==> d == 1) by {
            assert(qubit_slot(fp2[0]) == 0);
        }
        assert(deps =~= seq![1usize]) by {
            assert(deps.contains(deps[0]));
            if deps.len() > 1 {
                assert(deps.contains(deps[1]));
            }
        }
        assert(builder.dag.edges@ =~= seq![(0usize, 1usize), (1usize, 2usize)]) by {
            assert(builder.dag.edges@[0] == (0usize, 1usize));
            assert(builder.dag.edges@[1].1 == 2usize);
            assert(deps.contains(builder.dag.edges@[1].0));
        }
        assert(builder.spec_last_op(q0) == Some(2usize));
        assert(builder.spec_last_op(q1) == Some(1usize)) by {
            assert(qubit_slot(fp2[0]) == 0);
            assert(forall|j: int| 0 <= j < fp2.len() ==> qubit_slot(#[trigger] fp2[j]) == 0);
        }
    }
    let op3 = crate::operation::measure(q1);
    let ghost fp3 = op3.spec_qubits();
    let n3 = builder.add_op(op3);
    let dag = builder.build();
    proof {
        assert(fp3 == seq![q1]);
        assert(qubit_slot(fp3[0]) == qubit_slot(q1));
        let deps = dag.nodes@.last().depends_on@;
        assert(deps.contains(1usize)) by {
            assert(qubit_slot(fp3[0]) == 1);
        }
        assert(forall|d: usize| #[trigger] deps.contains(d) ==> d == 1) by {
            assert(qubit_slot(fp3[0]) == 1);
        }
        assert(deps =~= seq![1usize]) by {
            assert(deps.contains(deps[0]));
            if deps.len() > 1 {
                assert(deps.contains(deps[1]));
            }
        }
        assert(dag.edges@ =~= seq![(0usize, 1usize), (1usize, 2usize), (1usize, 3usize)]) by {
            assert(dag.edges@[0] == (0usize, 1usize));
            assert(dag.edges@[1] == (1usize, 2usize));
            assert(dag.edges@[2].1 == 3usize);
            assert(deps.contains(dag.edges@[2].0));
        }
        // exactly the two declared qubits appear in the footprints
        assert(dag.nodes@[0].qubits@ == seq![q0]);
        assert(dag.nodes@[1].qubits@ == seq![q0, q1]);
        assert(dag.nodes@[2].qubits@ == seq![q0]);
        assert(dag.nodes@[3].qubits@ == seq![q1]);
        assert(dag.edges@ == seq![(0usize, 1usize), (1usize, 2usize), (1usize, 3usize)]);
        lemma_bell_shape(dag);
    }
    dag
}

/// The GHZ circuit on `n` qubits: H on qubit 0, a cascade of CNOTs, then a
/// measurement of each qubit.
pub fn ghz_dag(n: usize) -> (r: CircuitDag)
    requires
        2 <= n,
        n < usize::MAX / 2,
    ensures
        r.wf(),
        r.nodes@.len() == 2 * n,
        r.inputs@.len() == n,
{
    let mut builder = CircuitDagBuilder::with_name("GHZ");
    let mut i: usize = 0;
    while i < n
        invariant
            n < usize::MAX / 2,
            i <= n,
            builder.wf(),
            builder.dag.nodes@.len() == 0,
            builder.dag.inputs@.len() == i,
        decreases n - i,
    {
        builder.add_input(LogicalQubitId::new(i as u64));
        i = i + 1;
    }
    builder.add_op(crate::operation::h(LogicalQubitId::new(0)));
    let mut i2: usize = 0;
    while i2 < n - 1
        invariant
            2 <= n,
            n < usize::MAX / 2,
            i2 <= n - 1,
            builder.wf(),
            builder.dag.nodes@.len() == 1 + i2,
            builder.dag.inputs@.len() == n,
        decreases n - 1 - i2,
    {
        builder.add_op(
            crate::operation::cnot(
                LogicalQubitId::new(i2 as u64),
                LogicalQubitId::new((i2 + 1) as u64),
            ),
        );
        i2 = i2 + 1;
    }
    let mut i3: usize = 0;
    while i3 < n
        invariant
            2 <= n,
            n < usize::MAX / 2,
            i3 <= n,
            builder.wf(),
            builder.dag.nodes@.len() == n + i3,
            builder.dag.inputs@.len() == n,
        decreases n - i3,
    {
        builder.add_op(crate::operation::measure(LogicalQubitId::new(i3 as u64)));
        i3 = i3 + 1;
    }
    builder.build()
}

} // verus!
