//! Logical and physical qubit identities, lifecycle state, and the
//! logical-to-physical mapping.

use vstd::prelude::*;

verus! {

/// Identity of a logical qubit, as used in the IR.
///
/// Distinct from [`PhysicalQubitId`]: the two are never implicitly coercible.
#[derive(Debug, Copy, PartialEq, Eq, Structural)]
pub struct LogicalQubitId(pub u64);

impl Clone for LogicalQubitId {
    fn clone(&self) -> (res: Self)
        ensures
            res == *self,
    {
        *self
    }
}

impl LogicalQubitId {
    pub fn new(id: u64) -> (r: Self)
        ensures
            r.0 == id,
    {
        LogicalQubitId(id)
    }

    pub fn value(&self) -> (r: u64)
        ensures
            r == self.0,
    {
        self.0
    }
}

/// Identity of a physical qubit: a concrete hardware site.
#[derive(Debug, Copy, PartialEq, Eq, Structural)]
pub struct PhysicalQubitId(pub u64);

impl Clone for PhysicalQubitId {
    fn clone(&self) -> (res: Self)
        ensures
            res == *self,
    {
        *self
    }
}

impl PhysicalQubitId {
    pub fn new(id: u64) -> (r: Self)
        ensures
            r.0 == id,
    {
        PhysicalQubitId(id)
    }

    pub fn value(&self) -> (r: u64)
        ensures
            r == self.0,
    {
        self.0
    }
}

/// Lifecycle state of a logical qubit.
#[derive(Debug, Clone, Copy, PartialEq, Eq, Structural)]
pub enum QubitState {
    /// Allocated and usable.
    Allocated,
    /// Released; terminal.
    Freed,
    /// Measured into a classical state.
    Measured,
    /// Error state; terminal.
    Error,
}

impl QubitState {
    /// `Allocated` is the only available state.
    pub fn is_available(&self) -> (r: bool)
        ensures
            r == (*self is Allocated),
    {
        matches!(self, QubitState::Allocated)
    }

    /// `Freed` and `Error` are terminal.
    pub fn is_terminal(&self) -> (r: bool)
        ensures
            r == (*self is Freed || *self is Error),
    {
        matches!(self, QubitState::Freed | QubitState::Error)
    }
}

/// One logical qubit record.
#[derive(Debug)]
pub struct LogicalQubit {
    pub id: LogicalQubitId,
    pub state: QubitState,
    /// Physical qubit currently backing this logical qubit, if any.
    pub physical_mapping: Option<PhysicalQubitId>,
    /// Whether this is an ancilla (scratch) qubit.
    pub is_ancilla: bool,
}

impl Clone for LogicalQubit {
    fn clone(&self) -> (res: Self)
        ensures
            res == *self,
    {
        LogicalQubit {
            id: self.id,
            state: self.state,
            physical_mapping: self.physical_mapping,
            is_ancilla: self.is_ancilla,
        }
    }
}

impl LogicalQubit {
    /// A record in a terminal state carries no physical mapping.
    pub open spec fn wf(&self) -> bool {
        (self.state is Freed || self.state is Error) ==> self.physical_mapping is None
    }

    pub fn new(id: LogicalQubitId) -> (r: Self)
        ensures
            r == (LogicalQubit {
                id,
                state: QubitState::Allocated,
                physical_mapping: None,
                is_ancilla: false,
            }),
            r.wf(),
    {
        LogicalQubit { id, state: QubitState::Allocated, physical_mapping: None, is_ancilla: false }
    }

    pub fn with_ancilla(id: LogicalQubitId) -> (r: Self)
        ensures
            r == (LogicalQubit {
                id,
                state: QubitState::Allocated,
                physical_mapping: None,
                is_ancilla: true,
            }),
            r.wf(),
    {
        LogicalQubit { id, state: QubitState::Allocated, physical_mapping: None, is_ancilla: true }
    }

    /// Marks the record freed and drops its physical mapping.
    pub fn free(&mut self)
        ensures
            *final(self) == (LogicalQubit {
                state: QubitState::Freed,
                physical_mapping: None,
                ..*old(self)
            }),
            final(self).wf(),
    {
        self.state = QubitState::Freed;
        self.physical_mapping = None;
    }

    pub fn map_to_physical(&mut self, physical_id: PhysicalQubitId)
        ensures
            *final(self) == (LogicalQubit {
                physical_mapping: Some(physical_id),
                ..*old(self)
            }),
    {
        self.physical_mapping = Some(physical_id);
    }

    pub fn unmap(&mut self)
        ensures
            *final(self) == (LogicalQubit { physical_mapping: None, ..*old(self) }),
            final(self).wf(),
    {
        self.physical_mapping = None;
    }
}

/// The ids of a sequence of qubit records.
pub open spec fn rec_ids(s: Seq<LogicalQubit>) -> Seq<u64> {
    s.map_values(|q: LogicalQubit| q.id.0)
}

/// Updating a record without changing its id leaves the id sequence unchanged.
proof fn lemma_rec_ids_update(s: Seq<LogicalQubit>, k: int, q: LogicalQubit)
    requires
        0 <= k < s.len(),
        q.id == s[k].id,
    ensures
        rec_ids(s.update(k, q)) == rec_ids(s),
{
    assert(rec_ids(s.update(k, q)) =~= rec_ids(s));
}

/// Whether a record with the given id is present.
pub open spec fn has_record(s: Seq<LogicalQubit>, id: u64) -> bool {
    exists|k: int| 0 <= k < s.len() && s[k].id.0 == id
}

/// Owner of all logical qubit records.
///
/// Mints monotonically-increasing ids and keeps a free list of ids eligible
/// for reuse.
#[derive(Debug)]
pub struct LogicalQubitManager {
    /// Next fresh id.
    pub next_id: u64,
    /// All records ever allocated and not reset away, keyed by unique id.
    pub allocated: Vec<LogicalQubit>,
    /// Ids eligible for reuse; each refers to an existing record.
    pub free_list: Vec<LogicalQubitId>,
}

/// Flipping one record into the `Allocated` state raises the number of
/// `Allocated` records by one.
proof fn lemma_active_count_update(s: Seq<LogicalQubit>, k: int, q: LogicalQubit)
    requires
        0 <= k < s.len(),
        !(s[k].state is Allocated),
        q.state is Allocated,
    ensures
        s.update(k, q).filter(|x: LogicalQubit| x.state is Allocated).len() == s.filter(
            |x: LogicalQubit| x.state is Allocated,
        ).len() + 1,
    decreases s.len(),
{
    let pred = |x: LogicalQubit| x.state is Allocated;
    let u = s.update(k, q);
    reveal(Seq::filter);
    if k == s.len() - 1 {
        assert(u.drop_last() =~= s.drop_last());
        assert(u.last() == q);
        assert(!pred(s.last()));
    } else {
        assert(u.drop_last() =~= s.drop_last().update(k, q));
        assert(u.last() == s.last());
        lemma_active_count_update(s.drop_last(), k, q);
    }
}

/// Appending a record under the freshly minted id keeps the manager well
/// formed.
proof fn lemma_fresh_push_wf(pre: LogicalQubitManager, post: LogicalQubitManager, id: LogicalQubitId)
    requires
        pre.wf(),
        pre.next_id < u64::MAX,
        id.0 == pre.next_id,
        post.next_id == pre.next_id + 1,
        post.free_list@ == pre.free_list@,
        post.allocated@.len() == pre.allocated@.len() + 1,
        post.allocated@.last().id == id,
        forall|k: int| 0 <= k < pre.allocated@.len() ==> post.allocated@[k] == pre.allocated@[k],
    ensures
        post.wf(),
{
    let n = pre.allocated@.len() as int;
    assert forall|i: int, j: int|
        0 <= i < post.allocated@.len() && 0 <= j < post.allocated@.len() && i != j implies rec_ids(
        post.allocated@,
    )[i] != rec_ids(post.allocated@)[j] by {
        if i < n && j < n {
            assert(rec_ids(pre.allocated@)[i] != rec_ids(pre.allocated@)[j]);
        } else if i == n {
            assert(pre.allocated@[j].id.0 < pre.next_id);
        } else {
            assert(pre.allocated@[i].id.0 < pre.next_id);
        }
    };
    assert forall|j: int| 0 <= j < post.free_list@.len() implies has_record(
        post.allocated@,
        (#[trigger] post.free_list@[j]).0,
    ) by {
        assert(has_record(pre.allocated@, pre.free_list@[j].0));
        let k = choose|k: int|
            0 <= k < pre.allocated@.len() && pre.allocated@[k].id.0 == pre.free_list@[j].0;
        assert(post.allocated@[k].id.0 == pre.free_list@[j].0);
    };
    assert(rec_ids(post.allocated@).no_duplicates());
    assert forall|j: int, k: int|
        #![trigger post.free_list@[j], post.allocated@[k]]
        0 <= j < post.free_list@.len() && 0 <= k < post.allocated@.len()
            && post.allocated@[k].id.0 == post.free_list@[j].0 implies !(post.allocated@[k].state
        is Allocated) by {
        if k < n {
            assert(post.allocated@[k] == pre.allocated@[k]);
            assert(pre.free_list@[j] == post.free_list@[j]);
        } else {
            // the fresh id is above every id a free-list entry can carry
            assert(has_record(pre.allocated@, pre.free_list@[j].0));
            let k2 = choose|k2: int|
                0 <= k2 < pre.allocated@.len() && pre.allocated@[k2].id.0 == pre.free_list@[j].0;
            assert(pre.allocated@[k2].id.0 < pre.next_id);
            assert(false);
        }
    };
}

impl LogicalQubitManager {
    pub open spec fn wf(&self) -> bool {
        &&& rec_ids(self.allocated@).no_duplicates()
        &&& forall|k: int|
            0 <= k < self.allocated@.len() ==> (#[trigger] self.allocated@[k]).id.0 < self.next_id
        &&& forall|j: int|
            0 <= j < self.free_list@.len() ==> has_record(
                self.allocated@,
                (#[trigger] self.free_list@[j]).0,
            )
        &&& self.free_list@.map_values(|i: LogicalQubitId| i.0).no_duplicates()
        &&& forall|j: int, k: int|
            #![trigger self.free_list@[j], self.allocated@[k]]
            0 <= j < self.free_list@.len() && 0 <= k < self.allocated@.len()
                && self.allocated@[k].id.0 == self.free_list@[j].0 ==> !(self.allocated@[k].state
                is Allocated)
    }

    /// Number of records whose state is `Allocated`.
    pub open spec fn spec_active_count(&self) -> nat {
        self.allocated@.filter(|q: LogicalQubit| q.state is Allocated).len()
    }

    pub fn new() -> (r: Self)
        ensures
            r.wf(),
            r.next_id == 0,
            r.allocated@.len() == 0,
            r.free_list@.len() == 0,
    {
        LogicalQubitManager { next_id: 0, allocated: Vec::new(), free_list: Vec::new() }
    }

    /// Index of the record with the given id, if present.
    fn find_index(&self, id: u64) -> (r: Option<usize>)
        ensures
            match r {
                Some(i) => i < self.allocated@.len() && self.allocated@[i as int].id.0 == id,
                None => !has_record(self.allocated@, id),
            },
    {
        let mut i: usize = 0;
        while i < self.allocated.len()
            invariant
                i <= self.allocated@.len(),
                forall|k: int| 0 <= k < i ==> (#[trigger] self.allocated@[k]).id.0 != id,
            decreases self.allocated@.len() - i,
        {
            if self.allocated[i].id.0 == id {
                return Some(i);
            }
            i = i + 1;
        }
        None
    }

    /// Allocates a logical qubit: reuses the most recently freed id if one is
    /// available, otherwise mints a fresh id.
    pub fn allocate(&mut self) -> (r: LogicalQubitId)
        requires
            old(self).wf(),
            old(self).next_id < u64::MAX,
        ensures
            final(self).wf(),
            final(self).spec_active_count() == old(self).spec_active_count() + 1,
            final(self).free_list@.len() > 0 ==> final(self).free_list@.len() + 1
                == old(self).free_list@.len(),
            old(self).free_list@.len() > 0 ==> {
                &&& r == old(self).free_list@.last()
                &&& final(self).free_list@ == old(self).free_list@.drop_last()
                &&& final(self).next_id == old(self).next_id
                &&& exists|k: int|
                    0 <= k < old(self).allocated@.len() && old(self).allocated@[k].id == r
                        && final(self).allocated@ == old(self).allocated@.update(
                        k,
                        LogicalQubit {
                            id: r,
                            state: QubitState::Allocated,
                            physical_mapping: None,
                            is_ancilla: old(self).allocated@[k].is_ancilla,
                        },
                    )
            },
            old(self).free_list@.len() == 0 ==> {
                &&& r.0 == old(self).next_id
                &&& final(self).next_id == old(self).next_id + 1
                &&& final(self).free_list@ == old(self).free_list@
                &&& final(self).allocated@ == old(self).allocated@.push(
                    LogicalQubit {
                        id: r,
                        state: QubitState::Allocated,
                        physical_mapping: None,
                        is_ancilla: false,
                    },
                )
            },
    {
        let popped = self.free_list.pop();
        if let Some(id) = popped {
            let idx = self.find_index(id.0);
            proof {
                assert(has_record(old(self).allocated@, id.0));
            }
            if let Some(i) = idx {
                self.allocated[i].state = QubitState::Allocated;
                self.allocated[i].physical_mapping = None;
                proof {
                    assert(final(self).allocated@ == old(self).allocated@.update(
                        i as int,
                        LogicalQubit {
                            id: old(self).allocated@[i as int].id,
                            state: QubitState::Allocated,
                            physical_mapping: None,
                            is_ancilla: old(self).allocated@[i as int].is_ancilla,
                        },
                    ));
                    lemma_rec_ids_update(
                        old(self).allocated@,
                        i as int,
                        self.allocated@[i as int],
                    );
                    assert(self.free_list@ == old(self).free_list@.drop_last());
                    let f = |q: LogicalQubitId| q.0;
                    assert(self.free_list@.map_values(f) =~= old(self).free_list@.map_values(
                        f,
                    ).drop_last());
                    assert forall|j: int| 0 <= j < self.free_list@.len() implies has_record(
                        self.allocated@,
                        (#[trigger] self.free_list@[j]).0,
                    ) by {
                        assert(self.free_list@[j] == old(self).free_list@[j]);
                        assert(has_record(old(self).allocated@, old(self).free_list@[j].0));
                        let k = choose|k: int|
                            0 <= k < old(self).allocated@.len() && old(self).allocated@[k].id.0
                                == old(self).free_list@[j].0;
                        assert(self.allocated@[k].id.0 == old(self).allocated@[k].id.0);
                    };
                    assert(old(self).free_list@[old(self).free_list@.len() - 1].0 == id.0);
                    assert(!(old(self).allocated@[i as int].state is Allocated));
                    lemma_active_count_update(
                        old(self).allocated@,
                        i as int,
                        self.allocated@[i as int],
                    );
                    let fm = old(self).free_list@.map_values(|q: LogicalQubitId| q.0);
                    assert forall|j: int, k: int|
                        #![trigger self.free_list@[j], self.allocated@[k]]
                        0 <= j < self.free_list@.len() && 0 <= k < self.allocated@.len()
                            && self.allocated@[k].id.0 == self.free_list@[j].0 implies !(
                    self.allocated@[k].state is Allocated) by {
                        if k == i as int {
                            // the reused id left the free list, and free ids
                            // are unique
                            assert(self.free_list@[j] == old(self).free_list@[j]);
                            assert(fm[j] == old(self).free_list@[j].0);
                            assert(fm[old(self).free_list@.len() - 1] == id.0);
                            assert(j != old(self).free_list@.len() - 1);
                            assert(false);
                        } else {
                            assert(self.allocated@[k] == old(self).allocated@[k]);
                            assert(self.free_list@[j] == old(self).free_list@[j]);
                        }
                    };
                }
                return id;
            }
            // unreachable under wf: the free list only holds existing ids
            proof {
                assert(false);
            }
            return id;
        }
        let id = LogicalQubitId::new(self.next_id);
        self.next_id = self.next_id + 1;
        let qubit = LogicalQubit::new(id);
        self.allocated.push(qubit);
        proof {
            lemma_fresh_push_wf(*old(self), *self, id);
            old(self).allocated@.lemma_filter_push(
                self.allocated@.last(),
                |x: LogicalQubit| x.state is Allocated,
            );
            assert(self.allocated@ == old(self).allocated@.push(self.allocated@.last()));
        }
        id
    }

    /// Allocates an ancilla qubit under a fresh id; ancilla ids are not pooled.
    pub fn allocate_ancilla(&mut self) -> (r: LogicalQubitId)
        requires
            old(self).wf(),
            old(self).next_id < u64::MAX,
        ensures
            final(self).wf(),
            final(self).spec_active_count() == old(self).spec_active_count() + 1,
            r.0 == old(self).next_id,
            final(self).next_id == old(self).next_id + 1,
            final(self).free_list@ == old(self).free_list@,
            final(self).allocated@ == old(self).allocated@.push(
                LogicalQubit {
                    id: r,
                    state: QubitState::Allocated,
                    physical_mapping: None,
                    is_ancilla: true,
                },
            ),
    {
        let id = LogicalQubitId::new(self.next_id);
        self.next_id = self.next_id + 1;
        let qubit = LogicalQubit::with_ancilla(id);
        self.allocated.push(qubit);
        proof {
            lemma_fresh_push_wf(*old(self), *self, id);
            old(self).allocated@.lemma_filter_push(
                self.allocated@.last(),
                |x: LogicalQubit| x.state is Allocated,
            );
            assert(self.allocated@ == old(self).allocated@.push(self.allocated@.last()));
        }
        id
    }

    /// Whether the free list already holds the given id.
    pub open spec fn free_list_has(&self, id: u64) -> bool {
        exists|j: int| 0 <= j < self.free_list@.len() && self.free_list@[j].0 == id
    }

    fn free_list_contains(&self, id: u64) -> (r: bool)
        ensures
            r == self.free_list_has(id),
    {
        let mut j: usize = 0;
        while j < self.free_list.len()
            invariant
                j <= self.free_list@.len(),
                forall|k: int| 0 <= k < j ==> (#[trigger] self.free_list@[k]).0 != id,
            decreases self.free_list@.len() - j,
        {
            if self.free_list[j].0 == id {
                return true;
            }
            j = j + 1;
        }
        false
    }

    /// Frees a qubit: marks its record `Freed`, drops the physical mapping and
    /// makes the id eligible for reuse.  Freeing an unknown id returns false;
    /// freeing twice returns true but never duplicates the free-list entry.
    pub fn free(&mut self, id: LogicalQubitId) -> (r: bool)
        requires
            old(self).wf(),
        ensures
            final(self).wf(),
            r == has_record(old(self).allocated@, id.0),
            final(self).next_id == old(self).next_id,
            !r ==> *final(self) == *old(self),
            r ==> exists|k: int|
                0 <= k < old(self).allocated@.len() && old(self).allocated@[k].id.0 == id.0
                    && final(self).allocated@ == old(self).allocated@.update(
                    k,
                    LogicalQubit {
                        id: old(self).allocated@[k].id,
                        state: QubitState::Freed,
                        physical_mapping: None,
                        is_ancilla: old(self).allocated@[k].is_ancilla,
                    },
                ),
            r ==> final(self).free_list@ == if old(self).free_list_has(id.0) {
                old(self).free_list@
            } else {
                old(self).free_list@.push(LogicalQubitId(id.0))
            },
    {
        let idx = self.find_index(id.0);
        if let Some(i) = idx {
            self.allocated[i].state = QubitState::Freed;
            self.allocated[i].physical_mapping = None;
            if !self.free_list_contains(id.0) {
                self.free_list.push(LogicalQubitId(id.0));
            }
            proof {
                assert(final(self).allocated@ == old(self).allocated@.update(
                    i as int,
                    LogicalQubit {
                        id: old(self).allocated@[i as int].id,
                        state: QubitState::Freed,
                        physical_mapping: None,
                        is_ancilla: old(self).allocated@[i as int].is_ancilla,
                    },
                ));
                lemma_rec_ids_update(old(self).allocated@, i as int, self.allocated@[i as int]);
                let f = |q: LogicalQubitId| q.0;
                if !old(self).free_list_has(id.0) {
                    assert(self.free_list@ == old(self).free_list@.push(LogicalQubitId(id.0)));
                    assert(self.free_list@.map_values(f) =~= old(self).free_list@.map_values(
                        f,
                    ).push(id.0));
                    assert forall|a: int, b: int|
                        0 <= a < self.free_list@.len() && 0 <= b < self.free_list@.len() && a
                            != b implies self.free_list@.map_values(f)[a]
                        != self.free_list@.map_values(f)[b] by {
                        let m = old(self).free_list@.map_values(f);
                        let n = old(self).free_list@.len() as int;
                        if a < n && b < n {
                            assert(m[a] != m[b]);
                        } else if a == n {
                            assert(!old(self).free_list_has(id.0));
                            assert(old(self).free_list@[b].0 != id.0);
                        } else {
                            assert(old(self).free_list@[a].0 != id.0);
                        }
                    };
                }
                assert forall|j: int| 0 <= j < self.free_list@.len() implies has_record(
                    self.allocated@,
                    (#[trigger] self.free_list@[j]).0,
                ) by {
                    let target = self.free_list@[j].0;
                    if j < old(self).free_list@.len() {
                        assert(has_record(old(self).allocated@, target));
                        let k = choose|k: int|
                            0 <= k < old(self).allocated@.len() && old(self).allocated@[k].id.0
                                == target;
                        assert(self.allocated@[k].id.0 == target);
                    } else {
                        assert(self.allocated@[i as int].id.0 == id.0);
                    }
                };
                assert forall|j: int, k: int|
                    #![trigger self.free_list@[j], self.allocated@[k]]
                    0 <= j < self.free_list@.len() && 0 <= k < self.allocated@.len()
                        && self.allocated@[k].id.0 == self.free_list@[j].0 implies !(
                self.allocated@[k].state is Allocated) by {
                    if k == i as int {
                        // the freed record itself
                    } else {
                        assert(self.allocated@[k] == old(self).allocated@[k]);
                        if j < old(self).free_list@.len() {
                            assert(self.free_list@[j] == old(self).free_list@[j]);
                        } else {
                            // the pushed entry carries the freed record's id,
                            // which no other record shares
                            assert(self.free_list@[j].0 == id.0);
                            assert(rec_ids(old(self).allocated@)[k]
                                == old(self).allocated@[k].id.0);
                            assert(rec_ids(old(self).allocated@)[i as int]
                                == old(self).allocated@[i as int].id.0);
                            assert(false);
                        }
                    }
                };
            }
            true
        } else {
            false
        }
    }

    /// The record for the given id, if present.
    pub fn get(&self, id: LogicalQubitId) -> (r: Option<&LogicalQubit>)
        ensures
            match r {
                Some(q) => exists|k: int|
                    0 <= k < self.allocated@.len() && self.allocated@[k] == *q && q.id.0 == id.0,
                None => !has_record(self.allocated@, id.0),
            },
    {
        let idx = self.find_index(id.0);
        match idx {
            Some(i) => Some(&self.allocated[i]),
            None => None,
        }
    }

    /// Whether a record with the given id exists.
    pub fn contains(&self, id: LogicalQubitId) -> (r: bool)
        ensures
            r == has_record(self.allocated@, id.0),
    {
        self.find_index(id.0).is_some()
    }

    /// The ids of all records, in allocation order.
    pub fn all_qubits(&self) -> (r: Vec<LogicalQubitId>)
        ensures
            r@ == self.allocated@.map_values(|q: LogicalQubit| q.id),
    {
        let mut out: Vec<LogicalQubitId> = Vec::new();
        let mut i: usize = 0;
        while i < self.allocated.len()
            invariant
                i <= self.allocated@.len(),
                out@ == self.allocated@.take(i as int).map_values(|q: LogicalQubit| q.id),
            decreases self.allocated@.len() - i,
        {
            out.push(self.allocated[i].id);
            proof {
                assert(self.allocated@.take(i + 1) == self.allocated@.take(i as int).push(
                    self.allocated@[i as int],
                ));
            }
            i = i + 1;
        }
        proof {
            assert(self.allocated@.take(self.allocated@.len() as int) == self.allocated@);
        }
        out
    }

    /// Number of records currently in the `Allocated` state.
    pub fn active_count(&self) -> (r: usize)
        ensures
            r == self.spec_active_count(),
    {
        let ghost pred = |q: LogicalQubit| q.state is Allocated;
        let mut count: usize = 0;
        let mut i: usize = 0;
        while i < self.allocated.len()
            invariant
                i <= self.allocated@.len(),
                count == self.allocated@.take(i as int).filter(
                    |q: LogicalQubit| q.state is Allocated,
                ).len(),
                count <= i,
            decreases self.allocated@.len() - i,
        {
            proof {
                assert(self.allocated@.take(i + 1) == self.allocated@.take(i as int).push(
                    self.allocated@[i as int],
                ));
                self.allocated@.take(i as int).lemma_filter_push(
                    self.allocated@[i as int],
                    |q: LogicalQubit| q.state is Allocated,
                );
            }
            if self.allocated[i].state.is_available() {
                count = count + 1;
            }
            i = i + 1;
        }
        proof {
            assert(self.allocated@.take(self.allocated@.len() as int) == self.allocated@);
        }
        count
    }

    /// Restores the counter to zero and empties both the record table and the
    /// free list.
    pub fn reset(&mut self)
        ensures
            final(self).wf(),
            final(self).next_id == 0,
            final(self).allocated@.len() == 0,
            final(self).free_list@.len() == 0,
    {
        self.next_id = 0;
        self.allocated.clear();
        self.free_list.clear();
    }
}

/// Bijection between logical and physical qubit ids.
///
/// Stored as a single pair list; well-formedness makes it a bijection, so it
/// stands for the two mutually-consistent lookup tables at once.
#[derive(Debug)]
pub struct QubitMapping {
    pub pairs: Vec<(LogicalQubitId, PhysicalQubitId)>,
}

impl Clone for QubitMapping {
    fn clone(&self) -> (res: Self)
        ensures
            res.pairs@ == self.pairs@,
    {
        let mut pairs: Vec<(LogicalQubitId, PhysicalQubitId)> = Vec::new();
        let mut i: usize = 0;
        while i < self.pairs.len()
            invariant
                i <= self.pairs@.len(),
                pairs@ == self.pairs@.take(i as int),
            decreases self.pairs@.len() - i,
        {
            pairs.push((self.pairs[i].0, self.pairs[i].1));
            proof {
                assert(self.pairs@[i as int] == (self.pairs@[i as int].0, self.pairs@[i as int].1));
                assert(self.pairs@.take(i + 1) == self.pairs@.take(i as int).push(
                    self.pairs@[i as int],
                ));
            }
            i = i + 1;
        }
        proof {
            assert(self.pairs@.take(self.pairs@.len() as int) == self.pairs@);
        }
        QubitMapping { pairs }
    }
}

/// Removing one pair from a bijective pair list keeps it bijective, and no
/// surviving pair carries the removed pair's logical or physical id unless it
/// already occurred elsewhere.
proof fn lemma_pairs_remove_wf(s: Seq<(LogicalQubitId, PhysicalQubitId)>, i: int)
    requires
        0 <= i < s.len(),
        forall|a: int, b: int|
            0 <= a < s.len() && 0 <= b < s.len() && a != b ==> (#[trigger] s[a]).0 != (
            #[trigger] s[b]).0,
        forall|a: int, b: int|
            0 <= a < s.len() && 0 <= b < s.len() && a != b ==> (#[trigger] s[a]).1 != (
            #[trigger] s[b]).1,
    ensures
        forall|a: int, b: int|
            0 <= a < s.remove(i).len() && 0 <= b < s.remove(i).len() && a != b
                ==> (#[trigger] s.remove(i)[a]).0 != (#[trigger] s.remove(i)[b]).0,
        forall|a: int, b: int|
            0 <= a < s.remove(i).len() && 0 <= b < s.remove(i).len() && a != b
                ==> (#[trigger] s.remove(i)[a]).1 != (#[trigger] s.remove(i)[b]).1,
        forall|a: int| 0 <= a < s.remove(i).len() ==> (#[trigger] s.remove(i)[a]).0 != s[i].0,
        forall|a: int| 0 <= a < s.remove(i).len() ==> (#[trigger] s.remove(i)[a]).1 != s[i].1,
{
    let t = s.remove(i);
    assert forall|a: int| 0 <= a < t.len() implies (#[trigger] t[a]).0 != s[i].0 && t[a].1
        != s[i].1 by {
        if a < i {
            assert(t[a] == s[a]);
        } else {
            assert(t[a] == s[a + 1]);
        }
    };
    assert forall|a: int, b: int|
        0 <= a < t.len() && 0 <= b < t.len() && a != b implies (#[trigger] t[a]).0 != (
    #[trigger] t[b]).0 && t[a].1 != t[b].1 by {
        let a0 = if a < i { a } else { a + 1 };
        let b0 = if b < i { b } else { b + 1 };
        assert(t[a] == s[a0]);
        assert(t[b] == s[b0]);
    };
}

impl QubitMapping {
    /// No logical id and no physical id occurs twice: the pair list is a
    /// bijection.
    pub open spec fn wf(&self) -> bool {
        &&& forall|i: int, j: int|
            0 <= i < self.pairs@.len() && 0 <= j < self.pairs@.len() && i != j
                ==> (#[trigger] self.pairs@[i]).0 != (#[trigger] self.pairs@[j]).0
        &&& forall|i: int, j: int|
            0 <= i < self.pairs@.len() && 0 <= j < self.pairs@.len() && i != j
                ==> (#[trigger] self.pairs@[i]).1 != (#[trigger] self.pairs@[j]).1
    }

    /// Whether the mapping pairs `logical` with `physical`.
    pub open spec fn maps_to(&self, logical: LogicalQubitId, physical: PhysicalQubitId) -> bool {
        self.pairs@.contains((logical, physical))
    }

    pub fn new() -> (r: Self)
        ensures
            r.wf(),
            r.pairs@.len() == 0,
    {
        QubitMapping { pairs: Vec::new() }
    }

    /// Index of the pair for `logical`, if mapped.
    fn find_logical(&self, logical: LogicalQubitId) -> (r: Option<usize>)
        ensures
            match r {
                Some(i) => i < self.pairs@.len() && self.pairs@[i as int].0 == logical,
                None => forall|k: int|
                    0 <= k < self.pairs@.len() ==> (#[trigger] self.pairs@[k]).0 != logical,
            },
    {
        let mut i: usize = 0;
        while i < self.pairs.len()
            invariant
                i <= self.pairs@.len(),
                forall|k: int| 0 <= k < i ==> (#[trigger] self.pairs@[k]).0 != logical,
            decreases self.pairs@.len() - i,
        {
            if self.pairs[i].0.0 == logical.0 {
                return Some(i);
            }
            i = i + 1;
        }
        None
    }

    /// Index of the pair for `physical`, if mapped.
    fn find_physical(&self, physical: PhysicalQubitId) -> (r: Option<usize>)
        ensures
            match r {
                Some(i) => i < self.pairs@.len() && self.pairs@[i as int].1 == physical,
                None => forall|k: int|
                    0 <= k < self.pairs@.len() ==> (#[trigger] self.pairs@[k]).1 != physical,
            },
    {
        let mut i: usize = 0;
        while i < self.pairs.len()
            invariant
                i <= self.pairs@.len(),
                forall|k: int| 0 <= k < i ==> (#[trigger] self.pairs@[k]).1 != physical,
            decreases self.pairs@.len() - i,
        {
            if self.pairs[i].1.0 == physical.0 {
                return Some(i);
            }
            i = i + 1;
        }
        None
    }

    /// Maps `logical` to `physical`, atomically evicting any stale pair with
    /// the same logical or the same physical id.  Returns the physical id that
    /// `logical` was mapped to before, if any.
    #[verifier::rlimit(50)]
    pub fn map(&mut self, logical: LogicalQubitId, physical: PhysicalQubitId) -> (r: Option<
        PhysicalQubitId,
    >)
        requires
            old(self).wf(),
        ensures
            final(self).wf(),
            match r {
                Some(p) => old(self).maps_to(logical, p),
                None => forall|p: PhysicalQubitId| !old(self).maps_to(logical, p),
            },
            forall|l: LogicalQubitId, p: PhysicalQubitId|
                #[trigger] final(self).maps_to(l, p) <==> ((l == logical && p == physical) || (
                old(self).maps_to(l, p) && l != logical && p != physical)),
    {
        let mut r: Option<PhysicalQubitId> = None;
        let found = self.find_logical(logical);
        if let Some(i) = found {
            r = Some(self.pairs[i].1);
            proof {
                assert(old(self).pairs@.contains(old(self).pairs@[i as int]));
            }
            self.pairs.remove(i);
            proof {
                lemma_remove_keeps_others(old(self).pairs@, i as int);
                lemma_pairs_remove_wf(old(self).pairs@, i as int);
            }
        }
        let ghost mid1 = self.pairs@;
        proof {
            // no surviving pair carries `logical`
            assert(forall|k: int| 0 <= k < mid1.len() ==> (#[trigger] mid1[k]).0 != logical);
        }
        let found_p = self.find_physical(physical);
        if let Some(j) = found_p {
            self.pairs.remove(j);
            proof {
                lemma_remove_keeps_others(mid1, j as int);
                lemma_pairs_remove_wf(mid1, j as int);
            }
        }
        let ghost mid2 = self.pairs@;
        proof {
            assert forall|k: int| 0 <= k < mid2.len() implies (#[trigger] mid2[k]).0
                != logical by {
                assert(mid1.contains(mid2[k]));
                let w = choose|w: int| 0 <= w < mid1.len() && mid1[w] == mid2[k];
                assert(mid1[w].0 != logical);
            };
            assert(forall|k: int| 0 <= k < mid2.len() ==> (#[trigger] mid2[k]).1 != physical);
        }
        self.pairs.push((logical, physical));
        proof {
            assert forall|a: int, b: int|
                0 <= a < self.pairs@.len() && 0 <= b < self.pairs@.len() && a != b implies (
            #[trigger] self.pairs@[a]).0 != (#[trigger] self.pairs@[b]).0 && self.pairs@[a].1
                != self.pairs@[b].1 by {
                let n = mid2.len() as int;
                if a < n && b < n {
                    assert(self.pairs@[a] == mid2[a]);
                    assert(self.pairs@[b] == mid2[b]);
                } else if a == n {
                    assert(self.pairs@[b] == mid2[b]);
                } else {
                    assert(self.pairs@[a] == mid2[a]);
                }
            };
        }
        proof {
            assert forall|l: LogicalQubitId, p: PhysicalQubitId|
                #[trigger] self.maps_to(l, p) implies ((l == logical && p == physical) || (old(
                self,
            ).maps_to(l, p) && l != logical && p != physical)) by {
                if self.maps_to(l, p) {
                    let k = choose|k: int|
                        0 <= k < self.pairs@.len() && self.pairs@[k] == (l, p);
                    if k < mid2.len() {
                        assert(mid2.contains((l, p)));
                    }
                }
            };
            assert forall|l: LogicalQubitId, p: PhysicalQubitId|
                ((l == logical && p == physical) || (old(self).maps_to(l, p) && l != logical && p
                    != physical)) implies #[trigger] self.maps_to(l, p) by {
                if l == logical && p == physical {
                    assert(self.pairs@.last() == (l, p));
                    assert(self.pairs@.contains((l, p)));
                } else {
                    let k = choose|k: int|
                        0 <= k < old(self).pairs@.len() && old(self).pairs@[k] == (l, p);
                    assert(mid1.contains((l, p)));
                    let k1 = choose|k1: int| 0 <= k1 < mid1.len() && mid1[k1] == (l, p);
                    assert(mid2.contains((l, p)));
                    let k2 = choose|k2: int| 0 <= k2 < mid2.len() && mid2[k2] == (l, p);
                    assert(self.pairs@[k2] == (l, p));
                    assert(self.pairs@.contains((l, p)));
                }
            };
        }
        r
    }

    /// Removes the mapping for `logical`, returning the physical id it was
    /// mapped to, if any.
    pub fn unmap(&mut self, logical: LogicalQubitId) -> (r: Option<PhysicalQubitId>)
        requires
            old(self).wf(),
        ensures
            final(self).wf(),
            match r {
                Some(p) => old(self).maps_to(logical, p),
                None => forall|p: PhysicalQubitId| !old(self).maps_to(logical, p),
            },
            forall|l: LogicalQubitId, p: PhysicalQubitId|
                #[trigger] final(self).maps_to(l, p) <==> (old(self).maps_to(l, p) && l
                    != logical),
    {
        let found = self.find_logical(logical);
        if let Some(i) = found {
            let p = self.pairs[i].1;
            self.pairs.remove(i);
            proof {
                lemma_remove_keeps_others(old(self).pairs@, i as int);
                assert(old(self).pairs@.contains(old(self).pairs@[i as int]));
                assert forall|l: LogicalQubitId, q: PhysicalQubitId|
                    #[trigger] self.maps_to(l, q) implies (old(self).maps_to(l, q) && l
                    != logical) by {
                    let k = choose|k: int|
                        0 <= k < self.pairs@.len() && self.pairs@[k] == (l, q);
                };
            }
            Some(p)
        } else {
            None
        }
    }

    /// The physical id `logical` is mapped to, if any.
    pub fn get_physical(&self, logical: LogicalQubitId) -> (r: Option<PhysicalQubitId>)
        ensures
            match r {
                Some(p) => self.maps_to(logical, p),
                None => forall|p: PhysicalQubitId| !self.maps_to(logical, p),
            },
    {
        let found = self.find_logical(logical);
        match found {
            Some(i) => {
                proof {
                    assert(self.pairs@.contains(self.pairs@[i as int]));
                }
                Some(self.pairs[i].1)
            },
            None => {
                proof {
                    assert forall|p: PhysicalQubitId| !self.maps_to(logical, p) by {
                        if self.maps_to(logical, p) {
                            let k = choose|k: int|
                                0 <= k < self.pairs@.len() && self.pairs@[k] == (logical, p);
                        }
                    };
                }
                None
            },
        }
    }

    /// The logical id mapped to `physical`, if any.
    pub fn get_logical(&self, physical: PhysicalQubitId) -> (r: Option<LogicalQubitId>)
        ensures
            match r {
                Some(l) => self.maps_to(l, physical),
                None => forall|l: LogicalQubitId| !self.maps_to(l, physical),
            },
    {
        let found = self.find_physical(physical);
        match found {
            Some(i) => {
                proof {
                    assert(self.pairs@.contains(self.pairs@[i as int]));
                }
                Some(self.pairs[i].0)
            },
            None => {
                proof {
                    assert forall|l: LogicalQubitId| !self.maps_to(l, physical) by {
                        if self.maps_to(l, physical) {
                            let k = choose|k: int|
                                0 <= k < self.pairs@.len() && self.pairs@[k] == (l, physical);
                        }
                    };
                }
                None
            },
        }
    }

    /// Whether `logical` is currently mapped.
    pub fn is_mapped(&self, logical: LogicalQubitId) -> (r: bool)
        ensures
            r == exists|p: PhysicalQubitId| self.maps_to(logical, p),
    {
        let found = self.find_logical(logical);
        match found {
            Some(i) => {
                proof {
                    assert(self.pairs@.contains(self.pairs@[i as int]));
                    assert(self.maps_to(logical, self.pairs@[i as int].1));
                }
                true
            },
            None => {
                proof {
                    assert forall|p: PhysicalQubitId| !self.maps_to(logical, p) by {
                        if self.maps_to(logical, p) {
                            let k = choose|k: int|
                                0 <= k < self.pairs@.len() && self.pairs@[k] == (logical, p);
                        }
                    };
                }
                false
            },
        }
    }

    /// All pairs, in insertion order.
    pub fn all_mappings(&self) -> (r: Vec<(LogicalQubitId, PhysicalQubitId)>)
        ensures
            r@ == self.pairs@,
    {
        let copy = self.clone();
        copy.pairs
    }

    /// Removes every mapping.
    pub fn clear(&mut self)
        ensures
            final(self).wf(),
            final(self).pairs@.len() == 0,
    {
        self.pairs.clear();
    }
}

impl Default for QubitMapping {
    fn default() -> (r: Self)
        ensures
            r.wf(),
            r.pairs@.len() == 0,
    {
        QubitMapping::new()
    }
}

/// After removing index `i`, every other element is still present, and every
/// element of the shorter list was present before.
proof fn lemma_remove_keeps_others<T>(s: Seq<T>, i: int)
    requires
        0 <= i < s.len(),
    ensures
        forall|k: int|
            0 <= k < s.len() && k != i ==> #[trigger] s.remove(i).contains(s[k]),
        forall|k: int| 0 <= k < s.remove(i).len() ==> s.contains(#[trigger] s.remove(i)[k]),
{
    let t = s.remove(i);
    assert forall|k: int| 0 <= k < s.len() && k != i implies #[trigger] t.contains(s[k]) by {
        if k < i {
            assert(t[k] == s[k]);
        } else {
            assert(t[k - 1] == s[k]);
        }
    };
    assert forall|k: int| 0 <= k < t.len() implies s.contains(#[trigger] t[k]) by {
        if k < i {
            assert(s[k] == t[k]);
        } else {
            assert(s[k + 1] == t[k]);
        }
    };
}

impl Default for LogicalQubitManager {
    fn default() -> (r: Self)
        ensures
            r.wf(),
            r.next_id == 0,
            r.allocated@.len() == 0,
            r.free_list@.len() == 0,
    {
        LogicalQubitManager::new()
    }
}

} // verus!
