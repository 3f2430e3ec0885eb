//! Reachability and acyclicity over a directed edge list.
//!
//! The circuit DAG stores its happens-before relation as a list of
//! `(from, to)` index pairs.  This module gives that list its mathematical
//! reading — chains, reachability, acyclicity — and the lemmas the DAG
//! operations rest on: reachability is reflexive and transitive, it is
//! preserved when an edge is added, adding an edge whose reverse reachability
//! fails keeps the graph acyclic, and every non-empty set of nodes of an
//! acyclic graph has a member with no predecessor inside the set.

use vstd::prelude::*;
use vstd::set_lib::lemma_len_subset;
use vstd::set_lib::lemma_set_subset_finite;
use vstd::set_lib::lemma_int_range;
use vstd::set_lib::set_int_range;

verus! {

/// Whether the edge list holds an edge from `a` to `b`.
pub open spec fn edge_in(edges: Seq<(usize, usize)>, a: int, b: int) -> bool {
    exists|k: int| 0 <= k < edges.len() && (#[trigger] edges[k]).0 == a && edges[k].1 == b
}

/// Whether consecutive elements of `p` are all connected by edges.
pub open spec fn is_chain(edges: Seq<(usize, usize)>, p: Seq<int>) -> bool {
    forall|i: int| 0 <= i < p.len() - 1 ==> edge_in(edges, #[trigger] p[i], p[i + 1])
}

/// Whether a directed path (possibly empty) leads from `a` to `b`.
pub open spec fn reaches(edges: Seq<(usize, usize)>, a: int, b: int) -> bool {
    exists|p: Seq<int>|
        p.len() >= 1 && p.first() == a && p.last() == b && #[trigger] is_chain(edges, p)
}

/// No edge can be walked back to its own source: the graph has no directed
/// cycle.
pub open spec fn acyclic(edges: Seq<(usize, usize)>) -> bool {
    forall|k: int|
        0 <= k < edges.len() ==> !reaches(edges, (#[trigger] edges[k]).1 as int, edges[k].0 as int)
}

/// Every node reaches itself, by the one-element chain.
pub proof fn lemma_reaches_self(edges: Seq<(usize, usize)>, a: int)
    ensures
        reaches(edges, a, a),
{
    let p = seq![a];
    assert(is_chain(edges, p));
    assert(p.len() >= 1 && p.first() == a && p.last() == a);
}

/// An edge is a path.
pub proof fn lemma_reaches_edge(edges: Seq<(usize, usize)>, a: int, b: int)
    requires
        edge_in(edges, a, b),
    ensures
        reaches(edges, a, b),
{
    let p = seq![a, b];
    assert(is_chain(edges, p));
    assert(p.len() >= 1 && p.first() == a && p.last() == b);
}

/// A path followed by an edge is a path.
pub proof fn lemma_reaches_extend(edges: Seq<(usize, usize)>, a: int, b: int, c: int)
    requires
        reaches(edges, a, b),
        edge_in(edges, b, c),
    ensures
        reaches(edges, a, c),
{
    let p = choose|p: Seq<int>|
        p.len() >= 1 && p.first() == a && p.last() == b && #[trigger] is_chain(edges, p);
    let q = p.push(c);
    assert forall|i: int| 0 <= i < q.len() - 1 implies edge_in(edges, #[trigger] q[i], q[i + 1]) by {
        if i < p.len() - 1 {
            assert(q[i] == p[i] && q[i + 1] == p[i + 1]);
        } else {
            assert(q[i] == b && q[i + 1] == c);
        }
    };
    assert(is_chain(edges, q));
    assert(q.len() >= 1 && q.first() == a && q.last() == c);
}

/// Paths compose.
pub proof fn lemma_reaches_trans(edges: Seq<(usize, usize)>, a: int, b: int, c: int)
    requires
        reaches(edges, a, b),
        reaches(edges, b, c),
    ensures
        reaches(edges, a, c),
{
    let p2 = choose|p: Seq<int>|
        p.len() >= 1 && p.first() == b && p.last() == c && #[trigger] is_chain(edges, p);
    lemma_reaches_trans_chain(edges, a, b, p2);
}

proof fn lemma_reaches_trans_chain(edges: Seq<(usize, usize)>, a: int, b: int, p2: Seq<int>)
    requires
        reaches(edges, a, b),
        p2.len() >= 1,
        p2.first() == b,
        is_chain(edges, p2),
    ensures
        reaches(edges, a, p2.last()),
    decreases p2.len(),
{
    if p2.len() == 1 {
        assert(p2.last() == b);
    } else {
        assert(edge_in(edges, p2[0], p2[1]));
        lemma_reaches_extend(edges, a, b, p2[1]);
        let rest = p2.drop_first();
        assert forall|i: int| 0 <= i < rest.len() - 1 implies edge_in(
            edges,
            #[trigger] rest[i],
            rest[i + 1],
        ) by {
            assert(rest[i] == p2[i + 1] && rest[i + 1] == p2[i + 2]);
            assert(edge_in(edges, p2[i + 1], p2[i + 2]));
        };
        lemma_reaches_trans_chain(edges, a, p2[1], rest);
        assert(rest.last() == p2.last());
    }
}

/// A non-trivial path starts with an edge.
pub proof fn lemma_reaches_first_step(edges: Seq<(usize, usize)>, a: int, b: int)
    requires
        reaches(edges, a, b),
        a != b,
    ensures
        exists|c: int| #[trigger] edge_in(edges, a, c) && reaches(edges, c, b),
{
    let p = choose|p: Seq<int>|
        p.len() >= 1 && p.first() == a && p.last() == b && #[trigger] is_chain(edges, p);
    assert(p.len() >= 2);
    assert(edge_in(edges, p[0], p[1]));
    let rest = p.drop_first();
    assert forall|i: int| 0 <= i < rest.len() - 1 implies edge_in(
        edges,
        #[trigger] rest[i],
        rest[i + 1],
    ) by {
        assert(rest[i] == p[i + 1] && rest[i + 1] == p[i + 2]);
        assert(edge_in(edges, p[i + 1], p[i + 2]));
    };
    assert(rest.len() >= 1 && rest.first() == p[1] && rest.last() == b);
    assert(is_chain(edges, rest));
    assert(edge_in(edges, a, p[1]) && reaches(edges, p[1], b));
}

/// A set that contains `a` and is closed under outgoing edges contains
/// everything `a` reaches.
pub proof fn lemma_reaches_closed(edges: Seq<(usize, usize)>, a: int, b: int, closed: Set<int>)
    requires
        reaches(edges, a, b),
        closed.contains(a),
        forall|x: int, y: int|
            closed.contains(x) && #[trigger] edge_in(edges, x, y) ==> closed.contains(y),
    ensures
        closed.contains(b),
{
    let p = choose|p: Seq<int>|
        p.len() >= 1 && p.first() == a && p.last() == b && #[trigger] is_chain(edges, p);
    lemma_chain_closed(edges, p, closed);
}

proof fn lemma_chain_closed(edges: Seq<(usize, usize)>, p: Seq<int>, closed: Set<int>)
    requires
        p.len() >= 1,
        is_chain(edges, p),
        closed.contains(p.first()),
        forall|x: int, y: int|
            closed.contains(x) && #[trigger] edge_in(edges, x, y) ==> closed.contains(y),
    ensures
        closed.contains(p.last()),
    decreases p.len(),
{
    if p.len() == 1 {
    } else {
        assert(edge_in(edges, p[0], p[1]));
        assert(closed.contains(p[1]));
        let rest = p.drop_first();
        assert forall|i: int| 0 <= i < rest.len() - 1 implies edge_in(
            edges,
            #[trigger] rest[i],
            rest[i + 1],
        ) by {
            assert(rest[i] == p[i + 1] && rest[i + 1] == p[i + 2]);
            assert(edge_in(edges, p[i + 1], p[i + 2]));
        };
        lemma_chain_closed(edges, rest, closed);
        assert(rest.last() == p.last());
    }
}

/// Adding an edge preserves every existing path.
pub proof fn lemma_reaches_monotone(edges: Seq<(usize, usize)>, e: (usize, usize), a: int, b: int)
    requires
        reaches(edges, a, b),
    ensures
        reaches(edges.push(e), a, b),
{
    let p = choose|p: Seq<int>|
        p.len() >= 1 && p.first() == a && p.last() == b && #[trigger] is_chain(edges, p);
    assert forall|i: int| 0 <= i < p.len() - 1 implies edge_in(
        edges.push(e),
        #[trigger] p[i],
        p[i + 1],
    ) by {
        assert(edge_in(edges, p[i], p[i + 1]));
        let k = choose|k: int|
            0 <= k < edges.len() && (#[trigger] edges[k]).0 == p[i] && edges[k].1 == p[i + 1];
        assert(edges.push(e)[k] == edges[k]);
    };
    assert(is_chain(edges.push(e), p));
}

proof fn lemma_chain_push_cases(edges: Seq<(usize, usize)>, f: int, t: int, p: Seq<int>)
    requires
        p.len() >= 1,
        is_chain(edges.push(((f as usize), (t as usize))), p),
        0 <= f <= usize::MAX,
        0 <= t <= usize::MAX,
    ensures
        reaches(edges, p.first(), p.last()) || (reaches(edges, p.first(), f) && reaches(
            edges,
            t,
            p.last(),
        )),
    decreases p.len(),
{
    let e = ((f as usize), (t as usize));
    if p.len() == 1 {
        lemma_reaches_self(edges, p.first());
    } else {
        assert(edge_in(edges.push(e), p[0], p[1]));
        let rest = p.drop_first();
        assert forall|i: int| 0 <= i < rest.len() - 1 implies edge_in(
            edges.push(e),
            #[trigger] rest[i],
            rest[i + 1],
        ) by {
            assert(rest[i] == p[i + 1] && rest[i + 1] == p[i + 2]);
            assert(edge_in(edges.push(e), p[i + 1], p[i + 2]));
        };
        lemma_chain_push_cases(edges, f, t, rest);
        assert(rest.first() == p[1] && rest.last() == p.last());
        // The first step is either an old edge or the new one.
        let k = choose|k: int|
            0 <= k < edges.push(e).len() && (#[trigger] edges.push(e)[k]).0 == p[0] && edges.push(
                e,
            )[k].1 == p[1];
        if k < edges.len() {
            assert(edge_in(edges, p[0], p[1]));
            lemma_reaches_edge(edges, p[0], p[1]);
            if reaches(edges, p[1], p.last()) {
                lemma_reaches_trans(edges, p[0], p[1], p.last());
            } else {
                lemma_reaches_trans(edges, p[0], p[1], f);
            }
        } else {
            assert(edges.push(e)[k] == e);
            assert(p[0] == f && p[1] == t);
            lemma_reaches_self(edges, f);
            if reaches(edges, p[1], p.last()) {
            } else {
                assert(reaches(edges, t, p.last()));
            }
        }
    }
}

/// A path in the extended graph either avoids the new edge, or it decomposes
/// around it.
pub proof fn lemma_reaches_push_cases(
    edges: Seq<(usize, usize)>,
    f: usize,
    t: usize,
    a: int,
    b: int,
)
    requires
        reaches(edges.push((f, t)), a, b),
    ensures
        reaches(edges, a, b) || (reaches(edges, a, f as int) && reaches(edges, t as int, b)),
{
    let p = choose|p: Seq<int>|
        p.len() >= 1 && p.first() == a && p.last() == b && #[trigger] is_chain(edges.push((f, t)), p);
    lemma_chain_push_cases(edges, f as int, t as int, p);
}

/// Adding an edge whose reverse direction is unreachable keeps the graph
/// acyclic.
pub proof fn lemma_acyclic_push(edges: Seq<(usize, usize)>, f: usize, t: usize)
    requires
        acyclic(edges),
        !reaches(edges, t as int, f as int),
    ensures
        acyclic(edges.push((f, t))),
{
    let e2 = edges.push((f, t));
    assert forall|k: int| 0 <= k < e2.len() implies !reaches(
        e2,
        (#[trigger] e2[k]).1 as int,
        e2[k].0 as int,
    ) by {
        let x = e2[k].0 as int;
        let y = e2[k].1 as int;
        if reaches(e2, y, x) {
            lemma_reaches_push_cases(edges, f, t, y, x);
            if k < edges.len() {
                assert(edges[k] == e2[k]);
                if reaches(edges, y, x) {
                    assert(!reaches(edges, edges[k].1 as int, edges[k].0 as int));
                } else {
                    // y reaches f, and t reaches x; with the edge (x, y) this
                    // closes a path from t back to f.
                    assert(reaches(edges, y, f as int) && reaches(edges, t as int, x));
                    assert(edge_in(edges, x, y));
                    lemma_reaches_extend(edges, t as int, x, y);
                    lemma_reaches_trans(edges, t as int, y, f as int);
                }
            } else {
                assert(e2[k] == (f, t));
                if reaches(edges, y, x) {
                    assert(reaches(edges, t as int, f as int));
                } else {
                    assert(reaches(edges, t as int, f as int));
                }
            }
        }
    };
}

/// The nodes inside `[0, n)` that reach `u`.
pub open spec fn ancestors(edges: Seq<(usize, usize)>, n: int, u: int) -> Set<int> {
    Set::new(|m: int| 0 <= m < n && reaches(edges, m, u))
}

/// In an acyclic graph every non-empty set of nodes has a member with no
/// predecessor inside the set.
pub proof fn lemma_source_exists(edges: Seq<(usize, usize)>, n: int, s: Set<int>, u: int)
    requires
        acyclic(edges),
        forall|k: int| 0 <= k < edges.len() ==> (#[trigger] edges[k]).0 < n,
        forall|k: int| 0 <= k < edges.len() ==> (#[trigger] edges[k]).1 < n,
        s.subset_of(set_int_range(0, n)),
        s.contains(u),
    ensures
        exists|m: int|
            #[trigger] s.contains(m) && forall|x: int| #[trigger] edge_in(edges, x, m) ==> !s.contains(x),
    decreases ancestors(edges, n, u).len(),
{
    lemma_int_range(0, n);
    let anc = ancestors(edges, n, u);
    lemma_set_subset_finite(set_int_range(0, n), anc);
    assert(anc.subset_of(set_int_range(0, n)));
    if exists|x: int| #[trigger] edge_in(edges, x, u) && s.contains(x) {
        let x = choose|x: int| #[trigger] edge_in(edges, x, u) && s.contains(x);
        let anc_x = ancestors(edges, n, x);
        lemma_set_subset_finite(set_int_range(0, n), anc_x);
        // anc_x is a subset of anc: anything reaching x also reaches u.
        assert forall|m: int| anc_x.contains(m) implies anc.contains(m) by {
            lemma_reaches_extend(edges, m, x, u);
        };
        // u is in anc but not in anc_x, else the edge (x, u) closes a cycle.
        lemma_reaches_self(edges, u);
        assert(0 <= u < n);
        assert(anc.contains(u));
        if anc_x.contains(u) {
            let k = choose|k: int|
                0 <= k < edges.len() && (#[trigger] edges[k]).0 == x && edges[k].1 == u;
            assert(!reaches(edges, u, x));
            assert(false);
        }
        assert(anc_x.subset_of(anc.remove(u)));
        lemma_len_subset(anc_x, anc.remove(u));
        assert(anc.remove(u).len() < anc.len());
        lemma_source_exists(edges, n, s, x);
    } else {
        assert(s.contains(u) && forall|x: int| #[trigger] edge_in(edges, x, u) ==> !s.contains(x));
    }
}

} // verus!
