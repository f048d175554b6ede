use vstd::prelude::*;
use crate::graph::ReferenceGraph;

verus! {

/// A walk through `g`: a non-empty key sequence whose consecutive entries are
/// joined by edges of the capability's successor enumeration.
pub open spec fn is_walk<G: ReferenceGraph>(g: G, p: Seq<u64>) -> bool {
    &&& p.len() >= 1
    &&& forall|i: int|
        0 <= i < p.len() - 1 ==> (#[trigger] g.spec_adjacents(p[i])).contains(p[i + 1])
}

/// `to` can be reached from `from` along edges, in zero or more steps.
pub open spec fn reaches<G: ReferenceGraph>(g: G, from: u64, to: u64) -> bool {
    exists|p: Seq<u64>| is_walk(g, p) && p.first() == from && p.last() == to
}

/// No walk of at least one step returns to its starting node.
pub open spec fn acyclic<G: ReferenceGraph>(g: G) -> bool {
    forall|p: Seq<u64>| #[trigger] is_walk(g, p) && p.len() >= 2 ==> p.first() != p.last()
}

/// Every node reaches itself.
pub proof fn lemma_reaches_self<G: ReferenceGraph>(g: G, a: u64)
    ensures
        reaches(g, a, a),
{
    let p = seq![a];
    assert(is_walk(g, p) && p.first() == a && p.last() == a);
}

/// Reachability is extended by a single edge.
pub proof fn lemma_reaches_step<G: ReferenceGraph>(g: G, a: u64, b: u64, c: u64)
    requires
        reaches(g, a, b),
        g.spec_adjacents(b).contains(c),
    ensures
        reaches(g, a, c),
{
    let p = choose|p: Seq<u64>| is_walk(g, p) && p.first() == a && p.last() == b;
    let q = p.push(c);
    assert forall|i: int| 0 <= i < q.len() - 1 implies (#[trigger] g.spec_adjacents(
        q[i],
    )).contains(q[i + 1]) by {
        if i < p.len() - 1 {
            assert(q[i] == p[i] && q[i + 1] == p[i + 1]);
        } else {
            assert(q[i] == p.last() && q[i + 1] == c);
        }
    }
    assert(is_walk(g, q) && q.first() == a && q.last() == c);
}

/// A set that contains the start of a walk and is closed under edges contains
/// the walk's end.
pub proof fn lemma_walk_stays_in_closed_set<G: ReferenceGraph>(g: G, p: Seq<u64>, s: Set<u64>)
    requires
        is_walk(g, p),
        s.contains(p.first()),
        forall|v: u64, w: u64|
            s.contains(v) && #[trigger] g.spec_adjacents(v).contains(w) ==> s.contains(w),
    ensures
        s.contains(p.last()),
    decreases p.len(),
{
    if p.len() > 1 {
        let q = p.drop_last();
        assert(is_walk(g, q));
        lemma_walk_stays_in_closed_set(g, q, s);
        assert(g.spec_adjacents(p[p.len() - 2]).contains(p[p.len() - 1]));
    }
}

/// A set that contains `root` and is closed under edges contains everything
/// reachable from `root`.
pub proof fn lemma_closed_set_contains_reachable<G: ReferenceGraph>(
    g: G,
    root: u64,
    s: Set<u64>,
    x: u64,
)
    requires
        reaches(g, root, x),
        s.contains(root),
        forall|v: u64, w: u64|
            s.contains(v) && #[trigger] g.spec_adjacents(v).contains(w) ==> s.contains(w),
    ensures
        s.contains(x),
{
    let p = choose|p: Seq<u64>| is_walk(g, p) && p.first() == root && p.last() == x;
    lemma_walk_stays_in_closed_set(g, p, s);
}

/// In an acyclic graph, the source of an edge is not reachable from the
/// edge's destination: otherwise the edge would close a cycle.
pub proof fn lemma_edge_back_makes_cycle<G: ReferenceGraph>(g: G, u: u64, v: u64)
    requires
        acyclic(g),
        g.spec_adjacents(u).contains(v),
    ensures
        !reaches(g, v, u),
{
    if reaches(g, v, u) {
        let p = choose|p: Seq<u64>| is_walk(g, p) && p.first() == v && p.last() == u;
        let q = seq![u] + p;
        assert forall|i: int| 0 <= i < q.len() - 1 implies (#[trigger] g.spec_adjacents(
            q[i],
        )).contains(q[i + 1]) by {
            if i == 0 {
                assert(q[0] == u && q[1] == p.first());
            } else {
                assert(q[i] == p[i - 1] && q[i + 1] == p[i]);
            }
        }
        assert(is_walk(g, q) && q.len() >= 2 && q.first() == q.last());
        assert(false);
    }
}

} // verus!
