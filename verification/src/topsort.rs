use vstd::prelude::*;
use crate::adj_vec::vec_contains_key;
use crate::graph::ReferenceGraph;
use crate::reach::acyclic;
use crate::reach::lemma_edge_back_makes_cycle;
use crate::reach::reaches;
use crate::traversal::dfs::post_run;
use crate::traversal::dfs::post_state_ok;
use crate::traversal::dfs::PostOrderDFS;
use crate::traversal::dfs::VisitTag;

verus! {

/// The finish-order property: every successor of a key in `f` stands
/// strictly earlier in `f`, or reaches back to that key (which over an
/// acyclic graph cannot happen).
pub open spec fn order_ok<G: ReferenceGraph>(g: G, f: Seq<u64>) -> bool {
    forall|p: int, w: u64|
        0 <= p < f.len() && #[trigger] g.spec_adjacents(f[p]).contains(w) ==> f.take(p).contains(
            w,
        ) || reaches(g, w, f[p])
}

/// The whole accumulation, as a function of the graph alone: from position
/// `i` of the key enumeration on, a post-order run is started at every key
/// not yet visited, and the finish sequences are concatenated.
pub open spec fn top_run<G: ReferenceGraph>(g: G, i: int, visited: Seq<u64>) -> (Seq<u64>, Seq<
    u64,
>)
    decreases g.spec_keys().len() - i,
        when 0 <= i
{
    if i >= g.spec_keys().len() {
        (Seq::<u64>::empty(), visited)
    } else if visited.contains(g.spec_keys()[i]) {
        top_run(g, i + 1, visited)
    } else {
        let run = post_run(g, seq![(g.spec_keys()[i], VisitTag::Discovered)], visited);
        let rest = top_run(g, i + 1, run.1);
        (run.0 + rest.0, rest.1)
    }
}

/// Topological ordering of a whole graph: post-order depth-first traversals
/// are run from every not-yet-visited key in enumeration order, sharing one
/// growing visited set, and the accumulated finish order is handed out in
/// reverse by popping a stack.
pub struct TopSort<'a, G: ReferenceGraph> {
    pub graph: &'a G,
    pub stack: Vec<u64>,
}

impl<'a, G: ReferenceGraph> TopSort<'a, G> {
    /// Runs the composed post-order traversals over the whole graph.  The
    /// accumulated stack holds every registered key exactly once, in an
    /// order with the finish-order property.
    pub fn new(graph: &'a G) -> (r: Self)
        requires
            graph.valid(),
        ensures
            r.graph == graph,
            r.stack@.no_duplicates(),
            r.stack@.to_set() == graph.spec_keys().to_set(),
            order_ok(*graph, r.stack@),
            r.stack@ == top_run(*graph, 0, Seq::<u64>::empty()).0,
    {
        let ghost g = *graph;
        let keys = graph.keys();
        let mut visited: Vec<u64> = Vec::new();
        let mut stack: Vec<u64> = Vec::new();
        let mut idx: usize = 0;
        proof {
            assert(stack@ + top_run(g, 0, Seq::<u64>::empty()).0 =~= top_run(
                g,
                0,
                Seq::<u64>::empty(),
            ).0);
        }
        while idx < keys.len()
            invariant
                graph.valid(),
                g == *graph,
                keys@ == g.spec_keys(),
                idx <= keys@.len(),
                visited@.no_duplicates(),
                forall|m: int|
                    0 <= m < visited@.len() ==> g.spec_keys().contains(#[trigger] visited@[m]),
                stack@.no_duplicates(),
                stack@.to_set() == visited@.to_set(),
                order_ok(g, stack@),
                forall|m: int| 0 <= m < idx ==> visited@.contains(#[trigger] keys@[m]),
                stack@ + top_run(g, idx as int, visited@).0 == top_run(
                    g,
                    0,
                    Seq::<u64>::empty(),
                ).0,
                top_run(g, idx as int, visited@).1 == top_run(g, 0, Seq::<u64>::empty()).1,
            decreases keys@.len() - idx,
        {
            let k = keys[idx];
            if !vec_contains_key(&visited, k) {
                let ghost v0 = visited@;
                let ghost s0 = stack@;
                let mut dfs = PostOrderDFS::with_visited(graph, k, visited);
                proof {
                    assert(dfs.emitted@ + post_run(g, dfs.stack@, dfs.visited@).0 =~= post_run(
                        g,
                        seq![(k, VisitTag::Discovered)],
                        v0,
                    ).0);
                }
                loop
                    invariant
                        dfs.inv(),
                        dfs.graph == graph,
                        g == *graph,
                        dfs.root@ == k,
                        dfs.init@ == v0.to_set(),
                        stack@ == s0 + dfs.emitted@,
                        dfs.emitted@ + post_run(g, dfs.stack@, dfs.visited@).0 == post_run(
                            g,
                            seq![(k, VisitTag::Discovered)],
                            v0,
                        ).0,
                        post_run(g, dfs.stack@, dfs.visited@).1 == post_run(
                            g,
                            seq![(k, VisitTag::Discovered)],
                            v0,
                        ).1,
                    ensures
                        dfs.inv(),
                        dfs.graph == graph,
                        dfs.root@ == k,
                        dfs.init@ == v0.to_set(),
                        stack@ == s0 + dfs.emitted@,
                        dfs.done(),
                        dfs.emitted@ == post_run(g, seq![(k, VisitTag::Discovered)], v0).0,
                        dfs.visited@ == post_run(g, seq![(k, VisitTag::Discovered)], v0).1,
                    decreases g.spec_keys().len() - dfs.emitted@.len(),
                {
                    let ghost pd = dfs;
                    proof {
                        dfs.lemma_emitted_bounded();
                        assert(post_state_ok(g, pd.stack@));
                    }
                    match dfs.next() {
                        Some(u) => {
                            stack.push(u);
                            proof {
                                dfs.lemma_emitted_bounded();
                                assert(post_run(g, pd.stack@, pd.visited@).0 == seq![u]
                                    + post_run(g, dfs.stack@, dfs.visited@).0);
                                assert(dfs.emitted@ + post_run(g, dfs.stack@, dfs.visited@).0
                                    =~= pd.emitted@ + post_run(g, pd.stack@, pd.visited@).0);
                            }
                        },
                        None => {
                            proof {
                                assert(post_run(g, pd.stack@, pd.visited@).0
                                    =~= Seq::<u64>::empty());
                                assert(dfs.emitted@ + Seq::<u64>::empty() =~= dfs.emitted@);
                            }
                            break ;
                        },
                    }
                }
                visited = dfs.visited;
                proof {
                    let e = dfs.emitted@;
                    // the round's state, spelled out
                    assert(crate::traversal::dfs::gray(dfs.stack@) =~= Set::<u64>::empty());
                    assert(visited@.to_set() =~= v0.to_set().union(e.to_set()));
                    assert(visited@.contains(k)) by {
                        if !visited@.contains(k) {
                            let m = choose|m: int|
                                0 <= m < dfs.stack@.len() && crate::traversal::dfs::at_key(
                                    dfs.stack@,
                                    m,
                                ) == k;
                        }
                    }
                    // the stack stays duplicate-free: the fresh keys were not
                    // visited before, and the old stack holds visited keys
                    assert(stack@.no_duplicates()) by {
                        assert forall|m: int, n: int|
                            0 <= m < stack@.len() && 0 <= n < stack@.len() && m != n implies
                            stack@[m] != stack@[n] by {
                            let sl = s0.len() as int;
                            if m < sl && n >= sl {
                                if stack@[m] == stack@[n] {
                                    assert(s0.contains(stack@[m]));
                                    assert(v0.to_set().contains(stack@[m]));
                                    assert(e.to_set().contains(stack@[n]));
                                }
                            }
                            if n < sl && m >= sl {
                                if stack@[m] == stack@[n] {
                                    assert(s0.contains(stack@[n]));
                                    assert(v0.to_set().contains(stack@[n]));
                                    assert(e.to_set().contains(stack@[m]));
                                }
                            }
                        }
                    }
                    assert(stack@.to_set() =~= visited@.to_set()) by {
                        assert forall|x: u64| stack@.to_set().contains(x) implies visited@
                            .to_set().contains(x) by {
                            let m = choose|m: int| 0 <= m < stack@.len() && stack@[m] == x;
                            if m < s0.len() {
                                assert(s0[m] == x);
                                assert(v0.to_set().contains(x));
                            } else {
                                assert(e[m - s0.len()] == x);
                                assert(e.to_set().contains(x));
                            }
                        }
                        assert forall|x: u64| visited@.to_set().contains(x) implies stack@
                            .to_set().contains(x) by {
                            if v0.to_set().contains(x) {
                                assert(s0.to_set().contains(x));
                                let m = choose|m: int| 0 <= m < s0.len() && s0[m] == x;
                                assert(stack@[m] == x);
                            } else {
                                assert(e.to_set().contains(x));
                                let m = choose|m: int| 0 <= m < e.len() && e[m] == x;
                                assert(stack@[s0.len() + m] == x);
                            }
                        }
                    }
                    // the finish-order property extends over the fresh keys
                    assert(order_ok(g, stack@)) by {
                        assert forall|p: int, w: u64|
                            0 <= p < stack@.len() && #[trigger] g.spec_adjacents(
                                stack@[p],
                            ).contains(w) implies stack@.take(p).contains(w) || reaches(
                            g,
                            w,
                            stack@[p],
                        ) by {
                            let sl = s0.len() as int;
                            if p < sl {
                                assert(stack@[p] == s0[p]);
                                if s0.take(p).contains(w) {
                                    let q = choose|q: int| 0 <= q < p && s0.take(p)[q] == w;
                                    assert(stack@.take(p)[q] == w);
                                }
                            } else {
                                assert(stack@[p] == e[p - sl]);
                                if !reaches(g, w, e[p - sl]) {
                                    if v0.to_set().contains(w) {
                                        assert(s0.to_set().contains(w));
                                        let q = choose|q: int| 0 <= q < s0.len() && s0[q] == w;
                                        assert(stack@.take(p)[q] == w);
                                    } else {
                                        assert(e.take(p - sl).contains(w));
                                        let q = choose|q: int|
                                            0 <= q < p - sl && #[trigger] e.take(p - sl)[q] == w;
                                        assert(stack@.take(p)[sl + q] == w);
                                    }
                                }
                            }
                        }
                    }
                    assert forall|m: int| 0 <= m < idx + 1 implies visited@.contains(
                        #[trigger] keys@[m],
                    ) by {
                        if m < idx {
                            assert(v0.contains(keys@[m]));
                            assert(v0.to_set().contains(keys@[m]));
                            assert(visited@.to_set().contains(keys@[m]));
                        } else {
                            assert(keys@[m] == k);
                        }
                    }
                    // the round matches one unfolding of the accumulation
                    assert(!v0.contains(k) && g.spec_keys()[idx as int] == k);
                    assert(top_run(g, idx as int, v0).0 == e + top_run(g, idx + 1, visited@).0);
                    assert(top_run(g, idx as int, v0).1 == top_run(g, idx + 1, visited@).1);
                    assert(stack@ + top_run(g, idx + 1, visited@).0 =~= (s0 + e) + top_run(
                        g,
                        idx + 1,
                        visited@,
                    ).0);
                    assert((s0 + e) + top_run(g, idx + 1, visited@).0 =~= s0 + (e + top_run(
                        g,
                        idx + 1,
                        visited@,
                    ).0));
                }
            } else {
                proof {
                    assert forall|m: int| 0 <= m < idx + 1 implies visited@.contains(
                        #[trigger] keys@[m],
                    ) by {
                        if m == idx {
                            assert(keys@[m] == k);
                        }
                    }
                    assert(visited@.contains(g.spec_keys()[idx as int]));
                    assert(top_run(g, idx as int, visited@) == top_run(g, idx + 1, visited@));
                }
            }
            idx = idx + 1;
        }
        proof {
            assert(top_run(g, keys@.len() as int, visited@).0 =~= Seq::<u64>::empty());
            assert(stack@ + Seq::<u64>::empty() =~= stack@);
            assert(stack@.to_set() =~= g.spec_keys().to_set()) by {
                assert forall|x: u64| g.spec_keys().to_set().contains(x) implies stack@.to_set()
                    .contains(x) by {
                    let m = choose|m: int| 0 <= m < keys@.len() && keys@[m] == x;
                    assert(visited@.contains(keys@[m]));
                    assert(visited@.to_set().contains(x));
                }
                assert forall|x: u64| stack@.to_set().contains(x) implies g.spec_keys().to_set()
                    .contains(x) by {
                    assert(visited@.to_set().contains(x));
                    let m = choose|m: int| 0 <= m < visited@.len() && visited@[m] == x;
                }
            }
        }
        TopSort { graph, stack }
    }

    /// Pops the next key of the topological sequence: the reverse of the
    /// accumulated finish order.
    pub fn next(&mut self) -> (r: Option<u64>)
        ensures
            final(self).graph == old(self).graph,
            match r {
                None => old(self).stack@.len() == 0 && final(self).stack@ == old(self).stack@,
                Some(u) => {
                    &&& old(self).stack@.len() > 0
                    &&& u == old(self).stack@.last()
                    &&& final(self).stack@ == old(self).stack@.drop_last()
                },
            },
    {
        self.stack.pop()
    }
}

/// Over an acyclic graph, the finish order is a topological order read
/// backwards: the position of every edge's destination strictly precedes
/// the position of its source in `f`, so in the popped (reversed) sequence
/// every edge's source comes out strictly before its destination.
pub proof fn lemma_topological_order<G: ReferenceGraph>(g: G, f: Seq<u64>)
    requires
        g.valid(),
        acyclic(g),
        order_ok(g, f),
        f.no_duplicates(),
    ensures
        forall|i: int, j: int|
            #![trigger g.spec_adjacents(f[i]).contains(f[j])]
            0 <= i < f.len() && 0 <= j < f.len() && g.spec_adjacents(f[i]).contains(f[j]) ==> j
                < i,
        forall|i: int, j: int|
            #![trigger g.spec_adjacents(f.reverse()[i]).contains(f.reverse()[j])]
            0 <= i < f.len() && 0 <= j < f.len() && g.spec_adjacents(f.reverse()[i]).contains(
                f.reverse()[j],
            ) ==> i < j,
{
    assert forall|i: int, j: int|
        0 <= i < f.len() && 0 <= j < f.len() && #[trigger] g.spec_adjacents(f[i]).contains(
            f[j],
        ) implies j < i by {
        lemma_edge_back_makes_cycle(g, f[i], f[j]);
        assert(f.take(i).contains(f[j]));
        let q = choose|q: int| 0 <= q < i && f.take(i)[q] == f[j];
        assert(f[q] == f[j]);
        assert(q == j);
    }
    assert forall|i: int, j: int|
        0 <= i < f.len() && 0 <= j < f.len() && #[trigger] g.spec_adjacents(
            f.reverse()[i],
        ).contains(f.reverse()[j]) implies i < j by {
        assert(f.reverse()[i] == f[f.len() - 1 - i]);
        assert(f.reverse()[j] == f[f.len() - 1 - j]);
    }
}

} // verus!
