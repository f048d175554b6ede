use vstd::prelude::*;
use std::collections::VecDeque;
use crate::adj_vec::vec_contains_key;
use crate::graph::ReferenceGraph;
use crate::reach::lemma_closed_set_contains_reachable;
use crate::reach::lemma_reaches_self;
use crate::reach::lemma_reaches_step;
use crate::reach::reaches;

verus! {

/// Lazy breadth-first traversal: each pull dequeues the frontier's front,
/// enqueues and marks its not-yet-discovered successors, and emits the
/// dequeued key.  The visited set records discovery, so every reachable key
/// is enqueued, and later emitted, at most once.
pub struct BFS<'a, G: ReferenceGraph> {
    pub graph: &'a G,
    pub visited: Vec<u64>,
    pub queue: VecDeque<u64>,
    pub emitted: Ghost<Seq<u64>>,
    pub root: Ghost<u64>,
    pub init: Ghost<Set<u64>>,
}

impl<'a, G: ReferenceGraph> BFS<'a, G> {
    /// The iterator's invariant: every discovered key is a reachable
    /// registered key recorded exactly once, the visited set splits into the
    /// pre-seeded keys, the emitted keys and the frontier, and every
    /// successor of an emitted key has been discovered.
    pub open spec fn inv(&self) -> bool {
        let g = *self.graph;
        &&& g.valid()
        &&& self.visited@.no_duplicates()
        &&& self.queue@.no_duplicates()
        &&& self.emitted@.no_duplicates()
        &&& forall|m: int|
            0 <= m < self.visited@.len() ==> g.spec_keys().contains(#[trigger] self.visited@[m])
        &&& self.visited@.to_set() == self.init@.union(
            self.emitted@.to_set().union(self.queue@.to_set()),
        )
        &&& self.emitted@.to_set().disjoint(self.init@)
        &&& self.queue@.to_set().disjoint(self.init@)
        &&& self.emitted@.to_set().disjoint(self.queue@.to_set())
        &&& g.spec_keys().contains(self.root@)
        &&& self.visited@.contains(self.root@)
        &&& forall|m: int|
            0 <= m < self.queue@.len() ==> reaches(g, self.root@, #[trigger] self.queue@[m])
        &&& forall|m: int|
            0 <= m < self.emitted@.len() ==> reaches(g, self.root@, #[trigger] self.emitted@[m])
        &&& forall|m: int, w: u64|
            0 <= m < self.emitted@.len() && #[trigger] g.spec_adjacents(
                self.emitted@[m],
            ).contains(w) ==> self.visited@.contains(w)
    }

    /// The keys emitted so far, in emission order.
    pub open spec fn emitted_seq(&self) -> Seq<u64> {
        self.emitted@
    }

    /// Whether the traversal is exhausted.
    pub open spec fn done(&self) -> bool {
        self.queue@.len() == 0
    }

    /// A fresh traversal rooted at the registered key `root`.
    pub fn new(graph: &'a G, root: u64) -> (it: Self)
        requires
            graph.valid(),
            graph.spec_keys().contains(root),
        ensures
            it.inv(),
            it.graph == graph,
            it.root@ == root,
            it.init@ == Set::<u64>::empty(),
            it.emitted@ == Seq::<u64>::empty(),
            it.visited@ == seq![root],
            it.queue@ == seq![root],
    {
        let mut visited: Vec<u64> = Vec::new();
        visited.push(root);
        let mut queue: VecDeque<u64> = VecDeque::new();
        queue.push_back(root);
        let it = BFS {
            graph,
            visited,
            queue,
            emitted: Ghost(Seq::empty()),
            root: Ghost(root),
            init: Ghost(Set::empty()),
        };
        proof {
            lemma_reaches_self(*graph, root);
            assert(it.visited@ =~= seq![root]);
            assert(it.queue@ =~= seq![root]);
            assert(it.visited@[0] == root);
            assert(it.queue@[0] == root);
            assert(it.visited@.to_set() =~= it.init@.union(
                it.emitted@.to_set().union(it.queue@.to_set()),
            ));
            assert(it.inv());
        }
        it
    }

    /// A traversal rooted at `root` whose visited set starts as the keys in
    /// `visited`: those nodes are treated as already processed.  A root
    /// among them is itself treated as processed, so nothing is emitted.
    pub fn with_visited(graph: &'a G, root: u64, visited: Vec<u64>) -> (it: Self)
        requires
            graph.valid(),
            graph.spec_keys().contains(root),
            visited@.no_duplicates(),
            forall|m: int|
                0 <= m < visited@.len() ==> graph.spec_keys().contains(#[trigger] visited@[m]),
        ensures
            it.inv(),
            it.graph == graph,
            it.root@ == root,
            it.init@ == visited@.to_set(),
            it.emitted@ == Seq::<u64>::empty(),
            it.queue@ == (if visited@.contains(root) {
                Seq::<u64>::empty()
            } else {
                seq![root]
            }),
    {
        let ghost iv = visited@.to_set();
        let ghost vseq = visited@;
        let mut visited = visited;
        let mut queue: VecDeque<u64> = VecDeque::new();
        if !vec_contains_key(&visited, root) {
            visited.push(root);
            queue.push_back(root);
        }
        let it = BFS {
            graph,
            visited,
            queue,
            emitted: Ghost(Seq::empty()),
            root: Ghost(root),
            init: Ghost(iv),
        };
        proof {
            lemma_reaches_self(*graph, root);
            if !iv.contains(root) {
                assert(it.queue@ =~= seq![root]);
                assert(it.queue@[0] == root);
                assert(it.visited@.last() == root);
                vseq.lemma_push_to_set_commute(root);
            } else {
                assert(it.queue@ =~= Seq::<u64>::empty());
            }
            assert(it.visited@.to_set() =~= it.init@.union(
                it.emitted@.to_set().union(it.queue@.to_set()),
            ));
            assert(it.inv());
        }
        it
    }

    /// Pulls the next key of the traversal.  The result and the new state
    /// are a function of the old state alone: the frontier's front is
    /// emitted, and its successors not yet discovered are appended to the
    /// visited set and the frontier in enumeration order.
    pub fn next(&mut self) -> (r: Option<u64>)
        requires
            old(self).inv(),
        ensures
            final(self).inv(),
            final(self).graph == old(self).graph,
            final(self).root == old(self).root,
            final(self).init == old(self).init,
            ({
                let g = *old(self).graph;
                if old(self).queue@.len() == 0 {
                    &&& r is None
                    &&& final(self).queue@ == old(self).queue@
                    &&& final(self).visited == old(self).visited
                    &&& final(self).emitted == old(self).emitted
                } else {
                    let cur = old(self).queue@.first();
                    let fresh = g.spec_adjacents(cur).filter(
                        |w: u64| !old(self).visited@.contains(w),
                    );
                    &&& r == Some(cur)
                    &&& final(self).emitted@ == old(self).emitted@.push(cur)
                    &&& final(self).visited@ == old(self).visited@ + fresh
                    &&& final(self).queue@ == old(self).queue@.drop_first() + fresh
                }
            }),
    {
        let popped = self.queue.pop_front();
        match popped {
            None => {
                return None;
            },
            Some(cur) => {
                let ghost pre = *old(self);
                let ghost g = *self.graph;
                proof {
                    assert(cur == pre.queue@.first());
                    assert(self.queue@ =~= pre.queue@.drop_first());
                    assert(pre.queue@.contains(cur)) by {
                        assert(pre.queue@[0] == cur);
                    }
                    assert(pre.visited@.contains(cur)) by {
                        assert(pre.visited@.to_set().contains(cur));
                    }
                    self.graph.valid_facts();
                    assert(g.spec_keys().contains(cur)) by {
                        let n = choose|n: int|
                            0 <= n < pre.visited@.len() && pre.visited@[n] == cur;
                    }
                }
                self.emitted = Ghost(self.emitted@.push(cur));
                let adjs = self.graph.adjacents(cur);
                let ghost pred = |w: u64| !pre.visited@.contains(w);
                let mut t: usize = 0;
                while t < adjs.len()
                    invariant
                        t <= adjs@.len(),
                        adjs@ == g.spec_adjacents(cur),
                        g == *self.graph,
                        g.valid(),
                        self.graph == old(self).graph,
                        self.root == old(self).root,
                        self.init == old(self).init,
                        pred == (|w: u64| !pre.visited@.contains(w)),
                        adjs@.no_duplicates(),
                        self.emitted@ == pre.emitted@.push(cur),
                        self.visited@ == pre.visited@ + adjs@.take(t as int).filter(pred),
                        self.queue@ == pre.queue@.drop_first() + adjs@.take(t as int).filter(
                            pred,
                        ),
                    decreases adjs@.len() - t,
                {
                    proof {
                        assert(adjs@.take(t as int + 1) =~= adjs@.take(t as int).push(
                            adjs@[t as int],
                        ));
                        Seq::lemma_filter_push(adjs@.take(t as int), adjs@[t as int], pred);
                        broadcast use vstd::seq_lib::group_filter_ensures;

                        // the element has not been appended by this very loop,
                        // so the runtime test against the growing visited set
                        // agrees with the static one against the old set
                        if self.visited@.contains(adjs@[t as int]) && !pre.visited@.contains(
                            adjs@[t as int],
                        ) {
                            let n = choose|n: int|
                                0 <= n < self.visited@.len() && self.visited@[n] == adjs@[t as int];
                            assert(n >= pre.visited@.len());
                            let f = adjs@.take(t as int).filter(pred);
                            assert(f[n - pre.visited@.len()] == adjs@[t as int]);
                            let q = choose|q: int| 0 <= q < f.len() && f[q] == adjs@[t as int];
                            Seq::lemma_filter_contains_rev(adjs@.take(t as int), pred, adjs@[t as int]);
                            let u = choose|u: int|
                                0 <= u < t && adjs@.take(t as int)[u] == adjs@[t as int];
                            assert(adjs@[u] == adjs@[t as int]);
                            assert(false);
                        }
                        if !self.visited@.contains(adjs@[t as int]) && pre.visited@.contains(
                            adjs@[t as int],
                        ) {
                            let n = choose|n: int|
                                0 <= n < pre.visited@.len() && pre.visited@[n] == adjs@[t as int];
                            assert(self.visited@[n] == adjs@[t as int]);
                            assert(false);
                        }
                    }
                    let a = adjs[t];
                    if !vec_contains_key(&self.visited, a) {
                        self.visited.push(a);
                        self.queue.push_back(a);
                    }
                    t = t + 1;
                }
                proof {
                    assert(adjs@.take(adjs@.len() as int) =~= adjs@);
                    let fresh = adjs@.filter(pred);
                    broadcast use vstd::seq_lib::group_filter_ensures;

                    // restore the invariant for the new state
                    assert forall|m: int| 0 <= m < self.visited@.len() implies g.spec_keys()
                        .contains(#[trigger] self.visited@[m]) by {
                        if m >= pre.visited@.len() {
                            let w = fresh[m - pre.visited@.len()];
                            Seq::lemma_filter_contains_rev(adjs@, pred, w);
                        }
                    }
                    assert(self.visited@.no_duplicates()) by {
                        crate::adj_vec::lemma_filter_no_duplicates(adjs@, pred);
                        assert forall|m: int, n: int|
                            0 <= m < self.visited@.len() && 0 <= n < self.visited@.len() && m
                                != n implies self.visited@[m] != self.visited@[n] by {
                            let pl = pre.visited@.len() as int;
                            if m >= pl && n < pl {
                                if self.visited@[m] == self.visited@[n] {
                                    Seq::lemma_filter_pred(adjs@, pred, m - pl);
                                }
                            }
                            if n >= pl && m < pl {
                                if self.visited@[m] == self.visited@[n] {
                                    Seq::lemma_filter_pred(adjs@, pred, n - pl);
                                }
                            }
                        }
                    }
                    assert(self.queue@.no_duplicates()) by {
                        crate::adj_vec::lemma_filter_no_duplicates(adjs@, pred);
                        let dq = pre.queue@.drop_first();
                        assert(dq.no_duplicates());
                        assert forall|m: int, n: int|
                            0 <= m < self.queue@.len() && 0 <= n < self.queue@.len() && m
                                != n implies self.queue@[m] != self.queue@[n] by {
                            let dl = dq.len() as int;
                            if m >= dl && n < dl {
                                if self.queue@[m] == self.queue@[n] {
                                    Seq::lemma_filter_pred(adjs@, pred, m - dl);
                                    assert(pre.queue@.contains(self.queue@[n]));
                                    assert(pre.visited@.to_set().contains(self.queue@[n]));
                                }
                            }
                            if n >= dl && m < dl {
                                if self.queue@[m] == self.queue@[n] {
                                    Seq::lemma_filter_pred(adjs@, pred, n - dl);
                                    assert(pre.queue@.contains(self.queue@[m]));
                                    assert(pre.visited@.to_set().contains(self.queue@[m]));
                                }
                            }
                        }
                    }
                    assert(self.emitted@.no_duplicates()) by {
                        if pre.emitted@.contains(cur) {
                            assert(pre.emitted@.to_set().contains(cur));
                            assert(pre.queue@.to_set().contains(cur));
                            assert(false);
                        }
                    }
                    assert(self.visited@.to_set() == self.init@.union(
                        self.emitted@.to_set().union(self.queue@.to_set()),
                    )) by {
                        pre.emitted@.lemma_push_to_set_commute(cur);
                        assert forall|x: u64| self.visited@.to_set().contains(x) implies self
                            .init@.union(self.emitted@.to_set().union(self.queue@.to_set()))
                            .contains(x) by {
                            let n = choose|n: int|
                                0 <= n < self.visited@.len() && self.visited@[n] == x;
                            if n < pre.visited@.len() {
                                assert(pre.visited@.to_set().contains(x));
                                if pre.queue@.to_set().contains(x) {
                                    if x == cur {
                                        assert(self.emitted@.to_set().contains(x));
                                    } else {
                                        let q = choose|q: int|
                                            0 <= q < pre.queue@.len() && pre.queue@[q] == x;
                                        assert(pre.queue@.drop_first()[q - 1] == x);
                                        assert(self.queue@[q - 1] == x);
                                        assert(self.queue@.to_set().contains(x));
                                    }
                                }
                            } else {
                                assert(self.queue@[pre.queue@.drop_first().len() + (n
                                    - pre.visited@.len())] == fresh[n - pre.visited@.len()]);
                                assert(self.queue@.to_set().contains(x));
                            }
                        }
                        assert forall|x: u64|
                            self.init@.union(self.emitted@.to_set().union(self.queue@.to_set()))
                                .contains(x) implies self.visited@.to_set().contains(x) by {
                            if self.init@.contains(x) || self.emitted@.to_set().contains(x) {
                                if x == cur {
                                    assert(pre.visited@.contains(cur));
                                    let n = choose|n: int|
                                        0 <= n < pre.visited@.len() && pre.visited@[n] == cur;
                                    assert(self.visited@[n] == cur);
                                } else {
                                    assert(pre.visited@.to_set().contains(x));
                                    let n = choose|n: int|
                                        0 <= n < pre.visited@.len() && pre.visited@[n] == x;
                                    assert(self.visited@[n] == x);
                                }
                            } else {
                                let q = choose|q: int|
                                    0 <= q < self.queue@.len() && self.queue@[q] == x;
                                let dl = pre.queue@.drop_first().len() as int;
                                if q < dl {
                                    assert(pre.queue@[q + 1] == x);
                                    assert(pre.visited@.to_set().contains(x));
                                    let n = choose|n: int|
                                        0 <= n < pre.visited@.len() && pre.visited@[n] == x;
                                    assert(self.visited@[n] == x);
                                } else {
                                    assert(self.visited@[pre.visited@.len() + (q - dl)] == x);
                                }
                            }
                        }
                        assert(self.visited@.to_set() =~= self.init@.union(
                            self.emitted@.to_set().union(self.queue@.to_set()),
                        ));
                    }
                    assert(self.emitted@.to_set().disjoint(self.init@)) by {
                        pre.emitted@.lemma_push_to_set_commute(cur);
                        assert(!pre.init@.contains(cur));
                    }
                    assert(self.queue@.to_set().disjoint(self.init@)) by {
                        assert forall|x: u64| self.queue@.to_set().contains(x) implies !self
                            .init@.contains(x) by {
                            let q = choose|q: int|
                                0 <= q < self.queue@.len() && self.queue@[q] == x;
                            let dl = pre.queue@.drop_first().len() as int;
                            if q < dl {
                                assert(pre.queue@[q + 1] == x);
                                assert(pre.queue@.to_set().contains(x));
                            } else {
                                Seq::lemma_filter_pred(adjs@, pred, q - dl);
                                assert(!pre.visited@.contains(x));
                                if pre.init@.contains(x) {
                                    assert(pre.init@.union(
                                        pre.emitted@.to_set().union(pre.queue@.to_set()),
                                    ).contains(x));
                                    assert(pre.visited@.to_set().contains(x));
                                    assert(false);
                                }
                            }
                        }
                    }
                    assert(self.emitted@.to_set().disjoint(self.queue@.to_set())) by {
                        pre.emitted@.lemma_push_to_set_commute(cur);
                        assert forall|x: u64| self.queue@.to_set().contains(x) implies !self
                            .emitted@.to_set().contains(x) by {
                            let q = choose|q: int|
                                0 <= q < self.queue@.len() && self.queue@[q] == x;
                            let dl = pre.queue@.drop_first().len() as int;
                            if q < dl {
                                assert(pre.queue@[q + 1] == x);
                                assert(pre.queue@.to_set().contains(x));
                                if x == cur {
                                    assert(pre.queue@.no_duplicates());
                                    assert(pre.queue@[0] == cur);
                                    assert(false);
                                }
                            } else {
                                Seq::lemma_filter_pred(adjs@, pred, q - dl);
                                assert(!pre.visited@.contains(x));
                                if self.emitted@.to_set().contains(x) {
                                    if x == cur {
                                        assert(pre.visited@.contains(cur));
                                    } else {
                                        assert(pre.emitted@.to_set().contains(x));
                                        assert(pre.visited@.to_set().contains(x));
                                    }
                                    assert(false);
                                }
                            }
                        }
                    }
                    assert(self.visited@.contains(self.root@)) by {
                        let n = choose|n: int|
                            0 <= n < pre.visited@.len() && pre.visited@[n] == self.root@;
                        assert(self.visited@[n] == self.root@);
                    }
                    assert(reaches(g, self.root@, cur));
                    assert forall|m: int| 0 <= m < self.queue@.len() implies reaches(
                        g,
                        self.root@,
                        #[trigger] self.queue@[m],
                    ) by {
                        let dl = pre.queue@.drop_first().len() as int;
                        if m < dl {
                            assert(pre.queue@[m + 1] == self.queue@[m]);
                        } else {
                            Seq::lemma_filter_contains_rev(adjs@, pred, self.queue@[m]);
                            lemma_reaches_step(g, self.root@, cur, self.queue@[m]);
                        }
                    }
                    assert forall|m: int| 0 <= m < self.emitted@.len() implies reaches(
                        g,
                        self.root@,
                        #[trigger] self.emitted@[m],
                    ) by {
                        if m == pre.emitted@.len() {
                            assert(self.emitted@[m] == cur);
                        }
                    }
                    assert forall|m: int, w: u64|
                        0 <= m < self.emitted@.len() && #[trigger] g.spec_adjacents(
                            self.emitted@[m],
                        ).contains(w) implies self.visited@.contains(w) by {
                        if m < pre.emitted@.len() {
                            assert(pre.visited@.contains(w));
                            let n = choose|n: int|
                                0 <= n < pre.visited@.len() && pre.visited@[n] == w;
                            assert(self.visited@[n] == w);
                        } else {
                            assert(self.emitted@[m] == cur);
                            if pre.visited@.contains(w) {
                                let n = choose|n: int|
                                    0 <= n < pre.visited@.len() && pre.visited@[n] == w;
                                assert(self.visited@[n] == w);
                            } else {
                                let n = choose|n: int| 0 <= n < adjs@.len() && adjs@[n] == w;
                                Seq::lemma_filter_contains(adjs@, pred, n);
                                let q = choose|q: int|
                                    0 <= q < fresh.len() && fresh[q] == w;
                                assert(self.visited@[pre.visited@.len() + q] == w);
                            }
                        }
                    }
                    assert(self.inv());
                }
                Some(cur)
            },
        }
    }

    /// After an exhausted run that started with an empty visited set, the
    /// emitted keys are exactly the keys reachable from the root, each
    /// exactly once.
    pub proof fn lemma_emits_reachable_exactly_once(&self)
        requires
            self.inv(),
            self.done(),
            self.init@ == Set::<u64>::empty(),
        ensures
            self.emitted@.no_duplicates(),
            forall|x: u64| self.emitted@.contains(x) <==> reaches(*self.graph, self.root@, x),
    {
        let g = *self.graph;
        let s = self.visited@.to_set();
        assert(self.queue@.to_set() =~= Set::<u64>::empty()) by {
            if exists|x: u64| self.queue@.to_set().contains(x) {
                let x = choose|x: u64| self.queue@.to_set().contains(x);
                let q = choose|q: int| 0 <= q < self.queue@.len() && self.queue@[q] == x;
            }
        }
        assert(s =~= self.emitted@.to_set());
        assert forall|x: u64| reaches(g, self.root@, x) implies self.emitted@.contains(x) by {
            lemma_closed_set_contains_reachable(g, self.root@, s, x);
        }
        assert forall|x: u64| self.emitted@.contains(x) implies reaches(
            g,
            self.root@,
            x,
        ) by {
            let m = choose|m: int| 0 <= m < self.emitted@.len() && self.emitted@[m] == x;
        }
    }
}

} // verus!
