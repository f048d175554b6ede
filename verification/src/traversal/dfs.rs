use vstd::prelude::*;
use crate::adj_vec::vec_contains_key;
use crate::graph::ReferenceGraph;
use crate::reach::lemma_closed_set_contains_reachable;
use crate::reach::lemma_reaches_self;
use crate::reach::lemma_reaches_step;
use crate::reach::reaches;

verus! {

/// The stack after discarding every already-visited key from its top.
/// Pre-order traversal pops exactly these before it finds a key to emit.
pub open spec fn skip_visited(stack: Seq<u64>, visited: Seq<u64>) -> Seq<u64>
    decreases stack.len(),
{
    if stack.len() == 0 {
        stack
    } else if visited.contains(stack.last()) {
        skip_visited(stack.drop_last(), visited)
    } else {
        stack
    }
}

/// Lazy pre-order depth-first traversal: each pull pops the stack, skips
/// visited keys, marks the found key visited, pushes its unvisited
/// successors, and emits it.
pub struct PreOrderDFS<'a, G: ReferenceGraph> {
    pub graph: &'a G,
    pub visited: Vec<u64>,
    pub stack: Vec<u64>,
    pub emitted: Ghost<Seq<u64>>,
    pub root: Ghost<u64>,
    pub init: Ghost<Set<u64>>,
}

impl<'a, G: ReferenceGraph> PreOrderDFS<'a, G> {
    /// The iterator's invariant: bookkeeping is sound (everything on the
    /// stack or emitted is a reachable registered key, nothing is emitted
    /// twice) and complete (every successor of an emitted key is already
    /// visited or still on the stack).
    pub open spec fn inv(&self) -> bool {
        let g = *self.graph;
        &&& g.valid()
        &&& self.visited@.no_duplicates()
        &&& self.emitted@.no_duplicates()
        &&& forall|m: int|
            0 <= m < self.visited@.len() ==> g.spec_keys().contains(#[trigger] self.visited@[m])
        &&& forall|m: int|
            0 <= m < self.stack@.len() ==> g.spec_keys().contains(#[trigger] self.stack@[m])
        &&& self.visited@.to_set() == self.init@.union(self.emitted@.to_set())
        &&& self.emitted@.to_set().disjoint(self.init@)
        &&& g.spec_keys().contains(self.root@)
        &&& (self.visited@.contains(self.root@) || self.stack@.contains(self.root@))
        &&& forall|m: int|
            0 <= m < self.stack@.len() ==> reaches(g, self.root@, #[trigger] self.stack@[m])
        &&& forall|m: int|
            0 <= m < self.emitted@.len() ==> reaches(g, self.root@, #[trigger] self.emitted@[m])
        &&& forall|m: int, w: u64|
            0 <= m < self.emitted@.len() && #[trigger] g.spec_adjacents(
                self.emitted@[m],
            ).contains(w) ==> self.visited@.contains(w) || self.stack@.contains(w)
    }

    /// The keys emitted so far, in emission order.
    pub open spec fn emitted_seq(&self) -> Seq<u64> {
        self.emitted@
    }

    /// Whether the traversal is exhausted.
    pub open spec fn done(&self) -> bool {
        self.stack@.len() == 0
    }

    /// A fresh traversal rooted at the registered key `root`.
    pub fn new(graph: &'a G, root: u64) -> (it: Self)
        requires
            graph.valid(),
            graph.spec_keys().contains(root),
        ensures
            it.inv(),
            it.graph == graph,
            it.root@ == root,
            it.init@ == Set::<u64>::empty(),
            it.emitted@ == Seq::<u64>::empty(),
            it.visited@ == Seq::<u64>::empty(),
            it.stack@ == seq![root],
    {
        let mut stack: Vec<u64> = Vec::new();
        stack.push(root);
        let it = PreOrderDFS {
            graph,
            visited: Vec::new(),
            stack,
            emitted: Ghost(Seq::empty()),
            root: Ghost(root),
            init: Ghost(Set::empty()),
        };
        proof {
            lemma_reaches_self(*graph, root);
            assert(it.stack@ =~= seq![root]);
            assert(it.stack@[0] == root);
            assert(it.visited@.to_set() =~= it.init@.union(it.emitted@.to_set()));
            assert(it.inv());
        }
        it
    }

    /// A traversal rooted at `root` whose visited set starts as the keys in
    /// `visited`: those nodes are treated as already processed.
    pub fn with_visited(graph: &'a G, root: u64, visited: Vec<u64>) -> (it: Self)
        requires
            graph.valid(),
            graph.spec_keys().contains(root),
            visited@.no_duplicates(),
            forall|m: int|
                0 <= m < visited@.len() ==> graph.spec_keys().contains(#[trigger] visited@[m]),
        ensures
            it.inv(),
            it.graph == graph,
            it.root@ == root,
            it.init@ == visited@.to_set(),
            it.emitted@ == Seq::<u64>::empty(),
            it.visited@ == visited@,
            it.stack@ == seq![root],
    {
        let ghost iv = visited@.to_set();
        let mut stack: Vec<u64> = Vec::new();
        stack.push(root);
        let it = PreOrderDFS {
            graph,
            visited,
            stack,
            emitted: Ghost(Seq::empty()),
            root: Ghost(root),
            init: Ghost(iv),
        };
        proof {
            lemma_reaches_self(*graph, root);
            assert(it.stack@ =~= seq![root]);
            assert(it.stack@[0] == root);
            assert(it.visited@.to_set() =~= it.init@.union(it.emitted@.to_set()));
            assert(it.inv());
        }
        it
    }

    /// Pulls the next key of the traversal.  The result and the new state
    /// are a function of the old state alone: the stack is stripped of
    /// visited keys, and the key so found (if any) is marked visited,
    /// emitted, and replaced on the stack by its unvisited successors in
    /// enumeration order.
    pub fn next(&mut self) -> (r: Option<u64>)
        requires
            old(self).inv(),
        ensures
            final(self).inv(),
            final(self).graph == old(self).graph,
            final(self).root == old(self).root,
            final(self).init == old(self).init,
            ({
                let g = *old(self).graph;
                let s = skip_visited(old(self).stack@, old(self).visited@);
                if s.len() == 0 {
                    &&& r is None
                    &&& final(self).stack@ == s
                    &&& final(self).visited == old(self).visited
                    &&& final(self).emitted == old(self).emitted
                } else {
                    let cur = s.last();
                    &&& r == Some(cur)
                    &&& final(self).visited@ == old(self).visited@.push(cur)
                    &&& final(self).emitted@ == old(self).emitted@.push(cur)
                    &&& final(self).stack@ == s.drop_last() + g.spec_adjacents(cur).filter(
                        |w: u64| !old(self).visited@.push(cur).contains(w),
                    )
                }
            }),
    {
        loop
            invariant
                self.inv(),
                self.graph == old(self).graph,
                self.root == old(self).root,
                self.init == old(self).init,
                self.visited == old(self).visited,
                self.emitted == old(self).emitted,
                skip_visited(self.stack@, self.visited@) == skip_visited(
                    old(self).stack@,
                    old(self).visited@,
                ),
            decreases self.stack@.len(),
        {
            let ghost pre = *self;
            match self.stack.pop() {
                None => {
                    return None;
                },
                Some(cur) => {
                    proof {
                        assert(pre.stack@.last() == cur);
                        assert(self.stack@ =~= pre.stack@.drop_last());
                    }
                    if !vec_contains_key(&self.visited, cur) {
                        let ghost g = *self.graph;
                        let ghost s = skip_visited(old(self).stack@, old(self).visited@);
                        proof {
                            assert(s == pre.stack@);
                            assert(s.last() == cur);
                        }
                        self.visited.push(cur);
                        self.emitted = Ghost(self.emitted@.push(cur));
                        let ghost midv = self.visited@;
                        let adjs = self.graph.adjacents(cur);
                        proof {
                            self.graph.valid_facts();
                        }
                        let mut t: usize = 0;
                        while t < adjs.len()
                            invariant
                                t <= adjs@.len(),
                                adjs@ == g.spec_adjacents(cur),
                                g == *self.graph,
                                self.graph == old(self).graph,
                                self.root == old(self).root,
                                self.init == old(self).init,
                                self.visited@ == midv,
                                midv == old(self).visited@.push(cur),
                                self.emitted@ == old(self).emitted@.push(cur),
                                reaches(g, self.root@, cur),
                                g.valid(),
                                forall|m: int|
                                    0 <= m < midv.len() ==> g.spec_keys().contains(
                                        #[trigger] midv[m],
                                    ),
                                self.stack@ == s.drop_last() + adjs@.take(t as int).filter(
                                    |w: u64| !midv.contains(w),
                                ),
                            decreases adjs@.len() - t,
                        {
                            proof {
                                assert(adjs@.take(t as int + 1) =~= adjs@.take(t as int).push(
                                    adjs@[t as int],
                                ));
                                Seq::lemma_filter_push(
                                    adjs@.take(t as int),
                                    adjs@[t as int],
                                    |w: u64| !midv.contains(w),
                                );
                            }
                            let a = adjs[t];
                            if !vec_contains_key(&self.visited, a) {
                                self.stack.push(a);
                            }
                            t = t + 1;
                        }
                        proof {
                            assert(adjs@.take(adjs@.len() as int) =~= adjs@);
                            let filt = adjs@.filter(|w: u64| !midv.contains(w));
                            let news = s.drop_last() + filt;
                            assert(self.stack@ == news);
                            broadcast use vstd::seq_lib::group_filter_ensures;

                            // the new state satisfies the invariant
                            assert forall|m: int| 0 <= m < self.stack@.len() implies g.spec_keys()
                                .contains(#[trigger] self.stack@[m]) by {
                                if m < s.drop_last().len() {
                                    assert(self.stack@[m] == pre.stack@[m]);
                                } else {
                                    let w = filt[m - s.drop_last().len()];
                                    assert(adjs@.contains(w)) by {
                                        Seq::lemma_filter_contains_rev(
                                            adjs@,
                                            |w: u64| !midv.contains(w),
                                            w,
                                        );
                                    }
                                }
                            }
                            assert forall|m: int| 0 <= m < self.stack@.len() implies reaches(
                                g,
                                self.root@,
                                #[trigger] self.stack@[m],
                            ) by {
                                if m < s.drop_last().len() {
                                    assert(self.stack@[m] == pre.stack@[m]);
                                } else {
                                    let w = filt[m - s.drop_last().len()];
                                    assert(adjs@.contains(w)) by {
                                        Seq::lemma_filter_contains_rev(
                                            adjs@,
                                            |w: u64| !midv.contains(w),
                                            w,
                                        );
                                    }
                                    lemma_reaches_step(g, self.root@, cur, w);
                                }
                            }
                            assert(self.visited@.to_set() =~= self.init@.union(
                                self.emitted@.to_set(),
                            )) by {
                                pre.visited@.lemma_push_to_set_commute(cur);
                                pre.emitted@.lemma_push_to_set_commute(cur);
                            }
                            assert(self.emitted@.to_set().disjoint(self.init@)) by {
                                pre.emitted@.lemma_push_to_set_commute(cur);
                                assert(!pre.visited@.to_set().contains(cur));
                                assert(!self.init@.contains(cur));
                                assert forall|x: u64|
                                    self.emitted@.to_set().contains(x) implies !self.init@
                                    .contains(x) by {
                                    if x != cur {
                                        assert(pre.emitted@.to_set().contains(x));
                                    }
                                }
                            }
                            assert(self.visited@.contains(self.root@)
                                || self.stack@.contains(self.root@)) by {
                                if pre.visited@.contains(self.root@) {
                                    let n = choose|n: int|
                                        0 <= n < pre.visited@.len() && pre.visited@[n]
                                            == self.root@;
                                    assert(self.visited@[n] == self.root@);
                                } else {
                                    let m = choose|m: int|
                                        0 <= m < pre.stack@.len() && pre.stack@[m] == self.root@;
                                    if m < s.drop_last().len() {
                                        assert(self.stack@[m] == self.root@);
                                    } else {
                                        assert(pre.stack@.last() == cur);
                                        assert(self.root@ == cur);
                                        assert(self.visited@.last() == cur);
                                    }
                                }
                            }
                            assert(self.visited@.no_duplicates());
                            assert(self.emitted@.no_duplicates()) by {
                                if pre.emitted@.contains(cur) {
                                    assert(pre.emitted@.to_set().contains(cur));
                                    assert(pre.visited@.to_set().contains(cur));
                                    assert(false);
                                }
                            }
                            assert forall|m: int| 0 <= m < self.visited@.len() implies g
                                .spec_keys().contains(#[trigger] self.visited@[m]) by {
                                if m == pre.visited@.len() {
                                    assert(self.visited@[m] == cur);
                                }
                            }
                            assert forall|m: int| 0 <= m < self.emitted@.len() implies reaches(
                                g,
                                self.root@,
                                #[trigger] self.emitted@[m],
                            ) by {
                                if m == pre.emitted@.len() {
                                    assert(self.emitted@[m] == cur);
                                }
                            }
                            assert forall|m: int, w: u64|
                                0 <= m < self.emitted@.len() && #[trigger] g.spec_adjacents(
                                    self.emitted@[m],
                                ).contains(w) implies self.visited@.contains(w)
                                || self.stack@.contains(w) by {
                                if m < pre.emitted@.len() {
                                    assert(pre.emitted@[m] == self.emitted@[m]);
                                    if pre.visited@.contains(w) {
                                        assert(self.visited@.contains(w)) by {
                                            let n = choose|n: int|
                                                0 <= n < pre.visited@.len() && pre.visited@[n]
                                                    == w;
                                            assert(self.visited@[n] == w);
                                        }
                                    } else {
                                        let n = choose|n: int|
                                            0 <= n < pre.stack@.len() && pre.stack@[n] == w;
                                        if n < s.drop_last().len() {
                                            assert(self.stack@[n] == w);
                                        } else {
                                            assert(w == cur);
                                            assert(self.visited@.last() == cur);
                                        }
                                    }
                                } else {
                                    // successors of the key just emitted
                                    assert(self.emitted@[m] == cur);
                                    if !midv.contains(w) {
                                        assert(filt.contains(w)) by {
                                            let n = choose|n: int|
                                                0 <= n < adjs@.len() && adjs@[n] == w;
                                            Seq::lemma_filter_contains(
                                                adjs@,
                                                |w: u64| !midv.contains(w),
                                                n,
                                            );
                                        }
                                        let n = choose|n: int|
                                            0 <= n < filt.len() && filt[n] == w;
                                        assert(self.stack@[s.drop_last().len() + n] == w);
                                    }
                                }
                            }
                            assert(self.inv());
                        }
                        return Some(cur);
                    }
                    // the popped key was already visited: discard it
                    proof {
                        let g2 = *self.graph;
                        assert(pre.visited@.contains(cur));
                        assert(self.visited@.contains(self.root@) || self.stack@.contains(
                            self.root@,
                        )) by {
                            if !self.visited@.contains(self.root@) {
                                let m = choose|m: int|
                                    0 <= m < pre.stack@.len() && pre.stack@[m] == self.root@;
                                if m < self.stack@.len() {
                                    assert(self.stack@[m] == self.root@);
                                } else {
                                    assert(self.root@ == cur);
                                    assert(false);
                                }
                            }
                        }
                        assert forall|m: int, w: u64|
                            0 <= m < self.emitted@.len() && #[trigger] g2.spec_adjacents(
                                self.emitted@[m],
                            ).contains(w) implies self.visited@.contains(w)
                            || self.stack@.contains(w) by {
                            if !self.visited@.contains(w) {
                                let n = choose|n: int|
                                    0 <= n < pre.stack@.len() && pre.stack@[n] == w;
                                if n < self.stack@.len() {
                                    assert(self.stack@[n] == w);
                                } else {
                                    assert(w == cur);
                                    assert(false);
                                }
                            }
                        }
                        assert(self.inv());
                        assert(skip_visited(pre.stack@, pre.visited@) == skip_visited(
                            self.stack@,
                            self.visited@,
                        ));
                    }
                },
            }
        }
    }

    /// After an exhausted run that started with an empty visited set, the
    /// emitted keys are exactly the keys reachable from the root, each
    /// exactly once.
    pub proof fn lemma_emits_reachable_exactly_once(&self)
        requires
            self.inv(),
            self.done(),
            self.init@ == Set::<u64>::empty(),
        ensures
            self.emitted@.no_duplicates(),
            forall|x: u64| self.emitted@.contains(x) <==> reaches(*self.graph, self.root@, x),
    {
        let g = *self.graph;
        let s = self.visited@.to_set();
        assert(s =~= self.emitted@.to_set());
        assert(self.visited@.contains(self.root@));
        assert forall|x: u64| reaches(g, self.root@, x) implies self.emitted@.contains(x) by {
            lemma_closed_set_contains_reachable(g, self.root@, s, x);
        }
    }
}

/// How a key standing on the post-order stack is to be treated when popped:
/// a `Discovered` key still has to spread to its successors, a `Finished`
/// key has seen its whole subtree emitted and is emitted itself.
pub enum VisitTag {
    Discovered,
    Finished,
}

/// The key of the stack entry at position `m`.
pub open spec fn at_key(s: Seq<(u64, VisitTag)>, m: int) -> u64 {
    s[m].0
}

/// Whether the stack entry at position `m` is tagged `Finished`.
pub open spec fn is_fin(s: Seq<(u64, VisitTag)>, m: int) -> bool {
    s[m].1 is Finished
}

/// The keys with a `Finished` entry on the stack: discovered but not yet
/// emitted.
pub open spec fn gray(s: Seq<(u64, VisitTag)>) -> Set<u64> {
    Set::new(|k: u64| exists|m: int| 0 <= m < s.len() && s[m] == (k, VisitTag::Finished))
}

/// A post-order pull is workable when the store is valid and every stack
/// entry names a registered key.
pub open spec fn post_state_ok<G: ReferenceGraph>(g: G, stack: Seq<(u64, VisitTag)>) -> bool {
    &&& g.valid()
    &&& forall|m: int| 0 <= m < stack.len() ==> g.spec_keys().contains(#[trigger] at_key(stack, m))
}

/// One pull of the post-order traversal, as a function of the state alone:
/// the new stack, the new visited sequence, and the emitted key.  Pulling
/// pops the stack: a `Finished` key is emitted; an already-visited
/// `Discovered` key is dropped and the pull goes on; an unvisited
/// `Discovered` key is marked, re-pushed as `Finished` and covered with its
/// unvisited successors, and the pull goes on.
pub open spec fn post_step<G: ReferenceGraph>(
    g: G,
    stack: Seq<(u64, VisitTag)>,
    visited: Seq<u64>,
) -> (Seq<(u64, VisitTag)>, Seq<u64>, Option<u64>)
    decreases g.spec_keys().to_set().difference(visited.to_set()).len(), stack.len(),
        when post_state_ok(g, stack)
{
    if stack.len() == 0 {
        (stack, visited, None::<u64>)
    } else {
        let cur = at_key(stack, stack.len() - 1);
        let rest = stack.drop_last();
        if is_fin(stack, stack.len() - 1) {
            (rest, visited, Some(cur))
        } else if visited.contains(cur) {
            post_step(g, rest, visited)
        } else {
            let visited2 = visited.push(cur);
            let spread = rest.push((cur, VisitTag::Finished)) + g.spec_adjacents(cur).filter(
                |w: u64| !visited2.contains(w),
            ).map_values(|w: u64| (w, VisitTag::Discovered));
            proof {
                broadcast use vstd::seq_lib::seq_to_set_is_finite;

                let keyset = g.spec_keys().to_set();
                let d = keyset.difference(visited.to_set());
                assert(g.spec_keys().contains(at_key(stack, stack.len() - 1)));
                assert(keyset.contains(cur));
                assert(d.contains(cur));
                vstd::set::axiom_set_difference_finite(keyset, visited.to_set());
                visited.lemma_push_to_set_commute(cur);
                assert(keyset.difference(visited2.to_set()) =~= d.remove(cur));
                vstd::set::axiom_set_remove_len(d, cur);
            }
            post_step(g, spread, visited2)
        }
    }
}

/// A pull leaves a workable state, never shrinks the visited set, and
/// strictly shrinks the unvisited-keys-then-stack measure when it emits;
/// when it emits nothing, it has exhausted the stack without visiting
/// anything new.
pub proof fn lemma_post_step_progress<G: ReferenceGraph>(
    g: G,
    stack: Seq<(u64, VisitTag)>,
    visited: Seq<u64>,
)
    requires
        post_state_ok(g, stack),
    ensures
        ({
            let (s2, v2, r) = post_step(g, stack, visited);
            let d = g.spec_keys().to_set().difference(visited.to_set());
            let d2 = g.spec_keys().to_set().difference(v2.to_set());
            &&& post_state_ok(g, s2)
            &&& (r is Some ==> d2.len() < d.len() || (d2.len() == d.len() && s2.len()
                < stack.len()))
            &&& (r is None ==> s2.len() == 0 && v2 == visited)
            &&& ((exists|m: int| 0 <= m < stack.len() && is_fin(stack, m)) ==> r is Some)
        }),
    decreases g.spec_keys().to_set().difference(visited.to_set()).len(), stack.len(),
{
    broadcast use vstd::seq_lib::seq_to_set_is_finite;

    if stack.len() == 0 {
    } else {
        let cur = at_key(stack, stack.len() - 1);
        let rest = stack.drop_last();
        assert(post_state_ok(g, rest)) by {
            assert forall|m: int| 0 <= m < rest.len() implies g.spec_keys().contains(
                #[trigger] at_key(rest, m),
            ) by {
                assert(at_key(rest, m) == at_key(stack, m));
            }
        }
        if is_fin(stack, stack.len() - 1) {
        } else if visited.contains(cur) {
            lemma_post_step_progress(g, rest, visited);
            if exists|m: int| 0 <= m < stack.len() && is_fin(stack, m) {
                let m = choose|m: int| 0 <= m < stack.len() && is_fin(stack, m);
                assert(m < stack.len() - 1);
                assert(is_fin(rest, m)) by {
                    assert(rest[m] == stack[m]);
                }
            }
        } else {
            let keyset = g.spec_keys().to_set();
            let d = keyset.difference(visited.to_set());
            let visited2 = visited.push(cur);
            let spread = rest.push((cur, VisitTag::Finished)) + g.spec_adjacents(cur).filter(
                |w: u64| !visited2.contains(w),
            ).map_values(|w: u64| (w, VisitTag::Discovered));
            assert(keyset.contains(cur));
            assert(d.contains(cur));
            vstd::set::axiom_set_difference_finite(keyset, visited.to_set());
            visited.lemma_push_to_set_commute(cur);
            assert(keyset.difference(visited2.to_set()) =~= d.remove(cur));
            vstd::set::axiom_set_remove_len(d, cur);
            assert(post_state_ok(g, spread)) by {
                g.valid_facts();
                broadcast use vstd::seq_lib::group_filter_ensures;

                let filt = g.spec_adjacents(cur).filter(|w: u64| !visited2.contains(w));
                let tagged = filt.map_values(|w: u64| (w, VisitTag::Discovered));
                assert forall|m: int| 0 <= m < spread.len() implies g.spec_keys().contains(
                    #[trigger] at_key(spread, m),
                ) by {
                    if m < rest.len() {
                        assert(at_key(spread, m) == at_key(stack, m));
                    } else if m == rest.len() {
                        assert(at_key(spread, m) == cur);
                    } else {
                        let w = filt[m - rest.len() - 1];
                        assert(at_key(spread, m) == w);
                        g.spec_adjacents(cur).lemma_filter_contains_rev(
                            |w: u64| !visited2.contains(w),
                            w,
                        );
                    }
                }
            }
            lemma_post_step_progress(g, spread, visited2);
            let (s2, v2, r) = post_step(g, spread, visited2);
            assert(is_fin(spread, rest.len() as int)) by {
                assert(spread[rest.len() as int] == (cur, VisitTag::Finished));
            }
            assert(r is Some);
            let dm = keyset.difference(visited2.to_set());
            let d2 = keyset.difference(v2.to_set());
            assert(d2.len() <= dm.len() < d.len()) by {
                if post_step(g, spread, visited2).1 == visited2 {
                } else {
                    assert(dm.len() < d.len());
                }
            }
        }
    }
}

/// A post-order traversal run to exhaustion, as a function of the state
/// alone: the finish sequence it emits, and the visited sequence it leaves.
pub open spec fn post_run<G: ReferenceGraph>(
    g: G,
    stack: Seq<(u64, VisitTag)>,
    visited: Seq<u64>,
) -> (Seq<u64>, Seq<u64>)
    decreases g.spec_keys().to_set().difference(visited.to_set()).len(), stack.len(),
        when post_state_ok(g, stack)
{
    let step = post_step(g, stack, visited);
    match step.2 {
        Some(u) => {
            proof {
                lemma_post_step_progress(g, stack, visited);
            }
            let rest = post_run(g, step.0, step.1);
            (seq![u] + rest.0, rest.1)
        },
        None => (Seq::<u64>::empty(), visited),
    }
}

/// Lazy post-order depth-first traversal.  Pulling pops the stack: a
/// `Discovered` key not yet visited is marked, re-pushed as `Finished` and
/// covered with its unvisited successors; an already-visited `Discovered`
/// key is dropped; a `Finished` key is emitted.  A key is thus emitted only
/// after every then-unvisited descendant of it has been emitted.
pub struct PostOrderDFS<'a, G: ReferenceGraph> {
    pub graph: &'a G,
    pub visited: Vec<u64>,
    pub stack: Vec<(u64, VisitTag)>,
    pub emitted: Ghost<Seq<u64>>,
    pub root: Ghost<u64>,
    pub init: Ghost<Set<u64>>,
}

impl<'a, G: ReferenceGraph> PostOrderDFS<'a, G> {
    /// The iterator's invariant.  Beyond the bookkeeping soundness shared
    /// with the other traversals, it carries the facts that make the finish
    /// order meaningful: below a `Finished` key stand only keys it reaches,
    /// its successors are visited or still pending above it, and every
    /// successor of an emitted key was emitted before it, was pre-seeded, or
    /// reaches back to it.
    pub open spec fn inv(&self) -> bool {
        let g = *self.graph;
        let s = self.stack@;
        let e = self.emitted@;
        &&& g.valid()
        &&& self.visited@.no_duplicates()
        &&& e.no_duplicates()
        &&& forall|m: int|
            0 <= m < self.visited@.len() ==> g.spec_keys().contains(#[trigger] self.visited@[m])
        &&& forall|m: int| 0 <= m < s.len() ==> g.spec_keys().contains(#[trigger] at_key(s, m))
        &&& self.visited@.to_set() == self.init@.union(e.to_set().union(gray(s)))
        &&& e.to_set().disjoint(self.init@)
        &&& e.to_set().disjoint(gray(s))
        &&& gray(s).disjoint(self.init@)
        &&& forall|m: int, n: int|
            #![trigger is_fin(s, m), is_fin(s, n)]
            0 <= m < s.len() && 0 <= n < s.len() && m != n && is_fin(s, m) && is_fin(s, n)
                ==> at_key(s, m) != at_key(s, n)
        &&& g.spec_keys().contains(self.root@)
        &&& (self.visited@.contains(self.root@) || exists|m: int|
            0 <= m < s.len() && at_key(s, m) == self.root@)
        &&& forall|m: int| 0 <= m < s.len() ==> reaches(g, self.root@, #[trigger] at_key(s, m))
        &&& forall|m: int| 0 <= m < e.len() ==> reaches(g, self.root@, #[trigger] e[m])
        &&& forall|m: int, w: u64|
            0 <= m < s.len() && is_fin(s, m) && #[trigger] g.spec_adjacents(at_key(s, m)).contains(
                w,
            ) ==> self.visited@.contains(w) || exists|n: int|
                m < n < s.len() && s[n] == (w, VisitTag::Discovered)
        &&& forall|m: int, n: int|
            #![trigger at_key(s, m), at_key(s, n)]
            0 <= m < n < s.len() && is_fin(s, m) ==> reaches(g, at_key(s, m), at_key(s, n))
        &&& forall|p: int, w: u64|
            0 <= p < e.len() && #[trigger] g.spec_adjacents(e[p]).contains(w)
                ==> self.visited@.contains(w)
        &&& forall|p: int, w: u64|
            0 <= p < e.len() && #[trigger] g.spec_adjacents(e[p]).contains(w)
                ==> self.init@.contains(w) || e.take(p).contains(w) || reaches(g, w, e[p])
    }

    /// The keys emitted so far, in finish order.
    pub open spec fn emitted_seq(&self) -> Seq<u64> {
        self.emitted@
    }

    /// Whether the traversal is exhausted.
    pub open spec fn done(&self) -> bool {
        self.stack@.len() == 0
    }

    /// A fresh traversal rooted at the registered key `root`.
    pub fn new(graph: &'a G, root: u64) -> (it: Self)
        requires
            graph.valid(),
            graph.spec_keys().contains(root),
        ensures
            it.inv(),
            it.graph == graph,
            it.root@ == root,
            it.init@ == Set::<u64>::empty(),
            it.emitted@ == Seq::<u64>::empty(),
            it.visited@ == Seq::<u64>::empty(),
            it.stack@ == seq![(root, VisitTag::Discovered)],
    {
        let mut stack: Vec<(u64, VisitTag)> = Vec::new();
        stack.push((root, VisitTag::Discovered));
        let it = PostOrderDFS {
            graph,
            visited: Vec::new(),
            stack,
            emitted: Ghost(Seq::empty()),
            root: Ghost(root),
            init: Ghost(Set::empty()),
        };
        proof {
            lemma_reaches_self(*graph, root);
            assert(it.stack@ =~= seq![(root, VisitTag::Discovered)]);
            assert(at_key(it.stack@, 0) == root);
            assert(gray(it.stack@) =~= Set::<u64>::empty());
            assert(it.visited@.to_set() =~= it.init@.union(
                it.emitted@.to_set().union(gray(it.stack@)),
            ));
            assert(it.inv());
        }
        it
    }

    /// A traversal rooted at `root` whose visited set starts as the keys in
    /// `visited`: those nodes are treated as already finished.  A root among
    /// them is itself treated as finished, so nothing is emitted.
    pub fn with_visited(graph: &'a G, root: u64, visited: Vec<u64>) -> (it: Self)
        requires
            graph.valid(),
            graph.spec_keys().contains(root),
            visited@.no_duplicates(),
            forall|m: int|
                0 <= m < visited@.len() ==> graph.spec_keys().contains(#[trigger] visited@[m]),
        ensures
            it.inv(),
            it.graph == graph,
            it.root@ == root,
            it.init@ == visited@.to_set(),
            it.emitted@ == Seq::<u64>::empty(),
            it.visited@ == visited@,
            it.stack@ == seq![(root, VisitTag::Discovered)],
    {
        let ghost iv = visited@.to_set();
        let mut stack: Vec<(u64, VisitTag)> = Vec::new();
        stack.push((root, VisitTag::Discovered));
        let it = PostOrderDFS {
            graph,
            visited,
            stack,
            emitted: Ghost(Seq::empty()),
            root: Ghost(root),
            init: Ghost(iv),
        };
        proof {
            lemma_reaches_self(*graph, root);
            assert(it.stack@ =~= seq![(root, VisitTag::Discovered)]);
            assert(at_key(it.stack@, 0) == root);
            assert(gray(it.stack@) =~= Set::<u64>::empty());
            assert(it.visited@.to_set() =~= it.init@.union(
                it.emitted@.to_set().union(gray(it.stack@)),
            ));
            assert(it.inv());
        }
        it
    }

    /// Every emitted key is registered, so no more keys can be emitted than
    /// are registered.
    pub proof fn lemma_emitted_bounded(&self)
        requires
            self.inv(),
        ensures
            self.emitted@.len() <= (*self.graph).spec_keys().len(),
    {
        let g = *self.graph;
        let e = self.emitted@;
        assert forall|m: int| 0 <= m < e.len() implies g.spec_keys().contains(
            #[trigger] e[m],
        ) by {
            assert(e.to_set().contains(e[m]));
            assert(self.visited@.to_set().contains(e[m]));
        }
        lemma_unique_members_bounded(e, g.spec_keys());
    }

    /// Pulls the next key of the traversal: the finish-order successor.
    pub fn next(&mut self) -> (r: Option<u64>)
        requires
            old(self).inv(),
        ensures
            final(self).inv(),
            final(self).graph == old(self).graph,
            final(self).root == old(self).root,
            final(self).init == old(self).init,
            match r {
                None => {
                    &&& final(self).stack@.len() == 0
                    &&& final(self).visited == old(self).visited
                    &&& final(self).emitted == old(self).emitted
                },
                Some(u) => {
                    &&& final(self).emitted@ == old(self).emitted@.push(u)
                    &&& !old(self).emitted@.contains(u)
                    &&& !old(self).init@.contains(u)
                    &&& (*old(self).graph).spec_keys().contains(u)
                    &&& reaches(*old(self).graph, old(self).root@, u)
                    &&& old(self).visited@.to_set().subset_of(final(self).visited@.to_set())
                },
            },
            ({
                let step = post_step(*old(self).graph, old(self).stack@, old(self).visited@);
                &&& final(self).stack@ == step.0
                &&& final(self).visited@ == step.1
                &&& r == step.2
            }),
    {
        let ghost g = *self.graph;
        loop
            invariant
                self.inv(),
                self.graph == old(self).graph,
                self.root == old(self).root,
                self.init == old(self).init,
                self.emitted == old(self).emitted,
                g == *self.graph,
                old(self).visited@.to_set().subset_of(self.visited@.to_set()),
                self.visited == old(self).visited || exists|m: int|
                    0 <= m < self.stack@.len() && is_fin(self.stack@, m),
                post_step(g, self.stack@, self.visited@) == post_step(
                    g,
                    old(self).stack@,
                    old(self).visited@,
                ),
            decreases g.spec_keys().len() - self.visited@.len(), self.stack@.len(),
        {
            let ghost pre = *self;
            proof {
                lemma_unique_members_bounded(self.visited@, g.spec_keys());
            }
            match self.stack.pop() {
                None => {
                    proof {
                        assert(post_state_ok(g, self.stack@));
                    }
                    return None;
                },
                Some((cur, tag)) => {
                    proof {
                        assert(pre.stack@.last() == (cur, tag));
                        assert(self.stack@ =~= pre.stack@.drop_last());
                        assert(at_key(pre.stack@, pre.stack@.len() - 1) == cur);
                    }
                    match tag {
                        VisitTag::Finished => {
                            self.emitted = Ghost(self.emitted@.push(cur));
                            proof {
                                self.post_finished(pre, cur);
                                assert(post_state_ok(g, pre.stack@));
                                assert(is_fin(pre.stack@, pre.stack@.len() - 1));
                                assert(post_step(g, pre.stack@, pre.visited@) == (
                                    pre.stack@.drop_last(),
                                    pre.visited@,
                                    Some(cur),
                                ));
                            }
                            return Some(cur);
                        },
                        VisitTag::Discovered => {
                            if vec_contains_key(&self.visited, cur) {
                                // already visited: discard the entry
                                proof {
                                    self.post_skip(pre, cur);
                                    assert(post_state_ok(g, pre.stack@));
                                    assert(!is_fin(pre.stack@, pre.stack@.len() - 1));
                                    assert(post_step(g, pre.stack@, pre.visited@) == post_step(
                                        g,
                                        self.stack@,
                                        self.visited@,
                                    ));
                                    if self.visited != old(self).visited {
                                        let m = choose|m: int|
                                            0 <= m < pre.stack@.len() && is_fin(pre.stack@, m);
                                        assert(pre.stack@[m].1 is Finished);
                                        assert(m != pre.stack@.len() - 1);
                                        assert(self.stack@[m] == pre.stack@[m]);
                                        assert(is_fin(self.stack@, m));
                                    }
                                }
                            } else {
                                self.visited.push(cur);
                                self.stack.push((cur, VisitTag::Finished));
                                let adjs = self.graph.adjacents(cur);
                                proof {
                                    self.graph.valid_facts();
                                }
                                let ghost entry = *self;
                                let ghost base = self.stack@.len() as int;
                                let ghost predu = |w: u64| !entry.visited@.contains(w);
                                let ghost tagd = |w: u64| (w, VisitTag::Discovered);
                                proof {
                                    assert(self.stack@.take(base) =~= self.stack@);
                                    assert(self.stack@ =~= entry.stack@ + adjs@.take(0).filter(
                                        predu,
                                    ).map_values(tagd));
                                }
                                let mut t: usize = 0;
                                while t < adjs.len()
                                    invariant
                                        t <= adjs@.len(),
                                        adjs@ == g.spec_adjacents(cur),
                                        g == *self.graph,
                                        g.valid(),
                                        self.graph == entry.graph,
                                        self.visited == entry.visited,
                                        self.emitted == entry.emitted,
                                        self.root == entry.root,
                                        self.init == entry.init,
                                        base == entry.stack@.len(),
                                        self.stack@.len() >= base,
                                        self.stack@.take(base) == entry.stack@,
                                        forall|n: int|
                                            base <= n < self.stack@.len()
                                                ==> (#[trigger] self.stack@[n]).1
                                                is Discovered,
                                        forall|n: int|
                                            base <= n < self.stack@.len()
                                                ==> adjs@.contains(at_key(self.stack@, n)),
                                        forall|j: int|
                                            0 <= j < t && !entry.visited@.contains(adjs@[j])
                                                ==> exists|n: int|
                                                base <= n < self.stack@.len() && self.stack@[n]
                                                    == (#[trigger] adjs@[j],
                                                VisitTag::Discovered),
                                        predu == (|w: u64| !entry.visited@.contains(w)),
                                        tagd == (|w: u64| (w, VisitTag::Discovered)),
                                        self.stack@ == entry.stack@ + adjs@.take(
                                            t as int,
                                        ).filter(predu).map_values(tagd),
                                    decreases adjs@.len() - t,
                                {
                                    proof {
                                        assert(adjs@.take(t + 1) =~= adjs@.take(t as int).push(
                                            adjs@[t as int],
                                        ));
                                        Seq::lemma_filter_push(
                                            adjs@.take(t as int),
                                            adjs@[t as int],
                                            predu,
                                        );
                                        Seq::lemma_push_map_commute(
                                            adjs@.take(t as int).filter(predu),
                                            tagd,
                                            adjs@[t as int],
                                        );
                                    }
                                    let a = adjs[t];
                                    if !vec_contains_key(&self.visited, a) {
                                        let ghost ps = self.stack@;
                                        self.stack.push((a, VisitTag::Discovered));
                                        proof {
                                            assert(self.stack@ =~= entry.stack@ + adjs@.take(
                                                t + 1,
                                            ).filter(predu).map_values(tagd));
                                            assert(self.stack@.take(base) =~= ps.take(base));
                                            assert(self.stack@.last() == (
                                                a,
                                                VisitTag::Discovered,
                                            ));
                                            assert(adjs@[t as int] == a);
                                            assert(at_key(self.stack@, self.stack@.len() - 1)
                                                == a);
                                            assert forall|n: int|
                                                base <= n < self.stack@.len() implies (
                                            #[trigger] self.stack@[n]).1 is Discovered
                                                && adjs@.contains(at_key(self.stack@, n)) by {
                                                if n < self.stack@.len() - 1 {
                                                    assert(self.stack@[n] == ps[n]);
                                                    assert(at_key(self.stack@, n) == at_key(
                                                        ps,
                                                        n,
                                                    ));
                                                }
                                            }
                                            assert forall|j: int|
                                                0 <= j < t + 1 && !entry.visited@.contains(
                                                    adjs@[j],
                                                ) implies exists|n: int|
                                                base <= n < self.stack@.len() && self.stack@[n]
                                                    == (#[trigger] adjs@[j],
                                                VisitTag::Discovered) by {
                                                if j < t {
                                                    let n = choose|n: int|
                                                        base <= n < ps.len() && ps[n] == (
                                                            adjs@[j],
                                                            VisitTag::Discovered,
                                                        );
                                                    assert(self.stack@[n] == (
                                                        adjs@[j],
                                                        VisitTag::Discovered,
                                                    ));
                                                } else {
                                                    assert(self.stack@[self.stack@.len() - 1]
                                                        == (adjs@[j], VisitTag::Discovered));
                                                }
                                            }
                                        }
                                    } else {
                                        proof {
                                            assert forall|j: int|
                                                0 <= j < t + 1 && !entry.visited@.contains(
                                                    adjs@[j],
                                                ) implies exists|n: int|
                                                base <= n < self.stack@.len() && self.stack@[n]
                                                    == (#[trigger] adjs@[j],
                                                VisitTag::Discovered) by {
                                                if j == t {
                                                    assert(entry.visited@.contains(adjs@[j]));
                                                }
                                            }
                                        }
                                    }
                                    t = t + 1;
                                }
                                proof {
                                    self.post_spread(pre, entry, cur, base);
                                    lemma_unique_members_bounded(self.visited@, g.spec_keys());
                                    assert(self.stack@.len() >= base >= 1);
                                    assert(is_fin(self.stack@, base - 1));
                                    assert(adjs@.take(adjs@.len() as int) =~= adjs@);
                                    assert(self.stack@ == entry.stack@ + adjs@.filter(
                                        predu,
                                    ).map_values(tagd));
                                    assert(post_state_ok(g, pre.stack@));
                                    assert(!is_fin(pre.stack@, pre.stack@.len() - 1));
                                    assert(!pre.visited@.contains(cur));
                                    assert(entry.visited@ == pre.visited@.push(cur));
                                    assert(post_step(g, pre.stack@, pre.visited@) == post_step(
                                        g,
                                        self.stack@,
                                        self.visited@,
                                    ));
                                }
                            }
                        },
                    }
                },
            }
        }
    }

    /// After an exhausted run that started with an empty visited set, the
    /// emitted keys are exactly the keys reachable from the root, each
    /// exactly once.
    pub proof fn lemma_emits_reachable_exactly_once(&self)
        requires
            self.inv(),
            self.done(),
            self.init@ == Set::<u64>::empty(),
        ensures
            self.emitted@.no_duplicates(),
            forall|x: u64| self.emitted@.contains(x) <==> reaches(*self.graph, self.root@, x),
    {
        let g = *self.graph;
        let e = self.emitted@;
        assert(gray(self.stack@) =~= Set::<u64>::empty());
        let s = self.visited@.to_set();
        assert(s =~= e.to_set());
        assert(self.visited@.contains(self.root@));
        assert forall|x: u64| reaches(g, self.root@, x) implies e.contains(x) by {
            assert forall|v: u64, w: u64|
                s.contains(v) && #[trigger] g.spec_adjacents(v).contains(w) implies s.contains(
                w,
            ) by {
                let p = choose|p: int| 0 <= p < e.len() && e[p] == v;
                assert(self.visited@.contains(w));
            }
            lemma_closed_set_contains_reachable(g, self.root@, s, x);
        }
        assert forall|x: u64| e.contains(x) implies reaches(g, self.root@, x) by {
            let p = choose|p: int| 0 <= p < e.len() && e[p] == x;
        }
    }

    /// A key is emitted only after each of its then-unvisited descendants:
    /// every successor of an emitted key was emitted before it, was in the
    /// pre-seeded visited set, or is an ancestor that reaches back to it.
    pub proof fn lemma_successors_emitted_first(&self)
        requires
            self.inv(),
        ensures
            forall|p: int, w: u64|
                0 <= p < self.emitted@.len() && #[trigger] (*self.graph).spec_adjacents(
                    self.emitted@[p],
                ).contains(w) ==> self.init@.contains(w) || self.emitted@.take(p).contains(w)
                    || reaches(*self.graph, w, self.emitted@[p]),
    {
    }

    /// Restores the invariant after a `Finished` key is popped and emitted.
    proof fn post_finished(&self, pre: Self, cur: u64)
        requires
            pre.inv(),
            pre.stack@.len() > 0,
            pre.stack@.last() == (cur, VisitTag::Finished),
            self.graph == pre.graph,
            self.visited == pre.visited,
            self.root == pre.root,
            self.init == pre.init,
            self.stack@ == pre.stack@.drop_last(),
            self.emitted@ == pre.emitted@.push(cur),
        ensures
            self.inv(),
            !pre.emitted@.contains(cur),
            !pre.init@.contains(cur),
            (*pre.graph).spec_keys().contains(cur),
            reaches(*pre.graph, pre.root@, cur),
    {
        let g = *self.graph;
        let s0 = pre.stack@;
        let s = self.stack@;
        let e0 = pre.emitted@;
        let e = self.emitted@;
        let top = s0.len() - 1;
        assert(at_key(s0, top) == cur && is_fin(s0, top));
        assert(gray(s0).contains(cur));
        assert(!e0.to_set().contains(cur));
        assert(!pre.init@.contains(cur));
        assert(pre.visited@.to_set().contains(cur));
        assert(g.spec_keys().contains(cur)) by {
            assert(g.spec_keys().contains(at_key(s0, top)));
        }
        assert(reaches(g, pre.root@, cur)) by {
            assert(reaches(g, pre.root@, at_key(s0, top)));
        }
        if e0.contains(cur) {
            assert(e0.to_set().contains(cur));
            assert(false);
        }
        e0.lemma_push_to_set_commute(cur);
        assert forall|p: int| 0 <= p <= e0.len() implies #[trigger] e.take(p) == e0.take(p) by {
            assert(e.take(p) =~= e0.take(p));
        }
        assert(gray(s) =~= gray(s0).remove(cur)) by {
            assert forall|x: u64| gray(s).contains(x) implies gray(s0).remove(cur).contains(
                x,
            ) by {
                let m = choose|m: int| 0 <= m < s.len() && s[m] == (x, VisitTag::Finished);
                assert(s0[m] == (x, VisitTag::Finished));
                assert(is_fin(s0, m) && is_fin(s0, top));
                assert(x != cur);
            }
            assert forall|x: u64| gray(s0).remove(cur).contains(x) implies gray(s).contains(
                x,
            ) by {
                let m = choose|m: int| 0 <= m < s0.len() && s0[m] == (x, VisitTag::Finished);
                assert(m != top);
                assert(s[m] == (x, VisitTag::Finished));
            }
        }
        assert(self.visited@.to_set() =~= self.init@.union(e.to_set().union(gray(s))));
        assert(e.to_set().disjoint(self.init@));
        assert(e.to_set().disjoint(gray(s)));
        assert(gray(s).disjoint(self.init@));
        // every pending witness survives the pop
        assert forall|m: int, w: u64|
            0 <= m < s.len() && is_fin(s, m) && #[trigger] g.spec_adjacents(at_key(s, m)).contains(
                w,
            ) implies self.visited@.contains(w) || exists|n: int|
            m < n < s.len() && s[n] == (w, VisitTag::Discovered) by {
            assert(s0[m] == s[m]);
            assert(is_fin(s0, m) && g.spec_adjacents(at_key(s0, m)).contains(w));
            if !self.visited@.contains(w) {
                let n = choose|n: int| m < n < s0.len() && s0[n] == (w, VisitTag::Discovered);
                assert(n != top);
                assert(s[n] == (w, VisitTag::Discovered));
            }
        }
        // the root clause
        assert(self.visited@.contains(self.root@) || exists|m: int|
            0 <= m < s.len() && at_key(s, m) == self.root@) by {
            if !self.visited@.contains(self.root@) {
                let m = choose|m: int| 0 <= m < s0.len() && at_key(s0, m) == self.root@;
                if m == top {
                    assert(self.root@ == cur);
                    assert(pre.visited@.contains(cur));
                    assert(false);
                } else {
                    assert(at_key(s, m) == self.root@);
                }
            }
        }
        assert forall|m: int| 0 <= m < s.len() implies g.spec_keys().contains(
            #[trigger] at_key(s, m),
        ) && reaches(g, self.root@, at_key(s, m)) by {
            assert(at_key(s0, m) == at_key(s, m));
        }
        assert forall|m: int, n: int|
            #![trigger at_key(s, m), at_key(s, n)]
            0 <= m < n < s.len() && is_fin(s, m) implies reaches(g, at_key(s, m), at_key(s, n)) by {
            assert(at_key(s0, m) == at_key(s, m) && at_key(s0, n) == at_key(s, n));
            assert(is_fin(s0, m));
        }
        assert forall|m: int, n: int|
            #![trigger is_fin(s, m), is_fin(s, n)]
            0 <= m < s.len() && 0 <= n < s.len() && m != n && is_fin(s, m) && is_fin(s, n) implies
            at_key(s, m) != at_key(s, n) by {
            assert(s0[m] == s[m] && s0[n] == s[n]);
            assert(is_fin(s0, m) && is_fin(s0, n));
            assert(at_key(s0, m) == at_key(s, m) && at_key(s0, n) == at_key(s, n));
        }
        // the just-emitted key: its successors are visited, and each was
        // emitted earlier, pre-seeded, or reaches back to it
        assert forall|w: u64| #[trigger] g.spec_adjacents(cur).contains(w) implies self.visited@
            .contains(w) by {
            assert(g.spec_adjacents(at_key(s0, top)).contains(w));
            if !self.visited@.contains(w) {
                let n = choose|n: int| top < n < s0.len() && s0[n] == (w, VisitTag::Discovered);
                assert(false);
            }
        }
        assert forall|w: u64| #[trigger] g.spec_adjacents(cur).contains(w) implies self.init@
            .contains(w) || e.take(e0.len() as int).contains(w) || reaches(g, w, cur) by {
            assert(self.visited@.contains(w));
            assert(pre.visited@.to_set().contains(w));
            if !self.init@.contains(w) {
                if e0.to_set().contains(w) {
                    assert(e.take(e0.len() as int) == e0);
                    assert(e0.contains(w));
                } else {
                    assert(gray(s0).contains(w));
                    if w == cur {
                        lemma_reaches_self(g, cur);
                    } else {
                        let m = choose|m: int|
                            0 <= m < s0.len() && s0[m] == (w, VisitTag::Finished);
                        assert(m != top);
                        assert(is_fin(s0, m) && at_key(s0, m) == w);
                        assert(at_key(s0, top) == cur);
                        assert(reaches(g, at_key(s0, m), at_key(s0, top)));
                    }
                }
            }
        }
        assert forall|p: int, w: u64|
            0 <= p < e.len() && #[trigger] g.spec_adjacents(e[p]).contains(w) implies self
            .visited@.contains(w) && (self.init@.contains(w) || e.take(p).contains(w) || reaches(
            g,
            w,
            e[p],
        )) by {
            if p < e0.len() {
                assert(e[p] == e0[p]);
                assert(e.take(p) == e0.take(p));
                if !self.init@.contains(w) && !e0.take(p).contains(w) {
                    assert(reaches(g, w, e0[p]));
                }
            } else {
                assert(e[p] == cur);
            }
        }
        assert(self.inv());
    }

    /// Restores the invariant after an already-visited `Discovered` key is
    /// popped and dropped.
    proof fn post_skip(&self, pre: Self, cur: u64)
        requires
            pre.inv(),
            pre.stack@.len() > 0,
            pre.stack@.last() == (cur, VisitTag::Discovered),
            pre.visited@.contains(cur),
            self.graph == pre.graph,
            self.visited == pre.visited,
            self.emitted == pre.emitted,
            self.root == pre.root,
            self.init == pre.init,
            self.stack@ == pre.stack@.drop_last(),
        ensures
            self.inv(),
    {
        let g = *self.graph;
        let s0 = pre.stack@;
        let s = self.stack@;
        let top = s0.len() - 1;
        assert(gray(s) =~= gray(s0)) by {
            assert forall|x: u64| gray(s0).contains(x) implies gray(s).contains(x) by {
                let m = choose|m: int| 0 <= m < s0.len() && s0[m] == (x, VisitTag::Finished);
                assert(m != top);
                assert(s[m] == (x, VisitTag::Finished));
            }
            assert forall|x: u64| gray(s).contains(x) implies gray(s0).contains(x) by {
                let m = choose|m: int| 0 <= m < s.len() && s[m] == (x, VisitTag::Finished);
                assert(s0[m] == (x, VisitTag::Finished));
            }
        }
        assert(self.visited@.to_set() =~= self.init@.union(
            self.emitted@.to_set().union(gray(s)),
        ));
        assert forall|m: int, w: u64|
            0 <= m < s.len() && is_fin(s, m) && #[trigger] g.spec_adjacents(at_key(s, m)).contains(
                w,
            ) implies self.visited@.contains(w) || exists|n: int|
            m < n < s.len() && s[n] == (w, VisitTag::Discovered) by {
            assert(s0[m] == s[m]);
            assert(is_fin(s0, m) && g.spec_adjacents(at_key(s0, m)).contains(w));
            if !self.visited@.contains(w) {
                let n = choose|n: int| m < n < s0.len() && s0[n] == (w, VisitTag::Discovered);
                if n == top {
                    assert(w == cur);
                    assert(false);
                }
                assert(s[n] == (w, VisitTag::Discovered));
            }
        }
        assert(self.visited@.contains(self.root@) || exists|m: int|
            0 <= m < s.len() && at_key(s, m) == self.root@) by {
            if !self.visited@.contains(self.root@) {
                let m = choose|m: int| 0 <= m < s0.len() && at_key(s0, m) == self.root@;
                if m == top {
                    assert(self.root@ == cur);
                    assert(false);
                } else {
                    assert(at_key(s, m) == self.root@);
                }
            }
        }
        assert forall|m: int| 0 <= m < s.len() implies g.spec_keys().contains(
            #[trigger] at_key(s, m),
        ) && reaches(g, self.root@, at_key(s, m)) by {
            assert(at_key(s0, m) == at_key(s, m));
        }
        assert forall|m: int, n: int|
            #![trigger at_key(s, m), at_key(s, n)]
            0 <= m < n < s.len() && is_fin(s, m) implies reaches(g, at_key(s, m), at_key(s, n)) by {
            assert(at_key(s0, m) == at_key(s, m) && at_key(s0, n) == at_key(s, n));
            assert(is_fin(s0, m));
        }
        assert forall|m: int, n: int|
            #![trigger is_fin(s, m), is_fin(s, n)]
            0 <= m < s.len() && 0 <= n < s.len() && m != n && is_fin(s, m) && is_fin(s, n) implies
            at_key(s, m) != at_key(s, n) by {
            assert(s0[m] == s[m] && s0[n] == s[n]);
            assert(is_fin(s0, m) && is_fin(s0, n));
            assert(at_key(s0, m) == at_key(s, m) && at_key(s0, n) == at_key(s, n));
        }
        assert(self.inv());
    }

    /// Restores the invariant after an unvisited `Discovered` key `cur` is
    /// popped, marked visited, re-pushed as `Finished`, and covered with its
    /// unvisited successors tagged `Discovered`.
    proof fn post_spread(&self, pre: Self, entry: Self, cur: u64, base: int)
        requires
            pre.inv(),
            pre.stack@.len() > 0,
            pre.stack@.last() == (cur, VisitTag::Discovered),
            !pre.visited@.contains(cur),
            entry.graph == pre.graph,
            entry.root == pre.root,
            entry.init == pre.init,
            entry.emitted == pre.emitted,
            entry.visited@ == pre.visited@.push(cur),
            entry.stack@ == pre.stack@.drop_last().push((cur, VisitTag::Finished)),
            base == entry.stack@.len(),
            self.graph == entry.graph,
            self.visited == entry.visited,
            self.emitted == entry.emitted,
            self.root == entry.root,
            self.init == entry.init,
            self.stack@.len() >= base,
            self.stack@.take(base) == entry.stack@,
            forall|n: int|
                base <= n < self.stack@.len() ==> (#[trigger] self.stack@[n]).1 is Discovered,
            forall|n: int|
                base <= n < self.stack@.len() ==> (*pre.graph).spec_adjacents(cur).contains(
                    at_key(self.stack@, n),
                ),
            forall|j: int|
                0 <= j < (*pre.graph).spec_adjacents(cur).len() && !entry.visited@.contains(
                    (*pre.graph).spec_adjacents(cur)[j],
                ) ==> exists|n: int|
                    base <= n < self.stack@.len() && self.stack@[n] == (
                        #[trigger] (*pre.graph).spec_adjacents(cur)[j],
                        VisitTag::Discovered,
                    ),
        ensures
            self.inv(),
            pre.visited@.to_set().subset_of(self.visited@.to_set()),
            is_fin(self.stack@, base - 1),
    {
        let g = *self.graph;
        let s0 = pre.stack@;
        let s = self.stack@;
        let top = s0.len() - 1;
        let fin = base - 1;
        g.valid_facts();
        assert(at_key(s0, top) == cur);
        assert(g.spec_keys().contains(cur));
        assert(reaches(g, pre.root@, cur));
        assert(s[fin] == (cur, VisitTag::Finished)) by {
            assert(s.take(base)[fin] == entry.stack@[fin]);
        }
        assert forall|m: int| 0 <= m < fin implies s[m] == s0[m] by {
            assert(s.take(base)[m] == entry.stack@[m]);
        }
        // membership in the old visited set carries over
        assert forall|x: u64| pre.visited@.to_set().contains(x) implies self.visited@.to_set()
            .contains(x) by {
            let n = choose|n: int| 0 <= n < pre.visited@.len() && pre.visited@[n] == x;
            assert(self.visited@[n] == x);
        }
        assert(!pre.visited@.to_set().contains(cur));
        assert(!gray(s0).contains(cur));
        assert(!pre.emitted@.to_set().contains(cur));
        assert(!pre.init@.contains(cur));
        assert(self.visited@.last() == cur);
        assert(self.visited@.no_duplicates());
        assert forall|m: int| 0 <= m < self.visited@.len() implies g.spec_keys().contains(
            #[trigger] self.visited@[m],
        ) by {
            if m == pre.visited@.len() {
                assert(self.visited@[m] == cur);
            }
        }
        assert forall|m: int| 0 <= m < s.len() implies g.spec_keys().contains(
            #[trigger] at_key(s, m),
        ) by {
            if m < fin {
                assert(at_key(s0, m) == at_key(s, m));
            } else if m == fin {
            } else {
                assert(g.spec_adjacents(cur).contains(at_key(s, m)));
                let j = choose|j: int|
                    0 <= j < g.spec_adjacents(cur).len() && g.spec_adjacents(cur)[j] == at_key(
                        s,
                        m,
                    );
            }
        }
        assert(gray(s) =~= gray(s0).insert(cur)) by {
            assert forall|x: u64| gray(s).contains(x) implies gray(s0).insert(cur).contains(
                x,
            ) by {
                let m = choose|m: int| 0 <= m < s.len() && s[m] == (x, VisitTag::Finished);
                if m < fin {
                    assert(s0[m] == (x, VisitTag::Finished));
                } else if m == fin {
                    assert(x == cur);
                } else {
                    assert(s[m].1 is Discovered);
                    assert(false);
                }
            }
            assert forall|x: u64| gray(s0).insert(cur).contains(x) implies gray(s).contains(
                x,
            ) by {
                if x == cur {
                    assert(s[fin] == (cur, VisitTag::Finished));
                } else {
                    let m = choose|m: int| 0 <= m < s0.len() && s0[m] == (x, VisitTag::Finished);
                    assert(m != top);
                    assert(s[m] == (x, VisitTag::Finished));
                }
            }
        }
        pre.visited@.lemma_push_to_set_commute(cur);
        assert(self.visited@.to_set() =~= self.init@.union(
            self.emitted@.to_set().union(gray(s)),
        ));
        assert(self.emitted@.to_set().disjoint(gray(s)));
        assert(gray(s).disjoint(self.init@));
        // uniqueness of the gray entries
        assert forall|m: int, n: int|
            #![trigger is_fin(s, m), is_fin(s, n)]
            0 <= m < s.len() && 0 <= n < s.len() && m != n && is_fin(s, m) && is_fin(s, n) implies
            at_key(s, m) != at_key(s, n) by {
            if m < fin && n < fin {
                assert(s0[m] == s[m] && s0[n] == s[n]);
                assert(is_fin(s0, m) && is_fin(s0, n));
            } else if m == fin && n < fin {
                assert(s0[n] == s[n]);
                assert(gray(s0).contains(at_key(s0, n)));
                assert(pre.visited@.to_set().contains(at_key(s, n)));
            } else if n == fin && m < fin {
                assert(s0[m] == s[m]);
                assert(gray(s0).contains(at_key(s0, m)));
                assert(pre.visited@.to_set().contains(at_key(s, m)));
            }
        }
        // the root clause
        assert(self.visited@.contains(self.root@) || exists|m: int|
            0 <= m < s.len() && at_key(s, m) == self.root@) by {
            if pre.visited@.contains(self.root@) {
                let n = choose|n: int|
                    0 <= n < pre.visited@.len() && pre.visited@[n] == self.root@;
                assert(self.visited@[n] == self.root@);
            } else {
                let m = choose|m: int| 0 <= m < s0.len() && at_key(s0, m) == self.root@;
                if m == top {
                    assert(self.root@ == cur);
                    assert(self.visited@.contains(cur));
                } else {
                    assert(at_key(s, m) == self.root@);
                }
            }
        }
        // reachability of the stack keys
        assert forall|m: int| 0 <= m < s.len() implies reaches(
            g,
            self.root@,
            #[trigger] at_key(s, m),
        ) by {
            if m < fin {
                assert(at_key(s0, m) == at_key(s, m));
            } else if m == fin {
            } else {
                assert(g.spec_adjacents(cur).contains(at_key(s, m)));
                lemma_reaches_step(g, self.root@, cur, at_key(s, m));
            }
        }
        // pending successors
        assert forall|m: int, w: u64|
            0 <= m < s.len() && is_fin(s, m) && #[trigger] g.spec_adjacents(at_key(s, m)).contains(
                w,
            ) implies self.visited@.contains(w) || exists|n: int|
            m < n < s.len() && s[n] == (w, VisitTag::Discovered) by {
            if m < fin {
                assert(s0[m] == s[m]);
                assert(is_fin(s0, m) && g.spec_adjacents(at_key(s0, m)).contains(w));
                if pre.visited@.contains(w) {
                    let n = choose|n: int| 0 <= n < pre.visited@.len() && pre.visited@[n] == w;
                    assert(self.visited@[n] == w);
                } else {
                    let n = choose|n: int| m < n < s0.len() && s0[n] == (w, VisitTag::Discovered);
                    if n == top {
                        assert(w == cur);
                        assert(self.visited@.contains(cur));
                    } else {
                        assert(s[n] == (w, VisitTag::Discovered));
                    }
                }
            } else if m == fin {
                assert(at_key(s, fin) == cur);
                if !self.visited@.contains(w) {
                    let j = choose|j: int|
                        0 <= j < g.spec_adjacents(cur).len() && g.spec_adjacents(cur)[j] == w;
                    assert(!entry.visited@.contains(w));
                    let n = choose|n: int|
                        base <= n < s.len() && s[n] == (
                            g.spec_adjacents(cur)[j],
                            VisitTag::Discovered,
                        );
                    assert(fin < n < s.len() && s[n] == (w, VisitTag::Discovered));
                }
            } else {
                assert(s[m].1 is Discovered);
                assert(false);
            }
        }
        // the gray chain
        assert forall|m: int, n: int|
            #![trigger at_key(s, m), at_key(s, n)]
            0 <= m < n < s.len() && is_fin(s, m) implies reaches(g, at_key(s, m), at_key(s, n)) by {
            if m < fin {
                assert(s0[m] == s[m]);
                assert(is_fin(s0, m));
                assert(at_key(s0, top) == cur);
                assert(reaches(g, at_key(s0, m), at_key(s0, top)));
                if n < fin {
                    assert(s0[n] == s[n]);
                    assert(reaches(g, at_key(s0, m), at_key(s0, n)));
                } else if n == fin {
                    assert(at_key(s, n) == cur);
                } else {
                    assert(g.spec_adjacents(cur).contains(at_key(s, n)));
                    lemma_reaches_step(g, at_key(s, m), cur, at_key(s, n));
                }
            } else if m == fin {
                assert(at_key(s, m) == cur);
                lemma_reaches_self(g, cur);
                assert(g.spec_adjacents(cur).contains(at_key(s, n)));
                lemma_reaches_step(g, cur, cur, at_key(s, n));
            } else {
                assert(s[m].1 is Discovered);
                assert(false);
            }
        }
        // the emitted clauses only gain from a larger visited set
        assert forall|p: int, w: u64|
            0 <= p < self.emitted@.len() && #[trigger] g.spec_adjacents(
                self.emitted@[p],
            ).contains(w) implies self.visited@.contains(w) by {
            assert(pre.emitted@[p] == self.emitted@[p]);
            assert(pre.visited@.contains(w));
            let n = choose|n: int| 0 <= n < pre.visited@.len() && pre.visited@[n] == w;
            assert(self.visited@[n] == w);
        }
        assert(self.inv());
    }
}

/// A duplicate-free sequence whose members all lie in `keys` is no longer
/// than `keys`.
pub proof fn lemma_unique_members_bounded(v: Seq<u64>, keys: Seq<u64>)
    requires
        v.no_duplicates(),
        forall|m: int| 0 <= m < v.len() ==> keys.contains(#[trigger] v[m]),
    ensures
        v.len() <= keys.len(),
{
    broadcast use vstd::seq_lib::seq_to_set_is_finite;

    v.unique_seq_to_set();
    keys.lemma_cardinality_of_set();
    assert(v.to_set().subset_of(keys.to_set())) by {
        assert forall|x: u64| v.to_set().contains(x) implies keys.to_set().contains(x) by {
            let m = choose|m: int| 0 <= m < v.len() && v[m] == x;
        }
    }
    vstd::set_lib::lemma_len_subset(v.to_set(), keys.to_set());
}

} // verus!
