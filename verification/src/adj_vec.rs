use vstd::prelude::*;
use crate::graph::ReferenceGraph;

verus! {

/// Adjacency-based storage: position `i` of the three parallel vectors holds
/// the `i`-th node's key, its payload, and its outgoing successor keys.
///
/// A successor key may be one that was never registered; such an edge is
/// stored and counted, but the [`ReferenceGraph`] capability filters it out
/// of the successor enumeration, so traversals silently skip it.
pub struct AdjacencyVecGraph<V> {
    pub node_ids: Vec<u64>,
    pub node_vals: Vec<V>,
    pub node_adjs: Vec<Vec<u64>>,
}

impl<V> AdjacencyVecGraph<V> {
    /// The registered keys, in storage order.
    pub open spec fn key_seq(&self) -> Seq<u64> {
        self.node_ids@
    }

    /// Whether `k` is a registered node key.
    pub open spec fn spec_contains_node(&self, k: u64) -> bool {
        self.node_ids@.contains(k)
    }

    /// The storage position of key `k`.
    pub open spec fn idx_of(&self, k: u64) -> int {
        self.node_ids@.index_of(k)
    }

    /// The payload associated with key `k`.
    pub open spec fn spec_value(&self, k: u64) -> V {
        self.node_vals@[self.idx_of(k)]
    }

    /// The stored successor keys of `k`, in storage order; empty when `k` is
    /// not registered.
    pub open spec fn succ_seq(&self, k: u64) -> Seq<u64> {
        if self.spec_contains_node(k) {
            self.node_adjs@[self.idx_of(k)]@
        } else {
            Seq::<u64>::empty()
        }
    }

    /// The stored successor set of `k`.
    pub open spec fn spec_succ(&self, k: u64) -> Set<u64> {
        self.succ_seq(k).to_set()
    }

    /// Whether the directed edge `from -> to` is stored.
    pub open spec fn spec_edge(&self, from: u64, to: u64) -> bool {
        self.succ_seq(from).contains(to)
    }

    /// Structural invariant: keys are unique, the three vectors run in
    /// parallel, and no successor list repeats a key or loops on its owner.
    pub open spec fn wf(&self) -> bool {
        &&& self.node_ids@.no_duplicates()
        &&& self.node_vals@.len() == self.node_ids@.len()
        &&& self.node_adjs@.len() == self.node_ids@.len()
        &&& forall|i: int|
            0 <= i < self.node_ids@.len() ==> (#[trigger] self.node_adjs@[i])@.no_duplicates()
        &&& forall|i: int|
            0 <= i < self.node_ids@.len() ==> !(#[trigger] self.node_adjs@[i])@.contains(
                self.node_ids@[i],
            )
    }

    /// With unique keys, the storage position of a key is the only position
    /// holding it.
    pub proof fn lemma_idx(&self, k: u64)
        requires
            self.wf(),
            self.spec_contains_node(k),
        ensures
            0 <= self.idx_of(k) < self.node_ids@.len(),
            self.node_ids@[self.idx_of(k)] == k,
            forall|j: int|
                0 <= j < self.node_ids@.len() && self.node_ids@[j] == k ==> j == self.idx_of(k),
    {
        let i = choose|i: int| 0 <= i < self.node_ids@.len() && self.node_ids@[i] == k;
        assert(self.node_ids@[i] == k);
    }

    /// An empty graph.
    pub fn new() -> (r: Self)
        ensures
            r.wf(),
            r.key_seq() == Seq::<u64>::empty(),
    {
        AdjacencyVecGraph { node_ids: Vec::new(), node_vals: Vec::new(), node_adjs: Vec::new() }
    }

    /// An empty graph with storage reserved for `capacity` nodes.
    pub fn with_capacity(capacity: usize) -> (r: Self)
        ensures
            r.wf(),
            r.key_seq() == Seq::<u64>::empty(),
    {
        AdjacencyVecGraph {
            node_ids: Vec::with_capacity(capacity),
            node_vals: Vec::with_capacity(capacity),
            node_adjs: Vec::with_capacity(capacity),
        }
    }

    /// The storage position of `node_id`, if it is registered.
    fn find_index(&self, node_id: u64) -> (r: Option<usize>)
        ensures
            match r {
                Some(i) => i < self.node_ids@.len() && self.node_ids@[i as int] == node_id,
                None => !self.spec_contains_node(node_id),
            },
    {
        let mut i: usize = 0;
        while i < self.node_ids.len()
            invariant
                i <= self.node_ids@.len(),
                forall|j: int| 0 <= j < i ==> self.node_ids@[j] != node_id,
            decreases self.node_ids@.len() - i,
        {
            if self.node_ids[i] == node_id {
                return Some(i);
            }
            i = i + 1;
        }
        None
    }

    /// Whether `node_id` is registered.
    pub fn contains_node(&self, node_id: u64) -> (r: bool)
        ensures
            r == self.spec_contains_node(node_id),
    {
        self.find_index(node_id).is_some()
    }

    /// How many nodes are registered.
    pub fn node_count(&self) -> (r: usize)
        ensures
            r == self.key_seq().len(),
    {
        self.node_ids.len()
    }

    /// Whether no node is registered.
    pub fn is_empty(&self) -> (r: bool)
        ensures
            r == (self.key_seq().len() == 0),
    {
        self.node_ids.len() == 0
    }

    /// Inserts or replaces the node `node_id`: its payload becomes
    /// `node_info` and its outgoing edges are reset to none.
    pub fn add_node(&mut self, node_id: u64, node_info: V)
        requires
            old(self).wf(),
        ensures
            final(self).wf(),
            final(self).spec_contains_node(node_id),
            final(self).spec_value(node_id) == node_info,
            final(self).succ_seq(node_id) == Seq::<u64>::empty(),
            final(self).key_seq() == (if old(self).spec_contains_node(node_id) {
                old(self).key_seq()
            } else {
                old(self).key_seq().push(node_id)
            }),
            forall|k: u64|
                k != node_id ==> #[trigger] final(self).spec_contains_node(k) == old(self).spec_contains_node(k),
            forall|k: u64|
                k != node_id && old(self).spec_contains_node(k) ==> #[trigger] final(self).spec_value(k) == old(self).spec_value(k),
            forall|k: u64|
                k != node_id ==> #[trigger] final(self).succ_seq(k) == old(self).succ_seq(k),
            forall|t: u64| !final(self).spec_edge(node_id, t),
    {
        self.add_node_with_adjacent_capacity(node_id, node_info, 0);
    }

    /// Like [`Self::add_node`], but reserves storage for `capacity`
    /// successors of the fresh node.
    pub fn add_node_with_adjacent_capacity(&mut self, node_id: u64, node_info: V, capacity: usize)
        requires
            old(self).wf(),
        ensures
            final(self).wf(),
            final(self).spec_contains_node(node_id),
            final(self).spec_value(node_id) == node_info,
            final(self).succ_seq(node_id) == Seq::<u64>::empty(),
            final(self).key_seq() == (if old(self).spec_contains_node(node_id) {
                old(self).key_seq()
            } else {
                old(self).key_seq().push(node_id)
            }),
            forall|k: u64|
                k != node_id ==> #[trigger] final(self).spec_contains_node(k) == old(self).spec_contains_node(k),
            forall|k: u64|
                k != node_id && old(self).spec_contains_node(k) ==> #[trigger] final(self).spec_value(k) == old(self).spec_value(k),
            forall|k: u64|
                k != node_id ==> #[trigger] final(self).succ_seq(k) == old(self).succ_seq(k),
            forall|t: u64| !final(self).spec_edge(node_id, t),
    {
        proof {
            if old(self).spec_contains_node(node_id) {
                old(self).lemma_idx(node_id);
            }
        }
        match self.find_index(node_id) {
            Some(i) => {
                self.node_vals[i] = node_info;
                self.node_adjs[i] = Vec::with_capacity(capacity);
                proof {
                    self.lemma_idx(node_id);
                    assert forall|k: u64| k != node_id && old(self).spec_contains_node(k) implies
                        #[trigger] self.spec_value(k) == old(self).spec_value(k) by {
                        old(self).lemma_idx(k);
                        self.lemma_idx(k);
                    }
                    assert forall|k: u64| k != node_id implies #[trigger] self.succ_seq(k) == old(self).succ_seq(k) by {
                        if old(self).spec_contains_node(k) {
                            old(self).lemma_idx(k);
                            self.lemma_idx(k);
                        }
                    }
                }
            },
            None => {
                self.node_ids.push(node_id);
                self.node_vals.push(node_info);
                self.node_adjs.push(Vec::with_capacity(capacity));
                proof {
                    assert(self.node_ids@[self.node_ids@.len() - 1] == node_id);
                    assert(self.node_ids@.no_duplicates());
                    self.lemma_idx(node_id);
                    assert forall|k: u64| k != node_id implies #[trigger] self.spec_contains_node(
                        k,
                    ) == old(self).spec_contains_node(k) by {
                        if old(self).spec_contains_node(k) {
                            let j = choose|j: int|
                                0 <= j < old(self).node_ids@.len() && old(self).node_ids@[j] == k;
                            assert(self.node_ids@[j] == k);
                        }
                        if self.spec_contains_node(k) {
                            let j = choose|j: int|
                                0 <= j < self.node_ids@.len() && self.node_ids@[j] == k;
                            assert(j < old(self).node_ids@.len());
                            assert(old(self).node_ids@[j] == k);
                        }
                    }
                    assert forall|k: u64| k != node_id && old(self).spec_contains_node(k) implies
                        #[trigger] self.spec_value(k) == old(self).spec_value(k) by {
                        old(self).lemma_idx(k);
                        self.lemma_idx(k);
                    }
                    assert forall|k: u64| k != node_id implies #[trigger] self.succ_seq(k) == old(self).succ_seq(k) by {
                        if old(self).spec_contains_node(k) {
                            old(self).lemma_idx(k);
                            self.lemma_idx(k);
                        }
                    }
                }
            },
        }
    }

    /// Whether the directed edge `from -> to` is stored.
    pub fn is_adjacent_to(&self, from: u64, to: u64) -> (r: bool)
        requires
            self.wf(),
        ensures
            r == self.spec_edge(from, to),
    {
        match self.find_index(from) {
            Some(i) => {
                proof {
                    self.lemma_idx(from);
                }
                vec_contains_key(&self.node_adjs[i], to)
            },
            None => false,
        }
    }

    /// Whether the directed edge `from -> to` is stored.
    pub fn contains_edge(&self, from: u64, to: u64) -> (r: bool)
        requires
            self.wf(),
        ensures
            r == self.spec_edge(from, to),
    {
        self.is_adjacent_to(from, to)
    }

    /// The payload of `node_id`, or absent when the key is unregistered.
    pub fn get(&self, node_id: u64) -> (r: Option<&V>)
        requires
            self.wf(),
        ensures
            match r {
                Some(v) => self.spec_contains_node(node_id) && *v == self.spec_value(node_id),
                None => !self.spec_contains_node(node_id),
            },
    {
        match self.find_index(node_id) {
            Some(i) => {
                proof {
                    self.lemma_idx(node_id);
                }
                Some(&self.node_vals[i])
            },
            None => None,
        }
    }

    /// A mutable borrow of the payload of `node_id`, or absent when the key
    /// is unregistered.
    pub fn get_mut(&mut self, node_id: u64) -> (r: Option<&mut V>)
        requires
            old(self).wf(),
        ensures
            match r {
                Some(v) => old(self).spec_contains_node(node_id) && *v == old(self).spec_value(
                    node_id,
                ) && final(self).node_ids == old(self).node_ids && final(self).node_adjs == old(
                    self,
                ).node_adjs && final(self).node_vals@ == old(self).node_vals@.update(
                    old(self).idx_of(node_id),
                    *final(v),
                ),
                None => !old(self).spec_contains_node(node_id) && *final(self) == *old(self),
            },
            final(self).wf(),
    {
        let idx = self.find_index(node_id);
        match idx {
            Some(i) => {
                proof {
                    old(self).lemma_idx(node_id);
                }
                Some(&mut self.node_vals[i])
            },
            None => None,
        }
    }

    /// Inserts `to` into `from`'s successor set.  A self-loop request or a
    /// request whose source is unregistered is a no-op.
    pub fn add_directed_edge(&mut self, from: u64, to: u64)
        requires
            old(self).wf(),
        ensures
            final(self).wf(),
            final(self).key_seq() == old(self).key_seq(),
            forall|k: u64|
                old(self).spec_contains_node(k) ==> #[trigger] final(self).spec_value(k) == old(self).spec_value(k),
            (from == to || !old(self).spec_contains_node(from)) ==> *final(self) == *old(self),
            from == to ==> final(self).spec_edge_count() == old(self).spec_edge_count(),
            (from != to && old(self).spec_contains_node(from)) ==> final(self).spec_edge(
                from,
                to,
            ),
            (from != to && old(self).spec_contains_node(from)) ==> final(self).succ_seq(from)
                == (if old(self).spec_edge(from, to) {
                old(self).succ_seq(from)
            } else {
                old(self).succ_seq(from).push(to)
            }),
            forall|k: u64|
                k != from ==> #[trigger] final(self).succ_seq(k) == old(self).succ_seq(k),
    {
        if from == to {
            return ;
        }
        match self.find_index(from) {
            Some(i) => {
                proof {
                    self.lemma_idx(from);
                }
                if !vec_contains_key(&self.node_adjs[i], to) {
                    let ghost prev = *self;
                    self.node_adjs[i].push(to);
                    proof {
                        self.lemma_idx(from);
                        assert(self.node_adjs@[i as int]@ == prev.node_adjs@[i as int]@.push(to));
                        assert(self.node_adjs@[i as int]@.no_duplicates());
                        assert(self.succ_seq(from).last() == to);
                        assert forall|k: u64| k != from implies #[trigger] self.succ_seq(k) == old(self).succ_seq(k) by {
                            if old(self).spec_contains_node(k) {
                                old(self).lemma_idx(k);
                                self.lemma_idx(k);
                            }
                        }
                    }
                }
            },
            None => {},
        }
    }

    /// Inserts the edge in both directions.  Each direction follows the
    /// directed-edge policy: self-loops and unregistered sources are no-ops.
    pub fn add_undirected_edge(&mut self, from: u64, to: u64)
        requires
            old(self).wf(),
        ensures
            final(self).wf(),
            final(self).key_seq() == old(self).key_seq(),
            forall|k: u64|
                old(self).spec_contains_node(k) ==> #[trigger] final(self).spec_value(k) == old(self).spec_value(k),
            from == to ==> *final(self) == *old(self),
            from == to ==> final(self).spec_edge_count() == old(self).spec_edge_count(),
            forall|k: u64|
                k != from && k != to ==> #[trigger] final(self).succ_seq(k) == old(self).succ_seq(k),
            (from != to && old(self).spec_contains_node(from)) ==> final(self).succ_seq(from)
                == (if old(self).spec_edge(from, to) {
                old(self).succ_seq(from)
            } else {
                old(self).succ_seq(from).push(to)
            }),
            (from != to && old(self).spec_contains_node(from)) ==> final(self).spec_edge(
                from,
                to,
            ),
            (from != to && old(self).spec_contains_node(to)) ==> final(self).spec_edge(to, from),
            (from != to && !old(self).spec_contains_node(from)) ==> final(self).succ_seq(from)
                == old(self).succ_seq(from),
            (from != to && old(self).spec_contains_node(to)) ==> final(self).succ_seq(to) == (
            if old(self).spec_edge(to, from) {
                old(self).succ_seq(to)
            } else {
                old(self).succ_seq(to).push(from)
            }),
            (from != to && !old(self).spec_contains_node(to)) ==> final(self).succ_seq(to) == old(self).succ_seq(to),
    {
        self.add_directed_edge(from, to);
        self.add_directed_edge(to, from);
    }

    /// Removes `to` from `from`'s successor set if present; a no-op
    /// otherwise.
    pub fn remove_directed_edge(&mut self, from: u64, to: u64)
        requires
            old(self).wf(),
        ensures
            final(self).wf(),
            final(self).key_seq() == old(self).key_seq(),
            forall|k: u64|
                old(self).spec_contains_node(k) ==> #[trigger] final(self).spec_value(k) == old(self).spec_value(k),
            old(self).spec_contains_node(from) ==> final(self).succ_seq(from) == old(self).succ_seq(from).filter(|e: u64| e != to),
            !old(self).spec_contains_node(from) ==> *final(self) == *old(self),
            forall|k: u64|
                k != from ==> #[trigger] final(self).succ_seq(k) == old(self).succ_seq(k),
            !final(self).spec_edge(from, to),
    {
        broadcast use vstd::seq_lib::group_filter_ensures;

        match self.find_index(from) {
            Some(i) => {
                proof {
                    self.lemma_idx(from);
                }
                let nl = vec_without(&self.node_adjs[i], to);
                self.node_adjs[i] = nl;
                proof {
                    assert forall|j: int| 0 <= j < self.node_ids@.len() implies !(
                    #[trigger] self.node_adjs@[j])@.contains(self.node_ids@[j]) by {
                        if j == i as int && self.node_adjs@[j]@.contains(self.node_ids@[j]) {
                            old(self).node_adjs@[j]@.lemma_filter_contains_rev(
                                |e: u64| e != to,
                                self.node_ids@[j],
                            );
                            assert(false);
                        }
                    }
                    assert(self.wf());
                    self.lemma_idx(from);
                    assert forall|k: u64| k != from implies #[trigger] self.succ_seq(k) == old(self).succ_seq(k) by {
                        if old(self).spec_contains_node(k) {
                            old(self).lemma_idx(k);
                            self.lemma_idx(k);
                        }
                    }
                    assert(!self.succ_seq(from).contains(to));
                }
            },
            None => {},
        }
    }

    /// Removes the edge in both directions, each side if present.
    pub fn remove_undirected_edge(&mut self, from: u64, to: u64)
        requires
            old(self).wf(),
        ensures
            final(self).wf(),
            final(self).key_seq() == old(self).key_seq(),
            forall|k: u64|
                old(self).spec_contains_node(k) ==> #[trigger] final(self).spec_value(k) == old(self).spec_value(k),
            old(self).spec_contains_node(from) ==> final(self).succ_seq(from) == old(self).succ_seq(from).filter(|e: u64| e != to),
            old(self).spec_contains_node(to) ==> final(self).succ_seq(to) == old(self).succ_seq(
                to,
            ).filter(|e: u64| e != from),
            forall|k: u64|
                k != from && k != to ==> #[trigger] final(self).succ_seq(k) == old(self).succ_seq(k),
            !final(self).spec_edge(from, to),
            !final(self).spec_edge(to, from),
    {
        broadcast use vstd::seq_lib::group_filter_ensures;

        let ghost mid = *self;
        self.remove_directed_edge(from, to);
        let ghost half = *self;
        self.remove_directed_edge(to, from);
        proof {
            if from == to && old(self).spec_contains_node(from) {
                lemma_filter_all(half.succ_seq(from), |e: u64| e != to);
            }
        }
    }

    /// Removes the node `node_id`, purges it from every successor set, and
    /// returns its prior payload, or absent when it was unregistered.
    pub fn remove_node(&mut self, node_id: u64) -> (r: Option<V>)
        requires
            old(self).wf(),
        ensures
            final(self).wf(),
            !final(self).spec_contains_node(node_id),
            final(self).key_seq() == old(self).key_seq().remove_value(node_id),
            forall|k: u64|
                k != node_id ==> #[trigger] final(self).spec_contains_node(k) == old(self).spec_contains_node(k),
            forall|k: u64|
                k != node_id && old(self).spec_contains_node(k) ==> #[trigger] final(self).spec_value(k) == old(self).spec_value(k),
            forall|k: u64|
                k != node_id ==> #[trigger] final(self).succ_seq(k) == old(self).succ_seq(
                    k,
                ).filter(|e: u64| e != node_id),
            forall|j: u64| !final(self).spec_edge(j, node_id),
            r == (if old(self).spec_contains_node(node_id) {
                Some(old(self).spec_value(node_id))
            } else {
                None::<V>
            }),
    {
        broadcast use vstd::seq_lib::group_filter_ensures;

        let mut i: usize = 0;
        while i < self.node_adjs.len()
            invariant
                old(self).wf(),
                self.node_ids == old(self).node_ids,
                self.node_vals == old(self).node_vals,
                self.node_adjs@.len() == old(self).node_adjs@.len(),
                i <= self.node_adjs@.len(),
                forall|j: int|
                    0 <= j < i ==> (#[trigger] self.node_adjs@[j])@ == old(self).node_adjs@[j]@.filter(|e: u64| e != node_id),
                forall|j: int|
                    0 <= j < i ==> (#[trigger] self.node_adjs@[j])@.no_duplicates(),
                forall|j: int|
                    i <= j < self.node_adjs@.len() ==> #[trigger] self.node_adjs@[j] == old(self).node_adjs@[j],
            decreases self.node_adjs@.len() - i,
        {
            let nl = vec_without(&self.node_adjs[i], node_id);
            self.node_adjs[i] = nl;
            i = i + 1;
        }
        let ghost mid = *self;
        let r = match self.find_index(node_id) {
            Some(i) => {
                proof {
                    old(self).lemma_idx(node_id);
                }
                self.node_ids.remove(i);
                let v = self.node_vals.remove(i);
                self.node_adjs.remove(i);
                Some(v)
            },
            None => None,
        };
        proof {
            let oldg = *old(self);
            if oldg.spec_contains_node(node_id) {
                oldg.lemma_idx(node_id);
                let i = oldg.idx_of(node_id);
                // the storage position really was the first occurrence
                oldg.node_ids@.index_of_first_ensures(node_id);
                assert(oldg.node_ids@.remove_value(node_id) == oldg.node_ids@.remove(i));
                oldg.node_ids@.remove_ensures(i);
                mid.node_adjs@.remove_ensures(i);
                oldg.node_vals@.remove_ensures(i);
                // unique keys survive the removal
                assert(self.node_ids@.no_duplicates());
                assert forall|m: int| 0 <= m < self.node_ids@.len() implies (
                #[trigger] self.node_adjs@[m])@.no_duplicates() && !self.node_adjs@[m]@.contains(
                    self.node_ids@[m],
                ) by {
                    let j: int = if m < i { m } else { m + 1 };
                    assert(self.node_adjs@[m] == mid.node_adjs@[j]);
                    assert(self.node_ids@[m] == oldg.node_ids@[j]);
                    assert(mid.node_adjs@[j]@ == oldg.node_adjs@[j]@.filter(
                        |e: u64| e != node_id,
                    ));
                    if self.node_adjs@[m]@.contains(self.node_ids@[m]) {
                        oldg.node_adjs@[j]@.lemma_filter_contains_rev(
                            |e: u64| e != node_id,
                            self.node_ids@[m],
                        );
                        assert(false);
                    }
                }
                assert(self.wf());
                assert forall|k: u64| k != node_id implies #[trigger] self.spec_contains_node(k)
                    == oldg.spec_contains_node(k) by {
                    if oldg.spec_contains_node(k) {
                        oldg.lemma_idx(k);
                        let j = oldg.idx_of(k);
                        if j < i {
                            assert(self.node_ids@[j] == k);
                        } else {
                            assert(self.node_ids@[j - 1] == k);
                        }
                    }
                    if self.spec_contains_node(k) {
                        let m = choose|m: int|
                            0 <= m < self.node_ids@.len() && self.node_ids@[m] == k;
                        if m < i {
                            assert(oldg.node_ids@[m] == k);
                        } else {
                            assert(oldg.node_ids@[m + 1] == k);
                        }
                    }
                }
                assert forall|k: u64| k != node_id && oldg.spec_contains_node(k) implies
                    #[trigger] self.spec_value(k) == oldg.spec_value(k) by {
                    oldg.lemma_idx(k);
                    self.lemma_idx(k);
                    let j = oldg.idx_of(k);
                    let m = self.idx_of(k);
                    if j < i {
                        assert(self.node_ids@[j] == k);
                    } else {
                        assert(self.node_ids@[j - 1] == k);
                    }
                }
                assert forall|k: u64| k != node_id implies #[trigger] self.succ_seq(k)
                    == oldg.succ_seq(k).filter(|e: u64| e != node_id) by {
                    if oldg.spec_contains_node(k) {
                        oldg.lemma_idx(k);
                        self.lemma_idx(k);
                        let j = oldg.idx_of(k);
                        if j < i {
                            assert(self.node_ids@[j] == k);
                        } else {
                            assert(self.node_ids@[j - 1] == k);
                        }
                        assert(self.succ_seq(k) == mid.node_adjs@[j]@);
                    } else {
                        assert(oldg.succ_seq(k).filter(|e: u64| e != node_id)
                            =~= Seq::<u64>::empty());
                    }
                }
            } else {
                assert(oldg.node_ids@.index_of_first(node_id) is None) by {
                    oldg.node_ids@.index_of_first_ensures(node_id);
                }
                assert(self.node_ids@ == oldg.node_ids@.remove_value(node_id));
                assert forall|m: int| 0 <= m < self.node_ids@.len() implies !(
                #[trigger] self.node_adjs@[m])@.contains(self.node_ids@[m]) by {
                    assert(self.node_adjs@[m]@ == oldg.node_adjs@[m]@.filter(
                        |e: u64| e != node_id,
                    ));
                    if self.node_adjs@[m]@.contains(self.node_ids@[m]) {
                        oldg.node_adjs@[m]@.lemma_filter_contains_rev(
                            |e: u64| e != node_id,
                            self.node_ids@[m],
                        );
                        assert(false);
                    }
                }
                assert(self.wf());
                assert forall|k: u64| k != node_id implies #[trigger] self.succ_seq(k)
                    == oldg.succ_seq(k).filter(|e: u64| e != node_id) by {
                    if oldg.spec_contains_node(k) {
                        oldg.lemma_idx(k);
                    } else {
                        assert(oldg.succ_seq(k).filter(|e: u64| e != node_id)
                            =~= Seq::<u64>::empty());
                    }
                }
            }
            assert forall|j: u64| !(#[trigger] self.spec_edge(j, node_id)) by {
                if self.spec_contains_node(j) && j != node_id {
                    assert(self.succ_seq(j) == oldg.succ_seq(j).filter(|e: u64| e != node_id));
                }
            }
        }
        r
    }

    /// Removes every node and every edge.
    pub fn clear(&mut self)
        ensures
            final(self).wf(),
            final(self).key_seq() == Seq::<u64>::empty(),
    {
        self.node_ids.clear();
        self.node_vals.clear();
        self.node_adjs.clear();
    }

    /// The total length of a sequence of successor lists.
    pub open spec fn adj_total(s: Seq<Seq<u64>>) -> int
        decreases s.len(),
    {
        if s.len() == 0 {
            0
        } else {
            Self::adj_total(s.drop_last()) + s.last().len()
        }
    }

    /// The stored edge count: the sum of all successor-set sizes, dangling
    /// edges included.
    pub open spec fn spec_edge_count(&self) -> int {
        Self::adj_total(self.node_adjs@.map_values(|l: Vec<u64>| l@))
    }

    /// The total length of a sequence of lists is never negative.
    proof fn lemma_adj_total_nonneg(s: Seq<Seq<u64>>)
        ensures
            0 <= Self::adj_total(s),
        decreases s.len(),
    {
        if s.len() > 0 {
            Self::lemma_adj_total_nonneg(s.drop_last());
        }
    }

    /// The total length splits at any prefix boundary.
    proof fn lemma_adj_total_split(s: Seq<Seq<u64>>, i: int)
        requires
            0 <= i <= s.len(),
        ensures
            Self::adj_total(s) == Self::adj_total(s.take(i)) + Self::adj_total(s.skip(i)),
        decreases s.len() - i,
    {
        if i == s.len() {
            assert(s.take(i) =~= s);
            assert(s.skip(i) =~= Seq::<Seq<u64>>::empty());
        } else {
            Self::lemma_adj_total_split(s.drop_last(), i);
            assert(s.drop_last().take(i) =~= s.take(i));
            assert(s.skip(i).drop_last() =~= s.drop_last().skip(i));
            assert(s.skip(i).len() > 0 && s.skip(i).last() == s.last());
        }
    }

    /// Appending one more list adds its length to the total.
    proof fn lemma_adj_total_step(s: Seq<Seq<u64>>, i: int)
        requires
            0 <= i < s.len(),
        ensures
            Self::adj_total(s.take(i + 1)) == Self::adj_total(s.take(i)) + s[i].len(),
    {
        assert(s.take(i + 1).drop_last() =~= s.take(i));
        assert(s.take(i + 1).last() == s[i]);
    }

    /// The sum of all successor-set sizes.  The count must fit the machine
    /// word, which every graph a process can hold satisfies.
    pub fn edge_count(&self) -> (r: usize)
        requires
            self.wf(),
            self.spec_edge_count() <= usize::MAX,
        ensures
            r == self.spec_edge_count(),
    {
        let ghost mapped = self.node_adjs@.map_values(|l: Vec<u64>| l@);
        let mut total: usize = 0;
        let mut i: usize = 0;
        while i < self.node_adjs.len()
            invariant
                i <= self.node_adjs@.len(),
                mapped == self.node_adjs@.map_values(|l: Vec<u64>| l@),
                total == Self::adj_total(mapped.take(i as int)),
                Self::adj_total(mapped) <= usize::MAX,
            decreases self.node_adjs@.len() - i,
        {
            proof {
                Self::lemma_adj_total_step(mapped, i as int);
                Self::lemma_adj_total_split(mapped, i + 1);
                Self::lemma_adj_total_nonneg(mapped.skip(i + 1));
            }
            total = total + self.node_adjs[i].len();
            i = i + 1;
        }
        proof {
            assert(mapped.take(mapped.len() as int) =~= mapped);
        }
        total
    }

    /// The payload and successor list stored at position `m` belong to the
    /// key stored at position `m`.
    pub proof fn lemma_val_at(&self, m: int)
        requires
            self.wf(),
            0 <= m < self.key_seq().len(),
        ensures
            self.spec_contains_node(self.key_seq()[m]),
            self.idx_of(self.key_seq()[m]) == m,
            self.spec_value(self.key_seq()[m]) == self.node_vals@[m],
            self.succ_seq(self.key_seq()[m]) == self.node_adjs@[m]@,
    {
        assert(self.node_ids@[m] == self.key_seq()[m]);
        self.lemma_idx(self.key_seq()[m]);
    }

    /// The payloads, in storage order.
    pub fn values(&self) -> (r: &Vec<V>)
        requires
            self.wf(),
        ensures
            r@.len() == self.key_seq().len(),
            forall|m: int|
                0 <= m < r@.len() ==> #[trigger] r@[m] == self.spec_value(self.key_seq()[m]),
    {
        proof {
            assert forall|m: int| 0 <= m < self.node_vals@.len() implies #[trigger] self.node_vals@[m]
                == self.spec_value(self.key_seq()[m]) by {
                self.lemma_val_at(m);
            }
        }
        &self.node_vals
    }

    /// The payloads, in storage order, consuming the graph.
    pub fn into_values(self) -> (r: Vec<V>)
        requires
            self.wf(),
        ensures
            r@.len() == self.key_seq().len(),
            forall|m: int|
                0 <= m < r@.len() ==> #[trigger] r@[m] == self.spec_value(self.key_seq()[m]),
    {
        proof {
            assert forall|m: int| 0 <= m < self.node_vals@.len() implies #[trigger] self.node_vals@[m]
                == self.spec_value(self.key_seq()[m]) by {
                self.lemma_val_at(m);
            }
        }
        self.node_vals
    }

    /// The key and a borrow of the payload of every node, in storage order.
    pub fn iter(&self) -> (r: Vec<(u64, &V)>)
        requires
            self.wf(),
        ensures
            r@.len() == self.key_seq().len(),
            forall|m: int|
                0 <= m < r@.len() ==> (#[trigger] r@[m]).0 == self.key_seq()[m] && *r@[m].1
                    == self.spec_value(self.key_seq()[m]),
    {
        let mut r: Vec<(u64, &V)> = Vec::new();
        let mut i: usize = 0;
        while i < self.node_ids.len()
            invariant
                self.wf(),
                i <= self.node_ids@.len(),
                r@.len() == i,
                forall|m: int|
                    0 <= m < i ==> (#[trigger] r@[m]).0 == self.key_seq()[m] && *r@[m].1
                        == self.spec_value(self.key_seq()[m]),
            decreases self.node_ids@.len() - i,
        {
            proof {
                self.lemma_val_at(i as int);
            }
            r.push((self.node_ids[i], &self.node_vals[i]));
            i = i + 1;
        }
        r
    }

    /// Removes every node and hands back each key with its payload, in
    /// storage order.
    pub fn drain(&mut self) -> (r: Vec<(u64, V)>)
        requires
            old(self).wf(),
        ensures
            final(self).wf(),
            final(self).key_seq() == Seq::<u64>::empty(),
            r@.len() == old(self).key_seq().len(),
            forall|m: int|
                0 <= m < r@.len() ==> #[trigger] r@[m] == (
                    old(self).key_seq()[m],
                    old(self).spec_value(old(self).key_seq()[m]),
                ),
    {
        proof {
            assert forall|m: int| 0 <= m < old(self).node_vals@.len() implies #[trigger] old(
                self,
            ).node_vals@[m] == old(self).spec_value(old(self).key_seq()[m]) by {
                old(self).lemma_val_at(m);
            }
        }
        let mut r: Vec<(u64, V)> = Vec::new();
        proof {
            assert(old(self).node_ids@.skip(0) =~= old(self).node_ids@);
            assert(old(self).node_vals@.skip(0) =~= old(self).node_vals@);
        }
        while self.node_ids.len() > 0
            invariant
                old(self).wf(),
                r@.len() + self.node_ids@.len() == old(self).node_ids@.len(),
                self.node_vals@.len() == self.node_ids@.len(),
                self.node_adjs@.len() == self.node_ids@.len(),
                self.node_ids@ == old(self).node_ids@.skip(r@.len() as int),
                self.node_vals@ == old(self).node_vals@.skip(r@.len() as int),
                forall|m: int|
                    0 <= m < r@.len() ==> #[trigger] r@[m] == (
                        old(self).node_ids@[m],
                        old(self).node_vals@[m],
                    ),
            decreases self.node_ids@.len(),
        {
            let ghost k = r@.len() as int;
            let ghost pids = self.node_ids@;
            let ghost pvals = self.node_vals@;
            let id = self.node_ids.remove(0);
            let v = self.node_vals.remove(0);
            self.node_adjs.remove(0);
            r.push((id, v));
            proof {
                assert(id == old(self).node_ids@[k]);
                assert(v == old(self).node_vals@[k]);
                assert(self.node_ids@ == pids.remove(0));
                assert(pids.remove(0) =~= old(self).node_ids@.skip(k + 1));
                assert(pvals.remove(0) =~= old(self).node_vals@.skip(k + 1));
            }
        }
        proof {
            assert(self.node_ids@ =~= Seq::<u64>::empty());
        }
        r
    }

    /// Every stored directed edge as a `(from, to)` pair, grouped by source
    /// node in storage order; dangling destinations included.
    pub fn edges(&self) -> (r: Vec<(u64, u64)>)
        requires
            self.wf(),
        ensures
            r@.len() == self.spec_edge_count(),
            r@.no_duplicates(),
            forall|m: int|
                0 <= m < r@.len() ==> self.spec_edge((#[trigger] r@[m]).0, r@[m].1),
            forall|f: u64, t: u64| self.spec_edge(f, t) ==> r@.contains((f, t)),
    {
        broadcast use vstd::seq_lib::group_seq_properties;

        let ghost mapped = self.node_adjs@.map_values(|l: Vec<u64>| l@);
        let mut r: Vec<(u64, u64)> = Vec::new();
        let mut i: usize = 0;
        while i < self.node_ids.len()
            invariant
                self.wf(),
                i <= self.node_ids@.len(),
                mapped == self.node_adjs@.map_values(|l: Vec<u64>| l@),
                r@.len() == Self::adj_total(mapped.take(i as int)),
                r@.no_duplicates(),
                forall|m: int|
                    0 <= m < r@.len() ==> exists|ii: int|
                        0 <= ii < i && (#[trigger] r@[m]).0 == self.node_ids@[ii]
                            && self.node_adjs@[ii]@.contains(r@[m].1),
                forall|ii: int, jj: int|
                    0 <= ii < i && 0 <= jj < self.node_adjs@[ii]@.len() ==> r@.contains(
                        (self.node_ids@[ii], #[trigger] self.node_adjs@[ii]@[jj]),
                    ),
            decreases self.node_ids@.len() - i,
        {
            let mut j: usize = 0;
            while j < self.node_adjs[i].len()
                invariant
                    self.wf(),
                    i < self.node_ids@.len(),
                    j <= self.node_adjs@[i as int]@.len(),
                    mapped == self.node_adjs@.map_values(|l: Vec<u64>| l@),
                    r@.len() == Self::adj_total(mapped.take(i as int)) + j,
                    r@.no_duplicates(),
                    forall|m: int|
                        0 <= m < r@.len() ==> exists|ii: int|
                            0 <= ii <= i && (#[trigger] r@[m]).0 == self.node_ids@[ii]
                                && self.node_adjs@[ii]@.contains(r@[m].1),
                    forall|m: int|
                        0 <= m < r@.len() && (#[trigger] r@[m]).0 == self.node_ids@[i as int]
                            ==> self.node_adjs@[i as int]@.take(j as int).contains(r@[m].1),
                    forall|ii: int, jj: int|
                        0 <= ii < i && 0 <= jj < self.node_adjs@[ii]@.len() ==> r@.contains(
                            (self.node_ids@[ii], #[trigger] self.node_adjs@[ii]@[jj]),
                        ),
                    forall|jj: int|
                        0 <= jj < j ==> r@.contains(
                            (self.node_ids@[i as int], #[trigger] self.node_adjs@[i as int]@[jj]),
                        ),
                decreases self.node_adjs@[i as int]@.len() - j,
            {
                let ghost r0 = r@;
                let ghost j0 = j as int;
                let e = (self.node_ids[i], self.node_adjs[i][j]);
                proof {
                    let al = self.node_adjs@[i as int]@;
                    if r@.contains(e) {
                        let m = choose|m: int| 0 <= m < r@.len() && r@[m] == e;
                        let ii = choose|ii: int|
                            0 <= ii <= i && r@[m].0 == self.node_ids@[ii]
                                && self.node_adjs@[ii]@.contains(r@[m].1);
                        if ii < i {
                            assert(self.node_ids@[ii] == self.node_ids@[i as int]);
                            assert(false);
                        } else {
                            assert(al.take(j as int).contains(al[j as int]));
                            let jj = choose|jj: int|
                                0 <= jj < j && al.take(j as int)[jj] == al[j as int];
                            assert(al[jj] == al[j as int]);
                            assert(false);
                        }
                    }
                    assert(al.take(j as int + 1) =~= al.take(j as int).push(al[j as int]));
                }
                r.push(e);
                j = j + 1;
                proof {
                    let al = self.node_adjs@[i as int]@;
                    assert forall|m: int|
                        0 <= m < r@.len() && (#[trigger] r@[m]).0 == self.node_ids@[i as int]
                        implies al.take(j as int).contains(r@[m].1) by {
                        if m < r0.len() {
                            assert(r@[m] == r0[m]);
                            let jj = choose|jj: int|
                                0 <= jj < j0 && al.take(j0)[jj] == r0[m].1;
                            assert(al.take(j as int)[jj] == r@[m].1);
                        } else {
                            assert(r@[m] == e);
                            assert(al.take(j as int)[j0] == al[j0]);
                        }
                    }
                    assert forall|ii: int, jj: int|
                        0 <= ii < i && 0 <= jj < self.node_adjs@[ii]@.len() implies r@.contains(
                        (self.node_ids@[ii], #[trigger] self.node_adjs@[ii]@[jj]),
                    ) by {
                        let p = (self.node_ids@[ii], self.node_adjs@[ii]@[jj]);
                        assert(r0.contains(p));
                        let m = choose|m: int| 0 <= m < r0.len() && r0[m] == p;
                        assert(r@[m] == p);
                    }
                    assert forall|jj: int| 0 <= jj < j implies r@.contains(
                        (self.node_ids@[i as int], #[trigger] self.node_adjs@[i as int]@[jj]),
                    ) by {
                        let p = (self.node_ids@[i as int], self.node_adjs@[i as int]@[jj]);
                        if jj < j0 {
                            assert(r0.contains(p));
                            let m = choose|m: int| 0 <= m < r0.len() && r0[m] == p;
                            assert(r@[m] == p);
                        } else {
                            assert(r@[r@.len() - 1] == p);
                        }
                    }
                }
            }
            proof {
                Self::lemma_adj_total_step(mapped, i as int);
                assert forall|m: int|
                    0 <= m < r@.len() && (#[trigger] r@[m]).0 == self.node_ids@[i as int] implies
                    self.node_adjs@[i as int]@.contains(r@[m].1) by {
                    let al = self.node_adjs@[i as int]@;
                    assert(al.take(al.len() as int) =~= al);
                }
            }
            i = i + 1;
        }
        proof {
            assert(mapped.take(mapped.len() as int) =~= mapped);
            assert forall|m: int| 0 <= m < r@.len() implies self.spec_edge(
                (#[trigger] r@[m]).0,
                r@[m].1,
            ) by {
                let ii = choose|ii: int|
                    0 <= ii < self.node_ids@.len() && r@[m].0 == self.node_ids@[ii]
                        && self.node_adjs@[ii]@.contains(r@[m].1);
                self.lemma_val_at(ii);
            }
            assert forall|f: u64, t: u64| self.spec_edge(f, t) implies r@.contains((f, t)) by {
                self.lemma_idx(f);
                let ii = self.idx_of(f);
                let jj = choose|jj: int|
                    0 <= jj < self.node_adjs@[ii]@.len() && self.node_adjs@[ii]@[jj] == t;
                assert(r@.contains((self.node_ids@[ii], self.node_adjs@[ii]@[jj])));
            }
        }
        r
    }

    /// Maps every payload through `f`, preserving keys and edge topology
    /// exactly.
    pub fn map_values<W, F: Fn(V) -> W>(self, f: F) -> (r: AdjacencyVecGraph<W>)
        requires
            self.wf(),
            forall|m: int|
                0 <= m < self.node_vals@.len() ==> call_requires(
                    f,
                    (#[trigger] self.node_vals@[m],),
                ),
        ensures
            r.wf(),
            r.key_seq() == self.key_seq(),
            forall|k: u64| #[trigger] r.succ_seq(k) == self.succ_seq(k),
            forall|m: int|
                0 <= m < r.node_vals@.len() ==> call_ensures(
                    f,
                    (self.node_vals@[m],),
                    #[trigger] r.node_vals@[m],
                ),
    {
        let AdjacencyVecGraph { node_ids, node_vals, node_adjs } = self;
        let ghost orig = node_vals@;
        let mut rest = node_vals;
        let mut new_vals: Vec<W> = Vec::new();
        while rest.len() > 0
            invariant
                new_vals@.len() + rest@.len() == orig.len(),
                rest@ == orig.skip(new_vals@.len() as int),
                forall|m: int| 0 <= m < orig.len() ==> call_requires(f, (#[trigger] orig[m],)),
                forall|m: int|
                    0 <= m < new_vals@.len() ==> call_ensures(
                        f,
                        (orig[m],),
                        #[trigger] new_vals@[m],
                    ),
            decreases rest@.len(),
        {
            let ghost k = new_vals@.len() as int;
            let ghost prest = rest@;
            let v = rest.remove(0);
            new_vals.push(f(v));
            proof {
                assert(v == orig[k]);
                assert(prest.remove(0) =~= orig.skip(k + 1));
            }
        }
        let r = AdjacencyVecGraph { node_ids, node_vals: new_vals, node_adjs };
        proof {
            assert(orig.skip(0) =~= orig);
            assert forall|k: u64| #[trigger] r.succ_seq(k) == self.succ_seq(k) by {}
        }
        r
    }

    /// Maps every payload through `f`, which also sees the node's key;
    /// keys and edge topology are preserved exactly.
    pub fn map_values_with_key<W, F: Fn(u64, V) -> W>(self, f: F) -> (r: AdjacencyVecGraph<W>)
        requires
            self.wf(),
            forall|m: int|
                0 <= m < self.node_vals@.len() ==> call_requires(
                    f,
                    (self.node_ids@[m], #[trigger] self.node_vals@[m]),
                ),
        ensures
            r.wf(),
            r.key_seq() == self.key_seq(),
            forall|k: u64| #[trigger] r.succ_seq(k) == self.succ_seq(k),
            forall|m: int|
                0 <= m < r.node_vals@.len() ==> call_ensures(
                    f,
                    (self.node_ids@[m], self.node_vals@[m]),
                    #[trigger] r.node_vals@[m],
                ),
    {
        let AdjacencyVecGraph { node_ids, node_vals, node_adjs } = self;
        let ghost orig = node_vals@;
        let mut rest = node_vals;
        let mut new_vals: Vec<W> = Vec::new();
        while new_vals.len() < node_ids.len()
            invariant
                node_ids@ == self.node_ids@,
                new_vals@.len() + rest@.len() == orig.len(),
                orig.len() == node_ids@.len(),
                rest@ == orig.skip(new_vals@.len() as int),
                forall|m: int|
                    0 <= m < orig.len() ==> call_requires(
                        f,
                        (node_ids@[m], #[trigger] orig[m]),
                    ),
                forall|m: int|
                    0 <= m < new_vals@.len() ==> call_ensures(
                        f,
                        (node_ids@[m], orig[m]),
                        #[trigger] new_vals@[m],
                    ),
            decreases rest@.len(),
        {
            let ghost k = new_vals@.len() as int;
            let ghost prest = rest@;
            let id = node_ids[new_vals.len()];
            let v = rest.remove(0);
            new_vals.push(f(id, v));
            proof {
                assert(v == orig[k]);
                assert(prest.remove(0) =~= orig.skip(k + 1));
            }
        }
        let r = AdjacencyVecGraph { node_ids, node_vals: new_vals, node_adjs };
        proof {
            assert(orig.skip(0) =~= orig);
            assert forall|k: u64| #[trigger] r.succ_seq(k) == self.succ_seq(k) by {}
        }
        r
    }

    /// Every key with its payload, in storage order, consuming the graph.
    pub fn into_iter(self) -> (r: Vec<(u64, V)>)
        requires
            self.wf(),
        ensures
            r@.len() == self.key_seq().len(),
            forall|m: int|
                0 <= m < r@.len() ==> #[trigger] r@[m] == (
                    self.key_seq()[m],
                    self.spec_value(self.key_seq()[m]),
                ),
    {
        let mut g = self;
        g.drain()
    }
}

/// A copy of `list` with every occurrence of `x` left out.
fn vec_without(list: &Vec<u64>, x: u64) -> (r: Vec<u64>)
    ensures
        r@ == list@.filter(|e: u64| e != x),
        list@.no_duplicates() ==> r@.no_duplicates(),
{
    let mut r: Vec<u64> = Vec::new();
    let mut i: usize = 0;
    while i < list.len()
        invariant
            i <= list@.len(),
            r@ == list@.take(i as int).filter(|e: u64| e != x),
        decreases list@.len() - i,
    {
        proof {
            assert(list@.take(i + 1) =~= list@.take(i as int).push(list@[i as int]));
            Seq::lemma_filter_push(list@.take(i as int), list@[i as int], |e: u64| e != x);
        }
        if list[i] != x {
            r.push(list[i]);
        }
        i = i + 1;
    }
    proof {
        assert(list@.take(list@.len() as int) =~= list@);
        if list@.no_duplicates() {
            lemma_filter_no_duplicates(list@, |e: u64| e != x);
        }
    }
    r
}

/// Whether `list` holds `x`.
pub(crate) fn vec_contains_key(list: &Vec<u64>, x: u64) -> (r: bool)
    ensures
        r == list@.contains(x),
{
    let mut i: usize = 0;
    while i < list.len()
        invariant
            i <= list@.len(),
            forall|j: int| 0 <= j < i ==> list@[j] != x,
        decreases list@.len() - i,
    {
        if list[i] == x {
            return true;
        }
        i = i + 1;
    }
    false
}

impl<V> ReferenceGraph for AdjacencyVecGraph<V> {
    /// The registered keys, in storage order.
    open spec fn spec_keys(&self) -> Seq<u64> {
        self.key_seq()
    }

    /// The stored successors of `node` that are themselves registered:
    /// edges to never-registered destinations are silently skipped.
    open spec fn spec_adjacents(&self, node: u64) -> Seq<u64> {
        self.succ_seq(node).filter(|x: u64| self.key_seq().contains(x))
    }

    open spec fn valid(&self) -> bool {
        self.wf()
    }

    proof fn valid_facts(&self) {
        broadcast use vstd::seq_lib::group_filter_ensures;

        reveal(Seq::filter);
        assert forall|n: u64| (#[trigger] self.spec_adjacents(n)).no_duplicates() by {
            if self.spec_contains_node(n) {
                self.lemma_idx(n);
                lemma_filter_no_duplicates(
                    self.succ_seq(n),
                    |x: u64| self.key_seq().contains(x),
                );
            } else {
                assert(self.succ_seq(n) == Seq::<u64>::empty());
            }
        }
        assert forall|n: u64, i: int|
            0 <= i < self.spec_adjacents(n).len() implies self.spec_keys().contains(
            #[trigger] self.spec_adjacents(n)[i],
        ) by {
            Seq::lemma_filter_pred(self.succ_seq(n), |x: u64| self.key_seq().contains(x), i);
        }
    }

    fn keys(&self) -> (r: Vec<u64>) {
        let mut r: Vec<u64> = Vec::new();
        let mut i: usize = 0;
        while i < self.node_ids.len()
            invariant
                i <= self.node_ids@.len(),
                r@ == self.node_ids@.take(i as int),
            decreases self.node_ids@.len() - i,
        {
            proof {
                assert(self.node_ids@.take(i + 1) =~= self.node_ids@.take(i as int).push(
                    self.node_ids@[i as int],
                ));
            }
            r.push(self.node_ids[i]);
            i = i + 1;
        }
        proof {
            assert(self.node_ids@.take(self.node_ids@.len() as int) =~= self.node_ids@);
        }
        r
    }

    fn adjacents(&self, node: u64) -> (r: Vec<u64>) {
        proof {
            self.lemma_idx(node);
        }
        let i = self.find_index(node).unwrap();
        let ghost pred = |x: u64| self.key_seq().contains(x);
        let list = &self.node_adjs[i];
        let mut r: Vec<u64> = Vec::new();
        let mut j: usize = 0;
        while j < list.len()
            invariant
                j <= list@.len(),
                list@ == self.succ_seq(node),
                pred == (|x: u64| self.key_seq().contains(x)),
                r@ == list@.take(j as int).filter(pred),
            decreases list@.len() - j,
        {
            proof {
                assert(list@.take(j + 1) =~= list@.take(j as int).push(list@[j as int]));
                Seq::lemma_filter_push(list@.take(j as int), list@[j as int], pred);
            }
            let a = list[j];
            if self.contains_node(a) {
                r.push(a);
            }
            j = j + 1;
        }
        proof {
            assert(list@.take(list@.len() as int) =~= list@);
        }
        r
    }
}

impl<V> Default for AdjacencyVecGraph<V> {
    /// An empty graph.
    fn default() -> (r: Self)
        ensures
            r.wf(),
            r.key_seq() == Seq::<u64>::empty(),
    {
        AdjacencyVecGraph::new()
    }
}

/// Filtering preserves the absence of duplicates.
pub(crate) proof fn lemma_filter_no_duplicates(s: Seq<u64>, p: spec_fn(u64) -> bool)
    requires
        s.no_duplicates(),
    ensures
        s.filter(p).no_duplicates(),
    decreases s.len(),
{
    reveal(Seq::filter);
    if s.len() > 0 {
        let d = s.drop_last();
        assert(d.no_duplicates());
        lemma_filter_no_duplicates(d, p);
        if p(s.last()) {
            if d.filter(p).contains(s.last()) {
                d.lemma_filter_contains_rev(p, s.last());
                let j = choose|j: int| 0 <= j < d.len() && d[j] == s.last();
                assert(s[j] == s[s.len() - 1]);
                assert(false);
            }
            let f = d.filter(p).push(s.last());
            assert forall|m: int, n: int|
                0 <= m < f.len() && 0 <= n < f.len() && m != n implies f[m] != f[n] by {
                if m < f.len() - 1 && n < f.len() - 1 {
                } else if m == f.len() - 1 {
                    assert(!d.filter(p).contains(f[n]) || f[n] != s.last());
                }
            }
        }
    }
}

/// A sequence every element of which satisfies `p` is unchanged by
/// filtering with `p`.
proof fn lemma_filter_all(s: Seq<u64>, p: spec_fn(u64) -> bool)
    requires
        forall|i: int| 0 <= i < s.len() ==> p(#[trigger] s[i]),
    ensures
        s.filter(p) == s,
    decreases s.len(),
{
    reveal(Seq::filter);
    if s.len() > 0 {
        let d = s.drop_last();
        lemma_filter_all(d, p);
        assert(s.filter(p) =~= s);
    } else {
        assert(s.filter(p) =~= s);
    }
}

} // verus!
