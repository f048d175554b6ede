use vstd::prelude::*;
use crate::topsort::order_ok;
use crate::topsort::top_run;
use crate::topsort::TopSort;
use crate::traversal::BFS;
use crate::traversal::PostOrderDFS;
use crate::traversal::PreOrderDFS;

verus! {

/// The capability interface every backing store must satisfy to be
/// traversable: enumerate all node keys, and enumerate the registered
/// successors of a node.  The traversal algorithms depend on nothing else.
pub trait ReferenceGraph: Sized {
    /// Every registered node key, each exactly once.
    spec fn spec_keys(&self) -> Seq<u64>;

    /// The registered successors of `node`, each exactly once; empty when
    /// `node` is not itself registered.
    spec fn spec_adjacents(&self, node: u64) -> Seq<u64>;

    /// The store's enumerations are well formed.
    spec fn valid(&self) -> bool;

    /// What `valid` guarantees: keys are unique, successor lists repeat no
    /// key, and every listed successor is a registered key.
    proof fn valid_facts(&self)
        requires
            self.valid(),
        ensures
            self.spec_keys().no_duplicates(),
            forall|n: u64| (#[trigger] self.spec_adjacents(n)).no_duplicates(),
            forall|n: u64, i: int|
                0 <= i < self.spec_adjacents(n).len() ==> self.spec_keys().contains(
                    #[trigger] self.spec_adjacents(n)[i],
                ),
    ;

    fn keys(&self) -> (r: Vec<u64>)
        requires
            self.valid(),
        ensures
            r@ == self.spec_keys(),
    ;

    fn adjacents(&self, node: u64) -> (r: Vec<u64>)
        requires
            self.valid(),
            self.spec_keys().contains(node),
        ensures
            r@ == self.spec_adjacents(node),
    ;
}

/// The traversal entry points, provided for every capability implementor:
/// the algorithms are layered on top of `keys` and `adjacents` alone.
pub trait GraphTraversal: ReferenceGraph {
    /// A pre-order depth-first traversal borrowing this store, rooted at the
    /// registered key `root`.
    fn pre_order_dfs<'a>(&'a self, root: u64) -> (it: PreOrderDFS<'a, Self>)
        requires
            self.valid(),
            self.spec_keys().contains(root),
        ensures
            it.inv(),
            it.graph == self,
            it.root@ == root,
            it.init@ == Set::<u64>::empty(),
            it.emitted@ == Seq::<u64>::empty(),
            it.visited@ == Seq::<u64>::empty(),
            it.stack@ == seq![root],
    ;

    /// A post-order depth-first traversal borrowing this store, rooted at
    /// the registered key `root`.
    fn post_order_dfs<'a>(&'a self, root: u64) -> (it: PostOrderDFS<'a, Self>)
        requires
            self.valid(),
            self.spec_keys().contains(root),
        ensures
            it.inv(),
            it.graph == self,
            it.root@ == root,
            it.init@ == Set::<u64>::empty(),
            it.emitted@ == Seq::<u64>::empty(),
            it.visited@ == Seq::<u64>::empty(),
    ;

    /// A breadth-first traversal borrowing this store, rooted at the
    /// registered key `root`.
    fn bfs<'a>(&'a self, root: u64) -> (it: BFS<'a, Self>)
        requires
            self.valid(),
            self.spec_keys().contains(root),
        ensures
            it.inv(),
            it.graph == self,
            it.root@ == root,
            it.init@ == Set::<u64>::empty(),
            it.emitted@ == Seq::<u64>::empty(),
            it.visited@ == seq![root],
            it.queue@ == seq![root],
    ;

    /// The topological sequence of this store's whole graph: the reverse of
    /// a post-order finish order spanning every component.
    fn top_sort<'a>(&'a self) -> (r: TopSort<'a, Self>)
        requires
            self.valid(),
        ensures
            r.graph == self,
            r.stack@.no_duplicates(),
            r.stack@.to_set() == self.spec_keys().to_set(),
            order_ok(*self, r.stack@),
            r.stack@ == top_run(*self, 0, Seq::<u64>::empty()).0,
    ;
}

impl<G: ReferenceGraph> GraphTraversal for G {
    fn pre_order_dfs<'a>(&'a self, root: u64) -> (it: PreOrderDFS<'a, Self>) {
        PreOrderDFS::new(self, root)
    }

    fn post_order_dfs<'a>(&'a self, root: u64) -> (it: PostOrderDFS<'a, Self>) {
        PostOrderDFS::new(self, root)
    }

    fn bfs<'a>(&'a self, root: u64) -> (it: BFS<'a, Self>) {
        BFS::new(self, root)
    }

    fn top_sort<'a>(&'a self) -> (r: TopSort<'a, Self>) {
        TopSort::new(self)
    }
}

} // verus!
