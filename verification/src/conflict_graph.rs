//! Undirected conflict graphs: two items joined by an edge may not share a bin.
use std::collections::{HashMap, HashSet};
use vstd::prelude::*;
use vstd::std_specs::hash::spec_hash_keys_iter;
use vstd::std_specs::iter::IteratorSpec;

verus! {

broadcast use vstd::std_specs::hash::group_hash_axioms;

/// Adjacency sets keyed by node.
#[derive(Clone, Debug)]
pub struct ConflictGraph<T> {
    pub adjacency: HashMap<T, HashSet<T>>,
}

impl View for ConflictGraph<usize> {
    type V = Map<usize, Set<usize>>;

    open spec fn view(&self) -> Map<usize, Set<usize>> {
        self.adjacency@.map_values(|s: HashSet<usize>| s@)
    }
}

/// The neighbors of `v` in `g` (none when `v` is not a node).
pub open spec fn adjacent(g: Map<usize, Set<usize>>, v: usize) -> Set<usize> {
    if g.contains_key(v) {
        g[v]
    } else {
        Set::empty()
    }
}

/// `g` with the undirected edge `a -- b` added; a self-loop leaves `g` as it is.
pub open spec fn with_conflict(g: Map<usize, Set<usize>>, a: usize, b: usize) -> Map<
    usize,
    Set<usize>,
> {
    if a == b {
        g
    } else {
        g.insert(b, adjacent(g, b).insert(a)).insert(a, adjacent(g, a).insert(b))
    }
}

/// Edges go both ways, join distinct nodes, and both ends are nodes.
pub open spec fn is_undirected(g: Map<usize, Set<usize>>) -> bool {
    forall|a: usize, b: usize|
        g.contains_key(a) && #[trigger] g[a].contains(b) ==> a != b && g.contains_key(b)
            && g[b].contains(a)
}

/// Every edge is listed at both of its ends (self-loops allowed).
pub open spec fn is_symmetric(g: Map<usize, Set<usize>>) -> bool {
    forall|a: usize, b: usize| #[trigger] adjacent(g, a).contains(b) ==> adjacent(g, b).contains(a)
}

/// An undirected graph lists every edge at both ends.
pub proof fn lemma_undirected_is_symmetric(g: Map<usize, Set<usize>>)
    requires
        is_undirected(g),
    ensures
        is_symmetric(g),
{
    assert forall|a: usize, b: usize| #[trigger] adjacent(g, a).contains(b) implies adjacent(g, b).contains(a) by {
        assert(g.contains_key(a) && g[a].contains(b));
    }
}

impl ConflictGraph<usize> {
    pub open spec fn wf(&self) -> bool {
        is_undirected(self@)
    }

    pub fn new() -> (r: Self)
        ensures
            r@ == Map::<usize, Set<usize>>::empty(),
            r.wf(),
    {
        let r = ConflictGraph { adjacency: HashMap::new() };
        assert(r@ =~= Map::<usize, Set<usize>>::empty());
        r
    }

    /// Make `node` a node of the graph, with no edge if it is new.
    pub fn add_node(&mut self, node: usize)
        ensures
            final(self)@ == (if old(self)@.contains_key(node) {
                old(self)@
            } else {
                old(self)@.insert(node, Set::empty())
            }),
            old(self).wf() ==> final(self).wf(),
    {
        if !self.adjacency.contains_key(&node) {
            self.adjacency.insert(node, HashSet::new());
            assert(self@ =~= old(self)@.insert(node, Set::empty()));
        }
    }

    /// Add the undirected edge `a -- b`; a self-loop is ignored.
    pub fn add_conflict(&mut self, a: usize, b: usize)
        ensures
            final(self)@ == with_conflict(old(self)@, a, b),
            old(self).wf() ==> final(self).wf(),
    {
        if a == b {
            return ;
        }
        let mut sb = match self.adjacency.remove(&b) {
            Some(s) => s,
            None => HashSet::new(),
        };
        sb.insert(a);
        self.adjacency.insert(b, sb);
        let ghost mid = self@;
        assert(mid =~= old(self)@.insert(b, adjacent(old(self)@, b).insert(a)));
        let mut sa = match self.adjacency.remove(&a) {
            Some(s) => s,
            None => HashSet::new(),
        };
        sa.insert(b);
        self.adjacency.insert(a, sa);
        assert(self@ =~= with_conflict(old(self)@, a, b));
    }

    /// The neighbors of `node`, each once, in no particular order.
    pub fn neighbors(&self, node: &usize) -> (r: Vec<usize>)
        ensures
            r@.no_duplicates(),
            forall|x: usize| r@.contains(x) <==> adjacent(self@, *node).contains(x),
    {
        let mut out: Vec<usize> = Vec::new();
        match self.adjacency.get(node) {
            None => {},
            Some(set) => {
                for x in iter: set.iter()
                    invariant
                        out@ == spec_hash_keys_iter(set).remaining().unref().take(
                            iter.index(),
                        ),
                {
                    out.push(*x);
                }
                proof {
                    let s = spec_hash_keys_iter(set).remaining();
                    assert(out@ =~= s.unref());
                    assert forall|x: usize| out@.contains(x) <==> set@.contains(x) by {
                        assert(out@.to_set().contains(x) <==> out@.contains(x));
                    }
                }
            },
        }
        out
    }

    /// The number of neighbors of `node`.
    pub fn degree(&self, node: &usize) -> (r: usize)
        ensures
            r == adjacent(self@, *node).len(),
    {
        match self.adjacency.get(node) {
            None => 0,
            Some(s) => s.len(),
        }
    }
}

} // verus!
