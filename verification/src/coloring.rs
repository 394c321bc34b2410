//! Greedy (Welsh-Powell) coloring of a conflict graph.
use std::collections::{HashMap, HashSet};
use vstd::prelude::*;
use vstd::std_specs::hash::spec_keys_iter;
use vstd::std_specs::iter::IteratorSpec;

use crate::conflict_graph::{adjacent, is_symmetric, ConflictGraph};
use crate::sorting::{pair_before, sort_by_key_desc};

verus! {

broadcast use vstd::std_specs::hash::group_hash_axioms;

/// `u` is colored before `v`: a higher degree, or the same degree and a
/// smaller value.
pub open spec fn precedes(g: Map<usize, Set<usize>>, u: usize, v: usize) -> bool {
    let du = adjacent(g, u).len();
    let dv = adjacent(g, v).len();
    du > dv || (du == dv && u < v)
}

/// `u` is a node of `g` colored before `v`.
pub open spec fn earlier(g: Map<usize, Set<usize>>, u: usize, v: usize) -> bool {
    g.contains_key(u) && precedes(g, u, v)
}

/// `colors` gives every node of `g` the smallest color that no neighbor
/// colored before it has.
pub open spec fn is_greedy_coloring(g: Map<usize, Set<usize>>, colors: Map<usize, usize>) -> bool {
    &&& colors.dom() == g.dom()
    &&& forall|v: usize, u: usize|
        g.contains_key(v) && #[trigger] g[v].contains(u) && earlier(g, u, v) ==> colors[u]
            != colors[v]
    &&& forall|v: usize, c: usize|
        g.contains_key(v) && c < colors[v] ==> #[trigger] has_earlier_neighbor(g, colors, v, c)
}

/// A neighbor of `v` colored before it has color `c`.
pub open spec fn has_earlier_neighbor(
    g: Map<usize, Set<usize>>,
    colors: Map<usize, usize>,
    v: usize,
    c: usize,
) -> bool {
    exists|u: usize| #[trigger] g[v].contains(u) && earlier(g, u, v) && colors.contains_key(u) && colors[u] == c
}

/// The numbers below `c` are `c` many.
proof fn lemma_below_len(c: nat)
    requires
        c <= usize::MAX + 1,
    ensures
        Set::new(|x: usize| x < c).finite(),
        Set::new(|x: usize| x < c).len() == c,
    decreases c,
{
    if c == 0 {
        assert(Set::new(|x: usize| x < c) =~= Set::<usize>::empty());
    } else {
        lemma_below_len((c - 1) as nat);
        let s = Set::new(|x: usize| x < (c - 1) as nat);
        assert(Set::new(|x: usize| x < c) =~= s.insert((c - 1) as usize));
    }
}


/// The number of nodes of `g` colored before `v`.
pub open spec fn rank(g: Map<usize, Set<usize>>, v: usize) -> nat {
    g.dom().filter(|w: usize| precedes(g, w, v)).len()
}

/// Two greedy colorings agree on `v`.
proof fn lemma_same_color(
    g: Map<usize, Set<usize>>,
    c1: Map<usize, usize>,
    c2: Map<usize, usize>,
    v: usize,
)
    requires
        g.dom().finite(),
        is_greedy_coloring(g, c1),
        is_greedy_coloring(g, c2),
        g.contains_key(v),
    ensures
        c1[v] == c2[v],
    decreases rank(g, v),
{
    let before_v = g.dom().filter(|w: usize| precedes(g, w, v));
    assert forall|u: usize| g[v].contains(u) && earlier(g, u, v) implies c1[u] == c2[u] by {
        let before_u = g.dom().filter(|w: usize| precedes(g, w, u));
        assert(before_u.subset_of(before_v));
        assert(before_v.contains(u));
        assert(!before_u.contains(u));
        vstd::set_lib::lemma_len_subset(before_v, g.dom());
        before_u.lemma_subset_not_in_lt(before_v, u);
        lemma_same_color(g, c1, c2, u);
    }
    if c1[v] < c2[v] {
        assert(has_earlier_neighbor(g, c2, v, c1[v]));
        let u = choose|u: usize| #[trigger] g[v].contains(u) && earlier(g, u, v) && c2.contains_key(u) && c2[u] == c1[v];
        assert(c1[u] != c1[v]);
    } else if c2[v] < c1[v] {
        assert(has_earlier_neighbor(g, c1, v, c2[v]));
        let u = choose|u: usize| #[trigger] g[v].contains(u) && earlier(g, u, v) && c1.contains_key(u) && c1[u] == c2[v];
        assert(c2[u] != c2[v]);
    }
}

/// The greedy coloring of a graph is unique: it depends on the graph alone,
/// never on the order in which the graph's storage is walked.
pub proof fn lemma_greedy_coloring_unique(
    g: Map<usize, Set<usize>>,
    c1: Map<usize, usize>,
    c2: Map<usize, usize>,
)
    requires
        g.dom().finite(),
        is_greedy_coloring(g, c1),
        is_greedy_coloring(g, c2),
    ensures
        c1 == c2,
{
    assert forall|v: usize| #[trigger] c1.contains_key(v) implies c1[v] == c2[v] by {
        lemma_same_color(g, c1, c2, v);
    }
    assert(c1 =~= c2);
}

/// Greedily color the conflict graph: assign each node the smallest color not
/// used by an already-colored neighbor, so conflicting (adjacent) nodes always
/// receive different colors and every color class is a conflict-free set.
///
/// Nodes are processed in a deterministic Welsh-Powell order (descending degree,
/// ties broken by node value), which makes the result reproducible despite the
/// underlying `HashMap` storage.
pub fn greedy_coloring(graph: &ConflictGraph<usize>) -> (r: HashMap<usize, usize>)
    ensures
        is_greedy_coloring(graph@, r@),
        is_symmetric(graph@) ==> forall|v: usize, u: usize|
            graph@.contains_key(v) && #[trigger] graph@[v].contains(u) && u != v ==> r@[u] != r@[v],
{
    let ghost g = graph@;
    let mut nodes: Vec<usize> = Vec::new();
    for k in iter: graph.adjacency.keys()
        invariant
            nodes@ == spec_keys_iter(&graph.adjacency).remaining().unref().take(iter.index()),
    {
        nodes.push(*k);
    }
    let ghost ks = spec_keys_iter(&graph.adjacency).remaining().unref();
    assert(nodes@ =~= ks);
    let mut keyed: Vec<(u64, usize)> = Vec::new();
    let nk = nodes.len();
    for t in 0..nk
        invariant
            nk == nodes.len(),
            g == graph@,
            keyed@.len() == t,
            forall|q: int|
                #![trigger keyed@[q]]
                0 <= q < t ==> keyed@[q].0 == adjacent(g, nodes@[q]).len() && keyed@[q].1 == nodes@[q],
    {
        let d = graph.degree(&nodes[t]);
        keyed.push((d as u64, nodes[t]));
    }
    proof {
        assert(ks.to_set() == graph.adjacency@.dom());
        assert(ks.no_duplicates());
        assert(keyed@.len() == ks.len());
        assert forall|t: int| #![trigger keyed@[t]] 0 <= t < ks.len() implies keyed@[t].0 == adjacent(
            g,
            ks[t],
        ).len() && keyed@[t].1 == ks[t] by {}
        assert forall|a: int, b: int| 0 <= a < keyed.len() && 0 <= b < keyed.len() && a != b implies keyed@[a]
            != keyed@[b] by {
            assert(keyed@[a].1 == ks[a] && keyed@[b].1 == ks[b]);
        }
        assert forall|k: usize| g.contains_key(k) <==> ks.contains(k) by {
            assert(ks.to_set().contains(k) <==> ks.contains(k));
        }
    }
    let sorted = sort_by_key_desc(&keyed);
    let mut order: Vec<usize> = Vec::new();
    let m = sorted.len();
    for t in 0..m
        invariant
            m == sorted.len(),
            order.len() == t,
            forall|q: int| 0 <= q < t ==> #[trigger] order@[q] == sorted@[q].1,
    {
        order.push(sorted[t].1);
    }
    proof {
        assert forall|t: int| 0 <= t < m implies #[trigger] sorted@[t].0 == adjacent(
            g,
            sorted@[t].1,
        ).len() && g.contains_key(sorted@[t].1) by {
            assert(sorted@.contains(sorted@[t]));
            assert(keyed@.contains(sorted@[t]));
            let q = choose|q: int| 0 <= q < keyed.len() && keyed@[q] == sorted@[t];
            assert(ks.contains(ks[q]));
        }
        assert forall|k: usize| g.contains_key(k) implies #[trigger] order@.contains(k) by {
            assert(ks.contains(k));
            let q = choose|q: int| 0 <= q < ks.len() && ks[q] == k;
            assert(keyed@.contains(keyed@[q]));
            assert(sorted@.contains(keyed@[q]));
            let t = choose|t: int| 0 <= t < m && sorted@[t] == keyed@[q];
            assert(keyed@[q].1 == k);
            assert(order@[t] == k);
        }
        assert forall|a: int, b: int| 0 <= a < b < m implies precedes(g, #[trigger] order@[a], #[trigger] order@[b]) by {
            assert(pair_before(sorted@[a], sorted@[b]));
            assert(sorted@[a].0 == adjacent(g, sorted@[a].1).len());
            assert(sorted@[b].0 == adjacent(g, sorted@[b].1).len());
        }
        assert forall|q: int| 0 <= q < m implies g.contains_key(#[trigger] order@[q]) by {
            assert(sorted@[q].0 == adjacent(g, sorted@[q].1).len());
            assert(g.contains_key(sorted@[q].1));
        }
    }
    let mut colors: HashMap<usize, usize> = HashMap::new();
    for t in 0..m
        invariant
            m == order.len(),
            g == graph@,
            forall|q: int| 0 <= q < m ==> g.contains_key(#[trigger] order@[q]),
            forall|k: usize| g.contains_key(k) ==> #[trigger] order@.contains(k),
            forall|a: int, b: int| 0 <= a < b < m ==> precedes(g, #[trigger] order@[a], #[trigger] order@[b]),
            forall|k: usize| #[trigger] colors@.contains_key(k) <==> exists|q: int| 0 <= q < t && order@[q] == k,
            forall|v: usize, u: usize|
                colors@.contains_key(v) && #[trigger] g[v].contains(u) && earlier(g, u, v) ==> colors@.contains_key(u) && colors@[u]
                    != colors@[v],
            forall|v: usize, c: usize|
                colors@.contains_key(v) && c < colors@[v] ==> #[trigger] has_earlier_neighbor(g, colors@, v, c),
    {
        let v = order[t];
        let ns = graph.neighbors(&v);
        let mut used: HashSet<usize> = HashSet::new();
        let nn = ns.len();
        for q in 0..nn
            invariant
                nn == ns.len(),
                used@.finite(),
                used@.len() <= q,
                forall|c: usize| #[trigger] used@.contains(c) <==> exists|p: int|
                    0 <= p < q && colors@.contains_key(ns@[p]) && colors@[ns@[p]] == c,
        {
            match colors.get(&ns[q]) {
                Some(c) => {
                    used.insert(*c);
                },
                None => {},
            }
        }
        let mut c: usize = 0;
        while used.contains(&c)
            invariant
                used@.finite(),
                used@.len() <= nn,
                forall|x: usize| x < c ==> #[trigger] used@.contains(x),
                c <= used@.len(),
            decreases used@.len() - c,
        {
            proof {
                lemma_below_len((c + 1) as nat);
                assert(Set::new(|x: usize| x < c + 1).subset_of(used@));
                vstd::set_lib::lemma_len_subset(Set::new(|x: usize| x < c + 1), used@);
            }
            c = c + 1;
        }
        let ghost before = colors@;
        colors.insert(v, c);
        proof {
            assert(order@[t as int] == v);
            assert(!before.contains_key(v)) by {
                if before.contains_key(v) {
                    let q = choose|q: int| 0 <= q < t && order@[q] == v;
                    assert(precedes(g, order@[q], order@[t as int]));
                }
            }
            // A node of `g` is colored exactly when it precedes `v`.
            assert forall|u: usize| g.contains_key(u) && u != v implies (before.contains_key(u)
                <==> precedes(g, u, v)) by {
                assert(order@.contains(u));
                let s = choose|s: int| 0 <= s < m && order@[s] == u;
                if s < t {
                    assert(precedes(g, order@[s], order@[t as int]));
                    assert(before.contains_key(u));
                } else {
                    assert(s != t);
                    assert(precedes(g, order@[t as int], order@[s]));
                    if before.contains_key(u) {
                        let q = choose|q: int| 0 <= q < t && order@[q] == u;
                    }
                }
            }
            assert forall|x: usize| #[trigger] used@.contains(x) <==> exists|u: usize|
                #[trigger] g[v].contains(u) && before.contains_key(u) && before[u] == x by {
                if used@.contains(x) {
                    let p = choose|p: int|
                        0 <= p < nn && before.contains_key(ns@[p]) && before[ns@[p]] == x;
                    assert(ns@.contains(ns@[p]));
                    assert(g[v].contains(ns@[p]));
                }
                if exists|u: usize| #[trigger] g[v].contains(u) && before.contains_key(u) && before[u] == x {
                    let u = choose|u: usize| #[trigger] g[v].contains(u) && before.contains_key(u) && before[u] == x;
                    assert(ns@.contains(u));
                    let p = choose|p: int| 0 <= p < nn && ns@[p] == u;
                }
            }
            assert forall|k: usize| #[trigger] colors@.contains_key(k) <==> exists|q: int| 0 <= q < t + 1 && order@[q] == k by {
                if k == v {
                    assert(order@[t as int] == k);
                } else if before.contains_key(k) {
                    let q = choose|q: int| 0 <= q < t && order@[q] == k;
                }
            }
            assert forall|w: usize, u: usize|
                colors@.contains_key(w) && #[trigger] g[w].contains(u) && earlier(g, u, w) implies colors@.contains_key(u) && colors@[u]
                    != colors@[w] by {
                if w == v {
                    assert(u != v);
                    assert(before.contains_key(u));
                    assert(used@.contains(before[u]));
                } else {
                    assert(before.contains_key(w));
                    assert(before.contains_key(u) && before[u] != before[w]);
                    if u == v {
                        let q = choose|q: int| 0 <= q < t && order@[q] == w;
                        assert(precedes(g, order@[q], order@[t as int]));
                    }
                }
            }
            assert forall|w: usize, x: usize|
                colors@.contains_key(w) && x < colors@[w] implies #[trigger] has_earlier_neighbor(g, colors@, w, x) by {
                if w == v {
                    assert(used@.contains(x));
                    let u = choose|u: usize| #[trigger] g[v].contains(u) && before.contains_key(u) && before[u] == x;
                    assert(g.contains_key(u));
                    assert(u != v);
                    assert(colors@[u] == x);
                } else {
                    assert(before.contains_key(w));
                    assert(has_earlier_neighbor(g, before, w, x));
                    let u = choose|u: usize| #[trigger] g[w].contains(u) && earlier(g, u, w) && before.contains_key(u) && before[u] == x;
                    assert(u != v);
                    assert(colors@[u] == x);
                }
            }
        }
    }
    proof {
        assert forall|k: usize| #[trigger] colors@.contains_key(k) <==> g.contains_key(k) by {
            if g.contains_key(k) {
                assert(order@.contains(k));
                let q = choose|q: int| 0 <= q < m && order@[q] == k;
                assert(exists|q: int| 0 <= q < m && order@[q] == k);
            }
            if colors@.contains_key(k) {
                let q = choose|q: int| 0 <= q < m && order@[q] == k;
                assert(g.contains_key(order@[q]));
            }
        }
        assert(colors@.dom() =~= g.dom());
        assert forall|v: usize, u: usize|
            g.contains_key(v) && #[trigger] g[v].contains(u) && earlier(g, u, v) implies colors@[u]
                != colors@[v] by {
            assert(colors@.contains_key(v));
        }
        if is_symmetric(g) {
            assert forall|v: usize, u: usize|
                graph@.contains_key(v) && #[trigger] graph@[v].contains(u) && u != v implies colors@[u] != colors@[v] by {
                assert(adjacent(g, v).contains(u));
                assert(adjacent(g, u).contains(v));
                assert(g.contains_key(u));
                assert(g[u].contains(v));
                if precedes(g, u, v) {
                    assert(earlier(g, u, v));
                } else {
                    assert(u != v);
                    assert(precedes(g, v, u));
                    assert(earlier(g, v, u));
                    assert(colors@.contains_key(u));
                }
            }
        }
    }
    colors
}

} // verus!
