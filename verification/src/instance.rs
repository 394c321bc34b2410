//! Problem instances: the bin size, the items, and the item conflict graph.
use vstd::prelude::*;

use crate::conflict_graph::{with_conflict, ConflictGraph};
use crate::item::Item;

verus! {

/// A packing instance: every bin is `width` by `height`.
#[derive(Clone, Debug)]
pub struct Instance {
    pub items: Vec<Item>,
    pub width: u32,
    pub height: u32,
    /// Conflict graph keyed by item index (position in `items`).
    pub conflicts: ConflictGraph<usize>,
}

/// One row of an instance document: `count` copies of a `width` by `height`
/// item for `client` (client 0 when absent).
#[derive(Clone, Copy, Debug)]
pub struct ItemDemand {
    pub width: u32,
    pub height: u32,
    pub count: u32,
    pub client: Option<u32>,
}

/// The item that a demand row stands for.
pub open spec fn demand_item(d: ItemDemand) -> Item {
    Item {
        height: d.height,
        width: d.width,
        client: match d.client {
            Some(c) => c,
            None => 0,
        },
    }
}

/// The items of the rows, each repeated `count` times, in row order.
pub open spec fn expand(ds: Seq<ItemDemand>) -> Seq<Item>
    decreases ds.len(),
{
    if ds.len() == 0 {
        Seq::empty()
    } else {
        expand(ds.drop_last()) + Seq::new(ds.last().count as nat, |i: int| demand_item(ds.last()))
    }
}

/// How many items the rows before row `r` stand for.
pub open spec fn count_before(ds: Seq<ItemDemand>, r: int) -> nat
    decreases r,
{
    if r <= 0 {
        0
    } else {
        (count_before(ds, r - 1) + ds[r - 1].count) as nat
    }
}

proof fn lemma_count_before_prefix(ds: Seq<ItemDemand>, r: int)
    requires
        0 <= r < ds.len(),
    ensures
        count_before(ds.drop_last(), r) == count_before(ds, r),
    decreases r,
{
    if r > 0 {
        lemma_count_before_prefix(ds, r - 1);
    }
}

proof fn lemma_count_before_mono(ds: Seq<ItemDemand>, r: int, s: int)
    requires
        0 <= r <= s,
    ensures
        count_before(ds, r) <= count_before(ds, s),
    decreases s,
{
    if s > r {
        lemma_count_before_mono(ds, r, s - 1);
    }
}

/// Expanding the rows lays out, row after row, `count` copies of each row's
/// item: the positions `count_before(ds, r)` up to `count_before(ds, r + 1)`
/// hold items whose width and height are the row's own, as given (never
/// turned, whichever is larger), and whose client is the row's (0 when
/// absent); there are no other items.
pub proof fn lemma_expand_rows(ds: Seq<ItemDemand>)
    ensures
        expand(ds).len() == count_before(ds, ds.len() as int),
        forall|r: int, k: int|
            #![trigger expand(ds)[k], count_before(ds, r)]
            0 <= r < ds.len() && count_before(ds, r) <= k < count_before(ds, r + 1) ==> {
                &&& expand(ds)[k].width == ds[r].width
                &&& expand(ds)[k].height == ds[r].height
                &&& expand(ds)[k].client == match ds[r].client {
                    Some(c) => c,
                    None => 0,
                }
            },
    decreases ds.len(),
{
    if ds.len() > 0 {
        let p = ds.drop_last();
        let n = p.len() as int;
        lemma_expand_rows(p);
        assert forall|r: int| 0 <= r <= n implies count_before(p, r) == count_before(ds, r) by {
            if r < n + 1 && r < ds.len() {
                lemma_count_before_prefix(ds, r);
            }
        }
        assert forall|r: int, k: int|
            #![trigger expand(ds)[k], count_before(ds, r)]
            0 <= r < ds.len() && count_before(ds, r) <= k < count_before(ds, r + 1) implies {
                &&& expand(ds)[k].width == ds[r].width
                &&& expand(ds)[k].height == ds[r].height
                &&& expand(ds)[k].client == match ds[r].client {
                    Some(c) => c,
                    None => 0,
                }
            } by {
            if r < n {
                lemma_count_before_mono(p, r + 1, n);
                assert(p[r] == ds[r]);
                assert(count_before(p, r) <= k < count_before(p, r + 1));
                assert(expand(ds)[k] == expand(p)[k]);
            } else {
                assert(expand(ds)[k] == demand_item(ds.last()));
            }
        }
    }
}

/// `edges[i]` joins `a` and `b` (in either direction) and is not a self-loop.
pub open spec fn joins(edges: Seq<(usize, usize)>, i: int, a: usize, b: usize) -> bool {
    0 <= i < edges.len() && edges[i].0 != edges[i].1 && ((edges[i].0 == a && edges[i].1 == b) || (
    edges[i].1 == a && edges[i].0 == b))
}

/// The conflict graph over items `0..n` with the given edges: nodes are the
/// items and the ends of every edge that is not a self-loop; the neighbors of
/// a node are the other ends of its edges.
pub open spec fn conflict_map(n: nat, edges: Seq<(usize, usize)>) -> Map<usize, Set<usize>> {
    Map::new(
        |k: usize| k < n || exists|i: int, b: usize| joins(edges, i, k, b),
        |k: usize| Set::new(|b: usize| exists|i: int| joins(edges, i, k, b)),
    )
}

proof fn lemma_conflict_map_push(n: nat, edges: Seq<(usize, usize)>, a: usize, b: usize)
    ensures
        with_conflict(conflict_map(n, edges), a, b) =~~= conflict_map(n, edges.push((a, b))),
{
    let g = conflict_map(n, edges);
    let e2 = edges.push((a, b));
    let h = conflict_map(n, e2);
    assert forall|i: int, x: usize, y: usize| 0 <= i < edges.len() implies joins(edges, i, x, y)
        == joins(e2, i, x, y) by {
        assert(e2[i] == edges[i]);
    }
    if a == b {
        assert forall|k: usize| #[trigger] h.contains_key(k) == g.contains_key(k) by {
            if h.contains_key(k) && !(k < n) {
                let (i, y) = choose|i: int, y: usize| joins(e2, i, k, y);
                assert(i < edges.len());
                assert(joins(edges, i, k, y));
            }
        }
        assert forall|k: usize| #[trigger] h.contains_key(k) implies h[k] =~= g[k] by {
            assert forall|y: usize| h[k].contains(y) == g[k].contains(y) by {
                if h[k].contains(y) {
                    let i = choose|i: int| joins(e2, i, k, y);
                    assert(i < edges.len());
                    assert(joins(edges, i, k, y));
                }
            }
        }
    } else {
        let w = with_conflict(g, a, b);
        assert(joins(e2, edges.len() as int, a, b));
        assert(joins(e2, edges.len() as int, b, a));
        assert forall|k: usize| #[trigger] h.contains_key(k) == w.contains_key(k) by {
            if h.contains_key(k) && !(k < n) && k != a && k != b {
                let (i, y) = choose|i: int, y: usize| joins(e2, i, k, y);
                assert(i < edges.len());
                assert(joins(edges, i, k, y));
            }
        }
        assert forall|k: usize| #[trigger] h.contains_key(k) implies h[k] =~= w[k] by {
            assert forall|y: usize| h[k].contains(y) == w[k].contains(y) by {
                if h[k].contains(y) {
                    let i = choose|i: int| joins(e2, i, k, y);
                    if i < edges.len() {
                        assert(joins(edges, i, k, y));
                        assert(g.contains_key(k));
                    }
                }
                if w[k].contains(y) && !(k == a && y == b) && !(k == b && y == a) {
                    assert(g.contains_key(k) && g[k].contains(y));
                    let i = choose|i: int| joins(edges, i, k, y);
                }
            }
        }
    }
}

/// Assemble an `Instance`, building the item-indexed conflict graph.
///
/// Every item index `0..items.len()` is added as a node (so conflict-free items
/// are still present for coloring), then each `(a, b)` edge is added.
pub fn assemble(width: u32, height: u32, items: Vec<Item>, edges: Vec<(usize, usize)>) -> (r:
    Instance)
    ensures
        r.items@ == items@,
        r.width == width,
        r.height == height,
        r.conflicts@ == conflict_map(items.len() as nat, edges@),
        r.conflicts.wf(),
{
    let mut conflicts = ConflictGraph::new();
    let n = items.len();
    for i in 0..n
        invariant
            conflicts@ == conflict_map(i as nat, Seq::empty()),
            conflicts.wf(),
    {
        conflicts.add_node(i);
        proof {
            let h = conflict_map((i + 1) as nat, Seq::empty());
            let g = conflict_map(i as nat, Seq::empty());
            assert forall|k: usize| #[trigger] h.contains_key(k) implies h[k] =~= Set::<usize>::empty() by {}
            assert forall|k: usize| #[trigger] g.contains_key(k) implies g[k] =~= Set::<usize>::empty() by {}
            assert(conflicts@ =~~= h);
        }
    }
    let m = edges.len();
    assert(edges@.take(0) =~= Seq::<(usize, usize)>::empty());
    for t in 0..m
        invariant
            m == edges.len(),
            conflicts@ == conflict_map(n as nat, edges@.take(t as int)),
            conflicts.wf(),
    {
        let (a, b) = edges[t];
        conflicts.add_conflict(a, b);
        proof {
            lemma_conflict_map_push(n as nat, edges@.take(t as int), a, b);
            assert(edges@.take(t as int).push((a, b)) == edges@.take(t + 1));
        }
    }
    assert(edges@.take(m as int) == edges@);
    Instance { items, width, height, conflicts }
}

/// Build an instance from the rows of an instance document: each row becomes
/// `count` items (client 0 when absent), and the conflicts (none when absent)
/// join item indices.
pub fn instance_from_demands(
    width: u32,
    height: u32,
    demands: &Vec<ItemDemand>,
    conflicts: Option<Vec<(usize, usize)>>,
) -> (r: Instance)
    ensures
        r.items@ == expand(demands@),
        r.items.len() == count_before(demands@, demands.len() as int),
        forall|row: int, k: int|
            #![trigger r.items@[k], count_before(demands@, row)]
            0 <= row < demands.len() && count_before(demands@, row) <= k < count_before(
                demands@,
                row + 1,
            ) ==> {
                &&& r.items@[k].width == demands@[row].width
                &&& r.items@[k].height == demands@[row].height
                &&& r.items@[k].client == match demands@[row].client {
                    Some(c) => c,
                    None => 0,
                }
            },
        r.width == width,
        r.height == height,
        r.conflicts@ == conflict_map(
            r.items.len() as nat,
            match conflicts {
                Some(e) => e@,
                None => Seq::empty(),
            },
        ),
        r.conflicts.wf(),
{
    let mut items: Vec<Item> = Vec::new();
    let n = demands.len();
    for i in 0..n
        invariant
            n == demands.len(),
            items@ == expand(demands@.take(i as int)),
    {
        let d = demands[i];
        let it = Item {
            height: d.height,
            width: d.width,
            client: match d.client {
                Some(c) => c,
                None => 0,
            },
        };
        let ghost start = items@;
        assert(it == demand_item(d));
        assert(start + Seq::new(0, |j: int| demand_item(d)) =~= start);
        for _c in 0..d.count
            invariant
                it == demand_item(d),
                items@ == start + Seq::new(_c as nat, |j: int| demand_item(d)),
        {
            items.push(it);
            assert(items@ =~= start + Seq::new((_c + 1) as nat, |j: int| demand_item(d)));
        }
        assert(demands@.take(i + 1).drop_last() == demands@.take(i as int));
    }
    assert(demands@.take(n as int) == demands@);
    proof {
        lemma_expand_rows(demands@);
    }
    let edges = match conflicts {
        Some(e) => e,
        None => Vec::new(),
    };
    assemble(width, height, items, edges)
}

} // verus!
