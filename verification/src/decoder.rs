//! Decoding an insertion order (with or without forced orientations) into a
//! packing: first-fit over the open bins, a new bin when none takes the item.
use vstd::prelude::*;

use crate::conflict_graph::{adjacent, is_symmetric};
use crate::container::{
    accepts, any_accepts, empty_container, lemma_placing, occupied, whole, Container,
    ContainerView, Placement,
};
use crate::ems::Point;
use crate::instance::Instance;
use crate::item::Item;

verus! {

/// A decoded packing: the bins (each a `Container`) and the items that could not
/// be placed even in a fresh bin.
pub struct Solution {
    pub bins: Vec<Container>,
    pub unplaced: Vec<usize>,
}

/// A packing as mathematical values.
pub struct PackingView {
    pub bins: Seq<ContainerView>,
    pub unplaced: Seq<usize>,
}

impl View for Solution {
    type V = PackingView;

    open spec fn view(&self) -> PackingView {
        PackingView { bins: self.bins@.map_values(|c: Container| c@), unplaced: self.unplaced@ }
    }
}

/// A decoded chromosome: the item insertion order and the per-item orientation.
pub struct Decoded {
    /// Item indices in the order they should be inserted.
    pub order: Vec<usize>,
    /// `rotated[i]` is true when item `i` should be placed rotated 90 degrees.
    pub rotated: Vec<bool>,
}

/// Inserting item `idx` into bin `c`: turned as `forced` says for it, or
/// either way when no orientation is forced.
pub open spec fn try_item(
    c: ContainerView,
    items: Seq<Item>,
    g: Map<usize, Set<usize>>,
    idx: usize,
    forced: Option<Seq<bool>>,
) -> Option<(Point, ContainerView)> {
    match forced {
        None => c.try_insert_result(items[idx as int], idx, g),
        Some(rot) => c.try_insert_oriented_result(items[idx as int], idx, rot[idx as int], g),
    }
}

/// The bins after item `idx` went into the first bin, from `from` on, that
/// takes it; `None` when none does.
pub open spec fn first_fit(
    bins: Seq<ContainerView>,
    from: int,
    items: Seq<Item>,
    g: Map<usize, Set<usize>>,
    idx: usize,
    forced: Option<Seq<bool>>,
) -> Option<Seq<ContainerView>>
    decreases bins.len() - from,
{
    if from < 0 || from >= bins.len() {
        None
    } else {
        match try_item(bins[from], items, g, idx, forced) {
            Some((_, c)) => Some(bins.update(from, c)),
            None => first_fit(bins, from + 1, items, g, idx, forced),
        }
    }
}

/// One step of the packing: first fit into the open bins, else a new bin,
/// else the item is unplaced.
pub open spec fn pack_one(
    p: PackingView,
    items: Seq<Item>,
    g: Map<usize, Set<usize>>,
    width: u32,
    height: u32,
    idx: usize,
    forced: Option<Seq<bool>>,
) -> PackingView {
    match first_fit(p.bins, 0, items, g, idx, forced) {
        Some(bins) => PackingView { bins, unplaced: p.unplaced },
        None => match try_item(empty_container(width, height), items, g, idx, forced) {
            Some((_, c)) => PackingView { bins: p.bins.push(c), unplaced: p.unplaced },
            None => PackingView { bins: p.bins, unplaced: p.unplaced.push(idx) },
        },
    }
}

/// The packing of the items in `order`, one after the other, from no bins.
pub open spec fn pack(
    items: Seq<Item>,
    g: Map<usize, Set<usize>>,
    width: u32,
    height: u32,
    order: Seq<usize>,
    forced: Option<Seq<bool>>,
) -> PackingView
    decreases order.len(),
{
    if order.len() == 0 {
        PackingView { bins: Seq::empty(), unplaced: Seq::empty() }
    } else {
        pack_one(
            pack(items, g, width, height, order.drop_last(), forced),
            items,
            g,
            width,
            height,
            order.last(),
            forced,
        )
    }
}

/// The placement is the item's footprint at its origin, turned as recorded.
pub open spec fn footprint_matches(item: Item, pl: Placement) -> bool {
    let (w, h) = item.dims(pl.rotated);
    pl.rect == occupied(pl.origin, w, h)
}

/// An empty `width` by `height` bin takes the item (in its forced
/// orientation, when one is forced).
pub open spec fn fits_empty_bin(item: Item, width: u32, height: u32, forced: Option<bool>) -> bool {
    match forced {
        None => accepts(whole(width, height), item.width, item.height, true),
        Some(r) => {
            let (w, h) = item.dims(r);
            accepts(whole(width, height), w, h, false)
        },
    }
}

/// The orientation forced on item `idx`, if any.
pub open spec fn forced_for(forced: Option<Seq<bool>>, idx: usize) -> Option<bool> {
    match forced {
        None => None,
        Some(rot) => Some(rot[idx as int]),
    }
}

/// `k` is placed in some bin of `p`.
pub open spec fn in_some_bin(p: PackingView, k: usize) -> bool {
    exists|b: int| 0 <= b < p.bins.len() && #[trigger] p.bins[b].placed.contains_key(k)
}

/// What every packing built by first fit satisfies:
/// at most one bin or unplaced entry per item of the order; every bin is
/// `width` by `height` and holds at least one item; every placement is an
/// item of the order, its footprint, turned as forced; every unplaced item
/// is an item of the order that an empty bin does not take; when the
/// conflict graph is undirected, no bin holds two conflicting items; and
/// when the order repeats no item, every item of the order is in exactly
/// one bin or unplaced, once.
pub open spec fn packing_laws(
    p: PackingView,
    items: Seq<Item>,
    g: Map<usize, Set<usize>>,
    width: u32,
    height: u32,
    order: Seq<usize>,
    forced: Option<Seq<bool>>,
) -> bool {
    &&& p.bins.len() + p.unplaced.len() <= order.len()
    &&& forall|b: int| 0 <= b < p.bins.len() ==> (#[trigger] p.bins[b]).inv()
    &&& forall|b: int|
        0 <= b < p.bins.len() ==> (#[trigger] p.bins[b]).width == width && p.bins[b].height
            == height && exists|k: usize| p.bins[b].placed.contains_key(k)
    &&& forall|b: int, k: usize|
        0 <= b < p.bins.len() && #[trigger] p.bins[b].placed.contains_key(k) ==> {
            &&& order.contains(k)
            &&& footprint_matches(items[k as int], p.bins[b].placed[k])
            &&& (forced matches Some(rot) ==> p.bins[b].placed[k].rotated == rot[k as int])
            &&& fits_empty_bin(items[k as int], width, height, forced_for(forced, k))
        }
    &&& forall|i: int|
        0 <= i < p.unplaced.len() ==> order.contains(#[trigger] p.unplaced[i]) && !fits_empty_bin(
            items[p.unplaced[i] as int],
            width,
            height,
            forced_for(forced, p.unplaced[i]),
        )
    &&& is_symmetric(g) ==> forall|b: int, k1: usize, k2: usize|
        0 <= b < p.bins.len() && #[trigger] p.bins[b].placed.contains_key(k1)
            && #[trigger] p.bins[b].placed.contains_key(k2) && k1 != k2 ==> !adjacent(g, k1).contains(k2)
    &&& order.no_duplicates() ==> {
        &&& p.unplaced.no_duplicates()
        &&& forall|k: usize| #[trigger] order.contains(k) <==> (in_some_bin(p, k) || p.unplaced.contains(k))
        &&& forall|b1: int, b2: int, k: usize|
            0 <= b1 < p.bins.len() && 0 <= b2 < p.bins.len() && b1 != b2
                && #[trigger] p.bins[b1].placed.contains_key(k)
                ==> !#[trigger] p.bins[b2].placed.contains_key(k)
        &&& forall|k: usize| in_some_bin(p, k) ==> !p.unplaced.contains(k)
    }
}

/// The order and the forced orientations index only existing items.
pub open spec fn order_in_range(items: Seq<Item>, order: Seq<usize>, forced: Option<Seq<bool>>) -> bool {
    &&& forall|t: int| 0 <= t < order.len() ==> (#[trigger] order[t]) < items.len()
    &&& forced matches Some(rot) ==> rot.len() == items.len()
}

/// What a successful insertion does to a bin.
proof fn lemma_try_item(
    c: ContainerView,
    items: Seq<Item>,
    g: Map<usize, Set<usize>>,
    idx: usize,
    forced: Option<Seq<bool>>,
)
    ensures
        try_item(c, items, g, idx, forced) matches Some((o, c2)) ==> {
            &&& !c.placed.contains_key(idx)
            &&& !c.blocked(g, idx)
            &&& c2.width == c.width
            &&& c2.height == c.height
            &&& c2.placed == c.placed.insert(idx, c2.placed[idx])
            &&& footprint_matches(items[idx as int], c2.placed[idx])
            &&& (forced matches Some(rot) ==> c2.placed[idx].rotated == rot[idx as int])
            &&& (c.inv() ==> c2.inv() && fits_empty_bin(
                items[idx as int],
                c.width,
                c.height,
                forced_for(forced, idx),
            ))
        },
        c == empty_container(c.width, c.height) && try_item(c, items, g, idx, forced) is None
            ==> !fits_empty_bin(items[idx as int], c.width, c.height, forced_for(forced, idx)),
{
    let item = items[idx as int];
    if c.inv() {
        lemma_placing(c, item, idx, forced_for(forced, idx));
    }
    if c == empty_container(c.width, c.height) {
        assert(!c.blocked(g, idx));
        assert(!c.placed.contains_key(idx));
        let f = c.free;
        match forced {
            None => {
                if fits_empty_bin(item, c.width, c.height, None) {
                    assert(accepts(f[0], item.width, item.height, true));
                    assert(any_accepts(f, item.width, item.height, true));
                }
            },
            Some(rot) => {
                let (w, h) = item.dims(rot[idx as int]);
                if fits_empty_bin(item, c.width, c.height, forced_for(forced, idx)) {
                    assert(accepts(f[0], w, h, false));
                    assert(any_accepts(f, w, h, false));
                }
            },
        }
    }
}

/// The bins after a successful first fit: one bin, from `from` on, took the item.
proof fn lemma_first_fit(
    bins: Seq<ContainerView>,
    from: int,
    items: Seq<Item>,
    g: Map<usize, Set<usize>>,
    idx: usize,
    forced: Option<Seq<bool>>,
)
    requires
        0 <= from,
    ensures
        first_fit(bins, from, items, g, idx, forced) matches Some(nb) ==> exists|i: int|
            from <= i < bins.len() && (#[trigger] try_item(bins[i], items, g, idx, forced)) is Some
                && nb == bins.update(i, (try_item(bins[i], items, g, idx, forced)->0).1)
                && forall|j: int| from <= j < i ==> (#[trigger] try_item(bins[j], items, g, idx, forced)) is None,
        first_fit(bins, from, items, g, idx, forced) is None ==> forall|j: int|
            from <= j < bins.len() ==> (#[trigger] try_item(bins[j], items, g, idx, forced)) is None,
    decreases bins.len() - from,
{
    if from < bins.len() {
        if try_item(bins[from], items, g, idx, forced) is None {
            lemma_first_fit(bins, from + 1, items, g, idx, forced);
        }
    }
}


/// Item `idx` went into open bin `i`: the laws still hold with `idx` added to
/// the order.
proof fn lemma_step_fit(
    p: PackingView,
    items: Seq<Item>,
    g: Map<usize, Set<usize>>,
    width: u32,
    height: u32,
    init: Seq<usize>,
    idx: usize,
    forced: Option<Seq<bool>>,
    i: int,
)
    requires
        packing_laws(p, items, g, width, height, init, forced),
        0 <= i < p.bins.len(),
        try_item(p.bins[i], items, g, idx, forced) is Some,
    ensures
        packing_laws(
            PackingView {
                bins: p.bins.update(i, (try_item(p.bins[i], items, g, idx, forced)->0).1),
                unplaced: p.unplaced,
            },
            items,
            g,
            width,
            height,
            init.push(idx),
            forced,
        ),
{
    let order = init.push(idx);
    let c = p.bins[i];
    let c2 = (try_item(c, items, g, idx, forced)->0).1;
    lemma_try_item(c, items, g, idx, forced);
    let q = PackingView { bins: p.bins.update(i, c2), unplaced: p.unplaced };
    assert(order[init.len() as int] == idx);
    assert(order.contains(idx));
    assert forall|k: usize| init.contains(k) implies order.contains(k) by {
        let t = choose|t: int| 0 <= t < init.len() && init[t] == k;
        assert(order[t] == k);
    }
    assert forall|k: usize| order.contains(k) implies init.contains(k) || k == idx by {
        let t = choose|t: int| 0 <= t < order.len() && order[t] == k;
        if t < init.len() {
            assert(init[t] == k);
        }
    }
    assert forall|b: int| 0 <= b < q.bins.len() implies (#[trigger] q.bins[b]).width == width
        && q.bins[b].height == height && exists|k: usize| q.bins[b].placed.contains_key(k) by {
        if b == i {
            assert(q.bins[b].placed.contains_key(idx));
        } else {
            assert(q.bins[b] == p.bins[b]);
        }
    }
    assert forall|b: int, k: usize|
        0 <= b < q.bins.len() && #[trigger] q.bins[b].placed.contains_key(k) implies {
        &&& order.contains(k)
        &&& footprint_matches(items[k as int], q.bins[b].placed[k])
        &&& (forced matches Some(rot) ==> q.bins[b].placed[k].rotated == rot[k as int])
        &&& fits_empty_bin(items[k as int], width, height, forced_for(forced, k))
    } by {
        if b != i {
            assert(q.bins[b] == p.bins[b]);
            assert(p.bins[b].placed.contains_key(k));
        } else if k != idx {
            assert(c.placed.contains_key(k));
            assert(p.bins[b].placed.contains_key(k));
        }
    }
    if is_symmetric(g) {
        assert forall|b: int, k1: usize, k2: usize|
            0 <= b < q.bins.len() && #[trigger] q.bins[b].placed.contains_key(k1)
                && #[trigger] q.bins[b].placed.contains_key(k2) && k1 != k2 implies !adjacent(g, k1).contains(
            k2,
        ) by {
            if b != i {
                assert(q.bins[b] == p.bins[b]);
                assert(p.bins[b].placed.contains_key(k1) && p.bins[b].placed.contains_key(k2));
            } else if k1 != idx && k2 != idx {
                assert(p.bins[b].placed.contains_key(k1) && p.bins[b].placed.contains_key(k2));
            } else if k1 == idx {
                assert(c.placed.contains_key(k2));
            } else {
                assert(c.placed.contains_key(k1));
                if adjacent(g, k1).contains(idx) {
                    assert(adjacent(g, idx).contains(k1));
                }
            }
        }
    }
    if order.no_duplicates() {
        assert(init.no_duplicates()) by {
            assert forall|a: int, b: int| 0 <= a < init.len() && 0 <= b < init.len() && a != b implies init[a] != init[b] by {
                assert(order[a] == init[a] && order[b] == init[b]);
            }
        }
        assert(!init.contains(idx)) by {
            if init.contains(idx) {
                let t = choose|t: int| 0 <= t < init.len() && init[t] == idx;
                assert(order[t] == order[init.len() as int]);
            }
        }
        assert(!in_some_bin(p, idx)) by {
            if in_some_bin(p, idx) {
                let b = choose|b: int| 0 <= b < p.bins.len() && #[trigger] p.bins[b].placed.contains_key(idx);
            }
        }
        assert forall|k: usize| #[trigger] order.contains(k) <==> (in_some_bin(q, k) || q.unplaced.contains(k)) by {
            if order.contains(k) {
                if k == idx {
                    assert(q.bins[i].placed.contains_key(idx));
                } else {
                    assert(init.contains(k));
                    if in_some_bin(p, k) {
                        let b = choose|b: int| 0 <= b < p.bins.len() && #[trigger] p.bins[b].placed.contains_key(k);
                        if b == i {
                            assert(q.bins[b].placed.contains_key(k));
                        } else {
                            assert(q.bins[b] == p.bins[b]);
                        }
                    }
                }
            }
            if in_some_bin(q, k) {
                let b = choose|b: int| 0 <= b < q.bins.len() && #[trigger] q.bins[b].placed.contains_key(k);
                if b != i {
                    assert(q.bins[b] == p.bins[b]);
                    assert(p.bins[b].placed.contains_key(k));
                } else if k != idx {
                    assert(p.bins[b].placed.contains_key(k));
                }
            }
        }
        assert forall|b1: int, b2: int, k: usize|
            0 <= b1 < q.bins.len() && 0 <= b2 < q.bins.len() && b1 != b2
                && #[trigger] q.bins[b1].placed.contains_key(k)
                implies !#[trigger] q.bins[b2].placed.contains_key(k) by {
            if q.bins[b2].placed.contains_key(k) {
                if k == idx {
                    if b1 != i {
                        assert(q.bins[b1] == p.bins[b1]);
                        assert(in_some_bin(p, idx));
                    } else {
                        assert(q.bins[b2] == p.bins[b2]);
                        assert(in_some_bin(p, idx));
                    }
                } else {
                    assert(p.bins[b1].placed.contains_key(k));
                    assert(p.bins[b2].placed.contains_key(k));
                }
            }
        }
        assert forall|k: usize| in_some_bin(q, k) implies !q.unplaced.contains(k) by {
            let b = choose|b: int| 0 <= b < q.bins.len() && #[trigger] q.bins[b].placed.contains_key(k);
            if k == idx {
                if p.unplaced.contains(idx) {
                    let t = choose|t: int| 0 <= t < p.unplaced.len() && p.unplaced[t] == idx;
                    assert(init.contains(p.unplaced[t]));
                }
            } else {
                if b != i {
                    assert(q.bins[b] == p.bins[b]);
                }
                assert(p.bins[b].placed.contains_key(k));
                assert(in_some_bin(p, k));
            }
        }
    }
}


/// What `init.push(idx)` contains, and what it repeats.
proof fn lemma_order_push(init: Seq<usize>, idx: usize)
    ensures
        init.push(idx).contains(idx),
        forall|k: usize| #[trigger] init.push(idx).contains(k) <==> (init.contains(k) || k == idx),
        init.push(idx).no_duplicates() ==> init.no_duplicates() && !init.contains(idx),
{
    let order = init.push(idx);
    assert(order[init.len() as int] == idx);
    assert forall|k: usize| order.contains(k) <==> (init.contains(k) || k == idx) by {
        if init.contains(k) {
            let t = choose|t: int| 0 <= t < init.len() && init[t] == k;
            assert(order[t] == k);
        }
        if order.contains(k) {
            let t = choose|t: int| 0 <= t < order.len() && order[t] == k;
            if t < init.len() {
                assert(init[t] == k);
            }
        }
    }
    if order.no_duplicates() {
        assert forall|a: int, b: int| 0 <= a < init.len() && 0 <= b < init.len() && a != b implies init[a] != init[b] by {
            assert(order[a] == init[a] && order[b] == init[b]);
        }
        if init.contains(idx) {
            let t = choose|t: int| 0 <= t < init.len() && init[t] == idx;
            assert(order[t] == order[init.len() as int]);
        }
    }
}

/// Item `idx` went into a new bin `c2`: the laws still hold.
proof fn lemma_step_new(
    p: PackingView,
    items: Seq<Item>,
    g: Map<usize, Set<usize>>,
    width: u32,
    height: u32,
    init: Seq<usize>,
    idx: usize,
    forced: Option<Seq<bool>>,
)
    requires
        packing_laws(p, items, g, width, height, init, forced),
        try_item(empty_container(width, height), items, g, idx, forced) is Some,
    ensures
        packing_laws(
            PackingView {
                bins: p.bins.push(
                    (try_item(empty_container(width, height), items, g, idx, forced)->0).1,
                ),
                unplaced: p.unplaced,
            },
            items,
            g,
            width,
            height,
            init.push(idx),
            forced,
        ),
{
    let order = init.push(idx);
    let e = empty_container(width, height);
    let c2 = (try_item(e, items, g, idx, forced)->0).1;
    lemma_try_item(e, items, g, idx, forced);
    lemma_order_push(init, idx);
    let q = PackingView { bins: p.bins.push(c2), unplaced: p.unplaced };
    let n = p.bins.len() as int;
    assert forall|k: usize| #[trigger] c2.placed.contains_key(k) implies k == idx by {}
    assert forall|b: int| 0 <= b < q.bins.len() implies (#[trigger] q.bins[b]).width == width
        && q.bins[b].height == height && exists|k: usize| q.bins[b].placed.contains_key(k) by {
        if b == n {
            assert(q.bins[b].placed.contains_key(idx));
        } else {
            assert(q.bins[b] == p.bins[b]);
        }
    }
    assert forall|b: int, k: usize|
        0 <= b < q.bins.len() && #[trigger] q.bins[b].placed.contains_key(k) implies {
        &&& order.contains(k)
        &&& footprint_matches(items[k as int], q.bins[b].placed[k])
        &&& (forced matches Some(rot) ==> q.bins[b].placed[k].rotated == rot[k as int])
        &&& fits_empty_bin(items[k as int], width, height, forced_for(forced, k))
    } by {
        if b != n {
            assert(q.bins[b] == p.bins[b]);
            assert(p.bins[b].placed.contains_key(k));
        } else {
            assert(q.bins[b] == c2);
            assert(k == idx);
            assert(order.contains(idx));
        }
    }
    if is_symmetric(g) {
        assert forall|b: int, k1: usize, k2: usize|
            0 <= b < q.bins.len() && #[trigger] q.bins[b].placed.contains_key(k1)
                && #[trigger] q.bins[b].placed.contains_key(k2) && k1 != k2 implies !adjacent(g, k1).contains(
            k2,
        ) by {
            if b != n {
                assert(q.bins[b] == p.bins[b]);
                assert(p.bins[b].placed.contains_key(k1) && p.bins[b].placed.contains_key(k2));
            }
        }
    }
    if order.no_duplicates() {
        assert(!in_some_bin(p, idx)) by {
            if in_some_bin(p, idx) {
                let b = choose|b: int| 0 <= b < p.bins.len() && #[trigger] p.bins[b].placed.contains_key(idx);
            }
        }
        assert forall|k: usize| #[trigger] order.contains(k) <==> (in_some_bin(q, k) || q.unplaced.contains(k)) by {
            if order.contains(k) {
                if k == idx {
                    assert(q.bins[n].placed.contains_key(idx));
                } else {
                    assert(init.contains(k));
                    if in_some_bin(p, k) {
                        let b = choose|b: int| 0 <= b < p.bins.len() && #[trigger] p.bins[b].placed.contains_key(k);
                        assert(q.bins[b] == p.bins[b]);
                    }
                }
            }
            if in_some_bin(q, k) {
                let b = choose|b: int| 0 <= b < q.bins.len() && #[trigger] q.bins[b].placed.contains_key(k);
                if b != n {
                    assert(q.bins[b] == p.bins[b]);
                    assert(p.bins[b].placed.contains_key(k));
                }
            }
        }
        assert forall|b1: int, b2: int, k: usize|
            0 <= b1 < q.bins.len() && 0 <= b2 < q.bins.len() && b1 != b2
                && #[trigger] q.bins[b1].placed.contains_key(k)
                implies !#[trigger] q.bins[b2].placed.contains_key(k) by {
            if q.bins[b2].placed.contains_key(k) {
                if b1 == n {
                    assert(q.bins[b2] == p.bins[b2]);
                    assert(in_some_bin(p, idx));
                } else if b2 == n {
                    assert(q.bins[b1] == p.bins[b1]);
                    assert(in_some_bin(p, idx));
                } else {
                    assert(q.bins[b1] == p.bins[b1]);
                    assert(q.bins[b2] == p.bins[b2]);
                }
            }
        }
        assert forall|k: usize| in_some_bin(q, k) implies !q.unplaced.contains(k) by {
            let b = choose|b: int| 0 <= b < q.bins.len() && #[trigger] q.bins[b].placed.contains_key(k);
            if b == n {
                if p.unplaced.contains(idx) {
                    let t = choose|t: int| 0 <= t < p.unplaced.len() && p.unplaced[t] == idx;
                    assert(init.contains(p.unplaced[t]));
                }
            } else {
                assert(q.bins[b] == p.bins[b]);
                assert(in_some_bin(p, k));
            }
        }
    }
}

/// Item `idx` could not be placed even in a new bin: the laws still hold.
proof fn lemma_step_unplaced(
    p: PackingView,
    items: Seq<Item>,
    g: Map<usize, Set<usize>>,
    width: u32,
    height: u32,
    init: Seq<usize>,
    idx: usize,
    forced: Option<Seq<bool>>,
)
    requires
        packing_laws(p, items, g, width, height, init, forced),
        first_fit(p.bins, 0, items, g, idx, forced) is None,
        try_item(empty_container(width, height), items, g, idx, forced) is None,
    ensures
        packing_laws(
            PackingView { bins: p.bins, unplaced: p.unplaced.push(idx) },
            items,
            g,
            width,
            height,
            init.push(idx),
            forced,
        ),
{
    let order = init.push(idx);
    let e = empty_container(width, height);
    lemma_try_item(e, items, g, idx, forced);
    lemma_order_push(init, idx);
    let q = PackingView { bins: p.bins, unplaced: p.unplaced.push(idx) };
    let n = p.unplaced.len() as int;
    assert forall|i: int| 0 <= i < q.unplaced.len() implies order.contains(#[trigger] q.unplaced[i])
        && !fits_empty_bin(
        items[q.unplaced[i] as int],
        width,
        height,
        forced_for(forced, q.unplaced[i]),
    ) by {
        if i < n {
            assert(q.unplaced[i] == p.unplaced[i]);
        }
    }
    assert forall|b: int, k: usize|
        0 <= b < q.bins.len() && #[trigger] q.bins[b].placed.contains_key(k) implies order.contains(k) by {
    }
    if order.no_duplicates() {
        assert(!in_some_bin(p, idx)) by {
            if in_some_bin(p, idx) {
                let b = choose|b: int| 0 <= b < p.bins.len() && #[trigger] p.bins[b].placed.contains_key(idx);
            }
        }
        assert(!p.unplaced.contains(idx)) by {
            if p.unplaced.contains(idx) {
                let t = choose|t: int| 0 <= t < p.unplaced.len() && p.unplaced[t] == idx;
                assert(init.contains(p.unplaced[t]));
            }
        }
        assert forall|k: usize| q.unplaced.contains(k) <==> (p.unplaced.contains(k) || k == idx) by {
            if p.unplaced.contains(k) {
                let t = choose|t: int| 0 <= t < p.unplaced.len() && p.unplaced[t] == k;
                assert(q.unplaced[t] == k);
            }
            if q.unplaced.contains(k) {
                let t = choose|t: int| 0 <= t < q.unplaced.len() && q.unplaced[t] == k;
                if t < n {
                    assert(p.unplaced[t] == k);
                }
            }
            assert(q.unplaced[n] == idx);
        }
        assert forall|a: int, b: int| 0 <= a < q.unplaced.len() && 0 <= b < q.unplaced.len() && a != b implies q.unplaced[a] != q.unplaced[b] by {
            if a < n && b < n {
            } else if a == n {
                assert(p.unplaced.contains(q.unplaced[b]));
            } else {
                assert(p.unplaced.contains(q.unplaced[a]));
            }
        }
        assert forall|k: usize| #[trigger] order.contains(k) <==> (in_some_bin(q, k) || q.unplaced.contains(k)) by {
            assert(order.contains(k) <==> (init.contains(k) || k == idx));
            assert(init.contains(k) <==> (in_some_bin(p, k) || p.unplaced.contains(k)));
            assert(q.unplaced.contains(k) <==> (p.unplaced.contains(k) || k == idx));
            if in_some_bin(q, k) {
                assert(in_some_bin(p, k));
            }
            if in_some_bin(p, k) {
                let b = choose|b: int| 0 <= b < p.bins.len() && #[trigger] p.bins[b].placed.contains_key(k);
                assert(q.bins[b].placed.contains_key(k));
            }
        }
        assert forall|k: usize| in_some_bin(q, k) implies !q.unplaced.contains(k) by {
            assert(in_some_bin(p, k));
        }
    }
}

/// Packing item `idx` into `p` gave `q` by first fit over all the open bins:
/// either some open bin `b` took it, every bin before `b` refused it, and
/// only bin `b` changed, to what the insertion made of it; or every open bin
/// refused it and a new bin, an empty one that took it, was added after the
/// others; or every open bin and an empty bin refused it, and it was added
/// to the unplaced items.
pub open spec fn first_fit_step(
    p: PackingView,
    q: PackingView,
    items: Seq<Item>,
    g: Map<usize, Set<usize>>,
    width: u32,
    height: u32,
    idx: usize,
    forced: Option<Seq<bool>>,
) -> bool {
    ||| exists|b: int|
        #![trigger try_item(p.bins[b], items, g, idx, forced)]
        0 <= b < p.bins.len() && (forall|j: int|
            0 <= j < b ==> (#[trigger] try_item(p.bins[j], items, g, idx, forced)) is None) && (try_item(
            p.bins[b],
            items,
            g,
            idx,
            forced,
        ) matches Some((_, c)) && q.bins == p.bins.update(b, c)) && q.unplaced == p.unplaced
    ||| (forall|j: int|
        0 <= j < p.bins.len() ==> (#[trigger] try_item(p.bins[j], items, g, idx, forced)) is None) && (try_item(
        empty_container(width, height),
        items,
        g,
        idx,
        forced,
    ) matches Some((_, c)) && q.bins == p.bins.push(c)) && q.unplaced == p.unplaced
    ||| (forall|j: int|
        0 <= j < p.bins.len() ==> (#[trigger] try_item(p.bins[j], items, g, idx, forced)) is None)
        && try_item(empty_container(width, height), items, g, idx, forced) is None && q.bins
        == p.bins && q.unplaced == p.unplaced.push(idx)
}

/// Each item of the order is packed by first fit over all the bins open at
/// that moment: from the packing of the items before it to the packing with
/// it, the step is a first-fit step.
pub proof fn lemma_pack_first_fit(
    items: Seq<Item>,
    g: Map<usize, Set<usize>>,
    width: u32,
    height: u32,
    order: Seq<usize>,
    forced: Option<Seq<bool>>,
)
    ensures
        forall|t: int|
            0 <= t < order.len() ==> first_fit_step(
                #[trigger] pack(items, g, width, height, order.take(t), forced),
                pack(items, g, width, height, order.take(t + 1), forced),
                items,
                g,
                width,
                height,
                order[t],
                forced,
            ),
{
    assert forall|t: int| 0 <= t < order.len() implies first_fit_step(
        #[trigger] pack(items, g, width, height, order.take(t), forced),
        pack(items, g, width, height, order.take(t + 1), forced),
        items,
        g,
        width,
        height,
        order[t],
        forced,
    ) by {
        let pre = order.take(t + 1);
        assert(pre.drop_last() == order.take(t));
        assert(pre.last() == order[t]);
        let p = pack(items, g, width, height, order.take(t), forced);
        let idx = order[t];
        lemma_first_fit(p.bins, 0, items, g, idx, forced);
        if first_fit(p.bins, 0, items, g, idx, forced) is Some {
            let b = choose|b: int|
                0 <= b < p.bins.len() && (#[trigger] try_item(p.bins[b], items, g, idx, forced)) is Some
                    && first_fit(p.bins, 0, items, g, idx, forced)->0 == p.bins.update(
                    b,
                    (try_item(p.bins[b], items, g, idx, forced)->0).1,
                ) && forall|j: int| 0 <= j < b ==> (#[trigger] try_item(p.bins[j], items, g, idx, forced)) is None;
            assert(try_item(p.bins[b], items, g, idx, forced) is Some);
        }
    }
}

/// Every packing that first fit builds from an order satisfies the packing
/// laws.
pub proof fn lemma_pack_laws(
    items: Seq<Item>,
    g: Map<usize, Set<usize>>,
    width: u32,
    height: u32,
    order: Seq<usize>,
    forced: Option<Seq<bool>>,
)
    requires
        order_in_range(items, order, forced),
    ensures
        packing_laws(pack(items, g, width, height, order, forced), items, g, width, height, order, forced),
    decreases order.len(),
{
    if order.len() > 0 {
        let init = order.drop_last();
        let idx = order.last();
        assert(init.push(idx) == order);
        assert(order_in_range(items, init, forced)) by {
            assert forall|t: int| 0 <= t < init.len() implies (#[trigger] init[t]) < items.len() by {
                assert(init[t] == order[t]);
            }
        }
        lemma_pack_laws(items, g, width, height, init, forced);
        let p = pack(items, g, width, height, init, forced);
        lemma_first_fit(p.bins, 0, items, g, idx, forced);
        match first_fit(p.bins, 0, items, g, idx, forced) {
            Some(nb) => {
                let i = choose|i: int|
                    0 <= i < p.bins.len() && (#[trigger] try_item(p.bins[i], items, g, idx, forced)) is Some
                        && nb == p.bins.update(i, (try_item(p.bins[i], items, g, idx, forced)->0).1);
                lemma_step_fit(p, items, g, width, height, init, idx, forced, i);
            },
            None => {
                if try_item(empty_container(width, height), items, g, idx, forced) is Some {
                    lemma_step_new(p, items, g, width, height, init, idx, forced);
                } else {
                    lemma_step_unplaced(p, items, g, width, height, init, idx, forced);
                }
            },
        }
    }
}


/// When the order repeats no item, an item of the order is unplaced exactly
/// when an empty bin does not take it.
pub proof fn lemma_unplaced_exactly(
    p: PackingView,
    items: Seq<Item>,
    g: Map<usize, Set<usize>>,
    width: u32,
    height: u32,
    order: Seq<usize>,
    forced: Option<Seq<bool>>,
)
    requires
        packing_laws(p, items, g, width, height, order, forced),
        order.no_duplicates(),
    ensures
        forall|k: usize|
            #[trigger] order.contains(k) ==> (p.unplaced.contains(k) <==> !fits_empty_bin(
                items[k as int],
                width,
                height,
                forced_for(forced, k),
            )),
{
    assert forall|k: usize| #[trigger] order.contains(k) implies (p.unplaced.contains(k) <==> !fits_empty_bin(
        items[k as int],
        width,
        height,
        forced_for(forced, k),
    )) by {
        if p.unplaced.contains(k) {
            let i = choose|i: int| 0 <= i < p.unplaced.len() && p.unplaced[i] == k;
            assert(order.contains(p.unplaced[i]));
        } else {
            assert(in_some_bin(p, k));
            let b = choose|b: int| 0 <= b < p.bins.len() && #[trigger] p.bins[b].placed.contains_key(k);
        }
    }
}

/// The orientations forced by `rotated`, as values.
pub open spec fn forced_of(rotated: Option<&Vec<bool>>) -> Option<Seq<bool>> {
    match rotated {
        None => None,
        Some(r) => Some(r@),
    }
}

/// Insert item `idx` into `bin`: in its forced orientation when `rotated`
/// is given, else either way.
fn insert_into(bin: &mut Container, instance: &Instance, idx: usize, rotated: Option<&Vec<bool>>) -> (placed: bool)
    requires
        idx < instance.items.len(),
        rotated matches Some(r) ==> idx < r.len(),
    ensures
        match try_item(old(bin)@, instance.items@, instance.conflicts@, idx, forced_of(rotated)) {
            Some((_, c)) => placed && final(bin)@ == c,
            None => !placed && final(bin)@ == old(bin)@,
        },
{
    let item = instance.items[idx];
    let r = match rotated {
        None => bin.try_insert(&item, idx, &instance.conflicts),
        Some(rot) => bin.try_insert_oriented(&item, idx, rot[idx], &instance.conflicts),
    };
    r.is_some()
}

/// Pack the items in `order`: first fit over the open bins, a new bin when
/// none takes the item, unplaced when not even a new bin does.
pub(crate) fn pack_in_order(instance: &Instance, order: &Vec<usize>, rotated: Option<&Vec<bool>>) -> (sol:
    Solution)
    requires
        order_in_range(instance.items@, order@, forced_of(rotated)),
    ensures
        sol@ == pack(
            instance.items@,
            instance.conflicts@,
            instance.width,
            instance.height,
            order@,
            forced_of(rotated),
        ),
{
    let ghost items = instance.items@;
    let ghost g = instance.conflicts@;
    let ghost forced = forced_of(rotated);
    let mut bins: Vec<Container> = Vec::new();
    let mut unplaced: Vec<usize> = Vec::new();
    let n = order.len();
    assert(order@.take(0) =~= Seq::<usize>::empty());
    assert(bins@.map_values(|c: Container| c@) =~= Seq::<ContainerView>::empty());
    for t in 0..n
        invariant
            n == order.len(),
            items == instance.items@,
            g == instance.conflicts@,
            forced == forced_of(rotated),
            order_in_range(items, order@, forced),
            (PackingView { bins: bins@.map_values(|c: Container| c@), unplaced: unplaced@ }) == pack(
                items,
                g,
                instance.width,
                instance.height,
                order@.take(t as int),
                forced,
            ),
    {
        let idx = order[t];
        let ghost start = bins@.map_values(|c: Container| c@);
        let mut placed = false;
        let mut b: usize = 0;
        while b < bins.len() && !placed
            invariant
                b <= bins.len(),
                bins.len() == start.len(),
                idx < instance.items.len(),
                items == instance.items@,
                g == instance.conflicts@,
                forced == forced_of(rotated),
                rotated matches Some(r) ==> idx < r.len(),
                !placed ==> bins@.map_values(|c: Container| c@) == start && first_fit(
                    start,
                    0,
                    items,
                    g,
                    idx,
                    forced,
                ) == first_fit(start, b as int, items, g, idx, forced),
                placed ==> first_fit(start, 0, items, g, idx, forced) == Some(
                    bins@.map_values(|c: Container| c@),
                ),
            decreases bins.len() - b,
        {
            let ghost before = bins@;
            let ok = insert_into(&mut bins[b], instance, idx, rotated);
            proof {
                assert(bins@.map_values(|c: Container| c@) =~= before.map_values(|c: Container| c@).update(
                    b as int,
                    bins@[b as int]@,
                ));
                if !ok {
                    assert(bins@.map_values(|c: Container| c@) =~= start);
                }
            }
            if ok {
                placed = true;
            }
            b = b + 1;
        }
        let ghost mid = bins@.map_values(|c: Container| c@);
        if !placed {
            let mut bin = Container::new(instance.width, instance.height);
            if insert_into(&mut bin, instance, idx, rotated) {
                bins.push(bin);
                assert(bins@.map_values(|c: Container| c@) =~= mid.push(bin@));
            } else {
                unplaced.push(idx);
            }
        }
        assert(order@.take(t + 1).drop_last() == order@.take(t as int));
    }
    assert(order@.take(n as int) == order@);
    Solution { bins, unplaced }
}

/// The cost a packing is judged by: its bins, plus `num_items + 1` for every
/// unplaced item.
pub open spec fn penalized_cost(bins: int, unplaced: int, num_items: int) -> int {
    bins + unplaced * (num_items + 1)
}

/// Each unplaced item is penalized more than any feasible packing could cost
/// (a feasible packing uses at most `num_items` bins), so a packing that
/// leaves an item unplaced always costs more than one that places every item
/// in at most `num_items` bins.
pub proof fn lemma_feasibility_dominates(bins1: nat, unplaced1: nat, bins2: nat, num_items: nat)
    requires
        unplaced1 >= 1,
        bins2 <= num_items,
    ensures
        penalized_cost(bins1 as int, unplaced1 as int, num_items as int) > penalized_cost(
            bins2 as int,
            0,
            num_items as int,
        ),
{
    assert(unplaced1 * (num_items + 1) >= num_items + 1) by (nonlinear_arith)
        requires
            unplaced1 >= 1,
    ;
}

impl Solution {
    pub fn bins_used(&self) -> (r: usize)
        ensures
            r == self.bins.len(),
    {
        self.bins.len()
    }

    /// The bins used, plus `num_items + 1` for every unplaced item: the cost
    /// the metaheuristic minimizes.
    pub fn penalized_bins(&self, num_items: usize) -> (r: usize)
        requires
            penalized_cost(self.bins.len() as int, self.unplaced.len() as int, num_items as int)
                <= usize::MAX,
        ensures
            r == penalized_cost(self.bins.len() as int, self.unplaced.len() as int, num_items as int),
    {
        let u = self.unplaced.len();
        if u == 0 {
            assert(u * (num_items + 1) == 0) by (nonlinear_arith)
                requires
                    u == 0,
            ;
            return self.bins.len();
        }
        assert(u * (num_items + 1) >= num_items + 1) by (nonlinear_arith)
            requires
                u >= 1,
        ;
        let per = num_items + 1;
        assert(u * per <= usize::MAX);
        self.bins.len() + u * per
    }
}

/// Decode an insertion order with forced orientations into a packing.
///
/// Items are inserted in `decoded.order` with the orientation
/// `decoded.rotated` gives them, using first-fit across the open bins
/// (honoring conflicts via `Container::try_insert_oriented`); a new bin is
/// opened when no open bin accepts the item. An item that cannot fit even a
/// fresh, empty bin in its forced orientation is recorded in `unplaced`.
pub fn pack_decoded(instance: &Instance, decoded: &Decoded) -> (sol: Solution)
    requires
        forall|t: int| 0 <= t < decoded.order.len() ==> (#[trigger] decoded.order@[t]) < instance.items.len(),
        decoded.rotated.len() == instance.items.len(),
    ensures
        sol@ == pack(
            instance.items@,
            instance.conflicts@,
            instance.width,
            instance.height,
            decoded.order@,
            Some(decoded.rotated@),
        ),
        forall|b: int| 0 <= b < sol@.bins.len() ==> (#[trigger] sol@.bins[b]).inv(),
        packing_laws(
            sol@,
            instance.items@,
            instance.conflicts@,
            instance.width,
            instance.height,
            decoded.order@,
            Some(decoded.rotated@),
        ),
        decoded.order@.no_duplicates() ==> forall|k: usize|
            #[trigger] decoded.order@.contains(k) ==> (sol@.unplaced.contains(k) <==> !fits_empty_bin(
                instance.items@[k as int],
                instance.width,
                instance.height,
                Some(decoded.rotated@[k as int]),
            )),
{
    let sol = pack_in_order(instance, &decoded.order, Some(&decoded.rotated));
    proof {
        lemma_pack_laws(
            instance.items@,
            instance.conflicts@,
            instance.width,
            instance.height,
            decoded.order@,
            Some(decoded.rotated@),
        );
        if decoded.order@.no_duplicates() {
            lemma_unplaced_exactly(
                sol@,
                instance.items@,
                instance.conflicts@,
                instance.width,
                instance.height,
                decoded.order@,
                Some(decoded.rotated@),
            );
        }
    }
    sol
}

} // verus!
