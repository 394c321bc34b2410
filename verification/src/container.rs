//! A single bin: bottom-left placement over a list of empty maximal spaces.
use std::collections::HashMap;
use vstd::prelude::*;

use crate::conflict_graph::{adjacent, ConflictGraph};
use crate::ems::{lower_left, Ems, Point};
use crate::item::Item;

verus! {

broadcast use vstd::std_specs::hash::group_hash_axioms;

/// Where an item went: its origin, the rectangle it occupies, and whether it
/// was turned by 90 degrees.
#[derive(Clone, Copy, Debug, PartialEq, Eq, Structural)]
pub struct Placement {
    pub origin: Point,
    pub rect: Ems,
    pub rotated: bool,
}

/// A bin of `width` by `height`, the empty maximal spaces left in it, and the
/// items placed in it, keyed by item index (one placement per item).
pub struct Container {
    width: u32,
    height: u32,
    free: Vec<Ems>,
    placed: HashMap<usize, Placement>,
}

/// What a container holds, as mathematical values.
pub struct ContainerView {
    pub width: u32,
    pub height: u32,
    pub free: Seq<Ems>,
    pub placed: Map<usize, Placement>,
}

/// The whole area of a `width` by `height` bin.
pub open spec fn whole(width: u32, height: u32) -> Ems {
    Ems { min: Point { x: 0, y: 0 }, max: Point { x: width, y: height } }
}

/// A bin with nothing in it.
pub open spec fn empty_container(width: u32, height: u32) -> ContainerView {
    ContainerView {
        width,
        height,
        free: seq![whole(width, height)],
        placed: Map::empty(),
    }
}

/// The rectangle of a `w` by `h` item with its lower-left corner at `o`.
pub open spec fn occupied(o: Point, w: u32, h: u32) -> Ems {
    Ems { min: o, max: Point { x: (o.x + w) as u32, y: (o.y + h) as u32 } }
}

/// Space `e` takes a `w` by `h` item, or, when `either`, that item turned.
pub open spec fn accepts(e: Ems, w: u32, h: u32, either: bool) -> bool {
    e.spec_fits(w as int, h as int) || (either && e.spec_fits(h as int, w as int))
}

/// Some space of `free` takes the item.
pub open spec fn any_accepts(free: Seq<Ems>, w: u32, h: u32, either: bool) -> bool {
    exists|i: int| 0 <= i < free.len() && accepts(#[trigger] free[i], w, h, either)
}

/// `o` is the corner of a space that takes the item, and no such space has a
/// corner lower (or equally low and further left).
pub open spec fn is_lowest_origin(free: Seq<Ems>, w: u32, h: u32, either: bool, o: Point) -> bool {
    &&& exists|i: int|
        0 <= i < free.len() && accepts(#[trigger] free[i], w, h, either) && free[i].min == o
    &&& forall|i: int|
        0 <= i < free.len() && accepts(#[trigger] free[i], w, h, either) ==> !lower_left(
            free[i].min,
            o,
        )
}

/// The bottom-left origin for the item among the spaces of `free`, if any
/// space takes it.
pub open spec fn lowest_origin(free: Seq<Ems>, w: u32, h: u32, either: bool) -> Option<Point> {
    if any_accepts(free, w, h, either) {
        Some(choose|o: Point| is_lowest_origin(free, w, h, either, o))
    } else {
        None
    }
}

/// The spaces left of `e` once `r` is taken out of it: `e` itself when they
/// do not overlap, else the slabs of `e` left of, right of, below and above `r`.
pub open spec fn slabs(e: Ems, r: Ems) -> Seq<Ems> {
    if !e.spec_intersects(r) {
        seq![e]
    } else {
        (if r.min.x > e.min.x {
            seq![Ems { min: e.min, max: Point { x: r.min.x, y: e.max.y } }]
        } else {
            Seq::empty()
        }) + (if r.max.x < e.max.x {
            seq![Ems { min: Point { x: r.max.x, y: e.min.y }, max: e.max }]
        } else {
            Seq::empty()
        }) + (if r.min.y > e.min.y {
            seq![Ems { min: e.min, max: Point { x: e.max.x, y: r.min.y } }]
        } else {
            Seq::empty()
        }) + (if r.max.y < e.max.y {
            seq![Ems { min: Point { x: e.min.x, y: r.max.y }, max: e.max }]
        } else {
            Seq::empty()
        })
    }
}

/// The slabs of every space of `free` around `r`, in order.
pub open spec fn split_all(free: Seq<Ems>, r: Ems) -> Seq<Ems>
    decreases free.len(),
{
    if free.len() == 0 {
        Seq::empty()
    } else {
        split_all(free.drop_last(), r) + slabs(free.last(), r)
    }
}

pub open spec fn has_area(e: Ems) -> bool {
    e.min.x < e.max.x && e.min.y < e.max.y
}

/// The spaces of `s` with a positive area, in order.
pub open spec fn with_area(s: Seq<Ems>) -> Seq<Ems>
    decreases s.len(),
{
    if s.len() == 0 {
        Seq::empty()
    } else if has_area(s.last()) {
        with_area(s.drop_last()).push(s.last())
    } else {
        with_area(s.drop_last())
    }
}

/// `s[i]` lies inside another space of `s`, or repeats an earlier one.
pub open spec fn dominated(s: Seq<Ems>, i: int) -> bool {
    exists|j: int|
        0 <= j < s.len() && j != i && s[i].spec_contained_in(#[trigger] s[j]) && (s[i] != s[j]
            || i > j)
}

/// The spaces among the first `n` of `s` that are not dominated, in order.
pub open spec fn undominated(s: Seq<Ems>, n: nat) -> Seq<Ems>
    decreases n,
{
    if n == 0 {
        Seq::empty()
    } else if dominated(s, n - 1) {
        undominated(s, (n - 1) as nat)
    } else {
        undominated(s, (n - 1) as nat).push(s[n - 1])
    }
}

/// Keep the spaces of positive area that are maximal: none inside another,
/// each once.
pub open spec fn prune(s: Seq<Ems>) -> Seq<Ems> {
    undominated(with_area(s), with_area(s).len())
}

impl ContainerView {
    /// The container after the `w` by `h` item `index` is put at `o`.
    pub open spec fn after_placing(self, index: usize, o: Point, w: u32, h: u32, rotated: bool) -> ContainerView {
        ContainerView {
            width: self.width,
            height: self.height,
            free: prune(split_all(self.free, occupied(o, w, h))),
            placed: self.placed.insert(
                index,
                Placement { origin: o, rect: occupied(o, w, h), rotated },
            ),
        }
    }

    /// Placing item `index` in the orientation given by `rotated`: the origin
    /// and the new container, or `None` when the index is already placed or
    /// no space takes the item.
    pub open spec fn place_oriented_result(self, item: Item, index: usize, rotated: bool) -> Option<
        (Point, ContainerView),
    > {
        let (w, h) = item.dims(rotated);
        if self.placed.contains_key(index) {
            None
        } else {
            match lowest_origin(self.free, w, h, false) {
                None => None,
                Some(o) => Some((o, self.after_placing(index, o, w, h, rotated))),
            }
        }
    }

    /// Placing item `index` upright or turned, whichever gives the lower
    /// origin; upright when both give the same.
    pub open spec fn place_result(self, item: Item, index: usize) -> Option<(Point, ContainerView)> {
        if self.placed.contains_key(index) {
            None
        } else {
            match lowest_origin(self.free, item.width, item.height, true) {
                None => None,
                Some(o) => {
                    let upright = is_lowest_origin(self.free, item.width, item.height, false, o);
                    let (w, h) = item.dims(!upright);
                    Some((o, self.after_placing(index, o, w, h, w != item.width)))
                },
            }
        }
    }

    /// A neighbor of `index` in `g` is already in this container.
    pub open spec fn blocked(self, g: Map<usize, Set<usize>>, index: usize) -> bool {
        exists|n: usize| adjacent(g, index).contains(n) && #[trigger] self.placed.contains_key(n)
    }

    pub open spec fn try_insert_result(self, item: Item, index: usize, g: Map<usize, Set<usize>>) -> Option<
        (Point, ContainerView),
    > {
        if self.blocked(g, index) {
            None
        } else {
            self.place_result(item, index)
        }
    }

    pub open spec fn try_insert_oriented_result(
        self,
        item: Item,
        index: usize,
        rotated: bool,
        g: Map<usize, Set<usize>>,
    ) -> Option<(Point, ContainerView)> {
        if self.blocked(g, index) {
            None
        } else {
            self.place_oriented_result(item, index, rotated)
        }
    }

    /// `q` is an empty rectangle of the bin: it has an area, lies in the bin
    /// and overlaps no placed item.
    pub open spec fn is_empty_area(self, q: Ems) -> bool {
        &&& has_area(q)
        &&& q.within(self.width as int, self.height as int)
        &&& forall|k: usize|
            #[trigger] self.placed.contains_key(k) ==> !q.spec_intersects(self.placed[k].rect)
    }

    /// Every empty rectangle of the bin lies inside a free space, so the free
    /// spaces are the maximal empty rectangles of the bin.
    pub open spec fn free_is_maximal(self) -> bool {
        forall|q: Ems| #[trigger] self.is_empty_area(q) ==> some_contains(self.free, q)
    }

    /// The free spaces and the placed items lie in the bin, each placement at
    /// its rectangle's lower-left corner; no two placed items overlap; no free space overlaps a placed item; the free spaces are
    /// distinct and none lies inside another.
    pub open spec fn inv(self) -> bool {
        &&& forall|i: int|
            0 <= i < self.free.len() ==> (#[trigger] self.free[i]).within(
                self.width as int,
                self.height as int,
            )
        &&& self.free.no_duplicates()
        &&& forall|i: int, j: int|
            0 <= i < self.free.len() && 0 <= j < self.free.len() && i != j
                ==> !(#[trigger] self.free[i]).spec_contained_in(#[trigger] self.free[j])
        &&& forall|k: usize|
            #[trigger] self.placed.contains_key(k) ==> self.placed[k].rect.within(
                self.width as int,
                self.height as int,
            ) && self.placed[k].origin == self.placed[k].rect.min
        &&& forall|k1: usize, k2: usize|
            #[trigger] self.placed.contains_key(k1) && #[trigger] self.placed.contains_key(k2)
                && k1 != k2 ==> !self.placed[k1].rect.spec_intersects(self.placed[k2].rect)
        &&& forall|i: int, k: usize|
            0 <= i < self.free.len() && #[trigger] self.placed.contains_key(k)
                ==> !(#[trigger] self.free[i]).spec_intersects(self.placed[k].rect)
    }
}


/// A rectangle inside `e` overlaps nothing that `e` does not overlap.
proof fn lemma_inside_disjoint(x: Ems, e: Ems, p: Ems)
    requires
        x.spec_contained_in(e),
        !e.spec_intersects(p),
    ensures
        !x.spec_intersects(p),
        !p.spec_intersects(x),
{
}

/// The slabs of a valid space are valid, lie inside it and miss `r`.
proof fn lemma_slabs(e: Ems, r: Ems)
    requires
        e.is_valid(),
    ensures
        forall|k: int|
            0 <= k < slabs(e, r).len() ==> {
                let x = #[trigger] slabs(e, r)[k];
                &&& x.is_valid()
                &&& !x.spec_intersects(r)
                &&& x.spec_contained_in(e)
            },
{
    let left = if r.min.x > e.min.x {
        seq![Ems { min: e.min, max: Point { x: r.min.x, y: e.max.y } }]
    } else {
        Seq::<Ems>::empty()
    };
    let right = if r.max.x < e.max.x {
        seq![Ems { min: Point { x: r.max.x, y: e.min.y }, max: e.max }]
    } else {
        Seq::<Ems>::empty()
    };
    let bottom = if r.min.y > e.min.y {
        seq![Ems { min: e.min, max: Point { x: e.max.x, y: r.min.y } }]
    } else {
        Seq::<Ems>::empty()
    };
    let top = if r.max.y < e.max.y {
        seq![Ems { min: Point { x: e.min.x, y: r.max.y }, max: e.max }]
    } else {
        Seq::<Ems>::empty()
    };
    if e.spec_intersects(r) {
        let s = left + right + bottom + top;
        assert(slabs(e, r) == s);
        assert forall|k: int| 0 <= k < s.len() implies {
            let x = #[trigger] s[k];
            &&& x.is_valid()
            &&& !x.spec_intersects(r)
            &&& x.spec_contained_in(e)
        } by {
            let a = left.len() as int;
            let b = a + right.len();
            let c = b + bottom.len();
            if k < a {
                assert(s[k] == left[k]);
            } else if k < b {
                assert(s[k] == right[k - a]);
            } else if k < c {
                assert(s[k] == bottom[k - b]);
            } else {
                assert(s[k] == top[k - c]);
            }
        }
    }
}

/// Every space of `split_all(free, r)` is valid, misses `r` and lies inside
/// a space of `free`.
proof fn lemma_split_all(free: Seq<Ems>, r: Ems)
    requires
        forall|i: int| 0 <= i < free.len() ==> (#[trigger] free[i]).is_valid(),
    ensures
        forall|k: int|
            0 <= k < split_all(free, r).len() ==> {
                let x = #[trigger] split_all(free, r)[k];
                &&& x.is_valid()
                &&& !x.spec_intersects(r)
                &&& exists|i: int| 0 <= i < free.len() && x.spec_contained_in(#[trigger] free[i])
            },
    decreases free.len(),
{
    if free.len() > 0 {
        let init = free.drop_last();
        lemma_split_all(init, r);
        lemma_slabs(free.last(), r);
        let a = split_all(init, r);
        let b = slabs(free.last(), r);
        assert forall|k: int| 0 <= k < split_all(free, r).len() implies {
            let x = #[trigger] split_all(free, r)[k];
            &&& x.is_valid()
            &&& !x.spec_intersects(r)
            &&& exists|i: int| 0 <= i < free.len() && x.spec_contained_in(#[trigger] free[i])
        } by {
            let x = split_all(free, r)[k];
            if k < a.len() {
                assert(x == a[k]);
                let i = choose|i: int| 0 <= i < init.len() && a[k].spec_contained_in(#[trigger] init[i]);
                assert(init[i] == free[i]);
            } else {
                assert(x == b[k - a.len()]);
                assert(x.spec_contained_in(free[free.len() - 1]));
            }
        }
    }
}

/// Every space of `with_area(s)` has an area and is a space of `s`.
proof fn lemma_with_area(s: Seq<Ems>)
    ensures
        forall|k: int|
            0 <= k < with_area(s).len() ==> has_area(#[trigger] with_area(s)[k]) && s.contains(
                with_area(s)[k],
            ),
    decreases s.len(),
{
    if s.len() > 0 {
        let init = s.drop_last();
        lemma_with_area(init);
        assert forall|k: int| 0 <= k < with_area(s).len() implies has_area(
            #[trigger] with_area(s)[k],
        ) && s.contains(with_area(s)[k]) by {
            if k < with_area(init).len() {
                assert(with_area(s)[k] == with_area(init)[k]);
                let i = choose|i: int| 0 <= i < init.len() && init[i] == with_area(init)[k];
                assert(s[i] == init[i]);
            } else {
                assert(with_area(s)[k] == s[s.len() - 1]);
            }
        }
    }
}

/// The undominated spaces are distinct, each an undominated space of `s`.
proof fn lemma_undominated(s: Seq<Ems>, n: nat)
    requires
        n <= s.len(),
    ensures
        forall|k: int|
            0 <= k < undominated(s, n).len() ==> exists|i: int|
                0 <= i < n && !dominated(s, i) && s[i] == #[trigger] undominated(s, n)[k],
        undominated(s, n).no_duplicates(),
    decreases n,
{
    if n > 0 {
        let m = (n - 1) as nat;
        lemma_undominated(s, m);
        let p = undominated(s, m);
        if !dominated(s, n - 1) {
            let q = p.push(s[n - 1]);
            assert(undominated(s, n) == q);
            assert forall|k: int| 0 <= k < p.len() implies p[k] != s[n - 1] by {
                let i = choose|i: int| 0 <= i < m && !dominated(s, i) && s[i] == #[trigger] p[k];
                if p[k] == s[n - 1] {
                    assert(s[n - 1].spec_contained_in(s[i]));
                    assert(dominated(s, n - 1));
                }
            }
            assert forall|k: int| 0 <= k < q.len() implies exists|i: int|
                0 <= i < n && !dominated(s, i) && s[i] == #[trigger] q[k] by {
                if k < p.len() {
                    assert(q[k] == p[k]);
                } else {
                    assert(q[k] == s[n - 1]);
                }
            }
        }
    }
}

/// `prune` keeps distinct spaces with an area, taken from `s`, none inside
/// another.
proof fn lemma_prune(s: Seq<Ems>)
    ensures
        forall|k: int|
            0 <= k < prune(s).len() ==> has_area(#[trigger] prune(s)[k]) && s.contains(
                prune(s)[k],
            ),
        prune(s).no_duplicates(),
        forall|a: int, b: int|
            0 <= a < prune(s).len() && 0 <= b < prune(s).len() && a != b
                ==> !(#[trigger] prune(s)[a]).spec_contained_in(#[trigger] prune(s)[b]),
{
    let w = with_area(s);
    lemma_with_area(s);
    lemma_undominated(w, w.len());
    let r = prune(s);
    assert forall|k: int| 0 <= k < r.len() implies has_area(#[trigger] r[k]) && s.contains(r[k]) by {
        let i = choose|i: int| 0 <= i < w.len() && !dominated(w, i) && w[i] == #[trigger] r[k];
        assert(has_area(w[i]) && s.contains(w[i]));
    }
    assert forall|a: int, b: int|
        0 <= a < r.len() && 0 <= b < r.len() && a != b implies !(#[trigger] r[a]).spec_contained_in(
        #[trigger] r[b],
    ) by {
        let i = choose|i: int| 0 <= i < w.len() && !dominated(w, i) && w[i] == #[trigger] r[a];
        let j = choose|j: int| 0 <= j < w.len() && !dominated(w, j) && w[j] == #[trigger] r[b];
        assert(r[a] != r[b]);
        if r[a].spec_contained_in(r[b]) {
            assert(w[i].spec_contained_in(w[j]));
            assert(dominated(w, i));
        }
    }
}

/// Two bottom-left origins of the same spaces are the same point.
pub proof fn lemma_lowest_origin_unique(free: Seq<Ems>, w: u32, h: u32, either: bool, o: Point)
    requires
        is_lowest_origin(free, w, h, either, o),
    ensures
        lowest_origin(free, w, h, either) == Some(o),
{
    let i = choose|i: int|
        0 <= i < free.len() && accepts(#[trigger] free[i], w, h, either) && free[i].min == o;
    assert(any_accepts(free, w, h, either));
    let p = choose|p: Point| is_lowest_origin(free, w, h, either, p);
    let j = choose|j: int|
        0 <= j < free.len() && accepts(#[trigger] free[j], w, h, either) && free[j].min == p;
    assert(!lower_left(free[j].min, o));
    assert(!lower_left(free[i].min, p));
}

/// Placing a `w` by `h` item at the corner of a space that takes it keeps the
/// container's invariant.
proof fn lemma_after_placing(
    c: ContainerView,
    index: usize,
    o: Point,
    w: u32,
    h: u32,
    rotated: bool,
    j: int,
)
    requires
        c.inv(),
        0 <= j < c.free.len(),
        c.free[j].min == o,
        c.free[j].spec_fits(w as int, h as int),
    ensures
        c.after_placing(index, o, w, h, rotated).inv(),
        occupied(o, w, h).spec_contained_in(c.free[j]),
        occupied(o, w, h).spec_width() == w,
        occupied(o, w, h).spec_height() == h,
{
    let r = occupied(o, w, h);
    let e = c.free[j];
    assert(e.within(c.width as int, c.height as int));
    assert(r.spec_contained_in(e));
    let s = split_all(c.free, r);
    assert forall|i: int| 0 <= i < c.free.len() implies (#[trigger] c.free[i]).is_valid() by {
        assert(c.free[i].within(c.width as int, c.height as int));
    }
    lemma_split_all(c.free, r);
    lemma_prune(s);
    let n = c.after_placing(index, o, w, h, rotated);
    let f = n.free;
    assert forall|k: int| 0 <= k < f.len() implies {
        &&& (#[trigger] f[k]).within(c.width as int, c.height as int)
        &&& !f[k].spec_intersects(r)
        &&& forall|q: usize|
            #[trigger] c.placed.contains_key(q) ==> !f[k].spec_intersects(c.placed[q].rect)
    } by {
        assert(s.contains(f[k]));
        let t = choose|t: int| 0 <= t < s.len() && s[t] == f[k];
        let i = choose|i: int| 0 <= i < c.free.len() && s[t].spec_contained_in(#[trigger] c.free[i]);
        assert(c.free[i].within(c.width as int, c.height as int));
        assert forall|q: usize| #[trigger] c.placed.contains_key(q) implies !f[k].spec_intersects(
            c.placed[q].rect,
        ) by {
            lemma_inside_disjoint(f[k], c.free[i], c.placed[q].rect);
        }
    }
    assert forall|q: usize| #[trigger] c.placed.contains_key(q) implies !r.spec_intersects(
        c.placed[q].rect,
    ) && !c.placed[q].rect.spec_intersects(r) by {
        lemma_inside_disjoint(r, e, c.placed[q].rect);
    }
}

/// Among spaces of which some take the item there is a bottom-left origin,
/// and `lowest_origin` gives it.
pub proof fn lemma_lowest_origin_exists(free: Seq<Ems>, w: u32, h: u32, either: bool)
    requires
        any_accepts(free, w, h, either),
    ensures
        lowest_origin(free, w, h, either) is Some,
        is_lowest_origin(free, w, h, either, lowest_origin(free, w, h, either)->0),
    decreases free.len(),
{
    let init = free.drop_last();
    let e = free.last();
    let n = init.len() as int;
    if any_accepts(init, w, h, either) {
        lemma_lowest_origin_exists(init, w, h, either);
        let p = lowest_origin(init, w, h, either)->0;
        let k = choose|k: int| 0 <= k < init.len() && accepts(#[trigger] init[k], w, h, either) && init[k].min == p;
        assert(free[k] == init[k]);
        if accepts(e, w, h, either) && lower_left(e.min, p) {
            assert(free[n] == e);
            assert forall|i: int| 0 <= i < free.len() && accepts(#[trigger] free[i], w, h, either) implies !lower_left(free[i].min, e.min) by {
                if i < n {
                    assert(free[i] == init[i]);
                }
            }
            assert(is_lowest_origin(free, w, h, either, e.min));
        } else {
            assert forall|i: int| 0 <= i < free.len() && accepts(#[trigger] free[i], w, h, either) implies !lower_left(free[i].min, p) by {
                if i < n {
                    assert(free[i] == init[i]);
                }
            }
            assert(is_lowest_origin(free, w, h, either, p));
        }
    } else {
        let i0 = choose|i: int| 0 <= i < free.len() && accepts(#[trigger] free[i], w, h, either);
        if i0 < n {
            assert(free[i0] == init[i0]);
            assert(accepts(init[i0], w, h, either));
        }
        assert(i0 == n);
        assert forall|i: int| 0 <= i < free.len() && accepts(#[trigger] free[i], w, h, either) implies !lower_left(free[i].min, e.min) by {
            if i < n {
                assert(free[i] == init[i]);
                assert(accepts(init[i], w, h, either));
            }
        }
        assert(is_lowest_origin(free, w, h, either, e.min));
    }
}

/// What a successful placement leaves: a container that keeps the
/// invariant, and a placement whose rectangle is the item's footprint in the
/// recorded orientation, which fits inside the bin.
pub proof fn lemma_placing(c: ContainerView, item: Item, index: usize, forced: Option<bool>)
    requires
        c.inv(),
    ensures
        ({
            let r = match forced {
                None => c.place_result(item, index),
                Some(rot) => c.place_oriented_result(item, index, rot),
            };
            r matches Some((o, c2)) ==> {
                let pl = c2.placed[index];
                let (w, h) = item.dims(pl.rotated);
                &&& c2.inv()
                &&& pl.rect == occupied(o, w, h)
                &&& pl.origin == o
                &&& pl.rect.spec_width() == w
                &&& pl.rect.spec_height() == h
                &&& w <= c.width
                &&& h <= c.height
                &&& (forced matches Some(rot) ==> pl.rotated == rot)
            }
        }),
{
    if !c.placed.contains_key(index) {
        match forced {
            None => {
                if any_accepts(c.free, item.width, item.height, true) {
                    lemma_lowest_origin_exists(c.free, item.width, item.height, true);
                    let o = lowest_origin(c.free, item.width, item.height, true)->0;
                    let upright = is_lowest_origin(c.free, item.width, item.height, false, o);
                    let (w, h) = item.dims(!upright);
                    let j = choose|j: int|
                        0 <= j < c.free.len() && accepts(#[trigger] c.free[j], item.width, item.height, true)
                            && c.free[j].min == o;
                    let jj = if upright {
                        choose|k: int|
                            0 <= k < c.free.len() && accepts(#[trigger] c.free[k], item.width, item.height, false)
                                && c.free[k].min == o
                    } else {
                        j
                    };
                    if !upright {
                        if c.free[j].spec_fits(item.width as int, item.height as int) {
                            assert forall|i: int| 0 <= i < c.free.len() && accepts(#[trigger] c.free[i], item.width, item.height, false)
                                implies !lower_left(c.free[i].min, o) by {
                                assert(accepts(c.free[i], item.width, item.height, true));
                            }
                            assert(is_lowest_origin(c.free, item.width, item.height, false, o));
                        }
                    }
                    assert(c.free[jj].spec_fits(w as int, h as int));
                    lemma_after_placing(c, index, o, w, h, w != item.width, jj);
                    assert(c.free[jj].within(c.width as int, c.height as int));
                }
            },
            Some(rot) => {
                let (w, h) = item.dims(rot);
                if any_accepts(c.free, w, h, false) {
                    lemma_lowest_origin_exists(c.free, w, h, false);
                    let o = lowest_origin(c.free, w, h, false)->0;
                    let j = choose|j: int|
                        0 <= j < c.free.len() && accepts(#[trigger] c.free[j], w, h, false) && c.free[j].min == o;
                    lemma_after_placing(c, index, o, w, h, rot, j);
                    assert(c.free[j].within(c.width as int, c.height as int));
                }
            },
        }
    }
}

/// The unit cell with lower-left corner `(x, y)` lies in `e`.
pub open spec fn covers(e: Ems, x: int, y: int) -> bool {
    e.min.x <= x < e.max.x && e.min.y <= y < e.max.y
}

/// Some space of `s` covers the cell `(x, y)`.
pub open spec fn some_covers(s: Seq<Ems>, x: int, y: int) -> bool {
    exists|i: int| 0 <= i < s.len() && covers(#[trigger] s[i], x, y)
}

pub open spec fn ems_area(e: Ems) -> int {
    (e.max.x - e.min.x) * (e.max.y - e.min.y)
}

proof fn lemma_slabs_cover(e: Ems, r: Ems, x: int, y: int)
    requires
        covers(e, x, y),
        !covers(r, x, y),
    ensures
        some_covers(slabs(e, r), x, y),
{
    let left = if r.min.x > e.min.x {
        seq![Ems { min: e.min, max: Point { x: r.min.x, y: e.max.y } }]
    } else {
        Seq::<Ems>::empty()
    };
    let right = if r.max.x < e.max.x {
        seq![Ems { min: Point { x: r.max.x, y: e.min.y }, max: e.max }]
    } else {
        Seq::<Ems>::empty()
    };
    let bottom = if r.min.y > e.min.y {
        seq![Ems { min: e.min, max: Point { x: e.max.x, y: r.min.y } }]
    } else {
        Seq::<Ems>::empty()
    };
    let top = if r.max.y < e.max.y {
        seq![Ems { min: Point { x: e.min.x, y: r.max.y }, max: e.max }]
    } else {
        Seq::<Ems>::empty()
    };
    if !e.spec_intersects(r) {
        assert(covers(slabs(e, r)[0], x, y));
    } else {
        let s = left + right + bottom + top;
        assert(slabs(e, r) == s);
        let a = left.len() as int;
        let b = a + right.len();
        let c = b + bottom.len();
        if x < r.min.x {
            assert(s[0] == left[0]);
            assert(covers(s[0], x, y));
        } else if x >= r.max.x {
            assert(s[a] == right[0]);
            assert(covers(s[a], x, y));
        } else if y < r.min.y {
            assert(s[b] == bottom[0]);
            assert(covers(s[b], x, y));
        } else {
            assert(s[c] == top[0]);
            assert(covers(s[c], x, y));
        }
    }
}

proof fn lemma_split_all_cover(free: Seq<Ems>, r: Ems, x: int, y: int)
    requires
        some_covers(free, x, y),
        !covers(r, x, y),
    ensures
        some_covers(split_all(free, r), x, y),
    decreases free.len(),
{
    let init = free.drop_last();
    let a = split_all(init, r);
    let b = slabs(free.last(), r);
    assert(split_all(free, r) == a + b);
    let i = choose|i: int| 0 <= i < free.len() && covers(#[trigger] free[i], x, y);
    if i < init.len() {
        assert(init[i] == free[i]);
        lemma_split_all_cover(init, r, x, y);
        let k = choose|k: int| 0 <= k < a.len() && covers(#[trigger] a[k], x, y);
        assert((a + b)[k] == a[k]);
    } else {
        lemma_slabs_cover(free.last(), r, x, y);
        let k = choose|k: int| 0 <= k < b.len() && covers(#[trigger] b[k], x, y);
        assert((a + b)[a.len() + k] == b[k]);
    }
}

proof fn lemma_with_area_cover(s: Seq<Ems>, x: int, y: int)
    requires
        some_covers(s, x, y),
    ensures
        some_covers(with_area(s), x, y),
    decreases s.len(),
{
    let init = s.drop_last();
    let i = choose|i: int| 0 <= i < s.len() && covers(#[trigger] s[i], x, y);
    if i < init.len() {
        assert(init[i] == s[i]);
        lemma_with_area_cover(init, x, y);
        let k = choose|k: int| 0 <= k < with_area(init).len() && covers(#[trigger] with_area(init)[k], x, y);
        if has_area(s.last()) {
            assert(with_area(s)[k] == with_area(init)[k]);
        }
    } else {
        assert(has_area(s.last()));
        assert(with_area(s)[with_area(init).len() as int] == s.last());
    }
}

/// Every undominated space among the first `n` is kept.
proof fn lemma_undominated_keeps(s: Seq<Ems>, n: nat, i: int)
    requires
        n <= s.len(),
        0 <= i < n,
        !dominated(s, i),
    ensures
        undominated(s, n).contains(s[i]),
    decreases n,
{
    let m = (n - 1) as nat;
    if i < m {
        lemma_undominated_keeps(s, m, i);
        let k = choose|k: int| 0 <= k < undominated(s, m).len() && undominated(s, m)[k] == s[i];
        if !dominated(s, n - 1) {
            assert(undominated(s, n)[k] == s[i]);
        }
    } else {
        assert(undominated(s, n)[undominated(s, m).len() as int] == s[i]);
    }
}

proof fn lemma_larger_area(a: Ems, b: Ems)
    requires
        has_area(a),
        a.spec_contained_in(b),
        a != b,
    ensures
        ems_area(b) > ems_area(a),
{
    let wa = a.max.x - a.min.x;
    let ha = a.max.y - a.min.y;
    let wb = b.max.x - b.min.x;
    let hb = b.max.y - b.min.y;
    assert(wb >= wa && hb >= ha);
    assert(wb > wa || hb > ha) by {
        if wb == wa && hb == ha {
            assert(a.min == b.min);
            assert(a.max == b.max);
        }
    }
    assert(wb * hb > wa * ha) by (nonlinear_arith)
        requires
            wa > 0,
            ha > 0,
            wb >= wa,
            hb >= ha,
            wb > wa || hb > ha,
    ;
}

/// A cell covered by a space of positive-area spaces is covered by an
/// undominated one.
proof fn lemma_undominated_cover(s: Seq<Ems>, i: int, x: int, y: int)
    requires
        forall|k: int| 0 <= k < s.len() ==> has_area(#[trigger] s[k]),
        0 <= i < s.len(),
        covers(s[i], x, y),
    ensures
        some_covers(undominated(s, s.len()), x, y),
    decreases 0x1_0000_0000_0000_0000 - ems_area(s[i]), i,
{
    let e = s[i];
    assert(ems_area(e) <= 0xffff_ffff * 0xffff_ffff) by (nonlinear_arith)
        requires
            0 <= e.max.x - e.min.x <= 0xffff_ffff,
            0 <= e.max.y - e.min.y <= 0xffff_ffff,
            ems_area(e) == (e.max.x - e.min.x) * (e.max.y - e.min.y),
    ;
    if dominated(s, i) {
        let j = choose|j: int|
            0 <= j < s.len() && j != i && s[i].spec_contained_in(#[trigger] s[j]) && (s[i] != s[j]
                || i > j);
        assert(covers(s[j], x, y));
        if s[i] != s[j] {
            lemma_larger_area(s[i], s[j]);
        }
        let f = s[j];
        assert(ems_area(f) <= 0xffff_ffff * 0xffff_ffff) by (nonlinear_arith)
            requires
                0 <= f.max.x - f.min.x <= 0xffff_ffff,
                0 <= f.max.y - f.min.y <= 0xffff_ffff,
                ems_area(f) == (f.max.x - f.min.x) * (f.max.y - f.min.y),
        ;
        lemma_undominated_cover(s, j, x, y);
    } else {
        lemma_undominated_keeps(s, s.len(), i);
        let k = choose|k: int| 0 <= k < undominated(s, s.len()).len() && undominated(s, s.len())[k] == s[i];
        assert(covers(undominated(s, s.len())[k], x, y));
    }
}

/// No free area is lost when the free spaces are split around a placed
/// rectangle `r` and pruned: every cell of a free space that `r` does not
/// take lies in a space that is kept.
pub proof fn lemma_split_prune_covers(free: Seq<Ems>, r: Ems, x: int, y: int)
    requires
        some_covers(free, x, y),
        !covers(r, x, y),
    ensures
        some_covers(prune(split_all(free, r)), x, y),
{
    let s = split_all(free, r);
    lemma_split_all_cover(free, r, x, y);
    lemma_with_area_cover(s, x, y);
    lemma_with_area(s);
    let w = with_area(s);
    let i = choose|i: int| 0 <= i < w.len() && covers(#[trigger] w[i], x, y);
    lemma_undominated_cover(w, i, x, y);
}

/// Some space of `s` holds the rectangle `q`.
pub open spec fn some_contains(s: Seq<Ems>, q: Ems) -> bool {
    exists|i: int| 0 <= i < s.len() && q.spec_contained_in(#[trigger] s[i])
}

/// The slabs are as large as they can be: every rectangle of positive area
/// that lies in `e` and misses `r` lies inside one of the slabs of `e`
/// around `r`. So the slab left of `r` spans `e`'s full height from
/// `e.min.x` to `r.min.x`, the one right of it `e`'s full height from
/// `r.max.x` to `e.max.x`, and the ones below and above it `e`'s full width.
pub proof fn lemma_slabs_maximal(e: Ems, r: Ems, q: Ems)
    requires
        has_area(q),
        q.spec_contained_in(e),
        !q.spec_intersects(r),
    ensures
        some_contains(slabs(e, r), q),
{
    let left = if r.min.x > e.min.x {
        seq![Ems { min: e.min, max: Point { x: r.min.x, y: e.max.y } }]
    } else {
        Seq::<Ems>::empty()
    };
    let right = if r.max.x < e.max.x {
        seq![Ems { min: Point { x: r.max.x, y: e.min.y }, max: e.max }]
    } else {
        Seq::<Ems>::empty()
    };
    let bottom = if r.min.y > e.min.y {
        seq![Ems { min: e.min, max: Point { x: e.max.x, y: r.min.y } }]
    } else {
        Seq::<Ems>::empty()
    };
    let top = if r.max.y < e.max.y {
        seq![Ems { min: Point { x: e.min.x, y: r.max.y }, max: e.max }]
    } else {
        Seq::<Ems>::empty()
    };
    if !e.spec_intersects(r) {
        assert(q.spec_contained_in(slabs(e, r)[0]));
    } else {
        let s = left + right + bottom + top;
        assert(slabs(e, r) == s);
        let a = left.len() as int;
        let b = a + right.len();
        let c = b + bottom.len();
        if q.max.x <= r.min.x {
            assert(s[0] == left[0]);
            assert(q.spec_contained_in(s[0]));
        } else if q.min.x >= r.max.x {
            assert(s[a] == right[0]);
            assert(q.spec_contained_in(s[a]));
        } else if q.max.y <= r.min.y {
            assert(s[b] == bottom[0]);
            assert(q.spec_contained_in(s[b]));
        } else {
            assert(s[c] == top[0]);
            assert(q.spec_contained_in(s[c]));
        }
    }
}

proof fn lemma_split_all_contains(free: Seq<Ems>, r: Ems, q: Ems)
    requires
        has_area(q),
        some_contains(free, q),
        !q.spec_intersects(r),
    ensures
        some_contains(split_all(free, r), q),
    decreases free.len(),
{
    let init = free.drop_last();
    let a = split_all(init, r);
    let b = slabs(free.last(), r);
    assert(split_all(free, r) == a + b);
    let i = choose|i: int| 0 <= i < free.len() && q.spec_contained_in(#[trigger] free[i]);
    if i < init.len() {
        assert(init[i] == free[i]);
        lemma_split_all_contains(init, r, q);
        let k = choose|k: int| 0 <= k < a.len() && q.spec_contained_in(#[trigger] a[k]);
        assert((a + b)[k] == a[k]);
    } else {
        lemma_slabs_maximal(free.last(), r, q);
        let k = choose|k: int| 0 <= k < b.len() && q.spec_contained_in(#[trigger] b[k]);
        assert((a + b)[a.len() + k] == b[k]);
    }
}

proof fn lemma_with_area_contains(s: Seq<Ems>, q: Ems)
    requires
        has_area(q),
        some_contains(s, q),
    ensures
        some_contains(with_area(s), q),
    decreases s.len(),
{
    let init = s.drop_last();
    let i = choose|i: int| 0 <= i < s.len() && q.spec_contained_in(#[trigger] s[i]);
    if i < init.len() {
        assert(init[i] == s[i]);
        lemma_with_area_contains(init, q);
        let k = choose|k: int| 0 <= k < with_area(init).len() && q.spec_contained_in(#[trigger] with_area(init)[k]);
        if has_area(s.last()) {
            assert(with_area(s)[k] == with_area(init)[k]);
        }
    } else {
        assert(has_area(s.last()));
        assert(with_area(s)[with_area(init).len() as int] == s.last());
    }
}

proof fn lemma_undominated_contains(s: Seq<Ems>, i: int, q: Ems)
    requires
        forall|k: int| 0 <= k < s.len() ==> has_area(#[trigger] s[k]),
        0 <= i < s.len(),
        q.spec_contained_in(s[i]),
    ensures
        some_contains(undominated(s, s.len()), q),
    decreases 0x1_0000_0000_0000_0000 - ems_area(s[i]), i,
{
    let e = s[i];
    assert(ems_area(e) <= 0xffff_ffff * 0xffff_ffff) by (nonlinear_arith)
        requires
            0 <= e.max.x - e.min.x <= 0xffff_ffff,
            0 <= e.max.y - e.min.y <= 0xffff_ffff,
            ems_area(e) == (e.max.x - e.min.x) * (e.max.y - e.min.y),
    ;
    if dominated(s, i) {
        let j = choose|j: int|
            0 <= j < s.len() && j != i && s[i].spec_contained_in(#[trigger] s[j]) && (s[i] != s[j]
                || i > j);
        if s[i] != s[j] {
            lemma_larger_area(s[i], s[j]);
        }
        let f = s[j];
        assert(ems_area(f) <= 0xffff_ffff * 0xffff_ffff) by (nonlinear_arith)
            requires
                0 <= f.max.x - f.min.x <= 0xffff_ffff,
                0 <= f.max.y - f.min.y <= 0xffff_ffff,
                ems_area(f) == (f.max.x - f.min.x) * (f.max.y - f.min.y),
        ;
        lemma_undominated_contains(s, j, q);
    } else {
        lemma_undominated_keeps(s, s.len(), i);
        let k = choose|k: int| 0 <= k < undominated(s, s.len()).len() && undominated(s, s.len())[k] == s[i];
        assert(q.spec_contained_in(undominated(s, s.len())[k]));
    }
}

/// Splitting the free spaces around a placed rectangle `r` and pruning them
/// loses no empty rectangle: every rectangle of positive area that lies in a
/// free space and misses `r` lies in a space that is kept.
pub proof fn lemma_split_prune_keeps(free: Seq<Ems>, r: Ems, q: Ems)
    requires
        has_area(q),
        some_contains(free, q),
        !q.spec_intersects(r),
    ensures
        some_contains(prune(split_all(free, r)), q),
{
    let s = split_all(free, r);
    lemma_split_all_contains(free, r, q);
    lemma_with_area_contains(s, q);
    lemma_with_area(s);
    let w = with_area(s);
    let i = choose|i: int| 0 <= i < w.len() && q.spec_contained_in(#[trigger] w[i]);
    lemma_undominated_contains(w, i, q);
}

/// Splitting the free spaces around any rectangle and pruning them keeps the
/// container's invariant: the new spaces lie inside old ones.
proof fn lemma_split_keeps_inv(c: ContainerView, r: Ems)
    requires
        c.inv(),
    ensures
        (ContainerView { free: prune(split_all(c.free, r)), ..c }).inv(),
{
    let s = split_all(c.free, r);
    assert forall|i: int| 0 <= i < c.free.len() implies (#[trigger] c.free[i]).is_valid() by {
        assert(c.free[i].within(c.width as int, c.height as int));
    }
    lemma_split_all(c.free, r);
    lemma_prune(s);
    let f = prune(s);
    assert forall|k: int| 0 <= k < f.len() implies {
        &&& (#[trigger] f[k]).within(c.width as int, c.height as int)
        &&& forall|q: usize|
            #[trigger] c.placed.contains_key(q) ==> !f[k].spec_intersects(c.placed[q].rect)
    } by {
        assert(s.contains(f[k]));
        let t = choose|t: int| 0 <= t < s.len() && s[t] == f[k];
        let i = choose|i: int| 0 <= i < c.free.len() && s[t].spec_contained_in(#[trigger] c.free[i]);
        assert(c.free[i].within(c.width as int, c.height as int));
        assert forall|q: usize| #[trigger] c.placed.contains_key(q) implies !f[k].spec_intersects(
            c.placed[q].rect,
        ) by {
            lemma_inside_disjoint(f[k], c.free[i], c.placed[q].rect);
        }
    }
}

/// A call that may place an item into a container: `place`,
/// `place_oriented`, `try_insert` or `try_insert_oriented`, with its
/// arguments as values.
pub enum PlacementCall {
    Place { item: Item, index: usize },
    PlaceOriented { item: Item, index: usize, rotated: bool },
    TryInsert { item: Item, index: usize, conflicts: Map<usize, Set<usize>> },
    TryInsertOriented {
        item: Item,
        index: usize,
        rotated: bool,
        conflicts: Map<usize, Set<usize>>,
    },
}

impl PlacementCall {
    /// The item index the call places.
    pub open spec fn index(self) -> usize {
        match self {
            PlacementCall::Place { index, .. } => index,
            PlacementCall::PlaceOriented { index, .. } => index,
            PlacementCall::TryInsert { index, .. } => index,
            PlacementCall::TryInsertOriented { index, .. } => index,
        }
    }
}

impl ContainerView {
    /// What the call returns and leaves, as the methods' contracts state it.
    pub open spec fn call_result(self, call: PlacementCall) -> Option<(Point, ContainerView)> {
        match call {
            PlacementCall::Place { item, index } => self.place_result(item, index),
            PlacementCall::PlaceOriented { item, index, rotated } => self.place_oriented_result(
                item,
                index,
                rotated,
            ),
            PlacementCall::TryInsert { item, index, conflicts } => self.try_insert_result(
                item,
                index,
                conflicts,
            ),
            PlacementCall::TryInsertOriented { item, index, rotated, conflicts } =>
                self.try_insert_oriented_result(item, index, rotated, conflicts),
        }
    }

    /// The container after the call (unchanged when the call fails).
    pub open spec fn after_call(self, call: PlacementCall) -> ContainerView {
        match self.call_result(call) {
            Some((_, c)) => c,
            None => self,
        }
    }
}

/// The container after the calls, one after the other.
pub open spec fn after_calls(c: ContainerView, calls: Seq<PlacementCall>) -> ContainerView
    decreases calls.len(),
{
    if calls.len() == 0 {
        c
    } else {
        after_calls(c, calls.drop_last()).after_call(calls.last())
    }
}

/// Call `t` of `calls`, made on the container the earlier calls left,
/// returned `Some`.
pub open spec fn call_succeeded(c: ContainerView, calls: Seq<PlacementCall>, t: int) -> bool {
    after_calls(c, calls.take(t)).call_result(calls[t]) is Some
}

/// The placement that call `t` recorded for its item.
pub open spec fn recorded(c: ContainerView, calls: Seq<PlacementCall>, t: int) -> Placement {
    (after_calls(c, calls.take(t)).call_result(calls[t])->0).1.placed[calls[t].index()]
}

/// A successful call adds exactly its own index to the placements.
proof fn lemma_call_adds(c: ContainerView, call: PlacementCall)
    ensures
        c.call_result(call) matches Some((o, c2)) ==> !c.placed.contains_key(call.index())
            && c2.placed == c.placed.insert(call.index(), c2.placed[call.index()]),
{
}

proof fn lemma_history(c: ContainerView, calls: Seq<PlacementCall>)
    ensures
        forall|k: usize|
            #[trigger] after_calls(c, calls).placed.contains_key(k) <==> (c.placed.contains_key(k)
                || exists|t: int|
                0 <= t < calls.len() && call_succeeded(c, calls, t) && calls[t].index() == k),
        forall|k: usize|
            #[trigger] c.placed.contains_key(k) ==> after_calls(c, calls).placed[k] == c.placed[k],
        forall|t: int|
            0 <= t < calls.len() && #[trigger] call_succeeded(c, calls, t) ==> !c.placed.contains_key(
                calls[t].index(),
            ) && after_calls(c, calls).placed[calls[t].index()] == recorded(c, calls, t),
    decreases calls.len(),
{
    if calls.len() > 0 {
        let init = calls.drop_last();
        let n = init.len() as int;
        let last = calls.last();
        lemma_history(c, init);
        let prev = after_calls(c, init);
        lemma_call_adds(prev, last);
        assert(calls.take(n) == init);
        assert forall|t: int| 0 <= t < n implies calls.take(t) == init.take(t) && calls[t] == init[t] by {}
        assert forall|t: int| 0 <= t < n implies #[trigger] call_succeeded(c, calls, t) == call_succeeded(c, init, t) && recorded(c, calls, t) == recorded(c, init, t) by {
            assert(calls.take(t) == init.take(t));
        }
        let end = after_calls(c, calls);
        assert forall|k: usize| #[trigger] end.placed.contains_key(k) <==> (c.placed.contains_key(k)
            || exists|t: int|
            0 <= t < calls.len() && call_succeeded(c, calls, t) && calls[t].index() == k) by {
            if end.placed.contains_key(k) && !c.placed.contains_key(k) {
                if prev.placed.contains_key(k) {
                    let t = choose|t: int| 0 <= t < n && call_succeeded(c, init, t) && init[t].index() == k;
                    assert(call_succeeded(c, calls, t));
                } else {
                    assert(call_succeeded(c, calls, n));
                }
            }
            if exists|t: int| 0 <= t < calls.len() && call_succeeded(c, calls, t) && calls[t].index() == k {
                let t = choose|t: int| 0 <= t < calls.len() && call_succeeded(c, calls, t) && calls[t].index() == k;
                if t < n {
                    assert(call_succeeded(c, init, t));
                    assert(prev.placed.contains_key(k));
                }
            }
        }
        assert forall|t: int|
            0 <= t < calls.len() && #[trigger] call_succeeded(c, calls, t) implies !c.placed.contains_key(
            calls[t].index(),
        ) && end.placed[calls[t].index()] == recorded(c, calls, t) by {
            if t < n {
                assert(call_succeeded(c, init, t));
                assert(prev.placed.contains_key(init[t].index()));
                if prev.call_result(last) is Some {
                    assert(last.index() != init[t].index());
                }
            }
        }
    }
}

/// An empty bin's one free space is the whole bin.
proof fn lemma_empty_maximal(width: u32, height: u32)
    ensures
        empty_container(width, height).free_is_maximal(),
{
    let c = empty_container(width, height);
    assert forall|q: Ems| #[trigger] c.is_empty_area(q) implies some_contains(c.free, q) by {
        assert(q.spec_contained_in(c.free[0]));
    }
}

/// Placing an item keeps every empty rectangle that it does not overlap
/// inside a free space.
proof fn lemma_after_placing_maximal(
    c: ContainerView,
    index: usize,
    o: Point,
    w: u32,
    h: u32,
    rotated: bool,
)
    requires
        c.free_is_maximal(),
        !c.placed.contains_key(index),
    ensures
        c.after_placing(index, o, w, h, rotated).free_is_maximal(),
{
    let n = c.after_placing(index, o, w, h, rotated);
    let r = occupied(o, w, h);
    assert forall|q: Ems| #[trigger] n.is_empty_area(q) implies some_contains(n.free, q) by {
        assert(n.placed.contains_key(index));
        assert(!q.spec_intersects(r));
        assert forall|k: usize| #[trigger] c.placed.contains_key(k) implies !q.spec_intersects(
            c.placed[k].rect,
        ) by {
            assert(n.placed.contains_key(k));
            assert(n.placed[k] == c.placed[k]);
        }
        assert(c.is_empty_area(q));
        lemma_split_prune_keeps(c.free, r, q);
    }
}

/// Any call keeps the free spaces maximal.
proof fn lemma_call_keeps_maximal(c: ContainerView, call: PlacementCall)
    requires
        c.free_is_maximal(),
    ensures
        c.after_call(call).free_is_maximal(),
{
    if !c.placed.contains_key(call.index()) {
        match call {
            PlacementCall::Place { item, index } => {
                if let Some(o) = lowest_origin(c.free, item.width, item.height, true) {
                    let upright = is_lowest_origin(c.free, item.width, item.height, false, o);
                    let (w, h) = item.dims(!upright);
                    lemma_after_placing_maximal(c, index, o, w, h, w != item.width);
                }
            },
            PlacementCall::PlaceOriented { item, index, rotated } => {
                let (w, h) = item.dims(rotated);
                if let Some(o) = lowest_origin(c.free, w, h, false) {
                    lemma_after_placing_maximal(c, index, o, w, h, rotated);
                }
            },
            PlacementCall::TryInsert { item, index, conflicts } => {
                if let Some(o) = lowest_origin(c.free, item.width, item.height, true) {
                    let upright = is_lowest_origin(c.free, item.width, item.height, false, o);
                    let (w, h) = item.dims(!upright);
                    lemma_after_placing_maximal(c, index, o, w, h, w != item.width);
                }
            },
            PlacementCall::TryInsertOriented { item, index, rotated, conflicts } => {
                let (w, h) = item.dims(rotated);
                if let Some(o) = lowest_origin(c.free, w, h, false) {
                    lemma_after_placing_maximal(c, index, o, w, h, rotated);
                }
            },
        }
    }
}

/// The free spaces stay the maximal empty rectangles: after `new` and any
/// sequence of calls, every rectangle of positive area in the bin that
/// overlaps no placed item lies inside one free space.
pub proof fn lemma_calls_keep_maximal(width: u32, height: u32, calls: Seq<PlacementCall>)
    ensures
        after_calls(empty_container(width, height), calls).free_is_maximal(),
    decreases calls.len(),
{
    if calls.len() == 0 {
        lemma_empty_maximal(width, height);
    } else {
        lemma_calls_keep_maximal(width, height, calls.drop_last());
        lemma_call_keeps_maximal(
            after_calls(empty_container(width, height), calls.drop_last()),
            calls.last(),
        );
    }
}

/// A bin whose free spaces are maximal takes an item that fits an empty
/// rectangle of it: placing a new index upright or turned succeeds when the
/// item fits the rectangle either way, and placing it in a given orientation
/// succeeds when it fits the rectangle so turned.
pub proof fn lemma_empty_area_accepted(c: ContainerView, item: Item, index: usize, q: Ems)
    requires
        c.free_is_maximal(),
        !c.placed.contains_key(index),
        c.is_empty_area(q),
    ensures
        q.spec_fits(item.width as int, item.height as int) || q.spec_fits(
            item.height as int,
            item.width as int,
        ) ==> c.place_result(item, index) is Some,
        forall|rotated: bool|
            q.spec_fits((#[trigger] item.dims(rotated)).0 as int, item.dims(rotated).1 as int)
                ==> c.place_oriented_result(item, index, rotated) is Some,
{
    let i = choose|i: int| 0 <= i < c.free.len() && q.spec_contained_in(#[trigger] c.free[i]);
    if accepts(c.free[i], item.width, item.height, true) {
        assert(any_accepts(c.free, item.width, item.height, true));
        lemma_lowest_origin_exists(c.free, item.width, item.height, true);
    }
    assert forall|rotated: bool|
        q.spec_fits((#[trigger] item.dims(rotated)).0 as int, item.dims(rotated).1 as int)
            implies c.place_oriented_result(item, index, rotated) is Some by {
        let (w, h) = item.dims(rotated);
        assert(accepts(c.free[i], w, h, false));
        assert(any_accepts(c.free, w, h, false));
        lemma_lowest_origin_exists(c.free, w, h, false);
    }
}

/// A bin takes every item that fits into its empty space: after `new` and any
/// sequence of calls, an index not yet placed is placed (upright or turned)
/// whenever the item fits, either way, a rectangle of the bin that overlaps
/// no placed item, and in a given orientation whenever it fits such a
/// rectangle so turned.
pub proof fn lemma_fitting_item_accepted(
    width: u32,
    height: u32,
    calls: Seq<PlacementCall>,
    item: Item,
    index: usize,
    q: Ems,
)
    requires
        !after_calls(empty_container(width, height), calls).placed.contains_key(index),
        after_calls(empty_container(width, height), calls).is_empty_area(q),
    ensures
        q.spec_fits(item.width as int, item.height as int) || q.spec_fits(
            item.height as int,
            item.width as int,
        ) ==> after_calls(empty_container(width, height), calls).place_result(item, index) is Some,
        forall|rotated: bool|
            q.spec_fits((#[trigger] item.dims(rotated)).0 as int, item.dims(rotated).1 as int)
                ==> after_calls(empty_container(width, height), calls).place_oriented_result(
                item,
                index,
                rotated,
            ) is Some,
{
    lemma_calls_keep_maximal(width, height, calls);
    lemma_empty_area_accepted(after_calls(empty_container(width, height), calls), item, index, q);
}

/// A container's placements are exactly those its successful calls
/// recorded: after `new` and any sequence of calls, an index is placed
/// exactly when some call on it returned `Some`, and its placement is the one
/// that call recorded (later calls never change it).
pub proof fn lemma_placement_history(width: u32, height: u32, calls: Seq<PlacementCall>)
    ensures
        forall|k: usize|
            #[trigger] after_calls(empty_container(width, height), calls).placed.contains_key(k)
                <==> exists|t: int|
                0 <= t < calls.len() && call_succeeded(empty_container(width, height), calls, t)
                    && calls[t].index() == k,
        forall|t: int|
            0 <= t < calls.len() && #[trigger] call_succeeded(empty_container(width, height), calls, t)
                ==> after_calls(empty_container(width, height), calls).placed[calls[t].index()]
                == recorded(empty_container(width, height), calls, t),
{
    lemma_history(empty_container(width, height), calls);
}

impl View for Container {
    type V = ContainerView;

    closed spec fn view(&self) -> ContainerView {
        ContainerView {
            width: self.width,
            height: self.height,
            free: self.free@,
            placed: self.placed@,
        }
    }
}

impl Container {
    /// Every container keeps the invariant of its view.
    #[verifier::type_invariant]
    pub open spec fn wf(self) -> bool {
        self@.inv()
    }

    pub fn new(width: u32, height: u32) -> (r: Self)
        ensures
            r@ == empty_container(width, height),
    {
        let whole = Ems::new(Point { x: 0, y: 0 }, Point { x: width, y: height });
        let mut free: Vec<Ems> = Vec::new();
        free.push(whole);
        let r = Container { width, height, free, placed: HashMap::new() };
        assert(r@.free =~= seq![whole]);
        r
    }


    /// Drop degenerate spaces and any space inside another (repeats keep their
    /// first copy), so the spaces kept are maximal.
    fn prune(spaces: Vec<Ems>) -> (r: Vec<Ems>)
        requires
            forall|i: int| 0 <= i < spaces.len() ==> (#[trigger] spaces@[i]).is_valid(),
        ensures
            r@ == prune(spaces@),
    {
        let mut kept: Vec<Ems> = Vec::new();
        let n = spaces.len();
        for i in 0..n
            invariant
                n == spaces.len(),
                forall|i: int| 0 <= i < spaces.len() ==> (#[trigger] spaces@[i]).is_valid(),
                kept@ == with_area(spaces@.take(i as int)),
        {
            let e = spaces[i];
            assert(spaces@.take(i + 1).drop_last() == spaces@.take(i as int));
            if e.width() > 0 && e.height() > 0 {
                kept.push(e);
            }
        }
        assert(spaces@.take(n as int) == spaces@);
        let mut out: Vec<Ems> = Vec::new();
        let m = kept.len();
        for i in 0..m
            invariant
                m == kept.len(),
                out@ == undominated(kept@, i as nat),
        {
            let e = kept[i];
            let mut dominated_here = false;
            let mut j: usize = 0;
            while j < m && !dominated_here
                invariant
                    m == kept.len(),
                    0 <= i < m,
                    e == kept@[i as int],
                    j <= m,
                    dominated_here ==> dominated(kept@, i as int),
                    !dominated_here ==> forall|k: int|
                        0 <= k < j ==> !(k != i && e.spec_contained_in(#[trigger] kept@[k]) && (e
                            != kept@[k] || i > k)),
                decreases m - j,
            {
                let other = kept[j];
                if i != j && e.contained_in(&other) && (e != other || i > j) {
                    dominated_here = true;
                }
                j = j + 1;
            }
            if !dominated_here {
                out.push(e);
            }
        }
        out
    }

    /// Replace every free space that overlaps `item` by its slabs around it,
    /// then prune.
    fn split_around(&mut self, item: &Ems)
        ensures
            final(self).free@ == prune(split_all(old(self).free@, *item)),
            final(self).width == old(self).width,
            final(self).height == old(self).height,
            final(self).placed@ == old(self).placed@,
    {
        proof {
            use_type_invariant(&*self);
            let c = self@;
            assert forall|i: int| 0 <= i < self.free.len() implies (#[trigger] self.free@[i]).is_valid() by {
                assert(c.free[i].within(c.width as int, c.height as int));
            }
            lemma_split_keeps_inv(c, *item);
        }
        let ghost c0 = self@;
        let mut next: Vec<Ems> = Vec::new();
        let n = self.free.len();
        let mut i: usize = 0;
        while i < n
            invariant
                n == self.free.len(),
                i <= n,
                forall|i: int| 0 <= i < self.free.len() ==> (#[trigger] self.free@[i]).is_valid(),
                next@ == split_all(self.free@.take(i as int), *item),
            decreases n - i,
        {
            let ems = self.free[i];
            let ghost before = next@;
            assert(self.free@.take(i + 1).drop_last() == self.free@.take(i as int));
            if !ems.intersects(item) {
                next.push(ems);
            } else {
                if item.min.x > ems.min.x {
                    next.push(Ems::new(ems.min, Point { x: item.min.x, y: ems.max.y }));
                }
                if item.max.x < ems.max.x {
                    next.push(Ems::new(Point { x: item.max.x, y: ems.min.y }, ems.max));
                }
                if item.min.y > ems.min.y {
                    next.push(Ems::new(ems.min, Point { x: ems.max.x, y: item.min.y }));
                }
                if item.max.y < ems.max.y {
                    next.push(Ems::new(Point { x: ems.min.x, y: item.max.y }, ems.max));
                }
            }
            assert(next@ =~= before + slabs(ems, *item));
            i = i + 1;
        }
        assert(self.free@.take(n as int) == self.free@);
        proof {
            lemma_split_all(self.free@, *item);
        }
        let pruned = Self::prune(next);
        assert(pruned@ == prune(split_all(c0.free, *item)));
        self.free = pruned;
        assert(self@ == (ContainerView { free: prune(split_all(c0.free, *item)), ..c0 }));
    }

    /// The bottom-left origin among the free spaces that take a `w` by `h`
    /// item (or, when `either`, that item turned), and whether a space takes
    /// the item upright at that origin.
    fn lowest(&self, w: u32, h: u32, either: bool) -> (r: Option<(Point, bool)>)
        ensures
            r is None <==> !any_accepts(self@.free, w, h, either),
            r matches Some((o, up)) ==> {
                &&& is_lowest_origin(self@.free, w, h, either, o)
                &&& up == exists|i: int|
                    0 <= i < self@.free.len() && (#[trigger] self@.free[i]).spec_fits(
                        w as int,
                        h as int,
                    ) && self@.free[i].min == o
            },
    {
        let ghost free = self@.free;
        proof {
            use_type_invariant(self);
            assert forall|k: int| 0 <= k < free.len() implies (#[trigger] free[k]).is_valid() by {
                assert(free[k].within(self@.width as int, self@.height as int));
            }
        }
        let mut best: Option<(Point, bool)> = None;
        let n = self.free.len();
        let mut i: usize = 0;
        while i < n
            invariant
                n == self.free.len(),
                free == self.free@,
                i <= n,
                forall|k: int| 0 <= k < free.len() ==> (#[trigger] free[k]).is_valid(),
                best is None <==> !exists|k: int| 0 <= k < i && accepts(#[trigger] free[k], w, h, either),
                best matches Some((b, up)) ==> {
                    &&& exists|k: int|
                        0 <= k < i && accepts(#[trigger] free[k], w, h, either) && free[k].min == b
                    &&& forall|k: int|
                        0 <= k < i && accepts(#[trigger] free[k], w, h, either) ==> !lower_left(
                            free[k].min,
                            b,
                        )
                    &&& up == exists|k: int|
                        0 <= k < i && (#[trigger] free[k]).spec_fits(w as int, h as int)
                            && free[k].min == b
                },
            decreases n - i,
        {
            let ems = self.free[i];
            let upright = ems.fits(w, h);
            let turned = either && ems.fits(h, w);
            if upright || turned {
                let o = ems.min;
                match best {
                    None => {
                        best = Some((o, upright));
                    },
                    Some((b, up)) => {
                        if o.y < b.y || (o.y == b.y && o.x < b.x) {
                            best = Some((o, upright));
                        } else if o == b && upright {
                            best = Some((b, true));
                        }
                    },
                }
            }
            i = i + 1;
        }
        best
    }


    /// Put item `index` at `o` as a `w` by `h` rectangle, where `o` is the
    /// bottom-left origin for that footprint.
    fn put(&mut self, index: usize, o: Point, w: u32, h: u32, rotated: bool)
        requires
            !old(self)@.placed.contains_key(index),
            exists|j: int|
                0 <= j < old(self)@.free.len() && (#[trigger] old(self)@.free[j]).min == o
                    && old(self)@.free[j].spec_fits(w as int, h as int),
        ensures
            final(self)@ == old(self)@.after_placing(index, o, w, h, rotated),
    {
        proof {
            use_type_invariant(&*self);
        }
        let ghost c = self@;
        let ghost j = choose|j: int|
            0 <= j < c.free.len() && (#[trigger] c.free[j]).min == o && c.free[j].spec_fits(
                w as int,
                h as int,
            );
        proof {
            lemma_after_placing(c, index, o, w, h, rotated, j);
            assert(c.free[j].within(c.width as int, c.height as int));
        }
        let occupied = Ems::new(o, Point { x: o.x + w, y: o.y + h });
        self.split_around(&occupied);
        let mut placed: HashMap<usize, Placement> = HashMap::new();
        std::mem::swap(&mut placed, &mut self.placed);
        placed.insert(index, Placement { origin: o, rect: occupied, rotated });
        assert(placed@ == c.placed.insert(index, Placement { origin: o, rect: occupied, rotated }));
        self.placed = placed;
        assert(self@ == c.after_placing(index, o, w, h, rotated));
    }

    /// Place `item` (identified by `index`) at its bottom-left position using a
    /// caller-fixed orientation. Fails (returns `None`, changing nothing) when
    /// `index` is already placed or no free space takes the item.
    pub fn place_oriented(&mut self, item: &Item, index: usize, rotated: bool) -> (r: Option<Point>)
        ensures
            match old(self)@.place_oriented_result(*item, index, rotated) {
                None => r is None && final(self)@ == old(self)@,
                Some((o, c)) => r == Some(o) && final(self)@ == c,
            },
    {
        if self.placed.contains_key(&index) {
            return None;
        }
        let (w, h) = if rotated {
            (item.height, item.width)
        } else {
            (item.width, item.height)
        };
        match self.lowest(w, h, false) {
            None => None,
            Some((o, _)) => {
                proof {
                    lemma_lowest_origin_unique(self@.free, w, h, false, o);
                }
                self.put(index, o, w, h, rotated);
                Some(o)
            },
        }
    }

    /// Place `item` (identified by `index`) at its bottom-left position, upright
    /// or turned by 90 degrees, whichever gives the lower origin (upright when
    /// both give the same). Fails (returns `None`, changing nothing) when
    /// `index` is already placed or no free space takes the item either way.
    pub fn place(&mut self, item: &Item, index: usize) -> (r: Option<Point>)
        ensures
            match old(self)@.place_result(*item, index) {
                None => r is None && final(self)@ == old(self)@,
                Some((o, c)) => r == Some(o) && final(self)@ == c,
            },
    {
        if self.placed.contains_key(&index) {
            return None;
        }
        match self.lowest(item.width, item.height, true) {
            None => None,
            Some((o, up)) => {
                let ghost free = self@.free;
                proof {
                    lemma_lowest_origin_unique(free, item.width, item.height, true, o);
                    if up {
                        assert forall|i: int|
                            0 <= i < free.len() && accepts(
                                #[trigger] free[i],
                                item.width,
                                item.height,
                                false,
                            ) implies !lower_left(free[i].min, o) by {
                            assert(accepts(free[i], item.width, item.height, true));
                        }
                        assert(is_lowest_origin(free, item.width, item.height, false, o));
                    } else {
                        let k = choose|k: int|
                            0 <= k < free.len() && accepts(
                                #[trigger] free[k],
                                item.width,
                                item.height,
                                true,
                            ) && free[k].min == o;
                        assert(free[k].spec_fits(item.height as int, item.width as int));
                    }
                }
                let (w, h) = if up {
                    (item.width, item.height)
                } else {
                    (item.height, item.width)
                };
                let rotated = w != item.width;
                self.put(index, o, w, h, rotated);
                Some(o)
            },
        }
    }

    /// Whether a neighbor of `index` in `conflicts` is already placed here.
    fn conflicts_with_placed(&self, index: usize, conflicts: &ConflictGraph<usize>) -> (r: bool)
        ensures
            r == self@.blocked(conflicts@, index),
    {
        let ns = conflicts.neighbors(&index);
        let mut k: usize = 0;
        while k < ns.len()
            invariant
                k <= ns.len(),
                forall|x: usize| ns@.contains(x) <==> adjacent(conflicts@, index).contains(x),
                forall|q: int| 0 <= q < k ==> !self@.placed.contains_key(#[trigger] ns@[q]),
            decreases ns.len() - k,
        {
            if self.placed.contains_key(&ns[k]) {
                assert(ns@.contains(ns@[k as int]));
                assert(self@.placed.contains_key(ns@[k as int]));
                return true;
            }
            k = k + 1;
        }
        proof {
            assert forall|n: usize|
                adjacent(conflicts@, index).contains(n) implies !#[trigger] self@.placed.contains_key(
                n,
            ) by {
                assert(ns@.contains(n));
                let q = choose|q: int| 0 <= q < ns@.len() && ns@[q] == n;
            }
        }
        false
    }

    /// Greedily insert `item` (identified by `index`) into this container, honoring
    /// conflicts. Fails (returns `None`) if `index` conflicts with any already-placed
    /// item, or if it does not fit geometrically. On success returns the placement
    /// origin (delegating geometry to `place`: bottom-left + rotation).
    pub fn try_insert(&mut self, item: &Item, index: usize, conflicts: &ConflictGraph<usize>) -> (r:
        Option<Point>)
        ensures
            match old(self)@.try_insert_result(*item, index, conflicts@) {
                None => r is None && final(self)@ == old(self)@,
                Some((o, c)) => r == Some(o) && final(self)@ == c,
            },
    {
        if self.conflicts_with_placed(index, conflicts) {
            return None;
        }
        self.place(item, index)
    }

    /// Conflict-aware insert with a caller-fixed orientation (mirrors `try_insert`,
    /// but delegates geometry to `place_oriented`).
    pub fn try_insert_oriented(
        &mut self,
        item: &Item,
        index: usize,
        rotated: bool,
        conflicts: &ConflictGraph<usize>,
    ) -> (r: Option<Point>)
        ensures
            match old(self)@.try_insert_oriented_result(*item, index, rotated, conflicts@) {
                None => r is None && final(self)@ == old(self)@,
                Some((o, c)) => r == Some(o) && final(self)@ == c,
            },
    {
        if self.conflicts_with_placed(index, conflicts) {
            return None;
        }
        self.place_oriented(item, index, rotated)
    }

    /// Read-only view of the placements in this container, keyed by item index.
    pub fn placements(&self) -> (r: &HashMap<usize, Placement>)
        ensures
            r@ == self@.placed,
    {
        &self.placed
    }
}

} // verus!
