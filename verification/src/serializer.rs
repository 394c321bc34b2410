//! The per-bin content of a solution document: each bin's placements,
//! sorted by item index.
use std::collections::HashMap;
use vstd::prelude::*;
use vstd::std_specs::hash::spec_keys_iter;
use vstd::std_specs::iter::IteratorSpec;

use crate::container::{ContainerView, Placement};
use crate::decoder::Solution;
use crate::sorting::{pair_before, sort_by_key_desc};

verus! {

broadcast use vstd::std_specs::hash::group_hash_axioms;

/// The placements of one bin.
#[derive(Clone, Debug)]
pub struct BinDoc {
    pub items: Vec<PlacementDoc>,
}

/// One placed item: its index, origin, footprint and orientation.
#[derive(Clone, Copy, Debug, PartialEq, Eq, Structural)]
pub struct PlacementDoc {
    pub index: usize,
    pub x: u32,
    pub y: u32,
    pub width: u32,
    pub height: u32,
    pub rotated: bool,
}

/// The document entry of item `index` placed as `p`.
pub open spec fn placement_doc(index: usize, p: Placement) -> PlacementDoc {
    PlacementDoc {
        index,
        x: p.origin.x,
        y: p.origin.y,
        width: p.rect.spec_width() as u32,
        height: p.rect.spec_height() as u32,
        rotated: p.rotated,
    }
}

/// `items` lists every placement of bin `c` once, by ascending item index.
pub open spec fn is_bin_doc(c: ContainerView, items: Seq<PlacementDoc>) -> bool {
    &&& forall|i: int, j: int| 0 <= i < j < items.len() ==> (#[trigger] items[i]).index < (#[trigger] items[j]).index
    &&& forall|k: usize| c.placed.contains_key(k) <==> exists|i: int| 0 <= i < items.len() && (#[trigger] items[i]).index == k
    &&& forall|i: int| 0 <= i < items.len() ==> #[trigger] items[i] == placement_doc(items[i].index, c.placed[items[i].index])
}

/// Every entry of a bin document is exactly the placed rectangle: the
/// rectangle spans `[x, x + width) x [y, y + height)`, and the entry names its
/// item and orientation.
pub proof fn lemma_bin_doc_rects(c: ContainerView, items: Seq<PlacementDoc>)
    requires
        c.inv(),
        is_bin_doc(c, items),
    ensures
        forall|i: int|
            0 <= i < items.len() ==> {
                let d = #[trigger] items[i];
                let pl = c.placed[d.index];
                &&& c.placed.contains_key(d.index)
                &&& pl.rect.min.x == d.x
                &&& pl.rect.min.y == d.y
                &&& pl.rect.max.x == d.x + d.width
                &&& pl.rect.max.y == d.y + d.height
                &&& pl.rotated == d.rotated
            },
{
    assert forall|i: int| 0 <= i < items.len() implies {
        let d = #[trigger] items[i];
        let pl = c.placed[d.index];
        &&& c.placed.contains_key(d.index)
        &&& pl.rect.min.x == d.x
        &&& pl.rect.min.y == d.y
        &&& pl.rect.max.x == d.x + d.width
        &&& pl.rect.max.y == d.y + d.height
        &&& pl.rotated == d.rotated
    } by {
        let d = items[i];
        assert(exists|j: int| 0 <= j < items.len() && (#[trigger] items[j]).index == d.index);
        assert(c.placed.contains_key(d.index));
        let pl = c.placed[d.index];
        assert(pl.rect.within(c.width as int, c.height as int));
        assert(d == placement_doc(d.index, pl));
    }
}

fn bin_doc(placed: &HashMap<usize, Placement>) -> (r: BinDoc)
    requires
        forall|k: usize| #[trigger] placed@.contains_key(k) ==> placed@[k].rect.is_valid(),
    ensures
        forall|i: int, j: int| 0 <= i < j < r.items.len() ==> (#[trigger] r.items@[i]).index < (#[trigger] r.items@[j]).index,
        forall|k: usize| placed@.contains_key(k) <==> exists|i: int| 0 <= i < r.items.len() && (#[trigger] r.items@[i]).index == k,
        forall|i: int| 0 <= i < r.items.len() ==> #[trigger] r.items@[i] == placement_doc(r.items@[i].index, placed@[r.items@[i].index]),
{
    let mut keyed: Vec<(u64, usize)> = Vec::new();
    for k in iter: placed.keys()
        invariant
            keyed@ == spec_keys_iter(placed).remaining().unref().take(iter.index()).map_values(|k: usize| (0u64, k)),
    {
        let ghost before = keyed@;
        keyed.push((0, *k));
        proof {
            let ks = spec_keys_iter(placed).remaining().unref();
            assert(ks.take(iter.index() + 1) =~= ks.take(iter.index()).push(*k));
            assert(keyed@ =~= ks.take(iter.index() + 1).map_values(|k: usize| (0u64, k)));
        }
    }
    let ghost ks = spec_keys_iter(placed).remaining().unref();
    proof {
        assert(ks.to_set() == placed@.dom());
        assert(ks.no_duplicates());
        assert(ks.take(ks.len() as int) =~= ks);
        assert forall|a: int, b: int| 0 <= a < keyed.len() && 0 <= b < keyed.len() && a != b implies keyed@[a]
            != keyed@[b] by {}
        assert forall|x: (u64, usize)| #[trigger] keyed@.contains(x) ==> x.0 == 0 && placed@.contains_key(x.1) by {
            if keyed@.contains(x) {
                let q = choose|q: int| 0 <= q < keyed.len() && keyed@[q] == x;
                assert(ks.contains(ks[q]));
                assert(ks.to_set().contains(ks[q]));
            }
        }
    }
    let sorted = sort_by_key_desc(&keyed);
    let mut items: Vec<PlacementDoc> = Vec::new();
    let m = sorted.len();
    assert forall|q: int| 0 <= q < m implies #[trigger] sorted@[q].0 == 0 && placed@.contains_key(sorted@[q].1) by {
        assert(sorted@.contains(sorted@[q]));
        assert(keyed@.contains(sorted@[q]));
    }
    for t in 0..m
        invariant
            m == sorted.len(),
            forall|q: int| 0 <= q < m ==> #[trigger] sorted@[q].0 == 0 && placed@.contains_key(sorted@[q].1),
            forall|k: usize| #[trigger] placed@.contains_key(k) ==> placed@[k].rect.is_valid(),
            items.len() == t,
            forall|q: int| 0 <= q < t ==> #[trigger] items@[q] == placement_doc(sorted@[q].1, placed@[sorted@[q].1]),
    {
        let k = sorted[t].1;
        assert(sorted@[t as int].0 == 0);
        let p = match placed.get(&k) {
            Some(p) => *p,
            None => {
                assert(false);
                return BinDoc { items };
            },
        };
        items.push(
            PlacementDoc {
                index: k,
                x: p.origin.x,
                y: p.origin.y,
                width: p.rect.width(),
                height: p.rect.height(),
                rotated: p.rotated,
            },
        );
    }
    proof {
        assert forall|i: int, j: int| 0 <= i < j < m implies (#[trigger] items@[i]).index < (#[trigger] items@[j]).index by {
            assert(pair_before(sorted@[i], sorted@[j]));
            assert(sorted@[i].0 == 0 && sorted@[j].0 == 0);
        }
        assert forall|k: usize| placed@.contains_key(k) <==> exists|i: int| 0 <= i < items.len() && (#[trigger] items@[i]).index == k by {
            if placed@.contains_key(k) {
                assert(ks.to_set().contains(k));
                let q = choose|q: int| 0 <= q < ks.len() && ks[q] == k;
                assert(keyed@[q] == (0u64, k));
                assert(keyed@.contains((0u64, k)));
                assert(sorted@.contains((0u64, k)));
                let t = choose|t: int| 0 <= t < m && sorted@[t] == (0u64, k);
                assert(items@[t].index == k);
            }
            if exists|i: int| 0 <= i < items.len() && (#[trigger] items@[i]).index == k {
                let i = choose|i: int| 0 <= i < items.len() && (#[trigger] items@[i]).index == k;
                assert(sorted@[i].0 == 0);
                assert(items@[i] == placement_doc(sorted@[i].1, placed@[sorted@[i].1]));
                assert(placed@.contains_key(sorted@[i].1));
            }
        }
    }
    let r = BinDoc { items };
    assert(r.items@ == items@);
    r
}

/// The placements of every bin of `sol`, each bin's sorted by item index.
pub fn bin_docs(sol: &Solution) -> (r: Vec<BinDoc>)
    ensures
        r.len() == sol.bins.len(),
        forall|b: int| 0 <= b < r.len() ==> is_bin_doc(sol@.bins[b], (#[trigger] r@[b]).items@),
        forall|b: int, i: int|
            0 <= b < r.len() && 0 <= i < r@[b].items.len() ==> {
                let d = #[trigger] r@[b].items@[i];
                let pl = sol@.bins[b].placed[d.index];
                &&& sol@.bins[b].placed.contains_key(d.index)
                &&& pl.rect.min.x == d.x
                &&& pl.rect.min.y == d.y
                &&& pl.rect.max.x == d.x + d.width
                &&& pl.rect.max.y == d.y + d.height
                &&& pl.rotated == d.rotated
            },
{
    let mut out: Vec<BinDoc> = Vec::new();
    let n = sol.bins.len();
    for b in 0..n
        invariant
            n == sol.bins.len(),
            out.len() == b,
            forall|q: int| 0 <= q < b ==> is_bin_doc(sol@.bins[q], (#[trigger] out@[q]).items@),
            forall|q: int, i: int|
                0 <= q < b && 0 <= i < out@[q].items.len() ==> {
                    let d = #[trigger] out@[q].items@[i];
                    let pl = sol@.bins[q].placed[d.index];
                    &&& sol@.bins[q].placed.contains_key(d.index)
                    &&& pl.rect.min.x == d.x
                    &&& pl.rect.min.y == d.y
                    &&& pl.rect.max.x == d.x + d.width
                    &&& pl.rect.max.y == d.y + d.height
                    &&& pl.rotated == d.rotated
                },
    {
        let bin = &sol.bins[b];
        proof {
            use_type_invariant(bin);
        }
        let placed = bin.placements();
        proof {
            let c = sol@.bins[b as int];
            assert(c == sol.bins@[b as int]@);
            assert forall|k: usize| #[trigger] placed@.contains_key(k) implies placed@[k].rect.is_valid() by {
                assert(c.placed.contains_key(k));
                assert(c.placed[k].rect.within(c.width as int, c.height as int));
            }
        }
        let d = bin_doc(placed);
        proof {
            assert(sol@.bins[b as int].inv());
            lemma_bin_doc_rects(sol@.bins[b as int], d.items@);
        }
        out.push(d);
    }
    out
}

} // verus!
