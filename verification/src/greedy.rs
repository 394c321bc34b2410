//! First-fit-decreasing: the greedy baseline.
use vstd::prelude::*;

use crate::decoder::{
    fits_empty_bin, lemma_pack_laws, lemma_unplaced_exactly, pack, pack_in_order, packing_laws,
    Solution,
};
use crate::instance::Instance;
use crate::item::Item;
use crate::sorting::{pair_before, sort_by_key_desc, sorted_by_key_desc};

verus! {

pub open spec fn area(it: Item) -> int {
    it.width * it.height
}

/// `order` lists every item index once, by descending area, ties by
/// ascending index.
pub open spec fn is_area_order(items: Seq<Item>, order: Seq<usize>) -> bool {
    &&& order.len() == items.len()
    &&& forall|k: usize| #[trigger] order.contains(k) <==> k < items.len()
    &&& forall|i: int, j: int|
        0 <= i < j < order.len() ==> {
            let a = #[trigger] order[i];
            let b = #[trigger] order[j];
            area(items[a as int]) > area(items[b as int]) || (area(items[a as int]) == area(
                items[b as int],
            ) && a < b)
        }
}

/// The items by descending area, ties by ascending index.
pub open spec fn area_order(items: Seq<Item>) -> Seq<usize> {
    choose|order: Seq<usize>| is_area_order(items, order)
}

/// There is only one order by descending area; it lists no index twice.
pub proof fn lemma_area_order_unique(items: Seq<Item>, o1: Seq<usize>, o2: Seq<usize>)
    requires
        is_area_order(items, o1),
        is_area_order(items, o2),
    ensures
        o1 == o2,
        o1.no_duplicates(),
{
    assert forall|a: int, b: int| 0 <= a < o1.len() && 0 <= b < o1.len() && a != b implies o1[a]
        != o1[b] by {
        if a > b {
            assert(o1[b] != o1[a]);
        }
    }
    assert forall|a: int, b: int| 0 <= a < o2.len() && 0 <= b < o2.len() && a != b implies o2[a]
        != o2[b] by {
        if a > b {
            assert(o2[b] != o2[a]);
        }
    }
    lemma_prefix_equal(items, o1, o2, o1.len() as int);
    assert(o1 =~= o2);
}

proof fn lemma_prefix_equal(items: Seq<Item>, o1: Seq<usize>, o2: Seq<usize>, k: int)
    requires
        is_area_order(items, o1),
        is_area_order(items, o2),
        o1.no_duplicates(),
        o2.no_duplicates(),
        0 <= k <= o1.len(),
    ensures
        forall|i: int| 0 <= i < k ==> o1[i] == o2[i],
    decreases k,
{
    if k > 0 {
        lemma_prefix_equal(items, o1, o2, k - 1);
        let i = k - 1;
        let x = o1[i];
        let y = o2[i];
        if x != y {
            assert(o1.contains(x));
            assert(o2.contains(x));
            assert(o2.contains(y));
            assert(o1.contains(y));
            let j = choose|j: int| 0 <= j < o2.len() && o2[j] == x;
            let j1 = choose|j1: int| 0 <= j1 < o1.len() && o1[j1] == y;
            if j < i {
                assert(o1[j] == x);
            } else if j1 < i {
                assert(o2[j1] == y);
            } else {
                assert(j > i && j1 > i);
                assert(area(items[y as int]) > area(items[x as int]) || (area(items[y as int])
                    == area(items[x as int]) && y < x));
                assert(area(items[x as int]) > area(items[y as int]) || (area(items[x as int])
                    == area(items[y as int]) && x < y));
            }
        }
    }
}

/// An order by descending area lists every item index once, each item's
/// `width * height` at least that of every later item, and equal products in
/// ascending index order.
pub proof fn lemma_area_order_by_product(items: Seq<Item>, order: Seq<usize>)
    requires
        is_area_order(items, order),
    ensures
        order.len() == items.len(),
        order.no_duplicates(),
        forall|k: usize| #[trigger] order.contains(k) <==> k < items.len(),
        forall|i: int, j: int|
            0 <= i < j < order.len() ==> {
                let a = items[#[trigger] order[i] as int];
                let b = items[#[trigger] order[j] as int];
                a.width * a.height > b.width * b.height || (a.width * a.height == b.width
                    * b.height && order[i] < order[j])
            },
{
    lemma_area_order_unique(items, order, order);
    assert forall|i: int, j: int| 0 <= i < j < order.len() implies {
        let a = items[#[trigger] order[i] as int];
        let b = items[#[trigger] order[j] as int];
        a.width * a.height > b.width * b.height || (a.width * a.height == b.width * b.height
            && order[i] < order[j])
    } by {
        assert(area(items[order[i] as int]) > area(items[order[j] as int]) || (area(
            items[order[i] as int],
        ) == area(items[order[j] as int]) && order[i] < order[j]));
    }
}

/// First-fit-decreasing greedy baseline: items are sorted by descending area
/// (ties keep ascending index order), then placed via first-fit across the open
/// bins using the conflict-aware, auto-rotating `Container::try_insert` (a new bin
/// is opened when none accepts the item). Returns a `decoder::Solution`.
pub fn solve(instance: &Instance) -> (sol: Solution)
    ensures
        sol@ == pack(
            instance.items@,
            instance.conflicts@,
            instance.width,
            instance.height,
            area_order(instance.items@),
            None,
        ),
        is_area_order(instance.items@, area_order(instance.items@)),
        forall|i: int, j: int|
            #![trigger area_order(instance.items@)[i], area_order(instance.items@)[j]]
            0 <= i < j < instance.items.len() ==> {
                let a = instance.items@[area_order(instance.items@)[i] as int];
                let b = instance.items@[area_order(instance.items@)[j] as int];
                a.width * a.height > b.width * b.height || (a.width * a.height == b.width
                    * b.height && area_order(instance.items@)[i] < area_order(instance.items@)[j])
            },
        area_order(instance.items@).no_duplicates(),
        forall|b: int| 0 <= b < sol@.bins.len() ==> (#[trigger] sol@.bins[b]).inv(),
        packing_laws(
            sol@,
            instance.items@,
            instance.conflicts@,
            instance.width,
            instance.height,
            area_order(instance.items@),
            None,
        ),
        forall|k: usize|
            k < instance.items.len() ==> (#[trigger] sol@.unplaced.contains(k) <==> !fits_empty_bin(
                instance.items@[k as int],
                instance.width,
                instance.height,
                None,
            )),
{
    let ghost items = instance.items@;
    let n = instance.items.len();
    let mut keyed: Vec<(u64, usize)> = Vec::new();
    for i in 0..n
        invariant
            n == instance.items.len(),
            items == instance.items@,
            keyed.len() == i,
            forall|k: int|
                0 <= k < i ==> #[trigger] keyed@[k] == (area(items[k]) as u64, k as usize),
            forall|k: int| 0 <= k < i ==> area(items[k]) <= u64::MAX,
    {
        let it = instance.items[i];
        let w = it.width as u64;
        let h = it.height as u64;
        assert(w * h <= u64::MAX) by (nonlinear_arith)
            requires
                w <= u32::MAX,
                h <= u32::MAX,
        ;
        keyed.push((w * h, i));
    }
    assert(keyed@.no_duplicates()) by {
        assert forall|a: int, b: int| 0 <= a < keyed.len() && 0 <= b < keyed.len() && a != b implies keyed@[a]
            != keyed@[b] by {
            assert(keyed@[a].1 == a && keyed@[b].1 == b);
        }
    }
    let sorted = sort_by_key_desc(&keyed);
    let mut order: Vec<usize> = Vec::new();
    let m = sorted.len();
    for t in 0..m
        invariant
            m == sorted.len(),
            order.len() == t,
            forall|k: int| 0 <= k < t ==> #[trigger] order@[k] == sorted@[k].1,
    {
        order.push(sorted[t].1);
    }
    proof {
        assert forall|t: int| 0 <= t < m implies #[trigger] sorted@[t] == (
            area(items[sorted@[t].1 as int]) as u64,
            sorted@[t].1,
        ) && sorted@[t].1 < n by {
            assert(sorted@.contains(sorted@[t]));
            assert(keyed@.contains(sorted@[t]));
            let k = choose|k: int| 0 <= k < keyed.len() && keyed@[k] == sorted@[t];
        }
        assert forall|k: usize| #[trigger] order@.contains(k) <==> k < items.len() by {
            if k < items.len() {
                assert(keyed@[k as int] == (area(items[k as int]) as u64, k));
                assert(keyed@.contains(keyed@[k as int]));
                assert(sorted@.contains(keyed@[k as int]));
                let t = choose|t: int| 0 <= t < m && sorted@[t] == keyed@[k as int];
                assert(order@[t] == k);
            }
            if order@.contains(k) {
                let t = choose|t: int| 0 <= t < m && order@[t] == k;
            }
        }
        assert forall|i: int, j: int| 0 <= i < j < order.len() implies {
            let a = #[trigger] order@[i];
            let b = #[trigger] order@[j];
            area(items[a as int]) > area(items[b as int]) || (area(items[a as int]) == area(
                items[b as int],
            ) && a < b)
        } by {
            assert(pair_before(sorted@[i], sorted@[j]));
        }
        assert(is_area_order(items, order@));
        lemma_area_order_unique(items, order@, area_order(items));
        lemma_area_order_by_product(items, order@);
        assert forall|t: int| 0 <= t < order.len() implies (#[trigger] order@[t]) < items.len() by {
            assert(order@.contains(order@[t]));
        }
    }
    let sol = pack_in_order(instance, &order, None);
    proof {
        lemma_pack_laws(items, instance.conflicts@, instance.width, instance.height, order@, None);
        lemma_unplaced_exactly(sol@, items, instance.conflicts@, instance.width, instance.height, order@, None);
        assert forall|k: usize| k < items.len() implies (#[trigger] sol@.unplaced.contains(k) <==> !fits_empty_bin(
            items[k as int],
            instance.width,
            instance.height,
            None,
        )) by {
            assert(order@.contains(k));
        }
    }
    sol
}

} // verus!
