use binpack::conflict_graph::ConflictGraph;
use binpack::decoder::{pack_decoded, Decoded, Solution};
use binpack::instance::Instance;
use binpack::item::Item;

fn item(width: u32, height: u32) -> Item {
    Item {
        height,
        width,
        client: 0,
    }
}

/// Build an instance with the given items and conflict edges.
fn instance(width: u32, height: u32, items: Vec<Item>, edges: &[(usize, usize)]) -> Instance {
    let mut conflicts = ConflictGraph::new();
    for i in 0..items.len() {
        conflicts.add_node(i);
    }
    for &(a, b) in edges {
        conflicts.add_conflict(a, b);
    }
    Instance {
        items,
        width,
        height,
        conflicts,
    }
}

/// The decoded form of the keys that order all items upright, in natural
/// order 0, 1, 2, ...
fn upright_keys(n: usize) -> Decoded {
    Decoded {
        order: (0..n).collect(),
        rotated: vec![false; n],
    }
}

#[test]
fn conflicting_items_force_separate_bins() {
    let inst = instance(10, 10, vec![item(2, 2), item(2, 2)], &[(0, 1)]);
    let sol = pack_decoded(&inst, &upright_keys(2));
    assert_eq!(sol.bins_used(), 2);
    assert!(sol.unplaced.is_empty());
}

#[test]
fn non_conflicting_items_share_a_bin() {
    let inst = instance(10, 10, vec![item(2, 2), item(2, 2)], &[]);
    let sol = pack_decoded(&inst, &upright_keys(2));
    assert_eq!(sol.bins_used(), 1);
}

#[test]
fn forced_orientation_is_honored() {
    // A 4x2 item forced rotated lands as a 2x4 footprint.
    let inst = instance(10, 10, vec![item(4, 2)], &[]);
    let mut keys = upright_keys(1);
    keys.rotated[0] = true; // orientation key for item 0: rotated
    let sol = pack_decoded(&inst, &keys);
    assert_eq!(sol.bins_used(), 1);
    let p = &sol.bins[0].placements()[&0];
    assert!(p.rotated);
    assert_eq!(p.rect.width(), 2);
    assert_eq!(p.rect.height(), 4);
}

#[test]
fn infeasible_forced_orientation_is_penalized() {
    // A 10x3 item fits a 10x3 bin upright, but rotated (3x10) is 10 tall > 3.
    let inst = instance(10, 3, vec![item(10, 3)], &[]);
    let mut keys = upright_keys(1);
    keys.rotated[0] = true; // force rotated -> cannot fit
    let sol = pack_decoded(&inst, &keys);
    assert_eq!(sol.bins_used(), 0);
    assert_eq!(sol.unplaced, vec![0]);
}

// --- further cases ---

#[test]
fn first_fit_reuses_the_earliest_bin_with_room() {
    // Items 0 and 1 conflict; item 2 conflicts with neither and goes to bin 0.
    let inst = instance(10, 10, vec![item(5, 5), item(5, 5), item(5, 5)], &[(0, 1)]);
    let sol = pack_decoded(&inst, &upright_keys(3));
    assert_eq!(sol.bins_used(), 2);
    assert!(sol.bins[0].placements().contains_key(&0));
    assert!(sol.bins[0].placements().contains_key(&2));
    assert!(sol.bins[1].placements().contains_key(&1));
}

#[test]
fn insertion_order_is_followed() {
    let inst = instance(10, 10, vec![item(2, 2), item(3, 3)], &[]);
    let sol = pack_decoded(
        &inst,
        &Decoded {
            order: vec![1, 0],
            rotated: vec![false, false],
        },
    );
    let placed = sol.bins[0].placements();
    assert_eq!((placed[&1].origin.x, placed[&1].origin.y), (0, 0));
    assert_eq!((placed[&0].origin.x, placed[&0].origin.y), (3, 0));
}

#[test]
fn penalized_cost_counts_unplaced_items_above_any_feasible_packing() {
    let inst = instance(10, 3, vec![item(10, 3), item(2, 2)], &[]);
    let sol = pack_decoded(
        &inst,
        &Decoded {
            order: vec![0, 1],
            rotated: vec![true, false],
        },
    );
    assert_eq!(sol.unplaced, vec![0]);
    assert_eq!(sol.bins_used(), 1);
    // 1 bin + 1 unplaced * (2 + 1)
    assert_eq!(sol.penalized_bins(2), 4);
    let feasible = pack_decoded(&inst, &upright_keys(2));
    assert!(feasible.unplaced.is_empty());
    assert!(feasible.penalized_bins(2) < sol.penalized_bins(2));
    let empty = Solution {
        bins: Vec::new(),
        unplaced: Vec::new(),
    };
    assert_eq!(empty.penalized_bins(5), 0);
}

#[test]
fn every_item_is_accounted_for_exactly_once() {
    let items: Vec<Item> = (0..12).map(|i| item(1 + (i % 4), 1 + (i % 3))).collect();
    let inst = instance(5, 5, items, &[(0, 1), (2, 3), (4, 5), (1, 6)]);
    let sol = pack_decoded(&inst, &upright_keys(12));
    let mut seen = vec![0; 12];
    for bin in &sol.bins {
        assert!(!bin.placements().is_empty());
        for k in bin.placements().keys() {
            seen[*k] += 1;
        }
        for (a, b) in [(0usize, 1usize), (2, 3), (4, 5), (1, 6)] {
            assert!(!(bin.placements().contains_key(&a) && bin.placements().contains_key(&b)));
        }
    }
    for k in &sol.unplaced {
        seen[*k] += 1;
    }
    assert!(seen.iter().all(|&s| s == 1));
    assert!(sol.bins_used() <= 12);
}
