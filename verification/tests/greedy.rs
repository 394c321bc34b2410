use binpack::conflict_graph::ConflictGraph;
use binpack::greedy::solve;
use binpack::instance::Instance;
use binpack::item::Item;

fn item(width: u32, height: u32) -> Item {
    Item {
        height,
        width,
        client: 0,
    }
}

fn instance(width: u32, height: u32, items: Vec<Item>, edges: &[(usize, usize)]) -> Instance {
    let mut conflicts = ConflictGraph::new();
    for i in 0..items.len() {
        conflicts.add_node(i);
    }
    for &(a, b) in edges {
        conflicts.add_conflict(a, b);
    }
    Instance {
        items,
        width,
        height,
        conflicts,
    }
}

#[test]
fn packs_non_conflicting_items_into_one_bin() {
    let inst = instance(10, 10, vec![item(2, 2), item(3, 3), item(4, 4)], &[]);
    let sol = solve(&inst);
    assert_eq!(sol.bins_used(), 1);
    assert!(sol.unplaced.is_empty());
}

#[test]
fn conflicts_force_separate_bins() {
    let inst = instance(10, 10, vec![item(2, 2), item(2, 2)], &[(0, 1)]);
    let sol = solve(&inst);
    assert_eq!(sol.bins_used(), 2);
}

// --- further cases ---

#[test]
fn largest_item_is_placed_first() {
    let inst = instance(10, 10, vec![item(2, 2), item(3, 3), item(4, 4)], &[]);
    let sol = solve(&inst);
    let placed = sol.bins[0].placements();
    assert_eq!((placed[&2].origin.x, placed[&2].origin.y), (0, 0));
    assert_eq!((placed[&1].origin.x, placed[&1].origin.y), (4, 0));
    assert_eq!((placed[&0].origin.x, placed[&0].origin.y), (7, 0));
}

#[test]
fn equal_areas_keep_index_order() {
    let inst = instance(10, 10, vec![item(1, 4), item(2, 2), item(4, 1)], &[]);
    let sol = solve(&inst);
    let placed = sol.bins[0].placements();
    assert_eq!((placed[&0].origin.x, placed[&0].origin.y), (0, 0));
    assert_eq!((placed[&1].origin.x, placed[&1].origin.y), (1, 0));
    assert_eq!((placed[&2].origin.x, placed[&2].origin.y), (3, 0));
}

#[test]
fn greedy_rotates_when_needed() {
    let inst = instance(2, 10, vec![item(5, 2)], &[]);
    let sol = solve(&inst);
    assert_eq!(sol.bins_used(), 1);
    assert!(sol.bins[0].placements()[&0].rotated);
}

#[test]
fn oversized_items_are_unplaced() {
    let inst = instance(4, 4, vec![item(5, 1), item(2, 2)], &[]);
    let sol = solve(&inst);
    assert_eq!(sol.unplaced, vec![0]);
    assert_eq!(sol.bins_used(), 1);
}

#[test]
fn a_new_bin_opens_when_the_first_is_full() {
    let inst = instance(4, 4, vec![item(4, 4), item(4, 4), item(1, 1)], &[]);
    let sol = solve(&inst);
    assert_eq!(sol.bins_used(), 3);
    assert!(sol.unplaced.is_empty());
}
