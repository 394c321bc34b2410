use binpack::conflict_graph::ConflictGraph;
use binpack::container::Container;
use binpack::ems::{Ems, Point};
use binpack::item::Item;

fn item(width: u32, height: u32) -> Item {
    Item {
        height,
        width,
        client: 0,
    }
}

fn a_rect() -> Ems {
    Ems::new(Point { x: 0, y: 0 }, Point { x: 2, y: 2 })
}

#[test]
fn stacks_bottom_left() {
    let mut c = Container::new(4, 4);
    let a = item(4, 1);
    let b = item(4, 1);
    assert_eq!(c.place(&a, 0), Some(Point { x: 0, y: 0 }));
    // Lowest available row is y == 1, directly above the first item.
    assert_eq!(c.place(&b, 1), Some(Point { x: 0, y: 1 }));
    assert!(!c.placements()[&0].rotated);
}

#[test]
fn rotates_to_fit() {
    // 2x4 container; a 4x2 item only fits rotated to 2x4.
    let mut c = Container::new(2, 4);
    let tall = item(4, 2);
    assert_eq!(c.place(&tall, 0), Some(Point { x: 0, y: 0 }));
    assert!(c.placements()[&0].rotated);
}

#[test]
fn rejects_duplicate_index() {
    let mut c = Container::new(4, 4);
    let a = item(2, 2);
    let b = item(1, 1);
    let first = c.place(&a, 0);
    assert!(first.is_some());
    // Same index again: refused, original placement untouched.
    assert_eq!(c.place(&b, 0), None);
    assert_eq!(c.placements().len(), 1);
    assert_eq!(c.placements()[&0].rect, a_rect());
}

#[test]
fn try_insert_rejects_conflicting_item() {
    let mut c = Container::new(10, 10);
    let mut g = ConflictGraph::new();
    g.add_conflict(0usize, 1usize); // items 0 and 1 conflict

    let it = item(2, 2);
    assert!(c.try_insert(&it, 0, &g).is_some());
    // Item 1 conflicts with the already-placed item 0: refused.
    assert_eq!(c.try_insert(&it, 1, &g), None);
    assert_eq!(c.placements().len(), 1);
    assert!(!c.placements().contains_key(&1));
    // Item 2 has no conflict edge: accepted.
    assert!(c.try_insert(&it, 2, &g).is_some());
}

#[test]
fn try_insert_without_conflicts_behaves_like_place() {
    let mut c = Container::new(10, 10);
    let g: ConflictGraph<usize> = ConflictGraph::new();
    let it = item(3, 3);
    assert_eq!(c.try_insert(&it, 0, &g), Some(Point { x: 0, y: 0 }));
    assert_eq!(c.placements().len(), 1);
}

#[test]
fn try_insert_still_gated_by_geometry() {
    let mut c = Container::new(2, 2);
    let g: ConflictGraph<usize> = ConflictGraph::new();
    let big = item(5, 5); // doesn't fit, no conflict involved
    assert_eq!(c.try_insert(&big, 0, &g), None);
    assert!(c.placements().is_empty());
}

// --- further cases ---

fn overlaps(a: &Ems, b: &Ems) -> bool {
    a.intersects(b)
}

#[test]
fn placements_never_overlap_and_stay_in_the_bin() {
    let mut c = Container::new(10, 7);
    let sizes = [(3, 2), (4, 4), (2, 5), (6, 1), (1, 1), (5, 3), (2, 2), (3, 3)];
    for (i, &(w, h)) in sizes.iter().enumerate() {
        let _ = c.place(&item(w, h), i);
    }
    let rects: Vec<Ems> = c.placements().values().map(|p| p.rect).collect();
    assert!(rects.len() >= 4);
    for (i, a) in rects.iter().enumerate() {
        assert!(a.max.x <= 10 && a.max.y <= 7);
        for (j, b) in rects.iter().enumerate() {
            if i != j {
                assert!(!overlaps(a, b));
            }
        }
    }
}

#[test]
fn second_item_goes_right_of_the_first_on_the_floor() {
    let mut c = Container::new(10, 10);
    assert_eq!(c.place(&item(2, 2), 0), Some(Point { x: 0, y: 0 }));
    assert_eq!(c.place(&item(2, 2), 1), Some(Point { x: 2, y: 0 }));
    assert_eq!(c.placements()[&1].rect, Ems::new(Point { x: 2, y: 0 }, Point { x: 4, y: 2 }));
}

#[test]
fn upright_wins_when_both_orientations_fit() {
    let mut c = Container::new(10, 10);
    assert_eq!(c.place(&item(4, 2), 0), Some(Point { x: 0, y: 0 }));
    let p = c.placements()[&0];
    assert!(!p.rotated);
    assert_eq!(p.rect.width(), 4);
    assert_eq!(p.rect.height(), 2);
}

#[test]
fn place_oriented_honors_the_given_orientation() {
    let mut c = Container::new(10, 10);
    assert_eq!(c.place_oriented(&item(4, 2), 0, true), Some(Point { x: 0, y: 0 }));
    let p = c.placements()[&0];
    assert!(p.rotated);
    assert_eq!(p.rect.width(), 2);
    assert_eq!(p.rect.height(), 4);
    // Refuses an orientation that does not fit, and a repeated index.
    let mut d = Container::new(10, 3);
    assert_eq!(d.place_oriented(&item(10, 3), 0, true), None);
    assert_eq!(d.place_oriented(&item(10, 3), 0, false), Some(Point { x: 0, y: 0 }));
    assert_eq!(d.place_oriented(&item(1, 1), 0, false), None);
}

#[test]
fn try_insert_oriented_checks_conflicts_first() {
    let mut c = Container::new(10, 10);
    let mut g = ConflictGraph::new();
    g.add_conflict(3usize, 4usize);
    assert!(c.try_insert_oriented(&item(1, 1), 3, false, &g).is_some());
    assert_eq!(c.try_insert_oriented(&item(1, 1), 4, false, &g), None);
    // The conflict is symmetric.
    let mut d = Container::new(10, 10);
    assert!(d.try_insert_oriented(&item(1, 1), 4, true, &g).is_some());
    assert_eq!(d.try_insert_oriented(&item(1, 1), 3, true, &g), None);
}

#[test]
fn a_full_bin_refuses_everything() {
    let mut c = Container::new(3, 3);
    assert_eq!(c.place(&item(3, 3), 0), Some(Point { x: 0, y: 0 }));
    assert_eq!(c.place(&item(1, 1), 1), None);
    assert_eq!(c.placements().len(), 1);
}

#[test]
fn zero_sized_bin_takes_only_empty_items() {
    let mut c = Container::new(0, 5);
    assert_eq!(c.place(&item(1, 1), 0), None);
    assert_eq!(c.place(&item(0, 0), 1), Some(Point { x: 0, y: 0 }));
}

#[test]
fn placements_are_exactly_the_successful_calls() {
    let mut c = Container::new(6, 6);
    let mut g = ConflictGraph::new();
    g.add_conflict(1usize, 2usize);
    let mut succeeded = Vec::new();
    let calls: Vec<(usize, u32, u32)> = vec![(0, 3, 3), (1, 2, 2), (2, 1, 1), (0, 1, 1), (3, 7, 1), (4, 3, 3)];
    for &(index, w, h) in &calls {
        if let Some(o) = c.try_insert(&item(w, h), index, &g) {
            succeeded.push((index, o));
        }
    }
    let mut keys: Vec<usize> = c.placements().keys().copied().collect();
    keys.sort();
    assert_eq!(keys, vec![0, 1, 4]);
    for (index, o) in succeeded {
        assert_eq!(c.placements()[&index].origin, o);
    }
    // The first placement of item 0 stays as it was recorded.
    assert_eq!(c.placements()[&0].rect, Ems::new(Point { x: 0, y: 0 }, Point { x: 3, y: 3 }));
}

#[test]
fn no_free_area_is_lost_around_placements() {
    let mut c = Container::new(4, 4);
    assert_eq!(c.place(&item(2, 2), 0), Some(Point { x: 0, y: 0 }));
    // The L-shaped rest of the bin is still fully usable.
    assert_eq!(c.place_oriented(&item(2, 4), 1, false), Some(Point { x: 2, y: 0 }));
    assert_eq!(c.place_oriented(&item(2, 2), 2, false), Some(Point { x: 0, y: 2 }));
    assert_eq!(c.place(&item(1, 1), 3), None);
}
