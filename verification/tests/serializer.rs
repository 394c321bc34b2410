use binpack::conflict_graph::ConflictGraph;
use binpack::greedy::solve;
use binpack::instance::Instance;
use binpack::item::Item;
use binpack::serializer::{bin_docs, PlacementDoc};

#[test]
fn bin_documents_list_placements_by_index() {
    let items = vec![
        Item::new(2, 2, 0),
        Item::new(3, 3, 0),
        Item::new(1, 4, 0),
        Item::new(9, 9, 0),
    ];
    let mut conflicts = ConflictGraph::new();
    for i in 0..items.len() {
        conflicts.add_node(i);
    }
    let inst = Instance {
        items,
        width: 8,
        height: 8,
        conflicts,
    };
    let sol = solve(&inst);
    assert_eq!(sol.unplaced, vec![3]);
    let docs = bin_docs(&sol);
    assert_eq!(docs.len(), 1);
    let idx: Vec<usize> = docs[0].items.iter().map(|p| p.index).collect();
    assert_eq!(idx, vec![0, 1, 2]);
    assert_eq!(
        docs[0].items[1],
        PlacementDoc {
            index: 1,
            x: 0,
            y: 0,
            width: 3,
            height: 3,
            rotated: false,
        }
    );
    // Item 2 is 4 wide and 1 high; on the floor only a 3-wide gap is left
    // right of items 1 and 0, so it stands there turned.
    assert_eq!(
        docs[0].items[2],
        PlacementDoc {
            index: 2,
            x: 5,
            y: 0,
            width: 1,
            height: 4,
            rotated: true,
        }
    );
}
