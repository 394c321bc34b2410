use binpack::instance::{assemble, instance_from_demands, ItemDemand};
use binpack::item::Item;

#[test]
fn reads_clients_and_item_conflicts() {
    // { "Objects": [{ "Length": 100, "Height": 100 }],
    //   "Items": [ { "Length": 10, "Height": 20, "Demand": 1, "Client": 0 },
    //              { "Length": 5,  "Height": 5,  "Demand": 1, "Client": 1 },
    //              { "Length": 7,  "Height": 3,  "Demand": 1, "Client": 1 } ],
    //   "NumClients": 2, "Conflicts": [[0, 1], [1, 2]] }
    let demands = vec![
        ItemDemand { width: 10, height: 20, count: 1, client: Some(0) },
        ItemDemand { width: 5, height: 5, count: 1, client: Some(1) },
        ItemDemand { width: 7, height: 3, count: 1, client: Some(1) },
    ];
    let inst = instance_from_demands(100, 100, &demands, Some(vec![(0, 1), (1, 2)]));

    assert_eq!(inst.items.len(), 3);
    assert_eq!(inst.items[0].client, 0);
    assert_eq!(inst.items[1].client, 1);
    assert_eq!(inst.items[2].client, 1);

    // Item-indexed conflict graph: nodes 0,1,2; edges (0,1) and (1,2).
    assert_eq!(inst.conflicts.adjacency.len(), 3);
    assert_eq!(inst.conflicts.degree(&1), 2);
    assert_eq!(inst.conflicts.degree(&0), 1);
    assert_eq!(inst.conflicts.degree(&2), 1);
    assert!(inst.conflicts.adjacency[&0].contains(&1));
    assert!(inst.conflicts.adjacency[&1].contains(&2));
}

#[test]
fn defaults_when_conflict_fields_absent() {
    // { "Objects": [{ "Length": 50, "Height": 50 }],
    //   "Items": [ { "Length": 10, "Height": 20, "Demand": 2 },
    //              { "Length": 5,  "Height": 5,  "Demand": 1 } ] }
    let demands = vec![
        ItemDemand { width: 10, height: 20, count: 2, client: None },
        ItemDemand { width: 5, height: 5, count: 1, client: None },
    ];
    let inst = instance_from_demands(50, 50, &demands, None);

    // Demand expands to 3 items, all client 0, conflict-free.
    assert_eq!(inst.items.len(), 3);
    assert!(inst.items.iter().all(|i| i.client == 0));
    assert_eq!(inst.conflicts.adjacency.len(), 3);
    assert!((0..3).all(|i| inst.conflicts.degree(&i) == 0));
}

// --- further cases ---

#[test]
fn demands_expand_in_row_order() {
    let demands = vec![
        ItemDemand { width: 1, height: 2, count: 2, client: Some(7) },
        ItemDemand { width: 3, height: 4, count: 0, client: None },
        ItemDemand { width: 5, height: 6, count: 1, client: None },
    ];
    let inst = instance_from_demands(9, 8, &demands, Some(vec![]));
    assert_eq!((inst.width, inst.height), (9, 8));
    let dims: Vec<(u32, u32, u32)> = inst.items.iter().map(|i| (i.width, i.height, i.client)).collect();
    assert_eq!(dims, vec![(1, 2, 7), (1, 2, 7), (5, 6, 0)]);
}

#[test]
fn assemble_adds_every_item_and_ignores_self_loops() {
    let items = vec![Item::new(1, 1, 0), Item::new(2, 2, 0)];
    let inst = assemble(5, 5, items, vec![(0, 0), (0, 1), (1, 0), (3, 4)]);
    assert_eq!(inst.items.len(), 2);
    // Nodes 0 and 1, plus the ends 3 and 4 of an edge beyond the items.
    assert_eq!(inst.conflicts.adjacency.len(), 4);
    assert_eq!(inst.conflicts.degree(&0), 1);
    assert_eq!(inst.conflicts.degree(&1), 1);
    assert!(inst.conflicts.adjacency[&3].contains(&4));
    assert!(!inst.conflicts.adjacency[&0].contains(&0));
}
