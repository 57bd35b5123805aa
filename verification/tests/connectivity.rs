use cities::graph::EdgeStore;

fn store_of(pairs: &[(&str, &str)]) -> EdgeStore {
    let mut store = EdgeStore::new();
    for (a, b) in pairs {
        store.add((a.to_string(), b.to_string()));
    }
    store
}

fn query(store: &EdgeStore, a: &str, b: &str) -> bool {
    store.is_connected(&a.to_string(), &b.to_string())
}

#[test]
fn direct_edge_connects() {
    let store = store_of(&[("London", "Paris")]);
    assert!(query(&store, "London", "Paris"));
    assert!(query(&store, "Paris", "London"));
}

#[test]
fn symmetry_agrees_on_every_pair() {
    let store = store_of(&[("A", "B"), ("B", "C"), ("D", "E")]);
    let names = ["A", "B", "C", "D", "E", "F"];
    for a in names {
        for b in names {
            assert_eq!(query(&store, a, b), query(&store, b, a));
        }
    }
}

#[test]
fn two_edges_reach_across_middle() {
    let store = store_of(&[("A", "B"), ("B", "C")]);
    assert!(query(&store, "A", "C"));
}

#[test]
fn disconnected_components_stay_apart() {
    let store = store_of(&[("A", "B"), ("C", "D")]);
    assert!(query(&store, "A", "B"));
    assert!(query(&store, "C", "D"));
    assert!(!query(&store, "A", "C"));
    assert!(!query(&store, "A", "D"));
    assert!(!query(&store, "B", "C"));
    assert!(!query(&store, "B", "D"));
}

#[test]
fn cycle_terminates_with_correct_answers() {
    let store = store_of(&[("A", "B"), ("B", "C"), ("C", "A")]);
    let on_cycle = ["A", "B", "C"];
    for a in on_cycle {
        for b in on_cycle {
            assert!(query(&store, a, b));
        }
    }
    assert!(!query(&store, "A", "D"));
    assert!(!query(&store, "D", "A"));
}

#[test]
fn self_loop_connects_node_to_itself() {
    let store = store_of(&[("A", "A")]);
    assert!(query(&store, "A", "A"));
}

#[test]
fn self_query_walks_back_through_any_edge() {
    // A node reaches itself exactly when some edge touches it: one plain
    // edge already lets the walk step out and straight back.
    let store = store_of(&[("A", "B")]);
    assert!(query(&store, "A", "A"));
    assert!(query(&store, "B", "B"));
    assert!(!query(&store, "C", "C"));
}

#[test]
fn unknown_nodes_are_not_connected() {
    let store = store_of(&[("London", "Paris")]);
    assert!(!query(&store, "Nowhere", "Atlantis"));
    assert!(!query(&store, "Atlantis", "Nowhere"));
    assert!(!query(&store, "Nowhere", "London"));
}

#[test]
fn empty_store_connects_nothing() {
    let store = EdgeStore::new();
    assert!(!query(&store, "A", "A"));
    assert!(!query(&store, "A", "B"));
}

#[test]
fn duplicate_edges_change_nothing() {
    let store = store_of(&[("A", "B"), ("A", "B"), ("B", "A")]);
    assert!(query(&store, "A", "B"));
    assert!(!query(&store, "A", "C"));
}

#[test]
fn neighbors_follow_insertion_order() {
    let store = store_of(&[("A", "B"), ("C", "A"), ("A", "A"), ("C", "D")]);
    let ns = store.neighbors(&"A".to_string());
    assert_eq!(ns, vec!["B".to_string(), "C".to_string(), "A".to_string()]);
    let none = store.neighbors(&"E".to_string());
    assert!(none.is_empty());
}

#[test]
fn long_chain_is_connected_end_to_end() {
    let mut store = EdgeStore::new();
    for i in 0..100u32 {
        store.add((format!("n{}", i), format!("n{}", i + 1)));
    }
    assert!(store.is_connected(&"n0".to_string(), &"n100".to_string()));
    assert!(!store.is_connected(&"n0".to_string(), &"m1".to_string()));
}
