use eta_graph::algorithms::path_finding::{a_star, dijkstra, MinHeapPair};
use eta_graph::handles::vh;
use eta_graph::edge_storage::EdgeStorage;
use eta_graph::traits::WeightedEdgeConnect;
use eta_graph::weighted_graph::WeightedGraph;

#[test]
fn dijkstra_dijkstra_test_basic() {
    let mut weighted_graph = WeightedGraph::<&str, EdgeStorage>::new();
    let s = weighted_graph.graph.create("s", 2);
    let a = weighted_graph.create_and_connect_weighted(s, "a", 20, 1);
    let b = weighted_graph.create_and_connect_weighted(s, "b", 5, 2);
    let c = weighted_graph.create_and_connect_weighted(b, "c", 2, 1);
    weighted_graph.graph.edge_storage.connect_weighted(a, c, 1);
    let d = weighted_graph.create_and_connect_weighted(c, "d", 1, 1);
    let e = weighted_graph.create_and_connect_weighted(d, "e", 2, 2);
    weighted_graph.graph.edge_storage.connect_weighted(b, e, 4);
    let f = weighted_graph.create_and_connect_weighted(e, "f", 5, 1);
    let g = weighted_graph.create_and_connect_weighted(e, "g", 1, 1);
    let t = weighted_graph.create_and_connect_weighted(f, "t", 7, 0);
    weighted_graph.graph.edge_storage.connect_weighted(g,t, 8);

    let mut result = dijkstra(&mut weighted_graph.graph.edge_storage, s, t, weighted_graph.graph.vertices.len());
    if result.is_none(){
        assert!(false, "Path from S to T should exist");
    }
    let mut path = result.unwrap();
    let mut snap = vec![
        "t".to_string(),
        "g".to_string(),
        "e".to_string(),
        "b".to_string(),
        "s".to_string(),
    ];

    while !path.is_empty(){
        let val = snap.pop().unwrap();
        let handle = path.pop().unwrap();
        assert_eq!(*weighted_graph.graph.vertices.get(handle), val);
    }
}

#[test]
fn dijkstra_dijkstra_test_cyclic(){
    let mut weighted_graph = WeightedGraph::<&str, EdgeStorage>::new();
    let a = weighted_graph.graph.create("a", 2);
    let b = weighted_graph.create_and_connect_weighted(a, "b", 1, 2);
    weighted_graph.graph.edge_storage.connect_weighted(b, a, 1);
    let d = weighted_graph.create_and_connect_weighted(a, "d", 3, 3);
    weighted_graph.graph.edge_storage.connect_weighted(d, a, 3);
    let c = weighted_graph.create_and_connect_weighted(b, "c", 1, 3);
    weighted_graph.graph.edge_storage.connect_weighted(c, b, 1);
    let f = weighted_graph.create_and_connect_weighted(d, "f", 3, 3);
    weighted_graph.graph.edge_storage.connect_weighted(f, d, 3);
    let e = weighted_graph.create_and_connect_weighted(c, "e", 1, 3);
    weighted_graph.graph.edge_storage.connect_weighted(e, c, 1);
    let g = weighted_graph.create_and_connect_weighted(e, "g", 3, 2);
    weighted_graph.graph.edge_storage.connect_weighted(g, e, 3);
    let h = weighted_graph.create_and_connect_weighted(f, "h", 1, 2);
    weighted_graph.graph.edge_storage.connect_weighted(h, f, 1);

    weighted_graph.graph.edge_storage.connect_weighted(c, d, 3);
    weighted_graph.graph.edge_storage.connect_weighted(d, c, 3);

    weighted_graph.graph.edge_storage.connect_weighted(e, f, 1);
    weighted_graph.graph.edge_storage.connect_weighted(f, e, 1);

    let mut snap = vec![
        "g".to_string(),
        "e".to_string(),
        "c".to_string(),
        "b".to_string(),
        "a".to_string(),
    ];

    let mut result = dijkstra(&mut weighted_graph.graph.edge_storage, a, g, weighted_graph.graph.vertices.len());
    if result.is_none(){
        assert!(false, "Path from A to G should exist");
    }
    let mut path = result.unwrap();

    while !path.is_empty(){
        let val = snap.pop().unwrap();
        let handle = path.pop().unwrap();
        assert_eq!(*weighted_graph.graph.vertices.get(handle), val);
    }
}

#[test]
fn dijkstra_dijkstra_test_directed_acyclic() {
    let mut weighted_graph = WeightedGraph::<&str, EdgeStorage>::with_reserve(5);
    let a = weighted_graph.graph.create("A", 1);
    let b = weighted_graph.create_and_connect_leaf_weighted(a, "B", 2);
    let c = weighted_graph.create_and_connect_leaf_weighted(b, "C", 5);
    let d = weighted_graph.create_and_connect_leaf_weighted(a, "D", 1);
    let e = weighted_graph.create_and_connect_leaf_weighted(b, "E", 3);
    let f = weighted_graph.create_and_connect_leaf_weighted(c, "F", 2);
    let g = weighted_graph.create_and_connect_leaf_weighted(d, "G", 6);
    let h = weighted_graph.create_and_connect_leaf_weighted(e, "H", 2);

    weighted_graph.graph.edge_storage.connect_weighted(d, e, 4);
    weighted_graph.graph.edge_storage.connect_weighted(e, f, 1);
    weighted_graph.graph.edge_storage.connect_weighted(g, h, 3);

    // Test path from A to F
    let mut expected_path = vec![
        "F".to_string(),
        "E".to_string(),
        "B".to_string(),
        "A".to_string(),
    ];

    let mut result = dijkstra(&mut weighted_graph.graph.edge_storage, a, f, weighted_graph.graph.vertices.len());
    if result.is_none(){
        assert!(false, "Path from A to F should exist");
    }
    let mut path = result.unwrap();

    while !path.is_empty() {
        let val = expected_path.pop().unwrap();
        let handle = path.pop().unwrap();
        assert_eq!(*weighted_graph.graph.vertices.get(handle), val);
    }

    // Test path from A to H
    let mut expected_path = vec![
        "H".to_string(),
        "E".to_string(),
        "B".to_string(),
        "A".to_string(),
    ];

    let mut result = dijkstra(&mut weighted_graph.graph.edge_storage, a, h, weighted_graph.graph.vertices.len());
    if result.is_none(){
        assert!(false);
    }
    let mut path = result.unwrap();

    while !path.is_empty(){
        let val = expected_path.pop().unwrap();
        let handle = path.pop().unwrap();
        assert_eq!(*weighted_graph.graph.vertices.get(handle), val);
    }
}

#[test]
fn dijkstra_dijkstra_test_with_disconnected_node() {
    let mut weighted_graph = WeightedGraph::<&str, EdgeStorage>::with_reserve(5);
    let a = weighted_graph.graph.create("A", 1);
    let b = weighted_graph.create_and_connect_leaf_weighted(a, "B", 2);
    let c = weighted_graph.create_and_connect_leaf_weighted(b, "C", 3);
    let d = weighted_graph.create_and_connect_leaf_weighted(a, "D", 1);
    let e = weighted_graph.create_and_connect_leaf_weighted(b, "E", 4);
    let f = weighted_graph.graph.create("F", 1);  // Disconnected node

    weighted_graph.graph.edge_storage.connect_weighted(d, e, 2);

    // Test 1: Path from A to C (should exist)
    let mut expected_path = vec!["C".to_string(), "B".to_string(), "A".to_string()];
    let mut result = dijkstra(&mut weighted_graph.graph.edge_storage, a, c, weighted_graph.graph.vertices.len());
    if result.is_none(){
        assert!(false, "Path from A to C should exist");
    }

    let mut path = result.unwrap();
    while !path.is_empty() {
        let val = expected_path.pop().unwrap();
        let handle = path.pop().unwrap();
        assert_eq!(*weighted_graph.graph.vertices.get(handle), val);
    }

    // Test 2: Path from A to F (should not exist)
    let result = dijkstra(&mut weighted_graph.graph.edge_storage, a, f, weighted_graph.graph.vertices.len());
    assert!(result.is_none(), "Path from A to F should not exist");

    // Test 3: Path from F to any other node (should not exist)
    let path = dijkstra(&mut weighted_graph.graph.edge_storage, f, a, weighted_graph.graph.vertices.len());
    assert!(result.is_none(), "Path from F to A should not exist");
}

#[test]
fn algorithms_dijkstra_test_basic() {
    let mut weighted_graph = WeightedGraph::<&str, EdgeStorage>::new();
    let s = weighted_graph.graph.create("s", 2);
    let a = weighted_graph.create_and_connect_weighted(s, "a", 20, 1);
    let b = weighted_graph.create_and_connect_weighted(s, "b", 5, 2);
    let c = weighted_graph.create_and_connect_weighted(b, "c", 2, 1);
    weighted_graph.graph.edge_storage.connect_weighted(a, c, 1);
    let d = weighted_graph.create_and_connect_weighted(c, "d", 1, 1);
    let e = weighted_graph.create_and_connect_weighted(d, "e", 2, 2);
    weighted_graph.graph.edge_storage.connect_weighted(b, e, 4);
    let f = weighted_graph.create_and_connect_weighted(e, "f", 5, 1);
    let g = weighted_graph.create_and_connect_weighted(e, "g", 1, 1);
    let t = weighted_graph.create_and_connect_weighted(f, "t", 7, 0);
    weighted_graph.graph.edge_storage.connect_weighted(g,t, 8);

    let mut result = dijkstra(&mut weighted_graph.graph.edge_storage, s, t, weighted_graph.graph.vertices.len());
    if result.is_none(){
        assert!(false, "Path from S to T should exist");
    }
    let mut path = result.unwrap();
    let mut snap = vec![
        "t".to_string(),
        "g".to_string(),
        "e".to_string(),
        "b".to_string(),
        "s".to_string(),
    ];

    while !path.is_empty(){
        let val = snap.pop().unwrap();
        let handle = path.pop().unwrap();
        assert_eq!(*weighted_graph.graph.vertices.get(handle), val);
    }
}

#[test]
fn algorithms_dijkstra_test_cyclic(){
    let mut weighted_graph = WeightedGraph::<&str, EdgeStorage>::new();
    let a = weighted_graph.graph.create("a", 2);
    let b = weighted_graph.create_and_connect_weighted(a, "b", 1, 2);
    weighted_graph.graph.edge_storage.connect_weighted(b, a, 1);
    let d = weighted_graph.create_and_connect_weighted(a, "d", 3, 3);
    weighted_graph.graph.edge_storage.connect_weighted(d, a, 3);
    let c = weighted_graph.create_and_connect_weighted(b, "c", 1, 3);
    weighted_graph.graph.edge_storage.connect_weighted(c, b, 1);
    let f = weighted_graph.create_and_connect_weighted(d, "f", 3, 3);
    weighted_graph.graph.edge_storage.connect_weighted(f, d, 3);
    let e = weighted_graph.create_and_connect_weighted(c, "e", 1, 3);
    weighted_graph.graph.edge_storage.connect_weighted(e, c, 1);
    let g = weighted_graph.create_and_connect_weighted(e, "g", 3, 2);
    weighted_graph.graph.edge_storage.connect_weighted(g, e, 3);
    let h = weighted_graph.create_and_connect_weighted(f, "h", 1, 2);
    weighted_graph.graph.edge_storage.connect_weighted(h, f, 1);

    weighted_graph.graph.edge_storage.connect_weighted(c, d, 3);
    weighted_graph.graph.edge_storage.connect_weighted(d, c, 3);

    weighted_graph.graph.edge_storage.connect_weighted(e, f, 1);
    weighted_graph.graph.edge_storage.connect_weighted(f, e, 1);

    let mut snap = vec![
        "g".to_string(),
        "e".to_string(),
        "c".to_string(),
        "b".to_string(),
        "a".to_string(),
    ];

    let mut result = dijkstra(&mut weighted_graph.graph.edge_storage, a, g, weighted_graph.graph.vertices.len());
    if result.is_none(){
        assert!(false, "Path from A to G should exist");
    }
    let mut path = result.unwrap();

    while !path.is_empty(){
        let val = snap.pop().unwrap();
        let handle = path.pop().unwrap();
        assert_eq!(*weighted_graph.graph.vertices.get(handle), val);
    }
}

#[test]
fn algorithms_dijkstra_test_directed_acyclic() {
    let mut weighted_graph = WeightedGraph::<&str, EdgeStorage>::with_reserve(5);
    let a = weighted_graph.graph.create("A", 1);
    let b = weighted_graph.create_and_connect_leaf_weighted(a, "B", 2);
    let c = weighted_graph.create_and_connect_leaf_weighted(b, "C", 5);
    let d = weighted_graph.create_and_connect_leaf_weighted(a, "D", 1);
    let e = weighted_graph.create_and_connect_leaf_weighted(b, "E", 3);
    let f = weighted_graph.create_and_connect_leaf_weighted(c, "F", 2);
    let g = weighted_graph.create_and_connect_leaf_weighted(d, "G", 6);
    let h = weighted_graph.create_and_connect_leaf_weighted(e, "H", 2);

    weighted_graph.graph.edge_storage.connect_weighted(d, e, 4);
    weighted_graph.graph.edge_storage.connect_weighted(e, f, 1);
    weighted_graph.graph.edge_storage.connect_weighted(g, h, 3);

    // Test path from A to F
    let mut expected_path = vec![
        "F".to_string(),
        "E".to_string(),
        "B".to_string(),
        "A".to_string(),
    ];

    let mut result = dijkstra(&mut weighted_graph.graph.edge_storage, a, f, weighted_graph.graph.vertices.len());
    if result.is_none(){
        assert!(false, "Path from A to F should exist");
    }
    let mut path = result.unwrap();

    while !path.is_empty() {
        let val = expected_path.pop().unwrap();
        let handle = path.pop().unwrap();
        assert_eq!(*weighted_graph.graph.vertices.get(handle), val);
    }

    // Test path from A to H
    let mut expected_path = vec![
        "H".to_string(),
        "E".to_string(),
        "B".to_string(),
        "A".to_string(),
    ];

    let mut result = dijkstra(&mut weighted_graph.graph.edge_storage, a, h, weighted_graph.graph.vertices.len());
    if result.is_none(){
        assert!(false);
    }
    let mut path = result.unwrap();

    while !path.is_empty(){
        let val = expected_path.pop().unwrap();
        let handle = path.pop().unwrap();
        assert_eq!(*weighted_graph.graph.vertices.get(handle), val);
    }
}

#[test]
fn algorithms_dijkstra_test_with_disconnected_node() {
    let mut weighted_graph = WeightedGraph::<&str, EdgeStorage>::with_reserve(5);
    let a = weighted_graph.graph.create("A", 1);
    let b = weighted_graph.create_and_connect_leaf_weighted(a, "B", 2);
    let c = weighted_graph.create_and_connect_leaf_weighted(b, "C", 3);
    let d = weighted_graph.create_and_connect_leaf_weighted(a, "D", 1);
    let e = weighted_graph.create_and_connect_leaf_weighted(b, "E", 4);
    let f = weighted_graph.graph.create("F", 1);  // Disconnected node

    weighted_graph.graph.edge_storage.connect_weighted(d, e, 2);

    // Test 1: Path from A to C (should exist)
    let mut expected_path = vec!["C".to_string(), "B".to_string(), "A".to_string()];
    let mut result = dijkstra(&mut weighted_graph.graph.edge_storage, a, c, weighted_graph.graph.vertices.len());
    if result.is_none(){
        assert!(false, "Path from A to C should exist");
    }

    let mut path = result.unwrap();
    while !path.is_empty() {
        let val = expected_path.pop().unwrap();
        let handle = path.pop().unwrap();
        assert_eq!(*weighted_graph.graph.vertices.get(handle), val);
    }

    // Test 2: Path from A to F (should not exist)
    let result = dijkstra(&mut weighted_graph.graph.edge_storage, a, f, weighted_graph.graph.vertices.len());
    assert!(result.is_none(), "Path from A to F should not exist");

    // Test 3: Path from F to any other node (should not exist)
    let path = dijkstra(&mut weighted_graph.graph.edge_storage, f, a, weighted_graph.graph.vertices.len());
    assert!(result.is_none(), "Path from F to A should not exist");
}

fn route_names(weighted_graph: &WeightedGraph<&str, EdgeStorage>, mut path: eta_algorithms::data_structs::stack::Stack<u32>) -> Vec<String> {
    let mut names = Vec::new();
    while !path.is_empty() {
        let handle = path.pop().unwrap();
        names.push(weighted_graph.graph.vertices.get(handle).to_string());
    }
    names
}

#[test]
fn dijkstra_prefers_lighter_longer_route() {
    let mut weighted_graph = WeightedGraph::<&str, EdgeStorage>::new();
    let s = weighted_graph.graph.create("s", 2);
    let t = weighted_graph.create_and_connect_weighted(s, "t", 10, 1);
    let a = weighted_graph.create_and_connect_weighted(s, "a", 1, 1);
    let b = weighted_graph.create_and_connect_weighted(a, "b", 1, 1);
    weighted_graph.graph.edge_storage.connect_weighted(b, t, 1);
    let result = dijkstra(&weighted_graph.graph.edge_storage, s, t, weighted_graph.graph.vertices.len());
    let names = route_names(&weighted_graph, result.expect("t is reachable"));
    assert_eq!(names, vec!["s", "a", "b", "t"]);
}

#[test]
fn dijkstra_start_is_goal() {
    let mut weighted_graph = WeightedGraph::<&str, EdgeStorage>::new();
    let s = weighted_graph.graph.create("s", 1);
    weighted_graph.create_and_connect_weighted(s, "a", 3, 1);
    let result = dijkstra(&weighted_graph.graph.edge_storage, s, s, weighted_graph.graph.vertices.len());
    let names = route_names(&weighted_graph, result.expect("a vertex reaches itself"));
    assert_eq!(names, vec!["s"]);
}

#[test]
fn dijkstra_unreachable_goal_is_none() {
    let mut weighted_graph = WeightedGraph::<&str, EdgeStorage>::new();
    let s = weighted_graph.graph.create("s", 1);
    let a = weighted_graph.create_and_connect_weighted(s, "a", 3, 1);
    let lone = weighted_graph.graph.create("lone", 1);
    weighted_graph.graph.edge_storage.connect_weighted(lone, a, 1);
    let result = dijkstra(&weighted_graph.graph.edge_storage, s, lone, weighted_graph.graph.vertices.len());
    assert!(result.is_none());
}

#[test]
fn a_star_with_heuristic_finds_route() {
    let mut weighted_graph = WeightedGraph::<&str, EdgeStorage>::new();
    let s = weighted_graph.graph.create("s", 2);
    let t = weighted_graph.create_and_connect_weighted(s, "t", 10, 1);
    let a = weighted_graph.create_and_connect_weighted(s, "a", 1, 1);
    let b = weighted_graph.create_and_connect_weighted(a, "b", 1, 1);
    weighted_graph.graph.edge_storage.connect_weighted(b, t, 1);
    let count = weighted_graph.graph.vertices.len();
    // A heuristic that makes every step into `t` look cheap keeps the
    // direct edge in front.
    let heuristic = move |_v: u32, e: u64| -> i32 { if vh(e) == t { 0 } else { 20 } };
    let result = a_star(&weighted_graph.graph.edge_storage, s, t, count, heuristic);
    let names = route_names(&weighted_graph, result.expect("t is reachable"));
    assert_eq!(names, vec!["s", "t"]);
    let zero = |_v: u32, _e: u64| -> i32 { 0 };
    let result = a_star(&weighted_graph.graph.edge_storage, s, t, count, zero);
    let names = route_names(&weighted_graph, result.expect("t is reachable"));
    assert_eq!(names, vec!["s", "a", "b", "t"]);
}

#[test]
fn min_heap_pair_new_keeps_fields() {
    let pair = MinHeapPair::new(7, 42);
    assert_eq!(pair.vertex, 7);
    assert_eq!(pair.f_score, 42);
}
