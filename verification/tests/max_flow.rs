use std::collections::HashMap;

use eta_algorithms::data_structs::array::Array;
use eta_algorithms::data_structs::queue::Queue;
use eta_graph::algorithms::general::bfs;
use eta_graph::algorithms::general::ControlFlow::Resume;
use eta_graph::algorithms::max_flow::{mark_levels, DinicGraph};
use eta_graph::edge_storage::EdgeStorage;
use eta_graph::handles::types::{VHandle, Weight};
use eta_graph::handles::{vh, vh_pack, wgt};
use eta_graph::traits::WeightedEdgeConnect;
use eta_graph::weighted_graph::WeightedGraph;

fn level_scenario() {
    let mut weighted_graph = WeightedGraph::<&str, EdgeStorage>::new();
    // Write test for layering
    let a = weighted_graph.graph.create("a", 2);
    let a_a = weighted_graph.create_and_connect_weighted(a, "a_a", 1, 100);
    let a_a_a = weighted_graph.create_and_connect_weighted(a_a, "a_a_a", 1, 20);
    let a_a_x = weighted_graph.create_and_connect_weighted(a_a_a, "a_a_x", 1, 30);

    let a_b = weighted_graph.create_and_connect_weighted(a, "a_b", 20, 3);
    let a_b_a = weighted_graph.create_and_connect_weighted(a_b, "a_b_a", 10, 1);
    let a_b_b = weighted_graph.create_and_connect_weighted(a_b, "a_b_b", 10, 1);
    let a_b_c = weighted_graph.create_and_connect_weighted(a_b, "a_b_c", 10, 1);

    weighted_graph.graph.edge_storage.connect_weighted(a_b_a, a_a_x, 10);
    weighted_graph.graph.edge_storage.connect_weighted(a_b_b, a_a_x, 10);
    weighted_graph.graph.edge_storage.connect_weighted(a_b_c, a_a_x, 10);

    let mut flow_data = Array::new_with_default(weighted_graph.graph.vertices.len(), Weight::MAX);
    let mut queue = Queue::<VHandle>::new_pow2_sized(weighted_graph.graph.vertices.len());
    let mut edges_copy = weighted_graph.graph.edge_storage.clone();
    mark_levels(a, a_a_x, &mut edges_copy, &mut queue, &mut flow_data).expect("Sink not found");

    let mut snap = vec![
        ("a_a_x".to_string(), 3),
        ("a_b_c".to_string(), 2),
        ("a_b_b".to_string(), 2),
        ("a_b_a".to_string(), 2),
        ("a_a_a".to_string(), 2),
        ("a_b".to_string(), 1),
        ("a_a".to_string(), 1),
        ("a".to_string(), 0),
    ];

    let _trace = bfs(&edges_copy, vh_pack(a), weighted_graph.graph.vertices.len(), |v_handle, _layer| {
        let snap_data = snap.pop().unwrap();
        assert_eq!(*weighted_graph.graph.vertices.get(vh(v_handle)), snap_data.0);
        assert_eq!(flow_data[vh(v_handle) as usize], snap_data.1);
        Resume
    });

    assert_eq!(snap.len(), 0);
}

#[test]
fn algorithms_level_test() {
    level_scenario();
}

#[test]
fn dinic_level_test() {
    level_scenario();
}

fn basic_network() -> (WeightedGraph<&'static str, EdgeStorage>, VHandle, VHandle) {
    let mut graph = WeightedGraph::<&str, EdgeStorage>::new();
    // Write test for layering
    let a = graph.graph.create("a", 2);
    let a_a = graph.create_and_connect_weighted(a, "a_a", 100, 1);
    let a_a_a = graph.create_and_connect_weighted(a_a, "a_a_a", 20, 1);
    let a_a_x = graph.create_and_connect_weighted(a_a_a, "a_a_x", 30, 0);

    let a_b = graph.create_and_connect_weighted(a, "a_b", 20, 3);
    let a_b_a = graph.create_and_connect_weighted(a_b, "a_b_a", 10, 1);
    let a_b_b = graph.create_and_connect_weighted(a_b, "a_b_b", 10, 1);
    let a_b_c = graph.create_and_connect_weighted(a_b, "a_b_c", 10, 1);

    graph.graph.edge_storage.connect_weighted(a_b_a, a_a_x, 10);
    graph.graph.edge_storage.connect_weighted(a_b_b, a_a_x, 10);
    graph.graph.edge_storage.connect_weighted(a_b_c, a_a_x, 10);
    (graph, a, a_a_x)
}

fn check_basic_flow() {
    let (graph, a, a_a_x) = basic_network();
    let dinic_graph = DinicGraph::from(&graph.graph.vertices, &graph.graph.edge_storage, a, a_a_x);

    let mut snap = vec![0, 10, 10, 0, 10, 10, 20, 20, 20, 20];

    for edge in dinic_graph.edge_storage.iter() {
        let snap_data = snap.pop().unwrap();
        assert_eq!(snap_data, wgt(edge));
    }
    assert_eq!(snap.len(), 0);
}

#[test]
fn dinic_test() {
    check_basic_flow();
}

#[test]
fn dinic_test_basic() {
    check_basic_flow();
}

#[test]
fn dinic_test_advanced() {
    let mut weighted_graph = WeightedGraph::<&str, EdgeStorage>::new();
    let s = weighted_graph.graph.create("s", 3);
    let a = weighted_graph.create_and_connect_weighted(s, "a", 5, 1);
    let b = weighted_graph.create_and_connect_weighted(a, "b", 10, 3);
    let c = weighted_graph.create_and_connect_weighted(b, "c", 10, 1);
    let t = weighted_graph.create_and_connect_weighted(c, "t", 5, 0);
    let d = weighted_graph.create_and_connect_weighted(s, "d", 10, 2);
    let e = weighted_graph.create_and_connect_weighted(d, "e", 20, 2);
    let f = weighted_graph.create_and_connect_weighted(e, "f", 30, 2);

    let g = weighted_graph.create_and_connect_weighted(s, "g", 15, 1);
    let h = weighted_graph.create_and_connect_weighted(g, "h", 25, 2);
    let i = weighted_graph.create_and_connect_weighted(h, "i", 10, 1);

    weighted_graph.graph.edge_storage.connect_weighted(b, e, 25);
    weighted_graph.graph.edge_storage.connect_weighted(b, f, 15);

    weighted_graph.graph.edge_storage.connect_weighted(d, a, 15);
    weighted_graph.graph.edge_storage.connect_weighted(e, g, 5);
    weighted_graph.graph.edge_storage.connect_weighted(f, t, 15);
    weighted_graph.graph.edge_storage.connect_weighted(f, i, 15);

    weighted_graph.graph.edge_storage.connect_weighted(h, f, 20);
    weighted_graph.graph.edge_storage.connect_weighted(i, t, 10);

    let dinic_graph = DinicGraph::from(&weighted_graph.graph.vertices, &weighted_graph.graph.edge_storage, s, t);

    let mut snap = HashMap::new();
    snap.insert("sa".to_string(), 5);
    snap.insert("sd".to_string(), 10);
    snap.insert("sg".to_string(), 15);
    snap.insert("ab".to_string(), 5);
    snap.insert("bc".to_string(), 5);
    snap.insert("be".to_string(), 0);
    snap.insert("bf".to_string(), 0);
    snap.insert("ct".to_string(), 5);
    snap.insert("de".to_string(), 10);
    snap.insert("da".to_string(), 0);
    snap.insert("ef".to_string(), 10);
    snap.insert("eg".to_string(), 0);
    snap.insert("ft".to_string(), 15);
    snap.insert("fi".to_string(), 0);
    snap.insert("gh".to_string(), 15);
    snap.insert("hi".to_string(), 10);
    snap.insert("hf".to_string(), 5);
    snap.insert("it".to_string(), 10);

    for vertex in 0..dinic_graph.vertices.len() {
        let val = *dinic_graph.vertices.get(vertex as VHandle);
        for edge in dinic_graph.edge_storage.edges_as_slice(vertex as VHandle) {
            let key = format!("{}{}", val, weighted_graph.graph.vertices.get(vh(*edge)));
            let weight = wgt(*edge);
            assert_eq!(snap.remove(&key), Some(weight));
        }
    }
    assert_eq!(snap.len(), 0);
}

#[test]
fn dinic_flow_is_conserved() {
    let (graph, a, a_a_x) = basic_network();
    let dinic_graph = DinicGraph::from(&graph.graph.vertices, &graph.graph.edge_storage, a, a_a_x);
    let n = dinic_graph.vertices.len() as VHandle;
    for v in 0..n {
        if v == a || v == a_a_x {
            continue;
        }
        let out: i32 = dinic_graph.edge_storage.edges_as_slice(v).iter().map(|e| wgt(*e)).sum();
        let mut inflow: i32 = 0;
        for u in 0..n {
            for e in dinic_graph.edge_storage.edges_as_slice(u) {
                if vh(*e) == v {
                    inflow += wgt(*e);
                }
            }
        }
        assert_eq!(inflow, out);
    }
}

#[test]
fn mark_levels_reports_missing_sink() {
    let mut graph = WeightedGraph::<&str, EdgeStorage>::new();
    let a = graph.graph.create("a", 1);
    let b = graph.create_and_connect_weighted(a, "b", 0, 0);
    let c = graph.graph.create("c", 0);
    let mut layers = Array::new_with_default(3, Weight::MAX);
    let mut queue = Queue::<VHandle>::new_pow2_sized(3);
    assert_eq!(mark_levels(a, c, &graph.graph.edge_storage, &mut queue, &mut layers), Err("Sink not found"));
    assert_eq!(layers[a as usize], 0);
    assert_eq!(layers[b as usize], Weight::MAX);
}

#[test]
fn dinic_keeps_the_first_layering() {
    // s -> a -> t is the only path whose layers strictly grow; the way
    // through b and c reaches t in a layer no higher than c's, so the
    // search stops after one unit although two could pass.
    let mut graph = WeightedGraph::<&str, EdgeStorage>::new();
    let s = graph.graph.create("s", 2);
    let a = graph.create_and_connect_weighted(s, "a", 1, 1);
    let b = graph.create_and_connect_weighted(s, "b", 1, 1);
    let t = graph.create_and_connect_weighted(a, "t", 1, 0);
    let c = graph.create_and_connect_weighted(b, "c", 1, 1);
    graph.graph.edge_storage.connect_weighted(c, t, 1);
    let dinic_graph = DinicGraph::from(&graph.graph.vertices, &graph.graph.edge_storage, s, t);
    let flows: Vec<Weight> = dinic_graph.edge_storage.iter().into_iter().map(wgt).collect();
    // edges in storage order: s->a, s->b, a->t, b->c, c->t
    assert_eq!(flows, vec![1, 0, 1, 0, 0]);
    assert_eq!(dinic_graph.layer_data[t as usize], 2);
    assert_eq!(dinic_graph.layer_data[c as usize], 2);
}

#[test]
fn dinic_takes_augmenting_paths_in_edge_order() {
    // s->a, s->b, a->x, a->y, b->y, x->t, y->t, all of capacity 1: the
    // search takes s-a-x-t first, then s-b-y-t, for a flow of 2.
    let mut wg = WeightedGraph::<&str, EdgeStorage>::new();
    let s = wg.graph.create("s", 2);
    let a = wg.create_and_connect_weighted(s, "a", 1, 2);
    let b = wg.create_and_connect_weighted(s, "b", 1, 1);
    let x = wg.create_and_connect_weighted(a, "x", 1, 1);
    let y = wg.create_and_connect_weighted(a, "y", 1, 1);
    wg.graph.edge_storage.connect_weighted(b, y, 1);
    let t = wg.create_and_connect_weighted(x, "t", 1, 0);
    wg.graph.edge_storage.connect_weighted(y, t, 1);
    let dg = DinicGraph::from(&wg.graph.vertices, &wg.graph.edge_storage, s, t);
    let flows: Vec<Weight> = dg.edge_storage.iter().iter().map(|e| wgt(*e)).collect();
    // s->a, s->b, a->x, a->y, b->y, x->t, y->t
    assert_eq!(flows, vec![1, 1, 1, 0, 1, 1, 1]);
}
