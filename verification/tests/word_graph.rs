use std::cmp::min;
use std::mem::size_of;
use std::time::Instant;

use eta_graph::algorithms::general::{bfs, ControlFlow};
use eta_graph::edge_data::{header_size_in_msize_units, EdgeData, Header, MSize};
use eta_graph::graph::Graph;
use eta_graph::handles::{vh, vh_pack};

#[test]
fn graph_tests_graph_init_test() {
    let mut graph = Graph::<i32, EdgeData>::new_large();
    assert_eq!(graph.vertices.len(), 0);
    assert_eq!(graph.edge_storage.capacity(), 0);

    graph.create_leaf(1);
    graph.create_leaf(2);
    graph.create_leaf(3);

    assert_eq!(graph.vertices.len(), 3);
    assert_eq!(graph.edge_storage.capacity(), (50 + header_size_in_msize_units()) * 3);
}

#[test]
fn graph_basic_test() {
    let mut graph = Graph::<&str, EdgeData>::new_large();
    let a = graph.create_leaf("a");
    let b = graph.create_leaf("b");
    graph.create_leaf("c");

    graph.create_and_connect_0(a, "a_a");
    graph.create_and_connect_0(a, "a_b");
    graph.create_and_connect_0(a, "a_c");

    let b_a = graph.create_and_connect_0(b, "b_a");
    graph.create_and_connect_0(b, "b_b");

    graph.create_and_connect_0(b_a, "b_a_a");

    let a_edges = graph.edge_storage.edges(a);
    assert_eq!(a_edges.len(), 3);

    for edge in a_edges {
        match *edge {
            0 => assert_eq!(*graph.vertices.get(*edge), "a_a"),
            1 => assert_eq!(*graph.vertices.get(*edge), "a_b"),
            2 => assert_eq!(*graph.vertices.get(*edge), "a_c"),
            _ => continue,
        }
    }

    let b_edges = graph.edge_storage.edges(b);
    assert_eq!(b_edges.len(), 2);

    for edge in b_edges {
        match *edge {
            0 => assert_eq!(*graph.vertices.get(*edge), "b_a"),
            1 => assert_eq!(*graph.vertices.get(*edge), "b_b"),
            _ => continue,
        }
    }

    let b_a_a_edges = graph.edge_storage.edges(b_a);
    assert_eq!(b_a_a_edges.len(), 1);

    for edge in b_a_a_edges {
        match *edge {
            0 => assert_eq!(*graph.vertices.get(*edge), "b_a_a"),
            _ => continue,
        }
    }
}

#[test]
fn graph_default_capacity_test() {
    let mut graph = Graph::<usize, EdgeData>::new_large();
    let count = 50;

    for i in 0..count {
        graph.create_leaf(i);
    }

    assert_eq!(graph.vertices.len(), 50);
    assert_eq!(graph.edge_storage.capacity(), (50 + header_size_in_msize_units()) * count);
}

#[test]
fn graph_with_capacity_test() {
    let mut graph = Graph::<usize, EdgeData>::with_reserve(10);
    let count = 100;

    for i in 0..count {
        graph.create_leaf(i);
    }

    assert_eq!(graph.edge_storage.capacity(), (10 + header_size_in_msize_units()) * count);
}

#[test]
fn graph_mutability_test() {
    let mut graph = Graph::<&str, EdgeData>::new_large();
    let a = graph.create_leaf("a");
    graph.create_leaf("b");
    graph.create_leaf("c");

    graph.create_and_connect_0(a, "a_a");
    graph.create_and_connect_0(a, "a_b");
    graph.create_and_connect_0(a, "a_c");

    let edges = graph.edge_storage.edges(a);
    assert_eq!(edges.len(), 3);

    for edge in edges {
        match *edge {
            0 => {
                graph.vertices.set(*edge, "a_a_edited");
                graph.vertices.set(*edge, "a_a_edited")
            },
            1 => {
                graph.vertices.set(*edge, "a_b_edited");
                graph.vertices.set(*edge, "a_b_edited")
            },
            2 => {
                graph.vertices.set(*edge, "a_c_edited");
                graph.vertices.set(*edge, "a_c_edited")
            },
            _ => continue,
        }
    }
}

fn times_ten(graph: &mut Graph<MSize, EdgeData>) {
    for i in 0..graph.vertices.len() {
        let v = *graph.vertices.get(i as MSize);
        graph.vertices.set(i as MSize, v * 10);
    }
}

#[test]
fn graph_transform_bench() {
    let mut graph = Graph::<MSize, EdgeData>::new_large();
    let test_size = min(size_of::<MSize>(), 10000000) as MSize;

    for i in 0..test_size {
        graph.create_leaf(i);
    }
    let start = Instant::now();
    times_ten(&mut graph);
    println!("Time taken: {:?}", start.elapsed());
    for i in 0..test_size {
        assert_eq!(*graph.vertices.get(i), i * 10);
    }
}

#[test]
fn graph_transform_bench_async() {
    let mut graph = Graph::<MSize, EdgeData>::new_large();
    let test_size = min(size_of::<MSize>(), 10000000) as MSize;

    for i in 0..test_size {
        graph.create_leaf(i);
    }
    let start = Instant::now();
    times_ten(&mut graph);
    println!("Time taken: {:?}", start.elapsed());

    for i in 0..test_size {
        assert_eq!(*graph.vertices.get(i), i * 10);
    }
}

#[test]
fn graph_disconnect_test() {
    let mut graph = Graph::<&str, EdgeData>::new_large();
    let a = graph.create_leaf("a");
    graph.create_leaf("b");
    graph.create_leaf("c");

    graph.create_and_connect_0(a, "a_a");
    let ab = graph.create_and_connect_0(a, "a_b");
    graph.create_and_connect_0(a, "a_c");
    let ad = graph.create_and_connect_0(a, "a_d");
    graph.create_and_connect_0(a, "a_e");
    let af = graph.create_and_connect_0(a, "a_f");
    graph.edge_storage.disconnect(a, af);

    assert_eq!(graph.edge_storage.len(a), 5);
    let edges = graph.edge_storage.edges(a);

    for edge in edges {
        match *edge {
            3 => assert_eq!(*graph.vertices.get(*edge), "a_a"),
            4 => assert_eq!(*graph.vertices.get(*edge), "a_b"),
            5 => assert_eq!(*graph.vertices.get(*edge), "a_c"),
            6 => assert_eq!(*graph.vertices.get(*edge), "a_d"),
            7 => assert_eq!(*graph.vertices.get(*edge), "a_e"),
            _ => continue,
        }
    }

    graph.edge_storage.disconnect(a, ad);
    graph.edge_storage.disconnect(a, ab);

    assert_eq!(graph.edge_storage.len(a), 3);

    let edges = graph.edge_storage.edges(a);
    for edge in edges {
        match *edge {
            3 => assert_eq!(*graph.vertices.get(*edge), "a_a"),
            5 => assert_eq!(*graph.vertices.get(*edge), "a_c"),
            7 => assert_eq!(*graph.vertices.get(*edge), "a_e"),
            _ => continue,
        }
    }
}

fn bfs_vertices(graph: &Graph<&str, EdgeData>, root: u32) -> Vec<u32> {
    let trace = bfs(&graph.edge_storage, vh_pack(root), graph.vertices.len(), |_, _| ControlFlow::Resume);
    trace.iter().map(|(e, _, _)| vh(*e)).collect()
}

#[test]
fn graph_tests_graph_bfs_test() {
    let mut graph = Graph::<&str, EdgeData>::new_large();
    let root = graph.create_leaf("root");
    let a = graph.create_and_connect_0(root, "a");
    let b = graph.create_and_connect_0(root, "b");
    graph.create_and_connect_0(root, "c");

    graph.create_and_connect_0(a, "a_a");
    graph.create_and_connect_0(a, "a_b");
    graph.create_and_connect_0(a, "a_c");

    let b_a = graph.create_and_connect_0(b, "b_a");
    graph.create_and_connect_0(b, "b_b");

    graph.create_and_connect_0(b_a, "b_a_a");

    let bfs_results = bfs_vertices(&graph, root);
    for (idx, vertex) in bfs_results.iter().enumerate() {
        match idx {
            0 => assert_eq!(*graph.vertices.get(*vertex), "root"),
            1 => assert_eq!(*graph.vertices.get(*vertex), "a"),
            2 => assert_eq!(*graph.vertices.get(*vertex), "b"),
            3 => assert_eq!(*graph.vertices.get(*vertex), "c"),
            4 => assert_eq!(*graph.vertices.get(*vertex), "a_a"),
            5 => assert_eq!(*graph.vertices.get(*vertex), "a_b"),
            6 => assert_eq!(*graph.vertices.get(*vertex), "a_c"),
            7 => assert_eq!(*graph.vertices.get(*vertex), "b_a"),
            8 => assert_eq!(*graph.vertices.get(*vertex), "b_b"),
            9 => assert_eq!(*graph.vertices.get(*vertex), "b_a_a"),
            _ => continue,
        }
    }
}

#[test]
fn graph_static_test() {
    let mut graph = Graph::<&str, EdgeData>::new();
    let root = graph.create("root", 5);
    let a = graph.create_and_connect(root, "a", 1);
    assert_eq!(graph.edge_storage.reserve(root), 5);
    let _b = graph.create_and_connect(root, "b", 0);
    assert_eq!(graph.edge_storage.reserve(root), 5);
    let _c = graph.create_and_connect(root, "c", 0);
    assert_eq!(graph.edge_storage.reserve(root), 5);
    let d = graph.create_and_connect(root, "d", 1);
    assert_eq!(graph.edge_storage.reserve(root), 5);
    let e = graph.create_and_connect(root, "e", 1);
    assert_eq!(graph.edge_storage.reserve(root), 5);

    graph.create_and_connect(a, "a_a", 0);
    assert_eq!(graph.edge_storage.reserve(root), 5);
    graph.create_and_connect(d, "a_d", 0);
    assert_eq!(graph.edge_storage.reserve(root), 5);
    graph.create_and_connect(e, "a_e", 0);
    assert_eq!(graph.edge_storage.reserve(root), 5);

    let _vertices = bfs_vertices(&graph, root);
    assert_eq!(graph.edge_storage.reserve(root), 5);
}

#[test]
fn word_graph_get_set_and_header_test() {
    let mut graph = Graph::<&str, EdgeData>::with_reserve(2);
    let a = graph.create_leaf("a");
    let b = graph.create_and_connect_0(a, "b");
    graph.edge_storage.set(a, 9, 1);
    assert_eq!(graph.edge_storage.get(a, 0), b);
    assert_eq!(graph.edge_storage.get(a, 1), 9);
    assert_eq!(graph.edge_storage.len(a), 1);
    assert_eq!(graph.edge_storage.edges_header(a).ok().unwrap(), &[b][..]);
    assert!(graph.edge_storage.edges_header(5).is_err());
    {
        let slots = graph.edge_storage.edges_mut(a);
        assert_eq!(slots.len(), 2);
        slots[1] = 4;
    }
    assert_eq!(graph.edge_storage.get(a, 1), 4);
    {
        let slots = graph.edge_storage.edges_header_mut(b).ok().unwrap();
        slots[0] = 7;
    }
    assert_eq!(graph.edge_storage.get(b, 0), 7);
    assert_eq!(graph.edge_storage.len(b), 0);
    assert_eq!(graph.edge_storage.visited_flag(a), 0);
    graph.edge_storage.inc_visited_flag(a);
    assert_eq!(graph.edge_storage.visited_flag(a), 1);
    graph.edge_storage.set_visited_flag(a, 5);
    assert_eq!(graph.edge_storage.visited_flag(a), 5);
    assert_eq!(graph.edge_storage.edges(a), &[b][..]);
}

#[test]
fn word_graph_add_edges_test() {
    let mut data = EdgeData::with_reserve(1);
    let v = data.create_vertex(3);
    assert_eq!(v, 0);
    assert_eq!(data.reserve(v), 4);
    data.add_edges(v, &[5, 6, 7]);
    data.connect(v, 8);
    assert_eq!(data.edges(v), &[5, 6, 7, 8][..]);
    assert_eq!(data.capacity(), 7);
    data.disconnect(v, 5);
    assert_eq!(data.edges(v), &[8, 6, 7][..]);
    data.disconnect(v, 42);
    assert_eq!(data.edges(v), &[8, 6, 7][..]);
}

#[test]
fn header_parse_reads_block() {
    let words: Vec<MSize> = vec![9, 2, 3, 11, 12, 13, 77];
    let (header, live) = Header::parse(&words, 0);
    assert_eq!(header.visited_flag, 9);
    assert_eq!(header.len, 2);
    assert_eq!(header.reserve, 3);
    assert_eq!(live, &[11, 12][..]);
}

#[test]
fn header_parse_mut_writes_block() {
    let mut words: Vec<MSize> = vec![0, 1, 2, 5, 6, 77];
    {
        let (header, slots) = Header::parse_mut(&mut words, 0);
        assert_eq!(header.len, 1);
        assert_eq!(header.reserve, 2);
        assert_eq!(slots.len(), 2);
        slots[1] = 8;
    }
    assert_eq!(words, vec![0, 1, 2, 5, 8, 77]);
}
