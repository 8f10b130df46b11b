use std::collections::HashMap;

use eta_graph::edge_storage::EdgeStorage;
use eta_graph::handles::types::VHandle;
use eta_graph::handles::{pack, vh};
use eta_graph::traits::{EdgeConnect, EdgeStore, WeightedEdgeConnect};

#[test]
fn edge_storage_create_test() {
    let mut edge_storage = EdgeStorage::new();
    let a = edge_storage.create_vertex_entry(3);
    assert_eq!(edge_storage.edges_len(a), 0);
    assert_eq!(edge_storage.edges_capacity(a), 3);
}

#[test]
fn edge_storage_add_edge_test() {
    let mut edge_storage = EdgeStorage::new();
    let a = edge_storage.create_vertex_entry(3);
    let b = edge_storage.create_vertex_entry(3);
    let c = edge_storage.create_vertex_entry(3);
    assert_eq!(edge_storage.edges.as_ref().map_or(0, |a| a.capacity()), 9);
    edge_storage.connect_edges(a, &[1, 2, 3]);
    edge_storage.connect_edges(b, &[3, 2, 1]);
    edge_storage.connect_edges(c, &[2, 3, 1]);
    assert_eq!(edge_storage.edges_len(a), 3);
    assert_eq!(edge_storage.edges_len(b), 3);
    assert_eq!(edge_storage.edges_len(c), 3);

    let snap: Vec<VHandle> = vec![1, 2, 3];
    let index = edge_storage.edges_index(a);
    for i in 0..3 {
        assert_eq!(vh(edge_storage.slot(index + i)), snap[i]);
    }

    let snap: Vec<VHandle> = vec![3, 2, 1];
    let index = edge_storage.edges_index(b);
    for i in 0..3 {
        assert_eq!(vh(edge_storage.slot(index + i)), snap[i]);
    }

    let snap: Vec<VHandle> = vec![2, 3, 1];
    let index = edge_storage.edges_index(c);
    for i in 0..3 {
        assert_eq!(vh(edge_storage.slot(index + i)), snap[i]);
    }
}

#[test]
fn edge_storage_connect_test() {
    let mut edge_storage = EdgeStorage::new();
    let root = edge_storage.create_vertex_entry(3);
    let b = edge_storage.create_vertex_entry(3);
    let c = edge_storage.create_vertex_entry(3);
    let d = edge_storage.create_vertex_entry(3);

    edge_storage.connect(root, b);
    edge_storage.connect(root, c);
    edge_storage.connect(root, d);

    assert_eq!(edge_storage.edges_len(root), 3);
    assert_eq!(edge_storage.edges_len(b), 0);
    assert_eq!(edge_storage.edges_len(c), 0);
    assert_eq!(edge_storage.edges_len(d), 0);

    edge_storage.connect(b, c);
    edge_storage.connect(c, d);

    assert_eq!(edge_storage.edges_len(root), 3);
    assert_eq!(edge_storage.edges_len(b), 1);
    assert_eq!(edge_storage.edges_len(c), 1);
    assert_eq!(edge_storage.edges_len(d), 0);

    let index = edge_storage.edges_index(root);
    assert_eq!(vh(edge_storage.slot(index)), b);
    assert_eq!(vh(edge_storage.slot(index + 1)), c);
    assert_eq!(vh(edge_storage.slot(index + 2)), d);

    let index = edge_storage.edges_index(b);
    assert_eq!(vh(edge_storage.slot(index)), c);

    let index = edge_storage.edges_index(c);
    assert_eq!(vh(edge_storage.slot(index)), d);
}

#[test]
fn edge_storage_connect_test_weighted() {
    let mut edge_storage = EdgeStorage::new();
    let root = edge_storage.create_vertex_entry(3);
    let b = edge_storage.create_vertex_entry(3);
    let c = edge_storage.create_vertex_entry(3);
    let d = edge_storage.create_vertex_entry(3);

    edge_storage.connect_weighted(root, b, 1);
    edge_storage.connect_weighted(root, c, 2);
    edge_storage.connect_weighted(root, d, 3);

    assert_eq!(edge_storage.edges_len(root), 3);
    assert_eq!(edge_storage.edges_len(b), 0);
    assert_eq!(edge_storage.edges_len(c), 0);
    assert_eq!(edge_storage.edges_len(d), 0);

    edge_storage.connect_weighted(b, c, 5);
    edge_storage.connect_weighted(c, d, 6);

    assert_eq!(edge_storage.edges_len(root), 3);
    assert_eq!(edge_storage.edges_len(b), 1);
    assert_eq!(edge_storage.edges_len(c), 1);

    let index = edge_storage.edges_index(root);
    assert_eq!(edge_storage.slot(index), pack(b, 1));
    assert_eq!(edge_storage.slot(index + 1), pack(c, 2));
    assert_eq!(edge_storage.slot(index + 2), pack(d, 3));

    let index = edge_storage.edges_index(b);
    assert_eq!(edge_storage.slot(index), pack(c, 5));

    let index = edge_storage.edges_index(c);
    assert_eq!(edge_storage.slot(index), pack(d, 6));
}

#[test]
fn edge_storage_disconnect_test() {
    let mut edge_storage = EdgeStorage::new();
    let a = edge_storage.create_vertex_entry(3);
    let b = edge_storage.create_vertex_entry(3);
    let c = edge_storage.create_vertex_entry(3);
    assert_eq!(edge_storage.edges.as_ref().map_or(0, |a| a.capacity()), 9);
    edge_storage.connect_edges(a, &[1, 2, 3]);
    edge_storage.connect_edges(b, &[3, 2, 1]);
    edge_storage.connect_edges(c, &[2, 3, 1]);
    assert_eq!(edge_storage.edges_len(a), 3);
    assert_eq!(edge_storage.edges_len(b), 3);
    assert_eq!(edge_storage.edges_len(c), 3);

    edge_storage.disconnect(a, 1);
    edge_storage.disconnect(b, 2);
    edge_storage.disconnect(c, 3);

    assert_eq!(edge_storage.edges_len(a), 2);
    assert_eq!(edge_storage.edges_len(b), 2);
    assert_eq!(edge_storage.edges_len(c), 2);

    let mut snap: HashMap<VHandle, ()> = HashMap::from([(3, ()), (2, ())]);
    let index = edge_storage.edges_index(a);
    for i in 0..2 {
        let val = vh(edge_storage.slot(index + i));
        assert!(snap.remove(&val).is_some());
    }
    assert!(snap.is_empty());

    let mut snap2: HashMap<VHandle, ()> = HashMap::from([(1, ()), (3, ())]);
    let index2 = edge_storage.edges_index(b);
    for i in 0..2 {
        let val = vh(edge_storage.slot(index2 + i));
        assert!(snap2.remove(&val).is_some());
    }
    assert!(snap2.is_empty());

    let mut snap3: HashMap<VHandle, ()> = HashMap::from([(1, ()), (2, ())]);
    let index3 = edge_storage.edges_index(c);
    for i in 0..2 {
        let val = vh(edge_storage.slot(index3 + i));
        assert!(snap3.remove(&val).is_some());
    }
    assert!(snap3.is_empty());
}

#[test]
fn entry_as_slice_test() {
    let mut edge_storage = EdgeStorage::new();
    let a = edge_storage.create_vertex_entry(3);
    edge_storage.create_vertex_entry(0);
    edge_storage.create_vertex_entry(0);
    edge_storage.connect_edges(a, &[1, 2, 3]);

    for (idx, edge) in edge_storage.edges_as_slice(a).iter().enumerate() {
        assert_eq!(*edge as usize, idx + 1);
    }
}

#[test]
fn entry_as_slice_test_empty() {
    let mut edge_storage = EdgeStorage::new();
    let a = edge_storage.create_vertex_entry(0);

    for _ in edge_storage.edges_as_slice(a).iter() {
        assert!(false);
    }
}

#[test]
fn entry_as_slice_mut_test() {
    let mut edge_storage = EdgeStorage::new();
    let a = edge_storage.create_vertex_entry(3);
    let b = edge_storage.create_vertex_entry(3);
    let c = edge_storage.create_vertex_entry(3);
    edge_storage.connect_edges(a, &[1, 2, 3]);
    edge_storage.connect_edges(b, &[4, 5, 6]);
    edge_storage.connect_edges(c, &[7, 8, 9]);

    for i in 0..edge_storage.edges_len(a) {
        edge_storage.set_target(a, i, 0);
    }

    for edge in edge_storage.edges_as_slice(a).iter() {
        assert_eq!(*edge as usize, 0);
    }
}

#[test]
fn edge_storage_iter_test() {
    let mut edge_storage = EdgeStorage::new();
    let a = edge_storage.create_vertex_entry(3);
    let b = edge_storage.create_vertex_entry(3);
    let c = edge_storage.create_vertex_entry(3);
    edge_storage.connect_edges(a, &[1, 2, 3]);
    edge_storage.connect_edges(b, &[4, 5, 6]);
    edge_storage.connect_edges(c, &[7, 8, 9]);

    for (index, edge) in edge_storage.iter().iter().enumerate() {
        assert_eq!(*edge as usize, index + 1);
    }
}

#[test]
fn edge_storage_iter_mut_test() {
    let mut edge_storage = EdgeStorage::new();
    let a = edge_storage.create_vertex_entry(3);
    let b = edge_storage.create_vertex_entry(3);
    let c = edge_storage.create_vertex_entry(3);
    edge_storage.connect_edges(a, &[1, 2, 3]);
    edge_storage.connect_edges(b, &[4, 5, 6]);
    edge_storage.connect_edges(c, &[7, 8, 9]);

    for v in [a, b, c] {
        let index = edge_storage.edges_index(v);
        for i in 0..edge_storage.edges_len(v) {
            edge_storage.set_slot(index + i, 100);
        }
    }

    for edge in edge_storage.iter() {
        assert_eq!(edge as usize, 100);
    }
}

#[test]
fn edge_storage_iter_test_empty() {
    let mut edge_storage = EdgeStorage::new();
    edge_storage.create_vertex_entry(10);
    edge_storage.create_vertex_entry(10);
    edge_storage.create_vertex_entry(10);

    for _ in edge_storage.iter() {
        assert!(false);
    }
}

#[test]
fn edge_storage_reserve_and_clone_test() {
    let mut edge_storage = EdgeStorage::with_reserve(2);
    let a = edge_storage.create_vertex_entry(1);
    assert_eq!(edge_storage.edges_capacity(a), 3);
    edge_storage.connect_weighted(a, 7, -4);
    let copy = edge_storage.clone();
    assert_eq!(copy.edges_as_slice(a), &[pack(7, -4)][..]);
    assert_eq!(copy.edge_at(a, 0), pack(7, -4));
    let large = EdgeStorage::new_large();
    assert_eq!(large.vertex_count(), 0);
}

#[test]
fn edge_storage_disconnect_moves_last_edge() {
    let mut edge_storage = EdgeStorage::new();
    let a = edge_storage.create_vertex_entry(4);
    edge_storage.connect_edges(a, &[pack(1, 0), pack(2, 0), pack(1, 5), pack(3, 0)]);
    edge_storage.disconnect(a, 1);
    assert_eq!(edge_storage.edges_as_slice(a), &[pack(3, 0), pack(2, 0), pack(1, 5)][..]);
    edge_storage.disconnect(a, 9);
    assert_eq!(edge_storage.edges_len(a), 3);
}

#[test]
fn edge_storage_disconnect_undoes_connect() {
    let mut edge_storage = EdgeStorage::new();
    let a = edge_storage.create_vertex_entry(4);
    edge_storage.connect_edges(a, &[pack(1, 0), pack(2, 7)]);
    let before: Vec<u64> = edge_storage.edges_as_slice(a).to_vec();
    edge_storage.connect_weighted(a, 5, 3);
    assert_eq!(edge_storage.edges_len(a), 3);
    edge_storage.disconnect(a, 5);
    assert_eq!(edge_storage.edges_as_slice(a), &before[..]);
}

#[test]
fn edge_storage_grows_only_when_a_block_has_slots() {
    // No slots are laid out until a block asks for some; earlier slots keep
    // their edges when the array grows.
    let mut edge_storage = EdgeStorage::new();
    assert!(edge_storage.edges.is_none());
    let a = edge_storage.create_vertex_entry(0);
    assert!(edge_storage.edges.is_none());
    assert_eq!(edge_storage.edges_capacity(a), 0);
    let b = edge_storage.create_vertex_entry(2);
    edge_storage.connect(b, a);
    let c = edge_storage.create_vertex_entry(1);
    assert_eq!(edge_storage.edges.as_ref().map_or(0, |x| x.capacity()), 3);
    assert_eq!(edge_storage.edges_as_slice(b), &[pack(a, 0)][..]);
    assert_eq!(edge_storage.edges_len(c), 0);
    assert_eq!(edge_storage.edges_as_slice(a).len(), 0);
}
