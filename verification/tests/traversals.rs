use eta_graph::algorithms::general::ControlFlow::{Continue, End, Resume};
use eta_graph::algorithms::general::{bfs, dfs, dfs_custom_flags, DfsStep, TraversalError};
use eta_graph::edge_storage::EdgeStorage;
use eta_graph::graph::Graph;
use eta_graph::handles::types::Weight;
use eta_graph::handles::{vh, vh_pack};
use eta_graph::traits::EdgeConnect;

#[test]
fn bfs_graph_bfs_test(){
    let mut graph = Graph::<&str, EdgeStorage>::new();
    let root = graph.create("root", 3);
    let a = graph.create_and_connect(root, "a", 3);
    let b = graph.create_and_connect(root, "b", 2);
    graph.create_and_connect_0(root, "c");

    graph.create_and_connect_0(a, "a_a");
    graph.create_and_connect_0(a, "a_b");
    graph.create_and_connect_0(a, "a_c");

    let b_a = graph.create_and_connect(b, "b_a", 1);
    graph.create_and_connect_0(b, "b_b");

    graph.create_and_connect_0(b_a, "b_a_a");
    let mut snap: Vec<(String, Weight)> = vec![
        ("b_a_a".to_string(), 3),
        ("b_b".to_string(), 2),
        ("b_a".to_string(), 2),
        ("a_c".to_string(), 2),
        ("a_b".to_string(), 2),
        ("a_a".to_string(), 2),
        ("c".to_string(), 1),
        ("b".to_string(), 1),
        ("a".to_string(), 1),
        ("root".to_string(), 0),
    ];

    let _trace = bfs(&graph.edge_storage, vh_pack(root), graph.vertices.len(), |handle, layer|{
        let val = snap.pop().unwrap();
        assert_eq!(*graph.vertices.get(vh(handle)), val.0);
        assert_eq!(layer, val.1);
        Resume
    });

    assert_eq!(snap.len(), 0);
}

#[test]
fn bfs_graph_bfs_test_cyclic(){
    let mut graph = Graph::<&str, EdgeStorage>::with_reserve(2);
    let root = graph.create("root", 3);
    let a = graph.create_and_connect(root, "a", 3);
    let b = graph.create_and_connect(root, "b", 2);
    let c = graph.create_and_connect_0(root, "c");
    graph.edge_storage.connect(c, root);

    graph.create_and_connect_0(a, "a_a");
    let a_b = graph.create_and_connect_0(a, "a_b");
    graph.create_and_connect_0(a, "a_c");

    let b_a = graph.create_and_connect(b, "b_a", 1);
    graph.create_and_connect_0(b, "b_b");

    let b_a_a = graph.create_and_connect_0(b_a, "b_a_a");
    graph.edge_storage.connect(a_b, b_a_a);
    graph.edge_storage.connect(b_a_a, b_a);

    let mut snap: Vec<(String, Weight)> = vec![
        ("b_a_a".to_string(), 3),
        ("b_b".to_string(), 2),
        ("b_a".to_string(), 2),
        ("a_c".to_string(), 2),
        ("a_b".to_string(), 2),
        ("a_a".to_string(), 2),
        ("c".to_string(), 1),
        ("b".to_string(), 1),
        ("a".to_string(), 1),
        ("root".to_string(), 0),
    ];

    let _trace = bfs(&graph.edge_storage, vh_pack(root), graph.vertices.len(), |handle, layer|{
        let val = snap.pop().unwrap();
        assert_eq!(*graph.vertices.get(vh(handle)), val.0);
        assert_eq!(layer, val.1);
        Resume
    });
    assert_eq!(snap.len(), 0);
}

#[test]
fn algorithms_graph_bfs_test(){
    let mut graph = Graph::<&str, EdgeStorage>::new();
    let root = graph.create("root", 3);
    let a = graph.create_and_connect(root, "a", 3);
    let b = graph.create_and_connect(root, "b", 2);
    graph.create_and_connect_0(root, "c");

    graph.create_and_connect_0(a, "a_a");
    graph.create_and_connect_0(a, "a_b");
    graph.create_and_connect_0(a, "a_c");

    let b_a = graph.create_and_connect(b, "b_a", 1);
    graph.create_and_connect_0(b, "b_b");

    graph.create_and_connect_0(b_a, "b_a_a");
    let mut snap: Vec<(String, Weight)> = vec![
        ("b_a_a".to_string(), 3),
        ("b_b".to_string(), 2),
        ("b_a".to_string(), 2),
        ("a_c".to_string(), 2),
        ("a_b".to_string(), 2),
        ("a_a".to_string(), 2),
        ("c".to_string(), 1),
        ("b".to_string(), 1),
        ("a".to_string(), 1),
        ("root".to_string(), 0),
    ];

    let _trace = bfs(&graph.edge_storage, vh_pack(root), graph.vertices.len(), |handle, layer|{
        let val = snap.pop().unwrap();
        assert_eq!(*graph.vertices.get(vh(handle)), val.0);
        assert_eq!(layer, val.1);
        Resume
    });

    assert_eq!(snap.len(), 0);
}

#[test]
fn algorithms_graph_bfs_test_cyclic(){
    let mut graph = Graph::<&str, EdgeStorage>::with_reserve(2);
    let root = graph.create("root", 3);
    let a = graph.create_and_connect(root, "a", 3);
    let b = graph.create_and_connect(root, "b", 2);
    let c = graph.create_and_connect_0(root, "c");
    graph.edge_storage.connect(c, root);

    graph.create_and_connect_0(a, "a_a");
    let a_b = graph.create_and_connect_0(a, "a_b");
    graph.create_and_connect_0(a, "a_c");

    let b_a = graph.create_and_connect(b, "b_a", 1);
    graph.create_and_connect_0(b, "b_b");

    let b_a_a = graph.create_and_connect_0(b_a, "b_a_a");
    graph.edge_storage.connect(a_b, b_a_a);
    graph.edge_storage.connect(b_a_a, b_a);

    let mut snap: Vec<(String, Weight)> = vec![
        ("b_a_a".to_string(), 3),
        ("b_b".to_string(), 2),
        ("b_a".to_string(), 2),
        ("a_c".to_string(), 2),
        ("a_b".to_string(), 2),
        ("a_a".to_string(), 2),
        ("c".to_string(), 1),
        ("b".to_string(), 1),
        ("a".to_string(), 1),
        ("root".to_string(), 0),
    ];

    let _trace = bfs(&graph.edge_storage, vh_pack(root), graph.vertices.len(), |handle, layer|{
        let val = snap.pop().unwrap();
        assert_eq!(*graph.vertices.get(vh(handle)), val.0);
        assert_eq!(layer, val.1);
        Resume
    });
    assert_eq!(snap.len(), 0);
}

#[test]
fn dfs_graph_dfs_test(){
    let mut graph = Graph::<&str, EdgeStorage>::new();
    let root = graph.create("root", 3);
    let a = graph.create_and_connect(root, "a", 3);
    let b = graph.create_and_connect(root, "b", 2);
    graph.create_and_connect_0(root, "c");

    graph.create_and_connect_0(a, "a_a");
    graph.create_and_connect_0(a, "a_b");
    graph.create_and_connect_0(a, "a_c");

    let b_a = graph.create_and_connect(b, "b_a", 1);
    graph.create_and_connect_0(b, "b_b");

    graph.create_and_connect_0(b_a, "b_a_a");

    let mut snap = vec![
        "c".to_string(),
        "b_b".to_string(),
        "b_a_a".to_string(),
        "b_a".to_string(),
        "b".to_string(),
        "a_c".to_string(),
        "a_b".to_string(),
        "a_a".to_string(),
        "a".to_string(),
        "root".to_string(),
    ];

    let mut snap2 = vec![
        "root".to_string(),
        "c".to_string(),
        "b".to_string(),
        "b_b".to_string(),
        "b_a".to_string(),
        "b_a_a".to_string(),
        "a".to_string(),
        "a_c".to_string(),
        "a_b".to_string(),
        "a_a".to_string(),
    ];

    dfs(&graph.edge_storage, vh_pack(root), graph.vertices.len(), |handle|{
        assert_eq!(*graph.vertices.get(vh(handle)), snap.pop().unwrap());
        Resume
    }, |handle|{
        assert_eq!(*graph.vertices.get(vh(handle)), snap2.pop().unwrap());
    }).ok().unwrap();

    assert_eq!(snap.len(), 0);
    assert_eq!(snap2.len(), 0);
}

#[test]
fn dfs_graph_dfs_end_test(){
    let mut graph = Graph::<&str, EdgeStorage>::new();
    let root = graph.create("root", 3);
    let a = graph.create_and_connect(root, "a", 3);
    let b = graph.create_and_connect(root, "b", 2);
    graph.create_and_connect_0(root, "c");

    graph.create_and_connect_0(a, "a_a");
    graph.create_and_connect_0(a, "a_b");
    graph.create_and_connect_0(a, "a_c");

    let b_a = graph.create_and_connect(b, "b_a", 1);
    graph.create_and_connect_0(b, "b_b");

    graph.create_and_connect_0(b_a, "b_a_a");

    let mut snap = vec![
        "a_c".to_string(),
        "a_b".to_string(),
        "a_a".to_string(),
        "a".to_string(),
        "root".to_string(),
    ];

    let mut snap2 = vec![
        "root".to_string(),
        "a".to_string(),
        "a_c".to_string(),
        "a_b".to_string(),
        "a_a".to_string(),
    ];

    dfs(&graph.edge_storage, vh_pack(root), graph.vertices.len(), |handle|{
        if snap.is_empty() {
            return End;
        }
        assert_eq!(*graph.vertices.get(vh(handle)), snap.pop().unwrap());
        Resume
    }, |handle|{
        assert_eq!(*graph.vertices.get(vh(handle)), snap2.pop().unwrap());
    }).ok().unwrap();

    assert_eq!(snap.len(), 0);
    assert_eq!(snap2.len(), 0);

}

#[test]
fn algorithms_graph_dfs_test(){
    let mut graph = Graph::<&str, EdgeStorage>::new();
    let root = graph.create("root", 3);
    let a = graph.create_and_connect(root, "a", 3);
    let b = graph.create_and_connect(root, "b", 2);
    graph.create_and_connect_0(root, "c");

    graph.create_and_connect_0(a, "a_a");
    graph.create_and_connect_0(a, "a_b");
    graph.create_and_connect_0(a, "a_c");

    let b_a = graph.create_and_connect(b, "b_a", 1);
    graph.create_and_connect_0(b, "b_b");

    graph.create_and_connect_0(b_a, "b_a_a");

    let mut snap = vec![
        "c".to_string(),
        "b_b".to_string(),
        "b_a_a".to_string(),
        "b_a".to_string(),
        "b".to_string(),
        "a_c".to_string(),
        "a_b".to_string(),
        "a_a".to_string(),
        "a".to_string(),
        "root".to_string(),
    ];

    let mut snap2 = vec![
        "root".to_string(),
        "c".to_string(),
        "b".to_string(),
        "b_b".to_string(),
        "b_a".to_string(),
        "b_a_a".to_string(),
        "a".to_string(),
        "a_c".to_string(),
        "a_b".to_string(),
        "a_a".to_string(),
    ];

    dfs(&graph.edge_storage, vh_pack(root), graph.vertices.len(), |handle|{
        assert_eq!(*graph.vertices.get(vh(handle)), snap.pop().unwrap());
        Resume
    }, |handle|{
        assert_eq!(*graph.vertices.get(vh(handle)), snap2.pop().unwrap());
    }).ok().unwrap();

    assert_eq!(snap.len(), 0);
    assert_eq!(snap2.len(), 0);
}

#[test]
fn algorithms_graph_dfs_end_test(){
    let mut graph = Graph::<&str, EdgeStorage>::new();
    let root = graph.create("root", 3);
    let a = graph.create_and_connect(root, "a", 3);
    let b = graph.create_and_connect(root, "b", 2);
    graph.create_and_connect_0(root, "c");

    graph.create_and_connect_0(a, "a_a");
    graph.create_and_connect_0(a, "a_b");
    graph.create_and_connect_0(a, "a_c");

    let b_a = graph.create_and_connect(b, "b_a", 1);
    graph.create_and_connect_0(b, "b_b");

    graph.create_and_connect_0(b_a, "b_a_a");

    let mut snap = vec![
        "a_c".to_string(),
        "a_b".to_string(),
        "a_a".to_string(),
        "a".to_string(),
        "root".to_string(),
    ];

    let mut snap2 = vec![
        "root".to_string(),
        "a".to_string(),
        "a_c".to_string(),
        "a_b".to_string(),
        "a_a".to_string(),
    ];

    dfs(&graph.edge_storage, vh_pack(root), graph.vertices.len(), |handle|{
        if snap.is_empty() {
            return End;
        }
        assert_eq!(*graph.vertices.get(vh(handle)), snap.pop().unwrap());
        Resume
    }, |handle|{
        assert_eq!(*graph.vertices.get(vh(handle)), snap2.pop().unwrap());
    }).ok().unwrap();

    assert_eq!(snap.len(), 0);
    assert_eq!(snap2.len(), 0);

}

#[test]
fn dfs_with_a_spare_slot_succeeds_on_a_cycle() {
    // a -> b -> a: the start is not marked until the edge back reaches it,
    // so the explored path is a, b, a.
    let mut graph = Graph::<&str, EdgeStorage>::new();
    let a = graph.create("a", 1);
    let b = graph.create_and_connect(a, "b", 1);
    graph.edge_storage.connect(b, a);
    let tight = dfs(&graph.edge_storage, vh_pack(a), 2, |_| Resume, |_| {});
    assert!(matches!(tight, Err(TraversalError::StackOverflow)));
    let roomy = dfs(&graph.edge_storage, vh_pack(a), 3, |_| Resume, |_| {});
    match roomy {
        Ok((pre, post, _steps)) => {
            let pre_targets: Vec<u32> = pre.iter().map(|e| vh(*e)).collect();
            assert_eq!(pre_targets, vec![a, b, a]);
            assert_eq!(post.len(), 3);
        }
        Err(_) => panic!("three slots hold the path"),
    }
}

/// The targets of a step log, one letter per step: `a`sked (seen or not),
/// `e`ntered, `l`eft, with the target's handle.
fn step_targets(steps: &[DfsStep]) -> Vec<(char, u32)> {
    steps
        .iter()
        .map(|s| match s {
            DfsStep::Asked(e, seen) => (if *seen { 'S' } else { 'a' }, vh(*e)),
            DfsStep::Entered(e, _) => ('e', vh(*e)),
            DfsStep::Left(e) => ('l', vh(*e)),
        })
        .collect()
}

#[test]
fn dfs_steps_nest_pre_and_post_order() {
    // root -> a -> c, root -> b, b -> a: post-order closes a's frame before
    // b is entered, and the start's frame last.
    let mut graph = Graph::<&str, EdgeStorage>::new();
    let root = graph.create("root", 2);
    let a = graph.create_and_connect(root, "a", 1);
    let b = graph.create_and_connect(root, "b", 1);
    let c = graph.create_and_connect_0(a, "c");
    graph.edge_storage.connect(b, a);
    let (pre, post, steps) = dfs(&graph.edge_storage, vh_pack(root), graph.vertices.len(), |_| Resume, |_| {})
        .ok()
        .unwrap();
    let pre_targets: Vec<u32> = pre.iter().map(|e| vh(*e)).collect();
    let post_targets: Vec<u32> = post.iter().map(|e| vh(*e)).collect();
    assert_eq!(pre_targets, vec![root, a, c, b]);
    assert_eq!(post_targets, vec![c, a, b, root]);
    assert_eq!(
        step_targets(&steps),
        vec![
            ('e', root),
            ('a', a),
            ('e', a),
            ('a', c),
            ('e', c),
            ('l', c),
            ('l', a),
            ('a', b),
            ('e', b),
            ('S', a),
            ('l', b),
            ('l', root),
        ]
    );
}

#[test]
fn dfs_end_closes_only_the_open_frames() {
    // End on b: no more pre-order calls; post-order on the frames still
    // open (root), none for b.
    let mut graph = Graph::<&str, EdgeStorage>::new();
    let root = graph.create("root", 2);
    let a = graph.create_and_connect_0(root, "a");
    let b = graph.create_and_connect(root, "b", 1);
    graph.create_and_connect_0(b, "b_a");
    let (pre, post, steps) = dfs(&graph.edge_storage, vh_pack(root), graph.vertices.len(), |e| {
        if vh(e) == b { End } else { Resume }
    }, |_| {})
        .ok()
        .unwrap();
    let pre_targets: Vec<u32> = pre.iter().map(|e| vh(*e)).collect();
    let post_targets: Vec<u32> = post.iter().map(|e| vh(*e)).collect();
    assert_eq!(pre_targets, vec![root, a, b]);
    assert_eq!(post_targets, vec![a, root]);
    assert_eq!(steps.len(), 7);
}

#[test]
fn dfs_custom_flags_skips_what_the_check_reports() {
    // The check reports every vertex but the start as visited: only the
    // start is entered, and every edge of the start is asked about.
    let mut graph = Graph::<&str, EdgeStorage>::new();
    let root = graph.create("root", 2);
    let a = graph.create_and_connect_0(root, "a");
    let b = graph.create_and_connect_0(root, "b");
    let (pre, post, steps) = dfs_custom_flags(&graph.edge_storage, vh_pack(root), 3, |_| true, |_| Resume, |_| {})
        .ok()
        .unwrap();
    assert_eq!(pre.len(), 1);
    assert_eq!(post.len(), 1);
    assert_eq!(step_targets(&steps), vec![('e', root), ('S', a), ('S', b), ('l', root)]);
}

#[test]
fn bfs_from_a_vertex_other_than_zero_skips_vertex_zero() {
    // 1 -> 0 -> 2 and 1 -> 3 -> 1: vertex 0 is flagged from the start, so
    // 2 is never reached; the start is reached again through the cycle.
    let mut graph = Graph::<&str, EdgeStorage>::new();
    let v0 = graph.create("v0", 1);
    let v1 = graph.create("v1", 2);
    let v2 = graph.create("v2", 0);
    let v3 = graph.create("v3", 1);
    graph.edge_storage.connect(v0, v2);
    graph.edge_storage.connect(v1, v0);
    graph.edge_storage.connect(v1, v3);
    graph.edge_storage.connect(v3, v1);
    let trace = bfs(&graph.edge_storage, vh_pack(v1), 4, |_, _| Resume);
    let visits: Vec<(u32, Weight)> = trace.iter().map(|(e, l, _)| (vh(*e), *l)).collect();
    assert_eq!(visits, vec![(v1, 0), (v3, 1), (v1, 2)]);
}

#[test]
fn bfs_does_not_explore_a_target_answered_continue() {
    // root -> a -> a_a, root -> b: `Continue` on a keeps a_a unvisited; the
    // answers are recorded with the visits.
    let mut graph = Graph::<&str, EdgeStorage>::new();
    let root = graph.create("root", 2);
    let a = graph.create_and_connect(root, "a", 1);
    let b = graph.create_and_connect_0(root, "b");
    graph.create_and_connect_0(a, "a_a");
    let trace = bfs(&graph.edge_storage, vh_pack(root), graph.vertices.len(), |e, _| {
        if vh(e) == a { Continue } else { Resume }
    });
    let visits: Vec<u32> = trace.iter().map(|(e, _, _)| vh(*e)).collect();
    assert_eq!(visits, vec![root, a, b]);
    assert!(matches!(trace[1].2, Continue));
    assert!(matches!(trace[2].2, Resume));
}

#[test]
fn bfs_explores_the_start_answered_continue() {
    // `Continue` for the start does not keep its edges from being read.
    let mut graph = Graph::<&str, EdgeStorage>::new();
    let root = graph.create("root", 2);
    let a = graph.create_and_connect_0(root, "a");
    let b = graph.create_and_connect_0(root, "b");
    let trace = bfs(&graph.edge_storage, vh_pack(root), graph.vertices.len(), |e, _| {
        if vh(e) == root { Continue } else { Resume }
    });
    let visits: Vec<u32> = trace.iter().map(|(e, _, _)| vh(*e)).collect();
    assert_eq!(visits, vec![root, a, b]);
}
