use eta_graph::edge_storage::EdgeStorage;
use eta_graph::graph;
use eta_graph::handles::vh;


#[test]
fn tree_view_create_child_test(){
    let mut graph = graph::Graph::<&str, EdgeStorage>::new_large();
    let mut tree_view = graph.tree_view();

    let root = tree_view.create_node("root");
    let child1 = tree_view.create_child(root, "child1");
    let child2 = tree_view.create_child(root, "child2");
    let child3 = tree_view.create_child(root, "child3");
    let child1_1 = tree_view.create_child(child1, "child1_1");
    let child1_2 = tree_view.create_child(child1, "child1_2");

    let child1_2_1 = tree_view.create_child(child1_2, "child1_2_1");

    assert_eq!(*tree_view.values.get(root), "root");

    assert_eq!(*tree_view.values.get(child1), "child1");
    assert_eq!(*tree_view.values.get(tree_view.get_parent(child1)), "root");
    assert_eq!(*tree_view.values.get(tree_view.get_root(child1)), "root");

    assert_eq!(*tree_view.values.get(child2), "child2");
    assert_eq!(*tree_view.values.get(tree_view.get_parent(child2)), "root");
    assert_eq!(*tree_view.values.get(tree_view.get_root(child2)), "root");

    assert_eq!(*tree_view.values.get(child3), "child3");
    assert_eq!(*tree_view.values.get(tree_view.get_parent(child3)), "root");
    assert_eq!(*tree_view.values.get(tree_view.get_root(child3)), "root");

    assert_eq!(*tree_view.values.get(child1_1), "child1_1");
    assert_eq!(*tree_view.values.get(tree_view.get_parent(child1_1)), "child1");
    assert_eq!(*tree_view.values.get(tree_view.get_root(child1_1)), "root");

    assert_eq!(*tree_view.values.get(child1_2), "child1_2");
    assert_eq!(*tree_view.values.get(tree_view.get_parent(child1_2)), "child1");
    assert_eq!(*tree_view.values.get(tree_view.get_root(child1_2)), "root");

    assert_eq!(*tree_view.values.get(child1_2_1), "child1_2_1");
    assert_eq!(*tree_view.values.get(tree_view.get_parent(child1_2_1)), "child1_2");
    assert_eq!(*tree_view.values.get(tree_view.get_root(child1_2_1)), "root");
}

#[test]
fn tree_view_add_child_test() {
    let mut graph = graph::Graph::<&str, EdgeStorage>::new_large();
    let mut tree_view = graph.tree_view();

    let root = tree_view.create_node("root");
    let child1 = tree_view.create_node("child1");
    let child2 = tree_view.create_node( "child2");
    let child3 = tree_view.create_node("child3");

    let child1_1 = tree_view.create_node("child1_1");
    let child1_2 = tree_view.create_node("child1_2");

    tree_view.add_child(root, child1);
    tree_view.add_child(root, child2);
    tree_view.add_child(root, child3);

    let children = tree_view.get_children(root);
    assert_eq!(children.len(), 3);

    tree_view.add_child(child1, child1_1);
    tree_view.add_child(child1, child1_2);

    let children = tree_view.get_children(child1);
    assert_eq!(children.len(), 2);

    assert_eq!(*tree_view.values.get(root), "root");

    assert_eq!(*tree_view.values.get(child1), "child1");
    assert_eq!(*tree_view.values.get(tree_view.get_parent(child1)), "root");
    assert_eq!(*tree_view.values.get(tree_view.get_root(child1)), "root");

    assert_eq!(*tree_view.values.get(child2), "child2");
    assert_eq!(*tree_view.values.get(tree_view.get_parent(child2)), "root");
    assert_eq!(*tree_view.values.get(tree_view.get_root(child2)), "root");

    assert_eq!(*tree_view.values.get(child3), "child3");
    assert_eq!(*tree_view.values.get(tree_view.get_parent(child3)), "root");
    assert_eq!(*tree_view.values.get(tree_view.get_root(child3)), "root");

    assert_eq!(*tree_view.values.get(child1_1), "child1_1");
    assert_eq!(*tree_view.values.get(tree_view.get_parent(child1_1)), "child1");
    assert_eq!(*tree_view.values.get(tree_view.get_root(child1_1)), "root");

    assert_eq!(*tree_view.values.get(child1_2), "child1_2");
    assert_eq!(*tree_view.values.get(tree_view.get_parent(child1_2)), "child1");
    assert_eq!(*tree_view.values.get(tree_view.get_root(child1_2)), "root");
}
#[test]
fn get_children_test(){
    let mut graph = graph::Graph::<&str, EdgeStorage>::new_large();
    let mut tree_view = graph.tree_view();

    let root = tree_view.create_node("root");
    tree_view.create_child(root, "child1");
    tree_view.create_child(root, "child2");
    tree_view.create_child(root, "child3");

    let children = tree_view.get_children(root);
    assert_eq!(children.len(), 3);
    for (i, child) in children.iter().enumerate() {
        match i {
            0 => assert_eq!(*tree_view.values.get(vh(*child)), "child1"),
            1 => assert_eq!(*tree_view.values.get(vh(*child)), "child2"),
            2 => assert_eq!(*tree_view.values.get(vh(*child)), "child3"),
            _ => continue,
        }
    }
}
