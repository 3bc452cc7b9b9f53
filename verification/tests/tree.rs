use tree_ds::{Error, Node, NodeRemovalStrategy, SubTree, TraversalStrategy, Tree};

#[test]
fn test_tree_new() {
    let tree = Tree::<u32, u32>::new();
    assert_eq!(tree.get_nodes().len(), 0);
}

#[test]
fn test_tree_add_node() {
    let mut tree = Tree::new();
    let node_id = tree.add_node(Node::new(1, Some(2)), None).unwrap();
    assert_eq!(tree.get_nodes().len(), 1);
    assert_eq!(node_id, 1);
    let node_id_2 = tree.add_node(Node::new(2, Some(3)), Some(&1)).unwrap();
    assert_eq!(tree.get_nodes().len(), 2);
    assert_eq!(node_id_2, 2);
    let node_2 = tree.get_node(&2).unwrap();
    assert_eq!(node_2.get_parent().unwrap(), 1);
}

#[test]
fn test_tree_get_node() {
    let mut tree = Tree::new();
    let node = Node::new(1, Some(2));
    tree.add_node(node.clone(), None).unwrap();
    assert_eq!(tree.get_node(&1), Some(node));
    assert_eq!(tree.get_node(&2), None);
}

#[test]
fn test_tree_get_nodes() {
    let mut tree = Tree::new();
    let node = Node::new(1, Some(2));
    tree.add_node(node.clone(), None).unwrap();
    assert_eq!(tree.get_nodes().len(), 1);
}

#[test]
fn test_tree_get_root_node() {
    let mut tree = Tree::new();
    let node = Node::new(1, Some(2));
    tree.add_node(node.clone(), None).unwrap();
    assert_eq!(tree.get_root_node(), Some(node));
}

#[test]
fn test_tree_get_node_height() {
    let mut tree = Tree::new();
    let node_1 = tree.add_node(Node::new(1, Some(2)), None).unwrap();
    let node_2 = tree.add_node(Node::new(2, Some(3)), Some(&node_1)).unwrap();
    let node_3 = tree.add_node(Node::new(3, Some(6)), Some(&node_2)).unwrap();
    assert_eq!(tree.get_node_height(&node_1), 2);
    assert_eq!(tree.get_node_height(&node_2), 1);
    assert_eq!(tree.get_node_height(&node_3), 0);
}

#[test]
fn test_tree_get_node_depth() {
    let mut tree = Tree::new();
    let node_1 = tree.add_node(Node::new(1, Some(2)), None).unwrap();
    let node_2 = tree.add_node(Node::new(2, Some(3)), Some(&node_1)).unwrap();
    let node_3 = tree.add_node(Node::new(3, Some(6)), Some(&node_2)).unwrap();
    assert_eq!(tree.get_node_depth(&node_3), 2);
    assert_eq!(tree.get_node_depth(&node_2), 1);
    assert_eq!(tree.get_node_depth(&node_1), 0);
}

#[test]
fn test_tree_get_height() {
    let mut tree = Tree::new();
    let node_1 = tree.add_node(Node::new(1, Some(2)), None).unwrap();
    let node_2 = tree.add_node(Node::new(2, Some(3)), Some(&node_1)).unwrap();
    tree.add_node(Node::new(3, Some(6)), Some(&node_2)).unwrap();
    assert_eq!(tree.get_height(), 2);
}

#[test]
fn test_tree_get_node_degree() {
    let mut tree = Tree::new();
    let node_1 = tree.add_node(Node::new(1, Some(2)), None).unwrap();
    let node_2 = tree.add_node(Node::new(2, Some(3)), Some(&node_1)).unwrap();
    let node_3 = tree.add_node(Node::new(3, Some(6)), Some(&node_1)).unwrap();
    assert_eq!(tree.get_node_degree(&node_1), 2);
    assert_eq!(tree.get_node_degree(&node_2), 0);
    assert_eq!(tree.get_node_degree(&node_3), 0);
}

#[test]
fn test_tree_remove_node() -> Result<(), Error> {
    let mut tree = Tree::new();
    let node = Node::new(1, Some(2));
    tree.add_node(node.clone(), None)?;
    let node_2 = Node::new(2, Some(3));
    tree.add_node(node_2.clone(), Some(&1))?;
    let node_3 = Node::new(3, Some(6));
    tree.add_node(node_3.clone(), Some(&2))?;
    tree.remove_node(&2, NodeRemovalStrategy::RetainChildren)?;
    assert_eq!(tree.get_nodes().len(), 2);
    let node_4 = Node::new(4, Some(5));
    let node_5 = Node::new(5, Some(12));
    tree.add_node(node_4.clone(), Some(&3))?;
    tree.add_node(node_5.clone(), Some(&3))?;
    tree.remove_node(&3, NodeRemovalStrategy::RemoveNodeAndChildren)?;
    assert_eq!(tree.get_nodes().len(), 1);
    Ok(())
}

#[test]
fn test_tree_get_subsection() {
    let mut tree = Tree::new();
    let node = Node::new(1, Some(2));
    tree.add_node(node.clone(), None).unwrap();
    let node_2 = Node::new(2, Some(3));
    tree.add_node(node_2.clone(), Some(&1)).unwrap();
    let node_3 = Node::new(3, Some(6));
    tree.add_node(node_3.clone(), Some(&2)).unwrap();
    let node_4 = Node::new(4, Some(5));
    tree.add_node(node_4.clone(), Some(&2)).unwrap();
    let node_5 = Node::new(5, Some(6));
    tree.add_node(node_5.clone(), Some(&3)).unwrap();
    let subsection = tree.get_subtree(&2, None);
    assert_eq!(subsection.get_nodes().len(), 4);
    let subsection = tree.get_subtree(&2, Some(0));
    assert_eq!(subsection.get_nodes().len(), 1);
    let subsection = tree.get_subtree(&2, Some(1));
    assert_eq!(subsection.get_nodes().len(), 3);
}

#[test]
fn test_tree_add_subsection() {
    let mut tree = Tree::new();
    let node_id = tree.add_node(Node::new(1, Some(2)), None).unwrap();
    let mut subtree = SubTree::new();
    let node_2 = subtree.add_node(Node::new(2, Some(3)), None).unwrap();
    subtree.add_node(Node::new(3, Some(6)), Some(&node_2)).unwrap();
    tree.add_subtree(&node_id, subtree);
    assert_eq!(tree.get_nodes().len(), 3);
}

#[test]
fn test_tree_display() {
    let mut tree = Tree::new();
    let node_1 = tree.add_node(Node::new(1, Some(2)), None).unwrap();
    let node_2 = tree.add_node(Node::new(2, Some(3)), Some(&node_1)).unwrap();
    let node_3 = tree.add_node(Node::new(3, Some(6)), Some(&node_2)).unwrap();
    tree.add_node(Node::new(4, Some(5)), Some(&node_2)).unwrap();
    tree.add_node(Node::new(5, Some(6)), Some(&node_3)).unwrap();
    let expected_str = "1: 2\n└── 2: 3\n    ├── 3: 6\n    │   └── 5: 6\n    └── 4: 5\n";
    assert_eq!(tree.to_string(), expected_str);
}

#[test]
fn compare_tree() {
    let mut tree = Tree::new();
    let node_1 = tree.add_node(Node::new(1, Some(2)), None).unwrap();
    let node_2 = tree.add_node(Node::new(2, Some(3)), Some(&node_1)).unwrap();
    let node_3 = tree.add_node(Node::new(3, Some(6)), Some(&node_2)).unwrap();
    tree.add_node(Node::new(4, Some(5)), Some(&node_2)).unwrap();
    tree.add_node(Node::new(5, Some(6)), Some(&node_3)).unwrap();
    let mut tree_2 = Tree::new();
    let node_1 = tree_2.add_node(Node::new(1, Some(2)), None).unwrap();
    let node_2 = tree_2.add_node(Node::new(2, Some(3)), Some(&node_1)).unwrap();
    let node_3 = tree_2.add_node(Node::new(3, Some(6)), Some(&node_2)).unwrap();
    tree_2.add_node(Node::new(4, Some(5)), Some(&node_2)).unwrap();
    tree_2.add_node(Node::new(5, Some(6)), Some(&node_3)).unwrap();
    assert_eq!(tree, tree_2);
}

#[test]
fn test_tree_traverse() {
    let mut tree = Tree::new();
    let node_1 = tree.add_node(Node::new(1, Some(2)), None).unwrap();
    let node_2 = tree.add_node(Node::new(2, Some(3)), Some(&node_1)).unwrap();
    let node_3 = tree.add_node(Node::new(3, Some(6)), Some(&node_1)).unwrap();
    let node_4 = tree.add_node(Node::new(4, Some(5)), Some(&node_2)).unwrap();
    let node_5 = tree.add_node(Node::new(5, Some(6)), Some(&node_2)).unwrap();
    let node_6 = tree.add_node(Node::new(6, Some(7)), Some(&node_3)).unwrap();
    let preorder_nodes = tree.traverse(TraversalStrategy::PreOrder, &node_1);
    let expected_preorder = vec![node_1, node_2, node_4, node_5, node_3, node_6];
    assert_eq!(preorder_nodes, expected_preorder);

    let in_order_nodes = tree.traverse(TraversalStrategy::InOrder, &node_1);
    let expected_in_order = vec![node_4, node_2, node_5, node_1, node_3, node_6];
    assert_eq!(in_order_nodes, expected_in_order);

    let post_order_nodes = tree.traverse(TraversalStrategy::PostOrder, &node_1);
    let expected_post_order = vec![node_4, node_5, node_2, node_6, node_3, node_1];
    assert_eq!(post_order_nodes, expected_post_order);
}
