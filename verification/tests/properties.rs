use tree_ds::removal::{strike, NO_PARENT};
use tree_ds::traversal::{contains_key, keep_first_occurrences};
use tree_ds::{Error, Node, NodeRemovalStrategy, TraversalStrategy, Tree};

/// 1 -> 2, 3; 2 -> 4, 5; 3 -> 6.
fn two_levels() -> Tree<i32, i32> {
    let mut tree = Tree::new();
    tree.add_node(Node::new(1, Some(10)), None).unwrap();
    tree.add_node(Node::new(2, Some(20)), Some(&1)).unwrap();
    tree.add_node(Node::new(3, Some(30)), Some(&1)).unwrap();
    tree.add_node(Node::new(4, Some(40)), Some(&2)).unwrap();
    tree.add_node(Node::new(5, Some(50)), Some(&2)).unwrap();
    tree.add_node(Node::new(6, Some(60)), Some(&3)).unwrap();
    tree
}

/// 1 -> 2; 2 -> 3, 4; 3 -> 5.
fn chain_with_fork() -> Tree<i32, i32> {
    let mut tree = Tree::new();
    tree.add_node(Node::new(1, Some(2)), None).unwrap();
    tree.add_node(Node::new(2, Some(3)), Some(&1)).unwrap();
    tree.add_node(Node::new(3, Some(6)), Some(&2)).unwrap();
    tree.add_node(Node::new(4, Some(5)), Some(&2)).unwrap();
    tree.add_node(Node::new(5, Some(6)), Some(&3)).unwrap();
    tree
}

fn ids(tree: &Tree<i32, i32>) -> Vec<i32> {
    tree.get_nodes().iter().map(|n| *n.id()).collect()
}

fn parentless(tree: &Tree<i32, i32>) -> usize {
    tree.get_nodes().iter().filter(|n| n.parent().is_none()).count()
}

#[test]
fn second_root_is_refused() {
    let mut tree: Tree<i32, i32> = Tree::new();
    assert_eq!(tree.add_node(Node::new(1, Some(1)), None), Ok(1));
    assert_eq!(parentless(&tree), 1);
    assert_eq!(tree.add_node(Node::new(2, Some(2)), Some(&1)), Ok(2));
    assert_eq!(tree.add_node(Node::new(3, Some(3)), Some(&2)), Ok(3));
    assert_eq!(parentless(&tree), 1);
    let before = tree.clone();
    assert_eq!(tree.add_node(Node::new(4, Some(4)), None), Err(Error::RootNodeAlreadyPresent));
    assert_eq!(tree, before);
    assert_eq!(parentless(&tree), 1);
    assert_eq!(tree.get_root_node().unwrap().get_node_id(), 1);
}

#[test]
fn unknown_parent_stores_the_node_unattached() {
    let mut tree: Tree<i32, i32> = Tree::new();
    tree.add_node(Node::new(1, Some(1)), None).unwrap();
    assert_eq!(tree.add_node(Node::new(2, Some(2)), Some(&9)), Ok(2));
    assert_eq!(ids(&tree), vec![1, 2]);
    assert_eq!(tree.get_node(&2).unwrap().get_parent(), None);
    assert_eq!(tree.get_node(&1).unwrap().get_children(), Vec::<i32>::new());
    assert_eq!(parentless(&tree), 2);
    assert_eq!(tree.get_root_node().unwrap().get_node_id(), 1);
}

#[test]
fn added_node_is_last_child_of_its_parent() {
    let tree = two_levels();
    assert_eq!(ids(&tree), vec![1, 2, 3, 4, 5, 6]);
    assert_eq!(tree.get_node(&1).unwrap().get_children(), vec![2, 3]);
    assert_eq!(tree.get_node(&2).unwrap().get_children(), vec![4, 5]);
    assert_eq!(tree.get_node(&5).unwrap().get_parent(), Some(2));
    assert_eq!(tree.get_node(&5).unwrap().get_value(), Some(50));
    assert_eq!(tree.position(&4), Some(3));
    assert_eq!(tree.position(&7), None);
    assert_eq!(tree.root_position(), Some(0));
    assert_eq!(Tree::<i32, i32>::new().root_position(), None);
    assert_eq!(Tree::<i32, i32>::new().get_root_node(), None);
}

#[test]
fn retained_children_move_to_the_grandparent() {
    let mut tree = two_levels();
    assert_eq!(tree.remove_node(&2, NodeRemovalStrategy::RetainChildren), Ok(()));
    assert_eq!(ids(&tree), vec![1, 3, 4, 5, 6]);
    assert_eq!(tree.get_node(&1).unwrap().get_children(), vec![3, 4, 5]);
    assert_eq!(tree.get_node(&4).unwrap().get_parent(), Some(1));
    assert_eq!(tree.get_node(&5).unwrap().get_parent(), Some(1));
    assert_eq!(tree.get_node(&3).unwrap().get_parent(), Some(1));
    assert_eq!(tree.get_node(&6).unwrap().get_parent(), Some(3));
    assert_eq!(tree.get_node(&2), None);
    assert!(tree.is_walkable());
}

#[test]
fn root_cannot_be_removed_while_children_are_kept() {
    let mut tree = two_levels();
    let before = tree.clone();
    let outcome = tree.remove_node(&1, NodeRemovalStrategy::RetainChildren);
    assert!(matches!(outcome, Err(Error::InvalidOperation(_))));
    assert_eq!(
        outcome,
        Err(Error::InvalidOperation(
            "Cannot remove root node with RetainChildren strategy".to_string()
        ))
    );
    assert_eq!(outcome, Err(Error::InvalidOperation(NO_PARENT.to_string())));
    assert_eq!(tree, before);
}

#[test]
fn removal_with_children_takes_the_whole_subtree() {
    let mut tree = two_levels();
    assert_eq!(tree.remove_node(&2, NodeRemovalStrategy::RemoveNodeAndChildren), Ok(()));
    assert_eq!(ids(&tree), vec![1, 3, 6]);
    assert_eq!(tree.get_node(&1).unwrap().get_children(), vec![3]);
    assert_eq!(tree.get_node(&3).unwrap().get_children(), vec![6]);
    assert!(tree.is_walkable());
    assert_eq!(tree.remove_node(&1, NodeRemovalStrategy::RemoveNodeAndChildren), Ok(()));
    assert_eq!(tree.get_nodes().len(), 0);
}

#[test]
fn removal_of_a_leaf_takes_one_node() {
    let mut tree = two_levels();
    tree.remove_node(&6, NodeRemovalStrategy::RemoveNodeAndChildren).unwrap();
    assert_eq!(ids(&tree), vec![1, 2, 3, 4, 5]);
    assert_eq!(tree.get_node(&3).unwrap().get_children(), Vec::<i32>::new());
    tree.remove_node(&5, NodeRemovalStrategy::RetainChildren).unwrap();
    assert_eq!(ids(&tree), vec![1, 2, 3, 4]);
    assert_eq!(tree.get_node(&2).unwrap().get_children(), vec![4]);
}

#[test]
fn height_is_one_more_than_the_tallest_child() {
    let tree = chain_with_fork();
    assert_eq!(tree.get_node_height(&5), 0);
    assert_eq!(tree.get_node_height(&4), 0);
    assert_eq!(tree.get_node_height(&3), 1);
    assert_eq!(tree.get_node_height(&2), 2);
    assert_eq!(tree.get_node_height(&1), 3);
    assert_eq!(tree.get_height(), 3);
}

#[test]
fn depth_grows_by_one_with_each_parent() {
    let tree = chain_with_fork();
    assert_eq!(tree.get_node_depth(&1), 0);
    assert_eq!(tree.get_node_depth(&2), 1);
    assert_eq!(tree.get_node_depth(&3), 2);
    assert_eq!(tree.get_node_depth(&4), 2);
    assert_eq!(tree.get_node_depth(&5), 3);
}

#[test]
fn degree_counts_the_children() {
    let tree = two_levels();
    assert_eq!(tree.get_node_degree(&1), 2);
    assert_eq!(tree.get_node_degree(&3), 1);
    assert_eq!(tree.get_node_degree(&6), 0);
}

#[test]
fn traversals_from_inner_nodes() {
    let tree = two_levels();
    assert_eq!(tree.traverse(TraversalStrategy::PreOrder, &2), vec![2, 4, 5]);
    assert_eq!(tree.traverse(TraversalStrategy::PostOrder, &3), vec![6, 3]);
    assert_eq!(tree.traverse(TraversalStrategy::InOrder, &2), vec![4, 2, 5]);
    assert_eq!(tree.traverse(TraversalStrategy::InOrder, &3), vec![6, 3]);
    assert_eq!(tree.traverse(TraversalStrategy::PreOrder, &6), vec![6]);
    assert_eq!(tree.traverse(TraversalStrategy::PostOrder, &6), vec![6]);
    assert_eq!(tree.traverse(TraversalStrategy::InOrder, &6), Vec::<i32>::new());
}

#[test]
fn later_occurrences_are_dropped() {
    assert_eq!(keep_first_occurrences(vec![4, 2, 5, 1, 3, 6, 3]), vec![4, 2, 5, 1, 3, 6]);
    assert_eq!(keep_first_occurrences(vec![1, 1, 2, 1, 2, 3]), vec![1, 2, 3]);
    assert_eq!(keep_first_occurrences(Vec::<i32>::new()), Vec::<i32>::new());
    assert!(contains_key(&vec![3, 4], &4));
    assert!(!contains_key(&vec![3, 4], &5));
    assert_eq!(strike(&vec![1, 2, 1, 3], &1), vec![2, 3]);
}

#[test]
fn subtree_without_bound_holds_each_descendant_once() {
    let tree = chain_with_fork();
    let part = tree.get_subtree(&2, None);
    assert_eq!(ids(&part), vec![2, 3, 5, 4]);
    assert_eq!(part.get_node(&3), tree.get_node(&3));
    assert_eq!(part.get_node(&2).unwrap().get_parent(), Some(1));
    assert_eq!(tree.ids_below(&2), vec![2, 3, 5, 4]);
    assert_eq!(ids(&tree.get_subtree(&1, None)), vec![1, 2, 3, 5, 4]);
    assert_eq!(ids(&tree.get_subtree(&5, None)), vec![5]);
    assert_eq!(ids(&tree.get_subtree(&9, None)), Vec::<i32>::new());
}

#[test]
fn subtree_with_bound_walks_in_rounds() {
    let tree = chain_with_fork();
    assert_eq!(ids(&tree.get_subtree(&2, Some(0))), vec![2]);
    assert_eq!(ids(&tree.get_subtree(&2, Some(-3))), vec![2]);
    assert_eq!(ids(&tree.get_subtree(&2, Some(1))), vec![2, 3, 4]);
    assert_eq!(ids(&tree.get_subtree(&2, Some(2))), vec![2, 3, 4, 3, 5, 4]);
    assert_eq!(tree.ids_within(&1, 2), vec![1, 2, 2, 3, 4]);
    assert_eq!(ids(&tree.get_subtree(&9, Some(2))), Vec::<i32>::new());
}

#[test]
fn picked_nodes_come_in_the_order_asked_for() {
    let tree = two_levels();
    let part = tree.pick(&vec![6, 2, 6]);
    assert_eq!(ids(&part), vec![6, 2, 6]);
    assert_eq!(part.get_nodes()[1], tree.get_node(&2).unwrap());
}

#[test]
fn added_subtree_hangs_below_the_node() {
    let mut tree: Tree<i32, i32> = Tree::new();
    tree.add_node(Node::new(1, Some(1)), None).unwrap();
    tree.add_node(Node::new(2, Some(2)), Some(&1)).unwrap();
    let mut part: Tree<i32, i32> = Tree::new();
    part.add_node(Node::new(7, Some(7)), None).unwrap();
    part.add_node(Node::new(8, Some(8)), Some(&7)).unwrap();
    tree.add_subtree(&2, part);
    assert_eq!(ids(&tree), vec![1, 2, 7, 8]);
    assert_eq!(tree.get_node(&2).unwrap().get_children(), vec![7]);
    assert_eq!(tree.get_node(&7).unwrap().get_parent(), Some(2));
    assert_eq!(tree.get_node(&8).unwrap().get_parent(), Some(7));
    assert_eq!(tree.get_node_depth(&8), 3);
    assert_eq!(tree.get_height(), 3);
    assert!(tree.is_walkable());
}

#[test]
fn discard_drops_every_listed_id() {
    let mut tree = two_levels();
    tree.discard(&vec![5, 1, 9]);
    assert_eq!(ids(&tree), vec![2, 3, 4, 6]);
}

#[test]
fn equality_goes_by_order_and_links() {
    let tree = two_levels();
    assert_eq!(tree, tree.clone());
    let mut other = Tree::new();
    other.add_node(Node::new(1, Some(10)), None).unwrap();
    other.add_node(Node::new(3, Some(30)), Some(&1)).unwrap();
    other.add_node(Node::new(2, Some(20)), Some(&1)).unwrap();
    other.add_node(Node::new(4, Some(40)), Some(&2)).unwrap();
    other.add_node(Node::new(5, Some(50)), Some(&2)).unwrap();
    other.add_node(Node::new(6, Some(60)), Some(&3)).unwrap();
    assert_ne!(tree, other);
    assert_eq!(Tree::<i32, i32>::default(), Tree::new());
    assert_ne!(Node::new(1, Some(2)), Node::new(1, Some(3)));
    assert_ne!(Node::<i32, i32>::new(1, None), Node::new(2, None));
    let node = Node::from_parts(4, Some(1), Some(2), vec![5, 6]);
    assert_eq!(node.get_children(), vec![5, 6]);
    assert_ne!(node, Node::from_parts(4, Some(1), Some(2), vec![6, 5]));
    assert_eq!(node, node.clone());
}

#[test]
fn node_parts_can_be_changed() {
    let mut node: Node<i32, i32> = Node::new(1, Some(2));
    assert_eq!(node.get_node_id(), 1);
    assert_eq!(node.get_value(), Some(2));
    assert_eq!(node.get_parent(), None);
    node.set_parent(Some(9));
    node.push_child(3);
    node.push_child(4);
    assert_eq!(node, Node::from_parts(1, Some(2), Some(9), vec![3, 4]));
    node.set_children(vec![4]);
    assert_eq!(*node.children(), vec![4]);
    assert_eq!(*node.parent(), Some(9));
}

#[test]
fn trees_from_nodes_are_tested_for_walking() {
    let sound = Tree::from_nodes(vec![
        Node::from_parts(2, Some(0), Some(1), vec![]),
        Node::from_parts(1, Some(0), None, vec![2]),
    ]);
    assert!(sound.is_walkable());
    assert!(sound.has_distinct_ids());
    assert_eq!(sound.get_node_height(&1), 1);
    assert!(sound.probe(1, 2));
    assert!(!sound.probe(1, 1));
    assert!(sound.probe(0, 1));
    assert!(!sound.probe(0, 0));
    let circle = Tree::from_nodes(vec![
        Node::from_parts(1, Some(0), Some(2), vec![2]),
        Node::from_parts(2, Some(0), Some(1), vec![1]),
    ]);
    assert!(!circle.is_walkable());
    let twice = Tree::from_nodes(vec![
        Node::from_parts(1, Some(0), None, vec![]),
        Node::from_parts(1, Some(0), None, vec![]),
    ]);
    assert!(!twice.is_walkable());
    assert!(!twice.has_distinct_ids());
    let dangling = Tree::from_nodes(vec![Node::from_parts(1, Some(0), None, vec![5])]);
    assert!(!dangling.is_walkable());
}

#[test]
fn tree_rebuilt_from_the_parts_of_its_nodes_is_equal() {
    let tree = two_levels();
    let nodes: Vec<Node<i32, i32>> = tree
        .get_nodes()
        .iter()
        .map(|n| Node::from_parts(*n.id(), *n.value(), *n.parent(), n.children().clone()))
        .collect();
    let rebuilt = Tree::from_nodes(nodes);
    assert_eq!(rebuilt, tree);
    assert_eq!(rebuilt.traverse(TraversalStrategy::PreOrder, &1), vec![1, 2, 4, 5, 3, 6]);
}

#[test]
fn preorder_lists_the_subtree_in_its_order() {
    let tree = two_levels();
    assert_eq!(tree.traverse(TraversalStrategy::PreOrder, &1), tree.ids_below(&1));
    assert_eq!(tree.traverse(TraversalStrategy::PreOrder, &3), tree.ids_below(&3));
    let mut post = tree.traverse(TraversalStrategy::PostOrder, &1);
    assert_eq!(post.last(), Some(&1));
    post.sort();
    assert_eq!(post, vec![1, 2, 3, 4, 5, 6]);
}
