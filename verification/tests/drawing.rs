use tree_ds::{Node, Tree};

#[test]
fn open_columns_carry_a_bar() {
    let mut tree: Tree<i32, i32> = Tree::new();
    tree.add_node(Node::new(1, Some(1)), None).unwrap();
    tree.add_node(Node::new(2, Some(2)), Some(&1)).unwrap();
    tree.add_node(Node::new(3, Some(3)), Some(&1)).unwrap();
    tree.add_node(Node::new(4, Some(4)), Some(&2)).unwrap();
    tree.add_node(Node::new(5, Some(5)), Some(&4)).unwrap();
    tree.add_node(Node::new(6, Some(6)), Some(&4)).unwrap();
    tree.add_node(Node::new(7, Some(7)), Some(&3)).unwrap();
    let expected = "1: 1\n\
                    ├── 2: 2\n\
                    │   └── 4: 4\n\
                    │       ├── 5: 5\n\
                    │       └── 6: 6\n\
                    └── 3: 3\n    \
                        └── 7: 7\n";
    assert_eq!(tree.to_string(), expected);
}

#[test]
fn single_node_is_one_line() {
    let mut tree: Tree<i32, i32> = Tree::new();
    tree.add_node(Node::new(1, Some(2)), None).unwrap();
    assert_eq!(tree.to_string(), "1: 2\n");
}

#[test]
fn missing_payload_is_drawn_as_the_default() {
    let mut tree: Tree<u8, u8> = Tree::new();
    tree.add_node(Node::new(7, None), None).unwrap();
    tree.add_node(Node::new(8, Some(9)), Some(&7)).unwrap();
    assert_eq!(tree.to_string(), "7: 0\n└── 8: 9\n");
    assert_eq!(Node::<u8, u8>::new(7, None).label(), "7: 0");
    assert_eq!(Node::<u8, u8>::new(8, Some(9)).label(), "8: 9");
}

#[test]
fn tree_without_root_is_drawn_from_its_first_node() {
    let mut tree: Tree<i32, i32> = Tree::new();
    tree.add_node(Node::new(1, Some(2)), None).unwrap();
    tree.add_node(Node::new(2, Some(3)), Some(&1)).unwrap();
    tree.add_node(Node::new(3, Some(6)), Some(&2)).unwrap();
    tree.add_node(Node::new(4, Some(5)), Some(&2)).unwrap();
    let part = tree.get_subtree(&2, None);
    assert_eq!(part.to_string(), "2: 3\n├── 3: 6\n└── 4: 5\n");
}

#[test]
fn labels_are_taken_by_position() {
    let mut tree: Tree<i32, i32> = Tree::new();
    tree.add_node(Node::new(1, Some(2)), None).unwrap();
    tree.add_node(Node::new(2, Some(3)), Some(&1)).unwrap();
    tree.add_node(Node::new(3, Some(6)), Some(&1)).unwrap();
    let labels = vec!["one".to_string(), "two".to_string(), "three".to_string()];
    assert_eq!(tree.render(&labels), "one\n├── two\n└── three\n");
    let mut out = String::from(">");
    tree.print_tree(&labels, 0, &String::from("."), &mut out);
    assert_eq!(out, ">.├── two\n.└── three\n");
}
