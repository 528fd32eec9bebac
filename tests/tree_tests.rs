use bin_tree::{Node, Tree};

#[test]
fn test_tree() {
    let mut tree_data = Tree::new(Some(Box::new(Node::new(1))));
    let mut tree = &mut tree_data;

    tree = tree.set_child(0, Some(Box::new(Node::new(2)))).expect("failed set");
    tree = tree.set_child(1, Some(Box::new(Node::new(3)))).expect("failed set");
    tree = tree.child(0).expect("failed navigating");

    assert_eq!(2, tree.pop_handle().unwrap().value);
    assert_eq!(1, tree.pop_handle().unwrap().value);
    assert!(tree_data.pop_root().is_none());
}

#[test]
fn test_empty() {
    let mut tree: Tree<i32> = Tree::new(None);
    assert!(tree.empty());

    tree = Tree::new(Some(Box::new(Node::new(10))));
    assert!(!tree.empty());
}

#[test]
fn test_pop_root() {
    let tree_data = Tree::new(Some(Box::new(Node::new(5))));
    assert_eq!(tree_data.pop_root().unwrap().value, 5);
}

#[test]
fn test_view_value() {
    let mut tree_data = Tree::new(Some(Box::new(Node::new(1))));
    let mut tree = &mut tree_data;

    tree = tree.set_child(0, Some(Box::new(Node::new(2)))).expect("failed set");
    tree = tree.set_child(1, Some(Box::new(Node::new(3)))).expect("failed set");

    tree = tree.child(0).expect("failed navigating");
    assert_eq!(tree.view_value().unwrap(), 2);

    tree = tree.parent().expect("failed navigating to parent");
    assert_eq!(tree.view_value().unwrap(), 1);

    tree = tree.child(1).expect("failed navigating");
    assert_eq!(tree.view_value().unwrap(), 3);
}

#[test]
fn test_set_and_view_value() {
    let mut tree_data = Tree::new(Some(Box::new(Node::new(1))));
    let mut tree = &mut tree_data;

    tree = tree.set_child(0, Some(Box::new(Node::new(2)))).expect("failed set");
    tree = tree.set_child(1, Some(Box::new(Node::new(3)))).expect("failed set");

    tree = tree.child(0).expect("failed navigating");
    assert_eq!(tree.view_value().unwrap(), 2);

    tree = tree.parent().expect("failed navigating to parent");
    assert_eq!(tree.view_value().unwrap(), 1);

    tree = tree.child(1).expect("failed navigating");
    assert_eq!(tree.view_value().unwrap(), 3);
}
