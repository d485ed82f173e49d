use tnt::tree::ArenaTree;

#[test]
fn create_arena_tree_of_depth_three() {
    let mut tree: ArenaTree<u32> = ArenaTree::new();
    let idx0 = tree.add_node(10);
    let idx1 = tree.add_node(20);
    let idx2 = tree.add_node(21);
    tree.register_parent_node(idx1, idx0).unwrap();
    tree.register_parent_node(idx2, idx0).unwrap();
    let idx3 = tree.add_child_node(idx1, 30).unwrap();

    assert_eq!((idx0, idx1, idx2, idx3), (0, 1, 2, 3));
    assert_eq!(tree.get_node(0).unwrap().value, 10);
    assert_eq!(tree.get_node(1).unwrap().parent().unwrap(), 0);
    assert_eq!(tree.get_node(3).unwrap().parent().unwrap(), 1);
    assert_eq!(tree.get_node(1).unwrap().children(), &vec![3]);
}

#[test]
fn get_node_rejects_missing_index() {
    let tree: ArenaTree<u32> = ArenaTree::new();
    assert!(tree.get_node(0).is_err());
}

#[test]
fn register_parent_node_rejects_missing_index() {
    let mut tree: ArenaTree<u32> = ArenaTree::new();
    tree.add_node(1);
    assert!(tree.register_parent_node(0, 1).is_err());
    assert!(tree.register_parent_node(1, 0).is_err());
}

#[test]
fn add_child_node_rejects_missing_parent() {
    let mut tree: ArenaTree<u32> = ArenaTree::new();
    assert!(tree.add_child_node(0, 1).is_err());
}

#[test]
fn register_parent_node_is_idempotent() {
    let mut tree: ArenaTree<u32> = ArenaTree::new();
    let a = tree.add_node(1);
    let b = tree.add_node(2);
    tree.register_parent_node(b, a).unwrap();
    tree.register_parent_node(b, a).unwrap();
    assert_eq!(tree.get_node(a).unwrap().children(), &vec![b]);
    assert_eq!(tree.get_node(b).unwrap().parent(), Some(a));
    assert_eq!(tree.len(), 2);
    assert_eq!(tree.get_node(b).unwrap().idx(), b);
}
