use alice_vcs::{AstNodeKind, AstTree, SnapshotStore};

#[test]
fn test_store_and_retrieve() {
    let mut store = SnapshotStore::new();
    let mut tree = AstTree::new();
    tree.add_node(AstNodeKind::Primitive, "sphere", 0);

    let hash = store.store(&tree, vec![]);
    assert!(store.contains(hash));
    let retrieved = store.get(hash).unwrap();
    assert_eq!(retrieved.node_count(), tree.node_count());
}

#[test]
fn test_parent_tracking() {
    let mut store = SnapshotStore::new();
    let mut tree1 = AstTree::new();
    tree1.add_node(AstNodeKind::Primitive, "sphere", 0);
    let h1 = store.store(&tree1, vec![]);

    let mut tree2 = AstTree::new();
    tree2.add_node(AstNodeKind::Primitive, "box", 0);
    let h2 = store.store(&tree2, vec![h1]);

    let parents = store.parents(h2).unwrap();
    assert_eq!(*parents, vec![h1]);
}

#[test]
fn test_store_count() {
    let mut store = SnapshotStore::new();
    assert!(store.is_empty());

    let tree = AstTree::new();
    store.store(&tree, vec![]);
    assert_eq!(store.len(), 1);
}

#[test]
fn test_store_default_is_empty() {
    let store = SnapshotStore::default();
    assert!(store.is_empty());
    assert_eq!(store.len(), 0);
}

#[test]
fn test_store_get_nonexistent_returns_none() {
    let store = SnapshotStore::new();
    assert!(store.get(0xDEAD_BEEF).is_none());
}

#[test]
fn test_store_contains_after_store() {
    let mut store = SnapshotStore::new();
    let tree = AstTree::new();
    let hash = store.store(&tree, vec![]);
    assert!(store.contains(hash));
}

#[test]
fn test_store_remove_returns_true_when_present() {
    let mut store = SnapshotStore::new();
    let tree = AstTree::new();
    let hash = store.store(&tree, vec![]);
    assert!(store.remove(hash));
    assert!(!store.contains(hash));
    assert_eq!(store.len(), 0);
}

#[test]
fn test_store_remove_returns_false_when_absent() {
    let mut store = SnapshotStore::new();
    assert!(!store.remove(0xABCD));
}

#[test]
fn test_all_hashes_matches_len() {
    let mut store = SnapshotStore::new();
    let mut tree = AstTree::new();
    let h0 = store.store(&tree, vec![]);
    tree.add_node(AstNodeKind::Primitive, "sphere", 0);
    let h1 = store.store(&tree, vec![h0]);
    let hashes = store.all_hashes();
    assert_eq!(hashes.len(), store.len());
    assert!(hashes.contains(&h0));
    assert!(hashes.contains(&h1));
}

#[test]
fn test_parents_of_root_snapshot_is_empty() {
    let mut store = SnapshotStore::new();
    let tree = AstTree::new();
    let hash = store.store(&tree, vec![]);
    assert!(store.parents(hash).unwrap().is_empty());
}

#[test]
fn test_store_multiple_snapshots() {
    let mut store = SnapshotStore::new();
    for i in 0u32..5 {
        let mut tree = AstTree::new();
        tree.add_node(AstNodeKind::Primitive, &format!("n{i}"), 0);
        store.store(&tree, vec![]);
    }
    assert_eq!(store.len(), 5);
}

#[test]
fn test_same_content_same_hash() {
    let mut store = SnapshotStore::new();
    let mut t1 = AstTree::new();
    t1.add_node(AstNodeKind::Primitive, "sphere", 0);
    let mut t2 = AstTree::new();
    t2.add_node(AstNodeKind::Primitive, "sphere", 0);
    let h1 = store.store(&t1, vec![]);
    let h2 = store.store(&t2, vec![]);
    assert_eq!(h1, h2);
    assert_eq!(store.len(), 1); // latest write wins at the shared key
}

#[test]
fn test_parents_change_hash() {
    let mut store = SnapshotStore::new();
    let tree = AstTree::new();
    let base = store.store(&tree, vec![]);
    let with_parent = store.store(&tree, vec![base]);
    assert_ne!(base, with_parent);
}
