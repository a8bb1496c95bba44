use alice_vcs::{AstNodeKind, AstTree, NodeValue, Repository};

#[test]
fn test_repository_init() {
    let repo = Repository::new();
    assert_eq!(repo.commit_count(), 1);
    assert_eq!(repo.current_branch(), "main");
}

#[test]
fn test_commit() {
    let mut repo = Repository::new();
    let mut tree = AstTree::new();
    tree.add_node(AstNodeKind::Primitive, "sphere", 0);

    let hash = repo.commit(&tree, "add sphere", "test");
    assert_eq!(repo.commit_count(), 2);

    let commit = repo.get_commit(hash).unwrap();
    assert_eq!(commit.message, "add sphere");
}

#[test]
fn test_branch_and_checkout() {
    let mut repo = Repository::new();
    repo.create_branch("feature");
    assert!(repo.checkout("feature"));
    assert_eq!(repo.current_branch(), "feature");
    assert!(!repo.checkout("nonexistent"));
}

#[test]
fn test_diff_between_commits() {
    let mut repo = Repository::new();
    let h1 = repo.head_hash();

    let mut tree = AstTree::new();
    tree.add_node(AstNodeKind::Primitive, "sphere", 0);
    let h2 = repo.commit(&tree, "add sphere", "test");

    let ops = repo.diff(h1, h2).unwrap();
    assert!(!ops.is_empty());
}

#[test]
fn test_commit_stores_patch() {
    let mut repo = Repository::new();
    let mut tree = AstTree::new();
    let s = tree.add_node(AstNodeKind::Primitive, "sphere", 0);
    tree.add_node_with_value(
        AstNodeKind::Parameter,
        "radius",
        NodeValue::Float(1.0f64.to_bits()),
        s,
    );

    let hash = repo.commit(&tree, "add sphere", "test");
    let commit = repo.get_commit(hash).unwrap();
    assert!(!commit.patch.is_empty());
}

#[test]
fn test_branch_names() {
    let mut repo = Repository::new();
    repo.create_branch("dev");
    repo.create_branch("feature");
    let names = repo.branch_names();
    assert!(names.contains(&String::from("main")));
    assert!(names.contains(&String::from("dev")));
    assert!(names.contains(&String::from("feature")));
}

#[test]
fn test_repository_default_equals_new() {
    let r1 = Repository::new();
    let r2 = Repository::default();
    assert_eq!(r1.commit_count(), r2.commit_count());
    assert_eq!(r1.current_branch(), r2.current_branch());
}

#[test]
fn test_head_hash_changes_after_commit() {
    let mut repo = Repository::new();
    let initial_head = repo.head_hash();
    let mut tree = AstTree::new();
    tree.add_node(AstNodeKind::Primitive, "sphere", 0);
    repo.commit(&tree, "add sphere", "alice");
    assert_ne!(repo.head_hash(), initial_head);
}

#[test]
fn test_head_tree_reflects_latest_commit() {
    let mut repo = Repository::new();
    let mut tree = AstTree::new();
    tree.add_node(AstNodeKind::Primitive, "sphere", 0);
    repo.commit(&tree, "add sphere", "alice");
    let head = repo.head_tree().unwrap();
    assert_eq!(head.node_count(), tree.node_count());
}

#[test]
fn test_commit_records_author() {
    let mut repo = Repository::new();
    let tree = AstTree::new();
    let hash = repo.commit(&tree, "msg", "bob");
    assert_eq!(repo.get_commit(hash).unwrap().author, "bob");
}

#[test]
fn test_commit_records_message() {
    let mut repo = Repository::new();
    let tree = AstTree::new();
    let hash = repo.commit(&tree, "hello world", "x");
    assert_eq!(repo.get_commit(hash).unwrap().message, "hello world");
}

#[test]
fn test_commit_has_parent() {
    let mut repo = Repository::new();
    let initial_head = repo.head_hash();
    let tree = AstTree::new();
    let hash = repo.commit(&tree, "c2", "x");
    let commit = repo.get_commit(hash).unwrap();
    assert!(commit.parents.contains(&initial_head));
}

#[test]
fn test_checkout_nonexistent_branch_returns_false() {
    let mut repo = Repository::new();
    assert!(!repo.checkout("no-such-branch"));
    assert_eq!(repo.current_branch(), "main"); // unchanged
}

#[test]
fn test_branch_head_advances_after_commit_on_branch() {
    let mut repo = Repository::new();
    repo.create_branch("feat");
    repo.checkout("feat");
    let before = repo.head_hash();
    let mut tree = AstTree::new();
    tree.add_node(AstNodeKind::Group, "g", 0);
    repo.commit(&tree, "on feat", "x");
    assert_ne!(repo.head_hash(), before);
}

#[test]
fn test_diff_between_same_commit_is_empty() {
    let repo = Repository::new();
    let h = repo.head_hash();
    let ops = repo.diff(h, h).unwrap();
    assert!(ops.is_empty());
}

#[test]
fn test_get_commit_nonexistent_returns_none() {
    let repo = Repository::new();
    assert!(repo.get_commit(0xDEAD_BEEF_CAFE_BABE).is_none());
}

#[test]
fn test_merge_branches_clean() {
    // base commit with a group; two branches each add their own child
    let mut repo = Repository::new();
    let mut base = AstTree::new();
    base.add_node(AstNodeKind::Group, "scene", 0);
    repo.commit(&base, "base", "x");

    repo.create_branch("side");

    let mut ours = base.clone();
    let g = 1;
    ours.add_node(AstNodeKind::Primitive, "sphere", g);
    repo.commit(&ours, "ours", "x");

    repo.checkout("side");
    let before = repo.commit_count();
    let result = repo.merge("side").expect("merge should produce a result");
    // merging a branch that has not diverged from the ancestor is clean
    assert!(result.is_clean());
    assert!(repo.commit_count() > before);
}

#[test]
fn test_initial_commit_record() {
    let repo = Repository::new();
    let head = repo.head_hash();
    assert_ne!(head, 0);
    let commit = repo.get_commit(head).expect("initial commit is recorded");
    assert_eq!(commit.hash, head);
    assert!(commit.parents.is_empty());
    assert!(commit.patch.is_empty());
    assert_eq!(commit.message, "initial commit");
    assert_eq!(commit.author, "system");
    assert_eq!(repo.branch_names(), vec!["main".to_string()]);
}

#[test]
fn test_merge_commit_message_and_author() {
    let mut repo = Repository::new();
    let base = AstTree::new();
    repo.commit(&base, "base", "x");

    repo.create_branch("side");
    let result = repo.merge("side").expect("merge should produce a result");
    assert!(result.is_clean());
    let head = repo.head_hash();
    let commit = repo.get_commit(head).unwrap();
    assert_eq!(commit.message, "merge branch 'side'");
    assert_eq!(commit.author, "system");
}

#[test]
fn test_merge_unknown_branch_is_none() {
    let mut repo = Repository::new();
    let tree = AstTree::new();
    repo.commit(&tree, "c", "x");
    assert!(repo.merge("no-such-branch").is_none());
}

#[test]
fn test_initial_commit_has_no_parents_and_no_merge() {
    // the initial commit has no parent, so there is no ancestor to
    // merge against
    let mut repo = Repository::new();
    repo.create_branch("other");
    assert!(repo.merge("other").is_none());
}
