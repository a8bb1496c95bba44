use alice_vcs::{collect_garbage, dry_run, AstNodeKind, AstTree, GcResult, SnapshotStore};

fn make_tree(label: &str) -> AstTree {
    let mut tree = AstTree::new();
    tree.add_node(AstNodeKind::Primitive, label, 0);
    tree
}

#[test]
fn gc_empty_store() {
    let mut store = SnapshotStore::new();
    let result = collect_garbage(&mut store, &[]);
    assert_eq!(result.total_before, 0);
    assert_eq!(result.retained, 0);
    assert_eq!(result.collected, 0);
    assert!(!result.did_collect());
}

#[test]
fn gc_all_reachable() {
    let mut store = SnapshotStore::new();
    let t1 = make_tree("sphere");
    let h1 = store.store(&t1, vec![]);

    let t2 = make_tree("box");
    let h2 = store.store(&t2, vec![h1]);

    // Both reachable from h2 (h2 -> h1)
    let result = collect_garbage(&mut store, &[h2]);
    assert_eq!(result.retained, 2);
    assert_eq!(result.collected, 0);
    assert!(!result.did_collect());
}

#[test]
fn gc_collects_unreachable() {
    let mut store = SnapshotStore::new();
    let t1 = make_tree("sphere");
    let h1 = store.store(&t1, vec![]);

    let t2 = make_tree("box");
    let h2 = store.store(&t2, vec![]);

    let t3 = make_tree("cylinder");
    let h3 = store.store(&t3, vec![h2]);

    // Root = h3. h3 -> h2 is reachable. h1 is orphaned.
    let result = collect_garbage(&mut store, &[h3]);
    assert_eq!(result.retained, 2);
    assert_eq!(result.collected, 1);
    assert!(result.did_collect());

    assert!(!store.contains(h1));
    assert!(store.contains(h2));
    assert!(store.contains(h3));
}

#[test]
fn gc_multiple_roots() {
    let mut store = SnapshotStore::new();
    let t1 = make_tree("a");
    let h1 = store.store(&t1, vec![]);

    let t2 = make_tree("b");
    let h2 = store.store(&t2, vec![]);

    let t3 = make_tree("orphan");
    let h3 = store.store(&t3, vec![]);

    // Two roots: h1 and h2 are reachable, h3 is not
    let result = collect_garbage(&mut store, &[h1, h2]);
    assert_eq!(result.retained, 2);
    assert_eq!(result.collected, 1);
    assert!(!store.contains(h3));
}

#[test]
fn gc_chain_reachability() {
    let mut store = SnapshotStore::new();
    let t1 = make_tree("v1");
    let h1 = store.store(&t1, vec![]);

    let t2 = make_tree("v2");
    let h2 = store.store(&t2, vec![h1]);

    let t3 = make_tree("v3");
    let h3 = store.store(&t3, vec![h2]);

    let t4 = make_tree("v4");
    let h4 = store.store(&t4, vec![h3]);

    // Root at h4 -> h3 -> h2 -> h1, all reachable
    let result = collect_garbage(&mut store, &[h4]);
    assert_eq!(result.retained, 4);
    assert_eq!(result.collected, 0);
}

#[test]
fn gc_diamond_dag() {
    let mut store = SnapshotStore::new();
    let t_base = make_tree("base");
    let h_base = store.store(&t_base, vec![]);

    let t_a = make_tree("branch_a");
    let h_a = store.store(&t_a, vec![h_base]);

    let t_b = make_tree("branch_b");
    let h_b = store.store(&t_b, vec![h_base]);

    // Merge commit with two parents
    let t_merge = make_tree("merge");
    let h_merge = store.store(&t_merge, vec![h_a, h_b]);

    // Root at merge -> reaches a, b, base
    let result = collect_garbage(&mut store, &[h_merge]);
    assert_eq!(result.retained, 4);
    assert_eq!(result.collected, 0);
}

#[test]
fn gc_diamond_with_orphan() {
    let mut store = SnapshotStore::new();
    let h_base = store.store(&make_tree("base"), vec![]);
    let h_a = store.store(&make_tree("branch_a"), vec![h_base]);
    let h_b = store.store(&make_tree("branch_b"), vec![h_base]);
    let h_merge = store.store(&make_tree("merge"), vec![h_a, h_b]);
    store.store(&make_tree("orphan"), vec![]);

    let result = collect_garbage(&mut store, &[h_merge]);
    assert_eq!(result.retained, 4);
    assert_eq!(result.collected, 1);
}

#[test]
fn gc_nonexistent_root_ignored() {
    let mut store = SnapshotStore::new();
    let t = make_tree("x");
    let h = store.store(&t, vec![]);

    // An absent root hash must not trip the collector
    let result = collect_garbage(&mut store, &[0xDEAD]);
    assert_eq!(result.collected, 1); // h is unreachable
    assert!(!store.contains(h));
}

#[test]
fn dry_run_does_not_modify() {
    let mut store = SnapshotStore::new();
    let t1 = make_tree("keep");
    let h1 = store.store(&t1, vec![]);

    let t2 = make_tree("orphan");
    let _h2 = store.store(&t2, vec![]);

    let result = dry_run(&store, &[h1]);
    assert_eq!(result.collected, 1);
    // Store is unmodified
    assert_eq!(store.len(), 2);
}

#[test]
fn gc_single_snapshot_no_root() {
    let mut store = SnapshotStore::new();
    let t = make_tree("lonely");
    store.store(&t, vec![]);

    // No roots: everything is garbage
    let result = collect_garbage(&mut store, &[]);
    assert_eq!(result.collected, 1);
    assert!(store.is_empty());
}

#[test]
fn gc_result_did_collect() {
    let r1 = GcResult {
        retained: 5,
        collected: 0,
        total_before: 5,
    };
    assert!(!r1.did_collect());

    let r2 = GcResult {
        retained: 3,
        collected: 2,
        total_before: 5,
    };
    assert!(r2.did_collect());
}

#[test]
fn gc_preserves_parent_links() {
    let mut store = SnapshotStore::new();
    let t1 = make_tree("v1");
    let h1 = store.store(&t1, vec![]);

    let t2 = make_tree("v2");
    let h2 = store.store(&t2, vec![h1]);

    collect_garbage(&mut store, &[h2]);

    // Parent links should still be intact
    let parents = store.parents(h2).unwrap();
    assert_eq!(*parents, vec![h1]);
}

#[test]
fn gc_total_before_is_correct() {
    let mut store = SnapshotStore::new();
    for label in &["a", "b", "c"] {
        let t = make_tree(label);
        store.store(&t, vec![]);
    }
    let result = collect_garbage(&mut store, &[]);
    assert_eq!(result.total_before, 3);
    assert_eq!(result.collected, 3);
}

#[test]
fn gc_retained_plus_collected_equals_total() {
    let mut store = SnapshotStore::new();
    let t1 = make_tree("keep");
    let h1 = store.store(&t1, vec![]);
    let t2 = make_tree("drop");
    store.store(&t2, vec![]);

    let result = collect_garbage(&mut store, &[h1]);
    assert_eq!(result.retained + result.collected, result.total_before);
}

#[test]
fn dry_run_matches_gc_stats() {
    let mut store = SnapshotStore::new();
    let t1 = make_tree("keep");
    let h1 = store.store(&t1, vec![]);
    let t2 = make_tree("orphan");
    store.store(&t2, vec![]);

    // dry_run should predict the same numbers as a real collection
    let dry = dry_run(&store, &[h1]);
    assert_eq!(dry.retained, 1);
    assert_eq!(dry.collected, 1);
    assert_eq!(dry.total_before, 2);
}

#[test]
fn gc_idempotent_when_all_reachable() {
    let mut store = SnapshotStore::new();
    let t = make_tree("x");
    let h = store.store(&t, vec![]);

    let r1 = collect_garbage(&mut store, &[h]);
    assert!(!r1.did_collect());

    // Running again on the same store should be a no-op
    let r2 = collect_garbage(&mut store, &[h]);
    assert!(!r2.did_collect());
    assert_eq!(r2.retained, 1);
}

#[test]
fn gc_twice_collects_nothing_more() {
    let mut store = SnapshotStore::new();
    let h_keep = store.store(&make_tree("keep"), vec![]);
    store.store(&make_tree("orphan"), vec![]);

    let r1 = collect_garbage(&mut store, &[h_keep]);
    assert_eq!(r1.collected, 1);
    let r2 = collect_garbage(&mut store, &[h_keep]);
    assert_eq!(r2.collected, 0);
    assert_eq!(r2.retained, r1.retained);
}

#[test]
fn gc_duplicate_root_hashes_handled() {
    let mut store = SnapshotStore::new();
    let t = make_tree("dup");
    let h = store.store(&t, vec![]);

    // Passing same root twice should not double-count
    let result = collect_garbage(&mut store, &[h, h]);
    assert_eq!(result.retained, 1);
    assert_eq!(result.collected, 0);
}
