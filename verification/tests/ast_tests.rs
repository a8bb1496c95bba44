use alice_vcs::{AstNode, AstNodeKind, AstTree, NodeValue};

#[test]
fn test_tree_construction() {
    let mut tree = AstTree::new();
    let sphere = tree.add_node(AstNodeKind::Primitive, "sphere", 0);
    let _radius = tree.add_node_with_value(
        AstNodeKind::Parameter,
        "radius",
        NodeValue::Float(1.0f64.to_bits()),
        sphere,
    );
    assert_eq!(tree.node_count(), 3); // root + sphere + radius
}

#[test]
fn test_parent_lookup() {
    let mut tree = AstTree::new();
    let child = tree.add_node(AstNodeKind::Group, "group1", 0);
    assert_eq!(tree.parent_of(child), Some(0));
}

#[test]
fn test_remove_subtree() {
    let mut tree = AstTree::new();
    let group = tree.add_node(AstNodeKind::Group, "g", 0);
    let _child = tree.add_node(AstNodeKind::Primitive, "s", group);
    assert_eq!(tree.node_count(), 3);
    tree.remove_subtree(group);
    assert_eq!(tree.node_count(), 1); // only root left
}

#[test]
fn test_subtree_hash_differs() {
    let mut tree1 = AstTree::new();
    tree1.add_node(AstNodeKind::Primitive, "sphere", 0);
    let mut tree2 = AstTree::new();
    tree2.add_node(AstNodeKind::Primitive, "box", 0);
    assert_ne!(tree1.subtree_hash(0), tree2.subtree_hash(0));
}

#[test]
fn test_subtree_hash_same() {
    let mut tree1 = AstTree::new();
    tree1.add_node(AstNodeKind::Primitive, "sphere", 0);
    let mut tree2 = AstTree::new();
    tree2.add_node(AstNodeKind::Primitive, "sphere", 0);
    assert_eq!(tree1.subtree_hash(0), tree2.subtree_hash(0));
}

#[test]
fn test_get_node_o1_lookup() {
    let mut tree = AstTree::new();
    let id = tree.add_node(AstNodeKind::Primitive, "sphere", 0);
    let node = tree.get_node(id).expect("node must be found");
    assert_eq!(node.id, id);
    assert_eq!(node.label, "sphere");
    assert!(tree.get_node(9999).is_none());
}

#[test]
fn test_root_is_always_node_zero() {
    let tree = AstTree::new();
    assert_eq!(tree.root_id(), 0);
    let root = tree.get_node(0).expect("root must exist");
    assert_eq!(root.kind, AstNodeKind::Root);
}

#[test]
fn test_new_tree_has_one_node() {
    let tree = AstTree::new();
    assert_eq!(tree.node_count(), 1);
}

#[test]
fn test_add_node_increments_count() {
    let mut tree = AstTree::new();
    tree.add_node(AstNodeKind::Primitive, "a", 0);
    tree.add_node(AstNodeKind::Primitive, "b", 0);
    assert_eq!(tree.node_count(), 3);
}

#[test]
fn test_add_node_with_value_stores_value() {
    let mut tree = AstTree::new();
    let id = tree.add_node_with_value(
        AstNodeKind::Parameter,
        "radius",
        NodeValue::Float(3.14f64.to_bits()),
        0,
    );
    assert_eq!(
        tree.get_node(id).unwrap().value,
        NodeValue::Float(3.14f64.to_bits())
    );
}

#[test]
fn test_root_children_updated_on_add() {
    let mut tree = AstTree::new();
    let id = tree.add_node(AstNodeKind::Primitive, "sphere", 0);
    assert!(tree.get_node(0).unwrap().children.contains(&id));
}

#[test]
fn test_get_node_mut_modifies_in_place() {
    let mut tree = AstTree::new();
    let id = tree.add_node(AstNodeKind::Primitive, "sphere", 0);
    assert!(tree.set_node_label(id, "box"));
    assert_eq!(tree.get_node(id).unwrap().label, "box");
}

#[test]
fn test_nodes_slice_length() {
    let mut tree = AstTree::new();
    tree.add_node(AstNodeKind::Group, "g", 0);
    tree.add_node(AstNodeKind::Primitive, "s", 0);
    assert_eq!(tree.nodes().len(), 3);
}

#[test]
fn test_remove_subtree_deep() {
    let mut tree = AstTree::new();
    let g = tree.add_node(AstNodeKind::Group, "g", 0);
    let c1 = tree.add_node(AstNodeKind::Primitive, "c1", g);
    tree.add_node(AstNodeKind::Parameter, "p", c1);
    assert_eq!(tree.node_count(), 4);
    tree.remove_subtree(g);
    assert_eq!(tree.node_count(), 1);
    assert!(tree.get_node(g).is_none());
}

#[test]
fn test_remove_subtree_updates_parent_children() {
    let mut tree = AstTree::new();
    let c = tree.add_node(AstNodeKind::Primitive, "c", 0);
    tree.remove_subtree(c);
    assert!(!tree.get_node(0).unwrap().children.contains(&c));
}

#[test]
fn test_node_kind_roundtrip_from_u8() {
    let cases: &[(u8, AstNodeKind)] = &[
        (0, AstNodeKind::Root),
        (1, AstNodeKind::CsgOp),
        (2, AstNodeKind::Primitive),
        (3, AstNodeKind::Transform),
        (4, AstNodeKind::Parameter),
        (5, AstNodeKind::Group),
        (6, AstNodeKind::Material),
        (7, AstNodeKind::Keyframe),
        (255, AstNodeKind::Custom),
        (42, AstNodeKind::Custom), // unknown -> Custom
    ];
    for &(byte, expected) in cases {
        assert_eq!(AstNodeKind::from_u8(byte), expected);
    }
}

#[test]
fn test_node_value_serialized_size() {
    assert_eq!(NodeValue::Nil.serialized_size(), 1);
    assert_eq!(NodeValue::Int(0).serialized_size(), 9);
    assert_eq!(NodeValue::Float(0.0f64.to_bits()).serialized_size(), 9);
    assert_eq!(NodeValue::Text(String::from("hi")).serialized_size(), 5); // 3+2
    assert_eq!(NodeValue::Ident(String::from("abc")).serialized_size(), 6); // 3+3
    assert_eq!(NodeValue::Bytes(vec![1, 2]).serialized_size(), 5); // 3+2
}

#[test]
fn test_subtree_hash_deterministic() {
    let mut t1 = AstTree::new();
    t1.add_node(AstNodeKind::Primitive, "sphere", 0);
    let mut t2 = AstTree::new();
    t2.add_node(AstNodeKind::Primitive, "sphere", 0);
    assert_eq!(t1.subtree_hash(0), t2.subtree_hash(0));
}

#[test]
fn test_default_tree_equals_new() {
    let t1 = AstTree::new();
    let t2 = AstTree::default();
    assert_eq!(t1.node_count(), t2.node_count());
    assert_eq!(t1.root_id(), t2.root_id());
}

#[test]
fn test_ast_node_builder_methods() {
    let node = AstNode::new(42, AstNodeKind::Group, "grp")
        .with_value(NodeValue::Int(7))
        .with_children(vec![1, 2, 3]);
    assert_eq!(node.id, 42);
    assert_eq!(node.value, NodeValue::Int(7));
    assert_eq!(node.children, vec![1, 2, 3]);
}

#[test]
fn test_parent_of_root_is_none() {
    let tree = AstTree::new();
    assert!(tree.parent_of(0).is_none());
}

#[test]
fn test_parent_of_nonexistent_is_none() {
    let tree = AstTree::new();
    assert!(tree.parent_of(9999).is_none());
}

#[test]
fn test_remove_subtree_wide_parent() {
    let mut tree = AstTree::new();
    let group = tree.add_node(AstNodeKind::Group, "g", 0);
    let mut child_ids = Vec::new();
    for i in 0u32..20 {
        let label = format!("child_{i}");
        let c = tree.add_node(AstNodeKind::Primitive, &label, group);
        child_ids.push(c);
    }
    assert_eq!(tree.node_count(), 22);

    tree.remove_subtree(group);

    assert_eq!(tree.node_count(), 1);
    assert!(tree.get_node(group).is_none());
    for &c in &child_ids {
        assert!(tree.get_node(c).is_none());
    }
}

#[test]
fn test_remove_subtree_deep_chain() {
    let mut tree = AstTree::new();
    let mut parent = 0u32;
    let mut ids = Vec::new();
    for i in 0u32..15 {
        let label = format!("level_{i}");
        let id = tree.add_node(AstNodeKind::Group, &label, parent);
        ids.push(id);
        parent = id;
    }
    assert_eq!(tree.node_count(), 16);

    tree.remove_subtree(ids[0]);

    assert_eq!(tree.node_count(), 1);
    for &id in &ids {
        assert!(tree.get_node(id).is_none(), "node {id} should be removed");
    }
}

#[test]
fn test_remove_subtree_leaf_only() {
    let mut tree = AstTree::new();
    let a = tree.add_node(AstNodeKind::Primitive, "a", 0);
    let b = tree.add_node(AstNodeKind::Primitive, "b", 0);
    let c = tree.add_node(AstNodeKind::Primitive, "c", 0);

    tree.remove_subtree(b);

    assert_eq!(tree.node_count(), 3); // root + a + c
    assert!(tree.get_node(a).is_some());
    assert!(tree.get_node(b).is_none());
    assert!(tree.get_node(c).is_some());
    let root = tree.get_node(0).unwrap();
    assert!(!root.children.contains(&b));
    assert!(root.children.contains(&a));
    assert!(root.children.contains(&c));
}

#[test]
fn test_remove_subtree_index_consistent_after_removal() {
    let mut tree = AstTree::new();
    let g = tree.add_node(AstNodeKind::Group, "g", 0);
    let keep1 = tree.add_node(AstNodeKind::Primitive, "k1", 0);
    let keep2 = tree.add_node(AstNodeKind::Primitive, "k2", 0);
    let c = tree.add_node(AstNodeKind::Primitive, "c", g);
    let _gc = tree.add_node(AstNodeKind::Parameter, "p", c);

    tree.remove_subtree(g);

    assert_eq!(tree.node_count(), 3);
    assert!(tree.get_node(0).is_some());
    assert!(tree.get_node(keep1).is_some());
    assert!(tree.get_node(keep2).is_some());
}

#[test]
fn test_add_node_after_remove_subtree() {
    let mut tree = AstTree::new();
    let old = tree.add_node(AstNodeKind::Primitive, "old", 0);
    tree.remove_subtree(old);
    assert_eq!(tree.node_count(), 1);

    let new_id = tree.add_node(AstNodeKind::Primitive, "new", 0);
    assert_eq!(tree.node_count(), 2);
    assert!(tree.get_node(new_id).is_some());
    assert_eq!(tree.get_node(new_id).unwrap().label, "new");
}

#[test]
fn test_remove_subtree_does_not_affect_siblings() {
    let mut tree = AstTree::new();
    let g1 = tree.add_node(AstNodeKind::Group, "g1", 0);
    let g2 = tree.add_node(AstNodeKind::Group, "g2", 0);
    let _c1 = tree.add_node(AstNodeKind::Primitive, "c1", g1);
    let c2 = tree.add_node(AstNodeKind::Primitive, "c2", g2);

    tree.remove_subtree(g1);

    assert!(tree.get_node(g2).is_some());
    assert!(tree.get_node(c2).is_some());
    assert_eq!(tree.node_count(), 3); // root + g2 + c2
}

#[test]
fn test_remove_subtree_clears_parent_index() {
    let mut tree = AstTree::new();
    let g = tree.add_node(AstNodeKind::Group, "g", 0);
    let c = tree.add_node(AstNodeKind::Primitive, "c", g);
    let gc = tree.add_node(AstNodeKind::Parameter, "gc", c);

    tree.remove_subtree(g);

    assert!(tree.parent_of(g).is_none());
    assert!(tree.parent_of(c).is_none());
    assert!(tree.parent_of(gc).is_none());
}

#[test]
fn test_subtree_hash_stable_after_remove() {
    let mut tree = AstTree::new();
    let keep = tree.add_node(AstNodeKind::Primitive, "sphere", 0);
    let drop = tree.add_node(AstNodeKind::Group, "temp", 0);
    tree.add_node(AstNodeKind::Primitive, "child", drop);
    let _ = keep;

    let hash_before = tree.subtree_hash(0);

    tree.remove_subtree(drop);

    let mut ref_tree = AstTree::new();
    ref_tree.add_node(AstNodeKind::Primitive, "sphere", 0);

    assert_eq!(tree.subtree_hash(0), ref_tree.subtree_hash(0));
    assert_ne!(tree.subtree_hash(0), hash_before);
}

#[test]
fn test_multiple_sequential_removals() {
    let mut tree = AstTree::new();
    let mut ids = Vec::new();
    for i in 0u32..10 {
        let id = tree.add_node(AstNodeKind::Primitive, &format!("n{i}"), 0);
        ids.push(id);
    }
    assert_eq!(tree.node_count(), 11); // root + 10

    for i in (0..10).step_by(2) {
        tree.remove_subtree(ids[i]);
    }

    assert_eq!(tree.node_count(), 6);
    for i in 0..10 {
        if i % 2 == 0 {
            assert!(tree.get_node(ids[i]).is_none(), "ids[{i}] should be gone");
        } else {
            assert!(tree.get_node(ids[i]).is_some(), "ids[{i}] should survive");
        }
    }
}

#[test]
fn test_remove_only_child_then_readd() {
    let mut tree = AstTree::new();
    let child = tree.add_node(AstNodeKind::Primitive, "only", 0);
    tree.remove_subtree(child);
    assert_eq!(tree.node_count(), 1);
    assert!(tree.get_node(0).unwrap().children.is_empty());

    let new_child = tree.add_node(AstNodeKind::Primitive, "new", 0);
    assert_eq!(tree.node_count(), 2);
    assert!(tree.get_node(0).unwrap().children.contains(&new_child));
}

#[test]
fn test_id_not_reused_after_removal() {
    let mut tree = AstTree::new();
    let a = tree.add_node(AstNodeKind::Primitive, "a", 0);
    let b = tree.add_node(AstNodeKind::Primitive, "b", 0);
    tree.remove_subtree(a);
    tree.remove_subtree(b);
    let c = tree.add_node(AstNodeKind::Primitive, "c", 0);
    assert!(c > a && c > b);
}

#[test]
fn test_move_node_changes_parent() {
    let mut tree = AstTree::new();
    let g1 = tree.add_node(AstNodeKind::Group, "g1", 0);
    let g2 = tree.add_node(AstNodeKind::Group, "g2", 0);
    let child = tree.add_node(AstNodeKind::Primitive, "s", g1);

    assert!(tree.move_node(child, g2));
    assert!(!tree.get_node(g1).unwrap().children.contains(&child));
    assert!(tree.get_node(g2).unwrap().children.contains(&child));
    assert_eq!(tree.parent_of(child), Some(g2));
}

#[test]
fn test_move_node_under_later_sibling() {
    // the destination is stored after the moved node: still performed
    let mut tree = AstTree::new();
    let a = tree.add_node(AstNodeKind::Group, "a", 0);
    let b = tree.add_node(AstNodeKind::Group, "b", 0);

    assert!(tree.move_node(a, b));
    assert!(!tree.get_node(0).unwrap().children.contains(&a));
    assert!(tree.get_node(b).unwrap().children.contains(&a));
    assert_eq!(tree.parent_of(a), Some(b));
    assert_eq!(tree.parent_of(b), Some(0));
}

#[test]
fn test_move_subtree_keeps_descendants() {
    let mut tree = AstTree::new();
    let a = tree.add_node(AstNodeKind::Group, "a", 0);
    let leaf = tree.add_node(AstNodeKind::Primitive, "s", a);
    let b = tree.add_node(AstNodeKind::Group, "b", 0);

    assert!(tree.move_node(a, b));
    assert_eq!(tree.parent_of(a), Some(b));
    assert_eq!(tree.parent_of(leaf), Some(a));
    assert_eq!(tree.node_count(), 4);
}

#[test]
fn test_move_node_under_own_descendant_is_skipped() {
    let mut tree = AstTree::new();
    let a = tree.add_node(AstNodeKind::Group, "a", 0);
    let c = tree.add_node(AstNodeKind::Group, "c", a);

    assert!(!tree.move_node(a, c));
    assert_eq!(tree.parent_of(a), Some(0));
    assert_eq!(tree.parent_of(c), Some(a));
}

#[test]
fn test_move_node_to_self_or_root_is_skipped() {
    let mut tree = AstTree::new();
    let a = tree.add_node(AstNodeKind::Group, "a", 0);

    assert!(!tree.move_node(a, a));
    assert!(!tree.move_node(0, a));
    assert_eq!(tree.parent_of(a), Some(0));
}

#[test]
fn test_subtree_hash_ignores_values() {
    let mut t1 = AstTree::new();
    t1.add_node_with_value(
        AstNodeKind::Parameter,
        "radius",
        NodeValue::Float(1.0f64.to_bits()),
        0,
    );
    let mut t2 = AstTree::new();
    t2.add_node_with_value(AstNodeKind::Parameter, "radius", NodeValue::Int(7), 0);
    assert_eq!(t1.subtree_hash(0), t2.subtree_hash(0));
}
