use alice_vcs::diff::{apply_patch, patch_size_bytes};
use alice_vcs::{diff_trees, AstNodeKind, AstTree, DiffOp, NodeValue};

#[test]
fn test_no_diff_identical_trees() {
    let mut t1 = AstTree::new();
    t1.add_node(AstNodeKind::Primitive, "sphere", 0);
    let mut t2 = AstTree::new();
    t2.add_node(AstNodeKind::Primitive, "sphere", 0);

    let ops = diff_trees(&t1, &t2);
    assert!(ops.is_empty(), "identical trees should have no diff");
}

#[test]
fn test_diff_value_change() {
    let mut t1 = AstTree::new();
    let s = t1.add_node(AstNodeKind::Primitive, "sphere", 0);
    t1.add_node_with_value(
        AstNodeKind::Parameter,
        "radius",
        NodeValue::Float(1.0f64.to_bits()),
        s,
    );

    let mut t2 = AstTree::new();
    let s2 = t2.add_node(AstNodeKind::Primitive, "sphere", 0);
    t2.add_node_with_value(
        AstNodeKind::Parameter,
        "radius",
        NodeValue::Float(1.5f64.to_bits()),
        s2,
    );

    let ops = diff_trees(&t1, &t2);
    assert_eq!(ops.len(), 1);
    assert!(matches!(&ops[0], DiffOp::Update { .. }));
}

#[test]
fn test_diff_insert() {
    let mut t1 = AstTree::new();
    t1.add_node(AstNodeKind::Primitive, "sphere", 0);

    let mut t2 = AstTree::new();
    t2.add_node(AstNodeKind::Primitive, "sphere", 0);
    t2.add_node(AstNodeKind::Primitive, "box", 0);

    let ops = diff_trees(&t1, &t2);
    let inserts: Vec<_> = ops
        .iter()
        .filter(|o| matches!(o, DiffOp::Insert { .. }))
        .collect();
    assert_eq!(inserts.len(), 1);
}

#[test]
fn test_diff_delete() {
    let mut t1 = AstTree::new();
    t1.add_node(AstNodeKind::Primitive, "sphere", 0);
    t1.add_node(AstNodeKind::Primitive, "box", 0);

    let mut t2 = AstTree::new();
    t2.add_node(AstNodeKind::Primitive, "sphere", 0);

    let ops = diff_trees(&t1, &t2);
    let deletes: Vec<_> = ops
        .iter()
        .filter(|o| matches!(o, DiffOp::Delete { .. }))
        .collect();
    assert_eq!(deletes.len(), 1);
}

#[test]
fn test_patch_size_small() {
    let mut t1 = AstTree::new();
    let s = t1.add_node(AstNodeKind::Primitive, "sphere", 0);
    t1.add_node_with_value(
        AstNodeKind::Parameter,
        "radius",
        NodeValue::Float(1.0f64.to_bits()),
        s,
    );

    let mut t2 = AstTree::new();
    let s2 = t2.add_node(AstNodeKind::Primitive, "sphere", 0);
    t2.add_node_with_value(
        AstNodeKind::Parameter,
        "radius",
        NodeValue::Float(1.5f64.to_bits()),
        s2,
    );

    let ops = diff_trees(&t1, &t2);
    let size = patch_size_bytes(&ops);
    assert!(
        size < 20,
        "value change patch should be < 20 bytes, got {size}"
    );
}

#[test]
fn test_apply_patch() {
    let mut tree = AstTree::new();
    let s = tree.add_node(AstNodeKind::Primitive, "sphere", 0);
    tree.add_node_with_value(
        AstNodeKind::Parameter,
        "radius",
        NodeValue::Float(1.0f64.to_bits()),
        s,
    );

    let ops = vec![DiffOp::Update {
        node_id: 2,
        old_value: NodeValue::Float(1.0f64.to_bits()),
        new_value: NodeValue::Float(2.0f64.to_bits()),
    }];
    apply_patch(&mut tree, &ops);
    let node = tree.get_node(2).unwrap();
    assert_eq!(node.value, NodeValue::Float(2.0f64.to_bits()));
}

#[test]
fn test_empty_trees_no_diff() {
    let t1 = AstTree::new();
    let t2 = AstTree::new();
    assert!(diff_trees(&t1, &t2).is_empty());
}

#[test]
fn test_diff_label_swap_produces_delete_and_insert() {
    // sphere -> cylinder: no match by (kind,label) -> delete + insert
    let mut t1 = AstTree::new();
    t1.add_node(AstNodeKind::Primitive, "sphere", 0);

    let mut t2 = AstTree::new();
    t2.add_node(AstNodeKind::Primitive, "cylinder", 0);

    let ops = diff_trees(&t1, &t2);
    let deletes = ops
        .iter()
        .filter(|o| matches!(o, DiffOp::Delete { .. }))
        .count();
    let inserts = ops
        .iter()
        .filter(|o| matches!(o, DiffOp::Insert { .. }))
        .count();
    assert_eq!(deletes, 1);
    assert_eq!(inserts, 1);
}

#[test]
fn test_diff_multiple_inserts() {
    let t1 = AstTree::new(); // root only

    let mut t2 = AstTree::new();
    t2.add_node(AstNodeKind::Primitive, "a", 0);
    t2.add_node(AstNodeKind::Primitive, "b", 0);
    t2.add_node(AstNodeKind::Primitive, "c", 0);

    let ops = diff_trees(&t1, &t2);
    let inserts = ops
        .iter()
        .filter(|o| matches!(o, DiffOp::Insert { .. }))
        .count();
    assert_eq!(inserts, 3);
}

#[test]
fn test_diff_multiple_deletes() {
    let mut t1 = AstTree::new();
    t1.add_node(AstNodeKind::Primitive, "a", 0);
    t1.add_node(AstNodeKind::Primitive, "b", 0);
    t1.add_node(AstNodeKind::Primitive, "c", 0);

    let t2 = AstTree::new(); // root only

    let ops = diff_trees(&t1, &t2);
    let deletes = ops
        .iter()
        .filter(|o| matches!(o, DiffOp::Delete { .. }))
        .count();
    assert_eq!(deletes, 3);
}

#[test]
fn test_diff_update_int_value() {
    let mut t1 = AstTree::new();
    let g = t1.add_node(AstNodeKind::Group, "g", 0);
    t1.add_node_with_value(AstNodeKind::Parameter, "count", NodeValue::Int(10), g);

    let mut t2 = AstTree::new();
    let g2 = t2.add_node(AstNodeKind::Group, "g", 0);
    t2.add_node_with_value(AstNodeKind::Parameter, "count", NodeValue::Int(99), g2);

    let ops = diff_trees(&t1, &t2);
    assert_eq!(ops.len(), 1);
    match &ops[0] {
        DiffOp::Update { new_value, .. } => assert_eq!(*new_value, NodeValue::Int(99)),
        _ => panic!("expected Update"),
    }
}

#[test]
fn test_diff_update_text_value() {
    let mut t1 = AstTree::new();
    let g = t1.add_node(AstNodeKind::Material, "mat", 0);
    t1.add_node_with_value(
        AstNodeKind::Parameter,
        "name",
        NodeValue::Text(String::from("old")),
        g,
    );

    let mut t2 = AstTree::new();
    let g2 = t2.add_node(AstNodeKind::Material, "mat", 0);
    t2.add_node_with_value(
        AstNodeKind::Parameter,
        "name",
        NodeValue::Text(String::from("new")),
        g2,
    );

    let ops = diff_trees(&t1, &t2);
    assert_eq!(ops.len(), 1);
    assert!(matches!(&ops[0], DiffOp::Update { .. }));
}

#[test]
fn test_diff_deep_nested_no_change() {
    let mut t1 = AstTree::new();
    let g = t1.add_node(AstNodeKind::Group, "g", 0);
    let p = t1.add_node(AstNodeKind::Primitive, "sphere", g);
    t1.add_node_with_value(
        AstNodeKind::Parameter,
        "r",
        NodeValue::Float(1.0f64.to_bits()),
        p,
    );

    let mut t2 = AstTree::new();
    let g2 = t2.add_node(AstNodeKind::Group, "g", 0);
    let p2 = t2.add_node(AstNodeKind::Primitive, "sphere", g2);
    t2.add_node_with_value(
        AstNodeKind::Parameter,
        "r",
        NodeValue::Float(1.0f64.to_bits()),
        p2,
    );

    assert!(diff_trees(&t1, &t2).is_empty());
}

#[test]
fn test_diff_deep_nested_value_change() {
    let mut t1 = AstTree::new();
    let g = t1.add_node(AstNodeKind::Group, "g", 0);
    let p = t1.add_node(AstNodeKind::Primitive, "sphere", g);
    t1.add_node_with_value(
        AstNodeKind::Parameter,
        "r",
        NodeValue::Float(1.0f64.to_bits()),
        p,
    );

    let mut t2 = AstTree::new();
    let g2 = t2.add_node(AstNodeKind::Group, "g", 0);
    let p2 = t2.add_node(AstNodeKind::Primitive, "sphere", g2);
    t2.add_node_with_value(
        AstNodeKind::Parameter,
        "r",
        NodeValue::Float(5.0f64.to_bits()),
        p2,
    );

    let ops = diff_trees(&t1, &t2);
    let updates = ops
        .iter()
        .filter(|o| matches!(o, DiffOp::Update { .. }))
        .count();
    assert_eq!(updates, 1);
}

#[test]
fn test_diff_same_label_different_kind_is_unmatched() {
    // Same label but different kind must NOT match
    let mut t1 = AstTree::new();
    t1.add_node(AstNodeKind::Primitive, "x", 0);

    let mut t2 = AstTree::new();
    t2.add_node(AstNodeKind::Group, "x", 0);

    let ops = diff_trees(&t1, &t2);
    let deletes = ops
        .iter()
        .filter(|o| matches!(o, DiffOp::Delete { .. }))
        .count();
    let inserts = ops
        .iter()
        .filter(|o| matches!(o, DiffOp::Insert { .. }))
        .count();
    assert_eq!(deletes, 1);
    assert_eq!(inserts, 1);
}

#[test]
fn test_diff_duplicate_labels_match_once_each() {
    // Two identical children in old; two identical in new — zero ops
    let mut t1 = AstTree::new();
    t1.add_node(AstNodeKind::Primitive, "sphere", 0);
    t1.add_node(AstNodeKind::Primitive, "sphere", 0);

    let mut t2 = AstTree::new();
    t2.add_node(AstNodeKind::Primitive, "sphere", 0);
    t2.add_node(AstNodeKind::Primitive, "sphere", 0);

    assert!(diff_trees(&t1, &t2).is_empty());
}

#[test]
fn test_diff_one_duplicate_added() {
    // Old has one "sphere"; new has two — one Insert expected
    let mut t1 = AstTree::new();
    t1.add_node(AstNodeKind::Primitive, "sphere", 0);

    let mut t2 = AstTree::new();
    t2.add_node(AstNodeKind::Primitive, "sphere", 0);
    t2.add_node(AstNodeKind::Primitive, "sphere", 0);

    let ops = diff_trees(&t1, &t2);
    let inserts = ops
        .iter()
        .filter(|o| matches!(o, DiffOp::Insert { .. }))
        .count();
    assert_eq!(inserts, 1);
}

#[test]
fn test_apply_patch_delete() {
    let mut tree = AstTree::new();
    let id = tree.add_node(AstNodeKind::Primitive, "sphere", 0);
    assert_eq!(tree.node_count(), 2);

    apply_patch(&mut tree, &[DiffOp::Delete { node_id: id }]);
    assert_eq!(tree.node_count(), 1);
}

#[test]
fn test_apply_patch_insert() {
    let mut tree = AstTree::new();
    assert_eq!(tree.node_count(), 1);

    apply_patch(
        &mut tree,
        &[DiffOp::Insert {
            parent_id: 0,
            index: 0,
            kind: AstNodeKind::Primitive,
            label: String::from("box"),
            value: NodeValue::Nil,
        }],
    );
    assert_eq!(tree.node_count(), 2);
}

#[test]
fn test_apply_patch_relabel() {
    let mut tree = AstTree::new();
    let id = tree.add_node(AstNodeKind::Primitive, "sphere", 0);

    apply_patch(
        &mut tree,
        &[DiffOp::Relabel {
            node_id: id,
            old_label: String::from("sphere"),
            new_label: String::from("cylinder"),
        }],
    );
    assert_eq!(tree.get_node(id).unwrap().label, "cylinder");
}

#[test]
fn test_apply_patch_move() {
    let mut tree = AstTree::new();
    let g1 = tree.add_node(AstNodeKind::Group, "g1", 0);
    let g2 = tree.add_node(AstNodeKind::Group, "g2", 0);
    let child = tree.add_node(AstNodeKind::Primitive, "s", g1);

    apply_patch(
        &mut tree,
        &[DiffOp::Move {
            node_id: child,
            new_parent_id: g2,
            new_index: 0,
        }],
    );
    assert!(!tree.get_node(g1).unwrap().children.contains(&child));
    assert!(tree.get_node(g2).unwrap().children.contains(&child));
}

#[test]
fn test_apply_patch_move_under_later_sibling() {
    // the new parent is stored after the moved node: the move is
    // performed, detaching the node and appending it under the sibling
    let mut tree = AstTree::new();
    let a = tree.add_node(AstNodeKind::Primitive, "a", 0);
    let b = tree.add_node(AstNodeKind::Primitive, "b", 0);

    apply_patch(
        &mut tree,
        &[DiffOp::Move {
            node_id: a,
            new_parent_id: b,
            new_index: 0,
        }],
    );
    assert!(!tree.get_node(0).unwrap().children.contains(&a));
    assert!(tree.get_node(b).unwrap().children.contains(&a));
    assert_eq!(tree.node_count(), 3);
}

#[test]
fn test_apply_patch_move_into_own_subtree_skipped() {
    // a move that would create a cycle leaves the tree unchanged
    let mut tree = AstTree::new();
    let a = tree.add_node(AstNodeKind::Group, "a", 0);
    let c = tree.add_node(AstNodeKind::Group, "c", a);

    apply_patch(
        &mut tree,
        &[DiffOp::Move {
            node_id: a,
            new_parent_id: c,
            new_index: 0,
        }],
    );
    assert!(tree.get_node(0).unwrap().children.contains(&a));
    assert!(tree.get_node(a).unwrap().children.contains(&c));
}

#[test]
fn test_apply_patch_multiple_ops() {
    let mut tree = AstTree::new();
    let s = tree.add_node(AstNodeKind::Primitive, "sphere", 0);
    tree.add_node_with_value(
        AstNodeKind::Parameter,
        "r",
        NodeValue::Float(1.0f64.to_bits()),
        s,
    );

    let ops = vec![
        DiffOp::Insert {
            parent_id: 0,
            index: 1,
            kind: AstNodeKind::Primitive,
            label: String::from("box"),
            value: NodeValue::Nil,
        },
        DiffOp::Update {
            node_id: 2,
            old_value: NodeValue::Float(1.0f64.to_bits()),
            new_value: NodeValue::Float(3.0f64.to_bits()),
        },
    ];
    apply_patch(&mut tree, &ops);
    assert_eq!(tree.node_count(), 4); // root + sphere + r + box
    assert_eq!(
        tree.get_node(2).unwrap().value,
        NodeValue::Float(3.0f64.to_bits())
    );
}

#[test]
fn test_patch_size_bytes_empty() {
    assert_eq!(patch_size_bytes(&[]), 0);
}

#[test]
fn test_patch_size_bytes_delete_is_5() {
    let ops = vec![DiffOp::Delete { node_id: 1 }];
    assert_eq!(patch_size_bytes(&ops), 5);
}

#[test]
fn test_patch_size_bytes_move_is_12() {
    let ops = vec![DiffOp::Move {
        node_id: 1,
        new_parent_id: 2,
        new_index: 0,
    }];
    assert_eq!(patch_size_bytes(&ops), 12);
}

#[test]
fn test_diff_csg_tree_no_change() {
    let build = |tree: &mut AstTree| {
        let u = tree.add_node(AstNodeKind::CsgOp, "union", 0);
        tree.add_node_with_value(
            AstNodeKind::Primitive,
            "sphere",
            NodeValue::Float(1.0f64.to_bits()),
            u,
        );
        tree.add_node_with_value(
            AstNodeKind::Primitive,
            "box",
            NodeValue::Float(0.5f64.to_bits()),
            u,
        );
    };
    let mut t1 = AstTree::new();
    build(&mut t1);
    let mut t2 = AstTree::new();
    build(&mut t2);
    assert!(diff_trees(&t1, &t2).is_empty());
}

#[test]
fn test_diff_csg_tree_one_param_changed() {
    let mut t1 = AstTree::new();
    let u = t1.add_node(AstNodeKind::CsgOp, "union", 0);
    let s = t1.add_node(AstNodeKind::Primitive, "sphere", u);
    t1.add_node_with_value(
        AstNodeKind::Parameter,
        "r",
        NodeValue::Float(1.0f64.to_bits()),
        s,
    );

    let mut t2 = AstTree::new();
    let u2 = t2.add_node(AstNodeKind::CsgOp, "union", 0);
    let s2 = t2.add_node(AstNodeKind::Primitive, "sphere", u2);
    t2.add_node_with_value(
        AstNodeKind::Parameter,
        "r",
        NodeValue::Float(2.0f64.to_bits()),
        s2,
    );

    let ops = diff_trees(&t1, &t2);
    assert_eq!(ops.len(), 1);
    assert!(matches!(&ops[0], DiffOp::Update { .. }));
}

#[test]
fn test_serialized_size_insert() {
    let op = DiffOp::Insert {
        parent_id: 0,
        index: 0,
        kind: AstNodeKind::Primitive,
        label: String::from("ab"), // 2 bytes
        value: NodeValue::Nil,     // 1 byte
    };
    // 8 + label.len() + value.serialized_size() = 8 + 2 + 1 = 11
    assert_eq!(op.serialized_size(), 11);
}

#[test]
fn test_serialized_size_relabel() {
    let op = DiffOp::Relabel {
        node_id: 1,
        old_label: String::from("sphere"),
        new_label: String::from("cylinder"), // 8 bytes
    };
    // 5 + new_label.len() = 5 + 8 = 13
    assert_eq!(op.serialized_size(), 13);
}

#[test]
fn test_diff_and_apply_roundtrip() {
    let mut t1 = AstTree::new();
    let s = t1.add_node(AstNodeKind::Primitive, "sphere", 0);
    t1.add_node_with_value(
        AstNodeKind::Parameter,
        "r",
        NodeValue::Float(1.0f64.to_bits()),
        s,
    );

    let mut t2 = AstTree::new();
    let s2 = t2.add_node(AstNodeKind::Primitive, "sphere", 0);
    t2.add_node_with_value(
        AstNodeKind::Parameter,
        "r",
        NodeValue::Float(5.0f64.to_bits()),
        s2,
    );

    let ops = diff_trees(&t1, &t2);
    apply_patch(&mut t1, &ops);

    // The radius parameter node id is 2 in t1
    assert_eq!(
        t1.get_node(2).unwrap().value,
        NodeValue::Float(5.0f64.to_bits())
    );
}

#[test]
fn test_diff_large_flat_tree_no_change() {
    let build = |tree: &mut AstTree| {
        for i in 0u32..50 {
            tree.add_node(AstNodeKind::Primitive, &format!("node_{i}"), 0);
        }
    };
    let mut t1 = AstTree::new();
    build(&mut t1);
    let mut t2 = AstTree::new();
    build(&mut t2);
    assert!(diff_trees(&t1, &t2).is_empty());
}

#[test]
fn test_diff_large_flat_tree_one_changed() {
    // 50 children; only node_25's child value changes
    let mut t1 = AstTree::new();
    let mut t2 = AstTree::new();
    for i in 0u32..50 {
        let label = format!("node_{i}");
        let n1 = t1.add_node(AstNodeKind::Primitive, &label, 0);
        let n2 = t2.add_node(AstNodeKind::Primitive, &label, 0);
        let val1 = if i == 25 {
            NodeValue::Float(1.0f64.to_bits())
        } else {
            NodeValue::Nil
        };
        let val2 = if i == 25 {
            NodeValue::Float(9.9f64.to_bits())
        } else {
            NodeValue::Nil
        };
        t1.add_node_with_value(AstNodeKind::Parameter, "v", val1, n1);
        t2.add_node_with_value(AstNodeKind::Parameter, "v", val2, n2);
    }

    let ops = diff_trees(&t1, &t2);
    let updates = ops
        .iter()
        .filter(|o| matches!(o, DiffOp::Update { .. }))
        .count();
    assert_eq!(updates, 1, "only one node value changed");
}

#[test]
fn test_apply_diff_reaches_target_shape() {
    // applying diff(t1, t2) to t1 gives a tree with t2's root hash
    let mut t1 = AstTree::new();
    let g = t1.add_node(AstNodeKind::Group, "scene", 0);
    t1.add_node(AstNodeKind::Primitive, "sphere", g);
    t1.add_node(AstNodeKind::Primitive, "box", g);

    let mut t2 = AstTree::new();
    let g2 = t2.add_node(AstNodeKind::Group, "scene", 0);
    t2.add_node(AstNodeKind::Primitive, "sphere", g2);
    t2.add_node(AstNodeKind::Primitive, "cone", g2);
    t2.add_node(AstNodeKind::Primitive, "torus", g2);

    let ops = diff_trees(&t1, &t2);
    apply_patch(&mut t1, &ops);
    assert_eq!(t1.subtree_hash(0), t2.subtree_hash(0));
}

#[test]
fn test_diff_nan_against_itself_updates() {
    // IEEE ==: NaN is unequal to itself, so a NaN-bearing tree diffs
    // against its twin with a spurious Update
    let nan = f64::NAN.to_bits();
    let mut t1 = AstTree::new();
    t1.add_node_with_value(AstNodeKind::Parameter, "r", NodeValue::Float(nan), 0);
    let mut t2 = AstTree::new();
    t2.add_node_with_value(AstNodeKind::Parameter, "r", NodeValue::Float(nan), 0);

    let ops = diff_trees(&t1, &t2);
    assert_eq!(ops.len(), 1);
    assert!(matches!(&ops[0], DiffOp::Update { .. }));
}

#[test]
fn test_diff_value_change_scenario_exact() {
    // root -> Primitive "sphere" (id 1) -> Parameter "radius" (id 2)
    let mut t1 = AstTree::new();
    let s1 = t1.add_node(AstNodeKind::Primitive, "sphere", 0);
    t1.add_node_with_value(
        AstNodeKind::Parameter,
        "radius",
        NodeValue::Float(1.0f64.to_bits()),
        s1,
    );
    let mut t2 = AstTree::new();
    let s2 = t2.add_node(AstNodeKind::Primitive, "sphere", 0);
    t2.add_node_with_value(
        AstNodeKind::Parameter,
        "radius",
        NodeValue::Float(1.5f64.to_bits()),
        s2,
    );

    let ops = diff_trees(&t1, &t2);
    assert_eq!(
        ops,
        vec![DiffOp::Update {
            node_id: 2,
            old_value: NodeValue::Float(1.0f64.to_bits()),
            new_value: NodeValue::Float(1.5f64.to_bits()),
        }]
    );
    assert!(alice_vcs::encode_patch(&ops).len() < 25);
}

#[test]
fn test_pure_insert_diff_fields() {
    let t1 = AstTree::new();
    let mut t2 = AstTree::new();
    t2.add_node(AstNodeKind::Primitive, "a", 0);
    t2.add_node(AstNodeKind::Primitive, "b", 0);
    t2.add_node(AstNodeKind::Primitive, "c", 0);

    let ops = diff_trees(&t1, &t2);
    assert_eq!(ops.len(), 3);
    let labels = ["a", "b", "c"];
    for (i, op) in ops.iter().enumerate() {
        match op {
            DiffOp::Insert {
                parent_id,
                label,
                value,
                ..
            } => {
                assert_eq!(*parent_id, 0);
                assert_eq!(label, labels[i]);
                assert_eq!(*value, NodeValue::Nil);
            }
            _ => panic!("expected Insert"),
        }
    }
}
