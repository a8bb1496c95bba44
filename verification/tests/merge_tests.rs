use alice_vcs::{merge_patches, DiffOp, NodeValue};

#[test]
fn test_clean_merge_non_overlapping() {
    let patch_a = vec![DiffOp::Update {
        node_id: 1,
        old_value: NodeValue::Float(1.0f64.to_bits()),
        new_value: NodeValue::Float(2.0f64.to_bits()),
    }];
    let patch_b = vec![DiffOp::Update {
        node_id: 2,
        old_value: NodeValue::Float(3.0f64.to_bits()),
        new_value: NodeValue::Float(4.0f64.to_bits()),
    }];

    let result = merge_patches(&patch_a, &patch_b);
    assert!(result.is_clean());
    assert_eq!(result.merged_ops.len(), 2);
}

#[test]
fn test_conflict_same_node_different_values() {
    let patch_a = vec![DiffOp::Update {
        node_id: 1,
        old_value: NodeValue::Float(1.0f64.to_bits()),
        new_value: NodeValue::Float(2.0f64.to_bits()),
    }];
    let patch_b = vec![DiffOp::Update {
        node_id: 1,
        old_value: NodeValue::Float(1.0f64.to_bits()),
        new_value: NodeValue::Float(3.0f64.to_bits()),
    }];

    let result = merge_patches(&patch_a, &patch_b);
    assert!(!result.is_clean());
    assert_eq!(result.conflicts.len(), 1);
    assert_eq!(result.conflicts[0].node_id, 1);
}

#[test]
fn test_auto_resolve_identical_changes() {
    let patch_a = vec![DiffOp::Update {
        node_id: 1,
        old_value: NodeValue::Float(1.0f64.to_bits()),
        new_value: NodeValue::Float(2.0f64.to_bits()),
    }];
    let patch_b = vec![DiffOp::Update {
        node_id: 1,
        old_value: NodeValue::Float(1.0f64.to_bits()),
        new_value: NodeValue::Float(2.0f64.to_bits()),
    }];

    let result = merge_patches(&patch_a, &patch_b);
    assert!(result.is_clean());
    assert_eq!(result.merged_ops.len(), 1);
}

#[test]
fn test_empty_merge() {
    let result = merge_patches(&[], &[]);
    assert!(result.is_clean());
    assert!(result.merged_ops.is_empty());
}
