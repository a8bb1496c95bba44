use alice_vcs::codec::{
    decode_op, decode_string, decode_value, decode_varint_u32, encode_op, encode_string,
    encode_value, encode_varint_u32,
};
use alice_vcs::{decode_patch, encode_patch, encoded_patch_size, AstNodeKind, DiffOp, NodeValue};

#[test]
fn varint_roundtrip_small() {
    let mut buf = Vec::new();
    encode_varint_u32(42, &mut buf);
    let mut pos = 0;
    assert_eq!(decode_varint_u32(&buf, &mut pos), Some(42));
    assert_eq!(buf.len(), 1); // 42 fits in 1 byte
}

#[test]
fn varint_roundtrip_large() {
    let mut buf = Vec::new();
    encode_varint_u32(0xFFFF_FFFF, &mut buf);
    let mut pos = 0;
    assert_eq!(decode_varint_u32(&buf, &mut pos), Some(0xFFFF_FFFF));
    assert_eq!(buf.len(), 5); // max u32 needs 5 bytes
}

#[test]
fn varint_roundtrip_zero() {
    let mut buf = Vec::new();
    encode_varint_u32(0, &mut buf);
    let mut pos = 0;
    assert_eq!(decode_varint_u32(&buf, &mut pos), Some(0));
    assert_eq!(buf.len(), 1);
}

#[test]
fn varint_boundary_128() {
    let mut buf = Vec::new();
    encode_varint_u32(127, &mut buf);
    assert_eq!(buf.len(), 1);
    buf.clear();
    encode_varint_u32(128, &mut buf);
    assert_eq!(buf.len(), 2); // 128 needs 2 bytes
    let mut pos = 0;
    assert_eq!(decode_varint_u32(&buf, &mut pos), Some(128));
}

#[test]
fn varint_boundary_16383() {
    let mut buf = Vec::new();
    encode_varint_u32(16383, &mut buf);
    assert_eq!(buf.len(), 2);
    let mut pos = 0;
    assert_eq!(decode_varint_u32(&buf, &mut pos), Some(16383));
}

#[test]
fn delete_roundtrip() {
    let op = DiffOp::Delete { node_id: 42 };
    let mut buf = Vec::new();
    encode_op(&op, &mut buf);
    let mut pos = 0;
    let decoded = decode_op(&buf, &mut pos).unwrap();
    assert_eq!(decoded, op);
    assert_eq!(buf.len(), 2); // 1 tag + 1 varint
}

#[test]
fn update_float_roundtrip() {
    let op = DiffOp::Update {
        node_id: 5,
        old_value: NodeValue::Float(1.0f64.to_bits()),
        new_value: NodeValue::Float(2.5f64.to_bits()),
    };
    let mut buf = Vec::new();
    encode_op(&op, &mut buf);
    let mut pos = 0;
    let decoded = decode_op(&buf, &mut pos).unwrap();
    assert_eq!(decoded, op);
}

#[test]
fn update_int_roundtrip() {
    let op = DiffOp::Update {
        node_id: 100,
        old_value: NodeValue::Int(-42),
        new_value: NodeValue::Int(999),
    };
    let mut buf = Vec::new();
    encode_op(&op, &mut buf);
    let mut pos = 0;
    let decoded = decode_op(&buf, &mut pos).unwrap();
    assert_eq!(decoded, op);
}

#[test]
fn insert_roundtrip() {
    let op = DiffOp::Insert {
        parent_id: 0,
        index: 3,
        kind: AstNodeKind::Primitive,
        label: String::from("sphere"),
        value: NodeValue::Float(1.5f64.to_bits()),
    };
    let mut buf = Vec::new();
    encode_op(&op, &mut buf);
    let mut pos = 0;
    let decoded = decode_op(&buf, &mut pos).unwrap();
    assert_eq!(decoded, op);
}

#[test]
fn relabel_roundtrip() {
    let op = DiffOp::Relabel {
        node_id: 7,
        old_label: String::from("sphere"),
        new_label: String::from("box"),
    };
    let mut buf = Vec::new();
    encode_op(&op, &mut buf);
    let mut pos = 0;
    let decoded = decode_op(&buf, &mut pos).unwrap();
    assert_eq!(decoded, op);
}

#[test]
fn move_roundtrip() {
    let op = DiffOp::Move {
        node_id: 3,
        new_parent_id: 1,
        new_index: 0,
    };
    let mut buf = Vec::new();
    encode_op(&op, &mut buf);
    let mut pos = 0;
    let decoded = decode_op(&buf, &mut pos).unwrap();
    assert_eq!(decoded, op);
    // Move: 1 tag + 3 varints = 4 bytes for small IDs
    assert_eq!(buf.len(), 4);
}

#[test]
fn patch_roundtrip_multiple_ops() {
    let ops = vec![
        DiffOp::Delete { node_id: 10 },
        DiffOp::Update {
            node_id: 5,
            old_value: NodeValue::Float(1.0f64.to_bits()),
            new_value: NodeValue::Float(2.0f64.to_bits()),
        },
        DiffOp::Insert {
            parent_id: 0,
            index: 0,
            kind: AstNodeKind::CsgOp,
            label: String::from("union"),
            value: NodeValue::Nil,
        },
        DiffOp::Relabel {
            node_id: 3,
            old_label: String::from("a"),
            new_label: String::from("b"),
        },
        DiffOp::Move {
            node_id: 7,
            new_parent_id: 2,
            new_index: 1,
        },
    ];
    let encoded = encode_patch(&ops);
    let decoded = decode_patch(&encoded).unwrap();
    assert_eq!(decoded.len(), ops.len());
    for (orig, dec) in ops.iter().zip(decoded.iter()) {
        assert_eq!(orig, dec);
    }
}

#[test]
fn empty_patch_roundtrip() {
    let ops: Vec<DiffOp> = vec![];
    let encoded = encode_patch(&ops);
    let decoded = decode_patch(&encoded).unwrap();
    assert!(decoded.is_empty());
    assert_eq!(encoded.len(), 1); // just the count varint
}

#[test]
fn empty_patch_single_zero_byte() {
    let ops: Vec<DiffOp> = vec![];
    assert_eq!(encode_patch(&ops), vec![0x00]);
    assert_eq!(decode_patch(&[0x00]), Some(vec![]));
}

#[test]
fn value_none_roundtrip() {
    let mut buf = Vec::new();
    encode_value(&NodeValue::Nil, &mut buf);
    let mut pos = 0;
    assert_eq!(decode_value(&buf, &mut pos), Some(NodeValue::Nil));
    assert_eq!(buf.len(), 1);
}

#[test]
fn value_text_roundtrip() {
    let val = NodeValue::Text(String::from("hello world"));
    let mut buf = Vec::new();
    encode_value(&val, &mut buf);
    let mut pos = 0;
    assert_eq!(decode_value(&buf, &mut pos), Some(val));
}

#[test]
fn value_bytes_roundtrip() {
    let val = NodeValue::Bytes(vec![0xDE, 0xAD, 0xBE, 0xEF]);
    let mut buf = Vec::new();
    encode_value(&val, &mut buf);
    let mut pos = 0;
    assert_eq!(decode_value(&buf, &mut pos), Some(val));
}

#[test]
fn decode_truncated_returns_none() {
    // Truncated varint
    let buf = vec![0x80]; // continuation bit set but no follow-up
    let mut pos = 0;
    assert_eq!(decode_varint_u32(&buf, &mut pos), None);
}

#[test]
fn decode_empty_returns_none() {
    let buf: Vec<u8> = vec![];
    let mut pos = 0;
    assert_eq!(decode_op(&buf, &mut pos), None);
}

#[test]
fn decode_five_continuation_bytes_returns_none() {
    // varints longer than five bytes are rejected, after consuming
    // exactly the five examined bytes
    let buf = vec![0x80, 0x80, 0x80, 0x80, 0x80, 0x00];
    let mut pos = 0;
    assert_eq!(decode_varint_u32(&buf, &mut pos), None);
    assert_eq!(pos, 5);
}

#[test]
fn decode_isolated_continuation_byte_stops_at_end() {
    let buf = vec![0x80];
    let mut pos = 0;
    assert_eq!(decode_varint_u32(&buf, &mut pos), None);
    assert_eq!(pos, 1);
}

#[test]
fn patch_size_compact() {
    // A single value-change patch should be very compact
    let ops = vec![DiffOp::Update {
        node_id: 5,
        old_value: NodeValue::Float(1.0f64.to_bits()),
        new_value: NodeValue::Float(2.0f64.to_bits()),
    }];
    let size = encoded_patch_size(&ops);
    // 1 (count) + 1 (tag) + 1 (node_id varint) + 1+8 (old float) + 1+8 (new float) = 21
    assert!(size < 25, "update patch should be compact, got {size}");
}

#[test]
fn large_node_id_varint() {
    let op = DiffOp::Delete { node_id: 100_000 };
    let mut buf = Vec::new();
    encode_op(&op, &mut buf);
    let mut pos = 0;
    let decoded = decode_op(&buf, &mut pos).unwrap();
    assert_eq!(decoded, op);
}

#[test]
fn varint_roundtrip_boundary_16384() {
    // 16384 is the first value requiring 3 LEB128 bytes
    let mut buf = Vec::new();
    encode_varint_u32(16384, &mut buf);
    assert_eq!(buf.len(), 3);
    let mut pos = 0;
    assert_eq!(decode_varint_u32(&buf, &mut pos), Some(16384));
}

#[test]
fn decode_varint_out_of_bounds_is_none() {
    // Buffer is empty — decode must return None, not panic
    let buf: Vec<u8> = vec![];
    let mut pos = 0;
    assert_eq!(decode_varint_u32(&buf, &mut pos), None);
}

#[test]
fn value_ident_roundtrip() {
    let val = NodeValue::Ident(String::from("union"));
    let mut buf = Vec::new();
    encode_value(&val, &mut buf);
    let mut pos = 0;
    assert_eq!(decode_value(&buf, &mut pos), Some(val));
}

#[test]
fn value_int_roundtrip() {
    for v in [i64::MIN, -1, 0, 1, i64::MAX] {
        let val = NodeValue::Int(v);
        let mut buf = Vec::new();
        encode_value(&val, &mut buf);
        let mut pos = 0;
        assert_eq!(decode_value(&buf, &mut pos), Some(val));
    }
}

#[test]
fn value_float_roundtrip_special() {
    for v in [0.0f64, f64::INFINITY, f64::NEG_INFINITY, f64::NAN] {
        let val = NodeValue::Float(v.to_bits());
        let mut buf = Vec::new();
        encode_value(&val, &mut buf);
        let mut pos = 0;
        let decoded = decode_value(&buf, &mut pos).unwrap();
        match (&val, &decoded) {
            (NodeValue::Float(a), NodeValue::Float(b)) => {
                // NaN != NaN, compare bits instead
                assert_eq!(*a, *b);
            }
            _ => panic!("expected Float"),
        }
    }
}

#[test]
fn value_bytes_empty_roundtrip() {
    let val = NodeValue::Bytes(vec![]);
    let mut buf = Vec::new();
    encode_value(&val, &mut buf);
    let mut pos = 0;
    assert_eq!(decode_value(&buf, &mut pos), Some(val));
}

#[test]
fn decode_unknown_value_tag_returns_none() {
    let buf = vec![0xFF]; // unknown tag
    let mut pos = 0;
    assert_eq!(decode_value(&buf, &mut pos), None);
}

#[test]
fn decode_truncated_float_returns_none() {
    // Float tag followed by only 4 bytes instead of 8
    let buf = vec![0x02, 0x00, 0x00, 0x00, 0x00];
    let mut pos = 0;
    assert_eq!(decode_value(&buf, &mut pos), None);
}

#[test]
fn decode_unknown_op_tag_returns_none() {
    let buf = vec![0xFF]; // unknown op tag
    let mut pos = 0;
    assert_eq!(decode_op(&buf, &mut pos), None);
}

#[test]
fn patch_roundtrip_all_value_types() {
    let ops = vec![
        DiffOp::Update {
            node_id: 1,
            old_value: NodeValue::Nil,
            new_value: NodeValue::Int(42),
        },
        DiffOp::Update {
            node_id: 2,
            old_value: NodeValue::Float(1.0f64.to_bits()),
            new_value: NodeValue::Text(String::from("hello")),
        },
        DiffOp::Update {
            node_id: 3,
            old_value: NodeValue::Ident(String::from("sphere")),
            new_value: NodeValue::Bytes(vec![0xDE, 0xAD]),
        },
    ];
    let encoded = encode_patch(&ops);
    let decoded = decode_patch(&encoded).unwrap();
    assert_eq!(decoded.len(), 3);
    assert_eq!(decoded[0], ops[0]);
    assert_eq!(decoded[1], ops[1]);
    assert_eq!(decoded[2], ops[2]);
}

#[test]
fn encoded_patch_size_matches_actual() {
    let ops = vec![
        DiffOp::Delete { node_id: 1 },
        DiffOp::Move {
            node_id: 2,
            new_parent_id: 0,
            new_index: 1,
        },
    ];
    let actual = encode_patch(&ops).len();
    let reported = encoded_patch_size(&ops);
    assert_eq!(actual, reported);
}

#[test]
fn string_roundtrip_non_ascii() {
    let mut buf = Vec::new();
    encode_string("coupé ✓", &mut buf);
    let mut pos = 0;
    let decoded = decode_string(&buf, &mut pos).unwrap();
    assert_eq!(decoded, "coupé ✓");
    assert_eq!(pos, buf.len());
}

#[test]
fn decode_string_invalid_utf8_returns_none() {
    // length 2, then an invalid UTF-8 byte pair
    let buf = vec![0x02, 0xC0, 0x00];
    let mut pos = 0;
    assert_eq!(decode_string(&buf, &mut pos), None);
}
