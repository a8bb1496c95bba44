//! Varint patch codec: compact binary serialization for edit-scripts.
//!
//! Unsigned integers are LEB128 varints (7 data bits per byte, MSB set
//! on every byte but the last). Fixed-width payloads are little-endian;
//! floats travel as their binary64 bit patterns. Every decoder is
//! length-checked and returns an absent result on malformed input.
//!
//! The decoding functions carry completeness contracts: whenever the
//! input starts with a well-formed encoding, they return exactly the
//! encoded value and consume exactly its bytes. Composing them with the
//! encoding functions yields the round-trip law
//! `decode_patch(encode_patch(ops)) == Some(ops)`.

use vstd::prelude::*;

use crate::ast::{kind_byte, spec_kind_from_u8, AstNodeKind, NodeValue, ValueView};
use crate::diff::{ops_view, DiffOp, OpView};

verus! {

/// The LEB128 encoding of a 32-bit unsigned integer.
pub open spec fn varint(n: u32) -> Seq<u8>
    decreases n,
{
    if n < 128 {
        seq![n as u8]
    } else {
        seq![(n % 128 + 128) as u8] + varint(n / 128)
    }
}

/// `data` carries the byte pattern `pat` starting at `pos`.
pub open spec fn starts_with(data: Seq<u8>, pos: int, pat: Seq<u8>) -> bool {
    &&& 0 <= pos
    &&& pos + pat.len() <= data.len()
    &&& data.subrange(pos, pos + pat.len()) == pat
}

/// A pattern match gives back its bytes one by one.
proof fn lemma_starts_with_index(data: Seq<u8>, pos: int, pat: Seq<u8>, j: int)
    requires
        starts_with(data, pos, pat),
        0 <= j < pat.len(),
    ensures
        data[pos + j] == pat[j],
{
    assert(data.subrange(pos, pos + pat.len())[j] == pat[j]);
}

/// A varint encoding takes one to five bytes.
pub proof fn lemma_varint_len(n: u32)
    ensures
        1 <= varint(n).len() <= 5,
{
    let n1 = n / 128;
    let n2 = n1 / 128;
    let n3 = n2 / 128;
    let n4 = n3 / 128;
    assert(n4 < 16) by (nonlinear_arith)
        requires
            n1 == n / 128,
            n2 == n1 / 128,
            n3 == n2 / 128,
            n4 == n3 / 128,
            n <= u32::MAX,
    ;
    if n >= 128 {
        assert(varint(n) == seq![(n % 128 + 128) as u8] + varint(n1));
        if n1 < 128 {
            assert(varint(n1) == seq![n1 as u8]);
        } else {
            assert(varint(n1) == seq![(n1 % 128 + 128) as u8] + varint(n2));
            if n2 < 128 {
                assert(varint(n2) == seq![n2 as u8]);
            } else {
                assert(varint(n2) == seq![(n2 % 128 + 128) as u8] + varint(n3));
                if n3 < 128 {
                    assert(varint(n3) == seq![n3 as u8]);
                } else {
                    assert(varint(n3) == seq![(n3 % 128 + 128) as u8] + varint(n4));
                    assert(varint(n4) == seq![n4 as u8]);
                }
            }
        }
    }
}

/// Encode a u32 as a LEB128 varint, appending to `buf`.
pub fn encode_varint_u32(value: u32, buf: &mut Vec<u8>)
    ensures
        final(buf)@ == old(buf)@ + varint(value),
{
    let mut v = value;
    while v >= 128
        invariant
            old(buf)@ + varint(value) =~= buf@ + varint(v),
        decreases v,
    {
        let b = (v % 128 + 128) as u8;
        proof {
            assert(varint(v) == seq![b] + varint(v / 128));
            assert(buf@ + varint(v) =~= (buf@ + seq![b]) + varint(v / 128));
        }
        buf.push(b);
        v = v / 128;
    }
    proof {
        assert(varint(v) == seq![v as u8]);
        assert(buf@ + varint(v) =~= buf@.push(v as u8));
    }
    buf.push(v as u8);
}

/// Decode a u32 LEB128 varint.
///
/// The bytes are examined one at a time, at most five in all; the
/// position advances over exactly the bytes consumed, also on failure.
/// Success requires a terminating byte (high bit clear) within five
/// bytes: an isolated continuation byte, a run of five continuation
/// bytes, and an empty buffer all decode to nothing.
pub fn decode_varint_u32(data: &[u8], pos: &mut usize) -> (r: Option<u32>)
    requires
        *old(pos) <= data@.len(),
    ensures
        *old(pos) <= *final(pos) <= data@.len(),
        r is Some ==> *old(pos) < *final(pos) <= *old(pos) + 5 && data@[*final(pos) - 1] < 128
            && (forall|j: int| *old(pos) <= j < *final(pos) - 1 ==> data@[j] >= 128),
        r is None ==> *final(pos) == (if *old(pos) + 5 <= data@.len() {
            *old(pos) + 5int
        } else {
            data@.len() as int
        }) && (forall|j: int| *old(pos) <= j < *final(pos) ==> data@[j] >= 128),
        forall|n: u32|
            starts_with(data@, *old(pos) as int, varint(n)) ==> r == Some(n) && *final(pos)
                == *old(pos) + varint(n).len(),
{
    let ghost p0 = *pos as int;
    if *pos >= data.len() {
        proof {
            assert forall|n: u32| !starts_with(data@, p0, varint(n)) by {
                lemma_varint_len(n);
            }
        }
        return None;
    }
    let b0 = data[*pos];
    *pos += 1;
    if b0 < 128 {
        proof {
            assert forall|n: u32| starts_with(data@, p0, varint(n)) implies n == b0 as u32
                && varint(n).len() == 1 by {
                lemma_starts_with_index(data@, p0, varint(n), 0);
                if n >= 128 {
                    assert(varint(n)[0] == (n % 128 + 128) as u8);
                }
            }
        }
        return Some(b0 as u32);
    }
    if *pos >= data.len() {
        proof {
            lemma_no_varint_short(data@, p0, 1);
        }
        return None;
    }
    let b1 = data[*pos];
    *pos += 1;
    if b1 < 128 {
        let v = (b0 - 128) as u32 + (b1 as u32) * 128;
        proof {
            lemma_varint_two(data@, p0, b0, b1, v);
        }
        return Some(v);
    }
    if *pos >= data.len() {
        proof {
            lemma_no_varint_short(data@, p0, 2);
        }
        return None;
    }
    let b2 = data[*pos];
    *pos += 1;
    if b2 < 128 {
        let v = (b0 - 128) as u32 + ((b1 - 128) as u32) * 128 + (b2 as u32) * 16384;
        proof {
            lemma_varint_three(data@, p0, b0, b1, b2, v);
        }
        return Some(v);
    }
    if *pos >= data.len() {
        proof {
            lemma_no_varint_short(data@, p0, 3);
        }
        return None;
    }
    let b3 = data[*pos];
    *pos += 1;
    if b3 < 128 {
        let v = (b0 - 128) as u32 + ((b1 - 128) as u32) * 128 + ((b2 - 128) as u32) * 16384 + (
        b3 as u32) * 2097152;
        proof {
            lemma_varint_four(data@, p0, b0, b1, b2, b3, v);
        }
        return Some(v);
    }
    if *pos >= data.len() {
        proof {
            lemma_no_varint_short(data@, p0, 4);
        }
        return None;
    }
    let b4 = data[*pos];
    *pos += 1;
    if b4 < 128 {
        let high = ((b4 as u32) % 16) * 268435456;
        let v = (b0 - 128) as u32 + ((b1 - 128) as u32) * 128 + ((b2 - 128) as u32) * 16384 + ((b3
            - 128) as u32) * 2097152 + high;
        proof {
            lemma_varint_five(data@, p0, b0, b1, b2, b3, b4, v);
        }
        return Some(v);
    }
    proof {
        lemma_no_varint_cont5(data@, p0, b0, b1, b2, b3, b4);
    }
    None
}

/// No varint encoding has `count` leading continuation bytes and then
/// runs off the end of the buffer.
proof fn lemma_no_varint_short(data: Seq<u8>, p0: int, count: int)
    requires
        1 <= count <= 4,
        p0 + count == data.len(),
        forall|j: int| p0 <= j < p0 + count ==> data[j] >= 128,
    ensures
        forall|n: u32| !starts_with(data, p0, varint(n)),
{
    assert forall|n: u32| !starts_with(data, p0, varint(n)) by {
        if starts_with(data, p0, varint(n)) {
            lemma_varint_len(n);
            lemma_varint_continuations(data, p0, n);
        }
    }
}

/// If `data` carries `varint(n)` at `p0`, then the byte after the last
/// continuation byte is below 128, and the value is reconstructed from
/// the 7-bit groups.
proof fn lemma_varint_continuations(data: Seq<u8>, p0: int, n: u32)
    requires
        starts_with(data, p0, varint(n)),
    ensures
        1 <= varint(n).len() <= 5,
        forall|j: int| p0 <= j < p0 + varint(n).len() - 1 ==> data[j] >= 128,
        data[p0 + varint(n).len() - 1] < 128,
{
    lemma_varint_len(n);
    let l = varint(n).len() as int;
    assert forall|j: int| p0 <= j < p0 + l - 1 implies data[j] >= 128 by {
        lemma_starts_with_index(data, p0, varint(n), j - p0);
        lemma_varint_byte_shape(n, j - p0);
    }
    assert(data[p0 + l - 1] < 128) by {
        lemma_starts_with_index(data, p0, varint(n), l - 1);
        lemma_varint_byte_shape(n, l - 1);
    }
}

/// Shape of the bytes of a varint: all continuation bytes are >= 128,
/// the final byte is < 128.
proof fn lemma_varint_byte_shape(n: u32, j: int)
    requires
        0 <= j < varint(n).len(),
    ensures
        j < varint(n).len() - 1 ==> varint(n)[j] >= 128,
        j == varint(n).len() - 1 ==> varint(n)[j] < 128,
    decreases n,
{
    if n < 128 {
        assert(varint(n) == seq![n as u8]);
    } else {
        assert(varint(n) == seq![(n % 128 + 128) as u8] + varint(n / 128));
        lemma_varint_len(n / 128);
        if j == 0 {
            assert(varint(n)[0] == (n % 128 + 128) as u8);
        } else {
            lemma_varint_byte_shape(n / 128, j - 1);
            assert(varint(n)[j] == varint(n / 128)[j - 1]);
        }
    }
}

proof fn lemma_varint_two(data: Seq<u8>, p0: int, b0: u8, b1: u8, v: u32)
    requires
        0 <= p0,
        p0 + 2 <= data.len(),
        data[p0] == b0,
        data[p0 + 1] == b1,
        b0 >= 128,
        b1 < 128,
        v == (b0 - 128) as u32 + (b1 as u32) * 128,
    ensures
        forall|n: u32| starts_with(data, p0, varint(n)) ==> n == v && varint(n).len() == 2,
{
    assert forall|n: u32| starts_with(data, p0, varint(n)) implies n == v && varint(n).len()
        == 2 by {
        lemma_starts_with_index(data, p0, varint(n), 0);
        assert(n >= 128) by {
            if n < 128 {
                assert(varint(n)[0] == n as u8);
            }
        }
        assert(varint(n) == seq![(n % 128 + 128) as u8] + varint(n / 128));
        let n1 = n / 128;
        lemma_varint_len(n1);
        lemma_starts_with_index(data, p0, varint(n), 1);
        assert(varint(n)[1] == varint(n1)[0]);
        assert(n1 < 128) by {
            if n1 >= 128 {
                assert(varint(n1)[0] == (n1 % 128 + 128) as u8);
            }
        }
        assert(varint(n1) == seq![n1 as u8]);
        assert(n % 128 == (b0 - 128) as u32 && n / 128 == b1 as u32);
    }
}

proof fn lemma_varint_three(data: Seq<u8>, p0: int, b0: u8, b1: u8, b2: u8, v: u32)
    requires
        0 <= p0,
        p0 + 3 <= data.len(),
        data[p0] == b0,
        data[p0 + 1] == b1,
        data[p0 + 2] == b2,
        b0 >= 128,
        b1 >= 128,
        b2 < 128,
        v == (b0 - 128) as u32 + ((b1 - 128) as u32) * 128 + (b2 as u32) * 16384,
    ensures
        forall|n: u32| starts_with(data, p0, varint(n)) ==> n == v && varint(n).len() == 3,
{
    assert forall|n: u32| starts_with(data, p0, varint(n)) implies n == v && varint(n).len()
        == 3 by {
        lemma_varint_continuations(data, p0, n);
        assert(varint(n).len() == 3);
        lemma_starts_with_index(data, p0, varint(n), 0);
        lemma_starts_with_index(data, p0, varint(n), 1);
        lemma_starts_with_index(data, p0, varint(n), 2);
        assert(n >= 128) by {
            if n < 128 {
                assert(varint(n)[0] == n as u8);
            }
        }
        let n1 = n / 128;
        assert(varint(n) == seq![(n % 128 + 128) as u8] + varint(n1));
        assert(varint(n)[1] == varint(n1)[0]);
        assert(n1 >= 128) by {
            if n1 < 128 {
                assert(varint(n1) == seq![n1 as u8]);
            }
        }
        let n2 = n1 / 128;
        assert(varint(n1) == seq![(n1 % 128 + 128) as u8] + varint(n2));
        assert(varint(n)[2] == varint(n1)[1] == varint(n2)[0]);
        lemma_varint_len(n2);
        assert(n2 < 128) by {
            if n2 >= 128 {
                assert(varint(n2)[0] == (n2 % 128 + 128) as u8);
            }
        }
        assert(varint(n2) == seq![n2 as u8]);
        assert(n % 128 == (b0 - 128) as u32);
        assert(n1 % 128 == (b1 - 128) as u32);
        assert(n2 == b2 as u32);
        assert(n == n % 128 + (n1 % 128) * 128 + n2 * 16384) by (nonlinear_arith)
            requires
                n1 == n / 128,
                n2 == n1 / 128,
        ;
    }
}

proof fn lemma_varint_four(data: Seq<u8>, p0: int, b0: u8, b1: u8, b2: u8, b3: u8, v: u32)
    requires
        0 <= p0,
        p0 + 4 <= data.len(),
        data[p0] == b0,
        data[p0 + 1] == b1,
        data[p0 + 2] == b2,
        data[p0 + 3] == b3,
        b0 >= 128,
        b1 >= 128,
        b2 >= 128,
        b3 < 128,
        v == (b0 - 128) as u32 + ((b1 - 128) as u32) * 128 + ((b2 - 128) as u32) * 16384 + (
        b3 as u32) * 2097152,
    ensures
        forall|n: u32| starts_with(data, p0, varint(n)) ==> n == v && varint(n).len() == 4,
{
    assert forall|n: u32| starts_with(data, p0, varint(n)) implies n == v && varint(n).len()
        == 4 by {
        lemma_varint_continuations(data, p0, n);
        assert(varint(n).len() == 4);
        lemma_starts_with_index(data, p0, varint(n), 0);
        lemma_starts_with_index(data, p0, varint(n), 1);
        lemma_starts_with_index(data, p0, varint(n), 2);
        lemma_starts_with_index(data, p0, varint(n), 3);
        assert(n >= 128) by {
            if n < 128 {
                assert(varint(n)[0] == n as u8);
            }
        }
        let n1 = n / 128;
        assert(varint(n) == seq![(n % 128 + 128) as u8] + varint(n1));
        assert(varint(n)[1] == varint(n1)[0]);
        assert(n1 >= 128) by {
            if n1 < 128 {
                assert(varint(n1) == seq![n1 as u8]);
            }
        }
        let n2 = n1 / 128;
        assert(varint(n1) == seq![(n1 % 128 + 128) as u8] + varint(n2));
        assert(varint(n)[2] == varint(n1)[1] == varint(n2)[0]);
        assert(n2 >= 128) by {
            if n2 < 128 {
                assert(varint(n2) == seq![n2 as u8]);
            }
        }
        let n3 = n2 / 128;
        assert(varint(n2) == seq![(n2 % 128 + 128) as u8] + varint(n3));
        assert(varint(n)[3] == varint(n2)[1] == varint(n3)[0]);
        lemma_varint_len(n3);
        assert(n3 < 128) by {
            if n3 >= 128 {
                assert(varint(n3)[0] == (n3 % 128 + 128) as u8);
            }
        }
        assert(varint(n3) == seq![n3 as u8]);
        assert(n == n % 128 + (n1 % 128) * 128 + (n2 % 128) * 16384 + n3 * 2097152)
            by (nonlinear_arith)
            requires
                n1 == n / 128,
                n2 == n1 / 128,
                n3 == n2 / 128,
        ;
    }
}

proof fn lemma_varint_five(data: Seq<u8>, p0: int, b0: u8, b1: u8, b2: u8, b3: u8, b4: u8, v: u32)
    requires
        0 <= p0,
        p0 + 5 <= data.len(),
        data[p0] == b0,
        data[p0 + 1] == b1,
        data[p0 + 2] == b2,
        data[p0 + 3] == b3,
        data[p0 + 4] == b4,
        b0 >= 128,
        b1 >= 128,
        b2 >= 128,
        b3 >= 128,
        b4 < 128,
        v == (b0 - 128) as u32 + ((b1 - 128) as u32) * 128 + ((b2 - 128) as u32) * 16384 + ((b3
            - 128) as u32) * 2097152 + ((b4 as u32) % 16) * 268435456,
    ensures
        forall|n: u32| starts_with(data, p0, varint(n)) ==> n == v && varint(n).len() == 5,
{
    assert forall|n: u32| starts_with(data, p0, varint(n)) implies n == v && varint(n).len()
        == 5 by {
        lemma_varint_continuations(data, p0, n);
        assert(varint(n).len() == 5);
        lemma_starts_with_index(data, p0, varint(n), 0);
        lemma_starts_with_index(data, p0, varint(n), 1);
        lemma_starts_with_index(data, p0, varint(n), 2);
        lemma_starts_with_index(data, p0, varint(n), 3);
        lemma_starts_with_index(data, p0, varint(n), 4);
        assert(n >= 128) by {
            if n < 128 {
                assert(varint(n)[0] == n as u8);
            }
        }
        let n1 = n / 128;
        assert(varint(n) == seq![(n % 128 + 128) as u8] + varint(n1));
        assert(varint(n)[1] == varint(n1)[0]);
        assert(n1 >= 128) by {
            if n1 < 128 {
                assert(varint(n1) == seq![n1 as u8]);
            }
        }
        let n2 = n1 / 128;
        assert(varint(n1) == seq![(n1 % 128 + 128) as u8] + varint(n2));
        assert(varint(n)[2] == varint(n1)[1] == varint(n2)[0]);
        assert(n2 >= 128) by {
            if n2 < 128 {
                assert(varint(n2) == seq![n2 as u8]);
            }
        }
        let n3 = n2 / 128;
        assert(varint(n2) == seq![(n2 % 128 + 128) as u8] + varint(n3));
        assert(varint(n)[3] == varint(n2)[1] == varint(n3)[0]);
        assert(n3 >= 128) by {
            if n3 < 128 {
                assert(varint(n3) == seq![n3 as u8]);
            }
        }
        let n4 = n3 / 128;
        assert(varint(n3) == seq![(n3 % 128 + 128) as u8] + varint(n4));
        assert(varint(n)[4] == varint(n3)[1] == varint(n4)[0]);
        lemma_varint_len(n4);
        assert(n4 < 128) by {
            if n4 >= 128 {
                assert(varint(n4)[0] == (n4 % 128 + 128) as u8);
            }
        }
        assert(varint(n4) == seq![n4 as u8]);
        assert(n4 < 16) by (nonlinear_arith)
            requires
                n1 == n / 128,
                n2 == n1 / 128,
                n3 == n2 / 128,
                n4 == n3 / 128,
                n <= u32::MAX,
        ;
        assert(n == n % 128 + (n1 % 128) * 128 + (n2 % 128) * 16384 + (n3 % 128) * 2097152 + n4
            * 268435456) by (nonlinear_arith)
            requires
                n1 == n / 128,
                n2 == n1 / 128,
                n3 == n2 / 128,
                n4 == n3 / 128,
        ;
        assert((b4 as u32) % 16 == n4);
    }
}

/// Five leading continuation bytes match no varint encoding.
proof fn lemma_no_varint_cont5(data: Seq<u8>, p0: int, b0: u8, b1: u8, b2: u8, b3: u8, b4: u8)
    requires
        0 <= p0,
        p0 + 5 <= data.len(),
        data[p0] == b0,
        data[p0 + 1] == b1,
        data[p0 + 2] == b2,
        data[p0 + 3] == b3,
        data[p0 + 4] == b4,
        b0 >= 128,
        b1 >= 128,
        b2 >= 128,
        b3 >= 128,
        b4 >= 128,
    ensures
        forall|n: u32| !starts_with(data, p0, varint(n)),
{
    assert forall|n: u32| !starts_with(data, p0, varint(n)) by {
        if starts_with(data, p0, varint(n)) {
            lemma_varint_continuations(data, p0, n);
            let l = varint(n).len() as int;
            assert(data[p0 + l - 1] >= 128);
        }
    }
}

// ── Wire forms ────────────────────────────────────────────────────────

/// A length truncated to its 32-bit wire form.
pub open spec fn len32(n: int) -> u32 {
    (n % 0x100000000) as u32
}

/// The wire form of a string: varint byte length, then UTF-8 bytes.
pub open spec fn enc_str(s: Seq<char>) -> Seq<u8> {
    varint(len32(vstd::utf8::encode_utf8(s).len() as int)) + vstd::utf8::encode_utf8(s)
}

/// A string whose wire length field does not truncate.
pub open spec fn str_wf(s: Seq<char>) -> bool {
    vstd::utf8::encode_utf8(s).len() < 0x100000000
}

/// The wire form of a node value.
pub open spec fn val_enc(v: ValueView) -> Seq<u8> {
    match v {
        ValueView::Nil => seq![0u8],
        ValueView::Int(x) => seq![1u8] + vstd::bytes::spec_u64_to_le_bytes(i64_bits(x)),
        ValueView::Float(b) => seq![2u8] + vstd::bytes::spec_u64_to_le_bytes(b),
        ValueView::Text(s) => seq![3u8] + enc_str(s),
        ValueView::Ident(s) => seq![4u8] + enc_str(s),
        ValueView::Bytes(b) => seq![5u8] + varint(len32(b.len() as int)) + b,
    }
}

/// A value whose wire length fields do not truncate.
pub open spec fn val_wf(v: ValueView) -> bool {
    match v {
        ValueView::Text(s) => str_wf(s),
        ValueView::Ident(s) => str_wf(s),
        ValueView::Bytes(b) => b.len() < 0x100000000,
        _ => true,
    }
}

/// A byte pattern built from two parts matches exactly when each part
/// matches in place.
proof fn lemma_starts_with_split(data: Seq<u8>, pos: int, a: Seq<u8>, b: Seq<u8>)
    requires
        starts_with(data, pos, a + b),
    ensures
        starts_with(data, pos, a),
        starts_with(data, pos + a.len(), b),
{
    assert(data.subrange(pos, pos + a.len()) =~= a) by {
        assert forall|j: int| 0 <= j < a.len() implies data.subrange(pos, pos + a.len())[j]
            == a[j] by {
            lemma_starts_with_index(data, pos, a + b, j);
            assert((a + b)[j] == a[j]);
        }
    }
    assert(data.subrange(pos + a.len(), pos + a.len() + b.len()) =~= b) by {
        assert forall|j: int|
            0 <= j < b.len() implies data.subrange(pos + a.len(), pos + a.len() + b.len())[j]
            == b[j] by {
            lemma_starts_with_index(data, pos, a + b, a.len() + j);
            assert((a + b)[a.len() + j] == b[j]);
        }
    }
}

// ── Byte-level helpers ────────────────────────────────────────────────

/// Copy `len` bytes of `data` starting at `start` into a fresh vector.
fn copy_range(data: &[u8], start: usize, len: usize) -> (r: Vec<u8>)
    requires
        start + len <= data@.len(),
    ensures
        r@ == data@.subrange(start as int, start as int + len as int),
{
    let mut out: Vec<u8> = Vec::new();
    let dn = data.len();
    let mut i: usize = 0;
    while i < len
        invariant
            i <= len,
            dn == data@.len(),
            start + len <= dn,
            out@ =~= data@.subrange(start as int, start as int + i as int),
        decreases len - i,
    {
        out.push(data[start + i]);
        proof {
            assert(out@ =~= data@.subrange(start as int, start as int + i as int + 1));
        }
        i += 1;
    }
    out
}

/// Relies on `String::from_utf8`: it succeeds exactly on valid UTF-8
/// input and wraps the given bytes unchanged.
#[verifier::external_body]
fn bytes_to_string(bytes: Vec<u8>) -> (r: Option<String>)
    ensures
        r is Some <==> vstd::utf8::valid_utf8(bytes@),
        r matches Some(s) ==> vstd::utf8::encode_utf8(s@) == bytes@,
{
    String::from_utf8(bytes).ok()
}

/// A string recovered from the UTF-8 encoding of `s` views back to `s`.
proof fn lemma_utf8_roundtrip(s: Seq<char>, t: Seq<char>)
    requires
        vstd::utf8::encode_utf8(t) == vstd::utf8::encode_utf8(s),
    ensures
        t == s,
{
    vstd::utf8::encode_utf8_decode_utf8(s);
    vstd::utf8::encode_utf8_decode_utf8(t);
}

// ── String codec ──────────────────────────────────────────────────────

/// Encode a length-prefixed string, appending to `buf`.
pub fn encode_string(s: &str, buf: &mut Vec<u8>)
    ensures
        final(buf)@ == old(buf)@ + enc_str(s@),
{
    let bytes = s.as_bytes();
    proof {
        assert(bytes@ == vstd::utf8::encode_utf8(s@));
    }
    let n = bytes.len();
    let len_field: u32 = ((n as u64) % 0x100000000) as u32;
    proof {
        assert(len_field == len32(n as int));
    }
    encode_varint_u32(len_field, buf);
    buf.extend_from_slice(bytes);
    proof {
        assert(buf@ =~= old(buf)@ + enc_str(s@));
    }
}

/// Decode a length-prefixed string.
pub fn decode_string(data: &[u8], pos: &mut usize) -> (r: Option<String>)
    requires
        *old(pos) <= data@.len(),
    ensures
        *old(pos) <= *final(pos) <= data@.len(),
        forall|s: Seq<char>|
            str_wf(s) && starts_with(data@, *old(pos) as int, enc_str(s)) ==> r is Some && (
            r matches Some(t) ==> t@ == s) && *final(pos) == *old(pos) + enc_str(s).len(),
{
    let ghost p0 = *pos as int;
    let len_u32 = match decode_varint_u32(data, pos) {
        Some(v) => v,
        None => {
            proof {
                assert forall|s: Seq<char>|
                    str_wf(s) && starts_with(data@, p0, enc_str(s)) implies false by {
                    let bytes = vstd::utf8::encode_utf8(s);
                    lemma_starts_with_split(data@, p0, varint(len32(bytes.len() as int)), bytes);
                }
            }
            return None;
        },
    };
    let ghost p1 = *pos as int;
    let len = len_u32 as usize;
    if len > data.len() - *pos {
        proof {
            assert forall|s: Seq<char>|
                str_wf(s) && starts_with(data@, p0, enc_str(s)) implies false by {
                let bytes = vstd::utf8::encode_utf8(s);
                lemma_starts_with_split(data@, p0, varint(len32(bytes.len() as int)), bytes);
                lemma_varint_len(len32(bytes.len() as int));
            }
        }
        return None;
    }
    let raw = copy_range(data, *pos, len);
    let ghost consumed = len;
    match bytes_to_string(raw) {
        Some(text) => {
            *pos += len;
            proof {
                assert forall|s: Seq<char>|
                    str_wf(s) && starts_with(data@, p0, enc_str(s)) implies text@ == s && p1
                    + consumed == p0 + enc_str(s).len() by {
                    let bytes = vstd::utf8::encode_utf8(s);
                    lemma_starts_with_split(data@, p0, varint(len32(bytes.len() as int)), bytes);
                    assert(len_u32 == len32(bytes.len() as int));
                    assert(p1 == p0 + varint(len32(bytes.len() as int)).len());
                    assert(consumed == bytes.len());
                    assert(raw@ =~= bytes);
                    assert(vstd::utf8::encode_utf8(text@) == bytes);
                    lemma_utf8_roundtrip(s, text@);
                }
            }
            Some(text)
        },
        None => {
            proof {
                assert forall|s: Seq<char>|
                    str_wf(s) && starts_with(data@, p0, enc_str(s)) implies false by {
                    let bytes = vstd::utf8::encode_utf8(s);
                    lemma_starts_with_split(data@, p0, varint(len32(bytes.len() as int)), bytes);
                    assert(raw@ =~= bytes);
                    vstd::utf8::encode_utf8_valid_utf8(s);
                }
            }
            None
        },
    }
}

// ── Value codec ───────────────────────────────────────────────────────

/// The two's-complement 64-bit pattern of a signed integer.
pub open spec fn i64_bits(x: i64) -> u64 {
    if x >= 0 {
        x as u64
    } else {
        (x + 0x10000000000000000) as u64
    }
}

/// The signed integer a 64-bit pattern stands for.
pub open spec fn spec_bits_to_i64(u: u64) -> i64 {
    if u < 0x8000000000000000 {
        u as i64
    } else {
        (u - 0x10000000000000000) as i64
    }
}

/// The two bit conversions invert each other.
pub proof fn lemma_i64_bits_roundtrip(x: i64)
    ensures
        spec_bits_to_i64(i64_bits(x)) == x,
{
}

/// The two's-complement 64-bit pattern of a signed integer.
fn i64_to_bits(x: i64) -> (r: u64)
    ensures
        r == i64_bits(x),
{
    if x >= 0 {
        x as u64
    } else {
        ((x as i128) + 0x10000000000000000) as u64
    }
}

/// The signed integer a 64-bit pattern stands for.
fn bits_to_i64(u: u64) -> (r: i64)
    ensures
        r == spec_bits_to_i64(u),
{
    if u < 0x8000000000000000 {
        u as i64
    } else {
        ((u as i128) - 0x10000000000000000) as i64
    }
}

/// The wire tag of a value variant.
pub open spec fn val_tag(v: ValueView) -> u8 {
    match v {
        ValueView::Nil => 0,
        ValueView::Int(_) => 1,
        ValueView::Float(_) => 2,
        ValueView::Text(_) => 3,
        ValueView::Ident(_) => 4,
        ValueView::Bytes(_) => 5,
    }
}

/// A value's wire form starts with its tag byte.
proof fn lemma_val_enc_first(v: ValueView)
    ensures
        val_enc(v).len() >= 1,
        val_enc(v)[0] == val_tag(v),
{
}

/// Encode a node value, appending to `buf`.
pub fn encode_value(value: &NodeValue, buf: &mut Vec<u8>)
    ensures
        final(buf)@ == old(buf)@ + val_enc(value@),
{
    match value {
        NodeValue::Nil => {
            buf.push(0);
            proof {
                assert(buf@ =~= old(buf)@ + val_enc(value@));
            }
        },
        NodeValue::Int(x) => {
            buf.push(1);
            let mut payload = vstd::bytes::u64_to_le_bytes(i64_to_bits(*x));
            buf.append(&mut payload);
            proof {
                assert(buf@ =~= old(buf)@ + val_enc(value@));
            }
        },
        NodeValue::Float(b) => {
            buf.push(2);
            let mut payload = vstd::bytes::u64_to_le_bytes(*b);
            buf.append(&mut payload);
            proof {
                assert(buf@ =~= old(buf)@ + val_enc(value@));
            }
        },
        NodeValue::Text(s) => {
            buf.push(3);
            encode_string(s.as_str(), buf);
            proof {
                assert(val_enc(value@) == seq![3u8] + enc_str(s@));
                assert(buf@ =~= old(buf)@ + val_enc(value@));
            }
        },
        NodeValue::Ident(s) => {
            buf.push(4);
            encode_string(s.as_str(), buf);
            proof {
                assert(val_enc(value@) == seq![4u8] + enc_str(s@));
                assert(buf@ =~= old(buf)@ + val_enc(value@));
            }
        },
        NodeValue::Bytes(b) => {
            buf.push(5);
            let n = b.len();
            let len_field: u32 = ((n as u64) % 0x100000000) as u32;
            proof {
                assert(len_field == len32(n as int));
            }
            encode_varint_u32(len_field, buf);
            buf.extend_from_slice(b.as_slice());
            proof {
                assert(buf@ =~= old(buf)@ + val_enc(value@));
            }
        },
    }
}

/// Decode a node value.
#[verifier::rlimit(100)]
pub fn decode_value(data: &[u8], pos: &mut usize) -> (r: Option<NodeValue>)
    requires
        *old(pos) <= data@.len(),
    ensures
        *old(pos) <= *final(pos) <= data@.len(),
        r is Some ==> *old(pos) < data@.len() && data@[*old(pos) as int] <= 5,
        r is Some && (data@[*old(pos) as int] == 1 || data@[*old(pos) as int] == 2)
            ==> *final(pos) == *old(pos) + 9,
        forall|v: ValueView|
            val_wf(v) && starts_with(data@, *old(pos) as int, val_enc(v)) ==> r is Some && (
            r matches Some(x) ==> x@ == v) && *final(pos) == *old(pos) + val_enc(v).len(),
{
    let ghost p0 = *pos as int;
    if *pos >= data.len() {
        proof {
            assert forall|v: ValueView| !starts_with(data@, p0, val_enc(v)) by {
                lemma_val_enc_first(v);
            }
        }
        return None;
    }
    let tag = data[*pos];
    *pos += 1;
    proof {
        assert forall|v: ValueView|
            starts_with(data@, p0, val_enc(v)) implies val_tag(v) == tag by {
            lemma_val_enc_first(v);
            lemma_starts_with_index(data@, p0, val_enc(v), 0);
        }
    }
    match tag {
        0 => {
            proof {
                assert forall|v: ValueView|
                    val_wf(v) && starts_with(data@, p0, val_enc(v)) implies v is Nil && val_enc(
                    v,
                ).len() == 1 by {
                    lemma_val_enc_first(v);
                }
            }
            Some(NodeValue::Nil)
        },
        1 => {
            if data.len() - *pos < 8 {
                proof {
                    vstd::bytes::lemma_auto_spec_u64_to_from_le_bytes();
                    assert forall|v: ValueView|
                        !(val_wf(v) && starts_with(data@, p0, val_enc(v))) by {
                        if starts_with(data@, p0, val_enc(v)) && val_tag(v) == 1 {
                            lemma_val_enc_first(v);
                            assert(val_enc(v).len() == 9);
                        }
                    }
                }
                return None;
            }
            let raw = copy_range(data, *pos, 8);
            let bits = vstd::bytes::u64_from_le_bytes(raw.as_slice());
            let x = bits_to_i64(bits);
            *pos += 8;
            proof {
                vstd::bytes::lemma_auto_spec_u64_to_from_le_bytes();
                assert forall|v: ValueView|
                    val_wf(v) && starts_with(data@, p0, val_enc(v)) implies v == ValueView::Int(x)
                    && val_enc(v).len() == 9 by {
                    lemma_val_enc_first(v);
                    lemma_starts_with_index(data@, p0, val_enc(v), 0);
                    if let ValueView::Int(y) = v {
                        let payload = vstd::bytes::spec_u64_to_le_bytes(i64_bits(y));
                        assert(val_enc(v) == seq![1u8] + payload);
                        lemma_starts_with_split(data@, p0, seq![1u8], payload);
                        assert(raw@ =~= payload);
                        assert(bits == i64_bits(y));
                        lemma_i64_bits_roundtrip(y);
                    }
                }
            }
            Some(NodeValue::Int(x))
        },
        2 => {
            if data.len() - *pos < 8 {
                proof {
                    vstd::bytes::lemma_auto_spec_u64_to_from_le_bytes();
                    assert forall|v: ValueView|
                        !(val_wf(v) && starts_with(data@, p0, val_enc(v))) by {
                        if starts_with(data@, p0, val_enc(v)) && val_tag(v) == 2 {
                            lemma_val_enc_first(v);
                            assert(val_enc(v).len() == 9);
                        }
                    }
                }
                return None;
            }
            let raw = copy_range(data, *pos, 8);
            let bits = vstd::bytes::u64_from_le_bytes(raw.as_slice());
            *pos += 8;
            proof {
                vstd::bytes::lemma_auto_spec_u64_to_from_le_bytes();
                assert forall|v: ValueView|
                    val_wf(v) && starts_with(data@, p0, val_enc(v)) implies v == ValueView::Float(
                    bits,
                ) && val_enc(v).len() == 9 by {
                    lemma_val_enc_first(v);
                    lemma_starts_with_index(data@, p0, val_enc(v), 0);
                    if let ValueView::Float(y) = v {
                        let payload = vstd::bytes::spec_u64_to_le_bytes(y);
                        assert(val_enc(v) == seq![2u8] + payload);
                        lemma_starts_with_split(data@, p0, seq![2u8], payload);
                        assert(raw@ =~= payload);
                    }
                }
            }
            Some(NodeValue::Float(bits))
        },
        3 => {
            match decode_string(data, pos) {
                Some(text) => {
                    proof {
                        assert forall|v: ValueView|
                            val_wf(v) && starts_with(data@, p0, val_enc(v)) implies v
                            == ValueView::Text(text@) && *pos == p0 + val_enc(v).len() by {
                            lemma_val_enc_first(v);
                            lemma_starts_with_index(data@, p0, val_enc(v), 0);
                            if let ValueView::Text(sv) = v {
                                assert(val_enc(v) == seq![3u8] + enc_str(sv));
                                lemma_starts_with_split(data@, p0, seq![3u8], enc_str(sv));
                            }
                        }
                    }
                    Some(NodeValue::Text(text))
                },
                None => {
                    proof {
                        assert forall|v: ValueView|
                            !(val_wf(v) && starts_with(data@, p0, val_enc(v))) by {
                            if val_wf(v) && starts_with(data@, p0, val_enc(v)) && val_tag(v)
                                == 3 {
                                lemma_val_enc_first(v);
                                lemma_starts_with_index(data@, p0, val_enc(v), 0);
                                if let ValueView::Text(sv) = v {
                                    assert(val_enc(v) == seq![3u8] + enc_str(sv));
                                    lemma_starts_with_split(data@, p0, seq![3u8], enc_str(sv));
                                }
                            }
                        }
                    }
                    None
                },
            }
        },
        4 => {
            match decode_string(data, pos) {
                Some(text) => {
                    proof {
                        assert forall|v: ValueView|
                            val_wf(v) && starts_with(data@, p0, val_enc(v)) implies v
                            == ValueView::Ident(text@) && *pos == p0 + val_enc(v).len() by {
                            lemma_val_enc_first(v);
                            lemma_starts_with_index(data@, p0, val_enc(v), 0);
                            if let ValueView::Ident(sv) = v {
                                assert(val_enc(v) == seq![4u8] + enc_str(sv));
                                lemma_starts_with_split(data@, p0, seq![4u8], enc_str(sv));
                            }
                        }
                    }
                    Some(NodeValue::Ident(text))
                },
                None => {
                    proof {
                        assert forall|v: ValueView|
                            !(val_wf(v) && starts_with(data@, p0, val_enc(v))) by {
                            if val_wf(v) && starts_with(data@, p0, val_enc(v)) && val_tag(v)
                                == 4 {
                                lemma_val_enc_first(v);
                                lemma_starts_with_index(data@, p0, val_enc(v), 0);
                                if let ValueView::Ident(sv) = v {
                                    assert(val_enc(v) == seq![4u8] + enc_str(sv));
                                    lemma_starts_with_split(data@, p0, seq![4u8], enc_str(sv));
                                }
                            }
                        }
                    }
                    None
                },
            }
        },
        5 => {
            let len_u32 = match decode_varint_u32(data, pos) {
                Some(w) => w,
                None => {
                    proof {
                        assert forall|v: ValueView|
                            !(val_wf(v) && starts_with(data@, p0, val_enc(v))) by {
                            if val_wf(v) && starts_with(data@, p0, val_enc(v)) && val_tag(v)
                                == 5 {
                                lemma_val_enc_first(v);
                                lemma_starts_with_index(data@, p0, val_enc(v), 0);
                                if let ValueView::Bytes(bv) = v {
                                    assert(val_enc(v) == seq![5u8] + (varint(len32(
                                        bv.len() as int,
                                    )) + bv));
                                    lemma_starts_with_split(
                                        data@,
                                        p0,
                                        seq![5u8],
                                        varint(len32(bv.len() as int)) + bv,
                                    );
                                    lemma_starts_with_split(
                                        data@,
                                        p0 + 1,
                                        varint(len32(bv.len() as int)),
                                        bv,
                                    );
                                }
                            }
                        }
                    }
                    return None;
                },
            };
            let len = len_u32 as usize;
            if len > data.len() - *pos {
                proof {
                    assert forall|v: ValueView|
                        !(val_wf(v) && starts_with(data@, p0, val_enc(v))) by {
                        if val_wf(v) && starts_with(data@, p0, val_enc(v)) && val_tag(v) == 5 {
                            lemma_val_enc_first(v);
                            lemma_starts_with_index(data@, p0, val_enc(v), 0);
                            if let ValueView::Bytes(bv) = v {
                                assert(val_enc(v) == seq![5u8] + (varint(len32(bv.len() as int))
                                    + bv));
                                lemma_starts_with_split(
                                    data@,
                                    p0,
                                    seq![5u8],
                                    varint(len32(bv.len() as int)) + bv,
                                );
                                lemma_starts_with_split(
                                    data@,
                                    p0 + 1,
                                    varint(len32(bv.len() as int)),
                                    bv,
                                );
                            }
                        }
                    }
                }
                return None;
            }
            let raw = copy_range(data, *pos, len);
            *pos += len;
            proof {
                assert forall|v: ValueView|
                    val_wf(v) && starts_with(data@, p0, val_enc(v)) implies v == ValueView::Bytes(
                    raw@,
                ) && *pos == p0 + val_enc(v).len() by {
                    lemma_val_enc_first(v);
                    lemma_starts_with_index(data@, p0, val_enc(v), 0);
                    if let ValueView::Bytes(bv) = v {
                        assert(val_enc(v) == seq![5u8] + (varint(len32(bv.len() as int)) + bv));
                        lemma_starts_with_split(
                            data@,
                            p0,
                            seq![5u8],
                            varint(len32(bv.len() as int)) + bv,
                        );
                        lemma_starts_with_split(data@, p0 + 1, varint(len32(bv.len() as int)), bv);
                        assert(len_u32 == len32(bv.len() as int));
                        assert(len == bv.len());
                        assert(raw@ =~= bv);
                    }
                }
            }
            Some(NodeValue::Bytes(raw))
        },
        _ => {
            proof {
                assert forall|v: ValueView| !starts_with(data@, p0, val_enc(v)) by {
                    lemma_val_enc_first(v);
                }
            }
            None
        },
    }
}

// ── Operation codec ───────────────────────────────────────────────────

/// The wire tag of an operation variant.
pub open spec fn op_tag(o: OpView) -> u8 {
    match o {
        OpView::Insert { .. } => 0,
        OpView::Delete { .. } => 1,
        OpView::Update { .. } => 2,
        OpView::Relabel { .. } => 3,
        OpView::Move { .. } => 4,
    }
}

/// The wire form of an operation's payload (everything after the tag).
pub open spec fn op_payload(o: OpView) -> Seq<u8> {
    match o {
        OpView::Insert { parent_id, index, kind, label, value } => varint(parent_id) + varint(
            index,
        ) + seq![kind_byte(kind)] + enc_str(label) + val_enc(value),
        OpView::Delete { node_id } => varint(node_id),
        OpView::Update { node_id, old_value, new_value } => varint(node_id) + val_enc(old_value)
            + val_enc(new_value),
        OpView::Relabel { node_id, old_label, new_label } => varint(node_id) + enc_str(old_label)
            + enc_str(new_label),
        OpView::Move { node_id, new_parent_id, new_index } => varint(node_id) + varint(
            new_parent_id,
        ) + varint(new_index),
    }
}

/// The wire form of an operation.
pub open spec fn op_enc(o: OpView) -> Seq<u8> {
    seq![op_tag(o)] + op_payload(o)
}

/// An operation whose wire length fields do not truncate.
pub open spec fn op_wf(o: OpView) -> bool {
    match o {
        OpView::Insert { label, value, .. } => str_wf(label) && val_wf(value),
        OpView::Delete { .. } => true,
        OpView::Update { old_value, new_value, .. } => val_wf(old_value) && val_wf(new_value),
        OpView::Relabel { old_label, new_label, .. } => str_wf(old_label) && str_wf(new_label),
        OpView::Move { .. } => true,
    }
}

proof fn lemma_op_enc_first(o: OpView)
    ensures
        op_enc(o).len() >= 1,
        op_enc(o)[0] == op_tag(o),
        starts_with(op_enc(o), 1, op_payload(o)),
{
    assert(op_enc(o).subrange(1, 1 + op_payload(o).len() as int) =~= op_payload(o));
}

/// Encode a single operation, appending to `buf`.
pub fn encode_op(op: &DiffOp, buf: &mut Vec<u8>)
    ensures
        final(buf)@ == old(buf)@ + op_enc(op@),
{
    match op {
        DiffOp::Insert { parent_id, index, kind, label, value } => {
            buf.push(0);
            encode_varint_u32(*parent_id, buf);
            encode_varint_u32(*index, buf);
            buf.push(kind.to_u8());
            encode_string(label.as_str(), buf);
            encode_value(value, buf);
            proof {
                assert(buf@ =~= old(buf)@ + op_enc(op@));
            }
        },
        DiffOp::Delete { node_id } => {
            buf.push(1);
            encode_varint_u32(*node_id, buf);
            proof {
                assert(buf@ =~= old(buf)@ + op_enc(op@));
            }
        },
        DiffOp::Update { node_id, old_value, new_value } => {
            buf.push(2);
            encode_varint_u32(*node_id, buf);
            encode_value(old_value, buf);
            encode_value(new_value, buf);
            proof {
                assert(buf@ =~= old(buf)@ + op_enc(op@));
            }
        },
        DiffOp::Relabel { node_id, old_label, new_label } => {
            buf.push(3);
            encode_varint_u32(*node_id, buf);
            encode_string(old_label.as_str(), buf);
            encode_string(new_label.as_str(), buf);
            proof {
                assert(buf@ =~= old(buf)@ + op_enc(op@));
            }
        },
        DiffOp::Move { node_id, new_parent_id, new_index } => {
            buf.push(4);
            encode_varint_u32(*node_id, buf);
            encode_varint_u32(*new_parent_id, buf);
            encode_varint_u32(*new_index, buf);
            proof {
                assert(buf@ =~= old(buf)@ + op_enc(op@));
            }
        },
    }
}

/// Decode a single operation.
#[verifier::rlimit(100)]
pub fn decode_op(data: &[u8], pos: &mut usize) -> (r: Option<DiffOp>)
    requires
        *old(pos) <= data@.len(),
    ensures
        *old(pos) <= *final(pos) <= data@.len(),
        r is Some ==> *old(pos) < data@.len() && data@[*old(pos) as int] <= 4,
        forall|o: OpView|
            op_wf(o) && starts_with(data@, *old(pos) as int, op_enc(o)) ==> r is Some && (
            r matches Some(x) ==> x@ == o) && *final(pos) == *old(pos) + op_enc(o).len(),
{
    let ghost p0 = *pos as int;
    if *pos >= data.len() {
        proof {
            assert forall|o: OpView| !starts_with(data@, p0, op_enc(o)) by {
                lemma_op_enc_first(o);
            }
        }
        return None;
    }
    let tag = data[*pos];
    *pos += 1;
    let ghost p1 = *pos as int;
    proof {
        assert forall|o: OpView| starts_with(data@, p0, op_enc(o)) implies op_tag(o) == tag
            && starts_with(data@, p1, op_payload(o)) by {
            lemma_op_enc_first(o);
            lemma_starts_with_index(data@, p0, op_enc(o), 0);
            lemma_starts_with_split(data@, p0, seq![op_tag(o)], op_payload(o));
        }
    }
    match tag {
        0 => {
            let parent_id = match decode_varint_u32(data, pos) {
                Some(v) => v,
                None => {
                    proof {
                        assert forall|o: OpView|
                            !(op_wf(o) && starts_with(data@, p0, op_enc(o))) by {
                            if op_wf(o) && starts_with(data@, p0, op_enc(o)) {
                                if let OpView::Insert {
                                    parent_id: pid,
                                    index: ix,
                                    kind: kd,
                                    label: lb,
                                    value: vl,
                                } = o {
                                    lemma_insert_layout(data@, p0, p1, pid, ix, kd, lb, vl);
                                }
                            }
                        }
                    }
                    return None;
                },
            };
            let ghost p2 = *pos as int;
            let index = match decode_varint_u32(data, pos) {
                Some(v) => v,
                None => {
                    proof {
                        assert forall|o: OpView|
                            !(op_wf(o) && starts_with(data@, p0, op_enc(o))) by {
                            if op_wf(o) && starts_with(data@, p0, op_enc(o)) {
                                if let OpView::Insert {
                                    parent_id: pid,
                                    index: ix,
                                    kind: kd,
                                    label: lb,
                                    value: vl,
                                } = o {
                                    lemma_insert_layout(data@, p0, p1, pid, ix, kd, lb, vl);
                                }
                            }
                        }
                    }
                    return None;
                },
            };
            let ghost p3 = *pos as int;
            if *pos >= data.len() {
                proof {
                    assert forall|o: OpView| !(op_wf(o) && starts_with(data@, p0, op_enc(o))) by {
                        if op_wf(o) && starts_with(data@, p0, op_enc(o)) {
                            if let OpView::Insert {
                                parent_id: pid,
                                index: ix,
                                kind: kd,
                                label: lb,
                                value: vl,
                            } = o {
                                lemma_insert_layout(data@, p0, p1, pid, ix, kd, lb, vl);
                            }
                        }
                    }
                }
                return None;
            }
            let kind = AstNodeKind::from_u8(data[*pos]);
            *pos += 1;
            let ghost p4 = *pos as int;
            let label = match decode_string(data, pos) {
                Some(v) => v,
                None => {
                    proof {
                        assert forall|o: OpView|
                            !(op_wf(o) && starts_with(data@, p0, op_enc(o))) by {
                            if op_wf(o) && starts_with(data@, p0, op_enc(o)) {
                                if let OpView::Insert {
                                    parent_id: pid,
                                    index: ix,
                                    kind: kd,
                                    label: lb,
                                    value: vl,
                                } = o {
                                    lemma_insert_layout(data@, p0, p1, pid, ix, kd, lb, vl);
                                }
                            }
                        }
                    }
                    return None;
                },
            };
            let ghost p5 = *pos as int;
            let value = match decode_value(data, pos) {
                Some(v) => v,
                None => {
                    proof {
                        assert forall|o: OpView|
                            !(op_wf(o) && starts_with(data@, p0, op_enc(o))) by {
                            if op_wf(o) && starts_with(data@, p0, op_enc(o)) {
                                if let OpView::Insert {
                                    parent_id: pid,
                                    index: ix,
                                    kind: kd,
                                    label: lb,
                                    value: vl,
                                } = o {
                                    lemma_insert_layout(data@, p0, p1, pid, ix, kd, lb, vl);
                                }
                            }
                        }
                    }
                    return None;
                },
            };
            proof {
                assert forall|o: OpView|
                    op_wf(o) && starts_with(data@, p0, op_enc(o)) implies o == (OpView::Insert {
                    parent_id,
                    index,
                    kind: kind,
                    label: label@,
                    value: value@,
                }) && *pos == p0 + op_enc(o).len() by {
                    if let OpView::Insert { parent_id: pid, index: ix, kind: kd, label: lb, value: vl } = o {
                        lemma_insert_layout(data@, p0, p1, pid, ix, kd, lb, vl);
                        crate::ast::lemma_kind_byte_roundtrip(kd);
                    }
                }
            }
            Some(
                DiffOp::Insert {
                    parent_id,
                    index,
                    kind,
                    label,
                    value,
                },
            )
        },
        1 => {
            let node_id = match decode_varint_u32(data, pos) {
                Some(v) => v,
                None => {
                    proof {
                        assert forall|o: OpView|
                            !(op_wf(o) && starts_with(data@, p0, op_enc(o))) by {
                            if op_wf(o) && starts_with(data@, p0, op_enc(o)) {
                                lemma_op_enc_first(o);
                                lemma_starts_with_index(data@, p0, op_enc(o), 0);
                            }
                        }
                    }
                    return None;
                },
            };
            proof {
                assert forall|o: OpView|
                    op_wf(o) && starts_with(data@, p0, op_enc(o)) implies o == (OpView::Delete {
                    node_id,
                }) && *pos == p0 + op_enc(o).len() by {
                    lemma_op_enc_first(o);
                    lemma_starts_with_index(data@, p0, op_enc(o), 0);
                }
            }
            Some(DiffOp::Delete { node_id })
        },
        2 => {
            let node_id = match decode_varint_u32(data, pos) {
                Some(v) => v,
                None => {
                    proof {
                        assert forall|o: OpView|
                            !(op_wf(o) && starts_with(data@, p0, op_enc(o))) by {
                            if op_wf(o) && starts_with(data@, p0, op_enc(o)) {
                                if let OpView::Update {
                                    node_id: nid,
                                    old_value: ov,
                                    new_value: nv,
                                } = o {
                                    lemma_update_layout(data@, p0, p1, nid, ov, nv);
                                }
                            }
                        }
                    }
                    return None;
                },
            };
            let ghost p2 = *pos as int;
            let old_value = match decode_value(data, pos) {
                Some(v) => v,
                None => {
                    proof {
                        assert forall|o: OpView|
                            !(op_wf(o) && starts_with(data@, p0, op_enc(o))) by {
                            if op_wf(o) && starts_with(data@, p0, op_enc(o)) {
                                if let OpView::Update {
                                    node_id: nid,
                                    old_value: ov,
                                    new_value: nv,
                                } = o {
                                    lemma_update_layout(data@, p0, p1, nid, ov, nv);
                                }
                            }
                        }
                    }
                    return None;
                },
            };
            let ghost p3 = *pos as int;
            let new_value = match decode_value(data, pos) {
                Some(v) => v,
                None => {
                    proof {
                        assert forall|o: OpView|
                            !(op_wf(o) && starts_with(data@, p0, op_enc(o))) by {
                            if op_wf(o) && starts_with(data@, p0, op_enc(o)) {
                                if let OpView::Update {
                                    node_id: nid,
                                    old_value: ov,
                                    new_value: nv,
                                } = o {
                                    lemma_update_layout(data@, p0, p1, nid, ov, nv);
                                }
                            }
                        }
                    }
                    return None;
                },
            };
            proof {
                assert forall|o: OpView|
                    op_wf(o) && starts_with(data@, p0, op_enc(o)) implies o == (OpView::Update {
                    node_id,
                    old_value: old_value@,
                    new_value: new_value@,
                }) && *pos == p0 + op_enc(o).len() by {
                    if let OpView::Update { node_id: nid, old_value: ov, new_value: nv } = o {
                        lemma_update_layout(data@, p0, p1, nid, ov, nv);
                    }
                }
            }
            Some(DiffOp::Update { node_id, old_value, new_value })
        },
        3 => {
            let node_id = match decode_varint_u32(data, pos) {
                Some(v) => v,
                None => {
                    proof {
                        assert forall|o: OpView|
                            !(op_wf(o) && starts_with(data@, p0, op_enc(o))) by {
                            if op_wf(o) && starts_with(data@, p0, op_enc(o)) {
                                if let OpView::Relabel {
                                    node_id: nid,
                                    old_label: ol,
                                    new_label: nl,
                                } = o {
                                    lemma_relabel_layout(data@, p0, p1, nid, ol, nl);
                                }
                            }
                        }
                    }
                    return None;
                },
            };
            let ghost p2 = *pos as int;
            let old_label = match decode_string(data, pos) {
                Some(v) => v,
                None => {
                    proof {
                        assert forall|o: OpView|
                            !(op_wf(o) && starts_with(data@, p0, op_enc(o))) by {
                            if op_wf(o) && starts_with(data@, p0, op_enc(o)) {
                                if let OpView::Relabel {
                                    node_id: nid,
                                    old_label: ol,
                                    new_label: nl,
                                } = o {
                                    lemma_relabel_layout(data@, p0, p1, nid, ol, nl);
                                }
                            }
                        }
                    }
                    return None;
                },
            };
            let ghost p3 = *pos as int;
            let new_label = match decode_string(data, pos) {
                Some(v) => v,
                None => {
                    proof {
                        assert forall|o: OpView|
                            !(op_wf(o) && starts_with(data@, p0, op_enc(o))) by {
                            if op_wf(o) && starts_with(data@, p0, op_enc(o)) {
                                if let OpView::Relabel {
                                    node_id: nid,
                                    old_label: ol,
                                    new_label: nl,
                                } = o {
                                    lemma_relabel_layout(data@, p0, p1, nid, ol, nl);
                                }
                            }
                        }
                    }
                    return None;
                },
            };
            proof {
                assert forall|o: OpView|
                    op_wf(o) && starts_with(data@, p0, op_enc(o)) implies o == (OpView::Relabel {
                    node_id,
                    old_label: old_label@,
                    new_label: new_label@,
                }) && *pos == p0 + op_enc(o).len() by {
                    if let OpView::Relabel { node_id: nid, old_label: ol, new_label: nl } = o {
                        lemma_relabel_layout(data@, p0, p1, nid, ol, nl);
                    }
                }
            }
            Some(DiffOp::Relabel { node_id, old_label, new_label })
        },
        4 => {
            let node_id = match decode_varint_u32(data, pos) {
                Some(v) => v,
                None => {
                    proof {
                        assert forall|o: OpView|
                            !(op_wf(o) && starts_with(data@, p0, op_enc(o))) by {
                            if op_wf(o) && starts_with(data@, p0, op_enc(o)) {
                                if let OpView::Move {
                                    node_id: nid,
                                    new_parent_id: np,
                                    new_index: ni,
                                } = o {
                                    lemma_move_layout(data@, p0, p1, nid, np, ni);
                                }
                            }
                        }
                    }
                    return None;
                },
            };
            let ghost p2 = *pos as int;
            let new_parent_id = match decode_varint_u32(data, pos) {
                Some(v) => v,
                None => {
                    proof {
                        assert forall|o: OpView|
                            !(op_wf(o) && starts_with(data@, p0, op_enc(o))) by {
                            if op_wf(o) && starts_with(data@, p0, op_enc(o)) {
                                if let OpView::Move {
                                    node_id: nid,
                                    new_parent_id: np,
                                    new_index: ni,
                                } = o {
                                    lemma_move_layout(data@, p0, p1, nid, np, ni);
                                }
                            }
                        }
                    }
                    return None;
                },
            };
            let ghost p3 = *pos as int;
            let new_index = match decode_varint_u32(data, pos) {
                Some(v) => v,
                None => {
                    proof {
                        assert forall|o: OpView|
                            !(op_wf(o) && starts_with(data@, p0, op_enc(o))) by {
                            if op_wf(o) && starts_with(data@, p0, op_enc(o)) {
                                if let OpView::Move {
                                    node_id: nid,
                                    new_parent_id: np,
                                    new_index: ni,
                                } = o {
                                    lemma_move_layout(data@, p0, p1, nid, np, ni);
                                }
                            }
                        }
                    }
                    return None;
                },
            };
            proof {
                assert forall|o: OpView|
                    op_wf(o) && starts_with(data@, p0, op_enc(o)) implies o == (OpView::Move {
                    node_id,
                    new_parent_id,
                    new_index,
                }) && *pos == p0 + op_enc(o).len() by {
                    if let OpView::Move { node_id: nid, new_parent_id: np, new_index: ni } = o {
                        lemma_move_layout(data@, p0, p1, nid, np, ni);
                    }
                }
            }
            Some(DiffOp::Move { node_id, new_parent_id, new_index })
        },
        _ => {
            proof {
                assert forall|o: OpView| !starts_with(data@, p0, op_enc(o)) by {
                    lemma_op_enc_first(o);
                    if starts_with(data@, p0, op_enc(o)) {
                        lemma_starts_with_index(data@, p0, op_enc(o), 0);
                    }
                }
            }
            None
        },
    }
}

/// Split an insert payload into its five parts, in place in `data`.
proof fn lemma_insert_layout(
    data: Seq<u8>,
    p0: int,
    p1: int,
    pid: u32,
    ix: u32,
    kd: AstNodeKind,
    lb: Seq<char>,
    vl: ValueView,
)
    requires
        p1 == p0 + 1,
        starts_with(
            data,
            p1,
            varint(pid) + varint(ix) + seq![kind_byte(kd)] + enc_str(lb) + val_enc(vl),
        ),
    ensures
        starts_with(data, p1, varint(pid)),
        starts_with(data, p1 + varint(pid).len(), varint(ix)),
        data[p1 + varint(pid).len() + varint(ix).len()] == kind_byte(kd),
        starts_with(data, p1 + varint(pid).len() + varint(ix).len() + 1, enc_str(lb)),
        starts_with(
            data,
            p1 + varint(pid).len() + varint(ix).len() + 1 + enc_str(lb).len(),
            val_enc(vl),
        ),
{
    let a = varint(pid);
    let b = varint(ix);
    let c = seq![kind_byte(kd)];
    let d = enc_str(lb);
    let e = val_enc(vl);
    assert(a + b + c + d + e =~= a + (b + (c + (d + e))));
    lemma_starts_with_split(data, p1, a, b + (c + (d + e)));
    lemma_starts_with_split(data, p1 + a.len(), b, c + (d + e));
    lemma_starts_with_split(data, p1 + a.len() + b.len(), c, d + e);
    lemma_starts_with_index(data, p1 + a.len() + b.len(), c, 0);
    lemma_starts_with_split(data, p1 + a.len() + b.len() + 1, d, e);
}

/// Split an update payload into its three parts, in place in `data`.
proof fn lemma_update_layout(data: Seq<u8>, p0: int, p1: int, nid: u32, ov: ValueView, nv: ValueView)
    requires
        p1 == p0 + 1,
        starts_with(data, p1, varint(nid) + val_enc(ov) + val_enc(nv)),
    ensures
        starts_with(data, p1, varint(nid)),
        starts_with(data, p1 + varint(nid).len(), val_enc(ov)),
        starts_with(data, p1 + varint(nid).len() + val_enc(ov).len(), val_enc(nv)),
{
    let a = varint(nid);
    let b = val_enc(ov);
    let c = val_enc(nv);
    assert(a + b + c =~= a + (b + c));
    lemma_starts_with_split(data, p1, a, b + c);
    lemma_starts_with_split(data, p1 + a.len(), b, c);
}

/// Split a relabel payload into its three parts, in place in `data`.
proof fn lemma_relabel_layout(
    data: Seq<u8>,
    p0: int,
    p1: int,
    nid: u32,
    ol: Seq<char>,
    nl: Seq<char>,
)
    requires
        p1 == p0 + 1,
        starts_with(data, p1, varint(nid) + enc_str(ol) + enc_str(nl)),
    ensures
        starts_with(data, p1, varint(nid)),
        starts_with(data, p1 + varint(nid).len(), enc_str(ol)),
        starts_with(data, p1 + varint(nid).len() + enc_str(ol).len(), enc_str(nl)),
{
    let a = varint(nid);
    let b = enc_str(ol);
    let c = enc_str(nl);
    assert(a + b + c =~= a + (b + c));
    lemma_starts_with_split(data, p1, a, b + c);
    lemma_starts_with_split(data, p1 + a.len(), b, c);
}

/// Split a move payload into its three parts, in place in `data`.
proof fn lemma_move_layout(data: Seq<u8>, p0: int, p1: int, nid: u32, np: u32, ni: u32)
    requires
        p1 == p0 + 1,
        starts_with(data, p1, varint(nid) + varint(np) + varint(ni)),
    ensures
        starts_with(data, p1, varint(nid)),
        starts_with(data, p1 + varint(nid).len(), varint(np)),
        starts_with(data, p1 + varint(nid).len() + varint(np).len(), varint(ni)),
{
    let a = varint(nid);
    let b = varint(np);
    let c = varint(ni);
    assert(a + b + c =~= a + (b + c));
    lemma_starts_with_split(data, p1, a, b + c);
    lemma_starts_with_split(data, p1 + a.len(), b, c);
}

// ── Patch codec ───────────────────────────────────────────────────────

/// The concatenated wire forms of a sequence of operations.
pub open spec fn ops_enc(ops: Seq<OpView>) -> Seq<u8>
    decreases ops.len(),
{
    if ops.len() == 0 {
        Seq::empty()
    } else {
        op_enc(ops[0]) + ops_enc(ops.skip(1))
    }
}

/// The wire form of a whole patch: varint operation count, then the
/// operations. The empty patch is the single byte `0x00`.
pub open spec fn patch_enc(ops: Seq<OpView>) -> Seq<u8> {
    varint(len32(ops.len() as int)) + ops_enc(ops)
}

/// A patch whose wire length fields do not truncate.
pub open spec fn patch_wf(ops: Seq<OpView>) -> bool {
    &&& ops.len() < 0x100000000
    &&& forall|i: int| 0 <= i < ops.len() ==> op_wf(#[trigger] ops[i])
}

/// The empty patch encodes to the single byte `0x00`.
pub proof fn lemma_empty_patch_wire()
    ensures
        patch_enc(Seq::<OpView>::empty()) == seq![0u8],
        patch_wf(Seq::<OpView>::empty()),
{
    assert(varint(0) == seq![0u8]);
    assert(patch_enc(Seq::<OpView>::empty()) =~= seq![0u8]);
}

/// Encode a full patch into a byte buffer.
pub fn encode_patch(ops: &[DiffOp]) -> (r: Vec<u8>)
    ensures
        r@ == patch_enc(ops_view(ops@)),
{
    let ghost vs = ops_view(ops@);
    let mut buf: Vec<u8> = Vec::new();
    let n = ops.len();
    let len_field: u32 = ((n as u64) % 0x100000000) as u32;
    proof {
        assert(len_field == len32(vs.len() as int));
    }
    encode_varint_u32(len_field, &mut buf);
    let mut i: usize = 0;
    proof {
        assert(vs.skip(0) =~= vs);
        assert(buf@ + ops_enc(vs) =~= patch_enc(vs));
    }
    while i < n
        invariant
            i <= n,
            n == ops@.len(),
            vs == ops_view(ops@),
            buf@ + ops_enc(vs.skip(i as int)) =~= patch_enc(vs),
        decreases n - i,
    {
        let ghost pre = buf@;
        encode_op(&ops[i], &mut buf);
        proof {
            let rest = vs.skip(i as int);
            assert(rest.len() > 0);
            assert(rest[0] == vs[i as int]);
            assert(ops@[i as int]@ == vs[i as int]);
            assert(rest.skip(1) =~= vs.skip(i as int + 1));
            assert(ops_enc(rest) == op_enc(vs[i as int]) + ops_enc(vs.skip(i as int + 1)));
            assert(buf@ + ops_enc(vs.skip(i as int + 1)) =~= (pre + op_enc(vs[i as int]))
                + ops_enc(vs.skip(i as int + 1)));
            assert((pre + op_enc(vs[i as int])) + ops_enc(vs.skip(i as int + 1)) =~= pre + ops_enc(
                rest,
            ));
        }
        i += 1;
    }
    proof {
        assert(vs.skip(n as int) =~= Seq::<OpView>::empty());
        assert(buf@ + ops_enc(vs.skip(n as int)) =~= buf@);
        assert(buf@ =~= patch_enc(vs));
    }
    buf
}

/// Decode a full patch from a byte buffer. Trailing bytes after the
/// encoded operations are ignored.
pub fn decode_patch(data: &[u8]) -> (r: Option<Vec<DiffOp>>)
    ensures
        forall|s: Seq<OpView>|
            patch_wf(s) && starts_with(data@, 0, #[trigger] patch_enc(s)) ==> r is Some && (
            r matches Some(v) ==> ops_view(v@) == s),
{
    let mut pos: usize = 0;
    let count = match decode_varint_u32(data, &mut pos) {
        Some(c) => c,
        None => {
            proof {
                assert forall|s: Seq<OpView>|
                    !(patch_wf(s) && starts_with(data@, 0, #[trigger] patch_enc(s))) by {
                    if patch_wf(s) && starts_with(data@, 0, patch_enc(s)) {
                        lemma_starts_with_split(
                            data@,
                            0,
                            varint(len32(s.len() as int)),
                            ops_enc(s),
                        );
                    }
                }
            }
            return None;
        },
    };
    let mut ops: Vec<DiffOp> = Vec::new();
    let mut i: u32 = 0;
    proof {
        assert forall|s: Seq<OpView>|
            patch_wf(s) && starts_with(data@, 0, #[trigger] patch_enc(s)) implies s.len() == count
            && ops_view(ops@) == s.take(0) && starts_with(
            data@,
            pos as int,
            ops_enc(s.skip(0)),
        ) by {
            lemma_starts_with_split(data@, 0, varint(len32(s.len() as int)), ops_enc(s));
            assert(count == len32(s.len() as int));
            assert(s.skip(0) =~= s);
            assert(ops_view(ops@) =~= s.take(0));
        }
    }
    while i < count
        invariant
            pos <= data@.len(),
            i <= count,
            ops@.len() == i,
            forall|s: Seq<OpView>|
                patch_wf(s) && starts_with(data@, 0, #[trigger] patch_enc(s)) ==> s.len() == count
                    && ops_view(ops@) == s.take(i as int) && starts_with(
                    data@,
                    pos as int,
                    ops_enc(s.skip(i as int)),
                ),
        decreases count - i,
    {
        let ghost pre_pos = pos as int;
        let op = match decode_op(data, &mut pos) {
            Some(o) => o,
            None => {
                proof {
                    assert forall|s: Seq<OpView>|
                        !(patch_wf(s) && starts_with(data@, 0, #[trigger] patch_enc(s))) by {
                        if patch_wf(s) && starts_with(data@, 0, patch_enc(s)) {
                            let rest = s.skip(i as int);
                            assert(rest.len() > 0);
                            assert(ops_enc(rest) == op_enc(rest[0]) + ops_enc(rest.skip(1)));
                            lemma_starts_with_split(
                                data@,
                                pre_pos,
                                op_enc(rest[0]),
                                ops_enc(rest.skip(1)),
                            );
                            assert(op_wf(rest[0])) by {
                                assert(rest[0] == s[i as int]);
                            }
                        }
                    }
                }
                return None;
            },
        };
        ops.push(op);
        i += 1;
        proof {
            assert forall|s: Seq<OpView>|
                patch_wf(s) && starts_with(data@, 0, #[trigger] patch_enc(s)) implies s.len()
                == count && ops_view(ops@) == s.take(i as int) && starts_with(
                data@,
                pos as int,
                ops_enc(s.skip(i as int)),
            ) by {
                let rest = s.skip(i as int - 1);
                assert(rest.len() > 0);
                assert(ops_enc(rest) == op_enc(rest[0]) + ops_enc(rest.skip(1)));
                lemma_starts_with_split(data@, pre_pos, op_enc(rest[0]), ops_enc(rest.skip(1)));
                assert(rest[0] == s[i as int - 1]);
                assert(op_wf(rest[0]));
                assert(op@ == rest[0]);
                assert(rest.skip(1) =~= s.skip(i as int));
                assert(ops_view(ops@) =~= s.take(i as int)) by {
                    assert(ops_view(ops@.drop_last()) == s.take(i as int - 1));
                    assert forall|j: int| 0 <= j < i as int implies ops_view(ops@)[j] == s.take(
                        i as int,
                    )[j] by {
                        if j < i as int - 1 {
                            assert(ops_view(ops@.drop_last())[j] == ops@.drop_last()[j]@);
                            assert(ops@.drop_last()[j] == ops@[j]);
                            assert(s.take(i as int - 1)[j] == s[j]);
                        } else {
                            assert(ops_view(ops@)[j] == ops@[j]@);
                        }
                    }
                }
            }
        }
    }
    proof {
        assert forall|s: Seq<OpView>|
            patch_wf(s) && starts_with(data@, 0, #[trigger] patch_enc(s)) implies ops_view(ops@)
            == s by {
            assert(s.len() == count);
            assert(s.take(count as int) =~= s);
        }
    }
    Some(ops)
}

/// Encoded patch size in bytes.
pub fn encoded_patch_size(ops: &[DiffOp]) -> (r: usize)
    ensures
        r == patch_enc(ops_view(ops@)).len(),
{
    encode_patch(ops).len()
}

} // verus!
