//! The slot record and its serialized form.
//!
//! A slot's value is the record `{ value: i32 }` serialized as the four
//! little-endian bytes of the two's-complement bit pattern. Stored bytes of
//! any other length do not decode.

use vstd::bytes::{spec_u32_from_le_bytes, spec_u32_to_le_bytes, u32_from_le_bytes, u32_to_le_bytes};
use vstd::prelude::*;

verus! {

/// One stack entry: the record held in a slot's value.
#[derive(Clone, Copy, Debug, PartialEq, Eq, Structural)]
pub struct Item {
    pub value: i32,
}

/// The errors an operation can surface. An empty-stack pop is not one of
/// them: it is a benign no-op.
#[derive(Clone, Copy, Debug, PartialEq, Eq, Structural)]
pub enum StackError {
    /// Allocating a key past 255 was attempted.
    KeyOverflow,
    /// Stored bytes do not decode into the record shape.
    Serialization,
}

/// The unsigned bit pattern of a signed 32-bit value.
pub open spec fn to_u32_bits(v: i32) -> u32 {
    if v >= 0 {
        v as u32
    } else {
        (v + 0x1_0000_0000) as u32
    }
}

/// The signed 32-bit value with the given bit pattern.
pub open spec fn from_u32_bits(u: u32) -> i32 {
    if u <= 0x7fff_ffff {
        u as i32
    } else {
        (u - 0x1_0000_0000) as i32
    }
}

/// The serialized form of a record with the given value.
pub open spec fn enc_item(v: i32) -> Seq<u8> {
    spec_u32_to_le_bytes(to_u32_bits(v))
}

/// Whether stored bytes decode into the record shape.
pub open spec fn decodes(bytes: Seq<u8>) -> bool {
    bytes.len() == 4
}

/// The value of the record that the given bytes decode into.
pub open spec fn dec_item(bytes: Seq<u8>) -> i32 {
    from_u32_bits(spec_u32_from_le_bytes(bytes))
}

/// Decoding inverts encoding: the serialized form pins the value down.
pub proof fn lemma_codec_round_trip(v: i32)
    ensures
        enc_item(v).len() == 4,
        dec_item(enc_item(v)) == v,
{
    vstd::bytes::lemma_auto_spec_u32_to_from_le_bytes();
    let u = to_u32_bits(v);
    assert(spec_u32_to_le_bytes(u).len() == 4);
    assert(spec_u32_from_le_bytes(spec_u32_to_le_bytes(u)) == u);
    if v >= 0 {
        assert(u == v);
        assert(from_u32_bits(u) == v);
    } else {
        assert(u == v + 0x1_0000_0000);
        assert(u > 0x7fff_ffff);
        assert(from_u32_bits(u) == v);
    }
}

pub fn encode_item(item: &Item) -> (r: Vec<u8>)
    ensures
        r@ == enc_item(item.value),
        r@.len() == 4,
{
    let wide: i64 = item.value as i64;
    let bits: u32 = if wide >= 0 {
        wide as u32
    } else {
        (wide + 0x1_0000_0000) as u32
    };
    proof {
        vstd::bytes::lemma_auto_spec_u32_to_from_le_bytes();
    }
    u32_to_le_bytes(bits)
}

pub fn decode_item(bytes: &Vec<u8>) -> (r: Result<Item, StackError>)
    ensures
        decodes(bytes@) ==> r == Ok::<Item, StackError>(Item { value: dec_item(bytes@) }),
        !decodes(bytes@) ==> r == Err::<Item, StackError>(StackError::Serialization),
{
    if bytes.len() != 4 {
        return Err(StackError::Serialization);
    }
    let bits: u32 = u32_from_le_bytes(bytes.as_slice());
    let value: i32 = if bits <= 0x7fff_ffff {
        bits as i32
    } else {
        (bits as i64 - 0x1_0000_0000) as i32
    };
    Ok(Item { value })
}

} // verus!
