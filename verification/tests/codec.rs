//! Tests of the slot record codec on exact byte values.

use kvstack::codec::{decode_item, encode_item, Item, StackError};

#[test]
fn encode_is_little_endian() {
    assert_eq!(encode_item(&Item { value: 5 }), vec![5u8, 0u8, 0u8, 0u8]);
    assert_eq!(encode_item(&Item { value: 0x0403_0201 }), vec![1u8, 2u8, 3u8, 4u8]);
}

#[test]
fn encode_negative_uses_twos_complement() {
    assert_eq!(encode_item(&Item { value: -1 }), vec![0xffu8, 0xffu8, 0xffu8, 0xffu8]);
    assert_eq!(encode_item(&Item { value: i32::MIN }), vec![0u8, 0u8, 0u8, 0x80u8]);
}

#[test]
fn decode_inverts_encode() {
    for v in [0, 1, -1, 42, -42, i32::MIN, i32::MAX] {
        let bytes = encode_item(&Item { value: v });
        assert_eq!(decode_item(&bytes), Ok(Item { value: v }));
    }
}

#[test]
fn decode_rejects_wrong_length() {
    assert_eq!(decode_item(&vec![]), Err(StackError::Serialization));
    assert_eq!(decode_item(&vec![1u8, 2u8, 3u8]), Err(StackError::Serialization));
    assert_eq!(decode_item(&vec![1u8, 2u8, 3u8, 4u8, 5u8]), Err(StackError::Serialization));
}
