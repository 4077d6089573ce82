use memkv::kv::{Key, Op, Value};

#[test]
fn test_key_try_from_is_fixed_width_little_endian() {
    let key = Key::try_from(10).unwrap();
    assert_eq!(key.as_bytes(), &vec![10, 0, 0, 0]);
    assert_eq!(key.len(), 4);

    let key = Key::try_from(0x01020304).unwrap();
    assert_eq!(key.as_bytes(), &vec![4, 3, 2, 1]);
}

#[test]
fn test_key_try_from_negative() {
    let key = Key::try_from(-1).unwrap();
    assert_eq!(key.as_bytes(), &vec![255, 255, 255, 255]);

    let key = Key::try_from(-2).unwrap();
    assert_eq!(key.as_bytes(), &vec![254, 255, 255, 255]);
}

#[test]
fn test_value_try_from_matches_key_encoding() {
    let value = Value::try_from(20).unwrap();
    assert_eq!(value.as_bytes(), &vec![20, 0, 0, 0]);
    assert_eq!(value.len(), 4);
}

#[test]
fn test_equality_is_byte_wise() {
    assert_eq!(Key::from(vec![1, 2]), Key::from(vec![1, 2]));
    assert!(Key::from(vec![1, 2]) != Key::from(vec![1, 3]));
    assert!(Key::from(vec![1, 2]) != Key::from(vec![1, 2, 0]));
    assert_eq!(Value::from(vec![]), Value::from(vec![]));
    assert!(Value::from(vec![0]) != Value::from(vec![]));
}

#[test]
fn test_op_from_byte() {
    assert_eq!(Op::from_byte(1), Ok(Op::Put));
    assert_eq!(Op::from_byte(2), Ok(Op::Delete));
    assert!(Op::from_byte(0).is_err());
    assert!(Op::from_byte(3).is_err());
    assert_eq!(Op::Put.as_byte(), 1);
    assert_eq!(Op::Delete.as_byte(), 2);
}

#[test]
fn test_key_lexicographic_order() {
    // Byte-wise order, with a strict prefix sorting first.
    let a = Key::from(vec![1, 2]);
    let b = Key::from(vec![1, 2, 0]);
    let c = Key::from(vec![1, 3]);
    assert!(a.lt(&b));
    assert!(b.lt(&c));
    assert!(a.lt(&c));
    assert!(!c.lt(&a));
    assert!(!a.lt(&a));
    assert!(Key::from(vec![]).lt(&a));
}
