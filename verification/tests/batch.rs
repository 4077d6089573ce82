use memkv::batch::{Batch, BatchIter};
use memkv::kv::{Error, Key, Op, Value};

#[test]
fn test_round_trip_reproduces_append_order() {
    let k1 = Key::from(vec![1, 2, 3]);
    let v1 = Value::from(vec![9, 8]);
    let k2 = Key::from(vec![4]);
    let k3 = Key::from(vec![1, 2, 3]);
    let v3 = Value::from(vec![7]);

    let mut batch = Batch::new();
    batch.set(&k1, &v1).unwrap();
    batch.delete(&k2).unwrap();
    batch.set(&k3, &v3).unwrap();

    let mut it = batch.iter();

    let (op, k, v) = it.next().unwrap().unwrap();
    assert_eq!(op, Op::Put);
    assert_eq!(k, k1);
    assert_eq!(v, v1);

    let (op, k, v) = it.next().unwrap().unwrap();
    assert_eq!(op, Op::Delete);
    assert_eq!(k, k2);
    assert_eq!(v.len(), 0);

    let (op, k, v) = it.next().unwrap().unwrap();
    assert_eq!(op, Op::Put);
    assert_eq!(k, k3);
    assert_eq!(v, v3);

    assert!(it.next().is_none());
}

#[test]
fn test_iter_snapshots_current_contents() {
    let k1 = Key::from(vec![1]);
    let v1 = Value::from(vec![2]);
    let k2 = Key::from(vec![3]);
    let v2 = Value::from(vec![4]);

    let mut batch = Batch::new();
    batch.set(&k1, &v1).unwrap();

    let mut early = batch.iter();
    batch.set(&k2, &v2).unwrap();

    // The early pass sees only what existed when it began.
    assert!(early.next().unwrap().is_ok());
    assert!(early.next().is_none());

    // A fresh pass sees the updated contents.
    let mut late = batch.iter();
    assert!(late.next().unwrap().is_ok());
    let (op, k, v) = late.next().unwrap().unwrap();
    assert_eq!(op, Op::Put);
    assert_eq!(k, k2);
    assert_eq!(v, v2);
    assert!(late.next().is_none());
}

#[test]
fn test_empty_batch_decodes_to_nothing() {
    let batch = Batch::new();
    let mut it = batch.iter();
    assert!(it.next().is_none());
}

#[test]
fn test_decode_wire_bytes_by_hand() {
    // opcode 1, key_len 1, key 0xAB, value_len 2, value [1, 2]
    let buf = vec![1, 0, 0, 0, 1, 0xAB, 0, 0, 0, 2, 1, 2];
    let mut it = BatchIter::new(buf);
    let (op, k, v) = it.next().unwrap().unwrap();
    assert_eq!(op, Op::Put);
    assert_eq!(k, Key::from(vec![0xAB]));
    assert_eq!(v, Value::from(vec![1, 2]));
    assert!(it.next().is_none());
}

#[test]
fn test_invalid_opcode_is_an_error() {
    let mut it = BatchIter::new(vec![7]);
    assert_eq!(it.next(), Some(Err(Error::InvalidOpCode)));
}

#[test]
fn test_truncated_header_is_an_error() {
    let mut it = BatchIter::new(vec![1, 0, 0]);
    assert_eq!(it.next(), Some(Err(Error::DecodeError)));
}

#[test]
fn test_truncated_key_is_an_error() {
    // key_len declares 5 bytes; only 2 follow.
    let mut it = BatchIter::new(vec![1, 0, 0, 0, 5, 1, 2]);
    assert_eq!(it.next(), Some(Err(Error::DecodeError)));
}

#[test]
fn test_truncated_value_is_an_error() {
    // value_len declares 3 bytes; only 1 follows.
    let mut it = BatchIter::new(vec![2, 0, 0, 0, 1, 0xCC, 0, 0, 0, 3, 9]);
    assert_eq!(it.next(), Some(Err(Error::DecodeError)));
}
