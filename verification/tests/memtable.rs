use memkv::kv::{Error, Key, Value};
use memkv::memtable::Memtable;

#[test]
fn test_memtable_set_then_get() {
    let mut table = Memtable::new();
    let key = Key::from(vec![1, 2]);
    let value = Value::from(vec![5]);
    table.set(key.clone(), value.clone()).unwrap();
    assert_eq!(table.get(&key), Some(&value));
}

#[test]
fn test_memtable_get_absent_is_none() {
    let table = Memtable::new();
    assert_eq!(table.get(&Key::from(vec![1])), None);
}

#[test]
fn test_memtable_tombstone_hides_value() {
    let mut table = Memtable::new();
    let key = Key::from(vec![1]);
    table.set(key.clone(), Value::from(vec![2])).unwrap();
    table.delete(&key).unwrap();
    assert_eq!(table.get(&key), None);
}

#[test]
fn test_memtable_delete_absent_fails() {
    let mut table = Memtable::new();
    assert_eq!(table.delete(&Key::from(vec![1])), Err(Error::NotFound));
}

#[test]
fn test_memtable_keeps_many_keys_apart() {
    let mut table = Memtable::new();
    // Insert out of order; lookups must stay exact for every key.
    let keys: [&[u8]; 5] = [b"mango", b"apple", b"pear", b"fig", b"kiwi"];
    for (i, k) in keys.iter().enumerate() {
        table
            .set(Key::from(k.to_vec()), Value::from(vec![i as u8]))
            .unwrap();
    }
    for (i, k) in keys.iter().enumerate() {
        assert_eq!(table.get(&Key::from(k.to_vec())), Some(&Value::from(vec![i as u8])));
    }
    assert_eq!(table.get(&Key::from(b"plum".to_vec())), None);
}

#[test]
fn test_memtable_prefix_keys_are_distinct() {
    // A strict prefix is a different, smaller key.
    let mut table = Memtable::new();
    table.set(Key::from(vec![1, 2]), Value::from(vec![10])).unwrap();
    table.set(Key::from(vec![1]), Value::from(vec![20])).unwrap();
    assert_eq!(table.get(&Key::from(vec![1, 2])), Some(&Value::from(vec![10])));
    assert_eq!(table.get(&Key::from(vec![1])), Some(&Value::from(vec![20])));
}

#[test]
fn test_memtable_empty_key_is_a_key() {
    let mut table = Memtable::new();
    table.set(Key::from(vec![]), Value::from(vec![1])).unwrap();
    assert_eq!(table.get(&Key::from(vec![])), Some(&Value::from(vec![1])));
    assert_eq!(table.get(&Key::from(vec![0])), None);
}
