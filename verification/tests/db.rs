use memkv::batch::Batch;
use memkv::db::DB;
use memkv::kv::{Error, Key, Value};

#[test]
fn test_set_get() {
    let mut db = DB::new();

    let key = Key::try_from(10).unwrap();
    let value = Value::try_from(20).unwrap();

    db.set(key.clone(), value.clone()).unwrap();

    let value2 = db.get(&key).unwrap();

    assert_eq!(&value, value2);
}

#[test]
fn test_set_overwrite_key() {
    let mut db = DB::new();

    let key = Key::try_from(10).unwrap();
    let value = Value::try_from(20).unwrap();
    db.set(key.clone(), value.clone()).unwrap();

    let value = Value::try_from(50).unwrap();
    db.set(key.clone(), value.clone()).unwrap();

    let value2 = db.get(&key).unwrap();

    assert_eq!(&value, value2);
}

#[test]
fn test_delete() {
    let mut db = DB::new();

    let key = Key::try_from(10).unwrap();
    let value = Value::try_from(20).unwrap();
    db.set(key.clone(), value.clone()).unwrap();

    db.delete(&key).unwrap();

    let result = db.get(&key);
    assert!(
        result.is_err(),
        "Expected error to get deleted key: {:?}",
        result.err()
    );
}

#[test]
fn test_get_not_found() {
    let db = DB::new();

    let key = Key::try_from(10).unwrap();

    let result = db.get(&key);
    assert!(
        result.is_err(),
        "Expected error to get invalid key: {:?}",
        result.err()
    );
}

#[test]
fn test_delete_not_found() {
    let mut db = DB::new();

    let key = Key::try_from(10).unwrap();

    let result = db.delete(&key);
    assert!(
        result.is_err(),
        "Expected error to get invalid key: {:?}",
        result.err()
    );
}

#[test]
fn test_set_overwrite_then_delete_scenario() {
    let mut db = DB::new();

    let key = Key::try_from(10).unwrap();
    db.set(key.clone(), Value::try_from(20).unwrap()).unwrap();
    assert_eq!(db.get(&key).unwrap(), &Value::try_from(20).unwrap());

    db.set(key.clone(), Value::try_from(50).unwrap()).unwrap();
    assert_eq!(db.get(&key).unwrap(), &Value::try_from(50).unwrap());

    db.delete(&key).unwrap();
    assert_eq!(db.get(&key), Err(Error::NotFound));
}

#[test]
fn test_get_and_delete_errors_are_not_found() {
    let mut db = DB::new();
    let key = Key::try_from(10).unwrap();
    assert_eq!(db.get(&key), Err(Error::NotFound));
    assert_eq!(db.delete(&key), Err(Error::NotFound));
}

#[test]
fn test_delete_not_found_leaves_table_unchanged() {
    let mut db = DB::new();
    let key = Key::try_from(10).unwrap();
    let value = Value::try_from(20).unwrap();
    db.set(key.clone(), value.clone()).unwrap();

    let absent = Key::try_from(99).unwrap();
    assert_eq!(db.delete(&absent), Err(Error::NotFound));

    assert_eq!(db.get(&key).unwrap(), &value);
    assert_eq!(db.get(&absent), Err(Error::NotFound));
}

#[test]
fn test_apply_partial_replay_keeps_earlier_records() {
    // A batch holding a set of key 1 and then a delete of key 2, which was
    // never set: replay is not transactional, so the failing delete
    // surfaces NotFound while key 1's set stays applied.
    let mut db = DB::new();

    let key1 = Key::try_from(1).unwrap();
    let key2 = Key::try_from(2).unwrap();
    let value = Value::from(vec![b'a']);

    let mut batch = Batch::new();
    batch.set(&key1, &value).unwrap();
    batch.delete(&key2).unwrap();

    assert_eq!(db.apply(&batch), Err(Error::NotFound));
    assert_eq!(db.get(&key1).unwrap(), &value);
    assert_eq!(db.get(&key2), Err(Error::NotFound));
}

#[test]
fn test_apply_replays_in_order() {
    let mut db = DB::new();

    let key = Key::try_from(7).unwrap();
    let v1 = Value::from(vec![1]);
    let v2 = Value::from(vec![2]);

    let mut batch = Batch::new();
    batch.set(&key, &v1).unwrap();
    batch.set(&key, &v2).unwrap();

    db.apply(&batch).unwrap();
    assert_eq!(db.get(&key).unwrap(), &v2);
}
