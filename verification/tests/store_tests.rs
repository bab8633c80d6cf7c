//! Point operations, batches, range deletes, clearing and checkpoints.

use typed_store::batch::DBBatch;
use typed_store::codec::KeyCodec;
use typed_store::codec::ValueCodec;
use typed_store::iter::get_iter;
use typed_store::iter::SafeIter;
use typed_store::map::open_map;
use typed_store::map::open_rocksdb;
use typed_store::map::DBMap;
use typed_store::store::Store;
use typed_store::TypedStoreError;

fn collect_iter<K, V>(it: &mut SafeIter<K, V>) -> Vec<(K, V)>
where
    K: KeyCodec,
    V: ValueCodec,
{
    let mut out = Vec::new();
    while let Some(item) = it.next() {
        match item {
            Ok(kv) => out.push(kv),
            Err(_) => panic!("decode failed"),
        }
    }
    out
}

#[test]
fn test_open() {
    let _db = open_map::<u32, String>("test_open_db".to_string(), None);
}

#[test]
fn test_reopen() {
    let (mut store, db) = open_map::<u32, String>("test_reopen_db".to_string(), None);
    db.insert(&mut store, &123456789, &"123456789".to_string())
        .expect("Failed to insert");
    let db = DBMap::<u32, String>::reopen(&store, None).expect("Failed to re-open storage");
    assert!(db
        .contains_key(&store, &123456789)
        .expect("Failed to retrieve item in storage"));
}

#[test]
fn test_wrong_reopen() {
    let rocks = open_rocksdb(
        "test_wrong_reopen_db".to_string(),
        vec!["foo".to_string(), "bar".to_string(), "baz".to_string()],
    );
    let db = DBMap::<u8, u8>::reopen(&rocks, Some("quux"));
    assert!(db.is_err());
}

#[test]
fn test_contains_key() {
    let (mut store, db) = open_map::<u32, String>("test_contains_key_db".to_string(), None);

    db.insert(&mut store, &123456789, &"123456789".to_string())
        .expect("Failed to insert");
    assert!(db
        .contains_key(&store, &123456789)
        .expect("Failed to call contains key"));
    assert!(!db
        .contains_key(&store, &000000000)
        .expect("Failed to call contains key"));
}

#[test]
fn test_multi_contain() {
    let (mut store, db) = open_map::<u32, String>("test_multi_contain_db".to_string(), None);

    db.insert(&mut store, &123, &"123".to_string())
        .expect("Failed to insert");
    db.insert(&mut store, &456, &"456".to_string())
        .expect("Failed to insert");
    db.insert(&mut store, &789, &"789".to_string())
        .expect("Failed to insert");

    let result = db
        .multi_contains_keys(&store, &vec![123, 456])
        .expect("Failed to check multi keys existence");

    assert_eq!(result.len(), 2);
    assert!(result[0]);
    assert!(result[1]);

    let result = db
        .multi_contains_keys(&store, &vec![123, 987, 789])
        .expect("Failed to check multi keys existence");

    assert_eq!(result.len(), 3);
    assert!(result[0]);
    assert!(!result[1]);
    assert!(result[2]);
}

#[test]
fn test_get() {
    let (mut store, db) = open_map::<u32, String>("test_get_db".to_string(), None);

    db.insert(&mut store, &123456789, &"123456789".to_string())
        .expect("Failed to insert");
    assert_eq!(
        Some("123456789".to_string()),
        db.get(&store, &123456789).expect("Failed to get")
    );
    assert_eq!(None, db.get(&store, &000000000).expect("Failed to get"));
}

#[test]
fn test_multi_get() {
    let (mut store, db) = open_map::<u32, String>("test_multi_get_db".to_string(), None);

    db.insert(&mut store, &123, &"123".to_string())
        .expect("Failed to insert");
    db.insert(&mut store, &456, &"456".to_string())
        .expect("Failed to insert");

    let result = db
        .multi_get(&store, &vec![123, 456, 789])
        .expect("Failed to multi get");

    assert_eq!(result.len(), 3);
    assert_eq!(result[0], Some("123".to_string()));
    assert_eq!(result[1], Some("456".to_string()));
    assert_eq!(result[2], None);
}

#[test]
fn test_remove() {
    let (mut store, db) = open_map::<u32, String>("test_remove_db".to_string(), None);

    db.insert(&mut store, &123456789, &"123456789".to_string())
        .expect("Failed to insert");
    assert!(db
        .get(&store, &123456789)
        .expect("Failed to get")
        .is_some());

    db.remove(&mut store, &123456789).expect("Failed to remove");
    assert!(db
        .get(&store, &123456789)
        .expect("Failed to get")
        .is_none());
}

#[test]
fn test_insert_batch() {
    let (mut store, db) = open_map::<i32, String>("test_insert_batch_db".to_string(), None);
    let keys_vals: Vec<(i32, String)> = (1..100).map(|i| (i, i.to_string())).collect();
    let mut insert_batch = db.batch();
    insert_batch
        .insert_batch(&db, &keys_vals)
        .expect("Failed to batch insert");
    insert_batch
        .write(&mut store)
        .expect("Failed to execute batch");
    for (k, v) in keys_vals {
        let val = db.get(&store, &k).expect("Failed to get inserted key");
        assert_eq!(Some(v), val);
    }
}

#[test]
fn test_insert_batch_across_cf() {
    let mut rocks = open_rocksdb(
        "test_insert_batch_across_cf_db".to_string(),
        vec!["First_CF".to_string(), "Second_CF".to_string()],
    );

    let db_cf_1 =
        DBMap::<i32, String>::reopen(&rocks, Some("First_CF")).expect("Failed to open storage");
    let keys_vals_1: Vec<(i32, String)> = (1..100).map(|i| (i, i.to_string())).collect();

    let db_cf_2 =
        DBMap::<i32, String>::reopen(&rocks, Some("Second_CF")).expect("Failed to open storage");
    let keys_vals_2: Vec<(i32, String)> = (1000..1100).map(|i| (i, i.to_string())).collect();

    let mut batch = db_cf_1.batch();
    batch
        .insert_batch(&db_cf_1, &keys_vals_1)
        .expect("Failed to batch insert");
    batch
        .insert_batch(&db_cf_2, &keys_vals_2)
        .expect("Failed to batch insert");

    batch.write(&mut rocks).expect("Failed to execute batch");
    for (k, v) in keys_vals_1 {
        let val = db_cf_1
            .get(&rocks, &k)
            .expect("Failed to get inserted key");
        assert_eq!(Some(v), val);
    }

    for (k, v) in keys_vals_2 {
        let val = db_cf_2
            .get(&rocks, &k)
            .expect("Failed to get inserted key");
        assert_eq!(Some(v), val);
    }
}

#[test]
fn test_insert_batch_across_different_db() {
    let rocks = open_rocksdb(
        "test_across_db_first".to_string(),
        vec!["First_CF".to_string(), "Second_CF".to_string()],
    );
    let rocks2 = open_rocksdb(
        "test_across_db_second".to_string(),
        vec!["First_CF".to_string(), "Second_CF".to_string()],
    );

    let db_cf_1: DBMap<i32, String> =
        DBMap::reopen(&rocks, Some("First_CF")).expect("Failed to open storage");
    let keys_vals_1: Vec<(i32, String)> = (1..100).map(|i| (i, i.to_string())).collect();

    let db_cf_2: DBMap<i32, String> =
        DBMap::reopen(&rocks2, Some("Second_CF")).expect("Failed to open storage");
    let keys_vals_2: Vec<(i32, String)> = (1000..1100).map(|i| (i, i.to_string())).collect();

    let mut batch = db_cf_1.batch();
    batch
        .insert_batch(&db_cf_1, &keys_vals_1)
        .expect("Failed to batch insert");
    assert!(batch.insert_batch(&db_cf_2, &keys_vals_2).is_err());
}

#[test]
fn test_cross_store_staging_leaves_no_effect() {
    // The cross-store rejection comes at stage time, and the failed call
    // leaves neither the batch nor any store changed.
    let mut rocks = open_rocksdb("test_stage_fail_first".to_string(), vec!["cf".to_string()]);
    let rocks2 = open_rocksdb("test_stage_fail_second".to_string(), vec!["cf".to_string()]);
    let db1: DBMap<u32, String> = DBMap::reopen(&rocks, Some("cf")).expect("open");
    let db2: DBMap<u32, String> = DBMap::reopen(&rocks2, Some("cf")).expect("open");

    let mut batch: DBBatch = db1.batch();
    batch
        .insert_batch(&db1, &vec![(7, "seven".to_string())])
        .expect("same-store staging succeeds");
    let err = batch
        .delete_batch(&db2, &vec![7u32])
        .expect_err("cross-store staging must fail");
    assert!(matches!(err, TypedStoreError::CrossStoreBatchError));
    let err = batch
        .insert_batch(&db2, &vec![(9, "nine".to_string())])
        .expect_err("cross-store staging must fail");
    assert!(matches!(err, TypedStoreError::CrossStoreBatchError));

    // the batch still commits what was staged before the failure, and
    // the foreign store shows nothing
    batch.write(&mut rocks).expect("Failed to execute batch");
    assert_eq!(
        db1.get(&rocks, &7).expect("get"),
        Some("seven".to_string())
    );
    assert_eq!(db2.get(&rocks2, &7).expect("get"), None);
    assert_eq!(db2.get(&rocks2, &9).expect("get"), None);
}

#[test]
fn test_delete_batch() {
    let (mut store, db) = open_map::<i32, String>("test_delete_batch_db".to_string(), None);

    let keys_vals: Vec<(i32, String)> = (1..100).map(|i| (i, i.to_string())).collect();
    let mut batch = db.batch();
    batch
        .insert_batch(&db, &keys_vals)
        .expect("Failed to batch insert");

    // delete the odd-index keys
    let deletion_keys: Vec<i32> = (1..100).step_by(2).collect();
    batch
        .delete_batch(&db, &deletion_keys)
        .expect("Failed to batch delete");

    batch.write(&mut store).expect("Failed to execute batch");

    let mut iter = get_iter(&db, &store);
    for (k, _) in collect_iter(&mut iter) {
        assert_eq!(k % 2, 0);
    }
}

#[test]
fn test_delete_range() {
    let (mut store, db) = open_map::<i32, String>("test_delete_range_db".to_string(), None);

    // Note that the last element is (100, "100".to_owned()) here
    let keys_vals: Vec<(i32, String)> = (0..101).map(|i| (i, i.to_string())).collect();
    let mut batch = db.batch();
    batch
        .insert_batch(&db, &keys_vals)
        .expect("Failed to batch insert");

    batch
        .schedule_delete_range(&db, &50, &100)
        .expect("Failed to delete range");

    batch.write(&mut store).expect("Failed to execute batch");

    for k in 0..50 {
        assert!(db.contains_key(&store, &k).expect("Failed to query legal key"));
    }
    for k in 50..100 {
        assert!(!db.contains_key(&store, &k).expect("Failed to query legal key"));
    }

    // range operator is not inclusive of to
    assert!(db.contains_key(&store, &100).expect("Failed to query legal key"));
}

#[test]
fn test_clear() {
    let (mut store, db) = open_map::<i32, String>("test_clear_db".to_string(), Some("table"));
    // Test clear of empty map
    let _ = db.unsafe_clear(&mut store);

    let keys_vals: Vec<(i32, String)> = (0..101).map(|i| (i, i.to_string())).collect();
    let mut insert_batch = db.batch();
    insert_batch
        .insert_batch(&db, &keys_vals)
        .expect("Failed to batch insert");

    insert_batch
        .write(&mut store)
        .expect("Failed to execute batch");

    // Check we have multiple entries
    assert!(collect_iter(&mut get_iter(&db, &store)).len() > 1);
    let _ = db.unsafe_clear(&mut store);
    assert_eq!(collect_iter(&mut get_iter(&db, &store)).len(), 0);
    // Clear again to ensure safety when clearing empty map
    let _ = db.unsafe_clear(&mut store);
    assert_eq!(collect_iter(&mut get_iter(&db, &store)).len(), 0);
    // Clear with one item
    let _ = db.insert(&mut store, &1, &"e".to_string());
    assert_eq!(collect_iter(&mut get_iter(&db, &store)).len(), 1);
    let _ = db.unsafe_clear(&mut store);
    assert_eq!(collect_iter(&mut get_iter(&db, &store)).len(), 0);
}

#[test]
fn test_is_empty() {
    let (mut store, db) = open_map::<i32, String>("test_is_empty_db".to_string(), Some("table"));

    // Test empty map is truly empty
    assert!(db.is_empty(&store));
    let _ = db.unsafe_clear(&mut store);
    assert!(db.is_empty(&store));

    let keys_vals: Vec<(i32, String)> = (0..101).map(|i| (i, i.to_string())).collect();
    let mut insert_batch = db.batch();
    insert_batch
        .insert_batch(&db, &keys_vals)
        .expect("Failed to batch insert");

    insert_batch
        .write(&mut store)
        .expect("Failed to execute batch");

    // Check we have multiple entries and not empty
    assert!(collect_iter(&mut get_iter(&db, &store)).len() > 1);
    assert!(!db.is_empty(&store));

    // Clear again to ensure empty works after clearing
    let _ = db.unsafe_clear(&mut store);
    assert_eq!(collect_iter(&mut get_iter(&db, &store)).len(), 0);
    assert!(db.is_empty(&store));
}

#[test]
fn test_multi_insert() {
    // Init a DB
    let (mut store, db) =
        open_map::<i32, String>("test_multi_insert_db".to_string(), Some("table"));
    // Create kv pairs
    let keys_vals: Vec<(i32, String)> = (0..101).map(|i| (i, i.to_string())).collect();

    db.multi_insert(&mut store, &keys_vals)
        .expect("Failed to multi-insert");

    for (k, v) in keys_vals {
        let val = db.get(&store, &k).expect("Failed to get inserted key");
        assert_eq!(Some(v), val);
    }
}

#[test]
fn test_checkpoint() {
    let (mut store, db) = open_map::<i32, String>("test_checkpoint_db".to_string(), Some("table"));
    // Create kv pairs
    let keys_vals: Vec<(i32, String)> = (0..101).map(|i| (i, i.to_string())).collect();

    db.multi_insert(&mut store, &keys_vals)
        .expect("Failed to multi-insert");
    let checkpointed: Store = store.checkpoint("test_checkpoint_copy".to_string());
    // Create more kv pairs
    let new_keys_vals: Vec<(i32, String)> = (101..201).map(|i| (i, i.to_string())).collect();
    db.multi_insert(&mut store, &new_keys_vals)
        .expect("Failed to multi-insert");
    // Verify checkpoint
    let checkpointed_db: DBMap<i32, String> =
        DBMap::reopen(&checkpointed, Some("table")).expect("Failed to create db checkpoint");
    // Ensure keys inserted before checkpoint are present in original and checkpointed db
    for (k, v) in keys_vals {
        let val = db.get(&store, &k).expect("Failed to get inserted key");
        assert_eq!(Some(v.clone()), val);
        let val = checkpointed_db
            .get(&checkpointed, &k)
            .expect("Failed to get inserted key");
        assert_eq!(Some(v), val);
    }
    // Ensure keys inserted after checkpoint are only present in original db but not
    // in checkpointed db
    for (k, v) in new_keys_vals {
        let val = db.get(&store, &k).expect("Failed to get inserted key");
        assert_eq!(Some(v.clone()), val);
        let val = checkpointed_db
            .get(&checkpointed, &k)
            .expect("Failed to get inserted key");
        assert_eq!(None, val);
    }
}

#[test]
fn test_multi_remove() {
    // Init a DB
    let (mut store, db) =
        open_map::<i32, String>("test_multi_remove_db".to_string(), Some("table"));

    // Create kv pairs
    let keys_vals: Vec<(i32, String)> = (0..101).map(|i| (i, i.to_string())).collect();

    db.multi_insert(&mut store, &keys_vals)
        .expect("Failed to multi-insert");

    // Check insertion
    for (k, v) in keys_vals.clone() {
        let val = db.get(&store, &k).expect("Failed to get inserted key");
        assert_eq!(Some(v), val);
    }

    // Remove 50 items
    let to_remove: Vec<i32> = keys_vals.iter().map(|kv| kv.0).take(50).collect();
    db.multi_remove(&mut store, &to_remove)
        .expect("Failed to multi-remove");
    assert_eq!(collect_iter(&mut get_iter(&db, &store)).len(), 101 - 50);

    // Check that the remaining are present
    for (k, v) in keys_vals.into_iter().skip(50) {
        let val = db.get(&store, &k).expect("Failed to get inserted key");
        assert_eq!(Some(v), val);
    }
}
