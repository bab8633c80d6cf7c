//! Bounded forward and reverse iteration, seeks, and the iterator state
//! machine.

use typed_store::codec::KeyCodec;
use typed_store::codec::ValueCodec;
use typed_store::iter::get_iter;
use typed_store::iter::get_iter_with_bounds;
use typed_store::iter::get_range_iter;
use typed_store::iter::get_reverse_iter;
use typed_store::iter::KeyBound;
use typed_store::iter::KeyRange;
use typed_store::iter::SafeIter;
use typed_store::map::open_map;
use typed_store::TypedStoreError;

fn drain<K, V>(it: &mut SafeIter<K, V>) -> Vec<(K, V)>
where
    K: KeyCodec,
    V: ValueCodec,
{
    let mut out = Vec::new();
    while let Some(item) = it.next() {
        match item {
            Ok(kv) => out.push(kv),
            Err(_) => panic!("decode failed"),
        }
    }
    out
}

#[test]
fn test_skip() {
    let (mut store, db) = open_map::<u32, String>("test_skip_db".to_string(), None);

    db.insert(&mut store, &123, &"123".to_string())
        .expect("Failed to insert");
    db.insert(&mut store, &456, &"456".to_string())
        .expect("Failed to insert");
    db.insert(&mut store, &789, &"789".to_string())
        .expect("Failed to insert");

    // Skip all smaller
    let key_vals = drain(&mut get_iter_with_bounds(&db, &store, Some(&456), None));
    assert_eq!(key_vals.len(), 2);
    assert_eq!(key_vals[0], (456, "456".to_string()));
    assert_eq!(key_vals[1], (789, "789".to_string()));

    // Skip to the end
    assert_eq!(
        drain(&mut get_iter_with_bounds(&db, &store, Some(&999), None)).len(),
        0
    );

    // Skip to last
    assert_eq!(
        get_reverse_iter(&db, &store, None, None).next(),
        Some(Ok((789, "789".to_string()))),
    );

    // Skip to successor of first value
    assert_eq!(
        drain(&mut get_iter_with_bounds(&db, &store, Some(&000), None)).len(),
        3
    );
    assert_eq!(
        drain(&mut get_iter_with_bounds(&db, &store, Some(&000), None)).len(),
        3
    );
}

#[test]
fn test_reverse_iter_with_bounds() {
    let (mut store, db) = open_map::<u32, String>("test_rev_bounds_db".to_string(), None);
    db.insert(&mut store, &123, &"123".to_string())
        .expect("Failed to insert");
    db.insert(&mut store, &456, &"456".to_string())
        .expect("Failed to insert");
    db.insert(&mut store, &789, &"789".to_string())
        .expect("Failed to insert");

    let mut iter = get_reverse_iter(&db, &store, None, Some(&999));
    assert_eq!(iter.next().unwrap(), Ok((789, "789".to_string())));

    db.insert(&mut store, &999, &"999".to_string())
        .expect("Failed to insert");
    // the upper bound is exclusive, so 999 itself stays outside
    let mut iter = get_reverse_iter(&db, &store, None, Some(&999));
    assert_eq!(iter.next().unwrap(), Ok((789, "789".to_string())));

    let mut iter = get_reverse_iter(&db, &store, None, None);
    assert_eq!(iter.next().unwrap(), Ok((999, "999".to_string())));
}

#[test]
fn test_iter() {
    let (mut store, db) = open_map::<u32, String>("test_iter_db".to_string(), None);
    db.insert(&mut store, &123456789, &"123456789".to_string())
        .expect("Failed to insert");
    db.insert(&mut store, &987654321, &"987654321".to_string())
        .expect("Failed to insert");

    let mut iter = get_iter(&db, &store);

    assert_eq!(
        Some(Ok((123456789, "123456789".to_string()))),
        iter.next()
    );
    assert_eq!(
        Some(Ok((987654321, "987654321".to_string()))),
        iter.next()
    );
    assert_eq!(None, iter.next());
}

#[test]
fn test_iter_reverse() {
    let (mut store, db) = open_map::<u32, String>("test_iter_reverse_db".to_string(), None);

    db.insert(&mut store, &1, &"1".to_string())
        .expect("Failed to insert");
    db.insert(&mut store, &2, &"2".to_string())
        .expect("Failed to insert");
    db.insert(&mut store, &3, &"3".to_string())
        .expect("Failed to insert");

    let mut iter = get_reverse_iter(&db, &store, None, None);
    assert_eq!(Some(Ok((3, "3".to_string()))), iter.next());
    assert_eq!(Some(Ok((2, "2".to_string()))), iter.next());
    assert_eq!(Some(Ok((1, "1".to_string()))), iter.next());
    assert_eq!(None, iter.next());

    let mut iter = get_iter_with_bounds(&db, &store, Some(&1), None);
    assert_eq!(Some(Ok((1, "1".to_string()))), iter.next());
    assert_eq!(Some(Ok((2, "2".to_string()))), iter.next());
}

#[test]
fn test_iter_with_bounds() {
    let (mut store, db) = open_map::<u32, String>("test_iter_bounds_db".to_string(), None);

    // Add [1, 50) and (50, 100) in the db
    for i in 1..100 {
        if i != 50 {
            db.insert(&mut store, &i, &i.to_string()).unwrap();
        }
    }

    // Tests basic bounded scan.
    let db_iter = drain(&mut get_iter_with_bounds(&db, &store, Some(&20), Some(&90)));
    assert_eq!(
        (20..50)
            .chain(51..90)
            .map(|i| (i, i.to_string()))
            .collect::<Vec<_>>(),
        db_iter
    );

    // Don't specify upper bound.
    let db_iter = drain(&mut get_iter_with_bounds(&db, &store, Some(&20), None));
    assert_eq!(
        (20..50)
            .chain(51..100)
            .map(|i| (i, i.to_string()))
            .collect::<Vec<_>>(),
        db_iter
    );

    // Don't specify lower bound.
    let db_iter = drain(&mut get_iter_with_bounds(&db, &store, None, Some(&90)));
    assert_eq!(
        (1..50)
            .chain(51..90)
            .map(|i| (i, i.to_string()))
            .collect::<Vec<_>>(),
        db_iter
    );

    // Don't specify any bounds.
    let db_iter = drain(&mut get_iter_with_bounds(&db, &store, None, None));
    assert_eq!(
        (1..50)
            .chain(51..100)
            .map(|i| (i, i.to_string()))
            .collect::<Vec<_>>(),
        db_iter
    );

    // Specify a bound outside of dataset.
    let mut db_iter = db
        .safe_iter_with_bounds(&store, Some(&200), Some(&300))
        .expect("failed to get iterator");
    assert!(drain(&mut db_iter).is_empty());

    // Skip to first key in the bound (bound is [1, 50))
    let db_iter = drain(&mut get_iter_with_bounds(&db, &store, Some(&1), Some(&50)));
    assert_eq!(
        (1..50).map(|i| (i, i.to_string())).collect::<Vec<_>>(),
        db_iter
    );
}

#[test]
fn test_range_iter() {
    let (mut store, db) = open_map::<u32, String>("test_range_iter_db".to_string(), None);

    // Add [1, 50) and (50, 100) in the db
    for i in 1..100 {
        if i != 50 {
            db.insert(&mut store, &i, &i.to_string()).unwrap();
        }
    }

    // Tests basic range iterating with inclusive end.
    let range = KeyRange { start: KeyBound::Included(10), end: KeyBound::Included(20) };
    let db_iter = drain(&mut get_range_iter(&db, &store, &range));
    assert_eq!(
        (10..21).map(|i| (i, i.to_string())).collect::<Vec<_>>(),
        db_iter
    );

    // Tests range with min start and exclusive end.
    let range = KeyRange { start: KeyBound::Unbounded, end: KeyBound::Excluded(20) };
    let db_iter = drain(&mut get_range_iter(&db, &store, &range));
    assert_eq!(
        (1..20).map(|i| (i, i.to_string())).collect::<Vec<_>>(),
        db_iter
    );

    // Tests range with max end.
    let range = KeyRange { start: KeyBound::Included(60), end: KeyBound::Unbounded };
    let db_iter = drain(&mut get_range_iter(&db, &store, &range));
    assert_eq!(
        (60..100).map(|i| (i, i.to_string())).collect::<Vec<_>>(),
        db_iter
    );

    // Skip to first key in the bound (bound is [1, 49))
    let range = KeyRange { start: KeyBound::Included(1), end: KeyBound::Excluded(49) };
    let db_iter = drain(&mut get_range_iter(&db, &store, &range));
    assert_eq!(
        (1..49).map(|i| (i, i.to_string())).collect::<Vec<_>>(),
        db_iter
    );
}

#[test]
fn test_range_iter_excluded_start() {
    let (mut store, db) = open_map::<u32, String>("test_range_excl_db".to_string(), None);
    for i in 1..10 {
        db.insert(&mut store, &i, &i.to_string()).unwrap();
    }
    let range = KeyRange { start: KeyBound::Excluded(3), end: KeyBound::Included(7) };
    let db_iter = drain(&mut get_range_iter(&db, &store, &range));
    assert_eq!(
        (4..8).map(|i| (i, i.to_string())).collect::<Vec<_>>(),
        db_iter
    );
}

#[test]
fn test_iterator_seek() {
    let (mut store, db) = open_map::<u32, String>("test_iterator_seek_db".to_string(), None);

    db.insert(&mut store, &123, &"123".to_string())
        .expect("Failed to insert");
    db.insert(&mut store, &456, &"456".to_string())
        .expect("Failed to insert");
    db.insert(&mut store, &789, &"789".to_string())
        .expect("Failed to insert");

    let mut iter = get_iter(&db, &store);

    assert!(matches!(
        iter.key().unwrap_err(),
        TypedStoreError::IteratorNotInitialized
    ));

    iter.seek(&0).unwrap();
    assert_eq!(iter.key().unwrap(), Some(123));
    assert_eq!(
        drain(&mut iter),
        vec![
            (123, "123".to_string()),
            (456, "456".to_string()),
            (789, "789".to_string())
        ]
    );

    iter.seek(&123).unwrap();
    assert_eq!(iter.key().unwrap(), Some(123));

    iter.seek(&234).unwrap();
    assert_eq!(iter.key().unwrap(), Some(456));
    assert_eq!(
        drain(&mut iter),
        vec![(456, "456".to_string()), (789, "789".to_string())]
    );
    assert_eq!(iter.key().unwrap(), None);

    iter.seek(&567).unwrap();
    assert_eq!(iter.key().unwrap(), Some(789));

    iter.seek_to_prev(&234).unwrap();
    assert_eq!(iter.key().unwrap(), Some(123));

    iter.seek_to_prev(&123).unwrap();
    assert_eq!(iter.key().unwrap(), Some(123));

    iter.seek_to_prev(&122).unwrap();
    assert_eq!(iter.key().unwrap(), None);

    iter.seek(&789).unwrap();
    assert_eq!(iter.key().unwrap(), Some(789));

    iter.seek(&890).unwrap();
    assert_eq!(iter.key().unwrap(), None);

    iter.seek_to_last();
    assert_eq!(iter.key().unwrap(), Some(789));

    iter.seek_to_first();
    assert_eq!(iter.key().unwrap(), Some(123));

    iter.seek_to_last();
    assert_eq!(iter.key().unwrap(), Some(789));
}

#[test]
fn test_iter_decode_error_surfaces() {
    // A partition written through one typing and read through another
    // surfaces a decode error per entry, instead of panicking or
    // silently skipping the entry.
    let (mut store, db) = open_map::<u8, u8>("test_decode_err_db".to_string(), Some("t"));
    db.insert(&mut store, &1, &7).expect("Failed to insert");

    let wide: typed_store::map::DBMap<u32, String> =
        typed_store::map::DBMap::reopen(&store, Some("t")).expect("Failed to re-open storage");
    let mut iter = get_iter(&wide, &store);
    match iter.next() {
        Some(Err(TypedStoreError::DecodeError)) => {}
        other => panic!("expected a decode error, got {:?}", other),
    }
    assert_eq!(iter.next(), None);

    // a one-byte key cannot be a u32 key either
    match wide.get(&store, &0x01000000) {
        Ok(None) => {}
        other => panic!("expected no entry under the wide key, got {:?}", other),
    }
}
