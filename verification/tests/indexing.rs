use bufdb::database::PrimaryDatabase;
use bufdb::database::ValueKeyCreator;
use bufdb::entry::BufferEntry;

fn entry(bytes: &[u8]) -> BufferEntry {
    BufferEntry::from_vec(bytes.to_vec())
}

fn db_with(pairs: &[(&[u8], &[u8])]) -> PrimaryDatabase<ValueKeyCreator> {
    let mut db: PrimaryDatabase<ValueKeyCreator> = PrimaryDatabase::new("T", false, false);
    for (k, v) in pairs {
        db.put(&entry(k), &entry(v)).unwrap();
    }
    db
}

#[test]
fn test_non_unique_index_duplicates() {
    let mut db = db_with(&[(b"a", b"1"), (b"b", b"1"), (b"c", b"2")]);
    db.create_secondary("IDX", false, ValueKeyCreator).unwrap();

    // Backfill: two entries with prefix "1" and one with prefix "2".
    assert_eq!(3, db.secondary_count(0).unwrap());

    {
        let mut cursor = db.open_idx_cursor(0).unwrap();
        let first = cursor.s_search(&entry(b"1")).unwrap().unwrap();
        assert_eq!(b"1", first.skey.slice());
        // Highest ordinal first: the record stored second comes first.
        assert_eq!(b"b", first.pkey.slice());
        assert_eq!(b"1", first.data.slice());

        let second = cursor.s_next_dup().unwrap().unwrap();
        assert_eq!(b"a", second.pkey.slice());

        assert!(cursor.s_next_dup().unwrap().is_none());
    }

    // Deleting primary "a" removes exactly the index entry that stores "a".
    db.delete(&entry(b"a")).unwrap();
    assert_eq!(2, db.secondary_count(0).unwrap());

    {
        let mut cursor = db.open_idx_cursor(0).unwrap();
        let first = cursor.s_search(&entry(b"1")).unwrap().unwrap();
        assert_eq!(b"b", first.pkey.slice());
        assert!(cursor.s_next_dup().unwrap().is_none());
    }
}

#[test]
fn test_unique_index_order() {
    let mut db = db_with(&[(b"k1", b"x3"), (b"k2", b"x1"), (b"k3", b"x2")]);
    db.create_secondary("U", true, ValueKeyCreator).unwrap();
    assert_eq!(3, db.secondary_count(0).unwrap());

    // The index cursor yields primary records in index-key order.
    let mut cursor = db.open_idx_cursor(0).unwrap();
    let mut seen: Vec<(Vec<u8>, Vec<u8>)> = Vec::new();
    while let Some(rec) = cursor.s_next().unwrap() {
        seen.push((rec.skey.slice().to_vec(), rec.pkey.slice().to_vec()));
    }
    assert_eq!(
        vec![
            (b"x1".to_vec(), b"k2".to_vec()),
            (b"x2".to_vec(), b"k3".to_vec()),
            (b"x3".to_vec(), b"k1".to_vec()),
        ],
        seen
    );
}

#[test]
fn test_index_follows_updates() {
    let mut db = db_with(&[(b"a", b"1")]);
    db.create_secondary("IDX", false, ValueKeyCreator).unwrap();
    assert_eq!(1, db.secondary_count(0).unwrap());

    // Updating the record's value retracts the old index entry and adds a
    // fresh one.
    db.put(&entry(b"a"), &entry(b"9")).unwrap();
    assert_eq!(1, db.secondary_count(0).unwrap());

    let mut cursor = db.open_idx_cursor(0).unwrap();
    assert!(cursor.s_search(&entry(b"1")).unwrap().is_none());
    let mut cursor = db.open_idx_cursor(0).unwrap();
    let hit = cursor.s_search(&entry(b"9")).unwrap().unwrap();
    assert_eq!(b"a", hit.pkey.slice());
}

#[test]
fn test_primary_cursor() {
    let db = db_with(&[(b"b", b"2"), (b"a", b"1"), (b"c", b"3")]);
    let mut cursor = db.open_cursor().unwrap();

    let found = cursor.search(&entry(b"b")).unwrap().unwrap();
    assert_eq!(b"2", found.slice());

    let mut cursor = db.open_cursor().unwrap();
    assert!(cursor.search(&entry(b"x")).unwrap().is_none());

    let mut cursor = db.open_cursor().unwrap();
    let (k, v) = cursor.next().unwrap().unwrap();
    assert_eq!(b"a", k.slice());
    assert_eq!(b"1", v.slice());

    let (k, _) = cursor.skip(2).unwrap().unwrap();
    assert_eq!(b"c", k.slice());
    assert!(cursor.next().unwrap().is_none());
    assert!(cursor.next_dup().unwrap().is_none());
}

#[test]
fn test_delete_exist() {
    let mut db = db_with(&[(b"a", b"1")]);
    assert!(db.delete_exist(&entry(b"a")).unwrap());
    assert!(!db.delete_exist(&entry(b"a")).unwrap());
    assert_eq!(0, db.count().unwrap());
}

#[test]
fn test_idx_cursor_skip_and_range() {
    let mut db = db_with(&[(b"a", b"1"), (b"b", b"2"), (b"c", b"3")]);
    db.create_secondary("U", true, ValueKeyCreator).unwrap();

    let mut cursor = db.open_idx_cursor(0).unwrap();
    let rec = cursor.s_skip(2).unwrap().unwrap();
    assert_eq!(b"2", rec.skey.slice());
    assert!(cursor.s_skip(2).unwrap().is_none());

    // A range search consumes the entry after the seek point.
    let mut cursor = db.open_idx_cursor(0).unwrap();
    let rec = cursor.s_search_range(&entry(b"2")).unwrap().unwrap();
    assert_eq!(b"2", rec.skey.slice());
    let rec = cursor.s_next().unwrap().unwrap();
    assert_eq!(b"3", rec.skey.slice());
}
