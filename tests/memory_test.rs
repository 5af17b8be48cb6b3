use versedb::database::{Database, DbError};
use versedb::memory::MemoryDatabase;
use versedb::order::{compare_bytes, Cmp};

fn open() -> MemoryDatabase {
    MemoryDatabase::open("").unwrap()
}

fn pair(k: &str, v: &str) -> (Vec<u8>, Vec<u8>) {
    (k.as_bytes().to_vec(), v.as_bytes().to_vec())
}

#[test]
fn test_memory_database() {
    let mut db = open();

    db.add("key1".as_bytes(), "value1".as_bytes()).unwrap();
    db.add("key2".as_bytes(), "value2".as_bytes()).unwrap();
    db.add("key3".as_bytes(), "value3".as_bytes()).unwrap();

    assert_eq!(
        db.select("key1".as_bytes()).unwrap(),
        Some("value1".as_bytes().to_vec())
    );
    assert_eq!(
        db.select("key2".as_bytes()).unwrap(),
        Some("value2".as_bytes().to_vec())
    );
    assert_eq!(db.select("nonexistent".as_bytes()).unwrap(), None);

    let range = db
        .select_range("key1".as_bytes(), "key3".as_bytes())
        .unwrap();
    assert_eq!(range.len(), 2);
    assert!(range.contains(&("key1".as_bytes().to_vec(), "value1".as_bytes().to_vec())));
    assert!(range.contains(&("key2".as_bytes().to_vec(), "value2".as_bytes().to_vec())));

    db.remove("key1".as_bytes()).unwrap();
    assert_eq!(db.select("key1".as_bytes()).unwrap(), None);
}

#[test]
fn test_memory_database_remove_range() {
    let mut db = open();
    let entries = vec![
        ("key1", "value1"),
        ("key2", "value2"),
        ("key3", "value3"),
        ("key4", "value4"),
        ("key5", "value5"),
    ];
    for (key, value) in &entries {
        db.add(key.as_bytes(), value.as_bytes()).unwrap();
    }

    let removed = db
        .remove_range("key2".as_bytes(), "key4".as_bytes())
        .unwrap();
    assert_eq!(removed.len(), 2);
    assert!(removed.contains(&("key2".as_bytes().to_vec(), "value2".as_bytes().to_vec())));
    assert!(removed.contains(&("key3".as_bytes().to_vec(), "value3".as_bytes().to_vec())));

    let remaining = db
        .select_range("key1".as_bytes(), "key6".as_bytes())
        .unwrap();
    assert_eq!(remaining.len(), 3);
    assert!(remaining.contains(&("key1".as_bytes().to_vec(), "value1".as_bytes().to_vec())));
    assert!(remaining.contains(&("key4".as_bytes().to_vec(), "value4".as_bytes().to_vec())));
    assert!(remaining.contains(&("key5".as_bytes().to_vec(), "value5".as_bytes().to_vec())));
}

#[test]
fn test_memory_database_clone() {
    let mut db = open();
    db.add("key1".as_bytes(), "value1".as_bytes()).unwrap();
    db.add("key2".as_bytes(), "value2".as_bytes()).unwrap();

    let db_clone = db.clone();
    assert_eq!(
        db_clone.select("key1".as_bytes()).unwrap(),
        Some("value1".as_bytes().to_vec())
    );
    assert_eq!(
        db_clone.select("key2".as_bytes()).unwrap(),
        Some("value2".as_bytes().to_vec())
    );

    db.remove("key1".as_bytes()).unwrap();
    assert_eq!(
        db_clone.select("key1".as_bytes()).unwrap(),
        Some("value1".as_bytes().to_vec())
    );
}

#[test]
fn add_then_select_returns_value() {
    let mut db = open();
    db.add(b"k", b"old").unwrap();
    db.add(b"k", b"new").unwrap();
    assert_eq!(db.select(b"k").unwrap(), Some(b"new".to_vec()));
    db.add(b"", b"empty key").unwrap();
    assert_eq!(db.select(b"").unwrap(), Some(b"empty key".to_vec()));
}

#[test]
fn remove_then_select_is_absent() {
    let mut db = open();
    db.remove(b"never").unwrap();
    assert_eq!(db.select(b"never").unwrap(), None);
    db.add(b"a", b"1").unwrap();
    db.add(b"b", b"2").unwrap();
    db.remove(b"a").unwrap();
    assert_eq!(db.select(b"a").unwrap(), None);
    assert_eq!(db.select(b"b").unwrap(), Some(b"2".to_vec()));
}

#[test]
fn select_range_is_bounded_and_ascending() {
    let mut db = open();
    for k in ["m", "c", "zz", "a", "mm", "b", "z"] {
        db.add(k.as_bytes(), b"v").unwrap();
    }
    let r = db.select_range(b"b", b"z").unwrap();
    let keys: Vec<Vec<u8>> = r.iter().map(|(k, _)| k.clone()).collect();
    assert_eq!(
        keys,
        vec![b"b".to_vec(), b"c".to_vec(), b"m".to_vec(), b"mm".to_vec()]
    );
    for w in keys.windows(2) {
        assert!(w[0] < w[1]);
    }
}

#[test]
fn select_range_uses_unsigned_byte_order() {
    let mut db = open();
    db.add(&[0xffu8], b"high").unwrap();
    db.add(&[0x01u8], b"low").unwrap();
    db.add(&[0x7fu8, 0x00u8], b"mid").unwrap();
    db.add(&[0x7fu8], b"prefix").unwrap();
    let r = db.select_range(&[0x00u8], &[0xffu8, 0x00u8]).unwrap();
    let keys: Vec<Vec<u8>> = r.into_iter().map(|(k, _)| k).collect();
    assert_eq!(
        keys,
        vec![vec![0x01u8], vec![0x7fu8], vec![0x7fu8, 0x00u8], vec![0xffu8]]
    );
}

#[test]
fn remove_range_returns_prior_selection_and_empties_interval() {
    let mut db = open();
    for i in 0..10u8 {
        db.add(format!("key_{:02}", i).as_bytes(), format!("value_{}", i).as_bytes())
            .unwrap();
    }
    let before = db.select_range(b"key_03", b"key_07").unwrap();
    assert_eq!(before.len(), 4);
    let removed = db.remove_range(b"key_03", b"key_07").unwrap();
    assert_eq!(removed, before);
    assert_eq!(db.select_range(b"key_03", b"key_07").unwrap(), vec![]);
    for i in [0u8, 1, 2, 7, 8, 9] {
        assert_eq!(
            db.select(format!("key_{:02}", i).as_bytes()).unwrap(),
            Some(format!("value_{}", i).into_bytes())
        );
    }
}

#[test]
fn add_twice_equals_add_once() {
    let mut once = open();
    once.add(b"x", b"1").unwrap();
    once.add(b"k", b"v").unwrap();
    let mut twice = open();
    twice.add(b"x", b"1").unwrap();
    twice.add(b"k", b"v").unwrap();
    twice.add(b"k", b"v").unwrap();
    assert_eq!(
        once.select_range(b"", b"\xff").unwrap(),
        twice.select_range(b"", b"\xff").unwrap()
    );
}

#[test]
fn scenario_three_keys_range_and_removal() {
    let mut db = open();
    db.add(b"a", b"1").unwrap();
    db.add(b"b", b"2").unwrap();
    db.add(b"c", b"3").unwrap();
    let expected = vec![pair("a", "1"), pair("b", "2")];
    assert_eq!(db.select_range(b"a", b"c").unwrap(), expected);
    assert_eq!(db.remove_range(b"a", b"c").unwrap(), expected);
    assert_eq!(db.select_range(b"a", b"c").unwrap(), vec![]);
    assert_eq!(db.select(b"c").unwrap(), Some(b"3".to_vec()));
}

#[test]
fn empty_and_inverted_intervals_list_nothing() {
    let mut db = open();
    db.add(b"a", b"1").unwrap();
    db.add(b"b", b"2").unwrap();
    assert_eq!(db.select_range(b"a", b"a").unwrap(), vec![]);
    assert_eq!(db.select_range(b"b", b"a").unwrap(), vec![]);
    assert_eq!(db.remove_range(b"b", b"a").unwrap(), vec![]);
    assert_eq!(db.select(b"a").unwrap(), Some(b"1".to_vec()));
}

#[test]
fn select_missing_on_empty_store() {
    let db = open();
    assert_eq!(db.select(b"missing").unwrap(), None);
    assert_eq!(db.select_range(b"", b"\xff").unwrap(), vec![]);
}

#[test]
fn close_and_flush_keep_contents() {
    let mut db = open();
    db.add(b"a", b"1").unwrap();
    db.flush().unwrap();
    db.close().unwrap();
    assert_eq!(db.select(b"a").unwrap(), Some(b"1".to_vec()));
}

#[test]
fn large_values_round_trip() {
    let mut db = open();
    let big = vec![7u8; 1024 * 1024];
    db.add(b"large_key", &big).unwrap();
    assert_eq!(db.select(b"large_key").unwrap(), Some(big));
}

#[test]
fn compare_bytes_orders_by_unsigned_bytes() {
    assert_eq!(compare_bytes(b"a", b"b"), Cmp::Less);
    assert_eq!(compare_bytes(b"ab", b"a"), Cmp::Greater);
    assert_eq!(compare_bytes(b"", b""), Cmp::Equal);
    assert_eq!(compare_bytes(&[0x80u8], &[0x7fu8]), Cmp::Greater);
    assert_eq!(compare_bytes(b"abc", b"abd"), Cmp::Less);
}

#[test]
fn db_error_keeps_message() {
    let e = DbError::new("disk full".to_string());
    assert_eq!(e.to_string(), "disk full");
}
