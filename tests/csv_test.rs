use versedb::csv::{csv_add, csv_storable, load_csv, parse_csv, render_csv};
use versedb::database::Database;
use versedb::memory::MemoryDatabase;

fn pair(k: &str, v: &str) -> (Vec<u8>, Vec<u8>) {
    (k.as_bytes().to_vec(), v.as_bytes().to_vec())
}

#[test]
fn parse_keeps_lines_with_one_comma() {
    let text = b"key1,value1\nbad line\nkey2,value2\r\na,b,c\n,empty key\nlast,";
    assert_eq!(
        parse_csv(text),
        vec![
            pair("key1", "value1"),
            pair("key2", "value2"),
            pair("", "empty key"),
            pair("last", ""),
        ]
    );
    assert_eq!(parse_csv(b""), vec![]);
    assert_eq!(parse_csv(b"\n\n"), vec![]);
}

#[test]
fn render_writes_one_line_per_entry_in_key_order() {
    let mut db = MemoryDatabase::new();
    db.add(b"key2", b"value2").unwrap();
    db.add(b"key1", b"value1").unwrap();
    assert_eq!(render_csv(&db), b"key1,value1\nkey2,value2\n".to_vec());
    assert_eq!(render_csv(&MemoryDatabase::new()), Vec::<u8>::new());
}

#[test]
fn load_lets_later_lines_win() {
    let db = load_csv(b"k,first\nother,x\nk,second\n");
    assert_eq!(db.select(b"k").unwrap(), Some(b"second".to_vec()));
    assert_eq!(db.select(b"other").unwrap(), Some(b"x".to_vec()));
    assert_eq!(db.select(b"missing").unwrap(), None);
}

#[test]
fn test_csv_database_remove_range() {
    let mut db = load_csv(b"");
    for (key, value) in [
        ("key1", "value1"),
        ("key2", "value2"),
        ("key3", "value3"),
        ("key4", "value4"),
        ("key5", "value5"),
    ] {
        db.add(key.as_bytes(), value.as_bytes()).unwrap();
    }
    let removed = db.remove_range(b"key2", b"key4").unwrap();
    assert_eq!(removed, vec![pair("key2", "value2"), pair("key3", "value3")]);
    let reloaded = load_csv(&render_csv(&db));
    assert_eq!(
        reloaded.select_range(b"key1", b"key6").unwrap(),
        vec![pair("key1", "value1"), pair("key4", "value4"), pair("key5", "value5")]
    );
}

#[test]
fn text_round_trip_keeps_contents() {
    let mut db = MemoryDatabase::new();
    db.add(b"key1", b"value1").unwrap();
    db.add(b"key2", b"value2").unwrap();
    db.add(b"key3", b"value3").unwrap();
    let reloaded = load_csv(&render_csv(&db));
    assert_eq!(reloaded.entries(), db.entries());
    assert_eq!(reloaded.select(b"key2").unwrap(), Some(b"value2".to_vec()));
}

#[test]
fn storable_refuses_entries_that_cannot_read_back() {
    assert!(csv_storable(b"key", b"value"));
    assert!(csv_storable(b"", b""));
    assert!(!csv_storable(b"a,b", b"c"));
    assert!(!csv_storable(b"a", b"line\nbreak"));
    assert!(!csv_storable(b"a", b"ends\r"));
    assert!(csv_storable(b"a", b"in\rside"));
}

#[test]
fn csv_add_refuses_unclean_entries_and_keeps_contents() {
    let mut db = MemoryDatabase::new();
    csv_add(&mut db, b"k", b"v").unwrap();
    let err = csv_add(&mut db, b"a,b", b"c").unwrap_err();
    assert_eq!(err.to_string(), "entry holds a comma or a line break");
    assert_eq!(db.select(b"a,b").unwrap(), None);
    let reloaded = load_csv(&render_csv(&db));
    assert_eq!(reloaded.entries(), db.entries());
}

#[test]
fn lines_whose_value_ends_in_cr_hold_no_entry() {
    assert_eq!(parse_csv(b"a,b\r\r\nc,d\r\n"), vec![pair("c", "d")]);
}
