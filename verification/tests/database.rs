use kvstore::database::Database;
use kvstore::kvstore::KvError;

#[test]
fn db_new() {
    // an empty file, as a freshly created database presents it
    let db = Database::new("test.db", "");
    assert!(db.is_ok());
    // a file with valid contents
    let db = Database::new("test.db", "hello\tworld\n");
    assert!(db.is_ok());
    // a file with invalid format
    let db = Database::new("test.db", &format!("hello world\ngo gators\n"));
    assert!(db.is_err());
}

#[test]
fn db_edit() {
    let mut db = Database::new("test1.db", "").unwrap();
    // create new key-value pair
    db.edit("hello", "world", false);
    assert_eq!(db.view("hello"), Some(&"world".to_owned()));
    // overwrite existing key-value pair
    db.edit("hello", "earth", false);
    // add another key-value pair
    db.edit("bonjour", "venus", false);
    assert_eq!(db.view("hello"), Some(&"earth".to_owned()));
    assert_eq!(db.view("bonjour"), Some(&"venus".to_owned()));
}

#[test]
fn db_read() {
    let mut db = Database::new("test2.db", "").unwrap();
    // create new key-value pair
    db.edit("hello", "earth", false);
    db.edit("bonjour", "venus", false);

    // existing keys
    let r = db.view("hello");
    assert_eq!(r, Some(&"earth".to_owned()));
    let r = db.view("bonjour");
    assert_eq!(r, Some(&"venus".to_owned()));
    // non-existent key
    let r = db.view("konnichiwa");
    assert_eq!(r, None);
}

#[test]
fn db_save() {
    let mut db = Database::new("test3.db", "").unwrap();
    // create new key-value pair
    db.edit("hello", "earth", false);
    db.edit("bonjour", "venus", false);
    assert_eq!(db.serialize(), "hello\tearth\nbonjour\tvenus\n");
}

#[test]
fn db_reload_session() {
    let mut db = Database::new("test4.db", "").unwrap();
    // create new key-value pair
    db.edit("hello", "earth", false);
    db.edit("bonjour", "venus", false);
    let written = db.serialize();

    // re-load file
    let db = Database::new("test4.db", &written).unwrap();
    // existing keys
    let r = db.view("hello");
    assert_eq!(r, Some(&"earth".to_owned()));
    let r = db.view("bonjour");
    assert_eq!(r, Some(&"venus".to_owned()));
}

#[test]
fn db_append_existing() {
    let mut db = Database::new("test5.db", "").unwrap();
    db.edit("hello", "earth", false);
    db.edit("hello", ":world", true);
    assert_eq!(db.view("hello"), Some(&"earth:world".to_owned()));
}

#[test]
fn db_append_absent() {
    let mut db = Database::new("test6.db", "").unwrap();
    db.edit("hello", "world", true);
    assert_eq!(db.view("hello"), Some(&"world".to_owned()));
}

#[test]
fn db_view_twice() {
    let mut db = Database::new("test7.db", "").unwrap();
    db.edit("hello", "earth", false);
    assert_eq!(db.view("hello"), db.view("hello"));
    assert_eq!(db.view("missing"), db.view("missing"));
}

#[test]
fn db_load_no_tab() {
    let err = Database::new("bad.db", "justonekey\n").unwrap_err();
    assert_eq!(err, KvError::InvalidFormat(0));
}

#[test]
fn db_load_two_tabs() {
    let err = Database::new("bad.db", "a\tb\tc\n").unwrap_err();
    assert_eq!(err, KvError::InvalidFormat(2));
}

#[test]
fn db_load_distinct_keys() {
    let db = Database::new("sizes.db", "a\t1\nb\t2\nc\t3\n").unwrap();
    assert_eq!(db.get_keys().len(), 3);
    assert_eq!(db.get_keys(), vec!["a".to_owned(), "b".to_owned(), "c".to_owned()]);
}

#[test]
fn db_load_duplicate_key_last_wins() {
    let db = Database::new("dups.db", "a\t1\nb\t2\na\t3\n").unwrap();
    assert_eq!(db.get_keys().len(), 2);
    assert_eq!(db.view("a"), Some(&"3".to_owned()));
    assert_eq!(db.view("b"), Some(&"2".to_owned()));
}

#[test]
fn db_load_skips_blank_lines() {
    let db = Database::new("blank.db", "a\t1\n\nb\t2\n").unwrap();
    assert_eq!(db.get_keys().len(), 2);
    assert_eq!(db.view("a"), Some(&"1".to_owned()));
    assert_eq!(db.view("b"), Some(&"2".to_owned()));
}

#[test]
fn db_round_trip() {
    let mut db = Database::new("trip.db", "").unwrap();
    db.edit("one", "alpha", false);
    db.edit("two", "beta gamma", false);
    db.edit("three", "", false);
    let text = db.serialize();
    let back = Database::new("trip.db", &text).unwrap();
    assert_eq!(back.get_keys(), db.get_keys());
    assert_eq!(back.view("one"), Some(&"alpha".to_owned()));
    assert_eq!(back.view("two"), Some(&"beta gamma".to_owned()));
    assert_eq!(back.view("three"), Some(&"".to_owned()));
}

#[test]
fn error_messages() {
    assert_eq!(
        KvError::InvalidFormat(3).message(),
        "Invalid kv file- found 3 tab(s) on a single line (expecting 1)"
    );
    assert_eq!(
        KvError::InvalidFormat(12).message(),
        "Invalid kv file- found 12 tab(s) on a single line (expecting 1)"
    );
    assert_eq!(KvError::UnknownArg("oops".to_owned()).message(), "Unknown arg \"oops\"");
    assert_eq!(KvError::IoError("disk full".to_owned()).message(), "disk full");
}
