use kvstore::cli::Cli;
use kvstore::database::Database;
use kvstore::kvstore::{KvError, KvStore};

fn mock_db(name: &str) -> Database {
    let file = name.to_owned() + ".db";
    let mut db = Database::new(&file, "").unwrap();
    // create new key-value pair
    db.edit("hello", "earth", false);
    db.edit("bonjour", "venus", false);
    db
}

fn mock_store(db: Database) -> KvStore {
    KvStore {
        db,
        key: None,
        value: None,
        init: false,
        help: false,
        version: false,
        append: false,
        env: vec![],
        sep: ':',
    }
}

#[test]
fn view_arg() {
    let mut kv = KvStore { key: Some("hello".to_owned()), ..mock_store(mock_db("view_arg")) };
    assert_eq!(kv.run().message, "earth".to_owned());

    let mut kv = KvStore { key: Some("key_not_found".to_owned()), ..kv };
    assert_eq!(kv.run().message, "".to_owned());
}

#[test]
fn disp_help_version() {
    let mut kv = KvStore { help: true, ..mock_store(mock_db("disp_help_version")) };
    assert_eq!(kv.run().message, kvstore::usage().to_owned());

    let mut kv = KvStore { key: Some("any_key".to_owned()), ..kv };
    assert_eq!(kv.run().message, kvstore::usage().to_owned());

    let mut kv = KvStore { version: true, help: false, ..kv };
    assert_eq!(kv.run().message, kvstore::version().to_owned());
}

#[test]
fn edit_arg() {
    let mut kv = KvStore {
        key: Some("hello".to_owned()),
        value: Some("world".to_owned()),
        ..mock_store(mock_db("edit_arg"))
    };
    let out = kv.run();
    assert_eq!(out.message, "kv-info: Save successful".to_owned());
    assert!(out.save_needed);
    assert_eq!(kv.db.view("hello"), Some(&"world".to_owned()));
}

#[test]
fn edit_and_append_arg() {
    let mut kv = KvStore {
        key: Some("hello".to_owned()),
        value: Some(":world".to_owned()),
        append: true,
        ..mock_store(mock_db("edit_and_append_arg"))
    };
    kv.run();
    assert_eq!(kv.db.view("hello").unwrap(), &"earth:world".to_owned());
}

#[test]
fn missing_key_shows_usage() {
    let mut kv = mock_store(mock_db("missing_key"));
    let out = kv.run();
    assert_eq!(out.message, kvstore::usage().to_owned());
    assert!(!out.save_needed);
}

#[test]
fn version_wins_over_everything() {
    let mut kv = KvStore {
        key: Some("hello".to_owned()),
        value: Some("world".to_owned()),
        init: true,
        help: true,
        version: true,
        ..mock_store(mock_db("version_wins"))
    };
    let out = kv.run();
    assert_eq!(out.message, kvstore::version().to_owned());
    assert!(!out.save_needed);
}

#[test]
fn init_wins_over_key_and_value() {
    let mut db = Database::new("init_wins.db", "").unwrap();
    db.edit("FOO", "bar", false);
    let mut kv = KvStore {
        key: Some("hello".to_owned()),
        value: Some("world".to_owned()),
        init: true,
        ..mock_store(db)
    };
    let out = kv.run();
    assert_eq!(out.message, "FOO=bar ".to_owned());
    assert!(!out.save_needed);
    assert_eq!(kv.db.view("hello"), None);
}

#[test]
fn listing_aligns_columns() {
    let mut db = Database::new("listing.db", "").unwrap();
    db.edit("hi", "earth", false);
    db.edit("bonjourx", "venus", false);
    let mut kv = KvStore { key: Some(".".to_owned()), ..mock_store(db) };
    assert_eq!(kv.run().message, "hi          earth\nbonjourx    venus".to_owned());
}

#[test]
fn listing_skips_empty_values() {
    let mut db = Database::new("listing2.db", "").unwrap();
    db.edit("hi", "earth", false);
    db.edit("empty", "", false);
    db.edit("bonjourx", "venus", false);
    let mut kv = KvStore { key: Some(".".to_owned()), ..mock_store(db) };
    assert_eq!(kv.run().message, "hi          earth\nbonjourx    venus".to_owned());
}

#[test]
fn listing_of_nothing_is_empty() {
    let db = Database::new("listing3.db", "").unwrap();
    let mut kv = KvStore { key: Some(".".to_owned()), ..mock_store(db) };
    assert_eq!(kv.run().message, "".to_owned());
}

#[test]
fn dot_key_with_entry_shows_value() {
    let mut db = Database::new("dot.db", "").unwrap();
    db.edit(".", "dotted", false);
    db.edit("other", "value", false);
    let mut kv = KvStore { key: Some(".".to_owned()), ..mock_store(db) };
    assert_eq!(kv.run().message, "dotted".to_owned());
}

#[test]
fn export_fresh_variable() {
    let mut db = Database::new("export1.db", "").unwrap();
    db.edit("FOO", "bar", false);
    let kv = mock_store(db);
    assert_eq!(kv.boot_env(), "FOO=bar ".to_owned());
}

#[test]
fn export_existing_variable_is_skipped() {
    let mut db = Database::new("export2.db", "").unwrap();
    db.edit("FOO", "bar", false);
    let kv = KvStore {
        env: vec![("FOO".to_owned(), "baz".to_owned())],
        ..mock_store(db)
    };
    assert_eq!(kv.boot_env(), "".to_owned());
}

#[test]
fn export_path_appends_new_segments() {
    let mut db = Database::new("export3.db", "").unwrap();
    db.edit("PATH", "/a:/b", false);
    let kv = KvStore {
        env: vec![("PATH".to_owned(), "/b:/c".to_owned())],
        ..mock_store(db)
    };
    assert_eq!(kv.boot_env(), "PATH=/b:/c:/a ".to_owned());
}

#[test]
fn export_path_nothing_new() {
    let mut db = Database::new("export4.db", "").unwrap();
    db.edit("PATH", "/b", false);
    let kv = KvStore {
        env: vec![("PATH".to_owned(), "/a:/b".to_owned())],
        ..mock_store(db)
    };
    assert_eq!(kv.boot_env(), "".to_owned());
}

#[test]
fn export_path_with_other_separator() {
    let mut db = Database::new("export5.db", "").unwrap();
    db.edit("PATH", "a;b", false);
    let kv = KvStore {
        env: vec![("PATH".to_owned(), "b".to_owned())],
        sep: ';',
        ..mock_store(db)
    };
    assert_eq!(kv.boot_env(), "PATH=b;a ".to_owned());
}

#[test]
fn export_through_run() {
    let mut db = Database::new("export6.db", "").unwrap();
    db.edit("PATH", "/a:/b", false);
    db.edit("FOO", "bar", false);
    let mut kv = KvStore {
        init: true,
        env: vec![("PATH".to_owned(), "/b:/c".to_owned())],
        ..mock_store(db)
    };
    assert_eq!(kv.run().message, "PATH=/b:/c:/a FOO=bar ".to_owned());
}

#[test]
fn third_positional_argument_is_refused() {
    let cla: Vec<String> = vec!["kvstore", "a", "b", "c", "--init", "--version"]
        .into_iter()
        .map(|s| s.to_string())
        .collect();
    let cli = Cli::new(cla);
    let db = Database::new("unknown.db", "").unwrap();
    let r = KvStore::new(db, cli, vec![], ':');
    assert_eq!(r.unwrap_err(), KvError::UnknownArg("c".to_owned()));
}

#[test]
fn new_splits_invocation() {
    let cla: Vec<String> = vec!["kvstore", "hello", "world", "--append"]
        .into_iter()
        .map(|s| s.to_string())
        .collect();
    let cli = Cli::new(cla);
    let db = Database::new("split.db", "").unwrap();
    let kv = KvStore::new(db, cli, vec![], ':').unwrap();
    assert_eq!(kv.key, Some("hello".to_owned()));
    assert_eq!(kv.value, Some("world".to_owned()));
    assert!(kv.append);
    assert!(!kv.init && !kv.help && !kv.version);
}
