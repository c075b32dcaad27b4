use kvstore::store::{Database, StoreError};

#[test]
fn fresh_store_is_empty_and_clean() {
    let db = Database::empty();
    assert_eq!(db.get("foo"), None);
    assert_eq!(db.render(), "");
    assert!(!db.is_dirty());
}

#[test]
fn missing_key_is_absent_not_an_error() {
    let mut db = Database::empty();
    db.insert("foo".to_string(), "bar".to_string());
    assert_eq!(db.get("never inserted"), None);
}

#[test]
fn write_then_read() {
    let mut db = Database::empty();
    db.insert("foo".to_string(), "bar".to_string());
    assert_eq!(db.render(), "FOO\tbar\n");

    let reopened = Database::from_contents(&db.render()).unwrap();
    assert_eq!(reopened.get("foo"), Some(&"bar".to_string()));
    assert!(!reopened.is_dirty());
}

#[test]
fn keys_are_case_insensitive() {
    let mut db = Database::empty();
    db.insert("Foo".to_string(), "bar".to_string());
    assert_eq!(db.get("foo"), Some(&"bar".to_string()));
    assert_eq!(db.get("FOO"), Some(&"bar".to_string()));
    assert_eq!(db.get("fOo"), Some(&"bar".to_string()));
    assert_eq!(db.get("food"), None);
}

#[test]
fn tab_in_value_survives_a_round_trip() {
    let mut db = Database::empty();
    db.insert("a".to_string(), "x\ty".to_string());
    let reopened = Database::from_contents(&db.render()).unwrap();
    assert_eq!(reopened.get("a"), Some(&"x\ty".to_string()));
}

#[test]
fn malformed_line_rejected() {
    assert!(matches!(
        Database::from_contents("no tab here\n"),
        Err(StoreError::MalformedRecord)
    ));
    assert!(matches!(
        Database::from_contents("A\t1\nbad line\nB\t2\n"),
        Err(StoreError::MalformedRecord)
    ));
}

#[test]
fn round_trip_reproduces_the_mapping() {
    let mut db = Database::empty();
    db.insert("alpha".to_string(), "1".to_string());
    db.insert("beta".to_string(), "two words".to_string());
    db.insert("gamma".to_string(), String::new());
    db.insert("alpha".to_string(), "overwritten".to_string());

    let reopened = Database::from_contents(&db.render()).unwrap();
    assert_eq!(reopened.get("alpha"), Some(&"overwritten".to_string()));
    assert_eq!(reopened.get("beta"), Some(&"two words".to_string()));
    assert_eq!(reopened.get("gamma"), Some(&String::new()));
    assert_eq!(reopened.get("delta"), None);
}

#[test]
fn flush_content_is_idempotent() {
    let mut db = Database::empty();
    db.insert("k".to_string(), "v".to_string());
    let first = db.render();
    db.mark_clean();
    let second = db.render();
    assert_eq!(first, second);
}

#[test]
fn dirty_flag_lifecycle() {
    let mut db = Database::empty();
    assert!(!db.is_dirty());
    db.insert("k".to_string(), "v".to_string());
    assert!(db.is_dirty());
    db.mark_clean();
    assert!(!db.is_dirty());
    db.insert("k".to_string(), "v2".to_string());
    assert!(db.is_dirty());
}

#[test]
fn insert_overwrites_in_place() {
    let mut db = Database::empty();
    db.insert("k".to_string(), "old".to_string());
    db.insert("K".to_string(), "new".to_string());
    assert_eq!(db.get("k"), Some(&"new".to_string()));
    assert_eq!(db.render(), "K\tnew\n");
}

#[test]
fn last_line_wins_when_a_key_repeats() {
    let db = Database::from_contents("A\t1\nA\t2\n").unwrap();
    assert_eq!(db.get("a"), Some(&"2".to_string()));
    assert_eq!(db.render(), "A\t2\n");
}

#[test]
fn empty_contents_give_an_empty_store() {
    let db = Database::from_contents("").unwrap();
    assert_eq!(db.get("anything"), None);
    assert_eq!(db.render(), "");
}

#[test]
fn empty_key_and_value_round_trip() {
    let mut db = Database::empty();
    db.insert(String::new(), "v".to_string());
    db.insert("k".to_string(), String::new());
    let reopened = Database::from_contents(&db.render()).unwrap();
    assert_eq!(reopened.get(""), Some(&"v".to_string()));
    assert_eq!(reopened.get("k"), Some(&String::new()));
}

#[test]
fn contents_without_final_newline_still_parse() {
    let db = Database::from_contents("A\t1\nB\t2").unwrap();
    assert_eq!(db.get("a"), Some(&"1".to_string()));
    assert_eq!(db.get("b"), Some(&"2".to_string()));
}
