use kvstore::command::Command;
use kvstore::protocol::{dispatch, Response};
use kvstore::storage::Database;
use kvstore::value::Value;

#[test]
fn delete_on_absent_key_returns_nothing_and_changes_nothing() {
    let mut db = Database::new();
    db.set("kept".into(), Value::Number(5));
    assert_eq!(db.delete("missing"), None);
    assert_eq!(db.get("kept"), Some(Value::Number(5)));
    assert_eq!(db.get("missing"), None);
}

#[test]
fn set_returns_prior_value_on_overwrite() {
    let mut db = Database::new();
    assert_eq!(db.set("k".into(), Value::Number(1)), None);
    assert_eq!(db.set("k".into(), Value::Number(2)), Some(Value::Number(1)));
    assert_eq!(db.get("k"), Some(Value::Number(2)));
}

#[test]
fn later_of_two_sets_wins_in_either_order() {
    let v1 = Value::Number(1);
    let v2 = Value::Number(2);

    let mut db = Database::new();
    db.set("k".into(), v1.duplicate());
    db.set("k".into(), v2.duplicate());
    let got = db.get("k").unwrap();
    assert!(got == v1 || got == v2);
    assert_eq!(got, v2);

    let mut db = Database::new();
    db.set("k".into(), v2.duplicate());
    db.set("k".into(), v1.duplicate());
    let got = db.get("k").unwrap();
    assert!(got == v1 || got == v2);
    assert_eq!(got, v1);
}

#[test]
fn end_to_end_set_get_delete_get() {
    let mut db = Database::new();

    let r = dispatch(&mut db, Command::set("a", Value::String("x".into())));
    assert_eq!(r, Response::Null);

    let r = dispatch(&mut db, Command::get("a"));
    assert_eq!(r, Response::Payload(Value::String("x".into())));

    let r = dispatch(&mut db, Command::delete("a"));
    assert_eq!(r, Response::Payload(Value::String("x".into())));

    let r = dispatch(&mut db, Command::get("a"));
    assert_eq!(r, Response::Null);
}
