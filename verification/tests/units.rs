//! Decimal text, string helpers, field maps and tables.

use inat::digits::{parse_u64, u64_string};
use inat::table::Table;
use inat::value::{str_concat, str_eq, Object, Value};

fn obj_with_id(id: u64) -> Object {
    let mut o = Object::new();
    o.put("id", Value::UInt(id));
    o
}

#[test]
fn formats_decimals() {
    assert_eq!(u64_string(0), "0");
    assert_eq!(u64_string(7), "7");
    assert_eq!(u64_string(45), "45");
    assert_eq!(u64_string(18446744073709551615), "18446744073709551615");
}

#[test]
fn parses_decimals() {
    assert_eq!(parse_u64("0"), Some(0));
    assert_eq!(parse_u64("120"), Some(120));
    assert_eq!(parse_u64("18446744073709551615"), Some(18446744073709551615));
}

#[test]
fn rejects_bad_decimals() {
    assert_eq!(parse_u64(""), None);
    assert_eq!(parse_u64("+7"), None);
    assert_eq!(parse_u64("-7"), None);
    assert_eq!(parse_u64("7.5"), None);
    assert_eq!(parse_u64("18446744073709551616"), None);
    assert_eq!(parse_u64("12a"), None);
}

#[test]
fn decimal_round_trip() {
    for n in [0u64, 1, 9, 10, 199, 200, 45, 18446744073709551615] {
        assert_eq!(parse_u64(u64_string(n).as_str()), Some(n));
    }
}

#[test]
fn compares_and_joins_strings() {
    assert!(str_eq("abc", "abc"));
    assert!(!str_eq("abc", "abd"));
    assert!(!str_eq("abc", "ab"));
    assert_eq!(str_concat("user", "_id"), "user_id");
}

#[test]
fn object_fields_replace_and_remove() {
    let mut o = Object::new();
    o.put("a", Value::UInt(1));
    o.put("b", Value::Str("x".to_string()));
    assert_eq!(o.get("a"), Some(&Value::UInt(1)));
    o.put("a", Value::UInt(2));
    assert_eq!(o.get("a"), Some(&Value::UInt(2)));
    assert_eq!(o.len(), 2);
    o.remove_field("a");
    assert_eq!(o.get("a"), None);
    assert!(o.has("b"));
    assert!(!o.has("a"));
}

fn noted_obj(id: u64) -> Object {
    let mut o = obj_with_id(id);
    o.put("note", Value::Str("newer".to_string()));
    o
}

#[test]
fn table_insert_is_last_write_wins() {
    let mut t = Table::new();
    t.insert(1, obj_with_id(1));
    t.insert(1, noted_obj(1));
    assert_eq!(t.len(), 1);
    assert_eq!(t.get(1), Some(&noted_obj(1)));
    t.insert(2, obj_with_id(2));
    assert_eq!(t.len(), 2);
    assert_eq!(t.get(2), Some(&obj_with_id(2)));
    assert_eq!(t.get(3), None);
}
