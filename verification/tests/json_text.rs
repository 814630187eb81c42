//! JSON text.
use pylon::json::{sort_keys, Json};
use serde_json::Value;

fn text(s: &str) -> Json {
    Json::Text(s.into())
}

#[test]
fn scalars_are_written_compactly() {
    assert_eq!(Json::Null.to_text(), "null");
    assert_eq!(Json::Bool(true).to_text(), "true");
    assert_eq!(Json::Bool(false).to_text(), "false");
    assert_eq!(Json::Number("-1.5e3".into()).to_text(), "-1.5e3");
    assert_eq!(Json::Array(vec![]).to_text(), "[]");
    assert_eq!(Json::Object(vec![]).to_text(), "{}");
}

#[test]
fn strings_are_escaped() {
    assert_eq!(text("a\"b\\c").to_text(), r#""a\"b\\c""#);
    assert_eq!(text("\u{8}\t\n\u{c}\r").to_text(), r#""\b\t\n\f\r""#);
    assert_eq!(text("\u{0}\u{1f}\u{b}").to_text(), "\"\\u0000\\u001f\\u000b\"");
    // The rest stands for itself, the delete character and non-ASCII included.
    assert_eq!(text("/\u{7f}é😀").to_text(), "\"/\u{7f}é😀\"");
}

#[test]
fn text_agrees_with_an_independent_writer() {
    let v = Json::Object(vec![
        ("b".into(), Json::Array(vec![Json::Number("1".into()), Json::Null])),
        ("a\n".into(), Json::Object(vec![("x".into(), text("y\u{1}"))])),
    ]);
    let sorted = sort_keys(&v).to_text();
    let read: Value = serde_json::from_str(&sorted).unwrap();
    assert_eq!(sorted, serde_json::to_string(&read).unwrap());
}

#[test]
fn keys_are_ordered_at_every_depth() {
    let v = Json::Object(vec![
        ("b".into(), Json::Number("1".into())),
        (
            "a".into(),
            Json::Array(vec![Json::Object(vec![
                ("é".into(), Json::Null),
                ("z".into(), Json::Null),
                ("".into(), Json::Null),
                ("zz".into(), Json::Null),
            ])]),
        ),
    ]);
    assert_eq!(
        sort_keys(&v).to_text(),
        r#"{"a":[{"":null,"z":null,"zz":null,"é":null}],"b":1}"#
    );
}

#[test]
fn the_last_of_several_fields_with_one_key_counts() {
    let v = Json::Object(vec![
        ("k".into(), Json::Number("1".into())),
        ("j".into(), Json::Number("2".into())),
        ("k".into(), Json::Number("3".into())),
    ]);
    assert_eq!(sort_keys(&v).to_text(), r#"{"j":2,"k":3}"#);
}

#[test]
fn the_order_of_fields_leaves_no_trace() {
    let f = |k: &str| (k.to_string(), text(k));
    let a = Json::Object(vec![f("x"), f("y"), f("z")]);
    let b = Json::Object(vec![f("z"), f("x"), f("y")]);
    assert_ne!(a.to_text(), b.to_text());
    assert_eq!(sort_keys(&a).to_text(), sort_keys(&b).to_text());
}

#[test]
fn a_copy_is_the_same_value() {
    let v = Json::Object(vec![("k".into(), Json::Array(vec![Json::Bool(true), text("t")]))]);
    assert_eq!(v.clone(), v);
}
