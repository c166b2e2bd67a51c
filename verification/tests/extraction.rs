use qma::json::{get_value, parse_json};
use qma::{Accessor, LogRecord, LogValue, LogValueType};

#[test]
fn accessor_splits_dotted_paths() {
    let a = Accessor::from_string("latency", "httpRequest.latency", LogValueType::Second);
    assert_eq!(a.name, "latency");
    assert_eq!(a.accessor, vec!["httpRequest".to_string(), "latency".to_string()]);
    let b = Accessor::from_string("key", "top", LogValueType::String);
    assert_eq!(b.accessor, vec!["top".to_string()]);
}

#[test]
fn resolves_nested_string_scalar() {
    let doc = parse_json(r#"{"httpRequest":{"latency":"12.5s","requestMethod":"GET"}}"#)
        .expect("valid json");
    let path = vec!["httpRequest".to_string(), "latency".to_string()];
    assert_eq!(get_value(&doc, &path, 0), Some(&"12.5s".to_string()));
    let missing = vec!["httpRequest".to_string(), "missingKey".to_string()];
    assert_eq!(get_value(&doc, &missing, 0), None);
}

#[test]
fn resolution_dead_ends() {
    let doc = parse_json(r#"{"a":{"b":"x"},"n":7,"s":"top"}"#).expect("valid json");
    // An intermediate value that is not an object yields not-found.
    let through_number = vec!["n".to_string(), "b".to_string()];
    assert_eq!(get_value(&doc, &through_number, 0), None);
    // A non-string leaf is not coerced here: not-found.
    let number_leaf = vec!["n".to_string()];
    assert_eq!(get_value(&doc, &number_leaf, 0), None);
    let string_leaf = vec!["s".to_string()];
    assert_eq!(get_value(&doc, &string_leaf, 0), Some(&"top".to_string()));
    // The empty path resolves to the root only if the root is a string.
    let root: Vec<String> = Vec::new();
    assert_eq!(get_value(&doc, &root, 0), None);
    let str_root = parse_json(r#""hello""#).expect("valid json");
    assert_eq!(get_value(&str_root, &root, 0), Some(&"hello".to_string()));
}

#[test]
fn malformed_json_is_rejected() {
    assert!(parse_json("{not json").is_none());
    assert!(parse_json("").is_none());
}

#[test]
fn record_extraction_types_fields() {
    let index = Accessor::from_string("method", "httpRequest.requestMethod", LogValueType::String);
    let latency = Accessor::from_string("latency", "httpRequest.latency", LogValueType::Second);
    let fields = vec![&latency];
    let rec = LogRecord::parse(
        r#"{"httpRequest":{"latency":"2.0s","requestMethod":"GET"}}"#,
        &index,
        &fields,
    )
    .expect("valid json");
    assert_eq!(rec.key.as_deref(), Some("GET"));
    assert_eq!(rec.values.len(), 1);
    assert_eq!(rec.values[0].as_string(), "2.0000sec");
}

#[test]
fn key_resolution_failure_leaves_key_unset() {
    let index = Accessor::from_string("method", "noSuchKey", LogValueType::String);
    let latency = Accessor::from_string("latency", "latency", LogValueType::Second);
    let fields = vec![&latency];
    let rec = LogRecord::parse(r#"{"latency":"1.0s"}"#, &index, &fields).expect("valid json");
    assert!(rec.key.is_none());
    assert!(matches!(rec.values[0], LogValue::Second(_)));
}

#[test]
fn field_resolution_failure_is_missing() {
    let index = Accessor::from_string("k", "k", LogValueType::String);
    let gone = Accessor::from_string("gone", "not.there", LogValueType::Float);
    let fields = vec![&gone];
    let rec = LogRecord::parse(r#"{"k":"a"}"#, &index, &fields).expect("valid json");
    assert!(matches!(rec.values[0], LogValue::Missing));
}

#[test]
fn bad_line_halts_parse() {
    let index = Accessor::from_string("k", "k", LogValueType::String);
    let fields: Vec<&Accessor> = Vec::new();
    assert!(LogRecord::parse("{truncated", &index, &fields).is_none());
}

#[test]
fn record_set_and_get() {
    let mut rec = LogRecord::new("GET");
    rec.set("2.0s", &LogValueType::Second);
    rec.set("abc", &LogValueType::Integer);
    assert_eq!(rec.key.as_deref(), Some("GET"));
    assert_eq!(rec.get(0).as_string(), "2.0000sec");
    assert!(matches!(rec.get(1), LogValue::Missing));
}
