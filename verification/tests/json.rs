use resource_tracker::json::json_line;
use serde_json::Value;

fn object(members: &[(&str, Value)]) -> Value {
    let mut map = serde_json::Map::new();
    for (k, v) in members {
        map.insert(k.to_string(), v.clone());
    }
    Value::Object(map)
}

#[test]
fn line_carries_the_version() {
    let v = object(&[("timestamp_secs", Value::from(5u64)), ("cpu", object(&[]))]);
    assert_eq!(
        json_line(v, "resource-tracker", "0.1.15").unwrap(),
        "{\"cpu\":{},\"resource-tracker-version\":\"0.1.15\",\"timestamp_secs\":5}"
    );
}

#[test]
fn version_replaces_what_was_there() {
    let v = object(&[("p-version", Value::from(1u64)), ("z", Value::Null)]);
    assert_eq!(json_line(v, "p", "2").unwrap(), "{\"p-version\":\"2\",\"z\":null}");
}

#[test]
fn strings_are_quoted() {
    let v = object(&[]);
    assert_eq!(
        json_line(v, "a\"b", "\\ \n\t\u{8}\u{c}\r\u{1f} é").unwrap(),
        "{\"a\\\"b-version\":\"\\\\ \\n\\t\\b\\f\\r\\u001f é\"}"
    );
}

#[test]
fn only_objects_make_lines() {
    assert_eq!(json_line(Value::from(5u64), "p", "1"), None);
    assert_eq!(json_line(Value::Array(vec![]), "p", "1"), None);
}
