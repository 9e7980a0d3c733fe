use fedreg::json::{JsonMember, JsonValue};

fn member(key: &str, val: JsonValue) -> JsonMember {
    JsonMember { key: key.to_string(), val }
}

fn p10_payload(order_a: bool) -> JsonValue {
    let mut ms = Vec::new();
    if order_a {
        ms.push(member("name", JsonValue::Str("n1".to_string())));
        ms.push(member("host", JsonValue::Str("h1".to_string())));
        ms.push(member("api_base_url", JsonValue::Str("http://h1/api".to_string())));
        ms.push(member("protocol_version", JsonValue::Str("1".to_string())));
    } else {
        ms.push(member("protocol_version", JsonValue::Str("1".to_string())));
        ms.push(member("api_base_url", JsonValue::Str("http://h1/api".to_string())));
        ms.push(member("host", JsonValue::Str("h1".to_string())));
        ms.push(member("name", JsonValue::Str("n1".to_string())));
    }
    JsonValue::Obj(ms)
}

#[test]
fn canonical_sorts_object_keys() {
    let s = fedreg::json::canonical_json_string(p10_payload(true));
    assert_eq!(
        s,
        "{\"api_base_url\":\"http://h1/api\",\"host\":\"h1\",\"name\":\"n1\",\"protocol_version\":\"1\"}"
    );
}

#[test]
fn canonical_invariant_under_key_order() {
    let a = fedreg::json::canonical_json_string(p10_payload(true));
    let b = fedreg::json::canonical_json_string(p10_payload(false));
    assert_eq!(a, b);
}

#[test]
fn canonical_scalars() {
    assert_eq!(fedreg::json::canonical_json_string(JsonValue::Null), "null");
    assert_eq!(fedreg::json::canonical_json_string(JsonValue::Bool(true)), "true");
    assert_eq!(fedreg::json::canonical_json_string(JsonValue::Bool(false)), "false");
    assert_eq!(fedreg::json::canonical_json_string(JsonValue::Int(0)), "0");
    assert_eq!(fedreg::json::canonical_json_string(JsonValue::Int(-17)), "-17");
    assert_eq!(
        fedreg::json::canonical_json_string(JsonValue::Int(i64::MIN)),
        "-9223372036854775808"
    );
}

#[test]
fn canonical_escapes_strings() {
    let v = JsonValue::Str("a\"b\\c\nd\u{01}".to_string());
    assert_eq!(
        fedreg::json::canonical_json_string(v),
        "\"a\\\"b\\\\c\\nd\\u0001\""
    );
}

#[test]
fn canonical_round_trips_through_serde() {
    let s = fedreg::json::canonical_json_string(p10_payload(false));
    let v: serde_json::Value = serde_json::from_str(&s).expect("canonical text parses");
    assert_eq!(v.get("host").and_then(|x| x.as_str()), Some("h1"));
    assert_eq!(v.get("name").and_then(|x| x.as_str()), Some("n1"));
    assert_eq!(v.as_object().map(|o| o.len()), Some(4));
    let reparsed = fedreg::json::canonical_json_string(p10_payload(false));
    assert_eq!(s, reparsed);
}

#[test]
fn canonical_nested_arrays() {
    let mut inner = Vec::new();
    inner.push(member("b", JsonValue::Int(2)));
    inner.push(member("a", JsonValue::Int(1)));
    let mut arr = Vec::new();
    arr.push(JsonValue::Obj(inner));
    arr.push(JsonValue::Null);
    let v = JsonValue::Arr(arr);
    assert_eq!(fedreg::json::canonical_json_string(v), "[{\"a\":1,\"b\":2},null]");
}
