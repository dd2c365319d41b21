use hellodb::canonical::canonicalize;
use hellodb::json::JsonValue;

fn raw_obj(pairs: Vec<(&str, JsonValue)>) -> JsonValue {
    JsonValue::Object(pairs.into_iter().map(|(k, v)| (k.to_string(), v)).collect())
}

fn text(v: &JsonValue) -> String {
    String::from_utf8(canonicalize(v).unwrap()).unwrap()
}

#[test]
fn sorted_keys() {
    let val = raw_obj(vec![
        ("z", JsonValue::integer(1)),
        ("a", JsonValue::integer(2)),
        ("m", JsonValue::integer(3)),
    ]);
    assert_eq!(text(&val), r#"{"a":2,"m":3,"z":1}"#);
}

#[test]
fn nested_sorted_keys() {
    let val = raw_obj(vec![
        (
            "b",
            raw_obj(vec![("z", JsonValue::integer(1)), ("a", JsonValue::integer(2))]),
        ),
        ("a", JsonValue::integer(1)),
    ]);
    assert_eq!(text(&val), r#"{"a":1,"b":{"a":2,"z":1}}"#);
}

#[test]
fn string_escaping() {
    let val = raw_obj(vec![("msg", JsonValue::string("hello\nworld"))]);
    assert_eq!(text(&val), r#"{"msg":"hello\nworld"}"#);
}

#[test]
fn array_order_preserved() {
    let val = JsonValue::array(vec![
        JsonValue::integer(3),
        JsonValue::integer(1),
        JsonValue::integer(2),
    ]);
    assert_eq!(text(&val), "[3,1,2]");
}

#[test]
fn canonical_deterministic() {
    let val = raw_obj(vec![
        ("from", JsonValue::string("alice")),
        ("to", JsonValue::string("bob")),
        ("type", JsonValue::string("HELLO")),
        ("ts", JsonValue::integer(1234567890)),
    ]);
    let a = canonicalize(&val).unwrap();
    let b = canonicalize(&val).unwrap();
    assert_eq!(a, b);
}

#[test]
fn null_bool() {
    let val = raw_obj(vec![
        ("a", JsonValue::null()),
        ("b", JsonValue::boolean(true)),
        ("c", JsonValue::boolean(false)),
    ]);
    assert_eq!(text(&val), r#"{"a":null,"b":true,"c":false}"#);
}

#[test]
fn numbers_and_escapes() {
    let val = JsonValue::array(vec![
        JsonValue::integer(-42),
        JsonValue::uint(u64::MAX),
        JsonValue::decimal(2499, 2),
        JsonValue::decimal(-5, 1),
        JsonValue::decimal(300, 2),
        JsonValue::string("q\"b\\t\tc\u{1}"),
    ]);
    assert_eq!(
        text(&val),
        "[-42,18446744073709551615,24.99,-0.5,3,\"q\\\"b\\\\t\\tc\\u0001\"]"
    );
}

#[test]
fn key_order_is_bytewise_and_independent_of_insertion() {
    let a = raw_obj(vec![("b", JsonValue::integer(1)), ("B", JsonValue::integer(2)), ("a", JsonValue::integer(3))]);
    let b = raw_obj(vec![("a", JsonValue::integer(3)), ("b", JsonValue::integer(1)), ("B", JsonValue::integer(2))]);
    assert_eq!(canonicalize(&a).unwrap(), canonicalize(&b).unwrap());
    assert_eq!(text(&a), r#"{"B":2,"a":3,"b":1}"#);
}

#[test]
fn nested_insertion_order_does_not_matter() {
    let one = raw_obj(vec![
        ("list", JsonValue::array(vec![raw_obj(vec![("y", JsonValue::integer(1)), ("x", JsonValue::null())])])),
        ("inner", raw_obj(vec![("q", JsonValue::boolean(true)), ("p", JsonValue::string("s"))])),
    ]);
    let two = raw_obj(vec![
        ("inner", raw_obj(vec![("p", JsonValue::string("s")), ("q", JsonValue::boolean(true))])),
        ("list", JsonValue::array(vec![raw_obj(vec![("x", JsonValue::null()), ("y", JsonValue::integer(1))])])),
    ]);
    assert_eq!(canonicalize(&one).unwrap(), canonicalize(&two).unwrap());
    assert_eq!(text(&one), r#"{"inner":{"p":"s","q":true},"list":[{"x":null,"y":1}]}"#);
}
