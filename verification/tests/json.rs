//! The JSON codec: exact serialized text and the round trip.

use lsp_core::json::{encode_json, obj_get, parse_message, Json};

fn key(s: &str) -> Vec<u8> {
    s.as_bytes().to_vec()
}

#[test]
fn encode_scalars_exactly() {
    assert_eq!(encode_json(&Json::Null), b"null".to_vec());
    assert_eq!(encode_json(&Json::Bool(true)), b"true".to_vec());
    assert_eq!(encode_json(&Json::Bool(false)), b"false".to_vec());
    assert_eq!(encode_json(&Json::UInt(0)), b"0".to_vec());
    assert_eq!(encode_json(&Json::UInt(1048576)), b"1048576".to_vec());
    assert_eq!(encode_json(&Json::NegInt(32601)), b"-32601".to_vec());
}

#[test]
fn encode_string_escapes() {
    let v = Json::Str(b"a\"b\\c\nd\re\tf".to_vec());
    assert_eq!(encode_json(&v), b"\"a\\\"b\\\\c\\nd\\re\\tf\"".to_vec());
}

#[test]
fn encode_object_exactly() {
    let v = Json::Obj(vec![
        (key("jsonrpc"), Json::Str(b"2.0".to_vec())),
        (key("id"), Json::UInt(1)),
        (key("method"), Json::Str(b"initialize".to_vec())),
        (key("params"), Json::Obj(vec![])),
    ]);
    assert_eq!(
        encode_json(&v),
        b"{\"jsonrpc\":\"2.0\",\"id\":1,\"method\":\"initialize\",\"params\":{}}".to_vec()
    );
}

#[test]
fn round_trip_nested_value() {
    let v = Json::Obj(vec![
        (key("nums"), Json::Arr(vec![Json::UInt(1), Json::NegInt(2), Json::UInt(3)])),
        (
            key("inner"),
            Json::Obj(vec![
                (key("text"), Json::Str(b"with \"quotes\" and\nnewlines".to_vec())),
                (key("flag"), Json::Bool(false)),
                (key("nothing"), Json::Null),
                (key("empty_arr"), Json::Arr(vec![])),
                (key("empty_obj"), Json::Obj(vec![])),
            ]),
        ),
        (key("max"), Json::UInt(u64::MAX)),
    ]);
    let bytes = encode_json(&v);
    assert_eq!(parse_message(&bytes), Some(v));
}

#[test]
fn parse_accepts_common_escapes() {
    let parsed = parse_message(&b"\"a\\/b\\b\\f\"".to_vec());
    assert_eq!(parsed, Some(Json::Str(b"a/b\x08\x0c".to_vec())));
}

#[test]
fn parse_rejects_unicode_escape() {
    assert!(parse_message(&b"\"\\u0041\"".to_vec()).is_none());
}

#[test]
fn parse_rejects_trailing_garbage() {
    assert!(parse_message(&b"null ".to_vec()).is_none());
    assert!(parse_message(&b"1,2".to_vec()).is_none());
}

#[test]
fn parse_rejects_minus_zero_and_overflow() {
    assert!(parse_message(&b"-0".to_vec()).is_none());
    assert!(parse_message(&b"18446744073709551616".to_vec()).is_none());
    assert_eq!(
        parse_message(&b"18446744073709551615".to_vec()),
        Some(Json::UInt(u64::MAX))
    );
}

#[test]
fn parse_rejects_malformed() {
    assert!(parse_message(&b"".to_vec()).is_none());
    assert!(parse_message(&b"{".to_vec()).is_none());
    assert!(parse_message(&b"[1,]".to_vec()).is_none());
    assert!(parse_message(&b"\"open".to_vec()).is_none());
    assert!(parse_message(&b"nul".to_vec()).is_none());
}

#[test]
fn obj_get_last_occurrence_wins() {
    let fields = vec![
        (key("a"), Json::UInt(1)),
        (key("b"), Json::UInt(2)),
        (key("a"), Json::UInt(3)),
    ];
    assert_eq!(obj_get(&fields, b"a"), Some(&Json::UInt(3)));
    assert_eq!(obj_get(&fields, b"b"), Some(&Json::UInt(2)));
    assert_eq!(obj_get(&fields, b"c"), None);
}
