use vcurl::json::{sort_json, JsonValue};
use vcurl::render::{json_to_text, render};

#[test]
fn object_keys_come_out_sorted() {
    assert_eq!(
        render("{\"b\":2,\"a\":1}"),
        "Response body (JSON with sorted keys):\n{\n  \"a\": 1,\n  \"b\": 2\n}"
    );
}

#[test]
fn non_json_is_returned_verbatim() {
    assert_eq!(render("not json{"), "Response:\nnot json{");
    assert_eq!(render(""), "Response:\n");
}

#[test]
fn arrays_keep_their_order() {
    assert_eq!(
        render("[3,1,2]"),
        "Response body (JSON with sorted keys):\n[\n  3,\n  1,\n  2\n]"
    );
}

#[test]
fn sorting_descends_into_nested_values() {
    assert_eq!(
        render("{\"b\":{\"d\":1,\"c\":2},\"a\":5}"),
        "Response body (JSON with sorted keys):\n{\n  \"a\": 5,\n  \"b\": {\n    \"c\": 2,\n    \"d\": 1\n  }\n}"
    );
    assert_eq!(
        render("[{\"y\":1,\"x\":2}]"),
        "Response body (JSON with sorted keys):\n[\n  {\n    \"x\": 2,\n    \"y\": 1\n  }\n]"
    );
}

#[test]
fn scalars_render_on_one_line() {
    assert_eq!(render("null"), "Response body (JSON with sorted keys):\nnull");
    assert_eq!(render("true"), "Response body (JSON with sorted keys):\ntrue");
    assert_eq!(render("false"), "Response body (JSON with sorted keys):\nfalse");
    assert_eq!(render("42"), "Response body (JSON with sorted keys):\n42");
    assert_eq!(render("{}"), "Response body (JSON with sorted keys):\n{}");
    assert_eq!(render("[]"), "Response body (JSON with sorted keys):\n[]");
}

#[test]
fn strings_are_escaped_in_output() {
    assert_eq!(
        render("\"a\\nb\""),
        "Response body (JSON with sorted keys):\n\"a\\nb\""
    );
    assert_eq!(
        render("{\"q\":\"say \\\"hi\\\"\"}"),
        "Response body (JSON with sorted keys):\n{\n  \"q\": \"say \\\"hi\\\"\"\n}"
    );
}

#[test]
fn backspace_and_form_feed_get_short_escapes() {
    assert_eq!(
        render("\"\\b\\f\""),
        "Response body (JSON with sorted keys):\n\"\\b\\f\""
    );
}

#[test]
fn other_control_characters_get_unicode_escapes() {
    assert_eq!(
        render("\"\\u0001\""),
        "Response body (JSON with sorted keys):\n\"\\u0001\""
    );
}

#[test]
fn sorting_twice_equals_sorting_once() {
    let num = |s: &str| JsonValue::Number(s.to_string());
    let v = JsonValue::Object(vec![
        (
            "b".to_string(),
            JsonValue::Array(vec![JsonValue::Object(vec![
                ("z".to_string(), num("1")),
                (
                    "y".to_string(),
                    JsonValue::Array(vec![
                        num("2"),
                        JsonValue::Object(vec![
                            ("n".to_string(), num("0")),
                            ("m".to_string(), num("1")),
                        ]),
                    ]),
                ),
            ])]),
        ),
        (
            "a".to_string(),
            JsonValue::Object(vec![
                ("d".to_string(), num("4")),
                ("c".to_string(), num("3")),
            ]),
        ),
    ]);
    let once = sort_json(&v);
    let twice = sort_json(&once);
    assert_eq!(json_to_text(&once), json_to_text(&twice));
}

#[test]
fn sort_json_on_hand_built_values() {
    let v = JsonValue::Object(vec![
        ("b".to_string(), JsonValue::Number("2".to_string())),
        ("a".to_string(), JsonValue::Number("1".to_string())),
    ]);
    let sorted = sort_json(&v);
    assert_eq!(json_to_text(&sorted), "{\n  \"a\": 1,\n  \"b\": 2\n}");
}
