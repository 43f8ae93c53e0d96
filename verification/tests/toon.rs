use squishi::json::{parse_json, same_json, write_json, Json};
use squishi::toon::{decode, encode, encode_if_smaller, encode_scalar};

fn json(text: &str) -> Json {
    parse_json(text).unwrap()
}

#[test]
fn matches_the_real_spec_s_nested_object_example() {
    let value = json(r#"{"user": {"id": 123, "name": "Ada"}}"#);
    assert_eq!(encode(&value), "user:\n  id: 123\n  name: Ada");
}

#[test]
fn matches_the_real_spec_s_empty_array_field_example() {
    let value = json(r#"{"tags": []}"#);
    assert_eq!(encode(&value), "tags: []");
}

#[test]
fn matches_the_real_spec_s_mixed_list_form_example() {
    let value = json(r#"{"items": [1, {"a": 1}, "text"]}"#);
    assert_eq!(encode(&value), "items[3]:\n  - 1\n  - a: 1\n  - text");
}

#[test]
fn matches_the_real_spec_s_tabular_quoting_example() {
    let value = json(r#"{"links": [ {"id": 1, "url": "http://a:b"}, {"id": 2, "url": "https://example.com?q=a:b"} ]}"#);
    assert_eq!(
        encode(&value),
        "links[2]{id,url}:\n  1,\"http://a:b\"\n  2,\"https://example.com?q=a:b\""
    );
}

#[test]
fn quotes_empty_string() {
    assert_eq!(encode_scalar(&json(r#""""#)), "\"\"");
}

#[test]
fn quotes_a_value_that_looks_like_a_bool_or_null() {
    assert_eq!(encode_scalar(&json(r#""true""#)), "\"true\"");
    assert_eq!(encode_scalar(&json(r#""null""#)), "\"null\"");
}

#[test]
fn quotes_a_numeric_looking_string() {
    assert_eq!(encode_scalar(&json(r#""42""#)), "\"42\"");
    assert_eq!(encode_scalar(&json(r#""-3.14""#)), "\"-3.14\"");
}

#[test]
fn quotes_a_string_starting_with_hyphen_or_hash() {
    assert_eq!(encode_scalar(&json(r#""-widget""#)), "\"-widget\"");
    assert_eq!(encode_scalar(&json(r##""#123""##)), "\"#123\"");
}

#[test]
fn quotes_a_string_containing_a_colon_or_comma() {
    assert_eq!(encode_scalar(&json(r#""a:b""#)), "\"a:b\"");
    assert_eq!(encode_scalar(&json(r#""a,b""#)), "\"a,b\"");
}

#[test]
fn leaves_an_ordinary_string_unquoted() {
    assert_eq!(encode_scalar(&json(r#""widget""#)), "widget");
}

#[test]
fn escapes_backslash_quote_and_control_chars() {
    assert_eq!(encode_scalar(&json(r#""a\\b""#)), "\"a\\\\b\"");
    assert_eq!(encode_scalar(&json(r#""a\"b""#)), "\"a\\\"b\"");
    assert_eq!(encode_scalar(&json(r#""a\nb""#)), "\"a\\nb\"");
}

#[test]
fn integers_print_without_a_decimal_point() {
    assert_eq!(encode_scalar(&json(r#"5"#)), "5");
    assert_eq!(encode_scalar(&json(r#"5.0"#)), "5");
}

#[test]
fn trailing_fractional_zeros_are_dropped() {
    assert_eq!(encode_scalar(&json(r#"1.5000"#)), "1.5");
}

#[test]
fn negative_zero_normalizes_to_zero() {
    assert_eq!(encode_scalar(&json(r#"-0.0"#)), "0");
}

#[test]
fn round_trips_a_flat_object() {
    let value = json(r#"{"id": 1, "name": "widget", "active": true, "note": null}"#);
    let toon = encode(&value);
    assert!(same_json(&decode(&toon).unwrap(), &value));
}

#[test]
fn round_trips_a_nested_object() {
    let value = json(r#"{"user": {"id": 123, "name": "Ada", "address": {"city": "Berlin"}}}"#);
    let toon = encode(&value);
    assert!(same_json(&decode(&toon).unwrap(), &value));
}

#[test]
fn round_trips_a_uniform_tabular_array() {
    let value = json(r#"[ {"id": 1, "name": "a", "active": true}, {"id": 2, "name": "b", "active": false}, {"id": 3, "name": "c", "active": true} ]"#);
    let toon = encode(&value);
    assert!(toon.contains("[3]{"), "expected tabular form, got: {toon}");
    assert!(same_json(&decode(&toon).unwrap(), &value));
}

#[test]
fn round_trips_a_primitive_array() {
    let value = json(r#"["reading", "gaming", "coding"]"#);
    let toon = encode(&value);
    assert!(same_json(&decode(&toon).unwrap(), &value));
}

#[test]
fn round_trips_a_non_uniform_array_of_objects() {
    let value = json(r#"[{"a": 1, "b": 2}, {"a": 1}]"#);
    let toon = encode(&value);
    assert!(same_json(&decode(&toon).unwrap(), &value));
}

#[test]
fn round_trips_a_list_item_object_with_several_fields() {
    let value = json(r#"[ {"a": 1, "b": 2, "c": 3, "d": 4}, "plain string sibling" ]"#);
    let toon = encode(&value);
    let decoded = decode(&toon).unwrap();
    assert!(same_json(&decoded, &value));
}

#[test]
fn round_trips_values_needing_quoting() {
    let value = json(r#"[ {"id": 1, "url": "http://a:b"}, {"id": 2, "url": "https://example.com?q=a:b"} ]"#);
    let toon = encode(&value);
    assert!(same_json(&decode(&toon).unwrap(), &value));
}

#[test]
fn round_trips_an_empty_array_and_empty_object_field() {
    let value = json(r#"{"tags": [], "meta": {}}"#);
    let toon = encode(&value);
    assert!(same_json(&decode(&toon).unwrap(), &value));
}

#[test]
fn encode_if_smaller_returns_some_for_a_genuinely_compressible_uniform_array() {
    let value = json(r#"[ {"id": 1, "name": "a", "active": true}, {"id": 2, "name": "b", "active": false}, {"id": 3, "name": "c", "active": true} ]"#);
    let toon = encode_if_smaller(&value);
    assert!(toon.is_some());
    let toon = toon.unwrap();
    assert!(toon.len() < write_json(&value).len());
}

#[test]
fn encode_if_smaller_returns_none_when_toon_is_not_strictly_smaller() {
    let value = json(r#"5"#);
    assert_eq!(encode_if_smaller(&value), None);
}

#[test]
fn round_trips_a_string_containing_a_real_comma_inside_a_tabular_cell() {
    let value = json(r#"[ {"id": 1, "label": "a, b, c"}, {"id": 2, "label": "plain"} ]"#);
    let toon = encode(&value);
    assert!(same_json(&decode(&toon).unwrap(), &value));
}
