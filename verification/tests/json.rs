use squishi::json::{
    count_value, integer_text, parse_json, same_json, set_field, text_value, write_json, Json, Number,
    MAX_DEPTH,
};

fn json(text: &str) -> Json {
    parse_json(text).unwrap()
}

#[test]
fn values_are_read_variant_by_variant() {
    assert!(matches!(json("null"), Json::Null));
    assert!(matches!(json(" true "), Json::Bool(true)));
    assert!(matches!(json("18446744073709551615"), Json::Number(Number::PosInt(u64::MAX))));
    assert!(matches!(json("-9223372036854775808"), Json::Number(Number::NegInt(i64::MIN))));
    assert!(matches!(json("1.50"), Json::Number(Number::Float(t)) if t == "1.5"));
    assert!(matches!(json("1E2"), Json::Number(Number::Float(t)) if t == "100.0"));
    assert!(matches!(json("18446744073709551616"), Json::Number(Number::Float(_))));
    assert!(matches!(json(r#""aé\n""#), Json::Text(s) if s == "a\u{e9}\n"));
    for text in ["", "nul", "[1,]", "{\"a\"}", "1 2", "NaN", "1e999"] {
        assert!(parse_json(text).is_none(), "{text}");
    }
}

#[test]
fn fields_ascend_and_the_last_of_a_name_counts() {
    let value = json(r#"{"b":1,"a":2,"b":3}"#);
    assert_eq!(write_json(&value), r#"{"a":2,"b":3}"#);
    assert_eq!(value.get_unsigned("b"), Some(3));
    assert!(value.get("c").is_none());
    assert!(value.get_text("a").is_none());
}

#[test]
fn fields_are_read_by_type() {
    let value = json(r#"{"t":"x","b":false,"n":-1,"u":7,"f":7.0}"#);
    assert_eq!(value.get_text("t"), Some("x"));
    assert_eq!(value.get_bool("b"), Some(false));
    assert_eq!(value.get_unsigned("n"), None);
    assert_eq!(value.get_unsigned("u"), Some(7));
    assert_eq!(value.get_unsigned("f"), None);
    assert!(json("[1]").get("0").is_none());
    assert!(json("1").is_scalar() && !json("[]").is_scalar() && !json("{}").is_scalar());
}

#[test]
fn what_was_written_is_read_again() {
    for text in [
        "null",
        "[]",
        "{}",
        r#"[{"a":[1,-2,"\"\\\n\u0001"],"b":null},true]"#,
        r#"{"":{"a b":[[],[{}]]},"€":18446744073709551615}"#,
        "[0.1,1e300,-2.5e-7]",
    ] {
        let value = json(text);
        let written = write_json(&value);
        assert!(!written.contains('\n'));
        assert!(same_json(&json(&written), &value), "{text}");
        assert!(same_json(&value.copy(), &value));
    }
}

#[test]
fn values_are_read_to_a_certain_depth() {
    let depth = MAX_DEPTH as usize;
    let deepest = format!("{}{}", "[".repeat(depth), "]".repeat(depth));
    assert!(same_json(&json(&write_json(&json(&deepest))), &json(&deepest)));
    let deeper = format!("[{deepest}]");
    assert!(parse_json(&deeper).is_none());
    assert!(parse_json(&write_json(&Json::Array(vec![json(&deepest)]))).is_none());
}

#[test]
fn equality_goes_by_value() {
    assert!(same_json(&json("0.0"), &json("-0.0")));
    assert!(!same_json(&json("0"), &json("0.0")));
    assert!(!same_json(&json("1"), &json("true")));
    assert!(same_json(&json("[1,{\"a\":2}]"), &json("[1,{\"a\":2}]")));
    assert!(!same_json(&json("[1,2]"), &json("[2,1]")));
    assert!(!same_json(&json("{\"a\":1}"), &json("{\"b\":1}")));
    assert!(!same_json(&json("{\"a\":1}"), &json("{\"a\":1,\"b\":1}")));
    assert!(same_json(
        &Json::Number(Number::NegInt(5)),
        &Json::Number(Number::PosInt(5))
    ));
}

#[test]
fn a_field_is_set_where_it_belongs() {
    let mut fields = vec![];
    for (key, n) in [("b", 1), ("a", 2), ("c", 3), ("b", 4)] {
        set_field(&mut fields, key.to_string(), count_value(n));
    }
    assert_eq!(write_json(&Json::Object(fields)), r#"{"a":2,"b":4,"c":3}"#);
}

#[test]
fn integers_have_one_text() {
    assert_eq!(integer_text(&Number::PosInt(u64::MAX)), u64::MAX.to_string());
    assert_eq!(integer_text(&Number::NegInt(i64::MIN)), i64::MIN.to_string());
    assert_eq!(integer_text(&Number::NegInt(-1)), "-1");
    assert_eq!(integer_text(&Number::NegInt(3)), "3");
    assert_eq!(write_json(&text_value("a\"b")), r#""a\"b""#);
}
