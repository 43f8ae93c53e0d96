use squishi::json::{parse_json, same_json, write_json, Json};
use squishi::toon::{decode, encode, DecodeError};

fn json(text: &str) -> Json {
    parse_json(text).unwrap()
}

fn error(text: &str) -> String {
    match decode(text) {
        Ok(value) => panic!("{}", write_json(&value)),
        Err(e) => e.to_text(),
    }
}

#[test]
fn what_was_encoded_is_decoded() {
    for text in [
        "{}",
        "[]",
        "[1,-2,18446744073709551615,null,true,\"x\"]",
        "[0.5,-1.25,1.5e10,0.000001]",
        r#"{"":"","a b":" padded ","c":"x:y","d":"- #"}"#,
        r#"{"a":{"b":{"c":{}}},"d":[],"e":{}}"#,
        r#"{"list":[{"a":1,"b":{"c":[1,2]}},{},3,"four",{"z":"\n"}]}"#,
        r#"{"list":[{"rows":[{"x":1},{"x":2}]},{"one":["a,b","\"q\""]}]}"#,
        r#"[{"id":1,"text":"a,b"},{"id":2,"text":""}]"#,
        r#"{"t":[{"x:y":1,"[":2},{"x:y":3,"[":4}]}"#,
        r#"{"s":["true","1e5","007","\\u0001"]}"#,
        // A value on its own.
        "null",
        "true",
        "-7",
        "0.25",
        r#""plain""#,
        r#""a: b""#,
        r#""a\"b[3]: c""#,
        r#""""#,
        // Fractions with all their digits.
        "[0.1234567890123,1e-300,1.7976931348623157e308,0.1,-2.5]",
        // Whole doubles that are no integers of 64 bits.
        "[1e30,-1e25,1e300]",
        r#"{"a":1e30,"b":[{"x":-1e25,"y":1},{"x":1e300,"y":2}],"c":[18446744073709551616,"x",[1e21]]}"#,
        "1e30",
        "-1e19",
        // Items that start with an array or an object.
        r#"[{"a":[1,2],"b":3},1]"#,
        r#"[{"a":[{"x":1,"y":2},{"x":3,"y":4}],"b":3},1]"#,
        r#"[{"a":[{"x":1},2,[3]],"b":3},1]"#,
        r#"[{"a":{"x":{"y":1}},"b":3},1]"#,
        r#"[{"a":{},"b":3},{"a":[],"b":3},1]"#,
        r#"[{"a":{}},1]"#,
        r#"[{"a":[]},1]"#,
        r#"{"deep":[[{"a":{}},1]]}"#,
        // Arrays of arrays, and of objects without fields.
        "[[1,2],[3]]",
        "[[],[[]],[[1],[]]]",
        "[{},{}]",
        r#"{"l":["a:b",{},"c[1]: 2","- d"]}"#,
        // Names with signs that the grammar uses.
        r#"{"a:b":1,"c[2]":2,"{d}":3," e ":4,"- f":5,"g\nh":6,"\"i\"":7}"#,
        r#"[{"a,b":1,"c}":2,"d\"e":3},{"a,b":4,"c}":5,"d\"e":6}]"#,
        // Spaces other than the blank.
        "{\"a\":\"\u{a0}x\u{a0}\",\"b\":[\"\u{3000}\",\"\u{85}y\"]}",
    ] {
        let value = json(text);
        let toon = encode(&value);
        let back = match decode(&toon) {
            Ok(v) => v,
            Err(e) => panic!("{}: {toon}", e.to_text()),
        };
        assert!(same_json(&back, &value), "{text}\n{toon}\n{}", write_json(&back));
    }
}

#[test]
fn a_whole_double_in_the_range_of_integers_comes_back_as_one() {
    for (double, integer) in [("5.0", "5"), ("-0.0", "0"), ("-3e2", "-300"), ("1e19", "10000000000000000000")] {
        match decode(&encode(&json(&format!("{{\"n\":{double}}}")))) {
            Ok(back) => assert!(same_json(&back, &json(&format!("{{\"n\":{integer}}}")))),
            Err(e) => panic!("{}", e.to_text()),
        }
    }
}

#[test]
fn what_stands_first_in_an_item_stands_behind_its_hyphen() {
    assert_eq!(encode(&json(r#"[{"a":[]},1]"#)), "[2]:\n  - a: []\n  - 1");
    assert_eq!(encode(&json(r#"[{"a":{}},1]"#)), "[2]:\n  - a:\n  - 1");
    assert_eq!(
        encode(&json(r#"[{"a":[1,2],"b":3},1]"#)),
        "[2]:\n  - a[2]: 1,2\n    b: 3\n  - 1"
    );
    assert_eq!(encode(&json("[{},1]")), "[2]:\n  -\n  - 1");
}

#[test]
fn names_are_quoted_where_the_grammar_needs_it() {
    assert_eq!(encode(&json(r#"{"a:b":1}"#)), "\"a:b\": 1");
    assert_eq!(encode(&json(r#"{"plain_name":1}"#)), "plain_name: 1");
}

#[test]
fn each_error_tells_what_is_wrong() {
    assert_eq!(error("[2: 1"), "TOON decode error: missing ']' in array header: [2: 1");
    assert_eq!(error("[x]: 1"), "TOON decode error: bad array length in: [x]: 1");
    assert_eq!(error("a[2: 1"), "TOON decode error: missing ']' in header: a[2: 1");
    assert_eq!(error("a[x]: 1"), "TOON decode error: bad length in header: a[x]: 1");
    assert_eq!(error("a[1]{x:"), "TOON decode error: missing '}' in tabular header");
    assert_eq!(error("a[2]{x}:\n  1"), "TOON decode error: truncated tabular array");
    assert_eq!(error("a[1]x"), "TOON decode error: unrecognized array header suffix: \"x\"");
    assert_eq!(error("a[1]:"), "TOON decode error: truncated list");
    assert_eq!(error("a[1]:\n  b: 1"), "TOON decode error: expected '-' list item, got:   b: 1");
    assert_eq!(
        error("a[1]:\n  - b[1: 2"),
        "TOON decode error: missing ']' after list-item array key"
    );
    assert_eq!(error("a[1]:\n  - b[x]: 2"), "TOON decode error: bad count in list-item array key");
    assert_eq!(error("a[1]:\n  - [1"), "TOON decode error: missing ']' in list-item array");
    assert_eq!(error("a[1]:\n  - [x]"), "TOON decode error: bad count in list-item array");
    assert_eq!(error("x: 1\nno colon"), "TOON decode error: expected ':' in: no colon");
    assert_eq!(DecodeError("x".to_string()).to_text(), "TOON decode error: x");
}

#[test]
fn escapes_are_read() {
    let text = |toon: &str| match decode(toon) {
        Ok(v) => v.get_text("k").unwrap().to_string(),
        Err(e) => panic!("{}", e.to_text()),
    };
    assert_eq!(text(r#"k: "\n\r\t\\\"é\u0001""#), "\n\r\t\\\"\u{e9}\u{1}");
    // An unknown escape stands for its character, and a code that is no character for nothing.
    assert_eq!(text(r#"k: "a\xb\ud800c""#), "axbc");
    assert_eq!(text(r#"k: "a\u00""#), "a\0");
    assert_eq!(text(r#"k: "\u+041""#), "A");
    assert_eq!(text(r#"k: ""#), "\"");
}

#[test]
fn fractions_are_written_plainly() {
    let toon = |text: &str| encode(&json(&format!("[{text}]")));
    assert_eq!(toon("0.1"), "[1]: 0.1");
    assert_eq!(toon("1.5e20"), "[1]: 150000000000000000000");
    assert_eq!(toon("1.5e21"), "[1]: 1500000000000000000000");
    assert_eq!(toon("-1e25"), "[1]: -10000000000000000000000000");
    assert_eq!(toon("1e-6"), "[1]: 0.000001");
    assert_eq!(toon("1e-7"), "[1]: 0.0000001");
    assert_eq!(toon("0.1234567890123"), "[1]: 0.1234567890123");
    assert_eq!(toon("-2.50"), "[1]: -2.5");
    assert_eq!(toon("-0.0"), "[1]: 0");
    assert_eq!(toon("7.0"), "[1]: 7");
}
