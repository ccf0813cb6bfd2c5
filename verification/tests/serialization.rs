use lite_json::JsonValue;
use lite_json::NumberValue;
use lite_json::Serialize;

#[test]
fn serialize_number_value() {
    let val = NumberValue { integer: 1234, fraction: 0, fraction_length: 0, exponent: 0 };
    assert_eq!(val.serialize(), b"1234");

    let val = NumberValue { integer: -1234, fraction: 0, fraction_length: 0, exponent: 0 };
    assert_eq!(val.serialize(), b"-1234");

    let val = NumberValue { integer: -1234, fraction: 5678, fraction_length: 4, exponent: 0 };
    assert_eq!(val.serialize(), b"-1234.5678");

    let val = NumberValue { integer: 1234, fraction: 1, fraction_length: 3, exponent: 0 };
    assert_eq!(val.serialize(), b"1234.001");

    let val = NumberValue { integer: 1234, fraction: 0, fraction_length: 0, exponent: 3 };
    assert_eq!(val.serialize(), b"1234e3");

    let val = NumberValue { integer: 1234, fraction: 0, fraction_length: 0, exponent: -5 };
    assert_eq!(val.serialize(), b"1234e-5");

    let val = NumberValue { integer: 1234, fraction: 56, fraction_length: 4, exponent: -5 };
    assert_eq!(val.serialize(), b"1234.0056e-5");

    let val = NumberValue { integer: -1234, fraction: 5, fraction_length: 2, exponent: 5 };
    assert_eq!(val.serialize(), b"-1234.05e5");
}

#[test]
fn serialize_works() {
    let obj = JsonValue::Object(vec![(
        "test\"123".chars().into_iter().collect(),
        JsonValue::Null,
    )]);
    assert_eq!(
        std::str::from_utf8(&obj.format(4)[..]).unwrap(),
        r#"{
    "test\"123": null
}"#
    );

    let obj = JsonValue::Object(vec![
        (
            vec!['t', 'e', 's', 't'],
            JsonValue::Number(NumberValue {
                integer: 123,
                fraction: 4,
                fraction_length: 2,
                exponent: 0,
            }),
        ),
        (
            vec!['t', 'e', 's', 't', '2'],
            JsonValue::Array(vec![
                JsonValue::Number(NumberValue {
                    integer: 1,
                    fraction: 0,
                    fraction_length: 0,
                    exponent: -4,
                }),
                JsonValue::Number(NumberValue {
                    integer: 2,
                    fraction: 41,
                    fraction_length: 3,
                    exponent: 2,
                }),
                JsonValue::Boolean(true),
                JsonValue::Boolean(false),
                JsonValue::Null,
                JsonValue::String(vec!['\"', '1', 'n', '\"']),
                JsonValue::Object(vec![]),
                JsonValue::Array(vec![]),
            ]),
        ),
    ]);

    assert_eq!(
        std::str::from_utf8(&obj.format(4)[..]).unwrap(),
        r#"{
    "test": 123.04,
    "test2": [
        1e-4,
        2.041e2,
        true,
        false,
        null,
        "\"1n\"",
        {},
        []
    ]
}"#
    );

    assert_eq!(
        std::str::from_utf8(&obj.serialize()[..]).unwrap(),
        r#"{"test":123.04,"test2":[1e-4,2.041e2,true,false,null,"\"1n\"",{},[]]}"#
    );
}

#[test]
fn empty_containers_have_no_interior_whitespace() {
    assert_eq!(JsonValue::Array(vec![]).serialize(), b"[]");
    assert_eq!(JsonValue::Array(vec![]).format(4), b"[]");
    assert_eq!(JsonValue::Object(vec![]).serialize(), b"{}");
    assert_eq!(JsonValue::Object(vec![]).format(4), b"{}");
}

#[test]
fn serialize_escapes_strings() {
    let val = JsonValue::String(vec!['a', '"', '\\', '/', '\n', '\t', '\r', '\u{8}', '\u{c}']);
    assert_eq!(
        std::str::from_utf8(&val.serialize()[..]).unwrap(),
        "\"a\\\"\\\\/\\n\\t\\r\\b\\f\""
    );
}

#[test]
fn serialize_writes_non_ascii_untouched() {
    let val = JsonValue::String(vec!['h', 'é', '€', '𝄞']);
    assert_eq!(std::str::from_utf8(&val.serialize()[..]).unwrap(), "\"hé€𝄞\"");
}

#[test]
fn serialize_renders_fraction_by_digit_count() {
    let val = NumberValue { integer: 1, fraction: 0, fraction_length: 1, exponent: 0 };
    assert_eq!(val.serialize(), b"1.0");
    let val = NumberValue { integer: 1, fraction: 0, fraction_length: 3, exponent: 0 };
    assert_eq!(val.serialize(), b"1.000");
}

#[test]
fn format_indents_array_elements_uniformly() {
    let val = JsonValue::Array(vec![
        JsonValue::Null,
        JsonValue::Object(vec![(vec!['a'], JsonValue::Null)]),
    ]);
    assert_eq!(
        std::str::from_utf8(&val.format(1)[..]).unwrap(),
        "[\n null,\n {\n  \"a\": null\n }\n]"
    );
}

#[test]
fn serialize_extreme_integers() {
    let val = NumberValue {
        integer: i64::MIN,
        fraction: 0,
        fraction_length: 0,
        exponent: 0,
    };
    assert_eq!(val.serialize(), b"-9223372036854775808");
    let val = NumberValue {
        integer: i64::MAX,
        fraction: 0,
        fraction_length: 0,
        exponent: 0,
    };
    assert_eq!(val.serialize(), b"9223372036854775807");
}
