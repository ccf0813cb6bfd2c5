use lite_json::json_parser::Digits;
use lite_json::json_parser::Hex;
use lite_json::json_parser::JsonString;
use lite_json::json_parser::Object;
use lite_json::parse_json;
use lite_json::parse_json_with_options;
use lite_json::JsonValue;
use lite_json::NumberValue;
use lite_json::ParserContext;
use lite_json::ParserOptions;
use lite_json::Serialize;
use lite_json::SimpleError;
use lite_json::SimplePosition;

fn chars_of(s: &str) -> Vec<char> {
    s.chars().collect()
}

fn pos0() -> SimplePosition {
    SimplePosition { index: 0, line: 0, column: 0 }
}

#[test]
fn it_works() {
    assert_eq!(
        parse_json(
            &r#"{ "test": 1, "test2": [1e-4, 2.041e2, true, false, null, "\"1\n\""], "test3": [], "test4": {} }"#
        ),
        Ok(JsonValue::Object(vec![
            (
                vec!['t', 'e', 's', 't'],
                JsonValue::Number(NumberValue {
                    integer: 1,
                    fraction: 0,
                    fraction_length: 0,
                    exponent: 0
                })
            ),
            (
                vec!['t', 'e', 's', 't', '2'],
                JsonValue::Array(vec![
                    JsonValue::Number(NumberValue {
                        integer: 1,
                        fraction: 0,
                        fraction_length: 0,
                        exponent: -4,
                    }),
                    JsonValue::Number(NumberValue {
                        integer: 2,
                        fraction: 41,
                        fraction_length: 3,
                        exponent: 2,
                    }),
                    JsonValue::Boolean(true),
                    JsonValue::Boolean(false),
                    JsonValue::Null,
                    JsonValue::String(vec!['\"', '1', '\n', '\"'])
                ])
            ),
            (vec!['t', 'e', 's', 't', '3'], JsonValue::Array(vec![])),
            (vec!['t', 'e', 's', 't', '4'], JsonValue::Object(vec![]))
        ]))
    )
}

#[test]
fn it_should_consume_all() {
    assert_eq!(
        parse_json(&r#""1"a"#),
        Err(SimpleError {
            reasons: vec![(
                SimplePosition { index: 3, line: 0, column: 3 },
                "Expect end of input"
            )]
        })
    )
}

#[test]
fn it_accepts_nest_level() {
    assert_eq!(
        parse_json_with_options(
            &r#"{ "test": 1 }"#,
            ParserOptions { max_nest_level: Some(1) }
        ),
        Ok(JsonValue::Object(vec![(
            vec!['t', 'e', 's', 't'],
            JsonValue::Number(NumberValue {
                integer: 1,
                fraction: 0,
                fraction_length: 0,
                exponent: 0
            })
        ),]))
    );
}

#[test]
fn it_accepts_more_nest_level() {
    assert_eq!(
        parse_json_with_options(
            &r#"{ "test": { "a": [ {} ] } }"#,
            ParserOptions { max_nest_level: Some(5) }
        ),
        Ok(JsonValue::Object(vec![(
            vec!['t', 'e', 's', 't'],
            JsonValue::Object(vec![(
                vec!['a'],
                JsonValue::Array(vec![JsonValue::Object(vec![])])
            )])
        )]))
    );
}

#[test]
fn it_error_on_too_deep_nest() {
    assert_eq!(
        parse_json_with_options(
            &r#"{ "test": { "a": [ {} ] } }"#,
            ParserOptions { max_nest_level: Some(3) }
        ),
        Err(SimpleError {
            reasons: vec![(SimplePosition { index: 0, line: 0, column: 0 }, "Value")]
        })
    );
}

#[test]
fn duplicate_keys_are_kept_in_order() {
    assert_eq!(
        parse_json(r#"{"a":1,"a":2}"#),
        Ok(JsonValue::Object(vec![
            (
                vec!['a'],
                JsonValue::Number(NumberValue {
                    integer: 1,
                    fraction: 0,
                    fraction_length: 0,
                    exponent: 0
                })
            ),
            (
                vec!['a'],
                JsonValue::Number(NumberValue {
                    integer: 2,
                    fraction: 0,
                    fraction_length: 0,
                    exponent: 0
                })
            ),
        ]))
    );
}

#[test]
fn parse_of_serialized_parse_is_parse() {
    let doc = r#"{ "test": 1, "test2": [1e-4, 2.041e2, true, false, null, "x"], "test3": [] }"#;
    let first = parse_json(doc).unwrap();
    let bytes = first.serialize();
    let second = parse_json(std::str::from_utf8(&bytes).unwrap()).unwrap();
    assert_eq!(first, second);
    let bytes2 = second.serialize();
    assert_eq!(bytes, bytes2);
}

#[test]
fn parse_inverts_serialize_on_built_values() {
    let val = JsonValue::Object(vec![
        (
            vec!['k'],
            JsonValue::Number(NumberValue {
                integer: -12,
                fraction: 5,
                fraction_length: 3,
                exponent: -7,
            }),
        ),
        (
            vec!['l'],
            JsonValue::Array(vec![
                JsonValue::String(vec!['a', '"', '\\', 'é']),
                JsonValue::Boolean(true),
                JsonValue::Null,
                JsonValue::Object(vec![]),
            ]),
        ),
    ]);
    let bytes = val.serialize();
    let back = parse_json(std::str::from_utf8(&bytes).unwrap()).unwrap();
    assert_eq!(back, val);
}

#[test]
fn parse_accepts_extreme_integers() {
    assert_eq!(
        parse_json("-9223372036854775808"),
        Ok(JsonValue::Number(NumberValue {
            integer: i64::MIN,
            fraction: 0,
            fraction_length: 0,
            exponent: 0
        }))
    );
    assert_eq!(
        parse_json("9223372036854775807"),
        Ok(JsonValue::Number(NumberValue {
            integer: i64::MAX,
            fraction: 0,
            fraction_length: 0,
            exponent: 0
        }))
    );
}

#[test]
fn parse_keeps_fraction_length_of_trailing_zeros() {
    assert_eq!(
        parse_json("1.000"),
        Ok(JsonValue::Number(NumberValue {
            integer: 1,
            fraction: 0,
            fraction_length: 3,
            exponent: 0
        }))
    );
}

#[test]
fn parse_decodes_unicode_escapes() {
    assert_eq!(parse_json(r#""\u0041""#), Ok(JsonValue::String(vec!['A'])));
    assert_eq!(
        parse_json(r#""\u0401""#),
        Ok(JsonValue::String(vec!['\u{401}']))
    );
    assert!(parse_json(r#""\uD800""#).is_err());
}

#[test]
fn parse_decodes_letter_escapes_to_control_characters() {
    assert_eq!(
        parse_json(r#""\b\f\n\r\t\/\\\"""#),
        Ok(JsonValue::String(vec![
            '\u{8}', '\u{c}', '\n', '\r', '\t', '/', '\\', '\"'
        ]))
    );
}

#[test]
fn control_characters_in_strings_round_trip() {
    let val = JsonValue::String(vec!['a', '\n', '\t', '\r', '\u{8}', '\u{c}', 'z']);
    let bytes = val.serialize();
    assert_eq!(
        std::str::from_utf8(&bytes).unwrap(),
        r#""a\n\t\r\b\fz""#
    );
    let back = parse_json(std::str::from_utf8(&bytes).unwrap()).unwrap();
    assert_eq!(back, val);
}

#[test]
fn fraction_digit_count_round_trips() {
    let one_point_zero = parse_json("1.0").unwrap();
    assert_eq!(
        one_point_zero,
        JsonValue::Number(NumberValue {
            integer: 1,
            fraction: 0,
            fraction_length: 1,
            exponent: 0
        })
    );
    let bytes = one_point_zero.serialize();
    assert_eq!(std::str::from_utf8(&bytes).unwrap(), "1.0");
    let again = parse_json(std::str::from_utf8(&bytes).unwrap()).unwrap();
    assert_eq!(again, one_point_zero);
}

#[test]
fn parse_rejects_empty_input() {
    assert_eq!(
        parse_json(""),
        Err(SimpleError {
            reasons: vec![(SimplePosition { index: 0, line: 0, column: 0 }, "Out of bounds")]
        })
    );
}

#[test]
fn error_positions_track_lines_and_columns() {
    assert_eq!(
        parse_json("\n\"1\"a"),
        Err(SimpleError {
            reasons: vec![(
                SimplePosition { index: 4, line: 1, column: 3 },
                "Expect end of input"
            )]
        })
    );
}

#[test]
fn object_reports_exceeded_nest_level() {
    let input = chars_of("{}");
    let ctx = ParserContext::new(ParserOptions { max_nest_level: Some(0) });
    let err = Object::parse(&input, pos0(), &ctx).unwrap_err();
    assert_eq!(err.reasons()[0], (pos0(), "Exceeded nest level"));
}

#[test]
fn string_production_stops_at_invalid_escape() {
    let input = chars_of(r#""a\q""#);
    let err = JsonString::parse(&input, pos0(), &ParserContext::new(ParserOptions::default()))
        .unwrap_err();
    let last = err.reasons()[err.reasons().len() - 1];
    assert_eq!(last, (pos0(), "String"));
}

#[test]
fn digit_and_hex_productions_read_single_tokens() {
    let ctx = ParserContext::new(ParserOptions::default());
    let input = chars_of("123a");
    let (digits, pos) = Digits::parse(&input, pos0(), &ctx).unwrap();
    assert_eq!(digits, vec!['1', '2', '3']);
    assert_eq!(pos.index(), 3);

    let input = chars_of("f");
    let (value, _) = Hex::parse(&input, pos0(), &ctx).unwrap();
    assert_eq!(value, 15);
}

#[test]
fn position_arithmetic_tracks_newlines() {
    let p = pos0().next('a').next('\n').next('b');
    assert_eq!(p.index(), 3);
    assert_eq!(p.line(), 1);
    assert_eq!(p.column(), 1);
    assert_eq!(p.sub(pos0()), 3);
    assert_eq!(pos0().sub(p), -3);
}
