use serde_tjs::de::MapDeserializer;
use serde_tjs::ser::{MapKeySerializer, MapSerializer};
use serde_tjs::value::pretty_options;
use serde_tjs::{parse_value, SerializeOptions, Value, ValueDeserializer, ValueSerializer};

fn real_text(bits: u64) -> String {
    format!("{}", f64::from_bits(bits))
}

fn read_real(text: &str) -> u64 {
    text.parse::<f64>().expect("a numeral").to_bits()
}

fn render(value: &Value, options: &SerializeOptions) -> String {
    value.to_string_with_options(options, &real_text)
}

fn parse(input: &str) -> Result<Value, serde_tjs::Error> {
    parse_value(input, &read_real)
}

fn integer(n: i64) -> Value {
    Value::Integer(n)
}

fn text(s: &str) -> Value {
    Value::String(s.to_string())
}

#[test]
fn dump_float() {
    let options = SerializeOptions::default();
    let s = render(&Value::Real(1f64.to_bits()), &options);
    assert_eq!(s, "1.0");
    let s = render(&Value::Real(300f64.to_bits()), &options);
    assert_eq!(s, "300.0");
    let s = render(&Value::Real(3e10f64.to_bits()), &options);
    assert_eq!(s, "30000000000.0");
    let s = render(&Value::Real(3e20f64.to_bits()), &options);
    assert_eq!(s, "300000000000000000000.0");
    let s = render(&Value::Real(f64::INFINITY.to_bits()), &options);
    assert_eq!(s, "Infinity");
    let s = render(&Value::Real(f64::NEG_INFINITY.to_bits()), &options);
    assert_eq!(s, "-Infinity");
    let s = render(&Value::Real(f64::NAN.to_bits()), &options);
    assert_eq!(s, "NaN");
    let s = render(&Value::Real((-10f64).to_bits()), &options);
    assert_eq!(s, "-10.0");
}

#[test]
fn fractional_reals_keep_their_text() {
    let options = SerializeOptions::default();
    assert_eq!(render(&Value::Real(1.5f64.to_bits()), &options), "1.5");
    assert_eq!(render(&Value::Real((-0.25f64).to_bits()), &options), "-0.25");
    assert_eq!(render(&Value::Real((-0.0f64).to_bits()), &options), "-0.0");
    assert_eq!(render(&Value::Real(1e-7f64.to_bits()), &options), "0.0000001");
}

#[test]
fn parse_save_struct_sample() {
    let input = r#"(const) [
            1,
            2,
            (const) [4, 5],
            (const) %[
                "a" => 1,
                "b" => 2
            ],
            "文字列"
        ]"#;

    let value = parse(input).expect("failed to parse");
    match value {
        Value::Array(items) => {
            assert_eq!(items.len(), 5);
            assert_eq!(items[0], Value::Integer(1));
            let expected = vec![("a".to_string(), integer(1)), ("b".to_string(), integer(2))];
            assert_eq!(items[3], Value::Dictionary(expected));
            assert_eq!(items[4], text("文字列"));
        }
        _ => panic!("expected array"),
    }
}

#[test]
fn const_hint_toggle() {
    let value = Value::Array(vec![Value::Integer(1), Value::Integer(2)]);
    let mut options = SerializeOptions { const_hint: true, indent: None };
    let with_const = render(&value, &options);
    assert!(with_const.starts_with("(const)"));
    assert_eq!(with_const, "(const) [1, 2]");

    options.const_hint = false;
    let without_const = render(&value, &options);
    assert!(without_const.starts_with("["));
    assert_eq!(without_const, "[1, 2]");
}

#[test]
fn pretty_serialization_inserts_indentation() {
    let data = Value::Array(vec![integer(1), integer(2), integer(3)]);
    let pretty = render(&data, &pretty_options());
    assert!(pretty.contains("[\n  1,"));
    assert!(pretty.ends_with("\n]"));
    assert_eq!(pretty, "(const) [\n  1,\n  2,\n  3\n]");
}

#[test]
fn nested_pretty_layout() {
    let value = Value::Dictionary(vec![
        ("k".to_string(), Value::Array(vec![integer(1)])),
        ("e".to_string(), Value::Array(vec![])),
    ]);
    let options = SerializeOptions { const_hint: false, indent: Some(2) };
    assert_eq!(render(&value, &options), "%[\n  \"k\" => [\n    1\n  ],\n  \"e\" => []\n]");
    let compact = SerializeOptions { const_hint: false, indent: None };
    assert_eq!(render(&value, &compact), "%[\"k\" => [1], \"e\" => []]");
}

#[test]
fn scalars_render() {
    let options = SerializeOptions::default();
    assert_eq!(render(&Value::Void, &options), "void");
    assert_eq!(render(&Value::Null, &options), "null");
    assert_eq!(render(&Value::Bool(true), &options), "true");
    assert_eq!(render(&Value::Bool(false), &options), "false");
    assert_eq!(render(&integer(i64::MIN), &options), "-9223372036854775808");
    assert_eq!(render(&integer(0), &options), "0");
    assert_eq!(render(&Value::Octet(vec![]), &options), "<%%>");
    assert_eq!(render(&Value::Octet(vec![0x0a, 0xff]), &options), "<% 0a ff %>");
    assert_eq!(render(&Value::Dictionary(vec![]), &options), "(const) %[]");
}

#[test]
fn strings_escape() {
    let options = SerializeOptions::default();
    let s = text("a\"b\\c\nd\re\tf\u{8}g\u{c}h\u{1}i\u{7f}j\u{85}文");
    assert_eq!(
        render(&s, &options),
        "\"a\\\"b\\\\c\\nd\\re\\tf\\bg\\fh\\x01i\\x7fj\\x85文\""
    );
}

#[test]
fn round_trip_values() {
    let value = Value::Array(vec![
        Value::Void,
        Value::Null,
        Value::Bool(true),
        integer(-42),
        integer(i64::MAX),
        Value::Real(1.5f64.to_bits()),
        Value::Real(300f64.to_bits()),
        Value::Real((-0.001f64).to_bits()),
        Value::Real(f64::INFINITY.to_bits()),
        Value::Real(f64::NEG_INFINITY.to_bits()),
        text("tab\tquote\"ctl\u{2}文字"),
        Value::Octet(vec![0, 1, 254, 255]),
        Value::Octet(vec![]),
        Value::Dictionary(vec![
            ("x".to_string(), Value::Array(vec![])),
            ("y z".to_string(), Value::Dictionary(vec![])),
            ("w".to_string(), Value::Array(vec![integer(1), Value::Dictionary(vec![("q".to_string(), integer(2))])])),
        ]),
    ]);
    for options in [
        SerializeOptions { const_hint: true, indent: None },
        SerializeOptions { const_hint: false, indent: None },
        SerializeOptions { const_hint: true, indent: Some(2) },
        SerializeOptions { const_hint: false, indent: Some(4) },
        SerializeOptions { const_hint: true, indent: Some(0) },
    ] {
        let printed = render(&value, &options);
        let back = parse(&printed).expect("reparse");
        assert_eq!(back, value);
    }
}

#[test]
fn nan_reads_back_as_nan() {
    let printed = render(&Value::Real(f64::NAN.to_bits()), &SerializeOptions::default());
    match parse(&printed).expect("parse") {
        Value::Real(bits) => assert!(f64::from_bits(bits).is_nan()),
        _ => panic!("expected a real"),
    }
}

#[test]
fn parse_literals_and_numbers() {
    assert_eq!(parse("void").unwrap(), Value::Void);
    assert_eq!(parse("null").unwrap(), Value::Null);
    assert_eq!(parse(" true ").unwrap(), Value::Bool(true));
    assert_eq!(parse("false").unwrap(), Value::Bool(false));
    assert_eq!(parse("NaN").map(|v| matches!(v, Value::Real(b) if f64::from_bits(b).is_nan())).unwrap(), true);
    assert_eq!(parse("Infinity").unwrap(), Value::Real(f64::INFINITY.to_bits()));
    assert_eq!(parse("-Infinity").unwrap(), Value::Real(f64::NEG_INFINITY.to_bits()));
    assert_eq!(parse("+Infinity").unwrap(), Value::Real(f64::INFINITY.to_bits()));
    assert_eq!(parse("42").unwrap(), integer(42));
    assert_eq!(parse("+7").unwrap(), integer(7));
    assert_eq!(parse("-9223372036854775808").unwrap(), integer(i64::MIN));
    assert_eq!(parse("9223372036854775808").unwrap(), Value::Real(9223372036854775808f64.to_bits()));
    assert_eq!(parse("1.25").unwrap(), Value::Real(1.25f64.to_bits()));
    assert_eq!(parse("1e3").unwrap(), Value::Real(1000f64.to_bits()));
    assert_eq!(parse("2E-2").unwrap(), Value::Real(0.02f64.to_bits()));
    assert_eq!(parse("0x1F").unwrap(), integer(31));
    assert_eq!(parse("-0x10").unwrap(), integer(-16));
    assert_eq!(parse("-0x8000000000000000").unwrap(), integer(i64::MIN));
}

#[test]
fn parse_strings_and_escapes() {
    assert_eq!(parse("'single'").unwrap(), text("single"));
    assert_eq!(parse(r#""a\x41\u3042\0\q""#).unwrap(), text("aAあ\0q"));
    assert_eq!(parse(r#""\n\r\t\b\f\\\'\"""#).unwrap(), text("\n\r\t\u{8}\u{c}\\'\""));
}

#[test]
fn parse_comments_hints_and_whitespace() {
    let input = "// lead\n /* block */ const [ (const) 1 ,\u{3000}2, ] // tail";
    assert_eq!(parse(input).unwrap(), Value::Array(vec![integer(1), integer(2)]));
    assert_eq!(parse("const%[]").unwrap(), Value::Dictionary(vec![]));
    assert_eq!(parse("<% 0A ff\n 10 %>").unwrap(), Value::Octet(vec![10, 255, 16]));
}

#[test]
fn dictionary_keys_and_repeats() {
    let v = parse("%[a => 1, 'b': 2, \"a\" => 3,]").unwrap();
    assert_eq!(v, Value::Dictionary(vec![("a".to_string(), integer(3)), ("b".to_string(), integer(2))]));
    let v = parse("%[_k9 => void]").unwrap();
    assert_eq!(v, Value::Dictionary(vec![("_k9".to_string(), Value::Void)]));
}

fn error_of(input: &str) -> (String, Option<usize>) {
    let e = parse(input).expect_err("an error");
    (e.message().to_string(), e.position())
}

#[test]
fn malformed_input() {
    assert_eq!(error_of("1 2"), ("unexpected trailing characters".to_string(), Some(2)));
    assert_eq!(error_of("[1] /* open"), ("unterminated block comment".to_string(), Some(6)));
    assert_eq!(error_of("\"abc"), ("unterminated string".to_string(), Some(4)));
    assert_eq!(error_of("<% 0g %>"), ("invalid octet digit".to_string(), Some(4)));
    assert_eq!(error_of("0x8000000000000000"), ("integer overflow".to_string(), Some(0)));
    assert_eq!(error_of("0xFFFFFFFFFFFFFFFFFFFFFFFFFFFFFFFFF"), ("invalid hex number".to_string(), Some(2)));
}

#[test]
fn each_parse_error() {
    assert_eq!(error_of(""), ("unexpected end of input".to_string(), Some(0)));
    assert_eq!(error_of("?"), ("unexpected token".to_string(), Some(0)));
    assert_eq!(error_of("[1 2]"), ("expected ',' or ']'".to_string(), Some(3)));
    assert_eq!(error_of("%{"), ("expected '['".to_string(), Some(1)));
    assert_eq!(error_of("%[1 => 2]"), ("expected dictionary key".to_string(), Some(2)));
    assert_eq!(error_of("%[a 2]"), ("expected '=>' after key".to_string(), Some(4)));
    assert_eq!(error_of("nope"), ("unknown literal".to_string(), Some(0)));
    assert_eq!(error_of("0x"), ("expected hex digits".to_string(), Some(2)));
    assert_eq!(error_of("1e+"), ("expected exponent digits".to_string(), Some(3)));
    assert_eq!(error_of("-"), ("expected number".to_string(), Some(0)));
    assert_eq!(error_of("\"\\"), ("unterminated escape".to_string(), Some(2)));
    assert_eq!(error_of("\"\\x4"), ("unexpected end of input".to_string(), Some(4)));
    assert_eq!(error_of("\"\\x4z\""), ("invalid hex digit".to_string(), Some(4)));
    assert_eq!(error_of("\"\\uD800\""), ("invalid unicode escape".to_string(), Some(7)));
    assert_eq!(error_of("<% 0"), ("unexpected end of input".to_string(), Some(4)));
}

#[test]
fn error_positions_count_bytes() {
    assert_eq!(error_of("\"文字\" x"), ("unexpected trailing characters".to_string(), Some(9)));
    let e = parse("\"文字\" x").expect_err("an error");
    assert_eq!(e.to_display_string(), "unexpected trailing characters at byte 9");
}

#[test]
fn serializer_scalars() {
    assert_eq!(ValueSerializer.serialize_bool(true), Value::Bool(true));
    assert_eq!(ValueSerializer.serialize_i8(-3), integer(-3));
    assert_eq!(ValueSerializer.serialize_u32(7), integer(7));
    assert_eq!(ValueSerializer.serialize_u64(5), integer(5));
    for v in [1u64 << 63, u64::MAX, (1u64 << 63) + 1024, (1u64 << 63) + 3072, (1u64 << 63) + 1025, (1u64 << 63) + 2048 + 1024] {
        assert_eq!(ValueSerializer.serialize_u64(v), Value::Real((v as f64).to_bits()));
    }
    assert_eq!(ValueSerializer.serialize_char('é'), text("é"));
    assert_eq!(ValueSerializer.serialize_bytes(&[1, 2]), Value::Octet(vec![1, 2]));
    assert_eq!(ValueSerializer.serialize_none(), Value::Void);
    assert_eq!(ValueSerializer.serialize_unit(), Value::Void);
}

#[test]
fn map_serializer_protocol() {
    let mut m: MapSerializer = ValueSerializer.serialize_map();
    assert!(m.serialize_value(integer(1)).is_err());
    m.serialize_key("a".to_string()).unwrap();
    assert!(m.serialize_key("b".to_string()).is_err());
    m.serialize_value(integer(1)).unwrap();
    m.serialize_field("b", integer(2));
    m.serialize_key("a".to_string()).unwrap();
    m.serialize_value(integer(3)).unwrap();
    assert_eq!(m.end(), Value::Dictionary(vec![("a".to_string(), integer(3)), ("b".to_string(), integer(2))]));
}

#[test]
fn map_keys() {
    assert_eq!(MapKeySerializer.serialize_bool(false), "false");
    assert_eq!(MapKeySerializer.serialize_i64(-12), "-12");
    assert_eq!(MapKeySerializer.serialize_u64(u64::MAX), "18446744073709551615");
    assert_eq!(MapKeySerializer.serialize_char('x'), "x");
    assert_eq!(MapKeySerializer.reject().message(), "dictionary keys must be strings");
}

#[test]
fn structured_round_trip() {
    let mut flags = ValueSerializer.serialize_seq();
    flags.serialize_element(ValueSerializer.serialize_bool(true));
    flags.serialize_element(ValueSerializer.serialize_bool(false));
    let mut record = ValueSerializer.serialize_map();
    record.serialize_field("name", ValueSerializer.serialize_str("kirikiri"));
    record.serialize_field("score", ValueSerializer.serialize_i32(42));
    record.serialize_field("flags", flags.end());
    let value = record.end();

    let printed = render(&value, &SerializeOptions::default());
    let back = parse(&printed).expect("deserialize");

    let mut fields: MapDeserializer = ValueDeserializer::new(back).deserialize_map().unwrap();
    let mut name = None;
    let mut score = None;
    let mut flags = Vec::new();
    while let Some(key) = fields.next_key().unwrap() {
        let v = ValueDeserializer::new(fields.next_value().unwrap());
        match key.as_str() {
            "name" => name = Some(v.deserialize_string().unwrap()),
            "score" => score = Some(v.deserialize_i64().unwrap() as i32),
            "flags" => {
                let mut seq = v.deserialize_seq().unwrap();
                while let Some(x) = seq.next_element() {
                    flags.push(ValueDeserializer::new(x).deserialize_bool().unwrap());
                }
            }
            _ => panic!("unknown field"),
        }
    }
    assert_eq!(name.as_deref(), Some("kirikiri"));
    assert_eq!(score, Some(42));
    assert_eq!(flags, vec![true, false]);
}

#[test]
fn map_deserializer_protocol() {
    let value = Value::Dictionary(vec![("k".to_string(), integer(1))]);
    let mut m = ValueDeserializer::new(value).deserialize_map().unwrap();
    assert_eq!(m.next_value().unwrap_err().message(), "value missing for key");
    assert_eq!(m.next_key().unwrap(), Some("k".to_string()));
    assert!(m.next_key().is_err());
    assert_eq!(m.next_value().unwrap(), integer(1));
    assert_eq!(m.next_key().unwrap(), None);
}

#[test]
fn deserializer_kinds() {
    let d = |v: Value| ValueDeserializer::new(v);
    assert_eq!(d(Value::Bool(true)).deserialize_bool().unwrap(), true);
    assert_eq!(d(integer(1)).deserialize_bool().unwrap_err().message(), "expected bool, found Integer");
    assert_eq!(d(integer(-1)).deserialize_u64().unwrap_err().message(), "expected unsigned integer, found Integer");
    assert_eq!(d(integer(5)).deserialize_u64().unwrap(), 5);
    assert_eq!(d(Value::Real(2)).deserialize_i64().unwrap_err().message(), "expected integer, found Real");
    assert_eq!(d(integer(3)).deserialize_f64().unwrap(), integer(3));
    assert_eq!(d(text("x")).deserialize_f64().unwrap_err().message(), "expected float, found String");
    assert_eq!(d(text("é")).deserialize_char().unwrap(), 'é');
    assert_eq!(d(text("ab")).deserialize_char().unwrap_err().message(), "expected single character");
    assert_eq!(d(Value::Null).deserialize_char().unwrap_err().message(), "expected char, found Null");
    assert_eq!(d(text("hé")).deserialize_bytes().unwrap(), "hé".as_bytes().to_vec());
    assert_eq!(d(Value::Octet(vec![9])).deserialize_bytes().unwrap(), vec![9]);
    assert_eq!(d(Value::Void).deserialize_option(), None);
    assert_eq!(d(Value::Null).deserialize_option(), None);
    assert_eq!(d(integer(0)).deserialize_option(), Some(integer(0)));
    assert!(d(Value::Null).deserialize_unit().is_ok());
    assert_eq!(d(integer(0)).deserialize_unit().unwrap_err().message(), "expected unit, found Integer");
    assert_eq!(d(integer(0)).deserialize_seq().err().unwrap().message(), "expected array, found Integer");
    assert_eq!(d(Value::Array(vec![])).deserialize_map().err().unwrap().message(), "expected dictionary, found Array");
    assert_eq!(d(Value::Octet(vec![])).deserialize_string().unwrap_err().message(), "expected string, found Octet");
}

#[test]
fn enum_forms() {
    // a variant without payload
    let unit = ValueSerializer.serialize_unit_variant("Plain");
    assert_eq!(unit, text("Plain"));
    let (name, variant) = ValueDeserializer::new(unit).deserialize_enum().ok().unwrap().variant_seed();
    assert_eq!(name, "Plain");
    assert!(variant.unit_variant().is_ok());
    // an empty dictionary is no variant
    let empty = ValueDeserializer::new(Value::Dictionary(vec![])).deserialize_enum();
    assert_eq!(empty.err().unwrap().message(), "enum representation must contain exactly one entry");
    // one payload
    let one = ValueSerializer.serialize_newtype_variant("One", integer(5));
    assert_eq!(one, Value::Dictionary(vec![("One".to_string(), integer(5))]));
    let (name, variant) = ValueDeserializer::new(one).deserialize_enum().ok().unwrap().variant_seed();
    assert_eq!(name, "One");
    assert_eq!(variant.newtype_variant().unwrap(), integer(5));
    // positional fields
    let mut t = ValueSerializer.serialize_tuple_variant("Pair");
    t.serialize_field(integer(1));
    t.serialize_field(text("b"));
    let pair = t.end();
    let printed = render(&pair, &SerializeOptions::default());
    assert_eq!(printed, "(const) %[\"Pair\" => (const) [1, \"b\"]]");
    let (name, variant) = ValueDeserializer::new(parse(&printed).unwrap()).deserialize_enum().ok().unwrap().variant_seed();
    assert_eq!(name, "Pair");
    let mut fields = variant.tuple_variant().ok().unwrap();
    assert_eq!(fields.next_element(), Some(integer(1)));
    assert_eq!(fields.next_element(), Some(text("b")));
    assert_eq!(fields.next_element(), None);
    // named fields
    let mut s = ValueSerializer.serialize_struct_variant("Rec");
    s.serialize_field("x", integer(1));
    let rec = s.end();
    let (name, variant) = ValueDeserializer::new(rec).deserialize_enum().ok().unwrap().variant_seed();
    assert_eq!(name, "Rec");
    let mut m = variant.struct_variant().ok().unwrap();
    assert_eq!(m.next_key().unwrap(), Some("x".to_string()));
    assert_eq!(m.next_value().unwrap(), integer(1));
    // wrong shapes
    let (_, variant) = ValueDeserializer::new(Value::Dictionary(vec![("T".to_string(), integer(1))])).deserialize_enum().ok().unwrap().variant_seed();
    assert_eq!(variant.tuple_variant().err().unwrap().message(), "tuple variant expected an array");
    assert_eq!(ValueDeserializer::new(integer(1)).deserialize_enum().err().unwrap().message(), "expected enum, found Integer");
}

#[test]
fn default_and_pretty_options() {
    let d = SerializeOptions::default();
    assert!(d.const_hint);
    assert_eq!(d.indent, None);
    let p = pretty_options();
    assert!(p.const_hint);
    assert_eq!(p.indent, Some(2));
}

#[test]
fn error_text_without_position() {
    let e = serde_tjs::Error::new("plain".to_string());
    assert_eq!(e.position(), None);
    assert_eq!(e.to_display_string(), "plain");
    let e = serde_tjs::Error::with_position("at".to_string(), 12);
    assert_eq!(e.position(), Some(12));
    assert_eq!(e.to_display_string(), "at at byte 12");
}

#[test]
fn sample_reparses() {
    let input = "(const) [1, 2.5, (const) [4, 5], (const) %[\"a\" => 1, b: <% 01 %>], \"文字列\"]";
    let value = parse(input).unwrap();
    for options in [SerializeOptions::default(), pretty_options()] {
        let printed = render(&value, &options);
        assert_eq!(parse(&printed).unwrap(), value);
    }
    assert_eq!(render(&value, &SerializeOptions::default()), input.replace("b:", "\"b\" =>"));
}

#[test]
fn nesting_limit() {
    let ok = format!("{}{}", "[".repeat(128), "]".repeat(128));
    assert!(parse(&ok).is_ok());
    let deep = format!("{}{}", "[".repeat(129), "]".repeat(129));
    assert_eq!(error_of(&deep), ("nesting too deep".to_string(), Some(128)));
    let deep_dict = format!("{}1{}", "%[a => ".repeat(129), "]".repeat(129));
    assert_eq!(error_of(&deep_dict).0, "nesting too deep");
}

#[test]
fn conversions_into_value() {
    assert_eq!(Value::from(true), Value::Bool(true));
    assert_eq!(Value::from(-4i64), integer(-4));
    assert_eq!(Value::from("s".to_string()), text("s"));
    assert_eq!(Value::from(vec![integer(1)]), Value::Array(vec![integer(1)]));
}

#[test]
fn bridge_errors_have_no_position() {
    let e = ValueDeserializer::new(Value::Dictionary(vec![])).deserialize_enum().err().unwrap();
    assert_eq!(e.position(), None);
    let mut m = ValueDeserializer::new(Value::Dictionary(vec![])).deserialize_map().ok().unwrap();
    assert_eq!(m.next_value().unwrap_err().position(), None);
    assert_eq!(ValueDeserializer::new(Value::Null).deserialize_bool().unwrap_err().position(), None);
}
