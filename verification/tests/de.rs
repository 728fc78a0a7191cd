use serde_yaml2::de::{Errors, YamlDeserializer};
use serde_yaml2::from_str;
use serde_yaml2::shape::{read_value, Shape, Variant};
use serde_yaml2::value::Value;
use serde_yaml2::wrapper::{Node, YamlNodeWrapper};

fn decode(shape: Shape, data: &str) -> Value {
    let mut deserializer = YamlDeserializer::from_str(data).unwrap();
    read_value(&mut deserializer, &shape).unwrap()
}

fn text(s: &str) -> Value {
    Value::Text(String::from(s))
}

fn float_of(value: Value) -> f64 {
    match value {
        Value::Real(text) => text.parse::<f64>().unwrap(),
        other => panic!("not a real number: {:?}", other),
    }
}

fn float32_of(value: Value) -> f32 {
    match value {
        Value::Real(text) => text.parse::<f32>().unwrap(),
        other => panic!("not a real number: {:?}", other),
    }
}

fn ints(items: &[i64]) -> Value {
    Value::Sequence(items.iter().map(|i| Value::Int(*i)).collect())
}

fn sequence_of(shape: Shape) -> Shape {
    Shape::Sequence(Box::new(shape))
}

fn optional(shape: Shape) -> Shape {
    Shape::Optional(Box::new(shape))
}

fn test_struct_shape() -> Shape {
    Shape::Struct(vec![(String::from("x"), Shape::I32), (String::from("y"), Shape::Text)])
}

fn test_struct(x: i64, y: &str) -> Value {
    Value::Mapping(vec![(text("x"), Value::Int(x)), (text("y"), text(y))])
}

fn test_enum_shape() -> Shape {
    Shape::Enum(vec![
        (String::from("VariantA"), Variant::Unit),
        (String::from("VariantB"), Variant::Tuple(vec![])),
        (String::from("VariantC"), Variant::Tuple(vec![Shape::I32, Shape::Text])),
        (String::from("VariantD"), Variant::Newtype(Box::new(test_struct_shape()))),
    ])
}

fn string_map_shape(value: Shape) -> Shape {
    Shape::Mapping(Box::new(Shape::Text), Box::new(value))
}

#[test]
fn should_work() {
    assert_eq!(Value::Null, decode(Shape::Unit, "null"));
    assert_eq!(Value::Null, decode(Shape::Unit, "~"));

    assert_eq!(Value::Char('a'), decode(Shape::Char, "a"));

    assert_eq!(Value::Int(123), decode(Shape::I8, "123"));
    assert_eq!(Value::Int(123), decode(Shape::I16, "123"));
    assert_eq!(Value::Int(123), decode(Shape::I32, "123"));
    assert_eq!(Value::Int(123), decode(Shape::I64, "123"));
    assert_eq!(Value::UInt(123), decode(Shape::U8, "123"));
    assert_eq!(Value::UInt(123), decode(Shape::U16, "123"));
    assert_eq!(Value::UInt(123), decode(Shape::U32, "123"));
    assert_eq!(Value::UInt(123), decode(Shape::U64, "123"));
    assert_eq!(Value::Int(-123), decode(Shape::I64, "-123"));

    assert_eq!(123.341, float_of(decode(Shape::Real, "123.341")));
    assert_eq!(-123.341, float_of(decode(Shape::Real, "-123.341")));

    assert_eq!(123.341, float32_of(decode(Shape::Real, "123.341")));
    assert_eq!(-123.341, float32_of(decode(Shape::Real, "-123.341")));

    assert_eq!(0.0, float_of(decode(Shape::Real, "0")));
    assert_eq!(0.0, float_of(decode(Shape::Real, "-0")));

    assert_eq!(Value::Bool(true), decode(Shape::Bool, "true"));
    assert_eq!(Value::Bool(false), decode(Shape::Bool, "false"));

    assert_eq!(text("Hello double quotes"), decode(Shape::Text, r#""Hello double quotes""#));
    assert_eq!(text("Hello single quotes"), decode(Shape::Text, r#"'Hello single quotes'"#));
    assert_eq!(text("Hello no quotes"), decode(Shape::Text, r#"Hello no quotes"#));

    assert_eq!(Value::Int(32), decode(optional(Shape::I32), "32"));
    assert_eq!(Value::Null, decode(optional(Shape::I32), "~"));
    assert_eq!(Value::Null, decode(optional(Shape::I32), "null"));

    assert_eq!(
        text("This is multiline string\n"),
        decode(
            Shape::Text,
            r#"
>
    This is
    multiline
    string
"#
        )
    );

    assert_eq!(
        text("This is\nmultiline\nstring\n"),
        decode(
            Shape::Text,
            r#"
|
    This is
    multiline
    string
"#
        )
    );

    assert_eq!(
        text("This is multiline string"),
        decode(
            Shape::Text,
            r#"
>-
    This is
    multiline
    string
"#
        )
    );

    assert_eq!(
        text("This is\nmultiline\nstring"),
        decode(
            Shape::Text,
            r#"
|-
    This is
    multiline
    string
"#
        )
    );

    assert_eq!(ints(&[1, 2, 3]), decode(sequence_of(Shape::I32), "[1,2,3]"));
    assert_eq!(ints(&[1, 2, 3]), decode(sequence_of(optional(Shape::I32)), "[1,2,3]"));
    assert_eq!(
        Value::Sequence(vec![Value::Int(1), Value::Null, Value::Int(3)]),
        decode(sequence_of(optional(Shape::I32)), "[1,~,3]")
    );
    assert_eq!(Value::Sequence(vec![]), decode(sequence_of(Shape::I32), "[]"));

    assert_eq!(
        ints(&[1, 2, 3]),
        decode(
            sequence_of(Shape::I32),
            r#"
- 1
- 2
- 3
"#
        )
    );

    assert_eq!(
        ints(&[1, 2, 3]),
        decode(Shape::Tuple(vec![Shape::I32, Shape::I8, Shape::I64]), "[1,2,3]")
    );
    assert_eq!(Value::Null, decode(Shape::Unit, "~"));
    assert_eq!(Value::Null, decode(Shape::Unit, "null"));
    assert_eq!(
        ints(&[321, 12, -4123]),
        decode(
            Shape::Tuple(vec![Shape::I32, Shape::I8, Shape::I64]),
            r#"
- 321
- 12
- -4123
"#
        )
    );

    assert_eq!(Value::Null, decode(Shape::Unit, "null"));
    assert_eq!(Value::Null, decode(Shape::Unit, "~"));

    assert_eq!(Value::Sequence(vec![]), decode(Shape::Tuple(vec![]), "[]"));

    let tuple_struct = || Shape::Tuple(vec![Shape::I32, Shape::Text, Shape::Bool, Shape::Real]);
    match decode(tuple_struct(), r#"[32, "Hello string", true, 45.0]"#) {
        Value::Sequence(mut items) => {
            assert_eq!(45.0, float_of(items.pop().unwrap()));
            assert_eq!(vec![Value::Int(32), text("Hello string"), Value::Bool(true)], items);
        }
        other => panic!("not a sequence: {:?}", other),
    }

    match decode(
        tuple_struct(),
        r#"
- 123
- Hello world
- true
- 123.00
"#,
    ) {
        Value::Sequence(mut items) => {
            assert_eq!(123.0, float_of(items.pop().unwrap()));
            assert_eq!(vec![Value::Int(123), text("Hello world"), Value::Bool(true)], items);
        }
        other => panic!("not a sequence: {:?}", other),
    }

    assert_eq!(
        test_struct(3123, "Hello world"),
        decode(
            test_struct_shape(),
            r#"
x: 3123
y: Hello world
"#
        )
    );

    assert_eq!(
        Value::UnitVariant(String::from("VariantA")),
        decode(test_enum_shape(), r#"VariantA: ~"#)
    );
    assert_eq!(
        Value::TupleVariant(String::from("VariantB"), vec![]),
        decode(test_enum_shape(), r#"VariantB: []"#)
    );
    assert_eq!(
        Value::TupleVariant(String::from("VariantC"), vec![Value::Int(12), text("Hello world")]),
        decode(test_enum_shape(), r#"VariantC: [12, 'Hello world']"#)
    );
    assert_eq!(
        Value::NewtypeVariant(String::from("VariantD"), Box::new(test_struct(12, "Hello world"))),
        decode(
            test_enum_shape(),
            r#"
VariantD:
    x: 12
    y: Hello world
"#
        )
    );

    {
        let expected = Value::Mapping(vec![(text("foo"), text("321"))]);
        assert_eq!(expected, decode(string_map_shape(Shape::Text), r#"foo: 321"#));
        assert_eq!(expected, decode(string_map_shape(Shape::Text), r#"foo: '321'"#));
        assert_eq!(expected, decode(string_map_shape(Shape::Text), r#"foo: "321""#));
    }

    {
        assert_eq!(
            Value::Mapping(vec![(text("foo"), Value::Null)]),
            decode(string_map_shape(optional(Shape::Text)), r#"foo: ~"#)
        );
    }

    assert_eq!(
        Value::Mapping(vec![
            (text("kind"), text("Test")),
            (
                text("data"),
                Value::Dynamic(YamlNodeWrapper::new(Node::Array(vec![
                    Node::Text("Hello".to_owned()),
                    Node::Text("world".to_owned())
                ])))
            ),
        ]),
        decode(
            Shape::Struct(vec![
                (String::from("kind"), Shape::Text),
                (String::from("data"), Shape::Any)
            ]),
            "kind: Test\ndata: [ 'Hello', 'world' ]"
        )
    );
}

#[test]
fn dynamic_nodes_are_classified() {
    assert_eq!(
        Value::Dynamic(YamlNodeWrapper::new(Node::Hash(vec![
            (Node::Text("kind".to_owned()), Node::Text("Foo".to_owned())),
            (
                Node::Text("data".to_owned()),
                Node::Array(vec![
                    Node::Integer(1),
                    Node::Real("2.5".to_owned()),
                    Node::Boolean(true),
                    Node::Null,
                    Node::Integer(42),
                ])
            ),
        ]))),
        decode(Shape::Any, "kind: Foo\ndata: [1, 2.5, true, ~, 0x2A]\n")
    );
}

#[test]
fn null_and_tilde_are_none() {
    assert_eq!(Value::Null, decode(optional(Shape::Text), "null"));
    assert_eq!(Value::Null, decode(optional(Shape::Text), "~"));
    assert_eq!(text("nil"), decode(optional(Shape::Text), "nil"));
    assert_eq!(ints(&[1]), decode(optional(sequence_of(Shape::I64)), "[1]"));
}

#[test]
fn enum_is_a_mapping_with_one_key() {
    assert_eq!(
        Value::TupleVariant(String::from("VariantC"), vec![Value::Int(1), text("x")]),
        decode(test_enum_shape(), "VariantC: [1, \"x\"]")
    );
    let lacking = Shape::Enum(vec![(String::from("VariantA"), Variant::Unit)]);
    match from_str("VariantC: [1, \"x\"]", &lacking) {
        Err(Errors::UnexpectedScalarValueError(expected, got, _)) => {
            assert_eq!("Variant name", expected);
            assert_eq!("VariantC", got);
        }
        other => panic!("unexpected result: {:?}", other),
    }
    assert_eq!(
        Err(Errors::Custom("Expected MappingEnd")),
        from_str("VariantA: ~\nVariantB: []", &test_enum_shape())
    );
}

#[test]
fn quoted_number_is_no_number() {
    assert!(matches!(
        from_str("\"123\"", &Shape::I32),
        Err(Errors::UnexpectedEventError("Scalar", _, _))
    ));
    assert!(matches!(
        from_str("'123'", &Shape::U64),
        Err(Errors::UnexpectedEventError("Scalar", _, _))
    ));
    assert_eq!(Ok(text("123")), from_str("\"123\"", &Shape::Text));
}

#[test]
fn integers_are_held_to_their_width() {
    assert_eq!(Ok(Value::Int(-128)), from_str("-128", &Shape::I8));
    assert_eq!(Err(Errors::ParseNumberError("128".to_owned())), from_str("128", &Shape::I8));
    assert_eq!(Ok(Value::UInt(255)), from_str("255", &Shape::U8));
    assert_eq!(Err(Errors::ParseNumberError("256".to_owned())), from_str("256", &Shape::U8));
    assert_eq!(Err(Errors::ParseNumberError("-1".to_owned())), from_str("-1", &Shape::U8));
    assert_eq!(Ok(Value::UInt(7)), from_str("+7", &Shape::U16));
    assert_eq!(Ok(Value::Int(7)), from_str("007", &Shape::I16));
    assert_eq!(
        Ok(Value::Int(i64::MIN)),
        from_str("-9223372036854775808", &Shape::I64)
    );
    assert_eq!(
        Err(Errors::ParseNumberError("9223372036854775808".to_owned())),
        from_str("9223372036854775808", &Shape::I64)
    );
    assert_eq!(
        Ok(Value::UInt(u64::MAX)),
        from_str("18446744073709551615", &Shape::U64)
    );
    assert_eq!(Err(Errors::ParseNumberError("12a".to_owned())), from_str("12a", &Shape::I32));
    assert_eq!(Err(Errors::ParseNumberError("-x".to_owned())), from_str("-x", &Shape::I32));
    assert_eq!(Err(Errors::ParseNumberError("+".to_owned())), from_str("+", &Shape::I32));
}

#[test]
fn every_error_has_an_input() {
    match from_str("maybe", &Shape::Bool) {
        Err(Errors::UnexpectedScalarValueError(expected, got, marker)) => {
            assert_eq!("'true' of 'false'", expected);
            assert_eq!("maybe", got);
            assert_eq!(1, marker.line);
        }
        other => panic!("unexpected result: {:?}", other),
    }
    assert!(matches!(
        from_str("[1]", &Shape::I32),
        Err(Errors::UnexpectedEventError("Scalar", _, _))
    ));
    assert!(matches!(from_str("\"open", &Shape::Text), Err(Errors::ScanError(_))));
    assert_eq!(Err(Errors::ParseNumberError("abc".to_owned())), from_str("abc", &Shape::I32));
    assert_eq!(
        Err(Errors::Custom("Deserialization of &str is not supported")),
        from_str("abc", &Shape::Str)
    );
    assert_eq!(
        Err(Errors::Custom("Deserialization of bytes is not supported")),
        from_str("abc", &Shape::Bytes)
    );
    assert_eq!(
        Err(Errors::Custom("Expected SequenceEnd")),
        from_str("[1, 2, 3]", &Shape::Tuple(vec![Shape::I32, Shape::I32]))
    );
    assert!(matches!(
        from_str("ab", &Shape::Char),
        Err(Errors::UnexpectedScalarValueError("String with length 1", _, _))
    ));
    assert!(matches!(
        from_str("yes", &Shape::Unit),
        Err(Errors::UnexpectedScalarValueError("'null' or '~'", _, _))
    ));
    assert!(matches!(
        from_str("x: 1\nx: 2\ny: a\n", &test_struct_shape()),
        Err(Errors::UnexpectedScalarValueError("Field that was not read before", _, _))
    ));
    assert_eq!(Err(Errors::Custom("Missing field")), from_str("x: 1\n", &test_struct_shape()));
    assert_eq!(Err(Errors::ParseNumberError("abc".to_owned())), from_str("abc", &Shape::Real));
    assert_eq!(
        Err(Errors::ParseNumberError(".inf".to_owned())),
        from_str("[.inf]", &sequence_of(Shape::Any))
    );
    assert_eq!(
        Err(Errors::Custom("Unexpected Alias event")),
        from_str("[&a 1, *a]", &sequence_of(Shape::Any))
    );
}

#[test]
fn a_decoder_that_has_ended_says_so_again() {
    let mut deserializer = YamlDeserializer::from_str("1").unwrap();
    assert_eq!(Ok(1), deserializer.deserialize_i32());
    for _ in 0..4 {
        assert!(matches!(
            deserializer.deserialize_i32(),
            Err(Errors::UnexpectedEventError("Scalar", _, _))
        ));
    }
    assert!(matches!(YamlDeserializer::from_str("[\"open"), Err(Errors::ScanError(_))));
    let mut failed = YamlDeserializer::from_str("- 1\n- \"open").unwrap();
    assert_eq!(Ok(()), failed.deserialize_seq());
    assert_eq!(Ok(1), failed.deserialize_i32());
    let first = failed.deserialize_string();
    assert!(matches!(first, Err(Errors::ScanError(_))));
    assert_eq!(first, failed.deserialize_string());
    assert_eq!(true, failed.next_element());
}

#[test]
fn one_character_may_take_several_bytes() {
    assert_eq!(Ok(Value::Char('é')), from_str("é", &Shape::Char));
}

#[test]
fn decoding_errors_have_messages() {
    assert_eq!(
        "Unexpected scalar value at position Line: 1, Column: 0, Index: 0. Expected: 'true' of 'false', got: maybe",
        from_str("maybe", &Shape::Bool).unwrap_err().message()
    );
    assert_eq!(
        "Unexpected event at position Line: 1, Column: 0, Index: 0. Expected: Scalar, got: SequenceStart(0, None)",
        from_str("[1]", &Shape::I32).unwrap_err().message()
    );
    assert_eq!(
        "Unexpected event at position Line: 2, Column: 3, Index: 8. Expected: Scalar, got: Scalar(\"12\", DoubleQuoted, 0, None)",
        from_str("a: 1\nb: \"12\"", &Shape::Struct(vec![
            (String::from("a"), Shape::I32),
            (String::from("b"), Shape::I32),
        ]))
        .unwrap_err()
        .message()
    );
    assert_eq!(
        "Error while parsing scalar abc into number",
        from_str("abc", &Shape::I32).unwrap_err().message()
    );
    assert_eq!(
        "Deserialization of &str is not supported",
        from_str("abc", &Shape::Str).unwrap_err().message()
    );
    let scan = from_str("\"open", &Shape::Text).unwrap_err();
    match &scan {
        Errors::ScanError(marker) => assert_eq!(
            format!(
                "Scan error at position Line: {}, Column: {}, Index: {}",
                marker.line, marker.col, marker.index
            ),
            scan.message()
        ),
        other => panic!("unexpected error: {:?}", other),
    }
}

#[test]
fn fields_come_in_any_order() {
    assert_eq!(
        Ok(test_struct(2, "1")),
        from_str("y: 1\nx: 2\n", &test_struct_shape())
    );
}

#[test]
fn unknown_fields_are_skipped() {
    assert_eq!(
        Ok(test_struct(2, "b")),
        from_str(
            "first: [1, {a: b}]\ny: b\nsecond:\n  deep: ~\nx: 2\nthird: 3.5\n",
            &test_struct_shape()
        )
    );
    assert_eq!(
        Err(Errors::Custom("Unexpected Alias event")),
        from_str("x: &a 1\nother: *a\ny: b\n", &test_struct_shape())
    );
}

#[test]
fn missing_optional_field_is_none() {
    let shape = Shape::Struct(vec![
        (String::from("x"), Shape::I32),
        (String::from("maybe"), optional(Shape::Text)),
    ]);
    assert_eq!(
        Ok(Value::Mapping(vec![(text("x"), Value::Int(1)), (text("maybe"), Value::Null)])),
        from_str("x: 1\n", &shape)
    );
    assert_eq!(
        Ok(Value::Mapping(vec![(text("x"), Value::Int(1)), (text("maybe"), text("so"))])),
        from_str("maybe: so\nx: 1\n", &shape)
    );
}

#[test]
fn boolean_and_character_of_another_style_are_unexpected_values() {
    let mut quoted = YamlDeserializer::from_str("'true'").unwrap();
    match quoted.deserialize_bool() {
        Err(Errors::UnexpectedScalarValueError(expected, got, _)) => {
            assert_eq!("'true' of 'false'", expected);
            assert_eq!("true", got);
        }
        other => panic!("unexpected result: {:?}", other),
    }
    assert!(matches!(
        from_str("\"false\"", &Shape::Bool),
        Err(Errors::UnexpectedScalarValueError("'true' of 'false'", _, _))
    ));
    assert!(matches!(
        from_str("[true]", &Shape::Bool),
        Err(Errors::UnexpectedEventError("Plain scalar", _, _))
    ));
    assert!(matches!(
        from_str("'a'", &Shape::Char),
        Err(Errors::UnexpectedScalarValueError("String with length 1", _, _))
    ));
    assert!(matches!(
        from_str("[a]", &Shape::Char),
        Err(Errors::UnexpectedEventError("Plain scalar", _, _))
    ));
}

#[test]
fn real_numerals_are_those_that_the_standard_library_reads() {
    let samples = [
        "0", "-0", "+0", "1", "12.5", "-12.5", "+12.5", ".5", "5.", ".", "", "+", "-", "1e5",
        "1E5", "1e+5", "1e-5", "1e", "1e+", "e5", ".e5", "1.e5", ".5e5", "1.5e5", "1.5e", "inf",
        "+inf", "-inf", "Inf", "INF", "infinity", "Infinity", "-INFINITY", "infinit", "nan",
        "NaN", "-nan", "+NAN", "nano", "na", ".inf", ".nan", "0x10", "1_000", " 1", "1 ", "1.2.3",
        "--1", "+-1", "1e5.5", "1e5e5", "abc", "12a", "a12", "１２", "1é", "é", "123456789012345678901234567890",
        "0.000000000000000000000000000000000000001", "1e400", "1e-400", "00.10", "+.e1", "-.",
    ];
    for sample in samples {
        assert_eq!(
            sample.parse::<f64>().is_ok(),
            serde_yaml2::text::real_numeral(sample),
            "for {:?}",
            sample
        );
        assert_eq!(sample.parse::<f32>().is_ok(), serde_yaml2::text::real_numeral(sample));
    }
}

#[test]
fn repeated_key_keeps_the_last_value() {
    assert_eq!(
        Value::Dynamic(YamlNodeWrapper::new(Node::Hash(vec![
            (Node::Text("b".to_owned()), Node::Integer(2)),
            (Node::Integer(1), Node::Null),
            (Node::Text("a".to_owned()), Node::Array(vec![Node::Integer(3)])),
        ]))),
        decode(Shape::Any, "a: 1\nb: 2\n1: ~\na: [3]\n")
    );
    assert!(serde_yaml2::wrapper::node_eq(
        &Node::Array(vec![Node::Real("1.5".to_owned()), Node::Hash(vec![])]),
        &Node::Array(vec![Node::Real("1.5".to_owned()), Node::Hash(vec![])])
    ));
    assert!(!serde_yaml2::wrapper::node_eq(
        &Node::Array(vec![Node::Real("1.5".to_owned())]),
        &Node::Array(vec![Node::Text("1.5".to_owned())])
    ));
}

#[test]
fn a_failure_that_leaves_the_parser_as_it_was_is_told_again() {
    let mut deserializer = YamlDeserializer::from_str("]").unwrap();
    let first = deserializer.deserialize_string();
    assert!(matches!(first, Err(Errors::ScanError(_))));
    assert_eq!(first, deserializer.deserialize_string());
    assert_eq!(true, deserializer.next_element());
    assert_eq!(first.unwrap_err(), from_str("]", &Shape::Any).unwrap_err());
}
