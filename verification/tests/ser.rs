use serde_yaml2::ser::{Errors, YamlSerializer};
use serde_yaml2::to_string;
use serde_yaml2::value::Value;
use serde_yaml2::wrapper::{Node, YamlNodeWrapper};

fn encode(data: Value) -> String {
    let mut serializer = YamlSerializer::new(String::new());
    serializer.write(&data).unwrap();
    serializer.into_inner()
}

fn text(s: &str) -> Value {
    Value::Text(String::from(s))
}

fn float(v: f64) -> Value {
    Value::Real(format!("{}", v))
}

fn float32(v: f32) -> Value {
    Value::Real(format!("{}", v))
}

fn ints(items: &[i64]) -> Value {
    Value::Sequence(items.iter().map(|i| Value::Int(*i)).collect())
}

fn test_struct(x: i64, y: &str) -> Value {
    Value::Mapping(vec![(text("x"), Value::Int(x)), (text("y"), text(y))])
}

#[test]
fn mod_should_work() {
    // primitives
    assert_eq!("123", encode(Value::Int(123)));
    assert_eq!("0", encode(Value::Int(0)));
    assert_eq!("0", encode(float(0.0)));
    assert_eq!("0.53", encode(float(0.53)));
    assert_eq!("100", encode(Value::UInt(100u8 as u64)));
    assert_eq!("100", encode(Value::UInt(100u16 as u64)));
    assert_eq!("100", encode(Value::UInt(100u32 as u64)));
    assert_eq!("100", encode(Value::UInt(100u64)));
    assert_eq!("-100", encode(Value::Int(-100i16 as i64)));
    assert_eq!("-100", encode(Value::Int(-100i32 as i64)));
    assert_eq!("-100", encode(Value::Int(-100i64)));

    assert_eq!("0.54", encode(float32(0.54f32)));
    assert_eq!("0.54", encode(float(0.54f64)));
    assert_eq!("-0.54", encode(float32(-0.54f32)));
    assert_eq!("-0.54", encode(float(-0.54f64)));

    assert_eq!("true", encode(Value::Bool(true)));
    assert_eq!("false", encode(Value::Bool(false)));

    assert_eq!("~", encode(Value::Null));
    assert_eq!("a", encode(Value::Char('a')));
    assert_eq!("''", encode(text("")));

    // strings
    assert_eq!("'Hello world'", encode(text("Hello world")));
    assert_eq!("':Hello world'", encode(text(":Hello world")));
    assert_eq!(r#"'Hello \'world'"#, encode(text("Hello 'world")));
    assert_eq!("'Hello world'", encode(Value::Text(String::from("Hello world"))));
    assert_eq!("|-\n  First\n  Second\n  Third", encode(text("First\nSecond\nThird")));
    assert_eq!("|-\n  First\n  Second\n  Third", encode(text("First\nSecond\nThird\n")));

    // vectors
    assert_eq!("- \n  1\n- \n  2\n- \n  3\n", encode(ints(&[1, 2, 3])));
    assert_eq!("[]", encode(Value::Sequence(vec![])));
    assert_eq!(
        "- \n  - \n   1\n  - \n   2\n  - \n   3\n  \n- \n  - \n   4\n  - \n   5\n  - \n   6\n  \n- \n  - \n   7\n  - \n   8\n  - \n   9\n  \n",
        encode(Value::Sequence(vec![ints(&[1, 2, 3]), ints(&[4, 5, 6]), ints(&[7, 8, 9])]))
    );

    // tuples
    assert_eq!(
        "- \n  123\n- \n  'Hello world'\n- \n  false\n",
        encode(Value::Sequence(vec![Value::Int(123), text("Hello world"), Value::Bool(false)]))
    );
    assert_eq!(
        "- \n  123\n- \n  'Hello world'\n- \n  - \n   1\n  - \n   2\n  - \n   3\n  \n",
        encode(Value::Sequence(vec![Value::Int(123), text("Hello world"), ints(&[1, 2, 3])]))
    );

    // structs
    assert_eq!("~", encode(Value::Null));
    assert_eq!("[]", encode(Value::Sequence(vec![])));
    assert_eq!(
        "- \n  123\n- \n  false\n- \n  'Hello world'\n- \n  4.5\n",
        encode(Value::Sequence(vec![
            Value::Int(123),
            Value::Bool(false),
            text("Hello world"),
            float(4.5)
        ]))
    );
    assert_eq!(
        "- \n  123\n- \n  false\n- \n  'Hello world'\n- \n  ~\n",
        encode(Value::Sequence(vec![
            Value::Int(123),
            Value::Bool(false),
            text("Hello world"),
            Value::Null
        ]))
    );
    assert_eq!("'x':\n  321\n'y':\n  'Hello'\n", encode(test_struct(321, "Hello")));

    // enums
    assert_eq!("VariantA: ~", encode(Value::UnitVariant(String::from("VariantA"))));
    assert_eq!("VariantB: []", encode(Value::TupleVariant(String::from("VariantB"), vec![])));
    assert_eq!(
        "VariantC:\n  - \n   3000\n  - \n   'Hello world'\n  ",
        encode(Value::TupleVariant(
            String::from("VariantC"),
            vec![Value::Int(3000), text("Hello world")]
        ))
    );
    assert_eq!(
        "VariantD:\n  'x':\n   1\n  'y':\n   'Hello world'\n  ",
        encode(Value::NewtypeVariant(
            String::from("VariantD"),
            Box::new(test_struct(1, "Hello world"))
        ))
    );
    assert_eq!(
        "VariantE:\n  'x':\n   45\n  'y':\n   false\n  ",
        encode(Value::StructVariant(
            String::from("VariantE"),
            vec![(text("x"), float(45.0)), (text("y"), Value::Bool(false))]
        ))
    );

    // nested struct
    let nested = Value::Mapping(vec![
        (text("x"), Value::Int(123)),
        (text("nested"), test_struct(321, "Hello world")),
        (
            text("y"),
            Value::NewtypeVariant(
                String::from("VariantD"),
                Box::new(test_struct(444, "Hello\nworld")),
            ),
        ),
        (text("z"), ints(&[1, 2, 3])),
        (text("i"), Value::Bool(true)),
        (
            text("b"),
            Value::StructVariant(
                String::from("VariantE"),
                vec![(text("x"), float(12.321)), (text("y"), Value::Bool(true))],
            ),
        ),
        (
            text("u"),
            Value::Sequence(vec![Value::Int(555), text("Hello world"), Value::Bool(false)]),
        ),
    ]);
    assert_eq!(
        "'x':\n  123\n'nested':\n  'x':\n   321\n  'y':\n   'Hello world'\n  \n'y':\n  VariantD:\n   'x':\n    444\n   'y':\n    |-\n     Hello\n     world\n   \n'z':\n  - \n   1\n  - \n   2\n  - \n   3\n  \n'i':\n  true\n'b':\n  VariantE:\n   'x':\n    12.321\n   'y':\n    true\n   \n'u':\n  - \n   555\n  - \n   'Hello world'\n  - \n   false\n  \n",
        encode(nested)
    );

    assert_eq!(
        "'Hello':\n  123\n'World':\n  10\n",
        encode(Value::Mapping(vec![
            (text("Hello"), Value::Int(123)),
            (text("World"), Value::Int(10))
        ]))
    );
}

#[test]
fn bytes_are_unsupported() {
    match to_string(&Value::Bytes(vec![1, 2, 3])) {
        Err(Errors::UnsupportedSerializationError(message)) => {
            assert_eq!("Serialization of bytes is not supported", message)
        }
        other => panic!("unexpected result: {:?}", other),
    }
}

#[test]
fn integers_at_the_limits() {
    assert_eq!("-9223372036854775808", to_string(&Value::Int(i64::MIN)).unwrap());
    assert_eq!("9223372036854775807", to_string(&Value::Int(i64::MAX)).unwrap());
    assert_eq!("18446744073709551615", to_string(&Value::UInt(u64::MAX)).unwrap());
}

#[test]
fn carriage_return_before_line_feed_is_dropped() {
    assert_eq!("|-\n  a\n  b\r", to_string(&text("a\r\nb\r")).unwrap());
    assert_eq!("|-\n  \n  b", to_string(&text("\nb")).unwrap());
}

#[test]
fn dynamic_node_is_written_by_its_variant() {
    let node = Node::Hash(vec![
        (Node::Text(String::from("kind")), Node::Integer(7)),
        (Node::Text(String::from("data")), Node::Array(vec![Node::Boolean(true), Node::Null])),
        (Node::Real(String::from("1.5")), Node::Array(vec![])),
    ]);
    assert_eq!(
        "'kind':\n  7\n'data':\n  - \n   true\n  - \n   ~\n  \n1.5:\n  []\n",
        to_string(&Value::Dynamic(YamlNodeWrapper::new(node))).unwrap()
    );
}

#[test]
fn alias_has_no_text_form() {
    let node = Node::Array(vec![Node::Integer(1), Node::Alias(3)]);
    assert!(!YamlNodeWrapper::new(Node::Alias(1)).is_representable());
    assert!(matches!(
        to_string(&Value::Dynamic(YamlNodeWrapper::new(node))),
        Err(Errors::UnsupportedSerializationError(_))
    ));
}

#[test]
fn encoding_errors_have_messages() {
    assert_eq!("Format arguments error", Errors::FormArgsError.message());
    assert_eq!(
        "Serialization of bytes is not supported",
        to_string(&Value::Bytes(vec![])).unwrap_err().message()
    );
}

#[test]
fn real_number_that_is_no_number_is_unsupported() {
    let wrapper = YamlNodeWrapper::new(Node::Real("abc".to_owned()));
    let mut serializer = YamlSerializer::new(String::new());
    match wrapper.serialize(&mut serializer) {
        Err(Errors::UnsupportedSerializationError(message)) => {
            assert_eq!("Can not parse real number", message)
        }
        other => panic!("unexpected result: {:?}", other),
    }
    assert_eq!("", serializer.into_inner());
    assert_eq!(
        Err(Errors::UnsupportedSerializationError("Can not parse real number".to_owned())),
        to_string(&Value::Dynamic(YamlNodeWrapper::new(Node::Array(vec![
            Node::Real("1.5".to_owned()),
            Node::Real(".inf".to_owned()),
        ]))))
    );
    assert_eq!(
        Err(Errors::UnsupportedSerializationError("Can not parse real number".to_owned())),
        to_string(&Value::Real("1,5".to_owned()))
    );
    assert_eq!(Ok("1.5e3".to_owned()), to_string(&Value::Real("1.5e3".to_owned())));
}

#[test]
fn empty_tuple_variant_closes_at_the_top_level() {
    let mut serializer = YamlSerializer::new(String::new());
    let sequence = serializer.serialize_tuple_variant("TestEnum", 1, "VariantB", 0).unwrap();
    assert_eq!(Some(0), sequence.len_hint());
    assert_eq!(0, serializer.current_level());
    sequence.end_variant(&mut serializer).unwrap();
    assert_eq!("VariantB: []", serializer.into_inner());
}
