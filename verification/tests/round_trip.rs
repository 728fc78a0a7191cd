use serde_yaml2::shape::{Shape, Variant};
use serde_yaml2::value::Value;
use serde_yaml2::{from_str, to_string};

fn text(s: &str) -> Value {
    Value::Text(String::from(s))
}

fn name(s: &str) -> String {
    String::from(s)
}

fn there_and_back(value: Value, shape: Shape) {
    let encoded = to_string(&value).unwrap();
    assert_eq!(Ok(value), from_str(&encoded, &shape), "through {:?}", encoded);
}

fn point_shape() -> Shape {
    Shape::Struct(vec![(name("x"), Shape::I32), (name("label"), Shape::Text)])
}

fn point(x: i64, label: &str) -> Value {
    Value::Mapping(vec![(text("x"), Value::Int(x)), (text("label"), text(label))])
}

fn choice_shape() -> Shape {
    Shape::Enum(vec![
        (name("Nothing"), Variant::Unit),
        (name("Empty"), Variant::Tuple(vec![])),
        (name("Pair"), Variant::Tuple(vec![Shape::I32, Shape::Text])),
        (name("Wrapped"), Variant::Newtype(Box::new(point_shape()))),
        (name("Named"), Variant::Struct(vec![(name("on"), Shape::Bool), (name("n"), Shape::U8)])),
    ])
}

#[test]
fn integers_of_each_width_and_sign_come_back() {
    for v in [i8::MIN as i64, -1, 0, 1, i8::MAX as i64] {
        there_and_back(Value::Int(v), Shape::I8);
    }
    for v in [i16::MIN as i64, 0, i16::MAX as i64] {
        there_and_back(Value::Int(v), Shape::I16);
    }
    for v in [i32::MIN as i64, 0, i32::MAX as i64] {
        there_and_back(Value::Int(v), Shape::I32);
    }
    for v in [i64::MIN, -41, 0, i64::MAX] {
        there_and_back(Value::Int(v), Shape::I64);
    }
    for v in [0u64, u8::MAX as u64] {
        there_and_back(Value::UInt(v), Shape::U8);
    }
    there_and_back(Value::UInt(u16::MAX as u64), Shape::U16);
    there_and_back(Value::UInt(u32::MAX as u64), Shape::U32);
    there_and_back(Value::UInt(u64::MAX), Shape::U64);
}

#[test]
fn floats_come_back() {
    for v in [0.0f64, -0.0, 0.53, -123.341, 1e300] {
        let encoded = to_string(&Value::Real(v.to_string())).unwrap();
        match from_str(&encoded, &Shape::Real) {
            Ok(Value::Real(decoded)) => {
                let back = decoded.parse::<f64>().unwrap();
                assert_eq!(v, back);
                assert_eq!(v.is_sign_negative(), back.is_sign_negative());
            }
            other => panic!("unexpected result: {:?}", other),
        }
    }
}

#[test]
fn scalars_come_back() {
    there_and_back(Value::Bool(true), Shape::Bool);
    there_and_back(Value::Bool(false), Shape::Bool);
    there_and_back(Value::Char('a'), Shape::Char);
    there_and_back(Value::Null, Shape::Unit);
    there_and_back(Value::Null, Shape::Optional(Box::new(Shape::I32)));
    there_and_back(Value::Int(7), Shape::Optional(Box::new(Shape::I32)));
}

#[test]
fn strings_come_back() {
    there_and_back(text(""), Shape::Text);
    there_and_back(text("a"), Shape::Text);
    there_and_back(text("Hello world"), Shape::Text);
    there_and_back(text(":Hello #world, [1] {2} - ? & * ! | > % @"), Shape::Text);
    there_and_back(text("123"), Shape::Text);
    there_and_back(text("true"), Shape::Text);
    there_and_back(text("First\nSecond\nThird"), Shape::Text);
    there_and_back(text("before an empty line\n\n  indented"), Shape::Text);
}

#[test]
fn multi_line_text_loses_its_final_line_feed() {
    let with = to_string(&text("First\nSecond\nThird\n")).unwrap();
    let without = to_string(&text("First\nSecond\nThird")).unwrap();
    assert_eq!(with, without);
    assert_eq!(Ok(text("First\nSecond\nThird")), from_str(&with, &Shape::Text));
}

#[test]
fn containers_come_back() {
    let numbers = || Shape::Sequence(Box::new(Shape::I32));
    there_and_back(Value::Sequence(vec![]), numbers());
    there_and_back(Value::Sequence(vec![Value::Int(1), Value::Int(2), Value::Int(3)]), numbers());
    there_and_back(
        Value::Sequence(vec![
            Value::Sequence(vec![Value::Int(1)]),
            Value::Sequence(vec![]),
            Value::Sequence(vec![Value::Int(2), Value::Int(3)]),
        ]),
        Shape::Sequence(Box::new(numbers())),
    );
    there_and_back(Value::Sequence(vec![]), Shape::Tuple(vec![]));
    there_and_back(
        Value::Sequence(vec![Value::Int(1), text("two"), Value::Bool(true)]),
        Shape::Tuple(vec![Shape::I64, Shape::Text, Shape::Bool]),
    );
    there_and_back(
        Value::Mapping(vec![(text("Hello"), Value::Int(123)), (text("World"), Value::Int(10))]),
        Shape::Mapping(Box::new(Shape::Text), Box::new(Shape::I32)),
    );
    there_and_back(
        Value::Mapping(vec![
            (text("at"), point(1, "one")),
            (text("all"), Value::Sequence(vec![point(2, "two"), point(3, "three\nlines")])),
            (text("maybe"), Value::Null),
        ]),
        Shape::Struct(vec![
            (name("at"), point_shape()),
            (name("all"), Shape::Sequence(Box::new(point_shape()))),
            (name("maybe"), Shape::Optional(Box::new(point_shape()))),
        ]),
    );
}

#[test]
fn variants_come_back() {
    there_and_back(Value::UnitVariant(name("Nothing")), choice_shape());
    there_and_back(Value::TupleVariant(name("Empty"), vec![]), choice_shape());
    there_and_back(
        Value::TupleVariant(name("Pair"), vec![Value::Int(12), text("Hello world")]),
        choice_shape(),
    );
    there_and_back(
        Value::NewtypeVariant(name("Wrapped"), Box::new(point(4, "four"))),
        choice_shape(),
    );
    there_and_back(
        Value::StructVariant(
            name("Named"),
            vec![(text("on"), Value::Bool(true)), (text("n"), Value::UInt(9))],
        ),
        choice_shape(),
    );
    there_and_back(
        Value::Sequence(vec![
            Value::UnitVariant(name("Nothing")),
            Value::TupleVariant(name("Pair"), vec![Value::Int(1), text("x")]),
        ]),
        Shape::Sequence(Box::new(choice_shape())),
    );
}

#[test]
fn empty_mapping_writes_nothing() {
    assert_eq!("", to_string(&Value::Mapping(vec![])).unwrap());
    assert_eq!(
        "'inner':\n  \n",
        to_string(&Value::Mapping(vec![(text("inner"), Value::Mapping(vec![]))])).unwrap()
    );
}
