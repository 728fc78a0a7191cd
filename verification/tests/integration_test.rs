use serde_yaml2::shape::Shape;
use serde_yaml2::value::Value;
use serde_yaml2::{from_str, to_string};

fn text(s: &str) -> Value {
    Value::Text(String::from(s))
}

fn strings(items: &[&str]) -> Value {
    Value::Sequence(items.iter().map(|s| text(s)).collect())
}

fn test_struct_shape() -> Shape {
    Shape::Struct(vec![
        (String::from("u"), Shape::Struct(vec![(String::from("a"), Shape::Text)])),
        (
            String::from("v"),
            Shape::Optional(Box::new(Shape::Sequence(Box::new(Shape::Text)))),
        ),
        (String::from("w"), Shape::Sequence(Box::new(Shape::Text))),
        (String::from("x"), Shape::I64),
        (String::from("y"), Shape::Text),
        (String::from("z"), Shape::Sequence(Box::new(Shape::I32))),
    ])
}

fn test_struct() -> Value {
    Value::Mapping(vec![
        (text("u"), Value::Mapping(vec![(text("a"), text("Nice!"))])),
        (text("v"), strings(&["a", "b"])),
        (text("w"), strings(&["a", "b"])),
        (text("x"), Value::Int(-41)),
        (text("y"), text("Hello world")),
        (text("z"), Value::Sequence(vec![Value::Int(1), Value::Int(2), Value::Int(3)])),
    ])
}

#[test]
fn deserialize() {
    let result = from_str(
        "u:\n  a: \"Nice!\"\nv: [\"a\", \"b\"]\nw: [\"a\", \"b\"]\nx: -41\ny: Hello world\nz: [1,2,3]\n",
        &test_struct_shape(),
    )
    .unwrap();

    assert_eq!(test_struct(), result);

    let result = to_string(&result).unwrap();
    assert_eq!("'u':\n  'a':\n   'Nice!'\n  \n'v':\n  - \n   'a'\n  - \n   'b'\n  \n'w':\n  - \n   'a'\n  - \n   'b'\n  \n'x':\n  -41\n'y':\n  'Hello world'\n'z':\n  - \n   1\n  - \n   2\n  - \n   3\n  \n", result);

    assert_eq!(test_struct(), from_str(&result, &test_struct_shape()).unwrap());
}

#[test]
fn concrete_scenario() {
    let shape = Shape::Struct(vec![
        (String::from("x"), Shape::I64),
        (String::from("y"), Shape::Text),
        (String::from("z"), Shape::Sequence(Box::new(Shape::I32))),
    ]);
    let value = Value::Mapping(vec![
        (text("x"), Value::Int(-41)),
        (text("y"), text("Hello world")),
        (text("z"), Value::Sequence(vec![Value::Int(1), Value::Int(2), Value::Int(3)])),
    ]);
    assert_eq!(Ok(&value), from_str("x: -41\ny: Hello world\nz: [1,2,3]\n", &shape).as_ref());
    let encoded = to_string(&value).unwrap();
    assert_eq!(
        "'x':\n  -41\n'y':\n  'Hello world'\n'z':\n  - \n   1\n  - \n   2\n  - \n   3\n  \n",
        encoded
    );
    assert_eq!(Ok(value), from_str(&encoded, &shape));
}
