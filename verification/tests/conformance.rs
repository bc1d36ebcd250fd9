//! Byte-for-byte conformance of a nontrivial nested value against a
//! fixed expected encoding.

use binprot::ser::to_vec;
use binprot::value::Value;

fn bar(name: &[u8], n: i64, tail: Option<Value>) -> Value {
    Value::Tuple(vec![
        Value::Tuple(vec![Value::Str(name.to_vec()), Value::Int(n)]),
        Value::Opt(tail.map(Box::new)),
    ])
}

#[test]
fn test_all() {
    let bar1 = bar(b"b1", 1234, None);
    let bar2 = bar(b"b2", 5678, Some(bar(b"b1", 1234, None)));
    let foo = Value::Tuple(vec![
        Value::Int(-42),
        Value::Int(1337133713371337),
        Value::Bool(false),
        Value::Tuple(vec![
            Value::Bool(true),
            Value::Int(42),
            Value::Float(3.14159f64.to_bits()),
            Value::Float((2.71828f32 as f64).to_bits()),
        ]),
        Value::Str(b"foobar".to_vec()),
        Value::List(vec![
            Value::Float(3.14f64.to_bits()),
            Value::Float(2.718f64.to_bits()),
            Value::Float(1.337f64.to_bits()),
        ]),
        Value::List(vec![bar1, bar2]),
    ]);
    let expected = [
        255, 214, 252, 201, 176, 0, 180, 29, 192, 4, 0, 0, 1, 42, 110, 134, 27, 240, 249, 33,
        9, 64, 0, 0, 0, 160, 9, 191, 5, 64, 6, 102, 111, 111, 98, 97, 114, 3, 31, 133, 235, 81,
        184, 30, 9, 64, 88, 57, 180, 200, 118, 190, 5, 64, 49, 8, 172, 28, 90, 100, 245, 63, 2,
        2, 98, 49, 254, 210, 4, 0, 2, 98, 50, 254, 46, 22, 1, 2, 98, 49, 254, 210, 4, 0,
    ];
    assert_eq!(to_vec(&foo).unwrap(), expected);
}
