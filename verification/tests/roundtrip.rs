//! Round trips through the codec: encode a value, decode it against its
//! shape, and get the same value back, for representative values of
//! every supported shape.

use binprot::de::from_slice;
use binprot::ser::to_vec;
use binprot::value::Shape;
use binprot::value::Value;

fn enc(v: &Value) -> Vec<u8> {
    to_vec(v).unwrap()
}

/// Encode, decode, and compare by re-encoding: the format is canonical,
/// so equal bytes mean equal values.
fn assert_roundtrip(v: Value, sh: Shape) {
    let bytes = enc(&v);
    let back = from_slice(&sh, &bytes).unwrap();
    assert_eq!(enc(&back), bytes);
}

#[test]
fn roundtrip_signed_thresholds() {
    for v in [
        0i64,
        1,
        5,
        127,
        128,
        32767,
        32768,
        0x7fff_ffff,
        0x8000_0000,
        i64::MAX,
        -1,
        -128,
        -129,
        -32768,
        -32769,
        -0x8000_0000,
        -0x8000_0001,
        i64::MIN,
    ] {
        let bytes = enc(&Value::Int(v));
        match from_slice(&Shape::Int, &bytes).unwrap() {
            Value::Int(back) => assert_eq!(back, v),
            other => panic!("decoded {:?}", other),
        }
    }
}

#[test]
fn roundtrip_natural_thresholds() {
    for v in [
        0u64,
        1,
        127,
        128,
        255,
        256,
        65535,
        65536,
        0xffff_ffff,
        0x1_0000_0000,
        u64::MAX,
    ] {
        let bytes = enc(&Value::Nat(v));
        match from_slice(&Shape::Nat, &bytes).unwrap() {
            Value::Nat(back) => assert_eq!(back, v),
            other => panic!("decoded {:?}", other),
        }
    }
}

#[test]
fn roundtrip_float_bits() {
    for f in [0.0f64, -0.0, 1.5, 3.14159265, -2.718281828, f64::MAX, f64::MIN_POSITIVE] {
        let bytes = enc(&Value::Float(f.to_bits()));
        assert_eq!(bytes.len(), 8);
        match from_slice(&Shape::Float, &bytes).unwrap() {
            Value::Float(bits) => assert_eq!(f64::from_bits(bits), f),
            other => panic!("decoded {:?}", other),
        }
    }
}

#[test]
fn roundtrip_bool_char_unit() {
    assert_roundtrip(Value::Bool(true), Shape::Bool);
    assert_roundtrip(Value::Bool(false), Shape::Bool);
    assert_roundtrip(Value::Char(0), Shape::Char);
    assert_roundtrip(Value::Char(255), Shape::Char);
    assert_roundtrip(Value::Unit, Shape::Unit);
}

#[test]
fn roundtrip_string_and_empty() {
    assert_roundtrip(Value::Str(b"".to_vec()), Shape::Str);
    assert_roundtrip(Value::Str(b"hi".to_vec()), Shape::Str);
    assert_roundtrip(Value::Str(vec![0u8; 200]), Shape::Str);
}

#[test]
fn roundtrip_nested_structures() {
    // A record holding an option, a list, and a map of naturals.
    let v = Value::Tuple(vec![
        Value::Opt(Some(Box::new(Value::Int(-42)))),
        Value::List(vec![Value::Nat(1), Value::Nat(200), Value::Nat(40000)]),
        Value::Dict(vec![
            (Value::Str(b"a".to_vec()), Value::Int(1)),
            (Value::Str(b"b".to_vec()), Value::Int(-1)),
        ]),
    ]);
    let sh = Shape::Tuple(vec![
        Shape::Opt(Box::new(Shape::Int)),
        Shape::List(Box::new(Shape::Nat)),
        Shape::Dict(Box::new(Shape::Str), Box::new(Shape::Int)),
    ]);
    assert_roundtrip(v, sh);
}

#[test]
fn roundtrip_empty_collections() {
    assert_roundtrip(Value::List(vec![]), Shape::List(Box::new(Shape::Int)));
    assert_roundtrip(
        Value::Dict(vec![]),
        Shape::Dict(Box::new(Shape::Str), Box::new(Shape::Int)),
    );
    assert_roundtrip(Value::Tuple(vec![]), Shape::Tuple(vec![]));
}

fn foo_value() -> Value {
    Value::Tuple(vec![
        Value::Int(-42),
        Value::Int(1337133713371337),
        Value::Bool(false),
    ])
}

fn foo_shape() -> Shape {
    Shape::Tuple(vec![Shape::Int, Shape::Int, Shape::Bool])
}

fn bar_value() -> Value {
    Value::Tuple(vec![
        Value::Tuple(vec![Value::Int(-42), Value::Opt(None)]),
        Value::Str(b"barbar".to_vec()),
        Value::List(vec![
            Value::Tuple(vec![
                Value::Str(b"pi".to_vec()),
                Value::Float(3.14159265f64.to_bits()),
            ]),
            Value::Tuple(vec![
                Value::Str(b"e".to_vec()),
                Value::Float(2.718281828f64.to_bits()),
            ]),
        ]),
        foo_value(),
    ])
}

fn bar_shape() -> Shape {
    Shape::Tuple(vec![
        Shape::Tuple(vec![Shape::Int, Shape::Opt(Box::new(Shape::Int))]),
        Shape::Str,
        Shape::List(Box::new(Shape::Tuple(vec![Shape::Str, Shape::Float]))),
        foo_shape(),
    ])
}

/// The sum type of the ported fixture, described to the given nesting
/// depth: its third case holds a list of the sum type itself.
fn foobar_shape(depth: usize) -> Shape {
    let inner = if depth == 0 {
        Shape::Any
    } else {
        foobar_shape(depth - 1)
    };
    Shape::Variant(vec![
        vec![foo_shape()],
        vec![bar_shape()],
        vec![Shape::List(Box::new(inner))],
    ])
}

#[test]
fn test_roundtrip() {
    let foo = foo_value();
    let ser = enc(&foo);
    let de_foo = from_slice(&foo_shape(), &ser).unwrap();
    assert_eq!(enc(&de_foo), ser);

    let bar = bar_value();
    let ser = enc(&bar);
    let de_bar = from_slice(&bar_shape(), &ser).unwrap();
    assert_eq!(enc(&de_bar), ser);

    let foobar = Value::Variant(0, vec![foo_value()]);
    let ser = enc(&foobar);
    let de_foobar = from_slice(&foobar_shape(1), &ser).unwrap();
    assert_eq!(enc(&de_foobar), ser);

    let inode = Value::Variant(
        2,
        vec![Value::List(vec![
            Value::Variant(0, vec![foo_value()]),
            Value::Variant(0, vec![foo_value()]),
        ])],
    );
    let foobar = Value::Variant(
        2,
        vec![Value::List(vec![inode, Value::Variant(0, vec![foo_value()])])],
    );
    let ser = enc(&foobar);
    let de_foobar = from_slice(&foobar_shape(3), &ser).unwrap();
    assert_eq!(enc(&de_foobar), ser)
}
