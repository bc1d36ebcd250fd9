//! The exact bytes of the wire format: canonical width selection, the
//! tag vocabulary, the per-shape layouts, determinism, and every error
//! of the taxonomy on an input that provokes it.

use binprot::de::from_slice;
use binprot::de::narrow_i16;
use binprot::de::narrow_i8;
use binprot::de::narrow_u8;
use binprot::de::Deserializer;
use binprot::de::SeqWithLen;
use binprot::error::Error;
use binprot::ser::to_vec;
use binprot::ser::Serializer;
use binprot::value::Shape;
use binprot::value::Value;

fn enc(v: &Value) -> Vec<u8> {
    to_vec(v).unwrap()
}

#[test]
fn canonical_width_selection() {
    assert_eq!(enc(&Value::Int(5)), vec![5]);
    assert_eq!(enc(&Value::Nat(5)), vec![5]);
    assert_eq!(enc(&Value::Nat(200)), vec![0xfe, 200, 0]);
    assert_eq!(enc(&Value::Int(-1)), vec![0xff, 0xff]);
    // The natural thresholds are unsigned, so 40000 still fits the
    // 2-byte form; the signed thresholds cut at 32768, so the signed
    // encoder needs the 4-byte form for the same number.
    assert_eq!(enc(&Value::Nat(40000)), vec![0xfe, 0x40, 0x9c]);
    assert_eq!(enc(&Value::Int(40000)), vec![0xfd, 0x40, 0x9c, 0x00, 0x00]);
}

#[test]
fn signed_width_boundaries() {
    assert_eq!(enc(&Value::Int(127)), vec![127]);
    assert_eq!(enc(&Value::Int(128)), vec![0xfe, 128, 0]);
    assert_eq!(enc(&Value::Int(-128)), vec![0xff, 0x80]);
    assert_eq!(enc(&Value::Int(-129)), vec![0xfe, 0x7f, 0xff]);
    assert_eq!(enc(&Value::Int(32768)), vec![0xfd, 0x00, 0x80, 0x00, 0x00]);
    assert_eq!(
        enc(&Value::Int(0x8000_0000)),
        vec![0xfc, 0, 0, 0, 0x80, 0, 0, 0, 0]
    );
}

#[test]
fn option_layout() {
    assert_eq!(enc(&Value::Opt(None)), vec![0x00]);
    assert_eq!(enc(&Value::Opt(Some(Box::new(Value::Int(5))))), vec![0x01, 0x05]);
    assert_eq!(enc(&Value::Opt(Some(Box::new(Value::Nat(5))))), vec![0x01, 0x05]);
}

#[test]
fn string_layout() {
    assert_eq!(enc(&Value::Str(b"hi".to_vec())), vec![0x02, 0x68, 0x69]);
}

#[test]
fn unit_variant_layout() {
    // The fourth declared variant of a unit-payload sum is one index byte.
    assert_eq!(enc(&Value::Variant(3, vec![])), vec![0x03]);
}

#[test]
fn tuple_has_no_length_prefix() {
    let v = Value::Tuple(vec![Value::Int(1), Value::Int(2)]);
    assert_eq!(enc(&v), vec![1, 2]);
}

#[test]
fn sequence_and_map_are_count_prefixed() {
    let v = Value::List(vec![Value::Int(1), Value::Int(2)]);
    assert_eq!(enc(&v), vec![2, 1, 2]);
    let m = Value::Dict(vec![(Value::Nat(7), Value::Bool(true))]);
    assert_eq!(enc(&m), vec![1, 7, 1]);
}

#[test]
fn encode_is_deterministic() {
    let v = Value::Tuple(vec![
        Value::Str(b"same".to_vec()),
        Value::Opt(Some(Box::new(Value::Int(-40000)))),
        Value::List(vec![Value::Float(1.5f64.to_bits())]),
    ]);
    assert_eq!(enc(&v), enc(&v));
}

#[test]
fn variant_index_overflow_fails() {
    assert_eq!(to_vec(&Value::Variant(256, vec![])), Err(Error::ExpectedU8));
    assert_eq!(
        to_vec(&Value::Variant(1000, vec![Value::Int(1)])),
        Err(Error::ExpectedU8)
    );
    // The overflow is found wherever it hides in the value.
    let nested = Value::List(vec![Value::Variant(0, vec![Value::Variant(300, vec![])])]);
    assert_eq!(to_vec(&nested), Err(Error::ExpectedU8));
}

#[test]
fn unknown_sequence_length_fails() {
    let mut ser = Serializer::new();
    assert_eq!(ser.serialize_seq(None), Err(Error::UnknownSeqLength));
    assert_eq!(ser.serialize_map(None), Err(Error::UnknownSeqLength));
    assert_eq!(ser.serialize_seq(Some(3)), Ok(()));
    assert_eq!(ser.into_bytes(), vec![3]);
}

#[test]
fn trailing_data_is_rejected() {
    // One byte more than the shape consumes.
    assert_eq!(from_slice(&Shape::Int, &[5, 0]).unwrap_err(), Error::TrailingCharacters);
    assert_eq!(from_slice(&Shape::List(Box::new(Shape::Int)), &[2, 5, 6, 7]).unwrap_err(), Error::TrailingCharacters);
}

#[test]
fn sequence_decode_stops_at_declared_count() {
    let bytes = [2u8, 5, 6];
    match from_slice(&Shape::List(Box::new(Shape::Int)), &bytes).unwrap() {
        Value::List(xs) => {
            assert_eq!(xs.len(), 2);
            assert!(matches!(xs[0], Value::Int(5)));
            assert!(matches!(xs[1], Value::Int(6)));
        },
        other => panic!("decoded {:?}", other),
    }
}

#[test]
fn pull_cursor_reports_end_without_consuming() {
    let mut de = Deserializer::new(vec![5, 6]);
    let mut cursor = SeqWithLen::new(1);
    let first = cursor.next_element_seed(&mut de, &Shape::Int).unwrap();
    assert!(matches!(first, Some(Value::Int(5))));
    // The count is spent: no more elements, and the byte 6 stays unread.
    let second = cursor.next_element_seed(&mut de, &Shape::Int).unwrap();
    assert!(second.is_none());
    let third = cursor.next_element_seed(&mut de, &Shape::Int).unwrap();
    assert!(third.is_none());
    assert!(!de.pos_is_end());
}

#[test]
fn invalid_discriminants_fail() {
    assert_eq!(from_slice(&Shape::Bool, &[2]).unwrap_err(), Error::ExpectedBoolean);
    assert_eq!(from_slice(&Shape::Opt(Box::new(Shape::Int)), &[7]).unwrap_err(), Error::ExpectedOption);
    assert_eq!(from_slice(&Shape::Unit, &[1]).unwrap_err(), Error::ExpectedNull);
}

#[test]
fn unknown_variant_index_fails() {
    let sh = Shape::Variant(vec![vec![], vec![Shape::Int]]);
    assert_eq!(from_slice(&sh, &[9]).unwrap_err(), Error::Identifier);
}

#[test]
fn truncated_input_fails() {
    assert_eq!(from_slice(&Shape::Int, &[]).unwrap_err(), Error::Truncated);
    assert_eq!(from_slice(&Shape::Int, &[0xfe, 1]).unwrap_err(), Error::Truncated);
    assert_eq!(from_slice(&Shape::Float, &[0, 0, 0]).unwrap_err(), Error::Truncated);
    assert_eq!(from_slice(&Shape::Str, &[5, 104, 105]).unwrap_err(), Error::Truncated);
}

#[test]
fn shapeless_decode_always_fails() {
    assert_eq!(from_slice(&Shape::Any, &[0]).unwrap_err(), Error::CannotDeserializeAny);
    assert_eq!(from_slice(&Shape::Any, &[]).unwrap_err(), Error::CannotDeserializeAny);
}

#[test]
fn natural_decode_reads_ff_as_255() {
    // The natural decoder does not reserve 0xff: an accepted ambiguity
    // of the format, kept for wire compatibility.
    match from_slice(&Shape::Nat, &[0xff]).unwrap() {
        Value::Nat(v) => assert_eq!(v, 255),
        other => panic!("decoded {:?}", other),
    }
}

#[test]
fn narrowing_is_a_separate_checked_step() {
    assert_eq!(narrow_u8(255), Ok(255u8));
    assert_eq!(narrow_u8(256), Err(Error::OutOfRange));
    assert_eq!(narrow_i8(-128), Ok(-128i8));
    assert_eq!(narrow_i8(128), Err(Error::OutOfRange));
    assert_eq!(narrow_i16(-40000), Err(Error::OutOfRange));
    assert_eq!(narrow_i16(1234), Ok(1234i16));
}

#[test]
fn char_encode_rejects_wide_codes() {
    let mut ser = Serializer::new();
    assert_eq!(ser.serialize_char('A'), Ok(()));
    assert_eq!(ser.serialize_char('\u{0100}'), Err(Error::ExpectedU8));
    assert_eq!(ser.into_bytes(), vec![65]);
}

#[test]
fn partial_bytes_stay_on_failed_encode() {
    // No rollback: the list prefix and first element are written before
    // the bad variant index is met.
    let v = Value::List(vec![Value::Int(7), Value::Variant(300, vec![])]);
    let mut ser = Serializer::new();
    assert_eq!(ser.serialize_value(&v), Err(Error::ExpectedU8));
    assert_eq!(ser.into_bytes(), vec![2, 7]);
}
