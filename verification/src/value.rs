//! The structured values the codec carries and the shapes that describe
//! them.
//!
//! The wire format is positional: bytes alone never reveal what they
//! encode. An encoder walks a [`Value`]; a decoder must be handed the
//! expected [`Shape`] and reconstructs a [`Value`] of that shape.
//!
//! A 64-bit float travels as its IEEE-754 bit pattern (`u64`), written and
//! read as 8 raw little-endian bytes; converting between `f64` and bits is
//! the caller's concern. Text travels as its encoded bytes; this layer
//! validates no text encoding.

use vstd::prelude::*;

verus! {

/// A structured value, the in-memory form the codec encodes and decodes.
#[derive(Debug)]
pub enum Value {
    /// A boolean: one byte, `0x00` or `0x01`.
    Bool(bool),
    /// A signed integer: tag-prefixed variable width.
    Int(i64),
    /// An unsigned "natural" value: tag-prefixed variable width with
    /// unsigned thresholds; also the form of lengths and counts.
    Nat(u64),
    /// A 64-bit IEEE-754 float, held as its bit pattern; 8 raw
    /// little-endian bytes on the wire, no tag.
    Float(u64),
    /// A single byte character, 0 to 255.
    Char(u8),
    /// Text as its encoded bytes: natural-encoded length, then the bytes.
    Str(Vec<u8>),
    /// The unit value: exactly one `0x00` byte.
    Unit,
    /// An optional value: one tag byte, then the payload iff present.
    Opt(Option<Box<Value>>),
    /// A dynamic-length sequence: natural-encoded count, then the
    /// elements back-to-back.
    List(Vec<Value>),
    /// A fixed-arity tuple or record: fields back-to-back, no length
    /// prefix and no field names.
    Tuple(Vec<Value>),
    /// An associative map: natural-encoded pair count, then each key and
    /// value back-to-back.
    Dict(Vec<(Value, Value)>),
    /// A sum-type case: one variant-index byte, then the payload fields
    /// back-to-back. An index of 256 or more cannot be represented and
    /// makes encoding fail.
    Variant(u32, Vec<Value>),
}

/// The mathematical form of a [`Value`]: what the contracts speak of.
pub enum SpecValue {
    Bool(bool),
    Int(int),
    Nat(nat),
    Float(u64),
    Char(u8),
    Str(Seq<u8>),
    Unit,
    Opt(Option<Box<SpecValue>>),
    List(Seq<SpecValue>),
    Tuple(Seq<SpecValue>),
    Dict(Seq<(SpecValue, SpecValue)>),
    Variant(nat, Seq<SpecValue>),
}

/// The mathematical form of a value: structure kept, machine types
/// replaced by `int`, `nat` and `Seq`.
pub open spec fn view_value(v: Value) -> SpecValue
    decreases v,
{
    match v {
        Value::Bool(b) => SpecValue::Bool(b),
        Value::Int(i) => SpecValue::Int(i as int),
        Value::Nat(n) => SpecValue::Nat(n as nat),
        Value::Float(bits) => SpecValue::Float(bits),
        Value::Char(c) => SpecValue::Char(c),
        Value::Str(s) => SpecValue::Str(s@),
        Value::Unit => SpecValue::Unit,
        Value::Opt(o) => match o {
            Option::None => SpecValue::Opt(Option::None),
            Option::Some(b) => SpecValue::Opt(Option::Some(Box::new(view_value(*b)))),
        },
        Value::List(xs) => SpecValue::List(view_elems(xs@)),
        Value::Tuple(xs) => SpecValue::Tuple(view_elems(xs@)),
        Value::Dict(ps) => SpecValue::Dict(view_pairs(ps@)),
        Value::Variant(idx, xs) => SpecValue::Variant(idx as nat, view_elems(xs@)),
    }
}

/// The views of the elements of a sequence of values, in order.
pub open spec fn view_elems(s: Seq<Value>) -> Seq<SpecValue>
    decreases s,
{
    if s.len() == 0 {
        Seq::empty()
    } else {
        seq![view_value(s[0])] + view_elems(s.drop_first())
    }
}

/// The views of the pairs of an association list, in order.
pub open spec fn view_pairs(s: Seq<(Value, Value)>) -> Seq<(SpecValue, SpecValue)>
    decreases s,
{
    if s.len() == 0 {
        Seq::empty()
    } else {
        seq![(view_value(s[0].0), view_value(s[0].1))] + view_pairs(s.drop_first())
    }
}

impl View for Value {
    type V = SpecValue;

    open spec fn view(&self) -> SpecValue {
        view_value(*self)
    }
}

/// The view of a sequence of values keeps its length and maps each
/// element to its own view.
pub proof fn lemma_view_elems_props(s: Seq<Value>)
    ensures
        view_elems(s).len() == s.len(),
        forall|i: int| 0 <= i < s.len() ==> view_elems(s)[i] == view_value(s[i]),
    decreases s.len(),
{
    if s.len() > 0 {
        lemma_view_elems_props(s.drop_first());
        assert forall|i: int| 0 <= i < s.len() implies view_elems(s)[i] == view_value(s[i]) by {
            if i > 0 {
                assert(s.drop_first()[i - 1] == s[i]);
            }
        }
    }
}

/// The view of an association list keeps its length and maps each pair
/// componentwise.
pub proof fn lemma_view_pairs_props(s: Seq<(Value, Value)>)
    ensures
        view_pairs(s).len() == s.len(),
        forall|i: int|
            0 <= i < s.len() ==> view_pairs(s)[i] == (view_value(s[i].0), view_value(s[i].1)),
    decreases s.len(),
{
    if s.len() > 0 {
        lemma_view_pairs_props(s.drop_first());
        assert forall|i: int|
            0 <= i < s.len() implies view_pairs(s)[i] == (
            view_value(s[i].0),
            view_value(s[i].1),
        ) by {
            if i > 0 {
                assert(s.drop_first()[i - 1] == s[i]);
            }
        }
    }
}

/// The caller-known structural description of a value. The decoder
/// requires it because the wire format carries no shape information.
#[derive(Debug)]
pub enum Shape {
    /// A boolean.
    Bool,
    /// A signed 64-bit integer.
    Int,
    /// An unsigned "natural" 64-bit value.
    Nat,
    /// A 64-bit float, carried as its bit pattern.
    Float,
    /// A single byte character.
    Char,
    /// Text or a raw byte buffer.
    Str,
    /// The unit value.
    Unit,
    /// An optional value of the given payload shape.
    Opt(Box<Shape>),
    /// A dynamic-length sequence of elements of one shape.
    List(Box<Shape>),
    /// A fixed-arity tuple or record with the given field shapes.
    Tuple(Vec<Shape>),
    /// An associative map with the given key and value shapes.
    Dict(Box<Shape>, Box<Shape>),
    /// A sum type: one payload field list per declared variant, in
    /// declaration order.
    Variant(Vec<Vec<Shape>>),
    /// No shape at all. The format is not self-describing, so decoding
    /// against this shape always fails.
    Any,
}

/// Whether a value is of the given shape, field for field.
pub open spec fn conforms(v: SpecValue, sh: Shape) -> bool
    decreases sh, 1int, 0int,
{
    match sh {
        Shape::Bool => v is Bool,
        Shape::Int => v matches SpecValue::Int(i) && i64::MIN <= i <= i64::MAX,
        Shape::Nat => v matches SpecValue::Nat(n) && n <= u64::MAX,
        Shape::Float => v is Float,
        Shape::Char => v is Char,
        Shape::Str => v matches SpecValue::Str(s) && s.len() <= u64::MAX,
        Shape::Unit => v is Unit,
        Shape::Opt(p) => match v {
            SpecValue::Opt(o) => match o {
                Option::None => true,
                Option::Some(b) => conforms(*b, *p),
            },
            _ => false,
        },
        Shape::List(e) => v matches SpecValue::List(xs) && xs.len() <= u64::MAX && conforms_all(
            xs,
            *e,
        ),
        Shape::Tuple(fields) => v matches SpecValue::Tuple(xs) && conforms_fields(xs, fields@),
        Shape::Dict(k, val) => v matches SpecValue::Dict(ps) && ps.len() <= u64::MAX
            && conforms_pairs(ps, sh),
        Shape::Variant(variants) => v matches SpecValue::Variant(idx, xs)
            && idx < variants@.len()
            && conforms_fields(xs, variants@[idx as int]@),
        Shape::Any => false,
    }
}

/// Whether every element of a sequence is of the one element shape.
pub open spec fn conforms_all(xs: Seq<SpecValue>, e: Shape) -> bool
    decreases e, 2int, xs.len(),
{
    if xs.len() == 0 {
        true
    } else {
        conforms(xs[0], e) && conforms_all(xs.drop_first(), e)
    }
}

/// Whether a field list is of the given field shapes, position by position.
pub open spec fn conforms_fields(xs: Seq<SpecValue>, fields: Seq<Shape>) -> bool
    decreases fields, 1int, 0int,
{
    if fields.len() == 0 {
        xs.len() == 0
    } else {
        xs.len() == fields.len()
            && conforms(xs[0], fields[0])
            && conforms_fields(xs.drop_first(), fields.drop_first())
    }
}

/// Whether every pair of an association list is of the key and value
/// shapes of the given map shape (`sh` must be a `Shape::Dict`).
pub open spec fn conforms_pairs(ps: Seq<(SpecValue, SpecValue)>, sh: Shape) -> bool
    decreases sh, 0int, ps.len(),
{
    match sh {
        Shape::Dict(k, val) => {
            if ps.len() == 0 {
                true
            } else {
                conforms(ps[0].0, *k)
                    && conforms(ps[0].1, *val)
                    && conforms_pairs(ps.drop_first(), sh)
            }
        },
        _ => false,
    }
}

/// Whether a value can be encoded at all: every variant index it holds,
/// at any depth, fits in the single index byte the format allows.
pub open spec fn encodable(v: SpecValue) -> bool
    decreases v,
{
    match v {
        SpecValue::Opt(o) => match o {
            Option::None => true,
            Option::Some(b) => encodable(*b),
        },
        SpecValue::List(xs) => encodable_all(xs),
        SpecValue::Tuple(xs) => encodable_all(xs),
        SpecValue::Dict(ps) => encodable_pairs(ps),
        SpecValue::Variant(idx, xs) => idx < 256 && encodable_all(xs),
        _ => true,
    }
}

/// Whether every element of a sequence is encodable.
pub open spec fn encodable_all(xs: Seq<SpecValue>) -> bool
    decreases xs,
{
    if xs.len() == 0 {
        true
    } else {
        encodable(xs[0]) && encodable_all(xs.drop_first())
    }
}

/// Whether every key and value of an association list is encodable.
pub open spec fn encodable_pairs(ps: Seq<(SpecValue, SpecValue)>) -> bool
    decreases ps,
{
    if ps.len() == 0 {
        true
    } else {
        encodable(ps[0].0) && encodable(ps[0].1) && encodable_pairs(ps.drop_first())
    }
}

/// A run of values is encodable exactly when each of its elements is.
pub proof fn lemma_encodable_all_iff(s: Seq<SpecValue>)
    ensures
        encodable_all(s) <==> (forall|i: int| 0 <= i < s.len() ==> encodable(s[i])),
    decreases s.len(),
{
    if s.len() > 0 {
        lemma_encodable_all_iff(s.drop_first());
        assert(forall|i: int| 1 <= i < s.len() ==> s.drop_first()[i - 1] == s[i]);
        if forall|i: int| 0 <= i < s.len() ==> encodable(s[i]) {
            assert forall|j: int| 0 <= j < s.drop_first().len() implies encodable(
                s.drop_first()[j],
            ) by {
                assert(s.drop_first()[j] == s[j + 1]);
            }
        }
    }
}

/// An association list is encodable exactly when each key and value is.
pub proof fn lemma_encodable_pairs_iff(s: Seq<(SpecValue, SpecValue)>)
    ensures
        encodable_pairs(s) <==> (forall|i: int|
            0 <= i < s.len() ==> encodable(s[i].0) && encodable(s[i].1)),
    decreases s.len(),
{
    if s.len() > 0 {
        lemma_encodable_pairs_iff(s.drop_first());
        assert(forall|i: int| 1 <= i < s.len() ==> s.drop_first()[i - 1] == s[i]);
        if forall|i: int| 0 <= i < s.len() ==> encodable(s[i].0) && encodable(s[i].1) {
            assert forall|j: int|
                0 <= j < s.drop_first().len() implies encodable(s.drop_first()[j].0)
                && encodable(s.drop_first()[j].1) by {
                assert(s.drop_first()[j] == s[j + 1]);
            }
        }
    }
}

/// Appending one value to a sequence appends its view.
pub proof fn lemma_view_elems_push(s: Seq<Value>, x: Value)
    ensures
        view_elems(s.push(x)) == view_elems(s) + seq![view_value(x)],
{
    lemma_view_elems_props(s.push(x));
    lemma_view_elems_props(s);
    assert(view_elems(s.push(x)) =~= view_elems(s) + seq![view_value(x)]);
}

/// Appending one pair to an association list appends its view.
pub proof fn lemma_view_pairs_push(s: Seq<(Value, Value)>, k: Value, v: Value)
    ensures
        view_pairs(s.push((k, v))) == view_pairs(s) + seq![(view_value(k), view_value(v))],
{
    lemma_view_pairs_props(s.push((k, v)));
    lemma_view_pairs_props(s);
    assert(view_pairs(s.push((k, v))) =~= view_pairs(s) + seq![(view_value(k), view_value(v))]);
}

} // verus!
