//! The structured encoder: walks a [`Value`] and emits its canonical
//! bytes into a growing buffer.
//!
//! The byte layout per shape: primitives by the primitive codec; an
//! option as one tag byte then the payload iff present; a sequence or map
//! as its natural-encoded count then the elements back-to-back; a tuple
//! or record as its fields back-to-back with no prefix; a variant as one
//! index byte then its payload fields. Encoding fails only where a
//! variant index does not fit that single byte, and bytes already written
//! before the failure stay in the buffer: there is no rollback.

use vstd::prelude::*;

use crate::error::Error;
use crate::prim::le_of;
use crate::prim::lemma_le_of_split;
use crate::prim::lemma_pow256_pos;
use crate::prim::lemma_pow256_vals;
use crate::prim::nat0_enc;
use crate::prim::pow256;
use crate::prim::signed_enc;
use crate::value::encodable;
use crate::value::encodable_all;
use crate::value::encodable_pairs;
use crate::value::lemma_encodable_all_iff;
use crate::value::lemma_encodable_pairs_iff;
use crate::value::lemma_view_elems_props;
use crate::value::lemma_view_pairs_props;
use crate::value::view_value;
use crate::value::view_elems;
use crate::value::view_pairs;
use crate::value::SpecValue;
use crate::value::Value;
use crate::CODE_INT16;
use crate::CODE_INT32;
use crate::CODE_INT64;
use crate::CODE_NEG_INT8;

verus! {

/// The canonical byte sequence of a value: what every successful encode
/// emits, and the sense in which the format is deterministic. Meaningful
/// where `encodable(v)` holds; a variant index is written modulo nothing,
/// so an unencodable value has no byte form and encode fails instead.
pub open spec fn enc(v: SpecValue) -> Seq<u8>
    decreases v,
{
    match v {
        SpecValue::Bool(b) => seq![if b { 1u8 } else { 0u8 }],
        SpecValue::Int(i) => signed_enc(i),
        SpecValue::Nat(n) => nat0_enc(n),
        SpecValue::Float(bits) => le_of(bits as nat, 8),
        SpecValue::Char(c) => seq![c],
        SpecValue::Str(s) => nat0_enc(s.len()) + s,
        SpecValue::Unit => seq![0u8],
        SpecValue::Opt(o) => match o {
            Option::None => seq![0u8],
            Option::Some(b) => seq![1u8] + enc(*b),
        },
        SpecValue::List(xs) => nat0_enc(xs.len()) + enc_all(xs),
        SpecValue::Tuple(xs) => enc_all(xs),
        SpecValue::Dict(ps) => nat0_enc(ps.len()) + enc_pairs(ps),
        SpecValue::Variant(idx, xs) => seq![idx as u8] + enc_all(xs),
    }
}

/// The bytes of a run of values, back-to-back, no separators.
pub open spec fn enc_all(xs: Seq<SpecValue>) -> Seq<u8>
    decreases xs,
{
    if xs.len() == 0 {
        Seq::empty()
    } else {
        enc(xs[0]) + enc_all(xs.drop_first())
    }
}

/// The bytes of a run of key-value pairs, each key then its value.
pub open spec fn enc_pairs(ps: Seq<(SpecValue, SpecValue)>) -> Seq<u8>
    decreases ps,
{
    if ps.len() == 0 {
        Seq::empty()
    } else {
        enc(ps[0].0) + enc(ps[0].1) + enc_pairs(ps.drop_first())
    }
}

/// A run's bytes split at any element boundary.
pub proof fn lemma_enc_all_split(xs: Seq<SpecValue>, i: int)
    requires
        0 <= i <= xs.len(),
    ensures
        enc_all(xs) == enc_all(xs.take(i)) + enc_all(xs.skip(i)),
    decreases i,
{
    if i == 0 {
        assert(xs.take(0) =~= Seq::<SpecValue>::empty());
        assert(xs.skip(0) =~= xs);
        assert(enc_all(xs) =~= enc_all(xs.take(0)) + enc_all(xs.skip(0)));
    } else {
        lemma_enc_all_split(xs.drop_first(), i - 1);
        assert(xs.take(i).drop_first() =~= xs.drop_first().take(i - 1));
        assert(xs.skip(i) =~= xs.drop_first().skip(i - 1));
        assert(xs.take(i)[0] == xs[0]);
        assert(enc_all(xs) =~= enc_all(xs.take(i)) + enc_all(xs.skip(i)));
    }
}

/// Extending a run by one element appends that element's bytes.
pub proof fn lemma_enc_all_step(xs: Seq<SpecValue>, i: int)
    requires
        0 <= i < xs.len(),
    ensures
        enc_all(xs.take(i + 1)) == enc_all(xs.take(i)) + enc(xs[i]),
{
    lemma_enc_all_split(xs.take(i + 1), i);
    assert(xs.take(i + 1).take(i) =~= xs.take(i));
    assert(xs.take(i + 1).skip(i) =~= seq![xs[i]]);
    assert(seq![xs[i]].drop_first() =~= Seq::<SpecValue>::empty());
    assert(enc_all(seq![xs[i]]) =~= enc(xs[i]) + enc_all(Seq::<SpecValue>::empty()));
    assert(enc_all(xs.take(i + 1)) =~= enc_all(xs.take(i)) + enc(xs[i]));
}

/// A pair run's bytes split at any pair boundary.
pub proof fn lemma_enc_pairs_split(ps: Seq<(SpecValue, SpecValue)>, i: int)
    requires
        0 <= i <= ps.len(),
    ensures
        enc_pairs(ps) == enc_pairs(ps.take(i)) + enc_pairs(ps.skip(i)),
    decreases i,
{
    if i == 0 {
        assert(ps.take(0) =~= Seq::<(SpecValue, SpecValue)>::empty());
        assert(ps.skip(0) =~= ps);
        assert(enc_pairs(ps) =~= enc_pairs(ps.take(0)) + enc_pairs(ps.skip(0)));
    } else {
        lemma_enc_pairs_split(ps.drop_first(), i - 1);
        assert(ps.take(i).drop_first() =~= ps.drop_first().take(i - 1));
        assert(ps.skip(i) =~= ps.drop_first().skip(i - 1));
        assert(ps.take(i)[0] == ps[0]);
        assert(enc_pairs(ps) =~= enc_pairs(ps.take(i)) + enc_pairs(ps.skip(i)));
    }
}

/// Extending a pair run by one pair appends that key's and value's bytes.
pub proof fn lemma_enc_pairs_step(ps: Seq<(SpecValue, SpecValue)>, i: int)
    requires
        0 <= i < ps.len(),
    ensures
        enc_pairs(ps.take(i + 1)) == enc_pairs(ps.take(i)) + enc(ps[i].0) + enc(ps[i].1),
{
    lemma_enc_pairs_split(ps.take(i + 1), i);
    assert(ps.take(i + 1).take(i) =~= ps.take(i));
    assert(ps.take(i + 1).skip(i) =~= seq![ps[i]]);
    assert(seq![ps[i]].drop_first() =~= Seq::<(SpecValue, SpecValue)>::empty());
    assert(enc_pairs(seq![ps[i]]) =~= enc(ps[i].0) + enc(ps[i].1) + enc_pairs(
        Seq::<(SpecValue, SpecValue)>::empty(),
    ));
    assert(enc_pairs(ps.take(i + 1)) =~= enc_pairs(ps.take(i)) + enc(ps[i].0) + enc(ps[i].1));
}

/// The encoder: owns the byte buffer that one encode operation fills.
/// Its view is the bytes written so far, in order.
pub struct Serializer {
    out: Vec<u8>,
}

impl View for Serializer {
    type V = Seq<u8>;

    closed spec fn view(&self) -> Seq<u8> {
        self.out@
    }
}

impl Serializer {
    /// A fresh encoder with an empty buffer.
    pub fn new() -> (s: Serializer)
        ensures
            s@ == Seq::<u8>::empty(),
    {
        Serializer { out: Vec::new() }
    }

    /// The bytes written so far, surrendered to the caller.
    pub fn into_bytes(self) -> (r: Vec<u8>)
        ensures
            r@ == self@,
    {
        self.out
    }

    /// Appends the `n` little-endian bytes of `v`.
    fn push_le(&mut self, v: u64, n: usize)
        requires
            v < pow256(n as nat),
        ensures
            final(self)@ == old(self)@ + le_of(v as nat, n as nat),
    {
        let ghost v0: nat = v as nat;
        let mut v: u64 = v;
        let mut i: usize = 0;
        proof {
            assert(self@ =~= old(self)@ + le_of(v0, 0));
            assert(pow256(0) == 1);
            assert(v0 / 1 == v0);
        }
        while i < n
            invariant
                i <= n,
                v0 < pow256(n as nat),
                v as nat == v0 / pow256(i as nat),
                self@ == old(self)@ + le_of(v0, i as nat),
            decreases n - i,
        {
            self.out.push((v % 256) as u8);
            proof {
                lemma_le_of_split(v0, i as nat, (i + 1) as nat);
                reveal_with_fuel(le_of, 2);
                assert(le_of(v0 / pow256(i as nat), 1) =~= seq![
                    ((v0 / pow256(i as nat)) % 256) as u8,
                ]);
                assert(self@ =~= old(self)@ + le_of(v0, (i + 1) as nat));
                lemma_pow256_pos(i as nat);
                vstd::arithmetic::div_mod::lemma_div_denominator(
                    v0 as int,
                    pow256(i as nat) as int,
                    256,
                );
                assert(pow256(i as nat) * 256 == pow256((i + 1) as nat)) by {
                    assert(pow256((i + 1) as nat) == 256 * pow256(i as nat));
                }
            }
            v = v / 256;
            i = i + 1;
        }
        proof {
            lemma_le_of_split(v0, n as nat, n as nat);
        }
    }

    /// Writes an unsigned value in its canonical natural form: inline
    /// below 128, else the smallest tagged little-endian width among 2,
    /// 4 and 8 bytes. Never fails.
    pub fn serialize_nat0(&mut self, v: u64) -> (r: Result<(), Error>)
        ensures
            r is Ok,
            final(self)@ == old(self)@ + nat0_enc(v as nat),
    {
        proof {
            lemma_pow256_vals();
        }
        if v < 0x80 {
            self.out.push(v as u8);
            proof {
                assert(self@ =~= old(self)@ + nat0_enc(v as nat));
            }
        } else if v < 0x10000 {
            self.out.push(CODE_INT16);
            self.push_le(v, 2);
            proof {
                assert(self@ =~= old(self)@ + nat0_enc(v as nat));
            }
        } else if v < 0x1_0000_0000 {
            self.out.push(CODE_INT32);
            self.push_le(v, 4);
            proof {
                assert(self@ =~= old(self)@ + nat0_enc(v as nat));
            }
        } else {
            self.out.push(CODE_INT64);
            self.push_le(v, 8);
            proof {
                assert(self@ =~= old(self)@ + nat0_enc(v as nat));
            }
        }
        Ok(())
    }

    /// Writes a value that must fit one raw byte (a variant index or a
    /// character code); fails without writing where it does not.
    pub fn serialize_as_u8(&mut self, v: u32) -> (r: Result<(), Error>)
        ensures
            v < 256 ==> r is Ok && final(self)@ == old(self)@ + seq![v as u8],
            v >= 256 ==> r == Err::<(), Error>(Error::ExpectedU8) && final(self)@ == old(self)@,
    {
        if v < 256 {
            self.out.push(v as u8);
            proof {
                assert(self@ =~= old(self)@ + seq![v as u8]);
            }
            Ok(())
        } else {
            Err(Error::ExpectedU8)
        }
    }

    /// Writes a signed integer in its canonical form: inline where 0 to
    /// 127, else the smallest tagged two's-complement width that holds
    /// it. Never fails.
    pub fn serialize_i64(&mut self, v: i64) -> (r: Result<(), Error>)
        ensures
            r is Ok,
            final(self)@ == old(self)@ + signed_enc(v as int),
    {
        proof {
            lemma_pow256_vals();
        }
        if 0 <= v {
            if v < 0x80 {
                self.out.push(v as u8);
                proof {
                    assert(self@ =~= old(self)@ + signed_enc(v as int));
                }
            } else if v < 0x8000 {
                self.out.push(CODE_INT16);
                self.push_le(v as u64, 2);
                proof {
                    assert(self@ =~= old(self)@ + signed_enc(v as int));
                }
            } else if v < 0x8000_0000 {
                self.out.push(CODE_INT32);
                self.push_le(v as u64, 4);
                proof {
                    assert(self@ =~= old(self)@ + signed_enc(v as int));
                }
            } else {
                self.out.push(CODE_INT64);
                self.push_le(v as u64, 8);
                proof {
                    assert(self@ =~= old(self)@ + signed_enc(v as int));
                }
            }
        } else if v >= -0x80 {
            self.out.push(CODE_NEG_INT8);
            self.push_le((v + 0x100) as u64, 1);
            proof {
                assert(self@ =~= old(self)@ + signed_enc(v as int));
            }
        } else if v >= -0x8000 {
            self.out.push(CODE_INT16);
            self.push_le((v + 0x10000) as u64, 2);
            proof {
                assert(self@ =~= old(self)@ + signed_enc(v as int));
            }
        } else if v >= -0x8000_0000 {
            self.out.push(CODE_INT32);
            self.push_le((v + 0x1_0000_0000) as u64, 4);
            proof {
                assert(self@ =~= old(self)@ + signed_enc(v as int));
            }
        } else {
            self.out.push(CODE_INT64);
            let low: i64 = -(v + 1);
            let twos: u64 = u64::MAX - (low as u64);
            proof {
                assert(twos as nat == (v + 0x1_0000_0000_0000_0000) as nat);
            }
            self.push_le(twos, 8);
            proof {
                assert(self@ =~= old(self)@ + signed_enc(v as int));
            }
        }
        Ok(())
    }

    /// Writes a signed 8-bit integer; same wire form as the 64-bit value.
    pub fn serialize_i8(&mut self, v: i8) -> (r: Result<(), Error>)
        ensures
            r is Ok,
            final(self)@ == old(self)@ + signed_enc(v as int),
    {
        self.serialize_i64(v as i64)
    }

    /// Writes a signed 16-bit integer; same wire form as the 64-bit value.
    pub fn serialize_i16(&mut self, v: i16) -> (r: Result<(), Error>)
        ensures
            r is Ok,
            final(self)@ == old(self)@ + signed_enc(v as int),
    {
        self.serialize_i64(v as i64)
    }

    /// Writes a signed 32-bit integer; same wire form as the 64-bit value.
    pub fn serialize_i32(&mut self, v: i32) -> (r: Result<(), Error>)
        ensures
            r is Ok,
            final(self)@ == old(self)@ + signed_enc(v as int),
    {
        self.serialize_i64(v as i64)
    }

    /// Writes an unsigned 8-bit value in natural form.
    pub fn serialize_u8(&mut self, v: u8) -> (r: Result<(), Error>)
        ensures
            r is Ok,
            final(self)@ == old(self)@ + nat0_enc(v as nat),
    {
        self.serialize_nat0(v as u64)
    }

    /// Writes an unsigned 16-bit value in natural form.
    pub fn serialize_u16(&mut self, v: u16) -> (r: Result<(), Error>)
        ensures
            r is Ok,
            final(self)@ == old(self)@ + nat0_enc(v as nat),
    {
        self.serialize_nat0(v as u64)
    }

    /// Writes an unsigned 32-bit value in natural form.
    pub fn serialize_u32(&mut self, v: u32) -> (r: Result<(), Error>)
        ensures
            r is Ok,
            final(self)@ == old(self)@ + nat0_enc(v as nat),
    {
        self.serialize_nat0(v as u64)
    }

    /// Writes an unsigned 64-bit value in natural form.
    pub fn serialize_u64(&mut self, v: u64) -> (r: Result<(), Error>)
        ensures
            r is Ok,
            final(self)@ == old(self)@ + nat0_enc(v as nat),
    {
        self.serialize_nat0(v)
    }

    /// Writes a boolean as one byte, `0x01` for true and `0x00` for false.
    pub fn serialize_bool(&mut self, b: bool) -> (r: Result<(), Error>)
        ensures
            r is Ok,
            final(self)@ == old(self)@ + seq![if b { 1u8 } else { 0u8 }],
    {
        self.out.push(if b { 1u8 } else { 0u8 });
        proof {
            assert(self@ =~= old(self)@ + seq![if b { 1u8 } else { 0u8 }]);
        }
        Ok(())
    }

    /// Writes a 64-bit float, given as its IEEE-754 bit pattern, as 8 raw
    /// little-endian bytes: no tag, no range check.
    pub fn serialize_float(&mut self, bits: u64) -> (r: Result<(), Error>)
        ensures
            r is Ok,
            final(self)@ == old(self)@ + le_of(bits as nat, 8),
    {
        proof {
            lemma_pow256_vals();
        }
        self.push_le(bits, 8);
        Ok(())
    }

    /// Writes a character as its single-byte code; codes of 256 or more
    /// have no wire form and fail without writing.
    pub fn serialize_char(&mut self, v: char) -> (r: Result<(), Error>)
        ensures
            (v as u32) < 256 ==> r is Ok && final(self)@ == old(self)@ + seq![v as u8],
            (v as u32) >= 256 ==> r == Err::<(), Error>(Error::ExpectedU8) && final(self)@ == old(
                self,
            )@,
    {
        self.serialize_as_u8(v as u32)
    }

    /// Writes a raw byte buffer: its natural-encoded length, then the
    /// bytes verbatim.
    pub fn serialize_bytes(&mut self, v: &[u8]) -> (r: Result<(), Error>)
        ensures
            r is Ok,
            final(self)@ == old(self)@ + nat0_enc(v@.len()) + v@,
    {
        let len = v.len();
        let _ = self.serialize_nat0(len as u64);
        let mut i: usize = 0;
        while i < len
            invariant
                i <= len,
                len == v@.len(),
                self@ == old(self)@ + nat0_enc(v@.len()) + v@.take(i as int),
            decreases len - i,
        {
            self.out.push(v[i]);
            proof {
                assert(v@.take(i + 1) =~= v@.take(i as int) + seq![v@[i as int]]);
                assert(self@ =~= old(self)@ + nat0_enc(v@.len()) + v@.take(i + 1));
            }
            i = i + 1;
        }
        proof {
            assert(v@.take(len as int) =~= v@);
        }
        Ok(())
    }

    /// Writes text as its encoded bytes: natural-encoded length, then the
    /// bytes verbatim. This layer validates no text encoding.
    pub fn serialize_str(&mut self, v: &[u8]) -> (r: Result<(), Error>)
        ensures
            r is Ok,
            final(self)@ == old(self)@ + nat0_enc(v@.len()) + v@,
    {
        self.serialize_bytes(v)
    }

    /// Writes the tag of an absent optional value.
    pub fn serialize_none(&mut self) -> (r: Result<(), Error>)
        ensures
            r is Ok,
            final(self)@ == old(self)@ + seq![0u8],
    {
        self.out.push(0u8);
        proof {
            assert(self@ =~= old(self)@ + seq![0u8]);
        }
        Ok(())
    }

    /// Writes the tag of a present optional value; the caller then
    /// writes the payload.
    pub fn serialize_some_tag(&mut self) -> (r: Result<(), Error>)
        ensures
            r is Ok,
            final(self)@ == old(self)@ + seq![1u8],
    {
        self.out.push(1u8);
        proof {
            assert(self@ =~= old(self)@ + seq![1u8]);
        }
        Ok(())
    }

    /// Writes the unit value: exactly one zero byte.
    pub fn serialize_unit(&mut self) -> (r: Result<(), Error>)
        ensures
            r is Ok,
            final(self)@ == old(self)@ + seq![0u8],
    {
        self.out.push(0u8);
        proof {
            assert(self@ =~= old(self)@ + seq![0u8]);
        }
        Ok(())
    }

    /// Begins a sequence: the element count must be known before any
    /// element byte is written, since no length can be patched in later.
    /// With a count, writes its natural form; without one, fails without
    /// writing.
    pub fn serialize_seq(&mut self, len: Option<usize>) -> (r: Result<(), Error>)
        ensures
            len matches Some(n) ==> r is Ok && final(self)@ == old(self)@ + nat0_enc(n as nat),
            len is None ==> r == Err::<(), Error>(Error::UnknownSeqLength) && final(self)@ == old(
                self,
            )@,
    {
        match len {
            Some(n) => self.serialize_nat0(n as u64),
            None => Err(Error::UnknownSeqLength),
        }
    }

    /// Begins a map: as [`Serializer::serialize_seq`], over the pair
    /// count.
    pub fn serialize_map(&mut self, len: Option<usize>) -> (r: Result<(), Error>)
        ensures
            len matches Some(n) ==> r is Ok && final(self)@ == old(self)@ + nat0_enc(n as nat),
            len is None ==> r == Err::<(), Error>(Error::UnknownSeqLength) && final(self)@ == old(
                self,
            )@,
    {
        match len {
            Some(n) => self.serialize_nat0(n as u64),
            None => Err(Error::UnknownSeqLength),
        }
    }

    /// Writes a whole structured value in traversal order. Succeeds and
    /// appends exactly the value's canonical bytes iff the value is
    /// encodable; a variant index of 256 or more fails instead, and the
    /// bytes already written stay: there is no rollback.
    pub fn serialize_value(&mut self, v: &Value) -> (r: Result<(), Error>)
        ensures
            r is Ok ==> encodable(v@) && final(self)@ == old(self)@ + enc(v@),
            r is Err ==> !encodable(v@) && r == Err::<(), Error>(Error::ExpectedU8) && old(
                self,
            )@.is_prefix_of(final(self)@),
        decreases v,
    {
        match v {
            Value::Bool(b) => self.serialize_bool(*b),
            Value::Int(i) => self.serialize_i64(*i),
            Value::Nat(n) => self.serialize_nat0(*n),
            Value::Float(bits) => self.serialize_float(*bits),
            Value::Char(c) => {
                self.out.push(*c);
                proof {
                    assert(self@ =~= old(self)@ + enc(v@));
                }
                Ok(())
            },
            Value::Str(s) => {
                let r = self.serialize_bytes(s.as_slice());
                proof {
                    assert(self@ =~= old(self)@ + enc(v@));
                }
                r
            },
            Value::Unit => self.serialize_unit(),
            Value::Opt(o) => match o {
                Option::None => self.serialize_none(),
                Option::Some(b) => {
                    let _ = self.serialize_some_tag();
                    let r = self.serialize_value(&**b);
                    proof {
                        if r is Ok {
                            assert(self@ =~= old(self)@ + enc(v@));
                        } else {
                            assert(old(self)@.is_prefix_of(self@)) by {
                                assert((old(self)@ + seq![1u8]).is_prefix_of(self@));
                                assert(old(self)@ =~= (old(self)@ + seq![1u8]).take(
                                    old(self)@.len() as int,
                                ));
                            }
                        }
                    }
                    r
                },
            },
            Value::List(xs) => {
                let _ = self.serialize_nat0(xs.len() as u64);
                let ghost mid = self@;
                let r = self.serialize_elems(xs);
                proof {
                    lemma_view_elems_props(xs@);
                    if r is Ok {
                        assert(self@ =~= old(self)@ + enc(v@));
                    } else {
                        assert(old(self)@.is_prefix_of(self@)) by {
                            assert(old(self)@ =~= mid.take(old(self)@.len() as int));
                        }
                    }
                }
                r
            },
            Value::Tuple(xs) => {
                let r = self.serialize_elems(xs);
                proof {
                    if r is Ok {
                        assert(self@ =~= old(self)@ + enc(v@));
                    }
                }
                r
            },
            Value::Dict(ps) => {
                let _ = self.serialize_nat0(ps.len() as u64);
                let ghost mid = self@;
                let r = self.serialize_pairs(ps);
                proof {
                    lemma_view_pairs_props(ps@);
                    if r is Ok {
                        assert(self@ =~= old(self)@ + enc(v@));
                    } else {
                        assert(old(self)@.is_prefix_of(self@)) by {
                            assert(old(self)@ =~= mid.take(old(self)@.len() as int));
                        }
                    }
                }
                r
            },
            Value::Variant(idx, xs) => {
                match self.serialize_as_u8(*idx) {
                    Err(e) => {
                        proof {
                            assert(old(self)@.is_prefix_of(self@)) by {
                                assert(old(self)@ =~= self@.take(old(self)@.len() as int));
                            }
                        }
                        Err(e)
                    },
                    Ok(_) => {
                        let ghost mid = self@;
                        let r = self.serialize_elems(xs);
                        proof {
                            if r is Ok {
                                assert((idx as nat) as u8 == *idx as u8);
                                assert(self@ =~= old(self)@ + enc(v@));
                            } else {
                                assert(old(self)@.is_prefix_of(self@)) by {
                                    assert(old(self)@ =~= mid.take(old(self)@.len() as int));
                                }
                            }
                        }
                        r
                    },
                }
            },
        }
    }

    /// Writes a run of values back-to-back; the failure and rollback
    /// rules of [`Serializer::serialize_value`] apply elementwise.
    fn serialize_elems(&mut self, xs: &Vec<Value>) -> (r: Result<(), Error>)
        ensures
            r is Ok ==> encodable_all(view_elems(xs@)) && final(self)@ == old(self)@ + enc_all(
                view_elems(xs@),
            ),
            r is Err ==> !encodable_all(view_elems(xs@)) && r == Err::<(), Error>(
                Error::ExpectedU8,
            ) && old(self)@.is_prefix_of(final(self)@),
        decreases xs,
    {
        let ghost vs = view_elems(xs@);
        proof {
            lemma_view_elems_props(xs@);
            lemma_encodable_all_iff(vs);
        }
        let n = xs.len();
        let mut i: usize = 0;
        while i < n
            invariant
                i <= n,
                n == xs@.len(),
                vs == view_elems(xs@),
                vs.len() == n,
                forall|j: int| 0 <= j < n ==> vs[j] == view_value(xs@[j]),
                forall|j: int| 0 <= j < i ==> encodable(vs[j]),
                self@ == old(self)@ + enc_all(vs.take(i as int)),
            decreases n - i,
        {
            let ghost pre = self@;
            match self.serialize_value(&xs[i]) {
                Ok(_) => {
                    proof {
                        lemma_enc_all_step(vs, i as int);
                        assert(self@ =~= old(self)@ + enc_all(vs.take(i + 1)));
                    }
                },
                Err(e) => {
                    proof {
                        lemma_encodable_all_iff(vs);
                        assert(!encodable_all(vs));
                        assert(old(self)@.is_prefix_of(self@)) by {
                            assert(old(self)@ =~= pre.take(old(self)@.len() as int));
                        }
                    }
                    return Err(e);
                },
            }
            i = i + 1;
        }
        proof {
            lemma_encodable_all_iff(vs);
            assert(vs.take(n as int) =~= vs);
        }
        Ok(())
    }

    /// Writes a run of key-value pairs back-to-back, each key then its
    /// value; the failure and rollback rules apply componentwise.
    fn serialize_pairs(&mut self, ps: &Vec<(Value, Value)>) -> (r: Result<(), Error>)
        ensures
            r is Ok ==> encodable_pairs(view_pairs(ps@)) && final(self)@ == old(self)@ + enc_pairs(
                view_pairs(ps@),
            ),
            r is Err ==> !encodable_pairs(view_pairs(ps@)) && r == Err::<(), Error>(
                Error::ExpectedU8,
            ) && old(self)@.is_prefix_of(final(self)@),
        decreases ps,
    {
        let ghost vs = view_pairs(ps@);
        proof {
            lemma_view_pairs_props(ps@);
            lemma_encodable_pairs_iff(vs);
        }
        let n = ps.len();
        let mut i: usize = 0;
        while i < n
            invariant
                i <= n,
                n == ps@.len(),
                vs == view_pairs(ps@),
                vs.len() == n,
                forall|j: int|
                    0 <= j < n ==> vs[j] == (view_value(ps@[j].0), view_value(ps@[j].1)),
                forall|j: int| 0 <= j < i ==> encodable(vs[j].0) && encodable(vs[j].1),
                self@ == old(self)@ + enc_pairs(vs.take(i as int)),
            decreases n - i,
        {
            let ghost pre = self@;
            match self.serialize_value(&ps[i].0) {
                Ok(_) => {},
                Err(e) => {
                    proof {
                        lemma_encodable_pairs_iff(vs);
                        assert(old(self)@.is_prefix_of(self@)) by {
                            assert(old(self)@ =~= pre.take(old(self)@.len() as int));
                        }
                    }
                    return Err(e);
                },
            }
            let ghost mid = self@;
            match self.serialize_value(&ps[i].1) {
                Ok(_) => {
                    proof {
                        lemma_enc_pairs_step(vs, i as int);
                        assert(self@ =~= old(self)@ + enc_pairs(vs.take(i + 1)));
                    }
                },
                Err(e) => {
                    proof {
                        lemma_encodable_pairs_iff(vs);
                        assert(old(self)@.is_prefix_of(self@)) by {
                            assert(old(self)@ =~= mid.take(old(self)@.len() as int));
                        }
                    }
                    return Err(e);
                },
            }
            i = i + 1;
        }
        proof {
            lemma_encodable_pairs_iff(vs);
            assert(vs.take(n as int) =~= vs);
        }
        Ok(())
    }
}

/// Encodes one value to a fresh byte buffer: the canonical bytes iff the
/// value is encodable, the variant-overflow error otherwise. The same
/// logical value always yields byte-identical output.
pub fn to_vec(value: &Value) -> (r: Result<Vec<u8>, Error>)
    ensures
        encodable(value@) ==> (r matches Ok(bytes) && bytes@ == enc(value@)),
        !encodable(value@) ==> r == Err::<Vec<u8>, Error>(Error::ExpectedU8),
{
    let mut ser = Serializer::new();
    match ser.serialize_value(value) {
        Ok(_) => Ok(ser.into_bytes()),
        Err(e) => Err(e),
    }
}

} // verus!
