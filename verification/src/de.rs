//! The structured decoder: consumes bytes against a caller-supplied
//! [`Shape`] and reconstructs the [`Value`] they encode, failing fast on
//! any byte outside the expected vocabulary.
//!
//! What one decode yields — the value, the position after it, or the
//! exact error — is stated byte for byte by the spec function [`dec`];
//! every executable entry point is proved against it.

use vstd::prelude::*;

use crate::error::Error;
use crate::prim::dec_float;
use crate::prim::dec_nat0;
use crate::prim::dec_signed;
use crate::prim::le_val;
use crate::prim::lemma_le_val_bound;
use crate::prim::lemma_pow256_mono;
use crate::prim::lemma_pow256_vals;
use crate::prim::pow256;
use crate::value::lemma_view_elems_push;
use crate::value::lemma_view_pairs_push;
use crate::value::view_elems;
use crate::value::view_pairs;
use crate::value::Shape;
use crate::value::SpecValue;
use crate::value::Value;
use crate::CODE_INT16;
use crate::CODE_INT32;
use crate::CODE_INT64;
use crate::CODE_NEG_INT8;

verus! {

/// What decoding one value of shape `sh` at position `pos` of `b`
/// yields: the value and the position after its last byte, or the first
/// error met. Decoding is driven by the shape alone; the bytes carry no
/// shape information, and a shape-less request fails outright.
pub open spec fn dec(sh: Shape, b: Seq<u8>, pos: int) -> Result<(SpecValue, int), Error>
    decreases sh, 1int, 0int,
{
    match sh {
        Shape::Bool => {
            if !(0 <= pos < b.len()) {
                Err(Error::Truncated)
            } else if b[pos] == 0 {
                Ok((SpecValue::Bool(false), pos + 1))
            } else if b[pos] == 1 {
                Ok((SpecValue::Bool(true), pos + 1))
            } else {
                Err(Error::ExpectedBoolean)
            }
        },
        Shape::Int => match dec_signed(b, pos) {
            Ok((v, p)) => Ok((SpecValue::Int(v), p)),
            Err(e) => Err(e),
        },
        Shape::Nat => match dec_nat0(b, pos) {
            Ok((v, p)) => Ok((SpecValue::Nat(v), p)),
            Err(e) => Err(e),
        },
        Shape::Float => match dec_float(b, pos) {
            Ok((bits, p)) => Ok((SpecValue::Float(bits), p)),
            Err(e) => Err(e),
        },
        Shape::Char => {
            if !(0 <= pos < b.len()) {
                Err(Error::Truncated)
            } else {
                Ok((SpecValue::Char(b[pos]), pos + 1))
            }
        },
        Shape::Str => match dec_nat0(b, pos) {
            Ok((n, p)) => {
                if p + n <= b.len() {
                    Ok((SpecValue::Str(b.subrange(p, p + n)), p + n))
                } else {
                    Err(Error::Truncated)
                }
            },
            Err(e) => Err(e),
        },
        Shape::Unit => {
            if !(0 <= pos < b.len()) {
                Err(Error::Truncated)
            } else if b[pos] == 0 {
                Ok((SpecValue::Unit, pos + 1))
            } else {
                Err(Error::ExpectedNull)
            }
        },
        Shape::Opt(payload) => {
            if !(0 <= pos < b.len()) {
                Err(Error::Truncated)
            } else if b[pos] == 0 {
                Ok((SpecValue::Opt(Option::None), pos + 1))
            } else if b[pos] == 1 {
                match dec(*payload, b, pos + 1) {
                    Ok((v, p)) => Ok((SpecValue::Opt(Option::Some(Box::new(v))), p)),
                    Err(e) => Err(e),
                }
            } else {
                Err(Error::ExpectedOption)
            }
        },
        Shape::List(e) => match dec_nat0(b, pos) {
            Ok((n, p)) => match dec_rep(sh, n, b, p) {
                Ok((vs, p2)) => Ok((SpecValue::List(vs), p2)),
                Err(err) => Err(err),
            },
            Err(err) => Err(err),
        },
        Shape::Tuple(fields) => match dec_fields(fields@, b, pos) {
            Ok((vs, p)) => Ok((SpecValue::Tuple(vs), p)),
            Err(e) => Err(e),
        },
        Shape::Dict(k, val) => match dec_nat0(b, pos) {
            Ok((n, p)) => match dec_pair_rep(sh, n, b, p) {
                Ok((ps, p2)) => Ok((SpecValue::Dict(ps), p2)),
                Err(err) => Err(err),
            },
            Err(err) => Err(err),
        },
        Shape::Variant(variants) => {
            if !(0 <= pos < b.len()) {
                Err(Error::Truncated)
            } else if b[pos] as int >= variants@.len() {
                Err(Error::Identifier)
            } else {
                match dec_fields(variants@[b[pos] as int]@, b, pos + 1) {
                    Ok((vs, p)) => Ok((SpecValue::Variant(b[pos] as nat, vs), p)),
                    Err(e) => Err(e),
                }
            }
        },
        Shape::Any => Err(Error::CannotDeserializeAny),
    }
}

/// `n` values of the element shape of the sequence shape `sh`,
/// back-to-back: how a decoded count is consumed. Only a sequence shape
/// has element runs; against any other shape this yields an error, and
/// no such call arises.
pub open spec fn dec_rep(sh: Shape, n: nat, b: Seq<u8>, pos: int) -> Result<
    (Seq<SpecValue>, int),
    Error,
>
    decreases sh, 0int, n,
{
    match sh {
        Shape::List(e) => {
            if n == 0 {
                Ok((Seq::empty(), pos))
            } else {
                match dec(*e, b, pos) {
                    Ok((v, p)) => match dec_rep(sh, (n - 1) as nat, b, p) {
                        Ok((vs, p2)) => Ok((seq![v] + vs, p2)),
                        Err(err) => Err(err),
                    },
                    Err(err) => Err(err),
                }
            }
        },
        _ => Err(Error::CannotDeserializeAny),
    }
}

/// One value per field shape, back-to-back: how a tuple, record or
/// variant payload is consumed. No length is read; arity comes from the
/// shape.
pub open spec fn dec_fields(fields: Seq<Shape>, b: Seq<u8>, pos: int) -> Result<
    (Seq<SpecValue>, int),
    Error,
>
    decreases fields, 1int, 0int,
{
    if fields.len() == 0 {
        Ok((Seq::empty(), pos))
    } else {
        match dec(fields[0], b, pos) {
            Ok((v, p)) => match dec_fields(fields.drop_first(), b, p) {
                Ok((vs, p2)) => Ok((seq![v] + vs, p2)),
                Err(err) => Err(err),
            },
            Err(err) => Err(err),
        }
    }
}

/// `n` key-value pairs of the map shape `sh`, each key then its value,
/// back-to-back: how a decoded pair count is consumed.
pub open spec fn dec_pair_rep(sh: Shape, n: nat, b: Seq<u8>, pos: int) -> Result<
    (Seq<(SpecValue, SpecValue)>, int),
    Error,
>
    decreases sh, 0int, n,
{
    match sh {
        Shape::Dict(k, val) => {
            if n == 0 {
                Ok((Seq::empty(), pos))
            } else {
                match dec(*k, b, pos) {
                    Ok((kv, p)) => match dec(*val, b, p) {
                        Ok((vv, p2)) => match dec_pair_rep(sh, (n - 1) as nat, b, p2) {
                            Ok((ps, p3)) => Ok((seq![(kv, vv)] + ps, p3)),
                            Err(err) => Err(err),
                        },
                        Err(err) => Err(err),
                    },
                    Err(err) => Err(err),
                }
            }
        },
        _ => Err(Error::CannotDeserializeAny),
    }
}

/// A run of `n` elements decomposed after its first `i`: the whole run
/// succeeds exactly when the first `i` elements do and the remaining
/// `n - i` continue from where they stopped.
pub proof fn lemma_dec_rep_split(sh: Shape, i: nat, n: nat, b: Seq<u8>, pos: int)
    requires
        i <= n,
        sh is List,
        dec_rep(sh, i, b, pos) is Ok,
    ensures
        dec_rep(sh, n, b, pos) == match dec_rep(
            sh,
            (n - i) as nat,
            b,
            dec_rep(sh, i, b, pos)->Ok_0.1,
        ) {
            Ok((vs, p)) => Ok::<(Seq<SpecValue>, int), Error>(
                (dec_rep(sh, i, b, pos)->Ok_0.0 + vs, p),
            ),
            Err(e) => Err::<(Seq<SpecValue>, int), Error>(e),
        },
    decreases i,
{
    let e = sh->List_0;
    if i == 0 {
        assert(dec_rep(sh, 0, b, pos)->Ok_0.0 =~= Seq::<SpecValue>::empty());
        match dec_rep(sh, n, b, pos) {
            Ok((vs, p)) => {
                assert(Seq::<SpecValue>::empty() + vs =~= vs);
            },
            Err(_) => {},
        }
    } else {
        let (v0, p0) = dec(*e, b, pos)->Ok_0;
        lemma_dec_rep_split(sh, (i - 1) as nat, (n - 1) as nat, b, p0);
        let (vs1, p1) = dec_rep(sh, i, b, pos)->Ok_0;
        let (vs1t, p1t) = dec_rep(sh, (i - 1) as nat, b, p0)->Ok_0;
        assert(vs1 == seq![v0] + vs1t && p1 == p1t);
        match dec_rep(sh, (n - i) as nat, b, p1) {
            Ok((vs2, p2)) => {
                assert(seq![v0] + (vs1t + vs2) =~= (seq![v0] + vs1t) + vs2);
            },
            Err(_) => {},
        }
    }
}

/// A field run decomposed after its first `i` fields, as
/// [`lemma_dec_rep_split`] for element runs.
pub proof fn lemma_dec_fields_split(fields: Seq<Shape>, i: int, b: Seq<u8>, pos: int)
    requires
        0 <= i <= fields.len(),
        dec_fields(fields.take(i), b, pos) is Ok,
    ensures
        dec_fields(fields, b, pos) == match dec_fields(
            fields.skip(i),
            b,
            dec_fields(fields.take(i), b, pos)->Ok_0.1,
        ) {
            Ok((vs, p)) => Ok::<(Seq<SpecValue>, int), Error>(
                (dec_fields(fields.take(i), b, pos)->Ok_0.0 + vs, p),
            ),
            Err(e) => Err::<(Seq<SpecValue>, int), Error>(e),
        },
    decreases i,
{
    if i == 0 {
        assert(fields.take(0) =~= Seq::<Shape>::empty());
        assert(fields.skip(0) =~= fields);
        assert(dec_fields(fields.take(0), b, pos)->Ok_0.0 =~= Seq::<SpecValue>::empty());
        match dec_fields(fields, b, pos) {
            Ok((vs, p)) => {
                assert(Seq::<SpecValue>::empty() + vs =~= vs);
            },
            Err(_) => {},
        }
    } else {
        assert(fields.take(i)[0] == fields[0]);
        assert(fields.take(i).len() > 0);
        let (v0, p0) = dec(fields[0], b, pos)->Ok_0;
        assert(fields.take(i).drop_first() =~= fields.drop_first().take(i - 1));
        lemma_dec_fields_split(fields.drop_first(), i - 1, b, p0);
        assert(fields.skip(i) =~= fields.drop_first().skip(i - 1));
        let (vs1, p1) = dec_fields(fields.take(i), b, pos)->Ok_0;
        let (vs1t, p1t) = dec_fields(fields.drop_first().take(i - 1), b, p0)->Ok_0;
        assert(vs1 == seq![v0] + vs1t && p1 == p1t);
        match dec_fields(fields.skip(i), b, p1) {
            Ok((vs2, p2)) => {
                assert(seq![v0] + (vs1t + vs2) =~= (seq![v0] + vs1t) + vs2);
            },
            Err(_) => {},
        }
    }
}

/// A pair run decomposed after its first `i` pairs, as
/// [`lemma_dec_rep_split`] for element runs.
pub proof fn lemma_dec_pair_rep_split(sh: Shape, i: nat, n: nat, b: Seq<u8>, pos: int)
    requires
        i <= n,
        sh is Dict,
        dec_pair_rep(sh, i, b, pos) is Ok,
    ensures
        dec_pair_rep(sh, n, b, pos) == match dec_pair_rep(
            sh,
            (n - i) as nat,
            b,
            dec_pair_rep(sh, i, b, pos)->Ok_0.1,
        ) {
            Ok((ps, p)) => Ok::<(Seq<(SpecValue, SpecValue)>, int), Error>(
                (dec_pair_rep(sh, i, b, pos)->Ok_0.0 + ps, p),
            ),
            Err(e) => Err::<(Seq<(SpecValue, SpecValue)>, int), Error>(e),
        },
    decreases i,
{
    if i == 0 {
        assert(dec_pair_rep(sh, 0, b, pos)->Ok_0.0 =~= Seq::<(SpecValue, SpecValue)>::empty());
        match dec_pair_rep(sh, n, b, pos) {
            Ok((ps, p)) => {
                assert(Seq::<(SpecValue, SpecValue)>::empty() + ps =~= ps);
            },
            Err(_) => {},
        }
    } else {
        let k = sh->Dict_0;
        let val = sh->Dict_1;
        let (kv, pk) = dec(*k, b, pos)->Ok_0;
        let (vv, pv) = dec(*val, b, pk)->Ok_0;
        lemma_dec_pair_rep_split(sh, (i - 1) as nat, (n - 1) as nat, b, pv);
        let (ps1, p1) = dec_pair_rep(sh, i, b, pos)->Ok_0;
        let (ps1t, p1t) = dec_pair_rep(sh, (i - 1) as nat, b, pv)->Ok_0;
        assert(ps1 == seq![(kv, vv)] + ps1t && p1 == p1t);
        match dec_pair_rep(sh, (n - i) as nat, b, p1) {
            Ok((ps2, p2)) => {
                assert(seq![(kv, vv)] + (ps1t + ps2) =~= (seq![(kv, vv)] + ps1t) + ps2);
            },
            Err(_) => {},
        }
    }
}

/// The decoder: owns the bytes of one decode operation and a cursor into
/// them. Decoding only ever moves the cursor forward; the bytes never
/// change.
pub struct Deserializer {
    data: Vec<u8>,
    pos: usize,
}

impl Deserializer {
    /// The cursor never passes the end of the bytes.
    pub closed spec fn wf(&self) -> bool {
        self.pos <= self.data@.len()
    }

    /// The bytes this decoder reads.
    pub closed spec fn bytes(&self) -> Seq<u8> {
        self.data@
    }

    /// The cursor: how many bytes have been consumed.
    pub closed spec fn posn(&self) -> int {
        self.pos as int
    }

    /// Whether every byte has been consumed.
    pub fn pos_is_end(&self) -> (r: bool)
        ensures
            r == (self.posn() == self.bytes().len()),
    {
        self.pos == self.data.len()
    }

    /// A fresh decoder positioned at the first byte.
    pub fn new(data: Vec<u8>) -> (d: Deserializer)
        ensures
            d.wf(),
            d.bytes() == data@,
            d.posn() == 0,
    {
        Deserializer { data, pos: 0 }
    }

    /// Consumes one raw byte, or reports truncation without moving.
    fn next_byte(&mut self) -> (r: Result<u8, Error>)
        requires
            old(self).wf(),
        ensures
            final(self).wf(),
            final(self).bytes() == old(self).bytes(),
            old(self).posn() < old(self).bytes().len() ==> (r matches Ok(c) && c == old(
                self,
            ).bytes()[old(self).posn()] && final(self).posn() == old(self).posn() + 1),
            old(self).posn() >= old(self).bytes().len() ==> r == Err::<u8, Error>(Error::Truncated)
                && final(self).posn() == old(self).posn(),
    {
        if self.pos < self.data.len() {
            let c = self.data[self.pos];
            self.pos = self.pos + 1;
            Ok(c)
        } else {
            Err(Error::Truncated)
        }
    }

    /// Consumes the next `n` bytes as one little-endian value, or reports
    /// truncation without moving.
    fn read_le(&mut self, n: usize) -> (r: Result<u64, Error>)
        requires
            old(self).wf(),
            n <= 8,
        ensures
            final(self).wf(),
            final(self).bytes() == old(self).bytes(),
            old(self).posn() + n <= old(self).bytes().len() ==> (r matches Ok(v) && v as nat
                == le_val(
                old(self).bytes().subrange(old(self).posn(), old(self).posn() + n),
            ) && final(self).posn() == old(self).posn() + n),
            old(self).posn() + n > old(self).bytes().len() ==> r == Err::<u64, Error>(
                Error::Truncated,
            ) && final(self).posn() == old(self).posn(),
    {
        if n > self.data.len() - self.pos {
            return Err(Error::Truncated);
        }
        let dlen = self.data.len();
        let ghost b = self.data@;
        let ghost p0 = self.pos as int;
        let mut acc: u64 = 0;
        let mut j: usize = n;
        proof {
            assert(b.subrange(p0 + n, p0 + n) =~= Seq::<u8>::empty());
        }
        while j > 0
            invariant
                j <= n,
                n <= 8,
                self.wf(),
                self.data@ == b,
                self.pos == p0,
                dlen == b.len(),
                p0 + n <= dlen,
                acc as nat == le_val(b.subrange(p0 + j, p0 + n)),
                (acc as nat) < pow256((n - j) as nat),
            decreases j,
        {
            j = j - 1;
            let c = self.data[self.pos + j];
            proof {
                lemma_pow256_vals();
                assert(pow256((n - j - 1) as nat) <= pow256(7)) by {
                    lemma_pow256_mono((n - j - 1) as nat, 7);
                }
                assert(acc * 256 + 255 < 0x1_0000_0000_0000_0000);
            }
            let next: u64 = acc * 256 + (c as u64);
            proof {
                let tail = b.subrange(p0 + j + 1, p0 + n);
                let whole = b.subrange(p0 + j, p0 + n);
                assert(whole.drop_first() =~= tail);
                assert(whole[0] == c);
                assert(next as nat == le_val(whole)) by {
                    assert(le_val(whole) == c as nat + 256 * le_val(tail));
                }
                lemma_le_val_bound(whole);
                assert(whole.len() == n - j);
            }
            acc = next;
        }
        proof {
            assert(b.subrange(p0, p0 + n) == b.subrange(p0 + 0, p0 + n));
        }
        self.pos = self.pos + n;
        Ok(acc)
    }

    /// Reads a natural: a tag byte dispatching to a wider little-endian
    /// read, or the inline value itself. Exactly [`dec_nat0`].
    pub fn read_nat0(&mut self) -> (r: Result<u64, Error>)
        requires
            old(self).wf(),
        ensures
            final(self).wf(),
            final(self).bytes() == old(self).bytes(),
            match dec_nat0(old(self).bytes(), old(self).posn()) {
                Ok((v, p)) => (r matches Ok(x) && x as nat == v && final(self).posn() == p),
                Err(e) => r == Err::<u64, Error>(e),
            },
    {
        let c = match self.next_byte() {
            Ok(c) => c,
            Err(e) => {
                return Err(e);
            },
        };
        if c == CODE_INT16 {
            self.read_le(2)
        } else if c == CODE_INT32 {
            self.read_le(4)
        } else if c == CODE_INT64 {
            self.read_le(8)
        } else {
            Ok(c as u64)
        }
    }

    /// Reads a signed integer: a tag byte dispatching to a sign-extending
    /// little-endian read, or the inline nonnegative value itself.
    /// Exactly [`dec_signed`].
    pub fn read_signed(&mut self) -> (r: Result<i64, Error>)
        requires
            old(self).wf(),
        ensures
            final(self).wf(),
            final(self).bytes() == old(self).bytes(),
            match dec_signed(old(self).bytes(), old(self).posn()) {
                Ok((v, p)) => (r matches Ok(x) && x as int == v && final(self).posn() == p),
                Err(e) => r == Err::<i64, Error>(e),
            },
    {
        proof {
            lemma_pow256_vals();
        }
        let ghost b = self.bytes();
        let ghost p0 = self.posn();
        let c = match self.next_byte() {
            Ok(c) => c,
            Err(e) => {
                return Err(e);
            },
        };
        if c == CODE_NEG_INT8 {
            match self.read_le(1) {
                Ok(raw) => {
                    proof {
                        lemma_le_val_bound(b.subrange(p0 + 1, p0 + 2));
                    }
                    if raw >= 0x80 {
                        Ok((raw as i64) - 0x100)
                    } else {
                        Ok(raw as i64)
                    }
                },
                Err(e) => Err(e),
            }
        } else if c == CODE_INT16 {
            match self.read_le(2) {
                Ok(raw) => {
                    proof {
                        lemma_le_val_bound(b.subrange(p0 + 1, p0 + 3));
                    }
                    if raw >= 0x8000 {
                        Ok((raw as i64) - 0x10000)
                    } else {
                        Ok(raw as i64)
                    }
                },
                Err(e) => Err(e),
            }
        } else if c == CODE_INT32 {
            match self.read_le(4) {
                Ok(raw) => {
                    proof {
                        lemma_le_val_bound(b.subrange(p0 + 1, p0 + 5));
                    }
                    if raw >= 0x8000_0000 {
                        Ok((raw as i64) - 0x1_0000_0000)
                    } else {
                        Ok(raw as i64)
                    }
                },
                Err(e) => Err(e),
            }
        } else if c == CODE_INT64 {
            match self.read_le(8) {
                Ok(raw) => {
                    proof {
                        lemma_le_val_bound(b.subrange(p0 + 1, p0 + 9));
                    }
                    if raw >= 0x8000_0000_0000_0000 {
                        let low: u64 = u64::MAX - raw;
                        Ok(-(low as i64) - 1)
                    } else {
                        Ok(raw as i64)
                    }
                },
                Err(e) => Err(e),
            }
        } else {
            Ok(c as i64)
        }
    }

    /// Reads a float as 8 raw little-endian bytes, returned as the
    /// IEEE-754 bit pattern: no tag, no range check. Exactly
    /// [`dec_float`].
    pub fn read_float(&mut self) -> (r: Result<u64, Error>)
        requires
            old(self).wf(),
        ensures
            final(self).wf(),
            final(self).bytes() == old(self).bytes(),
            match dec_float(old(self).bytes(), old(self).posn()) {
                Ok((bits, p)) => (r matches Ok(x) && x == bits && final(self).posn() == p),
                Err(e) => r == Err::<u64, Error>(e),
            },
    {
        proof {
            lemma_pow256_vals();
            if self.posn() + 8 <= self.bytes().len() {
                lemma_le_val_bound(self.bytes().subrange(self.posn(), self.posn() + 8));
            }
        }
        self.read_le(8)
    }

    /// Reads a boolean byte: `0x00` or `0x01`, anything else is an error.
    pub fn deserialize_bool(&mut self) -> (r: Result<bool, Error>)
        requires
            old(self).wf(),
        ensures
            final(self).wf(),
            final(self).bytes() == old(self).bytes(),
            match dec(Shape::Bool, old(self).bytes(), old(self).posn()) {
                Ok((v, p)) => (r matches Ok(x) && v == SpecValue::Bool(x) && final(self).posn()
                    == p),
                Err(e) => r == Err::<bool, Error>(e),
            },
    {
        match self.next_byte() {
            Ok(0) => Ok(false),
            Ok(1) => Ok(true),
            Ok(_) => Err(Error::ExpectedBoolean),
            Err(e) => Err(e),
        }
    }

    /// Reads a unit value: exactly one `0x00` byte.
    pub fn deserialize_unit(&mut self) -> (r: Result<(), Error>)
        requires
            old(self).wf(),
        ensures
            final(self).wf(),
            final(self).bytes() == old(self).bytes(),
            match dec(Shape::Unit, old(self).bytes(), old(self).posn()) {
                Ok((v, p)) => (r is Ok && v == SpecValue::Unit && final(self).posn() == p),
                Err(e) => r == Err::<(), Error>(e),
            },
    {
        match self.next_byte() {
            Ok(0) => Ok(()),
            Ok(_) => Err(Error::ExpectedNull),
            Err(e) => Err(e),
        }
    }

    /// Reads an option tag: false for absent, true for present; the
    /// caller then decodes the payload. Any other byte is an error.
    pub fn deserialize_option(&mut self) -> (r: Result<bool, Error>)
        requires
            old(self).wf(),
        ensures
            final(self).wf(),
            final(self).bytes() == old(self).bytes(),
            old(self).posn() >= old(self).bytes().len() ==> r == Err::<bool, Error>(
                Error::Truncated,
            ),
            old(self).posn() < old(self).bytes().len() ==> {
                let c = old(self).bytes()[old(self).posn()];
                if c == 0 || c == 1 {
                    r matches Ok(x) && x == (c == 1) && final(self).posn() == old(self).posn() + 1
                } else {
                    r == Err::<bool, Error>(Error::ExpectedOption)
                }
            },
    {
        match self.next_byte() {
            Ok(0) => Ok(false),
            Ok(1) => Ok(true),
            Ok(_) => Err(Error::ExpectedOption),
            Err(e) => Err(e),
        }
    }

    /// Reads a character: one raw byte.
    pub fn deserialize_char(&mut self) -> (r: Result<char, Error>)
        requires
            old(self).wf(),
        ensures
            final(self).wf(),
            final(self).bytes() == old(self).bytes(),
            match dec(Shape::Char, old(self).bytes(), old(self).posn()) {
                Ok((v, p)) => (r matches Ok(x) && v == SpecValue::Char(x as u8) && (x as u32) < 256
                    && final(self).posn() == p),
                Err(e) => r == Err::<char, Error>(e),
            },
    {
        match self.next_byte() {
            Ok(c) => Ok(c as char),
            Err(e) => Err(e),
        }
    }

    /// Reads a byte buffer: a natural-encoded length, then exactly that
    /// many raw bytes.
    pub fn deserialize_byte_buf(&mut self) -> (r: Result<Vec<u8>, Error>)
        requires
            old(self).wf(),
        ensures
            final(self).wf(),
            final(self).bytes() == old(self).bytes(),
            match dec(Shape::Str, old(self).bytes(), old(self).posn()) {
                Ok((v, p)) => (r matches Ok(x) && v == SpecValue::Str(x@) && final(self).posn()
                    == p),
                Err(e) => r == Err::<Vec<u8>, Error>(e),
            },
    {
        let ghost b = self.bytes();
        let n = match self.read_nat0() {
            Ok(n) => n,
            Err(e) => {
                return Err(e);
            },
        };
        let dlen = self.data.len();
        let remaining = dlen - self.pos;
        if n > remaining as u64 {
            return Err(Error::Truncated);
        }
        let m = n as usize;
        let ghost p = self.posn();
        let mut buf: Vec<u8> = Vec::new();
        let mut i: usize = 0;
        proof {
            assert(buf@ =~= b.subrange(p, p + 0));
        }
        while i < m
            invariant
                i <= m,
                self.wf(),
                self.bytes() == b,
                self.posn() == p,
                dlen == b.len(),
                p + m <= dlen,
                buf@ == b.subrange(p, p + i),
            decreases m - i,
        {
            let c = self.data[self.pos + i];
            buf.push(c);
            proof {
                assert(buf@ =~= b.subrange(p, p + i + 1));
            }
            i = i + 1;
        }
        self.pos = self.pos + m;
        Ok(buf)
    }

    /// Reads text as its raw bytes, exactly as
    /// [`Deserializer::deserialize_byte_buf`]; whether the bytes are
    /// valid text in the caller's encoding is the caller's check.
    pub fn deserialize_string(&mut self) -> (r: Result<Vec<u8>, Error>)
        requires
            old(self).wf(),
        ensures
            final(self).wf(),
            final(self).bytes() == old(self).bytes(),
            match dec(Shape::Str, old(self).bytes(), old(self).posn()) {
                Ok((v, p)) => (r matches Ok(x) && v == SpecValue::Str(x@) && final(self).posn()
                    == p),
                Err(e) => r == Err::<Vec<u8>, Error>(e),
            },
    {
        self.deserialize_byte_buf()
    }

    /// Reads a variant index: one raw, unconstrained byte.
    pub fn deserialize_identifier(&mut self) -> (r: Result<u32, Error>)
        requires
            old(self).wf(),
        ensures
            final(self).wf(),
            final(self).bytes() == old(self).bytes(),
            old(self).posn() >= old(self).bytes().len() ==> r == Err::<u32, Error>(
                Error::Truncated,
            ),
            old(self).posn() < old(self).bytes().len() ==> (r matches Ok(x) && x == old(
                self,
            ).bytes()[old(self).posn()] as u32 && final(self).posn() == old(self).posn() + 1),
    {
        match self.next_byte() {
            Ok(c) => Ok(c as u32),
            Err(e) => Err(e),
        }
    }

    /// Reads one value per field shape, back-to-back.
    #[verifier::rlimit(50)]
    #[verifier::loop_isolation(false)]
    fn deserialize_fields(&mut self, fields: &Vec<Shape>) -> (r: Result<Vec<Value>, Error>)
        requires
            old(self).wf(),
        ensures
            final(self).wf(),
            final(self).bytes() == old(self).bytes(),
            match dec_fields(fields@, old(self).bytes(), old(self).posn()) {
                Ok((vs, p)) => (r matches Ok(xs) && view_elems(xs@) == vs && final(self).posn()
                    == p),
                Err(e) => r == Err::<Vec<Value>, Error>(e),
            },
        decreases fields, 0int, 0int,
    {
        let ghost b = self.bytes();
        let ghost p0 = self.posn();
        let n = fields.len();
        let mut acc: Vec<Value> = Vec::new();
        let mut i: usize = 0;
        proof {
            assert(fields@.take(0) =~= Seq::<Shape>::empty());
            assert(view_elems(acc@) =~= Seq::<SpecValue>::empty());
        }
        while i < n
            invariant
                i <= n,
                n == fields@.len(),
                self.wf(),
                self.bytes() == b,
                dec_fields(fields@.take(i as int), b, p0) == Ok::<(Seq<SpecValue>, int), Error>(
                    (view_elems(acc@), self.posn()),
                ),
            decreases n - i,
        {
            let ghost cur = self.posn();
            match self.deserialize_value(&fields[i]) {
                Ok(x) => {
                    proof {
                        let f = fields@[i as int];
                        let (v, pafter) = dec(f, b, cur)->Ok_0;
                        assert(fields@.take(i + 1).take(i as int) =~= fields@.take(i as int));
                        assert(fields@.take(i + 1).skip(i as int) =~= seq![f]);
                        assert(seq![f].drop_first() =~= Seq::<Shape>::empty());
                        assert(dec_fields(Seq::<Shape>::empty(), b, pafter)
                            == Ok::<(Seq<SpecValue>, int), Error>((Seq::empty(), pafter)));
                        assert(seq![f][0] == f);
                        assert(dec_fields(seq![f], b, cur) == Ok::<(Seq<SpecValue>, int), Error>(
                            (seq![v] + Seq::<SpecValue>::empty(), pafter),
                        ));
                        assert(seq![v] + Seq::<SpecValue>::empty() =~= seq![v]);
                        lemma_dec_fields_split(fields@.take(i + 1), i as int, b, p0);
                        assert(dec_fields(fields@.take(i + 1), b, p0) == Ok::<
                            (Seq<SpecValue>, int),
                            Error,
                        >((view_elems(acc@) + seq![v], pafter)));
                        lemma_view_elems_push(acc@, x);
                        assert(view_elems(acc@) + seq![v] =~= view_elems(acc@.push(x)));
                    }
                    acc.push(x);
                },
                Err(e) => {
                    proof {
                        assert(fields@.skip(i as int)[0] == fields@[i as int]);
                        assert(fields@.skip(i as int).len() > 0);
                        lemma_dec_fields_split(fields@, i as int, b, p0);
                        assert(dec_fields(fields@, b, p0) == Err::<(Seq<SpecValue>, int), Error>(
                            e,
                        ));
                    }
                    return Err(e);
                },
            }
            i = i + 1;
        }
        proof {
            assert(fields@.take(n as int) =~= fields@);
        }
        Ok(acc)
    }

    /// Decodes one whole value of the given shape from the cursor
    /// onward: exactly [`dec`], value, final position and error alike.
    #[verifier::rlimit(80)]
    #[verifier::loop_isolation(false)]
    pub fn deserialize_value(&mut self, sh: &Shape) -> (r: Result<Value, Error>)
        requires
            old(self).wf(),
        ensures
            final(self).wf(),
            final(self).bytes() == old(self).bytes(),
            match dec(*sh, old(self).bytes(), old(self).posn()) {
                Ok((v, p)) => (r matches Ok(x) && x@ == v && final(self).posn() == p),
                Err(e) => r == Err::<Value, Error>(e),
            },
        decreases sh, 1int, 0int,
    {
        let ghost b = self.bytes();
        let ghost p0 = self.posn();
        match sh {
            Shape::Bool => match self.deserialize_bool() {
                Ok(x) => Ok(Value::Bool(x)),
                Err(e) => Err(e),
            },
            Shape::Int => match self.read_signed() {
                Ok(x) => Ok(Value::Int(x)),
                Err(e) => Err(e),
            },
            Shape::Nat => match self.read_nat0() {
                Ok(x) => Ok(Value::Nat(x)),
                Err(e) => Err(e),
            },
            Shape::Float => match self.read_float() {
                Ok(bits) => Ok(Value::Float(bits)),
                Err(e) => Err(e),
            },
            Shape::Char => match self.next_byte() {
                Ok(c) => Ok(Value::Char(c)),
                Err(e) => Err(e),
            },
            Shape::Str => match self.deserialize_byte_buf() {
                Ok(x) => Ok(Value::Str(x)),
                Err(e) => Err(e),
            },
            Shape::Unit => match self.deserialize_unit() {
                Ok(_) => Ok(Value::Unit),
                Err(e) => Err(e),
            },
            Shape::Opt(payload) => match self.deserialize_option() {
                Ok(false) => Ok(Value::Opt(None)),
                Ok(true) => match self.deserialize_value(&**payload) {
                    Ok(x) => Ok(Value::Opt(Some(Box::new(x)))),
                    Err(e) => Err(e),
                },
                Err(e) => Err(e),
            },
            Shape::List(elem) => {
                let n = match self.read_nat0() {
                    Ok(n) => n,
                    Err(e) => {
                        return Err(e);
                    },
                };
                let ghost pstart = self.posn();
                let ghost shv = *sh;
                let mut acc: Vec<Value> = Vec::new();
                let mut i: u64 = 0;
                proof {
                    assert(view_elems(acc@) =~= Seq::<SpecValue>::empty());
                }
                while i < n
                    invariant
                        i <= n,
                        shv == *sh,
                        shv matches Shape::List(e) && e == elem,
                        self.wf(),
                        self.bytes() == b,
                        dec_rep(shv, i as nat, b, pstart) == Ok::<(Seq<SpecValue>, int), Error>(
                            (view_elems(acc@), self.posn()),
                        ),
                    decreases n - i,
                {
                    let ghost cur = self.posn();
                    match self.deserialize_value(&**elem) {
                        Ok(x) => {
                            proof {
                                let (v, pafter) = dec(**elem, b, cur)->Ok_0;
                                assert(dec_rep(shv, 0, b, pafter) == Ok::<
                                    (Seq<SpecValue>, int),
                                    Error,
                                >((Seq::empty(), pafter)));
                                assert(dec_rep(shv, 1, b, cur) == Ok::<
                                    (Seq<SpecValue>, int),
                                    Error,
                                >((seq![v] + Seq::<SpecValue>::empty(), pafter)));
                                assert(seq![v] + Seq::<SpecValue>::empty() =~= seq![v]);
                                lemma_dec_rep_split(shv, i as nat, (i + 1) as nat, b, pstart);
                                assert(dec_rep(shv, (i + 1) as nat, b, pstart) == Ok::<
                                    (Seq<SpecValue>, int),
                                    Error,
                                >((view_elems(acc@) + seq![v], pafter)));
                                lemma_view_elems_push(acc@, x);
                                assert(view_elems(acc@) + seq![v] =~= view_elems(acc@.push(x)));
                            }
                            acc.push(x);
                        },
                        Err(e) => {
                            proof {
                                lemma_dec_rep_split(shv, i as nat, n as nat, b, pstart);
                                assert(dec_rep(shv, (n - i) as nat, b, cur) == Err::<
                                    (Seq<SpecValue>, int),
                                    Error,
                                >(e));
                            }
                            return Err(e);
                        },
                    }
                    i = i + 1;
                }
                Ok(Value::List(acc))
            },
            Shape::Tuple(fields) => match self.deserialize_fields(fields) {
                Ok(xs) => Ok(Value::Tuple(xs)),
                Err(e) => Err(e),
            },
            Shape::Dict(key, val) => {
                let n = match self.read_nat0() {
                    Ok(n) => n,
                    Err(e) => {
                        return Err(e);
                    },
                };
                let ghost pstart = self.posn();
                let ghost shv = *sh;
                let mut acc: Vec<(Value, Value)> = Vec::new();
                let mut i: u64 = 0;
                proof {
                    assert(view_pairs(acc@) =~= Seq::<(SpecValue, SpecValue)>::empty());
                }
                while i < n
                    invariant
                        i <= n,
                        shv == *sh,
                        shv matches Shape::Dict(k, v) && k == key && v == val,
                        self.wf(),
                        self.bytes() == b,
                        dec_pair_rep(shv, i as nat, b, pstart) == Ok::<
                            (Seq<(SpecValue, SpecValue)>, int),
                            Error,
                        >((view_pairs(acc@), self.posn())),
                    decreases n - i,
                {
                    let ghost cur = self.posn();
                    let kx = match self.deserialize_value(&**key) {
                        Ok(kx) => kx,
                        Err(e) => {
                            proof {
                                lemma_dec_pair_rep_split(shv, i as nat, n as nat, b, pstart);
                            }
                            return Err(e);
                        },
                    };
                    let ghost curv = self.posn();
                    match self.deserialize_value(&**val) {
                        Ok(vx) => {
                            proof {
                                let (kv, pk) = dec(**key, b, cur)->Ok_0;
                                let (vv, pv) = dec(**val, b, curv)->Ok_0;
                                assert(dec_pair_rep(shv, 0, b, pv) == Ok::<
                                    (Seq<(SpecValue, SpecValue)>, int),
                                    Error,
                                >((Seq::empty(), pv)));
                                assert(dec_pair_rep(shv, 1, b, cur) == Ok::<
                                    (Seq<(SpecValue, SpecValue)>, int),
                                    Error,
                                >((seq![(kv, vv)] + Seq::<(SpecValue, SpecValue)>::empty(), pv)));
                                assert(seq![(kv, vv)] + Seq::<(SpecValue, SpecValue)>::empty()
                                    =~= seq![(kv, vv)]);
                                lemma_dec_pair_rep_split(shv, i as nat, (i + 1) as nat, b, pstart);
                                assert(dec_pair_rep(shv, (i + 1) as nat, b, pstart) == Ok::<
                                    (Seq<(SpecValue, SpecValue)>, int),
                                    Error,
                                >((view_pairs(acc@) + seq![(kv, vv)], pv)));
                                lemma_view_pairs_push(acc@, kx, vx);
                                assert(view_pairs(acc@) + seq![(kv, vv)] =~= view_pairs(
                                    acc@.push((kx, vx)),
                                ));
                            }
                            acc.push((kx, vx));
                        },
                        Err(e) => {
                            proof {
                                lemma_dec_pair_rep_split(shv, i as nat, n as nat, b, pstart);
                            }
                            return Err(e);
                        },
                    }
                    i = i + 1;
                }
                Ok(Value::Dict(acc))
            },
            Shape::Variant(variants) => {
                let idx = match self.next_byte() {
                    Ok(c) => c,
                    Err(e) => {
                        return Err(e);
                    },
                };
                if (idx as usize) < variants.len() {
                    match self.deserialize_fields(&variants[idx as usize]) {
                        Ok(xs) => Ok(Value::Variant(idx as u32, xs)),
                        Err(e) => Err(e),
                    }
                } else {
                    Err(Error::Identifier)
                }
            },
            Shape::Any => Err(Error::CannotDeserializeAny),
        }
    }
}

/// Decodes exactly one value of the given shape from a byte buffer. The
/// whole buffer must be consumed: bytes left over after the value are the
/// trailing-data error, and every other failure of [`dec`] is surfaced
/// unchanged.
pub fn from_slice(sh: &Shape, data: &[u8]) -> (r: Result<Value, Error>)
    ensures
        match dec(*sh, data@, 0) {
            Ok((v, p)) => {
                if p == data@.len() {
                    r matches Ok(x) && x@ == v
                } else {
                    r == Err::<Value, Error>(Error::TrailingCharacters)
                }
            },
            Err(e) => r == Err::<Value, Error>(e),
        },
{
    let owned = vstd::slice::slice_to_vec(data);
    let mut de = Deserializer::new(owned);
    match de.deserialize_value(sh) {
        Ok(x) => {
            if de.pos_is_end() {
                Ok(x)
            } else {
                Err(Error::TrailingCharacters)
            }
        },
        Err(e) => Err(e),
    }
}

/// A pull cursor over a counted run of elements or pairs: how the
/// decoder tells a caller-driven traversal where a sequence ends, since
/// the wire has no terminator byte. Holds the count still to be yielded.
pub struct SeqWithLen {
    len: usize,
}

impl SeqWithLen {
    /// The number of elements still to be yielded.
    pub closed spec fn remaining(&self) -> nat {
        self.len as nat
    }

    /// A cursor over `len` yet-undecoded elements.
    pub fn new(len: usize) -> (s: SeqWithLen)
        ensures
            s.remaining() == len,
    {
        SeqWithLen { len }
    }

    /// Yields the next element of the run, decoded against `sh`, and
    /// counts it off; once the count is spent, reports the end without
    /// consuming a byte.
    pub fn next_element_seed(&mut self, de: &mut Deserializer, sh: &Shape) -> (r: Result<
        Option<Value>,
        Error,
    >)
        requires
            old(de).wf(),
        ensures
            final(de).wf(),
            final(de).bytes() == old(de).bytes(),
            old(self).remaining() == 0 ==> (r matches Ok(o) && o is None && final(de).posn()
                == old(de).posn() && final(self).remaining() == 0),
            old(self).remaining() > 0 ==> final(self).remaining() == old(self).remaining() - 1
                && match dec(*sh, old(de).bytes(), old(de).posn()) {
                Ok((v, p)) => (r matches Ok(o) && (o matches Some(x) && x@ == v
                    && final(de).posn() == p)),
                Err(e) => r == Err::<Option<Value>, Error>(e),
            },
    {
        if self.len == 0 {
            return Ok(None);
        }
        self.len = self.len - 1;
        match de.deserialize_value(sh) {
            Ok(x) => Ok(Some(x)),
            Err(e) => Err(e),
        }
    }

    /// Yields the next key of a counted pair run, as
    /// [`SeqWithLen::next_element_seed`].
    pub fn next_key_seed(&mut self, de: &mut Deserializer, sh: &Shape) -> (r: Result<
        Option<Value>,
        Error,
    >)
        requires
            old(de).wf(),
        ensures
            final(de).wf(),
            final(de).bytes() == old(de).bytes(),
            old(self).remaining() == 0 ==> (r matches Ok(o) && o is None && final(de).posn()
                == old(de).posn() && final(self).remaining() == 0),
            old(self).remaining() > 0 ==> final(self).remaining() == old(self).remaining() - 1
                && match dec(*sh, old(de).bytes(), old(de).posn()) {
                Ok((v, p)) => (r matches Ok(o) && (o matches Some(x) && x@ == v
                    && final(de).posn() == p)),
                Err(e) => r == Err::<Option<Value>, Error>(e),
            },
    {
        self.next_element_seed(de, sh)
    }

    /// Yields the value that follows a yielded key; the pair was already
    /// counted off with its key, so the count is untouched.
    pub fn next_value_seed(&mut self, de: &mut Deserializer, sh: &Shape) -> (r: Result<
        Value,
        Error,
    >)
        requires
            old(de).wf(),
        ensures
            final(de).wf(),
            final(de).bytes() == old(de).bytes(),
            final(self).remaining() == old(self).remaining(),
            match dec(*sh, old(de).bytes(), old(de).posn()) {
                Ok((v, p)) => (r matches Ok(x) && x@ == v && final(de).posn() == p),
                Err(e) => r == Err::<Value, Error>(e),
            },
    {
        de.deserialize_value(sh)
    }
}

/// Narrows a decoded signed integer to 8 bits, or reports the range
/// error: narrowing is a separate step after the 64-bit decode.
pub fn narrow_i8(v: i64) -> (r: Result<i8, Error>)
    ensures
        i8::MIN <= v <= i8::MAX ==> (r matches Ok(x) && x as int == v as int),
        !(i8::MIN <= v <= i8::MAX) ==> r == Err::<i8, Error>(Error::OutOfRange),
{
    if -0x80 <= v && v <= 0x7f {
        Ok(v as i8)
    } else {
        Err(Error::OutOfRange)
    }
}

/// Narrows a decoded signed integer to 16 bits, or reports the range
/// error.
pub fn narrow_i16(v: i64) -> (r: Result<i16, Error>)
    ensures
        i16::MIN <= v <= i16::MAX ==> (r matches Ok(x) && x as int == v as int),
        !(i16::MIN <= v <= i16::MAX) ==> r == Err::<i16, Error>(Error::OutOfRange),
{
    if -0x8000 <= v && v <= 0x7fff {
        Ok(v as i16)
    } else {
        Err(Error::OutOfRange)
    }
}

/// Narrows a decoded signed integer to 32 bits, or reports the range
/// error.
pub fn narrow_i32(v: i64) -> (r: Result<i32, Error>)
    ensures
        i32::MIN <= v <= i32::MAX ==> (r matches Ok(x) && x as int == v as int),
        !(i32::MIN <= v <= i32::MAX) ==> r == Err::<i32, Error>(Error::OutOfRange),
{
    if -0x8000_0000 <= v && v <= 0x7fff_ffff {
        Ok(v as i32)
    } else {
        Err(Error::OutOfRange)
    }
}

/// Narrows a decoded natural to 8 bits, or reports the range error.
pub fn narrow_u8(v: u64) -> (r: Result<u8, Error>)
    ensures
        v <= u8::MAX ==> (r matches Ok(x) && x as nat == v as nat),
        v > u8::MAX ==> r == Err::<u8, Error>(Error::OutOfRange),
{
    if v <= 0xff {
        Ok(v as u8)
    } else {
        Err(Error::OutOfRange)
    }
}

/// Narrows a decoded natural to 16 bits, or reports the range error.
pub fn narrow_u16(v: u64) -> (r: Result<u16, Error>)
    ensures
        v <= u16::MAX ==> (r matches Ok(x) && x as nat == v as nat),
        v > u16::MAX ==> r == Err::<u16, Error>(Error::OutOfRange),
{
    if v <= 0xffff {
        Ok(v as u16)
    } else {
        Err(Error::OutOfRange)
    }
}

/// Narrows a decoded natural to 32 bits, or reports the range error.
pub fn narrow_u32(v: u64) -> (r: Result<u32, Error>)
    ensures
        v <= u32::MAX ==> (r matches Ok(x) && x as nat == v as nat),
        v > u32::MAX ==> r == Err::<u32, Error>(Error::OutOfRange),
{
    if v <= 0xffff_ffff {
        Ok(v as u32)
    } else {
        Err(Error::OutOfRange)
    }
}

} // verus!
