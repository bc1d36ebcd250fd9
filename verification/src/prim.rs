//! The primitive codec, stated mathematically: the variable-width byte
//! layouts of signed integers and unsigned "naturals", the little-endian
//! byte maps they build on, and the exact meaning of a primitive decode,
//! byte for byte.
//!
//! Integers are laid out in one of five forms, chosen canonically by
//! magnitude: a single inline byte (0 to 127), or a reserved tag byte
//! followed by a 1, 2, 4 or 8 byte little-endian payload. The payload of a
//! negative integer is its two's-complement representation at that width.

use vstd::prelude::*;

use crate::error::Error;
use crate::CODE_INT16;
use crate::CODE_INT32;
use crate::CODE_INT64;
use crate::CODE_NEG_INT8;

verus! {

/// 256 to the power `n`: the number of values `n` bytes can hold.
pub open spec fn pow256(n: nat) -> nat
    decreases n,
{
    if n == 0 {
        1
    } else {
        256 * pow256((n - 1) as nat)
    }
}

/// The `n` little-endian bytes of `v` (of `v` modulo `pow256(n)`, where
/// `v` is larger).
pub open spec fn le_of(v: nat, n: nat) -> Seq<u8>
    decreases n,
{
    if n == 0 {
        Seq::empty()
    } else {
        seq![(v % 256) as u8] + le_of(v / 256, (n - 1) as nat)
    }
}

/// The value of a little-endian byte sequence.
pub open spec fn le_val(s: Seq<u8>) -> nat
    decreases s.len(),
{
    if s.len() == 0 {
        0
    } else {
        s[0] as nat + 256 * le_val(s.drop_first())
    }
}

/// The value of an `n`-byte little-endian sequence read as a signed
/// two's-complement integer.
pub open spec fn sign_ext(raw: nat, n: nat) -> int {
    if 2 * raw >= pow256(n) {
        raw - pow256(n)
    } else {
        raw as int
    }
}

/// The canonical encoding of an unsigned "natural" value: the smallest of
/// the inline byte, 2, 4 or 8 byte little-endian forms that holds it.
pub open spec fn nat0_enc(v: nat) -> Seq<u8> {
    if v < 0x80 {
        seq![v as u8]
    } else if v < 0x10000 {
        seq![CODE_INT16] + le_of(v, 2)
    } else if v < 0x1_0000_0000 {
        seq![CODE_INT32] + le_of(v, 4)
    } else {
        seq![CODE_INT64] + le_of(v, 8)
    }
}

/// The canonical encoding of a signed integer: the smallest width whose
/// two's-complement range holds it; nonnegative values below 128 stand
/// inline in a single byte.
pub open spec fn signed_enc(v: int) -> Seq<u8> {
    if v >= 0 {
        if v < 0x80 {
            seq![v as u8]
        } else if v < 0x8000 {
            seq![CODE_INT16] + le_of(v as nat, 2)
        } else if v < 0x8000_0000 {
            seq![CODE_INT32] + le_of(v as nat, 4)
        } else {
            seq![CODE_INT64] + le_of(v as nat, 8)
        }
    } else {
        if v >= -0x80 {
            seq![CODE_NEG_INT8] + le_of((v + 0x100) as nat, 1)
        } else if v >= -0x8000 {
            seq![CODE_INT16] + le_of((v + 0x10000) as nat, 2)
        } else if v >= -0x8000_0000 {
            seq![CODE_INT32] + le_of((v + 0x1_0000_0000) as nat, 4)
        } else {
            seq![CODE_INT64] + le_of((v + 0x1_0000_0000_0000_0000) as nat, 8)
        }
    }
}

/// What decoding a natural at position `pos` of `b` yields: the value and
/// the position after it, or the error. A tag byte dispatches to a wider
/// little-endian read; any other byte is the value itself. The byte
/// `0xff` is never emitted by the encoder in this role and reads as the
/// literal value 255: an accepted ambiguity of the format, kept for wire
/// compatibility.
pub open spec fn dec_nat0(b: Seq<u8>, pos: int) -> Result<(nat, int), Error> {
    if !(0 <= pos < b.len()) {
        Err(Error::Truncated)
    } else if b[pos] == CODE_INT16 {
        if pos + 3 <= b.len() {
            Ok((le_val(b.subrange(pos + 1, pos + 3)), pos + 3))
        } else {
            Err(Error::Truncated)
        }
    } else if b[pos] == CODE_INT32 {
        if pos + 5 <= b.len() {
            Ok((le_val(b.subrange(pos + 1, pos + 5)), pos + 5))
        } else {
            Err(Error::Truncated)
        }
    } else if b[pos] == CODE_INT64 {
        if pos + 9 <= b.len() {
            Ok((le_val(b.subrange(pos + 1, pos + 9)), pos + 9))
        } else {
            Err(Error::Truncated)
        }
    } else {
        Ok((b[pos] as nat, pos + 1))
    }
}

/// What decoding a signed integer at position `pos` of `b` yields. Each
/// tag byte dispatches to a sign-extending little-endian read of its
/// width; any other byte is the nonnegative value itself.
pub open spec fn dec_signed(b: Seq<u8>, pos: int) -> Result<(int, int), Error> {
    if !(0 <= pos < b.len()) {
        Err(Error::Truncated)
    } else if b[pos] == CODE_NEG_INT8 {
        if pos + 2 <= b.len() {
            Ok((sign_ext(le_val(b.subrange(pos + 1, pos + 2)), 1), pos + 2))
        } else {
            Err(Error::Truncated)
        }
    } else if b[pos] == CODE_INT16 {
        if pos + 3 <= b.len() {
            Ok((sign_ext(le_val(b.subrange(pos + 1, pos + 3)), 2), pos + 3))
        } else {
            Err(Error::Truncated)
        }
    } else if b[pos] == CODE_INT32 {
        if pos + 5 <= b.len() {
            Ok((sign_ext(le_val(b.subrange(pos + 1, pos + 5)), 4), pos + 5))
        } else {
            Err(Error::Truncated)
        }
    } else if b[pos] == CODE_INT64 {
        if pos + 9 <= b.len() {
            Ok((sign_ext(le_val(b.subrange(pos + 1, pos + 9)), 8), pos + 9))
        } else {
            Err(Error::Truncated)
        }
    } else {
        Ok((b[pos] as int, pos + 1))
    }
}

/// What decoding a float at position `pos` of `b` yields: the bit pattern
/// of the next 8 little-endian bytes, untagged and unchecked.
pub open spec fn dec_float(b: Seq<u8>, pos: int) -> Result<(u64, int), Error> {
    if 0 <= pos && pos + 8 <= b.len() {
        Ok((le_val(b.subrange(pos, pos + 8)) as u64, pos + 8))
    } else {
        Err(Error::Truncated)
    }
}

/// The byte-count ranges the codec selects among, as plain numbers.
pub proof fn lemma_pow256_vals()
    ensures
        pow256(1) == 0x100,
        pow256(2) == 0x10000,
        pow256(4) == 0x1_0000_0000,
        pow256(8) == 0x1_0000_0000_0000_0000,
{
    reveal_with_fuel(pow256, 9);
}

/// A byte count's range is never empty.
pub proof fn lemma_pow256_pos(n: nat)
    ensures
        pow256(n) >= 1,
    decreases n,
{
    if n > 0 {
        lemma_pow256_pos((n - 1) as nat);
    }
}

/// More bytes hold at least as many values.
pub proof fn lemma_pow256_mono(a: nat, b: nat)
    requires
        a <= b,
    ensures
        pow256(a) <= pow256(b),
    decreases b,
{
    if a < b {
        lemma_pow256_mono(a, (b - 1) as nat);
        lemma_pow256_pos((b - 1) as nat);
    }
}

/// A little-endian sequence is as long as its width says.
pub proof fn lemma_le_of_len(v: nat, n: nat)
    ensures
        le_of(v, n).len() == n,
    decreases n,
{
    if n > 0 {
        lemma_le_of_len(v / 256, (n - 1) as nat);
    }
}

/// The value of a little-endian sequence fits in its width.
pub proof fn lemma_le_val_bound(s: Seq<u8>)
    ensures
        le_val(s) < pow256(s.len()),
    decreases s.len(),
{
    if s.len() > 0 {
        lemma_le_val_bound(s.drop_first());
    }
}

/// Reading back the `n` little-endian bytes of a value below
/// `pow256(n)` yields that value.
pub proof fn lemma_le_roundtrip(v: nat, n: nat)
    requires
        v < pow256(n),
    ensures
        le_val(le_of(v, n)) == v,
    decreases n,
{
    if n > 0 {
        lemma_le_roundtrip(v / 256, (n - 1) as nat);
        assert(le_of(v, n).drop_first() =~= le_of(v / 256, (n - 1) as nat));
        assert(v / 256 < pow256((n - 1) as nat)) by {
            assert(pow256(n) == 256 * pow256((n - 1) as nat));
            assert(v / 256 < pow256((n - 1) as nat)) by (nonlinear_arith)
                requires
                    v < 256 * pow256((n - 1) as nat),
                    0 <= v,
            ;
        }
        assert(v == (v % 256) + 256 * (v / 256)) by (nonlinear_arith);
    }
}

/// Splitting a little-endian sequence: the first `i` bytes are those of
/// the value, the rest those of the value shifted right by `i` bytes.
pub proof fn lemma_le_of_split(v: nat, i: nat, n: nat)
    requires
        i <= n,
    ensures
        le_of(v, n) =~= le_of(v, i) + le_of(v / pow256(i), (n - i) as nat),
    decreases i,
{
    if i == 0 {
        assert(v / 1 == v);
        assert(le_of(v, 0) =~= Seq::<u8>::empty());
    } else {
        lemma_le_of_split(v / 256, (i - 1) as nat, (n - 1) as nat);
        assert((v / 256) / pow256((i - 1) as nat) == v / pow256(i)) by {
            lemma_pow256_pos((i - 1) as nat);
            vstd::arithmetic::div_mod::lemma_div_denominator(
                v as int,
                256,
                pow256((i - 1) as nat) as int,
            );
            assert(256 * pow256((i - 1) as nat) == pow256(i));
        }
        lemma_le_of_len(v, i);
        lemma_le_of_len(v, n);
    }
}

/// A subrange known to hold a concatenation splits into subranges
/// holding the parts.
pub proof fn lemma_subrange_concat(b: Seq<u8>, pos: int, e1: Seq<u8>, e2: Seq<u8>)
    requires
        0 <= pos,
        pos + e1.len() + e2.len() <= b.len(),
        b.subrange(pos, pos + e1.len() + e2.len()) == e1 + e2,
    ensures
        b.subrange(pos, pos + e1.len()) == e1,
        b.subrange(pos + e1.len(), pos + e1.len() + e2.len()) == e2,
{
    let whole = b.subrange(pos, pos + e1.len() + e2.len());
    assert forall|i: int| 0 <= i < e1.len() implies b.subrange(pos, pos + e1.len())[i]
        == e1[i] by {
        assert(whole[i] == (e1 + e2)[i]);
    }
    assert(b.subrange(pos, pos + e1.len()) =~= e1);
    assert forall|i: int|
        0 <= i < e2.len() implies b.subrange(pos + e1.len(), pos + e1.len() + e2.len())[i]
        == e2[i] by {
        assert(whole[e1.len() + i] == (e1 + e2)[e1.len() + i]);
    }
    assert(b.subrange(pos + e1.len(), pos + e1.len() + e2.len()) =~= e2);
}

/// Decoding a natural's canonical bytes yields the natural back, with
/// the cursor right after them: the primitive codec round-trips.
pub proof fn lemma_nat0_roundtrip(v: nat, b: Seq<u8>, pos: int)
    requires
        v < pow256(8),
        0 <= pos,
        pos + nat0_enc(v).len() <= b.len(),
        b.subrange(pos, pos + nat0_enc(v).len()) == nat0_enc(v),
    ensures
        dec_nat0(b, pos) == Ok::<(nat, int), Error>((v, pos + nat0_enc(v).len())),
{
    lemma_pow256_vals();
    let e = nat0_enc(v);
    if v < 0x80 {
        assert(b.subrange(pos, pos + 1)[0] == e[0]);
        assert(b[pos] == v as u8);
    } else if v < 0x10000 {
        lemma_le_of_len(v, 2);
        lemma_subrange_concat(b, pos, seq![CODE_INT16], le_of(v, 2));
        assert(b.subrange(pos, pos + 1)[0] == CODE_INT16);
        assert(b[pos] == CODE_INT16);
        assert(b.subrange(pos + 1, pos + 3) == le_of(v, 2));
        lemma_le_roundtrip(v, 2);
    } else if v < 0x1_0000_0000 {
        lemma_le_of_len(v, 4);
        lemma_subrange_concat(b, pos, seq![CODE_INT32], le_of(v, 4));
        assert(b.subrange(pos, pos + 1)[0] == CODE_INT32);
        assert(b[pos] == CODE_INT32);
        assert(b.subrange(pos + 1, pos + 5) == le_of(v, 4));
        lemma_le_roundtrip(v, 4);
    } else {
        lemma_le_of_len(v, 8);
        lemma_subrange_concat(b, pos, seq![CODE_INT64], le_of(v, 8));
        assert(b.subrange(pos, pos + 1)[0] == CODE_INT64);
        assert(b[pos] == CODE_INT64);
        assert(b.subrange(pos + 1, pos + 9) == le_of(v, 8));
        lemma_le_roundtrip(v, 8);
    }
}

/// Decoding a signed integer's canonical bytes yields the integer back,
/// with the cursor right after them.
pub proof fn lemma_signed_roundtrip(v: int, b: Seq<u8>, pos: int)
    requires
        i64::MIN <= v <= i64::MAX,
        0 <= pos,
        pos + signed_enc(v).len() <= b.len(),
        b.subrange(pos, pos + signed_enc(v).len()) == signed_enc(v),
    ensures
        dec_signed(b, pos) == Ok::<(int, int), Error>((v, pos + signed_enc(v).len())),
{
    lemma_pow256_vals();
    if v >= 0 {
        if v < 0x80 {
            assert(b.subrange(pos, pos + 1)[0] == signed_enc(v)[0]);
            assert(b[pos] == v as u8);
        } else if v < 0x8000 {
            lemma_le_of_len(v as nat, 2);
            lemma_subrange_concat(b, pos, seq![CODE_INT16], le_of(v as nat, 2));
            assert(b.subrange(pos, pos + 1)[0] == CODE_INT16);
            assert(b[pos] == CODE_INT16);
            assert(b.subrange(pos + 1, pos + 3) == le_of(v as nat, 2));
            lemma_le_roundtrip(v as nat, 2);
        } else if v < 0x8000_0000 {
            lemma_le_of_len(v as nat, 4);
            lemma_subrange_concat(b, pos, seq![CODE_INT32], le_of(v as nat, 4));
            assert(b.subrange(pos, pos + 1)[0] == CODE_INT32);
            assert(b[pos] == CODE_INT32);
            assert(b.subrange(pos + 1, pos + 5) == le_of(v as nat, 4));
            lemma_le_roundtrip(v as nat, 4);
        } else {
            lemma_le_of_len(v as nat, 8);
            lemma_subrange_concat(b, pos, seq![CODE_INT64], le_of(v as nat, 8));
            assert(b.subrange(pos, pos + 1)[0] == CODE_INT64);
            assert(b[pos] == CODE_INT64);
            assert(b.subrange(pos + 1, pos + 9) == le_of(v as nat, 8));
            lemma_le_roundtrip(v as nat, 8);
        }
    } else {
        if v >= -0x80 {
            let w = (v + 0x100) as nat;
            lemma_le_of_len(w, 1);
            lemma_subrange_concat(b, pos, seq![CODE_NEG_INT8], le_of(w, 1));
            assert(b.subrange(pos, pos + 1)[0] == CODE_NEG_INT8);
            assert(b[pos] == CODE_NEG_INT8);
            assert(b.subrange(pos + 1, pos + 2) == le_of(w, 1));
            lemma_le_roundtrip(w, 1);
            assert(sign_ext(w, 1) == v);
        } else if v >= -0x8000 {
            let w = (v + 0x10000) as nat;
            lemma_le_of_len(w, 2);
            lemma_subrange_concat(b, pos, seq![CODE_INT16], le_of(w, 2));
            assert(b.subrange(pos, pos + 1)[0] == CODE_INT16);
            assert(b[pos] == CODE_INT16);
            assert(b.subrange(pos + 1, pos + 3) == le_of(w, 2));
            lemma_le_roundtrip(w, 2);
            assert(sign_ext(w, 2) == v);
        } else if v >= -0x8000_0000 {
            let w = (v + 0x1_0000_0000) as nat;
            lemma_le_of_len(w, 4);
            lemma_subrange_concat(b, pos, seq![CODE_INT32], le_of(w, 4));
            assert(b.subrange(pos, pos + 1)[0] == CODE_INT32);
            assert(b[pos] == CODE_INT32);
            assert(b.subrange(pos + 1, pos + 5) == le_of(w, 4));
            lemma_le_roundtrip(w, 4);
            assert(sign_ext(w, 4) == v);
        } else {
            let w = (v + 0x1_0000_0000_0000_0000) as nat;
            lemma_le_of_len(w, 8);
            lemma_subrange_concat(b, pos, seq![CODE_INT64], le_of(w, 8));
            assert(b.subrange(pos, pos + 1)[0] == CODE_INT64);
            assert(b[pos] == CODE_INT64);
            assert(b.subrange(pos + 1, pos + 9) == le_of(w, 8));
            lemma_le_roundtrip(w, 8);
            assert(sign_ext(w, 8) == v);
        }
    }
}

} // verus!
