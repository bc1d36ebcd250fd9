//! The laws that tie the encoder and the decoder together: decoding a
//! value's canonical bytes, against the value's own shape, yields the
//! value back and consumes exactly its bytes; and on one shape, the
//! canonical bytes determine the value.

use vstd::prelude::*;

use crate::de::dec;
use crate::de::dec_fields;
use crate::de::dec_pair_rep;
use crate::de::dec_rep;
use crate::error::Error;
use crate::prim::le_of;
use crate::prim::lemma_le_of_len;
use crate::prim::lemma_le_roundtrip;
use crate::prim::lemma_nat0_roundtrip;
use crate::prim::lemma_pow256_vals;
use crate::prim::lemma_signed_roundtrip;
use crate::prim::lemma_subrange_concat;
use crate::prim::nat0_enc;
use crate::prim::pow256;
use crate::ser::enc;
use crate::ser::enc_all;
use crate::ser::enc_pairs;
use crate::value::conforms;
use crate::value::conforms_all;
use crate::value::conforms_fields;
use crate::value::conforms_pairs;
use crate::value::encodable;
use crate::value::encodable_all;
use crate::value::encodable_pairs;
use crate::value::Shape;
use crate::value::SpecValue;

verus! {

/// Round-trip: wherever a buffer holds the canonical bytes of an
/// encodable value of shape `sh`, decoding that shape there yields the
/// value itself and stops right after its last byte — whatever follows.
pub proof fn lemma_round_trip(v: SpecValue, sh: Shape, b: Seq<u8>, pos: int)
    requires
        conforms(v, sh),
        encodable(v),
        0 <= pos,
        pos + enc(v).len() <= b.len(),
        b.subrange(pos, pos + enc(v).len()) == enc(v),
    ensures
        dec(sh, b, pos) == Ok::<(SpecValue, int), Error>((v, pos + enc(v).len())),
    decreases sh, 1int, 0int,
{
    lemma_pow256_vals();
    match sh {
        Shape::Bool => {
            assert(b.subrange(pos, pos + 1)[0] == enc(v)[0]);
        },
        Shape::Int => {
            let i = v->Int_0;
            lemma_signed_roundtrip(i, b, pos);
        },
        Shape::Nat => {
            let n = v->Nat_0;
            lemma_nat0_roundtrip(n, b, pos);
        },
        Shape::Float => {
            let bits = v->Float_0;
            lemma_le_of_len(bits as nat, 8);
            lemma_le_roundtrip(bits as nat, 8);
            assert(b.subrange(pos, pos + 8) == le_of(bits as nat, 8));
        },
        Shape::Char => {
            assert(b.subrange(pos, pos + 1)[0] == enc(v)[0]);
        },
        Shape::Str => {
            let s = v->Str_0;
            lemma_nat0_len(s.len());
            let hl = nat0_enc(s.len()).len();
            lemma_subrange_concat(b, pos, nat0_enc(s.len()), s);
            lemma_nat0_roundtrip(s.len(), b, pos);
            assert(b.subrange(pos + hl, pos + hl + s.len() as int) == s);
        },
        Shape::Unit => {
            assert(b.subrange(pos, pos + 1)[0] == enc(v)[0]);
        },
        Shape::Opt(payload) => {
            match v->Opt_0 {
                Option::None => {
                    assert(b.subrange(pos, pos + 1)[0] == enc(v)[0]);
                },
                Option::Some(inner) => {
                    lemma_subrange_concat(b, pos, seq![1u8], enc(*inner));
                    assert(b.subrange(pos, pos + 1)[0] == 1u8);
                    assert(b[pos] == 1u8);
                    lemma_round_trip(*inner, *payload, b, pos + 1);
                },
            }
        },
        Shape::List(e) => {
            let xs = v->List_0;
            lemma_nat0_len(xs.len());
            let hl = nat0_enc(xs.len()).len();
            lemma_subrange_concat(b, pos, nat0_enc(xs.len()), enc_all(xs));
            lemma_nat0_roundtrip(xs.len(), b, pos);
            lemma_round_trip_rep(xs, sh, b, pos + hl);
        },
        Shape::Tuple(fields) => {
            let xs = v->Tuple_0;
            lemma_round_trip_fields(xs, fields@, b, pos);
        },
        Shape::Dict(k, val) => {
            let ps = v->Dict_0;
            lemma_nat0_len(ps.len());
            let hl = nat0_enc(ps.len()).len();
            lemma_subrange_concat(b, pos, nat0_enc(ps.len()), enc_pairs(ps));
            lemma_nat0_roundtrip(ps.len(), b, pos);
            lemma_round_trip_pairs(ps, sh, b, pos + hl);
        },
        Shape::Variant(variants) => {
            let idx = v->Variant_0;
            let xs = v->Variant_1;
            lemma_subrange_concat(b, pos, seq![idx as u8], enc_all(xs));
            assert(b.subrange(pos, pos + 1)[0] == idx as u8);
            assert(b[pos] == idx as u8);
            assert(b[pos] as nat == idx);
            lemma_round_trip_fields(xs, variants@[idx as int]@, b, pos + 1);
        },
        Shape::Any => {
            assert(!conforms(v, sh));
        },
    }
}

/// The natural form of a value that fits 8 bytes is itself decodable:
/// its width never exceeds the widest form.
proof fn lemma_nat0_len(n: nat)
    requires
        n <= u64::MAX,
    ensures
        n < pow256(8),
        nat0_enc(n).len() <= 9,
{
    lemma_pow256_vals();
    if n < 0x80 {
    } else if n < 0x10000 {
        lemma_le_of_len(n, 2);
    } else if n < 0x1_0000_0000 {
        lemma_le_of_len(n, 4);
    } else {
        lemma_le_of_len(n, 8);
    }
}

/// Round-trip for a counted run: a buffer holding the back-to-back bytes
/// of encodable elements decodes, element by element, to those elements.
pub proof fn lemma_round_trip_rep(xs: Seq<SpecValue>, sh: Shape, b: Seq<u8>, pos: int)
    requires
        sh is List,
        conforms_all(xs, *sh->List_0),
        encodable_all(xs),
        0 <= pos,
        pos + enc_all(xs).len() <= b.len(),
        b.subrange(pos, pos + enc_all(xs).len()) == enc_all(xs),
    ensures
        dec_rep(sh, xs.len(), b, pos) == Ok::<(Seq<SpecValue>, int), Error>(
            (xs, pos + enc_all(xs).len()),
        ),
    decreases sh, 0int, xs.len(),
{
    if xs.len() == 0 {
        assert(enc_all(xs).len() == 0);
        assert(dec_rep(sh, 0, b, pos) == Ok::<(Seq<SpecValue>, int), Error>((Seq::empty(), pos)));
        assert(xs =~= Seq::<SpecValue>::empty());
    } else {
        let e = sh->List_0;
        lemma_subrange_concat(b, pos, enc(xs[0]), enc_all(xs.drop_first()));
        lemma_round_trip(xs[0], *e, b, pos);
        lemma_round_trip_rep(xs.drop_first(), sh, b, pos + enc(xs[0]).len());
        assert(xs =~= seq![xs[0]] + xs.drop_first());
    }
}

/// Round-trip for a field run: a buffer holding the back-to-back bytes
/// of encodable fields decodes, against their field shapes, to those
/// fields.
pub proof fn lemma_round_trip_fields(xs: Seq<SpecValue>, fields: Seq<Shape>, b: Seq<u8>, pos: int)
    requires
        conforms_fields(xs, fields),
        encodable_all(xs),
        0 <= pos,
        pos + enc_all(xs).len() <= b.len(),
        b.subrange(pos, pos + enc_all(xs).len()) == enc_all(xs),
    ensures
        dec_fields(fields, b, pos) == Ok::<(Seq<SpecValue>, int), Error>(
            (xs, pos + enc_all(xs).len()),
        ),
    decreases fields, 1int, 0int,
{
    if fields.len() == 0 {
        assert(xs.len() == 0);
        assert(enc_all(xs).len() == 0);
        assert(xs =~= Seq::<SpecValue>::empty());
    } else {
        lemma_subrange_concat(b, pos, enc(xs[0]), enc_all(xs.drop_first()));
        lemma_round_trip(xs[0], fields[0], b, pos);
        lemma_round_trip_fields(xs.drop_first(), fields.drop_first(), b, pos + enc(xs[0]).len());
        assert(xs =~= seq![xs[0]] + xs.drop_first());
    }
}

/// Round-trip for a counted pair run: a buffer holding the back-to-back
/// bytes of encodable key-value pairs decodes, pair by pair, to those
/// pairs.
pub proof fn lemma_round_trip_pairs(
    ps: Seq<(SpecValue, SpecValue)>,
    sh: Shape,
    b: Seq<u8>,
    pos: int,
)
    requires
        sh is Dict,
        conforms_pairs(ps, sh),
        encodable_pairs(ps),
        0 <= pos,
        pos + enc_pairs(ps).len() <= b.len(),
        b.subrange(pos, pos + enc_pairs(ps).len()) == enc_pairs(ps),
    ensures
        dec_pair_rep(sh, ps.len(), b, pos) == Ok::<(Seq<(SpecValue, SpecValue)>, int), Error>(
            (ps, pos + enc_pairs(ps).len()),
        ),
    decreases sh, 0int, ps.len(),
{
    if ps.len() == 0 {
        assert(enc_pairs(ps).len() == 0);
        assert(ps =~= Seq::<(SpecValue, SpecValue)>::empty());
    } else {
        let k = sh->Dict_0;
        let val = sh->Dict_1;
        let (kv, vv) = ps[0];
        assert(enc_pairs(ps) =~= (enc(kv) + enc(vv)) + enc_pairs(ps.drop_first()));
        lemma_subrange_concat(b, pos, enc(kv) + enc(vv), enc_pairs(ps.drop_first()));
        lemma_subrange_concat(b, pos, enc(kv), enc(vv));
        lemma_round_trip(kv, *k, b, pos);
        lemma_round_trip(vv, *val, b, pos + enc(kv).len());
        lemma_round_trip_pairs(
            ps.drop_first(),
            sh,
            b,
            pos + enc(kv).len() + enc(vv).len(),
        );
        assert(ps =~= seq![(kv, vv)] + ps.drop_first());
    }
}

/// Round-trip at the top: the canonical bytes of an encodable value of a
/// shape, decoded alone against that shape, yield the value and consume
/// the whole buffer.
pub proof fn lemma_round_trip_whole(v: SpecValue, sh: Shape)
    requires
        conforms(v, sh),
        encodable(v),
    ensures
        dec(sh, enc(v), 0) == Ok::<(SpecValue, int), Error>((v, enc(v).len() as int)),
{
    assert(enc(v).subrange(0, enc(v).len() as int) =~= enc(v));
    lemma_round_trip(v, sh, enc(v), 0);
}

/// The encoding is canonical: on one shape, equal canonical bytes mean
/// equal values, so byte-for-byte comparison of encodings decides
/// equality of the values they encode.
pub proof fn lemma_encoding_injective(v1: SpecValue, v2: SpecValue, sh: Shape)
    requires
        conforms(v1, sh),
        conforms(v2, sh),
        encodable(v1),
        encodable(v2),
        enc(v1) == enc(v2),
    ensures
        v1 == v2,
{
    lemma_round_trip_whole(v1, sh);
    lemma_round_trip_whole(v2, sh);
}

} // verus!
