//! The library's laws: decoding undoes encoding, structure is independent
//! of byte order, unknown tags are rejected where the tag stands, and
//! over-long collections fail loudly.

use vstd::prelude::*;

use crate::CodecError;
use crate::bytes::filled;
use crate::codec::{bytes_of, count_max, count_of, dec_enum_body, dec_field, dec_fields_from,
    dec_list, dec_raw, dec_ty, dec_tys_from, eff_endian, enc_field, enc_fields_from, enc_list_from,
    enc_prefixed, enc_ty, enc_tys_from, find_variant, lemma_bytes_of_len,
    lemma_bytes_of_round_trip, lemma_count_max_bound, lemma_prim_res_bound, lemma_prim_round_trip,
    lemma_find_variant_range, lemma_wf_variants_index, prim_res, resolve};
use crate::grammar::pad_amount;
use crate::hooks::CodecHooks;
use crate::schema::{distinct_tags, Endian, Field, PrimKind, TypeDescriptor, Variant, wf_field,
    wf_fields_from, wf_ty, wf_tys_from, wf_variants_from};
use crate::value::{conforms, conforms_field, conforms_fields_from, conforms_list_from,
    conforms_tys_from, sizes_ok, sizes_ok_from, DecLR, DecR, EncR, ValV};

verus! {

/// Splitting a known stretch of the stream into its two halves.
proof fn lemma_subrange_split(data: Seq<u8>, pos: int, b1: Seq<u8>, b2: Seq<u8>)
    requires
        0 <= pos,
        pos + b1.len() + b2.len() <= data.len(),
        data.subrange(pos, pos + b1.len() + b2.len()) == b1 + b2,
    ensures
        data.subrange(pos, pos + b1.len() as int) == b1,
        data.subrange(pos + b1.len() as int, pos + b1.len() + b2.len()) == b2,
{
    assert(data.subrange(pos, pos + b1.len() as int) =~= b1);
    assert forall|k: int| 0 <= k < b2.len() implies data[pos + b1.len() + k] == b2[k] by {
        assert((b1 + b2)[b1.len() + k] == b2[k]);
        assert(data.subrange(pos, pos + b1.len() + b2.len())[b1.len() + k] == data[pos + b1.len()
            + k]);
    };
    assert(data.subrange(pos + b1.len() as int, pos + b1.len() + b2.len()) =~= b2);
}

/// With distinct tags, searching for the j-th variant's tag finds j.
proof fn lemma_find_variant_distinct(vs: Seq<Variant>, t: nat, i: int, j: int)
    requires
        distinct_tags(vs),
        0 <= i <= j < vs.len(),
        vs[j].opts.tag as nat == t,
    ensures
        find_variant(vs, t, i) == Some(j),
    decreases j - i,
{
    if i < j {
        assert(vs[i].opts.tag != vs[j].opts.tag);
        lemma_find_variant_distinct(vs, t, i + 1, j);
    }
}

/// Round-trip: decoding reads back exactly the value that encoding wrote,
/// whatever else follows it on the stream. Holds for every well-formed
/// layout, every conforming value whose collections fit a `usize`, and
/// every stream that is not longer than a `usize` can address.
#[verifier::rlimit(80)]
pub proof fn round_trip_value<H: CodecHooks>(
    h: H,
    d: TypeDescriptor,
    e: Option<Endian>,
    v: ValV,
    data: Seq<u8>,
    pos: int,
    b: Seq<u8>,
)
    requires
        wf_ty(d),
        conforms(d, v),
        sizes_ok(v),
        enc_ty(h, d, e, v, pos) == EncR::Bytes(b),
        0 <= pos,
        pos + b.len() <= data.len(),
        data.len() <= usize::MAX,
        data.subrange(pos, pos + b.len() as int) == b,
    ensures
        dec_ty(h, d, e, data, pos) == DecR::Val(v, pos + b.len()),
    decreases d, 0nat, 0nat,
{
    match d {
        TypeDescriptor::Primitive(k) => {
            let w = k.spec_width();
            let res = prim_res(k, v);
            lemma_prim_res_bound(k, v);
            lemma_bytes_of_len(res, w, resolve(e));
            lemma_bytes_of_round_trip(res, w, resolve(e));
            lemma_prim_round_trip(k, v);
        },
        TypeDescriptor::FixedArray(elem, n) => {
            let vs = v->List_0;
            round_trip_list(h, *elem, e, vs, 0, data, pos, b);
            assert(vs.skip(0) =~= vs);
        },
        TypeDescriptor::Tuple(ts) => {
            let vs = v->List_0;
            round_trip_tys(h, ts@, e, vs, 0, data, pos, b);
            assert(vs.skip(0) =~= vs);
        },
        TypeDescriptor::Struct(opts, fs) => {
            let vs = v->List_0;
            round_trip_fields(h, fs@, opts.endian, vs, 0, data, pos, b);
            assert(vs.skip(0) =~= vs);
        },
        TypeDescriptor::Enum(opts, variants) => {
            let j = v->Variant_0;
            let vs = v->Variant_1;
            let tagk = opts.tag->0;
            let tw = tagk.spec_width();
            let ce = opts.endian;
            let tagres = variants@[j].opts.tag as nat;
            let tagbytes = bytes_of(tagres, tw, resolve(ce));
            lemma_wf_variants_index(variants@, tagk, 0, j);
            lemma_bytes_of_len(tagres, tw, resolve(ce));
            match opts.length_prefix {
                None => {
                    match enc_fields_from(h, variants@[j].fields@, ce, vs, pos + tw, 0) {
                        EncR::Bytes(fb) => {
                            assert(b == tagbytes + fb);
                            round_trip_enum_body(h, tagk, ce, variants@, j, vs, fb, data, pos, b);
                        },
                        EncR::Fail(_) => {
                            assert(false);
                        },
                    }
                },
                Some(pk) => {
                    let pw = pk.spec_width();
                    match enc_fields_from(h, variants@[j].fields@, ce, vs, tw as int, 0) {
                        EncR::Bytes(fb) => {
                            let body = tagbytes + fb;
                            let pb = bytes_of(body.len() as nat, pw, resolve(ce));
                            lemma_bytes_of_len(body.len() as nat, pw, resolve(ce));
                            lemma_count_max_bound(pk);
                            lemma_bytes_of_round_trip(body.len() as nat, pw, resolve(ce));
                            lemma_subrange_split(data, pos, pb, body);
                            let p1 = pos + pw;
                            assert(dec_raw(pk, resolve(ce), data, pos) == Some(
                                body.len() as nat,
                            ));
                            assert(count_of(pk, body.len() as nat) == Some(body.len() as nat));
                            let sub = data.subrange(p1, p1 + body.len());
                            assert(sub == body);
                            assert(sub.subrange(0, sub.len() as int) =~= sub);
                            round_trip_enum_body(h, tagk, ce, variants@, j, vs, fb, sub, 0, body);
                        },
                        EncR::Fail(_) => {
                            assert(false);
                        },
                    }
                },
            }
        },
        TypeDescriptor::Padding(n) => {
        },
        TypeDescriptor::PadToAlign(a, fill) => {
        },
    }
}

/// The whole-buffer form of the round trip: decoding a buffer that holds
/// exactly one encoded value yields that value and consumes the buffer.
pub proof fn round_trip_bytes<H: CodecHooks>(
    h: H,
    d: TypeDescriptor,
    e: Option<Endian>,
    v: ValV,
    b: Seq<u8>,
)
    requires
        wf_ty(d),
        conforms(d, v),
        sizes_ok(v),
        enc_ty(h, d, e, v, 0) == EncR::Bytes(b),
        b.len() <= usize::MAX,
    ensures
        dec_ty(h, d, e, b, 0) == DecR::Val(v, b.len() as int),
{
    assert(b.subrange(0, b.len() as int) =~= b);
    round_trip_value(h, d, e, v, b, 0, b);
}

/// Round-trip for one field.
pub proof fn round_trip_field<H: CodecHooks>(
    h: H,
    f: Field,
    ce: Option<Endian>,
    v: ValV,
    data: Seq<u8>,
    pos: int,
    b: Seq<u8>,
)
    requires
        wf_field(f),
        conforms_field(f, v),
        sizes_ok(v),
        enc_field(h, f, ce, v, pos) == EncR::Bytes(b),
        0 <= pos,
        pos + b.len() <= data.len(),
        data.len() <= usize::MAX,
        data.subrange(pos, pos + b.len() as int) == b,
    ensures
        dec_field(h, f, ce, data, pos) == DecR::Val(v, pos + b.len()),
    decreases f, 0nat, 0nat,
{
    let e = eff_endian(f.opts.endian, ce);
    match f.opts.custom_codec {
        Some(id) => {
            h.hook_round_trip(id, v, b, data, pos);
        },
        None => match f.opts.length_prefix {
            Some(pk) => {
                let vs = v->List_0;
                let pw = pk.spec_width();
                let pb = bytes_of(vs.len() as nat, pw, resolve(e));
                match enc_list_from(h, f.ty, e, vs, pos + pw, 0) {
                    EncR::Bytes(lb) => {
                        lemma_bytes_of_len(vs.len() as nat, pw, resolve(e));
                        lemma_count_max_bound(pk);
                        lemma_bytes_of_round_trip(vs.len() as nat, pw, resolve(e));
                        lemma_subrange_split(data, pos, pb, lb);
                        assert(dec_raw(pk, resolve(e), data, pos) == Some(vs.len() as nat));
                        assert(count_of(pk, vs.len() as nat) == Some(vs.len() as nat));
                        round_trip_list(h, f.ty, e, vs, 0, data, pos + pw, lb);
                        assert(vs.skip(0) =~= vs);
                    },
                    EncR::Fail(_) => {
                        assert(false);
                    },
                }
            },
            None => {
                round_trip_value(h, f.ty, e, v, data, pos, b);
            },
        },
    }
}

/// Round-trip for the fields of a struct or variant, from index i on.
pub proof fn round_trip_fields<H: CodecHooks>(
    h: H,
    fs: Seq<Field>,
    ce: Option<Endian>,
    vs: Seq<ValV>,
    i: int,
    data: Seq<u8>,
    pos: int,
    b: Seq<u8>,
)
    requires
        wf_fields_from(fs, i),
        conforms_fields_from(fs, vs, i),
        sizes_ok_from(vs, i),
        vs.len() == fs.len(),
        0 <= i <= fs.len(),
        enc_fields_from(h, fs, ce, vs, pos, i) == EncR::Bytes(b),
        0 <= pos,
        pos + b.len() <= data.len(),
        data.len() <= usize::MAX,
        data.subrange(pos, pos + b.len() as int) == b,
    ensures
        dec_fields_from(h, fs, ce, data, pos, i) == DecLR::Vals(vs.skip(i), pos + b.len()),
    decreases fs, 0nat, fs.len() - i,
{
    if i == fs.len() {
        assert(vs.skip(i) =~= Seq::<ValV>::empty());
    } else {
        match enc_field(h, fs[i], ce, vs[i], pos) {
            EncR::Bytes(b1) => {
                match enc_fields_from(h, fs, ce, vs, pos + b1.len(), i + 1) {
                    EncR::Bytes(b2) => {
                        lemma_subrange_split(data, pos, b1, b2);
                        round_trip_field(h, fs[i], ce, vs[i], data, pos, b1);
                        round_trip_fields(h, fs, ce, vs, i + 1, data, pos + b1.len(), b2);
                        assert(seq![vs[i]] + vs.skip(i + 1) =~= vs.skip(i));
                    },
                    EncR::Fail(_) => {
                        assert(false);
                    },
                }
            },
            EncR::Fail(_) => {
                assert(false);
            },
        }
    }
}

/// Round-trip for the elements of a tuple, from index i on.
pub proof fn round_trip_tys<H: CodecHooks>(
    h: H,
    ts: Seq<TypeDescriptor>,
    e: Option<Endian>,
    vs: Seq<ValV>,
    i: int,
    data: Seq<u8>,
    pos: int,
    b: Seq<u8>,
)
    requires
        wf_tys_from(ts, i),
        conforms_tys_from(ts, vs, i),
        sizes_ok_from(vs, i),
        vs.len() == ts.len(),
        0 <= i <= ts.len(),
        enc_tys_from(h, ts, e, vs, pos, i) == EncR::Bytes(b),
        0 <= pos,
        pos + b.len() <= data.len(),
        data.len() <= usize::MAX,
        data.subrange(pos, pos + b.len() as int) == b,
    ensures
        dec_tys_from(h, ts, e, data, pos, i) == DecLR::Vals(vs.skip(i), pos + b.len()),
    decreases ts, 0nat, ts.len() - i,
{
    if i == ts.len() {
        assert(vs.skip(i) =~= Seq::<ValV>::empty());
    } else {
        match enc_ty(h, ts[i], e, vs[i], pos) {
            EncR::Bytes(b1) => {
                match enc_tys_from(h, ts, e, vs, pos + b1.len(), i + 1) {
                    EncR::Bytes(b2) => {
                        lemma_subrange_split(data, pos, b1, b2);
                        round_trip_value(h, ts[i], e, vs[i], data, pos, b1);
                        round_trip_tys(h, ts, e, vs, i + 1, data, pos + b1.len(), b2);
                        assert(seq![vs[i]] + vs.skip(i + 1) =~= vs.skip(i));
                    },
                    EncR::Fail(_) => {
                        assert(false);
                    },
                }
            },
            EncR::Fail(_) => {
                assert(false);
            },
        }
    }
}

/// Round-trip for a run of same-typed elements, from index i on.
pub proof fn round_trip_list<H: CodecHooks>(
    h: H,
    elem: TypeDescriptor,
    e: Option<Endian>,
    vs: Seq<ValV>,
    i: int,
    data: Seq<u8>,
    pos: int,
    b: Seq<u8>,
)
    requires
        wf_ty(elem),
        conforms_list_from(elem, vs, i),
        sizes_ok_from(vs, i),
        0 <= i <= vs.len(),
        enc_list_from(h, elem, e, vs, pos, i) == EncR::Bytes(b),
        0 <= pos,
        pos + b.len() <= data.len(),
        data.len() <= usize::MAX,
        data.subrange(pos, pos + b.len() as int) == b,
    ensures
        dec_list(h, elem, e, (vs.len() - i) as nat, data, pos) == DecLR::Vals(
            vs.skip(i),
            pos + b.len(),
        ),
    decreases elem, 1nat, vs.len() - i,
{
    if i == vs.len() {
        assert(vs.skip(i) =~= Seq::<ValV>::empty());
    } else {
        match enc_ty(h, elem, e, vs[i], pos) {
            EncR::Bytes(b1) => {
                match enc_list_from(h, elem, e, vs, pos + b1.len(), i + 1) {
                    EncR::Bytes(b2) => {
                        lemma_subrange_split(data, pos, b1, b2);
                        round_trip_value(h, elem, e, vs[i], data, pos, b1);
                        round_trip_list(h, elem, e, vs, i + 1, data, pos + b1.len(), b2);
                        assert(seq![vs[i]] + vs.skip(i + 1) =~= vs.skip(i));
                    },
                    EncR::Fail(_) => {
                        assert(false);
                    },
                }
            },
            EncR::Fail(_) => {
                assert(false);
            },
        }
    }
}


/// Round-trip for the tag-and-fields body of an enum: for a framed enum,
/// `data` is the envelope and `pos` is 0.
pub proof fn round_trip_enum_body<H: CodecHooks>(
    h: H,
    tagk: PrimKind,
    ce: Option<Endian>,
    variants: Seq<Variant>,
    j: int,
    vs: Seq<ValV>,
    fb: Seq<u8>,
    data: Seq<u8>,
    pos: int,
    b: Seq<u8>,
)
    requires
        wf_variants_from(variants, tagk, 0),
        distinct_tags(variants),
        0 <= j < variants.len(),
        vs.len() == variants[j].fields@.len(),
        conforms_fields_from(variants[j].fields@, vs, 0),
        sizes_ok_from(vs, 0),
        enc_fields_from(h, variants[j].fields@, ce, vs, pos + tagk.spec_width(), 0)
            == EncR::Bytes(fb),
        b == bytes_of(variants[j].opts.tag as nat, tagk.spec_width(), resolve(ce)) + fb,
        0 <= pos,
        pos + b.len() <= data.len(),
        data.len() <= usize::MAX,
        data.subrange(pos, pos + b.len() as int) == b,
    ensures
        dec_enum_body(h, tagk, ce, variants, data, pos) == DecR::Val(
            ValV::Variant(j, vs),
            pos + b.len(),
        ),
    decreases variants, 1nat, 0nat,
{
    let tw = tagk.spec_width();
    let tagres = variants[j].opts.tag as nat;
    let tagbytes = bytes_of(tagres, tw, resolve(ce));
    lemma_wf_variants_index(variants, tagk, 0, j);
    lemma_bytes_of_len(tagres, tw, resolve(ce));
    lemma_bytes_of_round_trip(tagres, tw, resolve(ce));
    lemma_subrange_split(data, pos, tagbytes, fb);
    assert(dec_raw(tagk, resolve(ce), data, pos) == Some(tagres));
    lemma_find_variant_distinct(variants, tagres, 0, j);
    round_trip_fields(h, variants[j].fields@, ce, vs, 0, data, pos + tw, fb);
    assert(vs.skip(0) =~= vs);
}


/// No variant carries the tag searched for, so none is found.
proof fn lemma_find_variant_none(vs: Seq<Variant>, t: nat, i: int)
    requires
        forall|k: int| 0 <= k < vs.len() ==> vs[k].opts.tag as nat != t,
    ensures
        find_variant(vs, t, i) is None,
    decreases vs.len() - i,
{
    if 0 <= i < vs.len() {
        lemma_find_variant_none(vs, t, i + 1);
    }
}

/// Tag rejection: a tag value that matches no declared variant makes the
/// whole decode fail with `InvalidData` carrying that tag, and decoding
/// consumes nothing beyond the tag itself.
pub proof fn tag_rejection<H: CodecHooks>(
    h: H,
    tagk: PrimKind,
    ce: Option<Endian>,
    variants: Seq<Variant>,
    data: Seq<u8>,
    pos: int,
    t: nat,
)
    requires
        dec_raw(tagk, resolve(ce), data, pos) == Some(t),
        forall|k: int| 0 <= k < variants.len() ==> variants[k].opts.tag as nat != t,
    ensures
        dec_enum_body(h, tagk, ce, variants, data, pos) == DecR::Fail(
            CodecError::InvalidData(t as u128),
            pos + tagk.spec_width(),
        ),
{
    lemma_find_variant_none(variants, t, 0);
    assert(0 <= pos && pos + tagk.spec_width() <= data.len());
    crate::codec::lemma_val_of_bound(
        data.subrange(pos, pos + tagk.spec_width() as int),
        resolve(ce),
    );
    crate::bytes::lemma_pow256_mono(tagk.spec_width(), 16);
    crate::bytes::lemma_pow256_vals();
}

/// Tag rejection under framing: the same failure, but the envelope that
/// was declared around the variant body is consumed whole, and nothing
/// beyond it.
pub proof fn tag_rejection_framed<H: CodecHooks>(
    h: H,
    opts: crate::schema::Opts,
    variants: Seq<Variant>,
    vvec: Vec<Variant>,
    data: Seq<u8>,
    pos: int,
    envelope: nat,
    t: nat,
)
    requires
        opts.tag is Some,
        opts.length_prefix is Some,
        variants == vvec@,
        dec_raw(opts.length_prefix->0, resolve(opts.endian), data, pos) == Some(envelope),
        count_of(opts.length_prefix->0, envelope) == Some(envelope),
        pos + opts.length_prefix->0.spec_width() + envelope <= data.len(),
        dec_raw(
            opts.tag->0,
            resolve(opts.endian),
            data.subrange(
                pos + opts.length_prefix->0.spec_width(),
                pos + opts.length_prefix->0.spec_width() + envelope,
            ),
            0,
        ) == Some(t),
        forall|k: int| 0 <= k < variants.len() ==> variants[k].opts.tag as nat != t,
    ensures
        dec_ty(h, TypeDescriptor::Enum(opts, vvec), None::<Endian>, data, pos) == DecR::Fail(
            CodecError::InvalidData(t as u128),
            pos + opts.length_prefix->0.spec_width() + envelope,
        ),
{
    let pw = opts.length_prefix->0.spec_width();
    let sub = data.subrange(pos + pw, pos + pw + envelope);
    tag_rejection(h, opts.tag->0, opts.endian, variants, sub, 0, t);
}

/// Length-prefix overflow: a repeated field whose true element count
/// exceeds the prefix kind's largest value fails with `Overflow` — never
/// truncation or wraparound.
pub proof fn prefix_overflow<H: CodecHooks>(
    h: H,
    elem: TypeDescriptor,
    pk: PrimKind,
    e: Option<Endian>,
    vs: Seq<ValV>,
    pos: int,
)
    requires
        vs.len() > count_max(pk),
    ensures
        enc_prefixed(h, elem, pk, e, vs, pos) == EncR::Fail(CodecError::Overflow),
{
}

/// Alignment idempotence: padding to alignment N emits nothing when the
/// position is already a multiple of N, and in every case the position
/// after the padding is a multiple of N.
pub proof fn alignment_idempotence<H: CodecHooks>(
    h: H,
    a: u64,
    fill: u8,
    e: Option<Endian>,
    pos: int,
)
    requires
        0 <= pos,
        2 <= a,
    ensures
        enc_ty(h, TypeDescriptor::PadToAlign(a, fill), e, ValV::Unit, pos) matches EncR::Bytes(b)
            && (pos + b.len()) % (a as int) == 0,
        pos % (a as int) == 0 ==> enc_ty(h, TypeDescriptor::PadToAlign(a, fill), e, ValV::Unit, pos)
            == EncR::Bytes(Seq::<u8>::empty()),
{
    crate::grammar::lemma_pad_amount(a as int, pos);
    if pos % (a as int) == 0 {
        assert(filled(pad_amount(a as int, pos) as nat, fill) =~= Seq::<u8>::empty());
    }
}

// ---------------------------------------------------------------------------
// Endianness independence of structure
// ---------------------------------------------------------------------------

/// Two layouts that differ at most in their declared byte orders: same
/// kinds, lengths, tags, prefixes and hooks everywhere.
pub open spec fn same_shape(d1: TypeDescriptor, d2: TypeDescriptor) -> bool
    decreases d1, 0nat, 0nat,
{
    match (d1, d2) {
        (TypeDescriptor::Primitive(k1), TypeDescriptor::Primitive(k2)) => k1 == k2,
        (TypeDescriptor::FixedArray(e1, n1), TypeDescriptor::FixedArray(e2, n2)) => n1 == n2
            && same_shape(*e1, *e2),
        (TypeDescriptor::Tuple(t1), TypeDescriptor::Tuple(t2)) => t1@.len() == t2@.len()
            && same_shape_tys(t1@, t2@, 0),
        (TypeDescriptor::Struct(o1, f1), TypeDescriptor::Struct(o2, f2)) => o1.tag == o2.tag
            && o1.length_prefix == o2.length_prefix && f1@.len() == f2@.len()
            && same_shape_fields(f1@, f2@, 0),
        (TypeDescriptor::Enum(o1, v1), TypeDescriptor::Enum(o2, v2)) => o1.tag == o2.tag
            && o1.length_prefix == o2.length_prefix && v1@.len() == v2@.len()
            && same_shape_variants(v1@, v2@, 0),
        (TypeDescriptor::Padding(n1), TypeDescriptor::Padding(n2)) => n1 == n2,
        (TypeDescriptor::PadToAlign(a1, p1), TypeDescriptor::PadToAlign(a2, p2)) => a1 == a2 && p1
            == p2,
        _ => false,
    }
}

pub open spec fn same_shape_tys(t1: Seq<TypeDescriptor>, t2: Seq<TypeDescriptor>, i: int) -> bool
    decreases t1, 0nat, t1.len() - i,
{
    if i < 0 || i >= t1.len() || t1.len() != t2.len() {
        true
    } else {
        same_shape(t1[i], t2[i]) && same_shape_tys(t1, t2, i + 1)
    }
}

pub open spec fn same_shape_field(f1: Field, f2: Field) -> bool
    decreases f1, 0nat, 0nat,
{
    &&& f1.opts.length_prefix == f2.opts.length_prefix
    &&& f1.opts.custom_codec == f2.opts.custom_codec
    &&& same_shape(f1.ty, f2.ty)
}

pub open spec fn same_shape_fields(f1: Seq<Field>, f2: Seq<Field>, i: int) -> bool
    decreases f1, 0nat, f1.len() - i,
{
    if i < 0 || i >= f1.len() || f1.len() != f2.len() {
        true
    } else {
        same_shape_field(f1[i], f2[i]) && same_shape_fields(f1, f2, i + 1)
    }
}

pub open spec fn same_shape_variants(v1: Seq<Variant>, v2: Seq<Variant>, i: int) -> bool
    decreases v1, 1nat, v1.len() - i,
{
    if i < 0 || i >= v1.len() || v1.len() != v2.len() {
        true
    } else {
        v1[i].opts.tag == v2[i].opts.tag && v1[i].fields@.len() == v2[i].fields@.len()
            && same_shape_fields(v1[i].fields@, v2[i].fields@, 0) && same_shape_variants(
            v1,
            v2,
            i + 1,
        )
    }
}

proof fn lemma_same_shape_variants_index(v1: Seq<Variant>, v2: Seq<Variant>, i: int, j: int)
    requires
        same_shape_variants(v1, v2, i),
        v1.len() == v2.len(),
        0 <= i <= j < v1.len(),
    ensures
        v1[j].opts.tag == v2[j].opts.tag,
        v1[j].fields@.len() == v2[j].fields@.len(),
        same_shape_fields(v1[j].fields@, v2[j].fields@, 0),
    decreases j - i,
{
    if i < j {
        lemma_same_shape_variants_index(v1, v2, i + 1, j);
    }
}

/// Endianness independence of structure: encoding one value under two
/// layouts that differ only in declared byte orders succeeds or fails
/// alike, with the same error, and on success emits the same number of
/// bytes — only the order of bytes inside multi-byte fields changes
/// (`lemma_le_be_reverse` in `bytes` gives that reversal).
pub proof fn endian_structure<H: CodecHooks>(
    h: H,
    d1: TypeDescriptor,
    d2: TypeDescriptor,
    e1: Option<Endian>,
    e2: Option<Endian>,
    v: ValV,
    pos: int,
)
    requires
        wf_ty(d1),
        wf_ty(d2),
        conforms(d1, v),
        conforms(d2, v),
        same_shape(d1, d2),
    ensures
        match (enc_ty(h, d1, e1, v, pos), enc_ty(h, d2, e2, v, pos)) {
            (EncR::Bytes(b1), EncR::Bytes(b2)) => b1.len() == b2.len(),
            (EncR::Fail(x1), EncR::Fail(x2)) => x1 == x2,
            _ => false,
        },
    decreases d1, 0nat, 0nat,
{
    match (d1, d2) {
        (TypeDescriptor::Primitive(k1), TypeDescriptor::Primitive(k2)) => {
            lemma_bytes_of_len(prim_res(k1, v), k1.spec_width(), resolve(e1));
            lemma_bytes_of_len(prim_res(k2, v), k2.spec_width(), resolve(e2));
        },
        (TypeDescriptor::FixedArray(c1, n1), TypeDescriptor::FixedArray(c2, n2)) => {
            endian_structure_list(h, *c1, *c2, e1, e2, v->List_0, 0, pos, pos);
        },
        (TypeDescriptor::Tuple(t1), TypeDescriptor::Tuple(t2)) => {
            endian_structure_tys(h, t1@, t2@, e1, e2, v->List_0, 0, pos, pos);
        },
        (TypeDescriptor::Struct(o1, f1), TypeDescriptor::Struct(o2, f2)) => {
            endian_structure_fields(h, f1@, f2@, o1.endian, o2.endian, v->List_0, 0, pos, pos);
        },
        (TypeDescriptor::Enum(o1, v1), TypeDescriptor::Enum(o2, v2)) => {
            let j = v->Variant_0;
            let vs = v->Variant_1;
            let tagk = o1.tag->0;
            let tw = tagk.spec_width();
            lemma_same_shape_variants_index(v1@, v2@, 0, j);
            lemma_wf_variants_index(v1@, tagk, 0, j);
            lemma_wf_variants_index(v2@, tagk, 0, j);
            lemma_bytes_of_len(v1@[j].opts.tag as nat, tw, resolve(o1.endian));
            lemma_bytes_of_len(v2@[j].opts.tag as nat, tw, resolve(o2.endian));
            match o1.length_prefix {
                None => {
                    endian_structure_fields(
                        h,
                        v1@[j].fields@,
                        v2@[j].fields@,
                        o1.endian,
                        o2.endian,
                        vs,
                        0,
                        pos + tw,
                        pos + tw,
                    );
                },
                Some(pk) => {
                    endian_structure_fields(
                        h,
                        v1@[j].fields@,
                        v2@[j].fields@,
                        o1.endian,
                        o2.endian,
                        vs,
                        0,
                        tw as int,
                        tw as int,
                    );
                    match (
                        enc_fields_from(h, v1@[j].fields@, o1.endian, vs, tw as int, 0),
                        enc_fields_from(h, v2@[j].fields@, o2.endian, vs, tw as int, 0),
                    ) {
                        (EncR::Bytes(fb1), EncR::Bytes(fb2)) => {
                            lemma_bytes_of_len(
                                (tw + fb1.len()) as nat,
                                pk.spec_width(),
                                resolve(o1.endian),
                            );
                            lemma_bytes_of_len(
                                (tw + fb2.len()) as nat,
                                pk.spec_width(),
                                resolve(o2.endian),
                            );
                        },
                        _ => {},
                    }
                },
            }
        },
        (TypeDescriptor::Padding(_), TypeDescriptor::Padding(_)) => {
        },
        (TypeDescriptor::PadToAlign(_, _), TypeDescriptor::PadToAlign(_, _)) => {
        },
        _ => {
            assert(false);
        },
    }
}

/// The fields half of `endian_structure`: positions may differ between the
/// two runs, but each pair of emitted pieces has equal length.
pub proof fn endian_structure_fields<H: CodecHooks>(
    h: H,
    f1: Seq<Field>,
    f2: Seq<Field>,
    ce1: Option<Endian>,
    ce2: Option<Endian>,
    vs: Seq<ValV>,
    i: int,
    pos1: int,
    pos2: int,
)
    requires
        wf_fields_from(f1, i),
        wf_fields_from(f2, i),
        conforms_fields_from(f1, vs, i),
        conforms_fields_from(f2, vs, i),
        same_shape_fields(f1, f2, i),
        f1.len() == f2.len(),
        0 <= i <= f1.len(),
        pos1 - pos2 == 0,
    ensures
        match (enc_fields_from(h, f1, ce1, vs, pos1, i), enc_fields_from(h, f2, ce2, vs, pos2, i)) {
            (EncR::Bytes(b1), EncR::Bytes(b2)) => b1.len() == b2.len(),
            (EncR::Fail(x1), EncR::Fail(x2)) => x1 == x2,
            _ => false,
        },
    decreases f1, 0nat, f1.len() - i,
{
    if i < f1.len() {
        endian_structure_field(h, f1[i], f2[i], ce1, ce2, vs[i], pos1, pos2);
        match (enc_field(h, f1[i], ce1, vs[i], pos1), enc_field(h, f2[i], ce2, vs[i], pos2)) {
            (EncR::Bytes(b1), EncR::Bytes(b2)) => {
                endian_structure_fields(
                    h,
                    f1,
                    f2,
                    ce1,
                    ce2,
                    vs,
                    i + 1,
                    pos1 + b1.len(),
                    pos2 + b2.len(),
                );
            },
            _ => {},
        }
    }
}

/// The tuple half of `endian_structure`.
pub proof fn endian_structure_tys<H: CodecHooks>(
    h: H,
    t1: Seq<TypeDescriptor>,
    t2: Seq<TypeDescriptor>,
    e1: Option<Endian>,
    e2: Option<Endian>,
    vs: Seq<ValV>,
    i: int,
    pos1: int,
    pos2: int,
)
    requires
        wf_tys_from(t1, i),
        wf_tys_from(t2, i),
        conforms_tys_from(t1, vs, i),
        conforms_tys_from(t2, vs, i),
        same_shape_tys(t1, t2, i),
        t1.len() == t2.len(),
        0 <= i <= t1.len(),
        pos1 - pos2 == 0,
    ensures
        match (enc_tys_from(h, t1, e1, vs, pos1, i), enc_tys_from(h, t2, e2, vs, pos2, i)) {
            (EncR::Bytes(b1), EncR::Bytes(b2)) => b1.len() == b2.len(),
            (EncR::Fail(x1), EncR::Fail(x2)) => x1 == x2,
            _ => false,
        },
    decreases t1, 0nat, t1.len() - i,
{
    if i < t1.len() {
        endian_structure(h, t1[i], t2[i], e1, e2, vs[i], pos1);
        match (enc_ty(h, t1[i], e1, vs[i], pos1), enc_ty(h, t2[i], e2, vs[i], pos2)) {
            (EncR::Bytes(b1), EncR::Bytes(b2)) => {
                endian_structure_tys(
                    h,
                    t1,
                    t2,
                    e1,
                    e2,
                    vs,
                    i + 1,
                    pos1 + b1.len(),
                    pos2 + b2.len(),
                );
            },
            _ => {},
        }
    }
}

/// The repeated-elements half of `endian_structure`.
pub proof fn endian_structure_list<H: CodecHooks>(
    h: H,
    c1: TypeDescriptor,
    c2: TypeDescriptor,
    e1: Option<Endian>,
    e2: Option<Endian>,
    vs: Seq<ValV>,
    i: int,
    pos1: int,
    pos2: int,
)
    requires
        wf_ty(c1),
        wf_ty(c2),
        conforms_list_from(c1, vs, i),
        conforms_list_from(c2, vs, i),
        same_shape(c1, c2),
        0 <= i <= vs.len(),
        pos1 - pos2 == 0,
    ensures
        match (enc_list_from(h, c1, e1, vs, pos1, i), enc_list_from(h, c2, e2, vs, pos2, i)) {
            (EncR::Bytes(b1), EncR::Bytes(b2)) => b1.len() == b2.len(),
            (EncR::Fail(x1), EncR::Fail(x2)) => x1 == x2,
            _ => false,
        },
    decreases c1, 1nat, vs.len() - i,
{
    if i < vs.len() {
        endian_structure(h, c1, c2, e1, e2, vs[i], pos1);
        match (enc_ty(h, c1, e1, vs[i], pos1), enc_ty(h, c2, e2, vs[i], pos2)) {
            (EncR::Bytes(b1), EncR::Bytes(b2)) => {
                endian_structure_list(
                    h,
                    c1,
                    c2,
                    e1,
                    e2,
                    vs,
                    i + 1,
                    pos1 + b1.len(),
                    pos2 + b2.len(),
                );
            },
            _ => {},
        }
    }
}

/// The one-field half of `endian_structure`.
pub proof fn endian_structure_field<H: CodecHooks>(
    h: H,
    f1: Field,
    f2: Field,
    ce1: Option<Endian>,
    ce2: Option<Endian>,
    v: ValV,
    pos1: int,
    pos2: int,
)
    requires
        wf_field(f1),
        wf_field(f2),
        conforms_field(f1, v),
        conforms_field(f2, v),
        same_shape_field(f1, f2),
        pos1 - pos2 == 0,
    ensures
        match (enc_field(h, f1, ce1, v, pos1), enc_field(h, f2, ce2, v, pos2)) {
            (EncR::Bytes(b1), EncR::Bytes(b2)) => b1.len() == b2.len(),
            (EncR::Fail(x1), EncR::Fail(x2)) => x1 == x2,
            _ => false,
        },
    decreases f1, 0nat, 0nat,
{
    let g1 = eff_endian(f1.opts.endian, ce1);
    let g2 = eff_endian(f2.opts.endian, ce2);
    match f1.opts.custom_codec {
        Some(_) => {
        },
        None => match f1.opts.length_prefix {
            Some(pk) => {
                let vs = v->List_0;
                let pw = pk.spec_width();
                endian_structure_list(h, f1.ty, f2.ty, g1, g2, vs, 0, pos1 + pw, pos2 + pw);
                lemma_bytes_of_len(vs.len() as nat, pw, resolve(g1));
                lemma_bytes_of_len(vs.len() as nat, pw, resolve(g2));
            },
            None => {
                endian_structure(h, f1.ty, f2.ty, g1, g2, v, pos1);
            },
        },
    }
}




// ---------------------------------------------------------------------------
// Decoded values conform to their schema
// ---------------------------------------------------------------------------

proof fn lemma_conforms_list_cons(elem: TypeDescriptor, v: ValV, vs: Seq<ValV>, i: int)
    requires
        0 <= i,
    ensures
        conforms_list_from(elem, seq![v] + vs, i + 1) == conforms_list_from(elem, vs, i),
    decreases vs.len() - i,
{
    if i < vs.len() {
        assert((seq![v] + vs)[i + 1] == vs[i]);
        lemma_conforms_list_cons(elem, v, vs, i + 1);
    }
}

proof fn lemma_conforms_fields_cons(fs: Seq<Field>, v: ValV, vs: Seq<ValV>, i: int)
    requires
        0 <= i,
        fs.len() == vs.len() + 1,
    ensures
        conforms_fields_from(fs, seq![v] + vs, i + 1) == conforms_fields_from(
            fs.drop_first(),
            vs,
            i,
        ),
    decreases fs.len() - i,
{
    if i < vs.len() {
        assert((seq![v] + vs)[i + 1] == vs[i]);
        assert(fs.drop_first()[i] == fs[i + 1]);
        lemma_conforms_fields_cons(fs, v, vs, i + 1);
    }
}

proof fn lemma_conforms_tys_cons(ts: Seq<TypeDescriptor>, v: ValV, vs: Seq<ValV>, i: int)
    requires
        0 <= i,
        ts.len() == vs.len() + 1,
    ensures
        conforms_tys_from(ts, seq![v] + vs, i + 1) == conforms_tys_from(ts.drop_first(), vs, i),
    decreases ts.len() - i,
{
    if i < vs.len() {
        assert((seq![v] + vs)[i + 1] == vs[i]);
        assert(ts.drop_first()[i] == ts[i + 1]);
        lemma_conforms_tys_cons(ts, v, vs, i + 1);
    }
}

/// Whatever bytes come in, a successful decode yields a value that
/// conforms to the schema it was decoded with.
pub proof fn decode_conforms<H: CodecHooks>(
    h: H,
    d: TypeDescriptor,
    e: Option<Endian>,
    data: Seq<u8>,
    pos: int,
)
    requires
        wf_ty(d),
    ensures
        dec_ty(h, d, e, data, pos) matches DecR::Val(v, p) ==> conforms(d, v),
    decreases d, 0nat, 0nat,
{
    match d {
        TypeDescriptor::Primitive(k) => {
        },
        TypeDescriptor::FixedArray(elem, n) => {
            decode_conforms_list(h, *elem, e, n as nat, data, pos);
        },
        TypeDescriptor::Tuple(ts) => {
            decode_conforms_tys(h, ts@, e, data, pos, 0);
            assert(ts@.skip(0) =~= ts@);
        },
        TypeDescriptor::Struct(opts, fs) => {
            decode_conforms_fields(h, fs@, opts.endian, data, pos, 0);
            assert(fs@.skip(0) =~= fs@);
        },
        TypeDescriptor::Enum(opts, variants) => {
            let tagk = opts.tag->0;
            match opts.length_prefix {
                None => {
                    decode_conforms_enum_body(h, tagk, opts.endian, variants@, data, pos);
                },
                Some(pk) => {
                    match dec_raw(pk, resolve(opts.endian), data, pos) {
                        Some(rawlen) => {
                            let p1 = pos + pk.spec_width();
                            match count_of(pk, rawlen) {
                                Some(len) => {
                                    if p1 + len <= data.len() {
                                        decode_conforms_enum_body(
                                            h,
                                            tagk,
                                            opts.endian,
                                            variants@,
                                            data.subrange(p1, p1 + len),
                                            0,
                                        );
                                    }
                                },
                                None => {},
                            }
                        },
                        None => {},
                    }
                },
            }
        },
        TypeDescriptor::Padding(_) => {
        },
        TypeDescriptor::PadToAlign(_, _) => {
        },
    }
}

proof fn decode_conforms_enum_body<H: CodecHooks>(
    h: H,
    tagk: PrimKind,
    ce: Option<Endian>,
    variants: Seq<Variant>,
    data: Seq<u8>,
    pos: int,
)
    requires
        wf_variants_from(variants, tagk, 0),
    ensures
        dec_enum_body(h, tagk, ce, variants, data, pos) matches DecR::Val(v, p) ==> v matches
            ValV::Variant(j, vs) && 0 <= j < variants.len() && vs.len()
            == variants[j].fields@.len() && conforms_fields_from(variants[j].fields@, vs, 0),
    decreases variants, 1nat, 0nat,
{
    match dec_raw(tagk, resolve(ce), data, pos) {
        Some(t) => {
            lemma_find_variant_range(variants, t, 0);
            match find_variant(variants, t, 0) {
                Some(j) => {
                    lemma_wf_variants_index(variants, tagk, 0, j);
                    decode_conforms_fields(
                        h,
                        variants[j].fields@,
                        ce,
                        data,
                        pos + tagk.spec_width(),
                        0,
                    );
                    assert(variants[j].fields@.skip(0) =~= variants[j].fields@);
                },
                None => {},
            }
        },
        None => {},
    }
}

proof fn decode_conforms_field<H: CodecHooks>(
    h: H,
    f: Field,
    ce: Option<Endian>,
    data: Seq<u8>,
    pos: int,
)
    requires
        wf_field(f),
    ensures
        dec_field(h, f, ce, data, pos) matches DecR::Val(v, p) ==> conforms_field(f, v),
    decreases f, 0nat, 0nat,
{
    let e = eff_endian(f.opts.endian, ce);
    match f.opts.custom_codec {
        Some(_) => {
        },
        None => match f.opts.length_prefix {
            Some(pk) => {
                match dec_raw(pk, resolve(e), data, pos) {
                    Some(r) => {
                        match count_of(pk, r) {
                            Some(n) => {
                                decode_conforms_list(
                                    h,
                                    f.ty,
                                    e,
                                    n,
                                    data,
                                    pos + pk.spec_width(),
                                );
                            },
                            None => {},
                        }
                    },
                    None => {},
                }
            },
            None => {
                decode_conforms(h, f.ty, e, data, pos);
            },
        },
    }
}

proof fn decode_conforms_fields<H: CodecHooks>(
    h: H,
    fs: Seq<Field>,
    ce: Option<Endian>,
    data: Seq<u8>,
    pos: int,
    i: int,
)
    requires
        wf_fields_from(fs, i),
        0 <= i <= fs.len(),
    ensures
        dec_fields_from(h, fs, ce, data, pos, i) matches DecLR::Vals(vs, p) ==> vs.len()
            == fs.len() - i && conforms_fields_from(fs.skip(i), vs, 0),
    decreases fs, 0nat, fs.len() - i,
{
    if i < fs.len() {
        decode_conforms_field(h, fs[i], ce, data, pos);
        match dec_field(h, fs[i], ce, data, pos) {
            DecR::Val(v0, p) => {
                decode_conforms_fields(h, fs, ce, data, p, i + 1);
                match dec_fields_from(h, fs, ce, data, p, i + 1) {
                    DecLR::Vals(vs, p2) => {
                        assert(fs.skip(i).len() == fs.len() - i);
                        assert(fs.skip(i)[0] == fs[i]);
                        assert(fs.skip(i).drop_first() =~= fs.skip(i + 1));
                        lemma_conforms_fields_cons(fs.skip(i), v0, vs, 0);
                        assert((seq![v0] + vs)[0] == v0);
                    },
                    DecLR::Fail(_, _) => {},
                }
            },
            DecR::Fail(_, _) => {},
        }
    } else {
        assert(conforms_fields_from(fs.skip(i), Seq::<ValV>::empty(), 0));
    }
}

proof fn decode_conforms_tys<H: CodecHooks>(
    h: H,
    ts: Seq<TypeDescriptor>,
    e: Option<Endian>,
    data: Seq<u8>,
    pos: int,
    i: int,
)
    requires
        wf_tys_from(ts, i),
        0 <= i <= ts.len(),
    ensures
        dec_tys_from(h, ts, e, data, pos, i) matches DecLR::Vals(vs, p) ==> vs.len() == ts.len()
            - i && conforms_tys_from(ts.skip(i), vs, 0),
    decreases ts, 0nat, ts.len() - i,
{
    if i < ts.len() {
        decode_conforms(h, ts[i], e, data, pos);
        match dec_ty(h, ts[i], e, data, pos) {
            DecR::Val(v0, p) => {
                decode_conforms_tys(h, ts, e, data, p, i + 1);
                match dec_tys_from(h, ts, e, data, p, i + 1) {
                    DecLR::Vals(vs, p2) => {
                        assert(ts.skip(i).len() == ts.len() - i);
                        assert(ts.skip(i)[0] == ts[i]);
                        assert(ts.skip(i).drop_first() =~= ts.skip(i + 1));
                        lemma_conforms_tys_cons(ts.skip(i), v0, vs, 0);
                        assert((seq![v0] + vs)[0] == v0);
                    },
                    DecLR::Fail(_, _) => {},
                }
            },
            DecR::Fail(_, _) => {},
        }
    } else {
        assert(conforms_tys_from(ts.skip(i), Seq::<ValV>::empty(), 0));
    }
}

proof fn decode_conforms_list<H: CodecHooks>(
    h: H,
    elem: TypeDescriptor,
    e: Option<Endian>,
    n: nat,
    data: Seq<u8>,
    pos: int,
)
    requires
        wf_ty(elem),
    ensures
        dec_list(h, elem, e, n, data, pos) matches DecLR::Vals(vs, p) ==> vs.len() == n
            && conforms_list_from(elem, vs, 0),
    decreases elem, 1nat, n,
{
    if n != 0 {
        decode_conforms(h, elem, e, data, pos);
        match dec_ty(h, elem, e, data, pos) {
            DecR::Val(v0, p) => {
                decode_conforms_list(h, elem, e, (n - 1) as nat, data, p);
                match dec_list(h, elem, e, (n - 1) as nat, data, p) {
                    DecLR::Vals(vs, p2) => {
                        lemma_conforms_list_cons(elem, v0, vs, 0);
                        assert((seq![v0] + vs)[0] == v0);
                    },
                    DecLR::Fail(_, _) => {},
                }
            },
            DecR::Fail(_, _) => {},
        }
    }
}

} // verus!
