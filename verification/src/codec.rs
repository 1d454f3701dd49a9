//! The schema-driven codec engine: decode and encode procedures derived
//! from a `TypeDescriptor`, each proved to match a spec-level mirror
//! (`dec_ty` / `enc_ty`) that fixes the wire format byte for byte.

use vstd::prelude::*;

use crate::CodecError;
use crate::bytes::{be_bytes, be_val, filled, le_bytes, le_val, lemma_be_bytes_len,
    lemma_be_val_bound, lemma_le_bytes_len, lemma_le_val_bound, lemma_pow256_vals, pow256,
    read_uint_be, read_uint_le, write_uint_be, write_uint_le};

use crate::grammar::{align_padding, consume_bytes, pad_amount, write_padding};
use crate::hooks::CodecHooks;
use crate::positional::{PositionAware, ReadCounter, WriteCounter};

use crate::schema::{Endian, Field, PrimKind, TypeDescriptor, Variant, wf_field, wf_fields_from,
    wf_ty, wf_tys_from, wf_variants_from};
use crate::value::{DecLR, DecR, EncR, ValV, Value, conforms, conforms_field, conforms_fields_from,
    conforms_list_from, conforms_prim, conforms_tys_from, lemma_view_vals, lemma_view_vals_push,
    view_val, view_vals};

verus! {

// ---------------------------------------------------------------------------
// Byte-order plumbing
// ---------------------------------------------------------------------------

/// The bytes of an unsigned value in the given order.
pub open spec fn bytes_of(v: nat, w: nat, e: Endian) -> Seq<u8> {
    match e {
        Endian::Little => le_bytes(v, w),
        Endian::Big => be_bytes(v, w),
    }
}

/// The unsigned value of a byte string in the given order.
pub open spec fn val_of(s: Seq<u8>, e: Endian) -> nat {
    match e {
        Endian::Little => le_val(s),
        Endian::Big => be_val(s),
    }
}

/// A multi-byte primitive with no declared order defaults to big-endian,
/// the usual order of network types.
pub open spec fn resolve(e: Option<Endian>) -> Endian {
    match e {
        Some(x) => x,
        None => Endian::Big,
    }
}

/// A field's effective byte order: its own override if present, else its
/// container's.
pub open spec fn eff_endian(field: Option<Endian>, container: Option<Endian>) -> Option<Endian> {
    if field is Some {
        field
    } else {
        container
    }
}

pub proof fn lemma_bytes_of_len(v: nat, w: nat, e: Endian)
    ensures
        bytes_of(v, w, e).len() == w,
{
    lemma_le_bytes_len(v, w);
    lemma_be_bytes_len(v, w);
}

pub proof fn lemma_val_of_bound(s: Seq<u8>, e: Endian)
    ensures
        val_of(s, e) < pow256(s.len()),
{
    lemma_le_val_bound(s);
    lemma_be_val_bound(s);
}

/// Reading back the bytes of a fitting value yields the value.
pub proof fn lemma_bytes_of_round_trip(v: nat, w: nat, e: Endian)
    requires
        v < pow256(w),
    ensures
        val_of(bytes_of(v, w, e), e) == v,
{
    crate::bytes::lemma_le_round_trip(v, w);
    crate::bytes::lemma_be_round_trip(v, w);
}

// ---------------------------------------------------------------------------
// Primitive values and raw fixed-width reads
// ---------------------------------------------------------------------------

/// The raw fixed-width read underlying primitives, tags and prefixes:
/// the unsigned residue of the next `width` bytes, if they are there.
pub open spec fn dec_raw(k: PrimKind, e: Endian, data: Seq<u8>, pos: int) -> Option<nat> {
    if 0 <= pos && pos + k.spec_width() <= data.len() {
        Some(val_of(data.subrange(pos, pos + k.spec_width() as int), e))
    } else {
        None
    }
}

/// The unsigned residue a primitive value puts on the wire: its two's
/// complement bit pattern, as a number.
pub open spec fn prim_res(k: PrimKind, v: ValV) -> nat {
    match v {
        ValV::U8(x) => x as nat,
        ValV::I8(x) => ((x as int) % 0x100) as nat,
        ValV::U16(x) => x as nat,
        ValV::I16(x) => ((x as int) % 0x1_0000) as nat,
        ValV::U32(x) => x as nat,
        ValV::I32(x) => ((x as int) % 0x1_0000_0000) as nat,
        ValV::U64(x) => x as nat,
        ValV::I64(x) => ((x as int) % 0x1_0000_0000_0000_0000) as nat,
        ValV::U128(x) => x as nat,
        ValV::I128(x) => ((x as int) % 0x1_0000_0000_0000_0000_0000_0000_0000_0000int) as nat,
        _ => arbitrary(),
    }
}

/// The primitive value a raw residue denotes.
pub open spec fn prim_val(k: PrimKind, r: nat) -> ValV {
    match k {
        PrimKind::U8 => ValV::U8(r as u8),
        PrimKind::I8 => if r < 0x80 {
            ValV::I8(r as i8)
        } else {
            ValV::I8((r - 0x100) as i8)
        },
        PrimKind::U16 => ValV::U16(r as u16),
        PrimKind::I16 => if r < 0x8000 {
            ValV::I16(r as i16)
        } else {
            ValV::I16((r - 0x1_0000) as i16)
        },
        PrimKind::U32 => ValV::U32(r as u32),
        PrimKind::I32 => if r < 0x8000_0000 {
            ValV::I32(r as i32)
        } else {
            ValV::I32((r - 0x1_0000_0000) as i32)
        },
        PrimKind::U64 => ValV::U64(r as u64),
        PrimKind::I64 => if r < 0x8000_0000_0000_0000 {
            ValV::I64(r as i64)
        } else {
            ValV::I64((r - 0x1_0000_0000_0000_0000) as i64)
        },
        PrimKind::U128 => ValV::U128(r as u128),
        PrimKind::I128 => if r < 0x8000_0000_0000_0000_0000_0000_0000_0000int {
            ValV::I128(r as i128)
        } else {
            ValV::I128((r - 0x1_0000_0000_0000_0000_0000_0000_0000_0000int) as i128)
        },
    }
}

/// A conforming primitive's residue fits its width.
pub proof fn lemma_prim_res_bound(k: PrimKind, v: ValV)
    requires
        conforms_prim(k, v),
    ensures
        prim_res(k, v) < pow256(k.spec_width()),
{
    lemma_pow256_vals();
}

/// Reading back a conforming primitive's residue yields the value.
pub proof fn lemma_prim_round_trip(k: PrimKind, v: ValV)
    requires
        conforms_prim(k, v),
    ensures
        prim_val(k, prim_res(k, v)) == v,
{
    lemma_pow256_vals();
}

// ---------------------------------------------------------------------------
// Count prefixes
// ---------------------------------------------------------------------------

/// The largest count a prefix kind can carry: its own maximum value, which
/// for a signed kind is the largest non-negative one.
pub open spec fn count_max(k: PrimKind) -> nat {
    if k.spec_signed() {
        (pow256(k.spec_width()) / 2 - 1) as nat
    } else {
        (pow256(k.spec_width()) - 1) as nat
    }
}

/// Converting a raw prefix residue to a count: a negative signed value or
/// one beyond `usize` is an overflow, never a silent truncation.
pub open spec fn count_of(k: PrimKind, r: nat) -> Option<nat> {
    if k.spec_signed() && r >= pow256(k.spec_width()) / 2 {
        None
    } else if r > usize::MAX {
        None
    } else {
        Some(r)
    }
}

// ---------------------------------------------------------------------------
// Tag dispatch
// ---------------------------------------------------------------------------

/// The first variant, from index i on, whose tag constant equals t.
pub open spec fn find_variant(vs: Seq<Variant>, t: nat, i: int) -> Option<int>
    decreases vs.len() - i,
{
    if i < 0 || i >= vs.len() {
        None
    } else if vs[i].opts.tag as nat == t {
        Some(i)
    } else {
        find_variant(vs, t, i + 1)
    }
}

// ---------------------------------------------------------------------------
// Decoding, as a total spec function
// ---------------------------------------------------------------------------

/// Decode one value of layout `d` from `data` at `pos`, with `e` the
/// inherited byte order. The result mirrors the engine exactly, including
/// the position at which a failed decode stops.
pub open spec fn dec_ty<H: CodecHooks>(
    h: H,
    d: TypeDescriptor,
    e: Option<Endian>,
    data: Seq<u8>,
    pos: int,
) -> DecR
    decreases d, 0nat, 0nat,
{
    match d {
        TypeDescriptor::Primitive(k) => match dec_raw(k, resolve(e), data, pos) {
            Some(r) => DecR::Val(prim_val(k, r), pos + k.spec_width()),
            None => DecR::Fail(CodecError::UnexpectedEof, pos),
        },
        TypeDescriptor::FixedArray(elem, n) => match dec_list(h, *elem, e, n as nat, data, pos) {
            DecLR::Vals(vs, p) => DecR::Val(ValV::List(vs), p),
            DecLR::Fail(er, p) => DecR::Fail(er, p),
        },
        TypeDescriptor::Tuple(ts) => match dec_tys_from(h, ts@, e, data, pos, 0) {
            DecLR::Vals(vs, p) => DecR::Val(ValV::List(vs), p),
            DecLR::Fail(er, p) => DecR::Fail(er, p),
        },
        TypeDescriptor::Struct(opts, fs) => match dec_fields_from(
            h,
            fs@,
            opts.endian,
            data,
            pos,
            0,
        ) {
            DecLR::Vals(vs, p) => DecR::Val(ValV::List(vs), p),
            DecLR::Fail(er, p) => DecR::Fail(er, p),
        },
        TypeDescriptor::Enum(opts, variants) => {
            if opts.tag is Some {
                let tagk = opts.tag->0;
                match opts.length_prefix {
                    None => dec_enum_body(h, tagk, opts.endian, variants@, data, pos),
                    Some(pk) => match dec_raw(pk, resolve(opts.endian), data, pos) {
                        None => DecR::Fail(CodecError::UnexpectedEof, pos),
                        Some(rawlen) => {
                            let p1 = pos + pk.spec_width();
                            match count_of(pk, rawlen) {
                                None => DecR::Fail(CodecError::Overflow, p1),
                                Some(len) => if p1 + len > data.len() {
                                    DecR::Fail(CodecError::UnexpectedEof, p1)
                                } else {
                                    match dec_enum_body(
                                        h,
                                        tagk,
                                        opts.endian,
                                        variants@,
                                        data.subrange(p1, p1 + len),
                                        0,
                                    ) {
                                        DecR::Val(v, _) => DecR::Val(v, p1 + len),
                                        DecR::Fail(er, _) => DecR::Fail(er, p1 + len),
                                    }
                                },
                            }
                        },
                    },
                }
            } else {
                arbitrary()
            }
        },
        TypeDescriptor::Padding(n) => {
            if 0 <= pos && pos + n <= data.len() {
                DecR::Val(ValV::Unit, pos + n)
            } else {
                DecR::Fail(CodecError::UnexpectedEof, pos)
            }
        },
        TypeDescriptor::PadToAlign(a, _) => {
            let pad = pad_amount(a as int, pos);
            if 0 <= pos && pos + pad <= data.len() {
                DecR::Val(ValV::Unit, pos + pad)
            } else {
                DecR::Fail(CodecError::UnexpectedEof, pos)
            }
        },
    }
}

/// Tag read and variant dispatch, shared by framed and unframed enums; for
/// a framed enum `data` is the envelope and `pos` is 0.
pub open spec fn dec_enum_body<H: CodecHooks>(
    h: H,
    tagk: PrimKind,
    ce: Option<Endian>,
    variants: Seq<Variant>,
    data: Seq<u8>,
    pos: int,
) -> DecR
    decreases variants, 1nat, 0nat,
{
    match dec_raw(tagk, resolve(ce), data, pos) {
        None => DecR::Fail(CodecError::UnexpectedEof, pos),
        Some(t) => {
            let p1 = pos + tagk.spec_width();
            match find_variant(variants, t, 0) {
                None => DecR::Fail(CodecError::InvalidData(#[verifier::truncate] (t as u128)), p1),
                Some(j) => if 0 <= j < variants.len() {
                    match dec_fields_from(h, variants[j].fields@, ce, data, p1, 0) {
                        DecLR::Vals(vs, p2) => DecR::Val(ValV::Variant(j, vs), p2),
                        DecLR::Fail(er, p2) => DecR::Fail(er, p2),
                    }
                } else {
                    arbitrary()
                },
            }
        },
    }
}

/// Decode one field: a custom codec if declared, else a count-prefixed run
/// of elements, else the field's own layout.
pub open spec fn dec_field<H: CodecHooks>(
    h: H,
    f: Field,
    ce: Option<Endian>,
    data: Seq<u8>,
    pos: int,
) -> DecR
    decreases f, 0nat, 0nat,
{
    let e = eff_endian(f.opts.endian, ce);
    match f.opts.custom_codec {
        Some(id) => h.hook_read(id, data, pos),
        None => match f.opts.length_prefix {
            Some(pk) => match dec_raw(pk, resolve(e), data, pos) {
                None => DecR::Fail(CodecError::UnexpectedEof, pos),
                Some(r) => {
                    let p1 = pos + pk.spec_width();
                    match count_of(pk, r) {
                        None => DecR::Fail(CodecError::Overflow, p1),
                        Some(n) => match dec_list(h, f.ty, e, n, data, p1) {
                            DecLR::Vals(vs, p2) => DecR::Val(ValV::List(vs), p2),
                            DecLR::Fail(er, p2) => DecR::Fail(er, p2),
                        },
                    }
                },
            },
            None => dec_ty(h, f.ty, e, data, pos),
        },
    }
}

/// Decode the fields of a struct or variant, from index i on.
pub open spec fn dec_fields_from<H: CodecHooks>(
    h: H,
    fs: Seq<Field>,
    ce: Option<Endian>,
    data: Seq<u8>,
    pos: int,
    i: int,
) -> DecLR
    decreases fs, 0nat, fs.len() - i,
{
    if i < 0 || i >= fs.len() {
        DecLR::Vals(Seq::empty(), pos)
    } else {
        match dec_field(h, fs[i], ce, data, pos) {
            DecR::Val(v, p) => match dec_fields_from(h, fs, ce, data, p, i + 1) {
                DecLR::Vals(vs, p2) => DecLR::Vals(seq![v] + vs, p2),
                DecLR::Fail(er, p2) => DecLR::Fail(er, p2),
            },
            DecR::Fail(er, p) => DecLR::Fail(er, p),
        }
    }
}

/// Decode the elements of a tuple, from index i on.
pub open spec fn dec_tys_from<H: CodecHooks>(
    h: H,
    ts: Seq<TypeDescriptor>,
    e: Option<Endian>,
    data: Seq<u8>,
    pos: int,
    i: int,
) -> DecLR
    decreases ts, 0nat, ts.len() - i,
{
    if i < 0 || i >= ts.len() {
        DecLR::Vals(Seq::empty(), pos)
    } else {
        match dec_ty(h, ts[i], e, data, pos) {
            DecR::Val(v, p) => match dec_tys_from(h, ts, e, data, p, i + 1) {
                DecLR::Vals(vs, p2) => DecLR::Vals(seq![v] + vs, p2),
                DecLR::Fail(er, p2) => DecLR::Fail(er, p2),
            },
            DecR::Fail(er, p) => DecLR::Fail(er, p),
        }
    }
}

/// Decode exactly n same-typed elements, aborting on the first failure.
pub open spec fn dec_list<H: CodecHooks>(
    h: H,
    elem: TypeDescriptor,
    e: Option<Endian>,
    n: nat,
    data: Seq<u8>,
    pos: int,
) -> DecLR
    decreases elem, 1nat, n,
{
    if n == 0 {
        DecLR::Vals(Seq::empty(), pos)
    } else {
        match dec_ty(h, elem, e, data, pos) {
            DecR::Val(v, p) => match dec_list(h, elem, e, (n - 1) as nat, data, p) {
                DecLR::Vals(vs, p2) => DecLR::Vals(seq![v] + vs, p2),
                DecLR::Fail(er, p2) => DecLR::Fail(er, p2),
            },
            DecR::Fail(er, p) => DecLR::Fail(er, p),
        }
    }
}

// ---------------------------------------------------------------------------
// Encoding, as a total spec function
// ---------------------------------------------------------------------------

/// Encode one conforming value of layout `d`, standing at absolute stream
/// position `pos`: the bytes appended, or the first failure.
pub open spec fn enc_ty<H: CodecHooks>(
    h: H,
    d: TypeDescriptor,
    e: Option<Endian>,
    v: ValV,
    pos: int,
) -> EncR
    decreases d, 0nat, 0nat,
{
    match d {
        TypeDescriptor::Primitive(k) => if conforms_prim(k, v) {
            EncR::Bytes(bytes_of(prim_res(k, v), k.spec_width(), resolve(e)))
        } else {
            arbitrary()
        },
        TypeDescriptor::FixedArray(elem, n) => match v {
            ValV::List(vs) => if vs.len() == n {
                enc_list_from(h, *elem, e, vs, pos, 0)
            } else {
                arbitrary()
            },
            _ => arbitrary(),
        },
        TypeDescriptor::Tuple(ts) => match v {
            ValV::List(vs) => if vs.len() == ts@.len() {
                enc_tys_from(h, ts@, e, vs, pos, 0)
            } else {
                arbitrary()
            },
            _ => arbitrary(),
        },
        TypeDescriptor::Struct(opts, fs) => match v {
            ValV::List(vs) => if vs.len() == fs@.len() {
                enc_fields_from(h, fs@, opts.endian, vs, pos, 0)
            } else {
                arbitrary()
            },
            _ => arbitrary(),
        },
        TypeDescriptor::Enum(opts, variants) => match v {
            ValV::Variant(j, vs) => {
                if opts.tag is Some && 0 <= j < variants@.len() && vs.len()
                    == variants@[j].fields@.len() {
                    let tagk = opts.tag->0;
                    let tw = tagk.spec_width();
                    let tagbytes = bytes_of(variants@[j].opts.tag as nat, tw, resolve(opts.endian));
                    match opts.length_prefix {
                        None => match enc_fields_from(
                            h,
                            variants@[j].fields@,
                            opts.endian,
                            vs,
                            pos + tw,
                            0,
                        ) {
                            EncR::Bytes(fb) => EncR::Bytes(tagbytes + fb),
                            EncR::Fail(er) => EncR::Fail(er),
                        },
                        // With framing, the variant body is laid out first —
                        // in a scratch stream whose position starts at 0 —
                        // so its byte length is known before the prefix.
                        Some(pk) => match enc_fields_from(
                            h,
                            variants@[j].fields@,
                            opts.endian,
                            vs,
                            tw as int,
                            0,
                        ) {
                            EncR::Bytes(fb) => {
                                let body = tagbytes + fb;
                                if body.len() > count_max(pk) {
                                    EncR::Fail(CodecError::Overflow)
                                } else {
                                    EncR::Bytes(
                                        bytes_of(
                                            body.len(),
                                            pk.spec_width(),
                                            resolve(opts.endian),
                                        ) + body,
                                    )
                                }
                            },
                            EncR::Fail(er) => EncR::Fail(er),
                        },
                    }
                } else {
                    arbitrary()
                }
            },
            _ => arbitrary(),
        },
        TypeDescriptor::Padding(n) => if v is Unit {
            EncR::Bytes(filled(n as nat, 0))
        } else {
            arbitrary()
        },
        TypeDescriptor::PadToAlign(a, fill) => if v is Unit {
            EncR::Bytes(filled(pad_amount(a as int, pos) as nat, fill))
        } else {
            arbitrary()
        },
    }
}

/// Encode one field, mirroring `dec_field`'s dispatch.
pub open spec fn enc_field<H: CodecHooks>(
    h: H,
    f: Field,
    ce: Option<Endian>,
    v: ValV,
    pos: int,
) -> EncR
    decreases f, 0nat, 0nat,
{
    let e = eff_endian(f.opts.endian, ce);
    match f.opts.custom_codec {
        Some(id) => match h.hook_wire(id, v) {
            Some(b) => EncR::Bytes(b),
            None => EncR::Fail(CodecError::CustomHookFailure),
        },
        None => match f.opts.length_prefix {
            Some(pk) => match v {
                ValV::List(vs) => enc_prefixed(h, f.ty, pk, e, vs, pos),
                _ => arbitrary(),
            },
            None => enc_ty(h, f.ty, e, v, pos),
        },
    }
}

/// Encode a count prefix followed by the elements it counts. A count that
/// does not fit the prefix kind is an overflow, never a wraparound.
pub open spec fn enc_prefixed<H: CodecHooks>(
    h: H,
    elem: TypeDescriptor,
    pk: PrimKind,
    e: Option<Endian>,
    vs: Seq<ValV>,
    pos: int,
) -> EncR
    decreases elem, 2nat, 0nat,
{
    if vs.len() > count_max(pk) {
        EncR::Fail(CodecError::Overflow)
    } else {
        let pw = pk.spec_width();
        match enc_list_from(h, elem, e, vs, pos + pw, 0) {
            EncR::Bytes(b) => EncR::Bytes(bytes_of(vs.len(), pw, resolve(e)) + b),
            EncR::Fail(er) => EncR::Fail(er),
        }
    }
}

/// Encode the fields of a struct or variant, from index i on.
pub open spec fn enc_fields_from<H: CodecHooks>(
    h: H,
    fs: Seq<Field>,
    ce: Option<Endian>,
    vs: Seq<ValV>,
    pos: int,
    i: int,
) -> EncR
    decreases fs, 0nat, fs.len() - i,
{
    if i < 0 || i >= fs.len() {
        EncR::Bytes(Seq::empty())
    } else {
        match enc_field(h, fs[i], ce, vs[i], pos) {
            EncR::Bytes(b) => match enc_fields_from(h, fs, ce, vs, pos + b.len(), i + 1) {
                EncR::Bytes(b2) => EncR::Bytes(b + b2),
                EncR::Fail(er) => EncR::Fail(er),
            },
            EncR::Fail(er) => EncR::Fail(er),
        }
    }
}

/// Encode the elements of a tuple, from index i on.
pub open spec fn enc_tys_from<H: CodecHooks>(
    h: H,
    ts: Seq<TypeDescriptor>,
    e: Option<Endian>,
    vs: Seq<ValV>,
    pos: int,
    i: int,
) -> EncR
    decreases ts, 0nat, ts.len() - i,
{
    if i < 0 || i >= ts.len() {
        EncR::Bytes(Seq::empty())
    } else {
        match enc_ty(h, ts[i], e, vs[i], pos) {
            EncR::Bytes(b) => match enc_tys_from(h, ts, e, vs, pos + b.len(), i + 1) {
                EncR::Bytes(b2) => EncR::Bytes(b + b2),
                EncR::Fail(er) => EncR::Fail(er),
            },
            EncR::Fail(er) => EncR::Fail(er),
        }
    }
}

/// Encode same-typed elements, from index i on.
pub open spec fn enc_list_from<H: CodecHooks>(
    h: H,
    elem: TypeDescriptor,
    e: Option<Endian>,
    vs: Seq<ValV>,
    pos: int,
    i: int,
) -> EncR
    decreases elem, 1nat, vs.len() - i,
{
    if i < 0 || i >= vs.len() {
        EncR::Bytes(Seq::empty())
    } else {
        match enc_ty(h, elem, e, vs[i], pos) {
            EncR::Bytes(b) => match enc_list_from(h, elem, e, vs, pos + b.len(), i + 1) {
                EncR::Bytes(b2) => EncR::Bytes(b + b2),
                EncR::Fail(er) => EncR::Fail(er),
            },
            EncR::Fail(er) => EncR::Fail(er),
        }
    }
}

// ---------------------------------------------------------------------------
// Helpers the engine's loop invariants speak of
// ---------------------------------------------------------------------------

/// Prepend already-decoded values to the outcome of the rest.
pub open spec fn prepend_vals(vs: Seq<ValV>, r: DecLR) -> DecLR {
    match r {
        DecLR::Vals(ws, p) => DecLR::Vals(vs + ws, p),
        DecLR::Fail(er, p) => DecLR::Fail(er, p),
    }
}

/// Prepend already-emitted bytes to the outcome of the rest.
pub open spec fn prepend_enc(b: Seq<u8>, r: EncR) -> EncR {
    match r {
        EncR::Bytes(b2) => EncR::Bytes(b + b2),
        EncR::Fail(er) => EncR::Fail(er),
    }
}


// ---------------------------------------------------------------------------
// Supporting lemmas
// ---------------------------------------------------------------------------

pub proof fn lemma_prefix_append(a: Seq<u8>, b: Seq<u8>)
    ensures
        a.is_prefix_of(a + b),
{
    assert((a + b).subrange(0, a.len() as int) =~= a);
}

pub proof fn lemma_prefix_trans(a: Seq<u8>, b: Seq<u8>, c: Seq<u8>)
    requires
        a.is_prefix_of(b),
        b.is_prefix_of(c),
    ensures
        a.is_prefix_of(c),
{
    assert(c.subrange(0, a.len() as int) =~= b.subrange(0, a.len() as int));
}

/// A found variant lies in range and carries the tag searched for.
pub proof fn lemma_find_variant_range(vs: Seq<Variant>, t: nat, i: int)
    ensures
        find_variant(vs, t, i) matches Some(j) ==> i <= j < vs.len() && vs[j].opts.tag as nat
            == t,
    decreases vs.len() - i,
{
    if 0 <= i < vs.len() && vs[i].opts.tag as nat != t {
        lemma_find_variant_range(vs, t, i + 1);
    }
}

/// Well-formedness of one variant out of a well-formed run.
pub proof fn lemma_wf_variants_index(vs: Seq<Variant>, tagk: PrimKind, i: int, j: int)
    requires
        wf_variants_from(vs, tagk, i),
        0 <= i <= j < vs.len(),
    ensures
        crate::schema::wf_variant(vs[j], tagk),
    decreases j - i,
{
    if i < j {
        lemma_wf_variants_index(vs, tagk, i + 1, j);
    }
}

/// The prefix kinds' maxima fit below their width's range.
pub proof fn lemma_count_max_bound(k: PrimKind)
    ensures
        count_max(k) < pow256(k.spec_width()),
{
    crate::bytes::lemma_pow256_pos(k.spec_width());
}

// ---------------------------------------------------------------------------
// Small executable helpers
// ---------------------------------------------------------------------------

fn resolve_endian(e: Option<Endian>) -> (r: Endian)
    ensures
        r == resolve(e),
{
    match e {
        Some(x) => x,
        None => Endian::Big,
    }
}

/// Raw fixed-width read: the unsigned residue of the next bytes.
pub(crate) fn read_raw(k: PrimKind, e: Endian, buffer: &mut ReadCounter) -> (r: Result<u128, CodecError>)
    ensures
        final(buffer).stream() == old(buffer).stream(),
        match dec_raw(k, e, old(buffer).stream(), old(buffer).cursor() as int) {
            Some(v) => r matches Ok(x) && x as nat == v && (x as nat) < pow256(k.spec_width())
                && final(buffer).cursor() == old(buffer).cursor() + k.spec_width(),
            None => r matches Err(er) && er == CodecError::UnexpectedEof && final(buffer).cursor()
                == old(buffer).cursor(),
        },
{
    let w = k.width();
    match buffer.read_exact(w) {
        Ok(bytes) => {
            proof {
                lemma_val_of_bound(bytes@, e);
                lemma_pow256_vals();
                crate::bytes::lemma_pow256_mono(bytes@.len() as nat, 16);
            }
            let v = match e {
                Endian::Little => read_uint_le(bytes.as_slice()),
                Endian::Big => read_uint_be(bytes.as_slice()),
            };
            Ok(v)
        },
        Err(er) => Err(er),
    }
}

/// Raw fixed-width write: the bytes of an unsigned residue.
pub(crate) fn write_raw(k: PrimKind, e: Endian, v: u128, buffer: &mut WriteCounter)
    requires
        (v as nat) < pow256(k.spec_width()),
    ensures
        final(buffer).stream() == old(buffer).stream() + bytes_of(
            v as nat,
            k.spec_width(),
            e,
        ),
{
    let w = k.width();
    let bytes = match e {
        Endian::Little => write_uint_le(v, w),
        Endian::Big => write_uint_be(v, w),
    };
    buffer.write_all(bytes.as_slice());
}

/// The primitive value a raw residue denotes, at run time.
fn value_from_res(k: PrimKind, r: u128) -> (v: Value)
    requires
        (r as nat) < pow256(k.spec_width()),
    ensures
        view_val(v) == prim_val(k, r as nat),
{
    proof {
        lemma_pow256_vals();
    }
    match k {
        PrimKind::U8 => Value::U8(r as u8),
        PrimKind::I8 => if r < 0x80 {
            Value::I8(r as i8)
        } else {
            Value::I8(((r as i16) - 0x100) as i8)
        },
        PrimKind::U16 => Value::U16(r as u16),
        PrimKind::I16 => if r < 0x8000 {
            Value::I16(r as i16)
        } else {
            Value::I16(((r as i32) - 0x1_0000) as i16)
        },
        PrimKind::U32 => Value::U32(r as u32),
        PrimKind::I32 => if r < 0x8000_0000 {
            Value::I32(r as i32)
        } else {
            Value::I32(((r as i64) - 0x1_0000_0000) as i32)
        },
        PrimKind::U64 => Value::U64(r as u64),
        PrimKind::I64 => if r < 0x8000_0000_0000_0000 {
            Value::I64(r as i64)
        } else {
            Value::I64(((r as i128) - 0x1_0000_0000_0000_0000i128) as i64)
        },
        PrimKind::U128 => Value::U128(r),
        PrimKind::I128 => if r < 0x8000_0000_0000_0000_0000_0000_0000_0000u128 {
            Value::I128(r as i128)
        } else {
            Value::I128(-((u128::MAX - r) as i128) - 1)
        },
    }
}

/// The unsigned residue of a conforming primitive value, at run time.
fn res_from_value(k: PrimKind, value: &Value) -> (r: u128)
    requires
        conforms_prim(k, view_val(*value)),
    ensures
        r as nat == prim_res(k, view_val(*value)),
        (r as nat) < pow256(k.spec_width()),
{
    proof {
        lemma_pow256_vals();
        lemma_prim_res_bound(k, view_val(*value));
    }
    match value {
        Value::U8(x) => *x as u128,
        Value::I8(x) => if *x >= 0 {
            *x as u128
        } else {
            ((*x as i16) + 0x100) as u128
        },
        Value::U16(x) => *x as u128,
        Value::I16(x) => if *x >= 0 {
            *x as u128
        } else {
            ((*x as i32) + 0x1_0000) as u128
        },
        Value::U32(x) => *x as u128,
        Value::I32(x) => if *x >= 0 {
            *x as u128
        } else {
            ((*x as i64) + 0x1_0000_0000) as u128
        },
        Value::U64(x) => *x as u128,
        Value::I64(x) => if *x >= 0 {
            *x as u128
        } else {
            ((*x as i128) + 0x1_0000_0000_0000_0000i128) as u128
        },
        Value::U128(x) => *x,
        Value::I128(x) => if *x >= 0 {
            *x as u128
        } else {
            u128::MAX - ((-(*x + 1)) as u128)
        },
        _ => {
            proof {
                assert(false);
            }
            0
        },
    }
}

/// Convert a raw prefix residue to an element count, at run time.
fn count_from_raw(k: PrimKind, raw: u128) -> (r: Result<usize, CodecError>)
    ensures
        match count_of(k, raw as nat) {
            Some(n) => r matches Ok(c) && c as nat == n,
            None => r matches Err(e) && e == CodecError::Overflow,
        },
{
    proof {
        lemma_pow256_vals();
    }
    if k.is_signed() {
        let half: u128 = match k {
            PrimKind::I8 => 0x80,
            PrimKind::I16 => 0x8000,
            PrimKind::I32 => 0x8000_0000,
            PrimKind::I64 => 0x8000_0000_0000_0000,
            PrimKind::I128 => 0x8000_0000_0000_0000_0000_0000_0000_0000,
            _ => 1,
        };
        if raw >= half {
            return Err(CodecError::Overflow);
        }
    }
    if raw > usize::MAX as u128 {
        return Err(CodecError::Overflow);
    }
    Ok(raw as usize)
}

/// Whether a count fits the prefix kind.
fn fits_count(k: PrimKind, n: usize) -> (r: bool)
    ensures
        r == (n as nat <= count_max(k)),
{
    proof {
        lemma_pow256_vals();
    }
    let m: u128 = match k {
        PrimKind::U8 => 0xFF,
        PrimKind::I8 => 0x7F,
        PrimKind::U16 => 0xFFFF,
        PrimKind::I16 => 0x7FFF,
        PrimKind::U32 => 0xFFFF_FFFF,
        PrimKind::I32 => 0x7FFF_FFFF,
        PrimKind::U64 => 0xFFFF_FFFF_FFFF_FFFF,
        PrimKind::I64 => 0x7FFF_FFFF_FFFF_FFFF,
        PrimKind::U128 => 0xFFFF_FFFF_FFFF_FFFF_FFFF_FFFF_FFFF_FFFF,
        PrimKind::I128 => 0x7FFF_FFFF_FFFF_FFFF_FFFF_FFFF_FFFF_FFFF,
    };
    (n as u128) <= m
}

// ---------------------------------------------------------------------------
// The decoding engine
// ---------------------------------------------------------------------------

/// Decode one value of layout `desc` from the stream, `endian` being the
/// byte order inherited from the surrounding field, if any.
pub fn decode_value<H: CodecHooks>(
    hooks: &H,
    desc: &TypeDescriptor,
    endian: Option<Endian>,
    buffer: &mut ReadCounter,
) -> (r: Result<Value, CodecError>)
    requires
        wf_ty(*desc),
    ensures
        final(buffer).stream() == old(buffer).stream(),
        match dec_ty(*hooks, *desc, endian, old(buffer).stream(), old(buffer).cursor() as int) {
            DecR::Val(v, p) => r matches Ok(x) && view_val(x) == v && final(buffer).cursor() as int
                == p,
            DecR::Fail(e, p) => r matches Err(x) && x == e && final(buffer).cursor() as int == p,
        },
    decreases *desc, 0nat, 2nat,
{
    match desc {
        TypeDescriptor::Primitive(k) => {
            match read_raw(*k, resolve_endian(endian), buffer) {
                Ok(raw) => {
                    proof {
                        let data = old(buffer).stream();
                        let pos = old(buffer).cursor() as int;
                        lemma_val_of_bound(
                            data.subrange(pos, pos + k.spec_width() as int),
                            resolve(endian),
                        );
                    }
                    Ok(value_from_res(*k, raw))
                },
                Err(e) => Err(e),
            }
        },
        TypeDescriptor::FixedArray(elem, n) => {
            match read_with_length(hooks, buffer, *n, &**elem, endian) {
                Ok(vals) => Ok(Value::List(vals)),
                Err(e) => Err(e),
            }
        },
        TypeDescriptor::Tuple(ts) => {
            match decode_tuple(hooks, ts, endian, buffer) {
                Ok(vals) => Ok(Value::List(vals)),
                Err(e) => Err(e),
            }
        },
        TypeDescriptor::Struct(opts, fs) => {
            match decode_fields(hooks, fs, opts.endian, buffer) {
                Ok(vals) => Ok(Value::List(vals)),
                Err(e) => Err(e),
            }
        },
        TypeDescriptor::Enum(opts, variants) => {
            let tagk = match opts.tag {
                Some(k) => k,
                None => {
                    proof {
                        assert(false);
                    }
                    PrimKind::U8
                },
            };
            match opts.length_prefix {
                None => decode_enum_body(hooks, tagk, opts.endian, variants, buffer),
                Some(pk) => {
                    let raw = match read_raw(pk, resolve_endian(opts.endian), buffer) {
                        Ok(x) => x,
                        Err(e) => {
                            return Err(e);
                        },
                    };
                    let len = match count_from_raw(pk, raw) {
                        Ok(n) => n,
                        Err(e) => {
                            return Err(e);
                        },
                    };
                    let chunk = match buffer.read_exact(len) {
                        Ok(c) => c,
                        Err(e) => {
                            return Err(e);
                        },
                    };
                    let mut sub = ReadCounter::new(chunk);
                    match decode_enum_body(hooks, tagk, opts.endian, variants, &mut sub) {
                        Ok(v) => Ok(v),
                        Err(e) => Err(e),
                    }
                },
            }
        },
        TypeDescriptor::Padding(n) => {
            match consume_bytes(buffer, *n) {
                Ok(_) => Ok(Value::Unit),
                Err(e) => Err(e),
            }
        },
        TypeDescriptor::PadToAlign(a, _) => {
            let pad = align_padding(*a, buffer.position());
            let rem = buffer.remaining();
            if pad > rem as u64 {
                Err(CodecError::UnexpectedEof)
            } else {
                match consume_bytes(buffer, pad as usize) {
                    Ok(_) => Ok(Value::Unit),
                    Err(e) => Err(e),
                }
            }
        },
    }
}

/// Tag read and variant dispatch, shared by framed and unframed enums.
fn decode_enum_body<H: CodecHooks>(
    hooks: &H,
    tagk: PrimKind,
    ce: Option<Endian>,
    variants: &Vec<Variant>,
    buffer: &mut ReadCounter,
) -> (r: Result<Value, CodecError>)
    requires
        wf_variants_from(variants@, tagk, 0),
    ensures
        final(buffer).stream() == old(buffer).stream(),
        match dec_enum_body(*hooks, tagk, ce, variants@, old(buffer).stream(), old(buffer).cursor() as int) {
            DecR::Val(v, p) => r matches Ok(x) && view_val(x) == v && final(buffer).cursor() as int
                == p,
            DecR::Fail(e, p) => r matches Err(x) && x == e && final(buffer).cursor() as int == p,
        },
    decreases variants@, 1nat, 0nat,
{
    let raw = match read_raw(tagk, resolve_endian(ce), buffer) {
        Ok(x) => x,
        Err(e) => {
            return Err(e);
        },
    };
    match find_variant_index(variants, raw) {
        None => Err(CodecError::InvalidData(raw)),
        Some(j) => {
            proof {
                lemma_wf_variants_index(variants@, tagk, 0, j as int);
            }
            match decode_fields(hooks, &variants[j].fields, ce, buffer) {
                Ok(vals) => Ok(Value::Variant(j, vals)),
                Err(e) => Err(e),
            }
        },
    }
}

/// The first variant whose tag constant equals t, at run time.
fn find_variant_index(variants: &Vec<Variant>, t: u128) -> (r: Option<usize>)
    ensures
        match find_variant(variants@, t as nat, 0) {
            Some(j) => r matches Some(x) && x as int == j && j < variants@.len(),
            None => r is None,
        },
{
    proof {
        lemma_find_variant_range(variants@, t as nat, 0);
    }
    let n = variants.len();
    let mut i: usize = 0;
    while i < n
        invariant
            i <= n,
            n == variants@.len(),
            find_variant(variants@, t as nat, 0) == find_variant(variants@, t as nat, i as int),
        decreases n - i,
    {
        if variants[i].opts.tag == t {
            return Some(i);
        }
        i = i + 1;
    }
    None
}

/// Decode the fields of a struct or variant, in declaration order, stopping
/// at the first failure.
fn decode_fields<H: CodecHooks>(
    hooks: &H,
    fields: &Vec<Field>,
    ce: Option<Endian>,
    buffer: &mut ReadCounter,
) -> (r: Result<Vec<Value>, CodecError>)
    requires
        wf_fields_from(fields@, 0),
    ensures
        final(buffer).stream() == old(buffer).stream(),
        match dec_fields_from(*hooks, fields@, ce, old(buffer).stream(), old(buffer).cursor()
            as int, 0) {
            DecLR::Vals(vs, p) => r matches Ok(xs) && view_vals(xs@) == vs && final(buffer).cursor() as int == p,
            DecLR::Fail(e, p) => r matches Err(x) && x == e && final(buffer).cursor() as int == p,
        },
    decreases fields@, 0nat, 0nat,
{
    let ghost data = buffer.stream();
    let ghost pos0 = buffer.cursor() as int;
    let mut out: Vec<Value> = Vec::new();
    let n = fields.len();
    let mut i: usize = 0;
    while i < n
        invariant
            i <= n,
            n == fields@.len(),
            wf_fields_from(fields@, i as int),
            buffer.stream() == data,
            data == old(buffer).stream(),
            pos0 == old(buffer).cursor() as int,
            out@.len() == i,
            dec_fields_from(*hooks, fields@, ce, data, pos0, 0) == prepend_vals(
                view_vals(out@),
                dec_fields_from(*hooks, fields@, ce, data, buffer.cursor() as int, i as int),
            ),
        decreases n - i,
    {
        proof {
            assert(decreases_to!(fields@ => fields@[i as int]));
        }
        match decode_field(hooks, &fields[i], ce, buffer) {
            Ok(val) => {
                proof {
                    let vv = view_val(val);
                    let a = view_vals(out@);
                    lemma_view_vals_push(out@, val);
                    match dec_fields_from(
                        *hooks,
                        fields@,
                        ce,
                        data,
                        buffer.cursor() as int,
                        i + 1,
                    ) {
                        DecLR::Vals(vs, p2) => {
                            assert(a + (seq![vv] + vs) =~= a.push(vv) + vs);
                        },
                        DecLR::Fail(_, _) => {},
                    }
                }
                out.push(val);
                i = i + 1;
            },
            Err(e) => {
                return Err(e);
            },
        }
    }
    proof {
        assert(view_vals(out@) + Seq::<ValV>::empty() =~= view_vals(out@));
    }
    Ok(out)
}

/// Decode the elements of a tuple, in declaration order.
fn decode_tuple<H: CodecHooks>(
    hooks: &H,
    elems: &Vec<TypeDescriptor>,
    endian: Option<Endian>,
    buffer: &mut ReadCounter,
) -> (r: Result<Vec<Value>, CodecError>)
    requires
        wf_tys_from(elems@, 0),
    ensures
        final(buffer).stream() == old(buffer).stream(),
        match dec_tys_from(*hooks, elems@, endian, old(buffer).stream(), old(buffer).cursor()
            as int, 0) {
            DecLR::Vals(vs, p) => r matches Ok(xs) && view_vals(xs@) == vs && final(buffer).cursor() as int == p,
            DecLR::Fail(e, p) => r matches Err(x) && x == e && final(buffer).cursor() as int == p,
        },
    decreases elems@, 0nat, 0nat,
{
    let ghost data = buffer.stream();
    let ghost pos0 = buffer.cursor() as int;
    let mut out: Vec<Value> = Vec::new();
    let n = elems.len();
    let mut i: usize = 0;
    while i < n
        invariant
            i <= n,
            n == elems@.len(),
            wf_tys_from(elems@, i as int),
            buffer.stream() == data,
            data == old(buffer).stream(),
            pos0 == old(buffer).cursor() as int,
            out@.len() == i,
            dec_tys_from(*hooks, elems@, endian, data, pos0, 0) == prepend_vals(
                view_vals(out@),
                dec_tys_from(*hooks, elems@, endian, data, buffer.cursor() as int, i as int),
            ),
        decreases n - i,
    {
        proof {
            assert(decreases_to!(elems@ => elems@[i as int]));
        }
        match decode_value(hooks, &elems[i], endian, buffer) {
            Ok(val) => {
                proof {
                    let vv = view_val(val);
                    let a = view_vals(out@);
                    lemma_view_vals_push(out@, val);
                    match dec_tys_from(
                        *hooks,
                        elems@,
                        endian,
                        data,
                        buffer.cursor() as int,
                        i + 1,
                    ) {
                        DecLR::Vals(vs, p2) => {
                            assert(a + (seq![vv] + vs) =~= a.push(vv) + vs);
                        },
                        DecLR::Fail(_, _) => {},
                    }
                }
                out.push(val);
                i = i + 1;
            },
            Err(e) => {
                return Err(e);
            },
        }
    }
    proof {
        assert(view_vals(out@) + Seq::<ValV>::empty() =~= view_vals(out@));
    }
    Ok(out)
}

/// Decode one field: its custom codec if declared, else a count-prefixed
/// run of elements, else its own layout.
fn decode_field<H: CodecHooks>(
    hooks: &H,
    field: &Field,
    ce: Option<Endian>,
    buffer: &mut ReadCounter,
) -> (r: Result<Value, CodecError>)
    requires
        wf_field(*field),
    ensures
        final(buffer).stream() == old(buffer).stream(),
        match dec_field(*hooks, *field, ce, old(buffer).stream(), old(buffer).cursor() as int) {
            DecR::Val(v, p) => r matches Ok(x) && view_val(x) == v && final(buffer).cursor() as int
                == p,
            DecR::Fail(e, p) => r matches Err(x) && x == e && final(buffer).cursor() as int == p,
        },
    decreases *field, 0nat, 0nat,
{
    let e = if field.opts.endian.is_some() {
        field.opts.endian
    } else {
        ce
    };
    match field.opts.custom_codec {
        Some(id) => hooks.read_hook(id, buffer),
        None => match field.opts.length_prefix {
            Some(pk) => {
                let raw = match read_raw(pk, resolve_endian(e), buffer) {
                    Ok(x) => x,
                    Err(er) => {
                        return Err(er);
                    },
                };
                let count = match count_from_raw(pk, raw) {
                    Ok(c) => c,
                    Err(er) => {
                        return Err(er);
                    },
                };
                match read_with_length(hooks, buffer, count, &field.ty, e) {
                    Ok(vals) => Ok(Value::List(vals)),
                    Err(er) => Err(er),
                }
            },
            None => decode_value(hooks, &field.ty, e, buffer),
        },
    }
}

/// Decode exactly `len` elements of one layout, stopping at the first
/// failure: the error-aborting collector behind every repeated field.
pub fn read_with_length<H: CodecHooks>(
    hooks: &H,
    buffer: &mut ReadCounter,
    len: usize,
    elem: &TypeDescriptor,
    endian: Option<Endian>,
) -> (r: Result<Vec<Value>, CodecError>)
    requires
        wf_ty(*elem),
    ensures
        final(buffer).stream() == old(buffer).stream(),
        match dec_list(*hooks, *elem, endian, len as nat, old(buffer).stream(), old(buffer).cursor() as int) {
            DecLR::Vals(vs, p) => r matches Ok(xs) && view_vals(xs@) == vs && final(buffer).cursor() as int == p,
            DecLR::Fail(e, p) => r matches Err(x) && x == e && final(buffer).cursor() as int == p,
        },
    decreases *elem, 0nat, 3nat,
{
    let ghost data = buffer.stream();
    let ghost pos0 = buffer.cursor() as int;
    let mut out: Vec<Value> = Vec::new();
    let mut i: usize = 0;
    while i < len
        invariant
            i <= len,
            wf_ty(*elem),
            buffer.stream() == data,
            data == old(buffer).stream(),
            pos0 == old(buffer).cursor() as int,
            out@.len() == i,
            dec_list(*hooks, *elem, endian, len as nat, data, pos0) == prepend_vals(
                view_vals(out@),
                dec_list(
                    *hooks,
                    *elem,
                    endian,
                    (len - i) as nat,
                    data,
                    buffer.cursor() as int,
                ),
            ),
        decreases len - i,
    {
        match decode_value(hooks, elem, endian, buffer) {
            Ok(val) => {
                proof {
                    let vv = view_val(val);
                    let a = view_vals(out@);
                    lemma_view_vals_push(out@, val);
                    match dec_list(
                        *hooks,
                        *elem,
                        endian,
                        (len - i - 1) as nat,
                        data,
                        buffer.cursor() as int,
                    ) {
                        DecLR::Vals(vs, p2) => {
                            assert(a + (seq![vv] + vs) =~= a.push(vv) + vs);
                        },
                        DecLR::Fail(_, _) => {},
                    }
                }
                out.push(val);
                i = i + 1;
            },
            Err(e) => {
                return Err(e);
            },
        }
    }
    proof {
        assert(view_vals(out@) + Seq::<ValV>::empty() =~= view_vals(out@));
    }
    Ok(out)
}


// ---------------------------------------------------------------------------
// The encoding engine
// ---------------------------------------------------------------------------

proof fn lemma_prefix_refl(a: Seq<u8>)
    ensures
        a.is_prefix_of(a),
{
    assert(a.subrange(0, a.len() as int) =~= a);
}

/// Encode one conforming value of layout `desc`, appending to the stream;
/// `endian` is the byte order inherited from the surrounding field, if any.
/// On an error, whatever was emitted before the failing piece stays in the
/// stream: callers discard partial output.
pub fn encode_value<H: CodecHooks>(
    hooks: &H,
    desc: &TypeDescriptor,
    endian: Option<Endian>,
    value: &Value,
    buffer: &mut WriteCounter,
) -> (r: Result<(), CodecError>)
    requires
        wf_ty(*desc),
        conforms(*desc, view_val(*value)),
    ensures
        old(buffer).stream().is_prefix_of(final(buffer).stream()),
        match enc_ty(*hooks, *desc, endian, view_val(*value), old(buffer).stream().len() as int) {
            EncR::Bytes(b) => r is Ok && final(buffer).stream() == old(buffer).stream() + b,
            EncR::Fail(er) => r matches Err(x) && x == er,
        },
    decreases *desc, 0nat, 2nat,
{
    proof {
        lemma_prefix_refl(buffer.stream());
    }
    match desc {
        TypeDescriptor::Primitive(k) => {
            let res = res_from_value(*k, value);
            write_raw(*k, resolve_endian(endian), res, buffer);
            proof {
                lemma_prefix_append(
                    old(buffer).stream(),
                    bytes_of(res as nat, k.spec_width(), resolve(endian)),
                );
            }
            Ok(())
        },
        TypeDescriptor::FixedArray(elem, n) => {
            match value {
                Value::List(items) => encode_list(hooks, &**elem, endian, items, buffer),
                _ => {
                    proof {
                        assert(false);
                    }
                    Err(CodecError::Overflow)
                },
            }
        },
        TypeDescriptor::Tuple(ts) => {
            match value {
                Value::List(items) => {
                    proof {
                        lemma_view_vals(items@);
                    }
                    encode_tuple(hooks, ts, endian, items, buffer)
                },
                _ => {
                    proof {
                        assert(false);
                    }
                    Err(CodecError::Overflow)
                },
            }
        },
        TypeDescriptor::Struct(opts, fs) => {
            match value {
                Value::List(items) => {
                    proof {
                        lemma_view_vals(items@);
                    }
                    encode_fields(hooks, fs, opts.endian, items, buffer)
                },
                _ => {
                    proof {
                        assert(false);
                    }
                    Err(CodecError::Overflow)
                },
            }
        },
        TypeDescriptor::Enum(opts, variants) => {
            match value {
                Value::Variant(j, vals) => {
                    let tagk = match opts.tag {
                        Some(k) => k,
                        None => {
                            proof {
                                assert(false);
                            }
                            PrimKind::U8
                        },
                    };
                    proof {
                        lemma_wf_variants_index(variants@, tagk, 0, *j as int);
                        lemma_view_vals(vals@);
                    }
                    let tagres = variants[*j].opts.tag;
                    match opts.length_prefix {
                        None => {
                            let ghost pre = buffer.stream();
                            let ghost tagbytes = bytes_of(
                                tagres as nat,
                                tagk.spec_width(),
                                resolve(opts.endian),
                            );
                            proof {
                                lemma_bytes_of_len(
                                    tagres as nat,
                                    tagk.spec_width(),
                                    resolve(opts.endian),
                                );
                            }
                            write_raw(tagk, resolve_endian(opts.endian), tagres, buffer);
                            match encode_fields(hooks, &variants[*j].fields, opts.endian, vals, buffer) {
                                Ok(u) => {
                                    proof {
                                        match enc_fields_from(
                                            *hooks,
                                            variants@[*j as int].fields@,
                                            opts.endian,
                                            view_vals(vals@),
                                            (pre + tagbytes).len() as int,
                                            0,
                                        ) {
                                            EncR::Bytes(fb) => {
                                                assert(pre + tagbytes + fb =~= pre + (tagbytes
                                                    + fb));
                                                lemma_prefix_append(pre, tagbytes + fb);
                                            },
                                            EncR::Fail(_) => {},
                                        }
                                    }
                                    Ok(u)
                                },
                                Err(e) => {
                                    proof {
                                        lemma_prefix_append(pre, tagbytes);
                                        lemma_prefix_trans(
                                            pre,
                                            pre + tagbytes,
                                            buffer.stream(),
                                        );
                                    }
                                    Err(e)
                                },
                            }
                        },
                        Some(pk) => {
                            let mut scratch = WriteCounter::new();
                            let ghost tagbytes = bytes_of(
                                tagres as nat,
                                tagk.spec_width(),
                                resolve(opts.endian),
                            );
                            proof {
                                lemma_bytes_of_len(
                                    tagres as nat,
                                    tagk.spec_width(),
                                    resolve(opts.endian),
                                );
                            }
                            write_raw(tagk, resolve_endian(opts.endian), tagres, &mut scratch);
                            match encode_fields(
                                hooks,
                                &variants[*j].fields,
                                opts.endian,
                                vals,
                                &mut scratch,
                            ) {
                                Err(e) => Err(e),
                                Ok(_) => {
                                    proof {
                                        assert(Seq::<u8>::empty() + tagbytes =~= tagbytes);
                                    }
                                    let body = scratch.into_bytes();
                                    let blen = body.len();
                                    if !fits_count(pk, blen) {
                                        return Err(CodecError::Overflow);
                                    }
                                    proof {
                                        lemma_count_max_bound(pk);
                                    }
                                    let ghost pre = buffer.stream();
                                    let ghost pb = bytes_of(
                                        blen as nat,
                                        pk.spec_width(),
                                        resolve(opts.endian),
                                    );
                                    write_raw(
                                        pk,
                                        resolve_endian(opts.endian),
                                        blen as u128,
                                        buffer,
                                    );
                                    buffer.write_all(body.as_slice());
                                    proof {
                                        assert(pre + pb + body@ =~= pre + (pb + body@));
                                        lemma_prefix_append(pre, pb + body@);
                                    }
                                    Ok(())
                                },
                            }
                        },
                    }
                },
                _ => {
                    proof {
                        assert(false);
                    }
                    Err(CodecError::Overflow)
                },
            }
        },
        TypeDescriptor::Padding(n) => {
            let ghost pre = buffer.stream();
            let r = write_padding(buffer, 0, *n);
            proof {
                lemma_prefix_append(pre, filled(*n as nat, 0));
            }
            r
        },
        TypeDescriptor::PadToAlign(a, fill) => {
            let ghost pre = buffer.stream();
            let pad = align_padding(*a, buffer.position());
            let mut k: u64 = 0;
            while k < pad
                invariant
                    k <= pad,
                    pre == old(buffer).stream(),
                    pad == pad_amount(*a as int, pre.len() as int),
                    buffer.stream() == pre + filled(k as nat, *fill),
                decreases pad - k,
            {
                buffer.write_byte(*fill);
                k = k + 1;
                assert((pre + filled((k - 1) as nat, *fill)).push(*fill) =~= pre + filled(
                    k as nat,
                    *fill,
                ));
            }
            proof {
                lemma_prefix_append(pre, filled(pad as nat, *fill));
            }
            Ok(())
        },
    }
}

/// Encode the fields of a struct or variant, in declaration order, stopping
/// at the first failure.
fn encode_fields<H: CodecHooks>(
    hooks: &H,
    fields: &Vec<Field>,
    ce: Option<Endian>,
    values: &Vec<Value>,
    buffer: &mut WriteCounter,
) -> (r: Result<(), CodecError>)
    requires
        wf_fields_from(fields@, 0),
        values@.len() == fields@.len(),
        conforms_fields_from(fields@, view_vals(values@), 0),
    ensures
        old(buffer).stream().is_prefix_of(final(buffer).stream()),
        match enc_fields_from(*hooks, fields@, ce, view_vals(values@), old(
            buffer,
        ).stream().len() as int, 0) {
            EncR::Bytes(b) => r is Ok && final(buffer).stream() == old(buffer).stream() + b,
            EncR::Fail(er) => r matches Err(x) && x == er,
        },
    decreases fields@, 0nat, 0nat,
{
    let ghost vvs = view_vals(values@);
    let ghost base = buffer.stream();
    let ghost o = base.len() as int;
    proof {
        lemma_view_vals(values@);
        lemma_prefix_refl(base);
        assert(base.skip(o) =~= Seq::<u8>::empty());
    }
    let n = fields.len();
    let mut i: usize = 0;
    while i < n
        invariant
            i <= n,
            n == fields@.len(),
            n == values@.len(),
            vvs == view_vals(values@),
            vvs.len() == n,
            forall|q: int| 0 <= q < n ==> vvs[q] == view_val(values@[q]),
            wf_fields_from(fields@, i as int),
            conforms_fields_from(fields@, vvs, i as int),
            base == old(buffer).stream(),
            o == base.len() as int,
            base.len() <= buffer.stream().len(),
            buffer.stream().subrange(0, o) == base,
            enc_fields_from(*hooks, fields@, ce, vvs, o, 0) == prepend_enc(
                buffer.stream().skip(o),
                enc_fields_from(*hooks, fields@, ce, vvs, buffer.stream().len() as int, i as int),
            ),
        decreases n - i,
    {
        proof {
            assert(decreases_to!(fields@ => fields@[i as int]));
        }
        let ghost pre = buffer.stream();
        match encode_field(hooks, &fields[i], ce, &values[i], buffer) {
            Ok(_) => {
                proof {
                    match enc_field(*hooks, fields@[i as int], ce, vvs[i as int], pre.len() as int) {
                        EncR::Bytes(b) => {
                            assert(buffer.stream().skip(o) =~= pre.skip(o) + b);
                            assert(buffer.stream().subrange(0, o) =~= base);
                            match enc_fields_from(
                                *hooks,
                                fields@,
                                ce,
                                vvs,
                                buffer.stream().len() as int,
                                i + 1,
                            ) {
                                EncR::Bytes(b2) => {
                                    assert(pre.skip(o) + (b + b2) =~= (pre.skip(o) + b) + b2);
                                },
                                EncR::Fail(_) => {},
                            }
                        },
                        EncR::Fail(_) => {
                            assert(false);
                        },
                    }
                }
                i = i + 1;
            },
            Err(e) => {
                proof {
                    lemma_prefix_trans(base, pre, buffer.stream());
                }
                return Err(e);
            },
        }
    }
    proof {
        assert(buffer.stream().skip(o) + Seq::<u8>::empty() =~= buffer.stream().skip(o));
        assert(base + buffer.stream().skip(o) =~= buffer.stream());
    }
    Ok(())
}

/// Encode the elements of a tuple, in declaration order.
fn encode_tuple<H: CodecHooks>(
    hooks: &H,
    elems: &Vec<TypeDescriptor>,
    endian: Option<Endian>,
    values: &Vec<Value>,
    buffer: &mut WriteCounter,
) -> (r: Result<(), CodecError>)
    requires
        wf_tys_from(elems@, 0),
        values@.len() == elems@.len(),
        conforms_tys_from(elems@, view_vals(values@), 0),
    ensures
        old(buffer).stream().is_prefix_of(final(buffer).stream()),
        match enc_tys_from(*hooks, elems@, endian, view_vals(values@), old(
            buffer,
        ).stream().len() as int, 0) {
            EncR::Bytes(b) => r is Ok && final(buffer).stream() == old(buffer).stream() + b,
            EncR::Fail(er) => r matches Err(x) && x == er,
        },
    decreases elems@, 0nat, 0nat,
{
    let ghost vvs = view_vals(values@);
    let ghost base = buffer.stream();
    let ghost o = base.len() as int;
    proof {
        lemma_view_vals(values@);
        lemma_prefix_refl(base);
        assert(base.skip(o) =~= Seq::<u8>::empty());
    }
    let n = elems.len();
    let mut i: usize = 0;
    while i < n
        invariant
            i <= n,
            n == elems@.len(),
            n == values@.len(),
            vvs == view_vals(values@),
            vvs.len() == n,
            forall|q: int| 0 <= q < n ==> vvs[q] == view_val(values@[q]),
            wf_tys_from(elems@, i as int),
            conforms_tys_from(elems@, vvs, i as int),
            base == old(buffer).stream(),
            o == base.len() as int,
            base.len() <= buffer.stream().len(),
            buffer.stream().subrange(0, o) == base,
            enc_tys_from(*hooks, elems@, endian, vvs, o, 0) == prepend_enc(
                buffer.stream().skip(o),
                enc_tys_from(*hooks, elems@, endian, vvs, buffer.stream().len() as int, i as int),
            ),
        decreases n - i,
    {
        proof {
            assert(decreases_to!(elems@ => elems@[i as int]));
        }
        let ghost pre = buffer.stream();
        match encode_value(hooks, &elems[i], endian, &values[i], buffer) {
            Ok(_) => {
                proof {
                    match enc_ty(*hooks, elems@[i as int], endian, vvs[i as int], pre.len() as int) {
                        EncR::Bytes(b) => {
                            assert(buffer.stream().skip(o) =~= pre.skip(o) + b);
                            assert(buffer.stream().subrange(0, o) =~= base);
                            match enc_tys_from(
                                *hooks,
                                elems@,
                                endian,
                                vvs,
                                buffer.stream().len() as int,
                                i + 1,
                            ) {
                                EncR::Bytes(b2) => {
                                    assert(pre.skip(o) + (b + b2) =~= (pre.skip(o) + b) + b2);
                                },
                                EncR::Fail(_) => {},
                            }
                        },
                        EncR::Fail(_) => {
                            assert(false);
                        },
                    }
                }
                i = i + 1;
            },
            Err(e) => {
                proof {
                    lemma_prefix_trans(base, pre, buffer.stream());
                }
                return Err(e);
            },
        }
    }
    proof {
        assert(buffer.stream().skip(o) + Seq::<u8>::empty() =~= buffer.stream().skip(o));
        assert(base + buffer.stream().skip(o) =~= buffer.stream());
    }
    Ok(())
}

/// Encode a run of same-typed elements in order, stopping at the first
/// failure.
fn encode_list<H: CodecHooks>(
    hooks: &H,
    elem: &TypeDescriptor,
    endian: Option<Endian>,
    items: &Vec<Value>,
    buffer: &mut WriteCounter,
) -> (r: Result<(), CodecError>)
    requires
        wf_ty(*elem),
        conforms_list_from(*elem, view_vals(items@), 0),
    ensures
        old(buffer).stream().is_prefix_of(final(buffer).stream()),
        match enc_list_from(*hooks, *elem, endian, view_vals(items@), old(
            buffer,
        ).stream().len() as int, 0) {
            EncR::Bytes(b) => r is Ok && final(buffer).stream() == old(buffer).stream() + b,
            EncR::Fail(er) => r matches Err(x) && x == er,
        },
    decreases *elem, 1nat, 0nat,
{
    let ghost vvs = view_vals(items@);
    let ghost base = buffer.stream();
    let ghost o = base.len() as int;
    proof {
        lemma_view_vals(items@);
        lemma_prefix_refl(base);
        assert(base.skip(o) =~= Seq::<u8>::empty());
    }
    let n = items.len();
    let mut i: usize = 0;
    while i < n
        invariant
            i <= n,
            n == items@.len(),
            vvs == view_vals(items@),
            vvs.len() == n,
            forall|q: int| 0 <= q < n ==> vvs[q] == view_val(items@[q]),
            wf_ty(*elem),
            conforms_list_from(*elem, vvs, i as int),
            base == old(buffer).stream(),
            o == base.len() as int,
            base.len() <= buffer.stream().len(),
            buffer.stream().subrange(0, o) == base,
            enc_list_from(*hooks, *elem, endian, vvs, o, 0) == prepend_enc(
                buffer.stream().skip(o),
                enc_list_from(*hooks, *elem, endian, vvs, buffer.stream().len() as int, i as int),
            ),
        decreases n - i,
    {
        let ghost pre = buffer.stream();
        match encode_value(hooks, elem, endian, &items[i], buffer) {
            Ok(_) => {
                proof {
                    match enc_ty(*hooks, *elem, endian, vvs[i as int], pre.len() as int) {
                        EncR::Bytes(b) => {
                            assert(buffer.stream().skip(o) =~= pre.skip(o) + b);
                            assert(buffer.stream().subrange(0, o) =~= base);
                            match enc_list_from(
                                *hooks,
                                *elem,
                                endian,
                                vvs,
                                buffer.stream().len() as int,
                                i + 1,
                            ) {
                                EncR::Bytes(b2) => {
                                    assert(pre.skip(o) + (b + b2) =~= (pre.skip(o) + b) + b2);
                                },
                                EncR::Fail(_) => {},
                            }
                        },
                        EncR::Fail(_) => {
                            assert(false);
                        },
                    }
                }
                i = i + 1;
            },
            Err(e) => {
                proof {
                    lemma_prefix_trans(base, pre, buffer.stream());
                }
                return Err(e);
            },
        }
    }
    proof {
        assert(buffer.stream().skip(o) + Seq::<u8>::empty() =~= buffer.stream().skip(o));
        assert(base + buffer.stream().skip(o) =~= buffer.stream());
    }
    Ok(())
}

/// Encode one field, mirroring the decode-side dispatch.
fn encode_field<H: CodecHooks>(
    hooks: &H,
    field: &Field,
    ce: Option<Endian>,
    value: &Value,
    buffer: &mut WriteCounter,
) -> (r: Result<(), CodecError>)
    requires
        wf_field(*field),
        conforms_field(*field, view_val(*value)),
    ensures
        old(buffer).stream().is_prefix_of(final(buffer).stream()),
        match enc_field(*hooks, *field, ce, view_val(*value), old(buffer).stream().len() as int) {
            EncR::Bytes(b) => r is Ok && final(buffer).stream() == old(buffer).stream() + b,
            EncR::Fail(er) => r matches Err(x) && x == er,
        },
    decreases *field, 0nat, 0nat,
{
    proof {
        lemma_prefix_refl(buffer.stream());
    }
    let e = if field.opts.endian.is_some() {
        field.opts.endian
    } else {
        ce
    };
    match field.opts.custom_codec {
        Some(id) => {
            let ghost pre = buffer.stream();
            let r = hooks.write_hook(id, value, buffer);
            proof {
                match hooks.hook_wire(id, view_val(*value)) {
                    Some(b) => {
                        lemma_prefix_append(pre, b);
                    },
                    None => {},
                }
            }
            r
        },
        None => match field.opts.length_prefix {
            Some(pk) => {
                match value {
                    Value::List(items) => write_with_prefix(hooks, items, buffer, &field.ty, pk, e),
                    _ => {
                        proof {
                            assert(false);
                        }
                        Err(CodecError::Overflow)
                    },
                }
            },
            None => encode_value(hooks, &field.ty, e, value, buffer),
        },
    }
}

/// Write a count prefix for the items, then the items themselves: the
/// encode half of a length-prefixed repeated field. The prefix carries the
/// collection's own exact length, and the contract guarantees that exactly
/// that many elements follow it. A count that does not fit the prefix kind
/// is an `Overflow`, not a wraparound.
pub fn write_with_prefix<H: CodecHooks>(
    hooks: &H,
    items: &Vec<Value>,
    buffer: &mut WriteCounter,
    elem: &TypeDescriptor,
    prefix: PrimKind,
    endian: Option<Endian>,
) -> (r: Result<(), CodecError>)
    requires
        wf_ty(*elem),
        conforms_list_from(*elem, view_vals(items@), 0),
    ensures
        old(buffer).stream().is_prefix_of(final(buffer).stream()),
        match enc_prefixed(*hooks, *elem, prefix, endian, view_vals(items@), old(
            buffer,
        ).stream().len() as int) {
            EncR::Bytes(b) => r is Ok && final(buffer).stream() == old(buffer).stream() + b,
            EncR::Fail(er) => r matches Err(x) && x == er,
        },
    decreases *elem, 2nat, 0nat,
{
    proof {
        lemma_view_vals(items@);
        lemma_prefix_refl(buffer.stream());
    }
    let n = items.len();
    if !fits_count(prefix, n) {
        return Err(CodecError::Overflow);
    }
    proof {
        lemma_count_max_bound(prefix);
    }
    let ghost pre = buffer.stream();
    let ghost pb = bytes_of(n as nat, prefix.spec_width(), resolve(endian));
    write_raw(prefix, resolve_endian(endian), n as u128, buffer);
    let ghost pw = prefix.spec_width();
    proof {
        lemma_bytes_of_len(n as nat, pw, resolve(endian));
    }
    match encode_list(hooks, elem, endian, items, buffer) {
        Ok(_) => {
            proof {
                match enc_list_from(
                    *hooks,
                    *elem,
                    endian,
                    view_vals(items@),
                    (pre + pb).len() as int,
                    0,
                ) {
                    EncR::Bytes(lb) => {
                        assert(pre + pb + lb =~= pre + (pb + lb));
                        lemma_prefix_append(pre, pb + lb);
                    },
                    EncR::Fail(_) => {},
                }
            }
            Ok(())
        },
        Err(e) => {
            proof {
                lemma_prefix_append(pre, pb);
                lemma_prefix_trans(pre, pre + pb, buffer.stream());
            }
            Err(e)
        },
    }
}

// ---------------------------------------------------------------------------
// Whole-buffer entry points
// ---------------------------------------------------------------------------

/// Decode one value of layout `desc` from the front of a byte string.
pub fn from_bytes<H: CodecHooks>(hooks: &H, desc: &TypeDescriptor, data: Vec<u8>) -> (r: Result<
    Value,
    CodecError,
>)
    requires
        wf_ty(*desc),
    ensures
        match dec_ty(*hooks, *desc, None::<Endian>, data@, 0) {
            DecR::Val(v, _) => r matches Ok(x) && view_val(x) == v,
            DecR::Fail(e, _) => r matches Err(x) && x == e,
        },
{
    let mut buffer = ReadCounter::new(data);
    decode_value(hooks, desc, None, &mut buffer)
}

/// Encode one conforming value of layout `desc` into a fresh byte string.
pub fn to_bytes<H: CodecHooks>(hooks: &H, desc: &TypeDescriptor, value: &Value) -> (r: Result<
    Vec<u8>,
    CodecError,
>)
    requires
        wf_ty(*desc),
        conforms(*desc, view_val(*value)),
    ensures
        match enc_ty(*hooks, *desc, None::<Endian>, view_val(*value), 0) {
            EncR::Bytes(b) => r matches Ok(out) && out@ == b,
            EncR::Fail(er) => r matches Err(x) && x == er,
        },
{
    let mut buffer = WriteCounter::new();
    match encode_value(hooks, desc, None, value, &mut buffer) {
        Ok(_) => {
            proof {
                match enc_ty(*hooks, *desc, None::<Endian>, view_val(*value), 0) {
                    EncR::Bytes(b) => {
                        assert(Seq::<u8>::empty() + b =~= b);
                    },
                    EncR::Fail(_) => {},
                }
            }
            Ok(buffer.into_bytes())
        },
        Err(e) => Err(e),
    }
}

} // verus!
