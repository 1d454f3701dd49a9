//! The descriptor model: an immutable description of a value's binary
//! layout, built once at schema-definition time and reused for every encode
//! and decode call.

use vstd::prelude::*;

verus! {

/// Byte order of a multi-byte primitive on the wire.
#[derive(Clone, Copy, Debug, PartialEq, Eq, Structural)]
pub enum Endian {
    Little,
    Big,
}

/// The fixed-width integer kinds a primitive field can have.
#[derive(Clone, Copy, Debug, PartialEq, Eq, Structural)]
pub enum PrimKind {
    U8,
    I8,
    U16,
    I16,
    U32,
    I32,
    U64,
    I64,
    U128,
    I128,
}

impl PrimKind {
    /// Width on the wire, in bytes.
    pub open spec fn spec_width(self) -> nat {
        match self {
            PrimKind::U8 => 1,
            PrimKind::I8 => 1,
            PrimKind::U16 => 2,
            PrimKind::I16 => 2,
            PrimKind::U32 => 4,
            PrimKind::I32 => 4,
            PrimKind::U64 => 8,
            PrimKind::I64 => 8,
            PrimKind::U128 => 16,
            PrimKind::I128 => 16,
        }
    }

    pub fn width(&self) -> (r: usize)
        ensures
            r == self.spec_width(),
            1 <= r <= 16,
    {
        match self {
            PrimKind::U8 => 1,
            PrimKind::I8 => 1,
            PrimKind::U16 => 2,
            PrimKind::I16 => 2,
            PrimKind::U32 => 4,
            PrimKind::I32 => 4,
            PrimKind::U64 => 8,
            PrimKind::I64 => 8,
            PrimKind::U128 => 16,
            PrimKind::I128 => 16,
        }
    }

    /// Whether the kind is a signed (two's complement) integer.
    pub open spec fn spec_signed(self) -> bool {
        match self {
            PrimKind::I8 => true,
            PrimKind::I16 => true,
            PrimKind::I32 => true,
            PrimKind::I64 => true,
            PrimKind::I128 => true,
            _ => false,
        }
    }

    pub fn is_signed(&self) -> (r: bool)
        ensures
            r == self.spec_signed(),
    {
        match self {
            PrimKind::I8 => true,
            PrimKind::I16 => true,
            PrimKind::I32 => true,
            PrimKind::I64 => true,
            PrimKind::I128 => true,
            _ => false,
        }
    }
}

/// Options set once per struct or enum container and inherited by its
/// fields. `tag` and `length_prefix` only matter on enums: the tag
/// discriminates variants, and `length_prefix` frames the encoded variant
/// body with its byte length.
#[derive(Clone, Copy, Debug)]
pub struct Opts {
    pub endian: Option<Endian>,
    pub tag: Option<PrimKind>,
    pub length_prefix: Option<PrimKind>,
}

impl Opts {
    /// The container's declared byte order, if any.
    pub fn endianness(&self) -> (r: Option<Endian>)
        ensures
            r == self.endian,
    {
        self.endian
    }
}

/// Per-field options. `length_prefix` here is an element count for a
/// repeated field — not the byte-length framing an enum container declares.
/// `custom_codec` names a decode/encode hook pair that replaces the generic
/// dispatch for this field.
#[derive(Clone, Copy, Debug)]
pub struct FieldOpts {
    pub length_prefix: Option<PrimKind>,
    pub endian: Option<Endian>,
    pub custom_codec: Option<u64>,
}

impl FieldOpts {
    /// The field's declared byte order, if any.
    pub fn endianness(&self) -> (r: Option<Endian>)
        ensures
            r == self.endian,
    {
        self.endian
    }

    /// Inherit the container's endianness when the field has no override of
    /// its own.
    pub fn with_endian(&mut self, opts: &Opts)
        ensures
            final(self).endian == (if old(self).endian is Some {
                old(self).endian
            } else {
                opts.endian
            }),
            final(self).length_prefix == old(self).length_prefix,
            final(self).custom_codec == old(self).custom_codec,
    {
        if self.endian.is_none() {
            self.endian = opts.endian;
        }
    }
}

/// Per-variant options: the tag constant that selects the variant, stored as
/// the raw bit pattern of the enum's tag kind.
#[derive(Clone, Copy, Debug)]
pub struct VariantOpts {
    pub tag: u128,
}

impl VariantOpts {
    pub fn tag(&self) -> (r: u128)
        ensures
            r == self.tag,
    {
        self.tag
    }
}

/// One field of a struct or variant: its layout plus its options. When
/// `opts.length_prefix` is set, `ty` describes the repeated element.
#[derive(Debug)]
pub struct Field {
    pub ty: TypeDescriptor,
    pub opts: FieldOpts,
}

/// One enum variant: its tag constant and its fields in wire order.
#[derive(Debug)]
pub struct Variant {
    pub opts: VariantOpts,
    pub fields: Vec<Field>,
}

/// The recursive layout description. Field order is the wire order.
#[derive(Debug)]
pub enum TypeDescriptor {
    /// A fixed-width integer.
    Primitive(PrimKind),
    /// A run of elements whose count the schema fixes; no count is on the wire.
    FixedArray(Box<TypeDescriptor>, usize),
    /// Positional elements in declaration order, sharing the field's endianness.
    Tuple(Vec<TypeDescriptor>),
    /// Named or positional fields in declaration order.
    Struct(Opts, Vec<Field>),
    /// Tag-discriminated variants; the options carry the tag kind and the
    /// optional byte-length framing.
    Enum(Opts, Vec<Variant>),
    /// Exactly n bytes of padding: ignored on decode, zero-filled on encode.
    Padding(usize),
    /// Pad to a multiple of the alignment (first field), writing the fill
    /// byte (second field); alignments below 2 pad nothing.
    PadToAlign(u64, u8),
}

/// Variant tags must be distinct within an enum: decode picks the first
/// match, so a duplicate could never round-trip.
pub open spec fn distinct_tags(vs: Seq<Variant>) -> bool {
    forall|i: int, j: int|
        0 <= i < j < vs.len() ==> vs[i].opts.tag != vs[j].opts.tag
}

/// Well-formedness of a layout: every enum carries a tag kind, its tag
/// constants fit that kind and are distinct. Schema construction
/// establishes this once; the codec engine relies on it.
pub open spec fn wf_ty(d: TypeDescriptor) -> bool
    decreases d, 0nat, 0nat,
{
    match d {
        TypeDescriptor::Primitive(_) => true,
        TypeDescriptor::FixedArray(elem, _) => wf_ty(*elem),
        TypeDescriptor::Tuple(ts) => wf_tys_from(ts@, 0),
        TypeDescriptor::Struct(_, fs) => wf_fields_from(fs@, 0),
        TypeDescriptor::Enum(opts, vs) => {
            &&& opts.tag is Some
            &&& distinct_tags(vs@)
            &&& wf_variants_from(vs@, opts.tag->0, 0)
        },
        TypeDescriptor::Padding(_) => true,
        TypeDescriptor::PadToAlign(_, _) => true,
    }
}

pub open spec fn wf_tys_from(ts: Seq<TypeDescriptor>, i: int) -> bool
    decreases ts, 0nat, ts.len() - i,
{
    if i < 0 || i >= ts.len() {
        true
    } else {
        wf_ty(ts[i]) && wf_tys_from(ts, i + 1)
    }
}

pub open spec fn wf_field(f: Field) -> bool
    decreases f, 0nat, 0nat,
{
    wf_ty(f.ty)
}

pub open spec fn wf_fields_from(fs: Seq<Field>, i: int) -> bool
    decreases fs, 0nat, fs.len() - i,
{
    if i < 0 || i >= fs.len() {
        true
    } else {
        wf_field(fs[i]) && wf_fields_from(fs, i + 1)
    }
}

pub open spec fn wf_variant(v: Variant, tagk: PrimKind) -> bool
    decreases v, 0nat, 0nat,
{
    &&& (v.opts.tag as nat) < crate::bytes::pow256(tagk.spec_width())
    &&& wf_fields_from(v.fields@, 0)
}

pub open spec fn wf_variants_from(vs: Seq<Variant>, tagk: PrimKind, i: int) -> bool
    decreases vs, 1nat, vs.len() - i,
{
    if i < 0 || i >= vs.len() {
        true
    } else {
        wf_variant(vs[i], tagk) && wf_variants_from(vs, tagk, i + 1)
    }
}


/// The largest residue a kind's width can hold.
fn max_residue(k: PrimKind) -> (r: u128)
    ensures
        r as nat == crate::bytes::pow256(k.spec_width()) - 1,
{
    proof {
        crate::bytes::lemma_pow256_vals();
    }
    match k {
        PrimKind::U8 => 0xFF,
        PrimKind::I8 => 0xFF,
        PrimKind::U16 => 0xFFFF,
        PrimKind::I16 => 0xFFFF,
        PrimKind::U32 => 0xFFFF_FFFF,
        PrimKind::I32 => 0xFFFF_FFFF,
        PrimKind::U64 => 0xFFFF_FFFF_FFFF_FFFF,
        PrimKind::I64 => 0xFFFF_FFFF_FFFF_FFFF,
        PrimKind::U128 => 0xFFFF_FFFF_FFFF_FFFF_FFFF_FFFF_FFFF_FFFF,
        PrimKind::I128 => 0xFFFF_FFFF_FFFF_FFFF_FFFF_FFFF_FFFF_FFFF,
    }
}

/// Whether all variant tags are pairwise distinct, decided at run time.
fn tags_distinct(variants: &Vec<Variant>) -> (r: bool)
    ensures
        r == distinct_tags(variants@),
{
    let n = variants.len();
    let mut i: usize = 0;
    while i < n
        invariant
            i <= n,
            n == variants@.len(),
            forall|a: int, b: int|
                0 <= a < b < n && a < i ==> variants@[a].opts.tag != variants@[b].opts.tag,
        decreases n - i,
    {
        let mut j: usize = i + 1;
        while j < n
            invariant
                i < j <= n,
                i < n,
                n == variants@.len(),
                forall|b: int| i < b < j ==> variants@[i as int].opts.tag != variants@[b].opts.tag,
            decreases n - j,
        {
            if variants[i].opts.tag == variants[j].opts.tag {
                return false;
            }
            j = j + 1;
        }
        i = i + 1;
    }
    true
}

/// Whether a layout is well-formed, decided at run time: what schema
/// construction must establish before the codec engine may be used.
pub fn descriptor_wf(d: &TypeDescriptor) -> (r: bool)
    ensures
        r == wf_ty(*d),
    decreases *d, 0nat, 2nat,
{
    match d {
        TypeDescriptor::Primitive(_) => true,
        TypeDescriptor::FixedArray(elem, _) => descriptor_wf(&**elem),
        TypeDescriptor::Tuple(ts) => tys_wf(ts),
        TypeDescriptor::Struct(_, fs) => fields_wf(fs),
        TypeDescriptor::Enum(opts, variants) => {
            let tagk = match opts.tag {
                Some(k) => k,
                None => {
                    return false;
                },
            };
            if !tags_distinct(variants) {
                return false;
            }
            variants_wf(variants, tagk)
        },
        TypeDescriptor::Padding(_) => true,
        TypeDescriptor::PadToAlign(_, _) => true,
    }
}

/// Whether a run of tuple elements is well-formed, decided at run time.
fn tys_wf(elems: &Vec<TypeDescriptor>) -> (r: bool)
    ensures
        r == wf_tys_from(elems@, 0),
    decreases elems@, 0nat, 0nat,
{
    let n = elems.len();
    let mut i: usize = 0;
    while i < n
        invariant
            i <= n,
            n == elems@.len(),
            wf_tys_from(elems@, 0) == wf_tys_from(elems@, i as int),
        decreases n - i,
    {
        proof {
            assert(decreases_to!(elems@ => elems@[i as int]));
        }
        if !descriptor_wf(&elems[i]) {
            return false;
        }
        i = i + 1;
    }
    true
}

/// Whether a run of fields is well-formed, decided at run time.
fn fields_wf(fields: &Vec<Field>) -> (r: bool)
    ensures
        r == wf_fields_from(fields@, 0),
    decreases fields@, 0nat, 0nat,
{
    let n = fields.len();
    let mut i: usize = 0;
    while i < n
        invariant
            i <= n,
            n == fields@.len(),
            wf_fields_from(fields@, 0) == wf_fields_from(fields@, i as int),
        decreases n - i,
    {
        proof {
            assert(decreases_to!(fields@ => fields@[i as int]));
            assert(decreases_to!(fields@[i as int] => fields@[i as int].ty));
        }
        proof {
            assert(wf_field(fields@[i as int]) == wf_ty(fields@[i as int].ty));
        }
        if !descriptor_wf(&fields[i].ty) {
            proof {
                assert(!wf_fields_from(fields@, i as int));
            }
            return false;
        }
        proof {
            assert(wf_fields_from(fields@, i as int) == wf_fields_from(fields@, i + 1));
        }
        i = i + 1;
    }
    true
}

/// Whether every variant's tag fits the tag kind and its fields are
/// well-formed, decided at run time.
fn variants_wf(variants: &Vec<Variant>, tagk: PrimKind) -> (r: bool)
    ensures
        r == wf_variants_from(variants@, tagk, 0),
    decreases variants@, 1nat, 0nat,
{
    let limit = max_residue(tagk);
    let n = variants.len();
    let mut i: usize = 0;
    while i < n
        invariant
            i <= n,
            n == variants@.len(),
            wf_variants_from(variants@, tagk, 0) == wf_variants_from(variants@, tagk, i as int),
            limit as nat == crate::bytes::pow256(tagk.spec_width()) - 1,
        decreases n - i,
    {
        proof {
            assert(decreases_to!(variants@ => variants@[i as int]));
            assert(decreases_to!(variants@[i as int] => variants@[i as int].fields));
        }
        proof {
            assert(wf_variant(variants@[i as int], tagk) == ((variants@[i as int].opts.tag as nat)
                < crate::bytes::pow256(tagk.spec_width()) && wf_fields_from(
                variants@[i as int].fields@,
                0,
            )));
        }
        if variants[i].opts.tag > limit {
            proof {
                assert(!wf_variants_from(variants@, tagk, i as int));
            }
            return false;
        }
        if !fields_wf(&variants[i].fields) {
            proof {
                assert(!wf_variants_from(variants@, tagk, i as int));
            }
            return false;
        }
        proof {
            assert(wf_variants_from(variants@, tagk, i as int) == wf_variants_from(
                variants@,
                tagk,
                i + 1,
            ));
        }
        i = i + 1;
    }
    true
}

} // verus!
