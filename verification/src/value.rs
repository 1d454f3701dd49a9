//! Decoded values and their mathematical shape, plus the conformance
//! predicate that ties a value to its descriptor.

use vstd::prelude::*;

use crate::CodecError;
use crate::schema::{Field, PrimKind, TypeDescriptor};

verus! {

/// A decoded value. Its shape follows the descriptor it was decoded with:
/// arrays, tuples and structs are all `List`s of their element values, an
/// enum value names its variant by index, and padding decodes to `Unit`.
#[derive(Debug)]
pub enum Value {
    U8(u8),
    I8(i8),
    U16(u16),
    I16(i16),
    U32(u32),
    I32(i32),
    U64(u64),
    I64(i64),
    U128(u128),
    I128(i128),
    Unit,
    List(Vec<Value>),
    Variant(usize, Vec<Value>),
}

/// The mathematical shape of a `Value`.
pub ghost enum ValV {
    U8(u8),
    I8(i8),
    U16(u16),
    I16(i16),
    U32(u32),
    I32(i32),
    U64(u64),
    I64(i64),
    U128(u128),
    I128(i128),
    Unit,
    List(Seq<ValV>),
    Variant(int, Seq<ValV>),
}

pub open spec fn view_val(v: Value) -> ValV
    decreases v, 0nat, 0nat,
{
    match v {
        Value::U8(x) => ValV::U8(x),
        Value::I8(x) => ValV::I8(x),
        Value::U16(x) => ValV::U16(x),
        Value::I16(x) => ValV::I16(x),
        Value::U32(x) => ValV::U32(x),
        Value::I32(x) => ValV::I32(x),
        Value::U64(x) => ValV::U64(x),
        Value::I64(x) => ValV::I64(x),
        Value::U128(x) => ValV::U128(x),
        Value::I128(x) => ValV::I128(x),
        Value::Unit => ValV::Unit,
        Value::List(xs) => ValV::List(view_vals(xs@)),
        Value::Variant(j, xs) => ValV::Variant(j as int, view_vals(xs@)),
    }
}

pub open spec fn view_vals(s: Seq<Value>) -> Seq<ValV>
    decreases s, 1nat, 0nat,
{
    if s.len() == 0 {
        Seq::empty()
    } else {
        seq![view_val(s[0])] + view_vals(s.drop_first())
    }
}

impl View for Value {
    type V = ValV;

    open spec fn view(&self) -> ValV {
        view_val(*self)
    }
}

pub proof fn lemma_view_vals(s: Seq<Value>)
    ensures
        view_vals(s).len() == s.len(),
        forall|i: int| 0 <= i < s.len() ==> view_vals(s)[i] == view_val(s[i]),
    decreases s.len(),
{
    if s.len() != 0 {
        lemma_view_vals(s.drop_first());
        assert forall|i: int| 0 <= i < s.len() implies view_vals(s)[i] == view_val(s[i]) by {
            if i > 0 {
                assert(view_vals(s)[i] == view_vals(s.drop_first())[i - 1]);
                assert(s.drop_first()[i - 1] == s[i]);
            }
        };
    }
}

pub proof fn lemma_view_vals_push(s: Seq<Value>, v: Value)
    ensures
        view_vals(s.push(v)) == view_vals(s).push(view_val(v)),
{
    lemma_view_vals(s.push(v));
    lemma_view_vals(s);
    assert(view_vals(s.push(v)) =~= view_vals(s).push(view_val(v)));
}

/// Spec-level outcome of a decode: the value and the position after it, or
/// the error and the position where decoding stopped.
pub ghost enum DecR {
    Val(ValV, int),
    Fail(CodecError, int),
}

/// Spec-level outcome of decoding a run of values.
pub ghost enum DecLR {
    Vals(Seq<ValV>, int),
    Fail(CodecError, int),
}

/// Spec-level outcome of an encode: the bytes appended, or the error.
pub ghost enum EncR {
    Bytes(Seq<u8>),
    Fail(CodecError),
}

/// Whether a primitive value has the given kind.
pub open spec fn conforms_prim(k: PrimKind, v: ValV) -> bool {
    match (k, v) {
        (PrimKind::U8, ValV::U8(_)) => true,
        (PrimKind::I8, ValV::I8(_)) => true,
        (PrimKind::U16, ValV::U16(_)) => true,
        (PrimKind::I16, ValV::I16(_)) => true,
        (PrimKind::U32, ValV::U32(_)) => true,
        (PrimKind::I32, ValV::I32(_)) => true,
        (PrimKind::U64, ValV::U64(_)) => true,
        (PrimKind::I64, ValV::I64(_)) => true,
        (PrimKind::U128, ValV::U128(_)) => true,
        (PrimKind::I128, ValV::I128(_)) => true,
        _ => false,
    }
}

/// Schema conformance: the value has the shape the descriptor describes.
/// This is the domain on which encoding is defined.
pub open spec fn conforms(d: TypeDescriptor, v: ValV) -> bool
    decreases d, 0nat, 0nat,
{
    match d {
        TypeDescriptor::Primitive(k) => conforms_prim(k, v),
        TypeDescriptor::FixedArray(elem, n) => v matches ValV::List(vs) && vs.len() == n
            && conforms_list_from(*elem, vs, 0),
        TypeDescriptor::Tuple(ts) => v matches ValV::List(vs) && vs.len() == ts@.len()
            && conforms_tys_from(ts@, vs, 0),
        TypeDescriptor::Struct(_, fs) => v matches ValV::List(vs) && vs.len() == fs@.len()
            && conforms_fields_from(fs@, vs, 0),
        TypeDescriptor::Enum(_, variants) => v matches ValV::Variant(j, vs) && 0 <= j
            < variants@.len() && vs.len() == variants@[j].fields@.len() && conforms_fields_from(
            variants@[j].fields@,
            vs,
            0,
        ),
        TypeDescriptor::Padding(_) => v is Unit,
        TypeDescriptor::PadToAlign(_, _) => v is Unit,
    }
}

/// Conformance of a run of same-typed elements, from index i on.
pub open spec fn conforms_list_from(elem: TypeDescriptor, vs: Seq<ValV>, i: int) -> bool
    decreases elem, 1nat, vs.len() - i,
{
    if i < 0 || i >= vs.len() {
        true
    } else {
        conforms(elem, vs[i]) && conforms_list_from(elem, vs, i + 1)
    }
}

/// Conformance of tuple elements, from index i on.
pub open spec fn conforms_tys_from(ts: Seq<TypeDescriptor>, vs: Seq<ValV>, i: int) -> bool
    decreases ts, 0nat, ts.len() - i,
{
    if i < 0 || i >= ts.len() {
        true
    } else {
        conforms(ts[i], vs[i]) && conforms_tys_from(ts, vs, i + 1)
    }
}

/// Conformance of one field's value. A custom-codec field accepts any value
/// (the hook pair decides); a length-prefixed field holds a list of
/// conforming elements; otherwise the field's own type applies.
pub open spec fn conforms_field(f: Field, v: ValV) -> bool
    decreases f, 0nat, 0nat,
{
    if f.opts.custom_codec is Some {
        true
    } else if f.opts.length_prefix is Some {
        v matches ValV::List(vs) && conforms_list_from(f.ty, vs, 0)
    } else {
        conforms(f.ty, v)
    }
}

/// Conformance of a run of fields, from index i on.
pub open spec fn conforms_fields_from(fs: Seq<Field>, vs: Seq<ValV>, i: int) -> bool
    decreases fs, 0nat, fs.len() - i,
{
    if i < 0 || i >= fs.len() {
        true
    } else {
        conforms_field(fs[i], vs[i]) && conforms_fields_from(fs, vs, i + 1)
    }
}

/// Every list in the value is short enough to count in a `usize`. Values
/// built in memory always satisfy this; the round-trip law needs it because
/// decoding converts counts through `usize`.
pub open spec fn sizes_ok(v: ValV) -> bool
    decreases v, 0nat, 0nat,
{
    match v {
        ValV::List(vs) => vs.len() <= usize::MAX && sizes_ok_from(vs, 0),
        ValV::Variant(_, vs) => vs.len() <= usize::MAX && sizes_ok_from(vs, 0),
        _ => true,
    }
}

pub open spec fn sizes_ok_from(vs: Seq<ValV>, i: int) -> bool
    decreases vs, 1nat, vs.len() - i,
{
    if i < 0 || i >= vs.len() {
        true
    } else {
        sizes_ok(vs[i]) && sizes_ok_from(vs, i + 1)
    }
}

/// Structural equality of two values, decided at run time.
pub fn value_eq(a: &Value, b: &Value) -> (r: bool)
    ensures
        r == (a@ == b@),
    decreases *a, 0nat, 0nat,
{
    match (a, b) {
        (Value::U8(x), Value::U8(y)) => *x == *y,
        (Value::I8(x), Value::I8(y)) => *x == *y,
        (Value::U16(x), Value::U16(y)) => *x == *y,
        (Value::I16(x), Value::I16(y)) => *x == *y,
        (Value::U32(x), Value::U32(y)) => *x == *y,
        (Value::I32(x), Value::I32(y)) => *x == *y,
        (Value::U64(x), Value::U64(y)) => *x == *y,
        (Value::I64(x), Value::I64(y)) => *x == *y,
        (Value::U128(x), Value::U128(y)) => *x == *y,
        (Value::I128(x), Value::I128(y)) => *x == *y,
        (Value::Unit, Value::Unit) => true,
        (Value::List(xs), Value::List(ys)) => values_eq(xs, ys),
        (Value::Variant(j, xs), Value::Variant(k, ys)) => *j == *k && values_eq(xs, ys),
        _ => {
            proof {
                lemma_view_distinct(*a, *b);
            }
            false
        },
    }
}

/// Structural equality of two runs of values.
pub fn values_eq(a: &Vec<Value>, b: &Vec<Value>) -> (r: bool)
    ensures
        r == (view_vals(a@) == view_vals(b@)),
    decreases a@, 1nat, 0nat,
{
    proof {
        lemma_view_vals(a@);
        lemma_view_vals(b@);
    }
    if a.len() != b.len() {
        return false;
    }
    let n = a.len();
    let mut i: usize = 0;
    while i < n
        invariant
            i <= n,
            n == a@.len(),
            n == b@.len(),
            forall|k: int| 0 <= k < i ==> view_vals(a@)[k] == view_vals(b@)[k],
            view_vals(a@).len() == n,
            view_vals(b@).len() == n,
            forall|k: int|
                0 <= k < a@.len() ==> view_vals(a@)[k] == view_val(a@[k]),
            forall|k: int|
                0 <= k < b@.len() ==> view_vals(b@)[k] == view_val(b@[k]),
        decreases n - i,
    {
        proof {
            assert(decreases_to!(a@ => a@[i as int]));
        }
        if !value_eq(&a[i], &b[i]) {
            assert(view_vals(a@)[i as int] != view_vals(b@)[i as int]);
            return false;
        }
        i = i + 1;
    }
    assert(view_vals(a@) =~= view_vals(b@));
    true
}

/// Views of values with different heads differ.
proof fn lemma_view_distinct(a: Value, b: Value)
    ensures
        !value_same_head(a, b) ==> view_val(a) != view_val(b),
{
}

/// Whether two values have the same head constructor.
pub open spec fn value_same_head(a: Value, b: Value) -> bool {
    match (a, b) {
        (Value::U8(_), Value::U8(_)) => true,
        (Value::I8(_), Value::I8(_)) => true,
        (Value::U16(_), Value::U16(_)) => true,
        (Value::I16(_), Value::I16(_)) => true,
        (Value::U32(_), Value::U32(_)) => true,
        (Value::I32(_), Value::I32(_)) => true,
        (Value::U64(_), Value::U64(_)) => true,
        (Value::I64(_), Value::I64(_)) => true,
        (Value::U128(_), Value::U128(_)) => true,
        (Value::I128(_), Value::I128(_)) => true,
        (Value::Unit, Value::Unit) => true,
        (Value::List(_), Value::List(_)) => true,
        (Value::Variant(_, _), Value::Variant(_, _)) => true,
        _ => false,
    }
}


/// Whether a value has the shape a descriptor describes, decided at run
/// time: the executable face of `conforms`, for callers that take values
/// from outside.
pub fn value_conforms(d: &TypeDescriptor, v: &Value) -> (r: bool)
    ensures
        r == conforms(*d, view_val(*v)),
    decreases *d, 0nat, 2nat,
{
    match (d, v) {
        (TypeDescriptor::Primitive(k), _) => prim_matches(*k, v),
        (TypeDescriptor::FixedArray(elem, n), Value::List(items)) => {
            proof {
                lemma_view_vals(items@);
            }
            items.len() == *n && list_conforms(&**elem, items)
        },
        (TypeDescriptor::Tuple(ts), Value::List(items)) => {
            proof {
                lemma_view_vals(items@);
            }
            items.len() == ts.len() && tuple_conforms(ts, items)
        },
        (TypeDescriptor::Struct(_, fs), Value::List(items)) => {
            proof {
                lemma_view_vals(items@);
            }
            items.len() == fs.len() && field_list_conforms(fs, items)
        },
        (TypeDescriptor::Enum(_, variants), Value::Variant(j, items)) => {
            proof {
                lemma_view_vals(items@);
            }
            *j < variants.len() && items.len() == variants[*j].fields.len()
                && field_list_conforms(&variants[*j].fields, items)
        },
        (TypeDescriptor::Padding(_), Value::Unit) => true,
        (TypeDescriptor::PadToAlign(_, _), Value::Unit) => true,
        _ => {
            proof {
                lemma_view_heads(*d, *v);
            }
            false
        },
    }
}

/// Mismatched descriptor and value heads never conform.
proof fn lemma_view_heads(d: TypeDescriptor, v: Value)
    ensures
        !(v is List) ==> !(view_val(v) is List),
        !(v is Variant) ==> !(view_val(v) is Variant),
        !(v is Unit) ==> !(view_val(v) is Unit),
{
}

/// Whether a primitive value has the given kind, decided at run time.
fn prim_matches(k: PrimKind, v: &Value) -> (r: bool)
    ensures
        r == conforms_prim(k, view_val(*v)),
{
    match (k, v) {
        (PrimKind::U8, Value::U8(_)) => true,
        (PrimKind::I8, Value::I8(_)) => true,
        (PrimKind::U16, Value::U16(_)) => true,
        (PrimKind::I16, Value::I16(_)) => true,
        (PrimKind::U32, Value::U32(_)) => true,
        (PrimKind::I32, Value::I32(_)) => true,
        (PrimKind::U64, Value::U64(_)) => true,
        (PrimKind::I64, Value::I64(_)) => true,
        (PrimKind::U128, Value::U128(_)) => true,
        (PrimKind::I128, Value::I128(_)) => true,
        _ => false,
    }
}

/// Whether every element conforms to one layout, decided at run time.
fn list_conforms(elem: &TypeDescriptor, items: &Vec<Value>) -> (r: bool)
    ensures
        r == conforms_list_from(*elem, view_vals(items@), 0),
    decreases *elem, 1nat, 0nat,
{
    let ghost vvs = view_vals(items@);
    proof {
        lemma_view_vals(items@);
    }
    let n = items.len();
    let mut i: usize = 0;
    while i < n
        invariant
            i <= n,
            n == items@.len(),
            vvs == view_vals(items@),
            vvs.len() == n,
            forall|q: int| 0 <= q < n ==> vvs[q] == view_val(items@[q]),
            conforms_list_from(*elem, vvs, 0) == conforms_list_from(*elem, vvs, i as int),
        decreases n - i,
    {
        if !value_conforms(elem, &items[i]) {
            proof {
                assert(!conforms_list_from(*elem, vvs, i as int));
            }
            return false;
        }
        i = i + 1;
    }
    true
}

/// Whether tuple elements conform position by position, decided at run
/// time.
fn tuple_conforms(elems: &Vec<TypeDescriptor>, items: &Vec<Value>) -> (r: bool)
    requires
        elems@.len() == items@.len(),
    ensures
        r == conforms_tys_from(elems@, view_vals(items@), 0),
    decreases elems@, 0nat, 0nat,
{
    let ghost vvs = view_vals(items@);
    proof {
        lemma_view_vals(items@);
    }
    let n = elems.len();
    let mut i: usize = 0;
    while i < n
        invariant
            i <= n,
            n == elems@.len(),
            n == items@.len(),
            vvs == view_vals(items@),
            vvs.len() == n,
            forall|q: int| 0 <= q < n ==> vvs[q] == view_val(items@[q]),
            conforms_tys_from(elems@, vvs, 0) == conforms_tys_from(elems@, vvs, i as int),
        decreases n - i,
    {
        proof {
            assert(decreases_to!(elems@ => elems@[i as int]));
        }
        if !value_conforms(&elems[i], &items[i]) {
            proof {
                assert(!conforms_tys_from(elems@, vvs, i as int));
            }
            return false;
        }
        i = i + 1;
    }
    true
}

/// Whether one field's value conforms, decided at run time.
fn field_conforms(f: &Field, v: &Value) -> (r: bool)
    ensures
        r == conforms_field(*f, view_val(*v)),
    decreases *f, 0nat, 0nat,
{
    if f.opts.custom_codec.is_some() {
        true
    } else if f.opts.length_prefix.is_some() {
        match v {
            Value::List(items) => list_conforms(&f.ty, items),
            _ => {
                proof {
                    lemma_view_heads(f.ty, *v);
                }
                false
            },
        }
    } else {
        value_conforms(&f.ty, v)
    }
}

/// Whether each field's value conforms, field by field, decided at run
/// time.
fn field_list_conforms(fields: &Vec<Field>, items: &Vec<Value>) -> (r: bool)
    requires
        fields@.len() == items@.len(),
    ensures
        r == conforms_fields_from(fields@, view_vals(items@), 0),
    decreases fields@, 0nat, 0nat,
{
    let ghost vvs = view_vals(items@);
    proof {
        lemma_view_vals(items@);
    }
    let n = fields.len();
    let mut i: usize = 0;
    while i < n
        invariant
            i <= n,
            n == fields@.len(),
            n == items@.len(),
            vvs == view_vals(items@),
            vvs.len() == n,
            forall|q: int| 0 <= q < n ==> vvs[q] == view_val(items@[q]),
            conforms_fields_from(fields@, vvs, 0) == conforms_fields_from(fields@, vvs, i as int),
        decreases n - i,
    {
        proof {
            assert(decreases_to!(fields@ => fields@[i as int]));
        }
        if !field_conforms(&fields[i], &items[i]) {
            proof {
                assert(!conforms_fields_from(fields@, vvs, i as int));
            }
            return false;
        }
        i = i + 1;
    }
    true
}

} // verus!
