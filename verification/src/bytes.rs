//! Little- and big-endian models of fixed-width unsigned integers, and the
//! trusted calls into `byteorder` that realise them on byte slices.

use vstd::prelude::*;

verus! {

/// 256^n: how many distinct values fit in n bytes.
pub open spec fn pow256(n: nat) -> nat
    decreases n,
{
    if n == 0 {
        1
    } else {
        256 * pow256((n - 1) as nat)
    }
}

pub proof fn lemma_pow256_pos(n: nat)
    ensures
        pow256(n) >= 1,
    decreases n,
{
    if n != 0 {
        lemma_pow256_pos((n - 1) as nat);
    }
}

/// More bytes never means fewer values.
pub proof fn lemma_pow256_mono(a: nat, b: nat)
    requires
        a <= b,
    ensures
        pow256(a) <= pow256(b),
    decreases b,
{
    if a < b {
        lemma_pow256_mono(a, (b - 1) as nat);
        lemma_pow256_pos((b - 1) as nat);
    }
}

/// The widths this library uses, written out.
pub proof fn lemma_pow256_vals()
    ensures
        pow256(1) == 0x100,
        pow256(2) == 0x1_0000,
        pow256(4) == 0x1_0000_0000,
        pow256(8) == 0x1_0000_0000_0000_0000,
        pow256(16) == 0x1_0000_0000_0000_0000_0000_0000_0000_0000,
{
    reveal_with_fuel(pow256, 17);
}

/// The value of a little-endian byte string (low byte first).
pub open spec fn le_val(s: Seq<u8>) -> nat
    decreases s.len(),
{
    if s.len() == 0 {
        0
    } else {
        (s[0] + 256 * le_val(s.drop_first())) as nat
    }
}

/// The n little-endian bytes of v.
pub open spec fn le_bytes(v: nat, n: nat) -> Seq<u8>
    decreases n,
{
    if n == 0 {
        Seq::empty()
    } else {
        seq![(v % 256) as u8] + le_bytes(v / 256, (n - 1) as nat)
    }
}

/// The value of a big-endian byte string (high byte first).
pub open spec fn be_val(s: Seq<u8>) -> nat
    decreases s.len(),
{
    if s.len() == 0 {
        0
    } else {
        (256 * be_val(s.drop_last()) + s.last()) as nat
    }
}

/// The n big-endian bytes of v.
pub open spec fn be_bytes(v: nat, n: nat) -> Seq<u8>
    decreases n,
{
    if n == 0 {
        Seq::empty()
    } else {
        be_bytes(v / 256, (n - 1) as nat) + seq![(v % 256) as u8]
    }
}

/// n copies of one byte.
pub open spec fn filled(n: nat, b: u8) -> Seq<u8> {
    Seq::new(n, |i: int| b)
}

pub proof fn lemma_le_bytes_len(v: nat, n: nat)
    ensures
        le_bytes(v, n).len() == n,
    decreases n,
{
    if n != 0 {
        lemma_le_bytes_len(v / 256, (n - 1) as nat);
    }
}

pub proof fn lemma_be_bytes_len(v: nat, n: nat)
    ensures
        be_bytes(v, n).len() == n,
    decreases n,
{
    if n != 0 {
        lemma_be_bytes_len(v / 256, (n - 1) as nat);
    }
}

pub proof fn lemma_le_val_bound(s: Seq<u8>)
    ensures
        le_val(s) < pow256(s.len()),
    decreases s.len(),
{
    if s.len() != 0 {
        lemma_le_val_bound(s.drop_first());
    }
}

pub proof fn lemma_be_val_bound(s: Seq<u8>)
    ensures
        be_val(s) < pow256(s.len()),
    decreases s.len(),
{
    if s.len() != 0 {
        lemma_be_val_bound(s.drop_last());
    }
}

/// Reading back the little-endian bytes of v yields v.
pub proof fn lemma_le_round_trip(v: nat, n: nat)
    requires
        v < pow256(n),
    ensures
        le_val(le_bytes(v, n)) == v,
    decreases n,
{
    if n != 0 {
        let d = (v % 256) as u8;
        let t = le_bytes(v / 256, (n - 1) as nat);
        assert(v / 256 < pow256((n - 1) as nat)) by {
            lemma_pow256_pos((n - 1) as nat);
        };
        lemma_le_round_trip(v / 256, (n - 1) as nat);
        assert((seq![d] + t).drop_first() =~= t);
        assert((seq![d] + t)[0] == d);
    }
}

/// Reading back the big-endian bytes of v yields v.
pub proof fn lemma_be_round_trip(v: nat, n: nat)
    requires
        v < pow256(n),
    ensures
        be_val(be_bytes(v, n)) == v,
    decreases n,
{
    if n != 0 {
        let d = (v % 256) as u8;
        let t = be_bytes(v / 256, (n - 1) as nat);
        assert(v / 256 < pow256((n - 1) as nat)) by {
            lemma_pow256_pos((n - 1) as nat);
        };
        lemma_be_round_trip(v / 256, (n - 1) as nat);
        lemma_be_bytes_len(v / 256, (n - 1) as nat);
        assert((t + seq![d]).drop_last() =~= t);
        assert((t + seq![d]).last() == d);
    }
}

/// The big-endian form is the little-endian form reversed.
pub proof fn lemma_le_be_reverse(v: nat, n: nat)
    ensures
        be_bytes(v, n) == le_bytes(v, n).reverse(),
    decreases n,
{
    if n == 0 {
        assert(le_bytes(v, n).reverse() =~= Seq::<u8>::empty());
    } else {
        let d = (v % 256) as u8;
        lemma_le_be_reverse(v / 256, (n - 1) as nat);
        lemma_le_bytes_len(v / 256, (n - 1) as nat);
        lemma_le_bytes_len(v, n);
        lemma_be_bytes_len(v, n);
        assert(be_bytes(v, n) =~= le_bytes(v, n).reverse());
    }
}

/// Relies on byteorder::LittleEndian::read_uint128: the whole slice, read as
/// an unsigned little-endian integer.
#[verifier::external_body]
pub(crate) fn read_uint_le(bytes: &[u8]) -> (r: u128)
    requires
        1 <= bytes@.len() <= 16,
    ensures
        r as nat == le_val(bytes@),
{
    <byteorder::LittleEndian as byteorder::ByteOrder>::read_uint128(bytes, bytes.len())
}

/// Relies on byteorder::BigEndian::read_uint128: the whole slice, read as an
/// unsigned big-endian integer.
#[verifier::external_body]
pub(crate) fn read_uint_be(bytes: &[u8]) -> (r: u128)
    requires
        1 <= bytes@.len() <= 16,
    ensures
        r as nat == be_val(bytes@),
{
    <byteorder::BigEndian as byteorder::ByteOrder>::read_uint128(bytes, bytes.len())
}

/// Relies on byteorder::LittleEndian::write_uint128: the low `width` bytes of
/// v, little-endian.
#[verifier::external_body]
pub(crate) fn write_uint_le(v: u128, width: usize) -> (r: Vec<u8>)
    requires
        1 <= width <= 16,
        (v as nat) < pow256(width as nat),
    ensures
        r@ == le_bytes(v as nat, width as nat),
{
    let mut buf = vec![0u8; 16];
    <byteorder::LittleEndian as byteorder::ByteOrder>::write_uint128(&mut buf[..width], v, width);
    buf.truncate(width);
    buf
}

/// Relies on byteorder::BigEndian::write_uint128: the low `width` bytes of v,
/// big-endian.
#[verifier::external_body]
pub(crate) fn write_uint_be(v: u128, width: usize) -> (r: Vec<u8>)
    requires
        1 <= width <= 16,
        (v as nat) < pow256(width as nat),
    ensures
        r@ == be_bytes(v as nat, width as nat),
{
    let mut buf = vec![0u8; 16];
    <byteorder::BigEndian as byteorder::ByteOrder>::write_uint128(&mut buf[..width], v, width);
    buf.truncate(width);
    buf
}

} // verus!
