//! Padding and alignment: fixed-size skip/fill, and align-to-boundary
//! skip/fill driven by the stream's current position.

use vstd::prelude::*;

use crate::CodecError;
use crate::bytes::filled;
use crate::positional::{ReadCounter, WriteCounter};

verus! {

/// Read and discard exactly `len` bytes, whatever they hold.
pub fn consume_bytes(buffer: &mut ReadCounter, len: usize) -> (r: Result<(), CodecError>)
    ensures
        final(buffer).stream() == old(buffer).stream(),
        if old(buffer).cursor() + len <= old(buffer).stream().len() {
            r is Ok && final(buffer).cursor() == old(buffer).cursor() + len
        } else {
            r matches Err(e) && e == CodecError::UnexpectedEof && final(buffer).cursor() == old(
                buffer,
            ).cursor()
        },
{
    buffer.skip(len)
}

/// Append `len` copies of `byte`.
pub fn write_padding(buffer: &mut WriteCounter, byte: u8, len: usize) -> (r: Result<
    (),
    CodecError,
>)
    ensures
        r is Ok,
        final(buffer).stream() == old(buffer).stream() + filled(len as nat, byte),
{
    let mut i: usize = 0;
    while i < len
        invariant
            i <= len,
            buffer.stream() == old(buffer).stream() + filled(i as nat, byte),
        decreases len - i,
    {
        buffer.write_byte(byte);
        i = i + 1;
        assert(old(buffer).stream() + filled((i - 1) as nat, byte).push(byte) =~= old(
            buffer,
        ).stream() + filled(i as nat, byte));
    }
    Ok(())
}

/// The smallest padding that brings `pos` to a multiple of `align`;
/// alignments below 2 ask for none.
pub open spec fn pad_amount(align: int, pos: int) -> int {
    if align < 2 {
        0
    } else if pos % align == 0 {
        0
    } else {
        align - pos % align
    }
}

/// Padding never overshoots: it stops exactly on the boundary, and a
/// position already aligned gets no padding at all.
pub proof fn lemma_pad_amount(align: int, pos: int)
    requires
        0 <= pos,
        0 <= align,
    ensures
        0 <= pad_amount(align, pos),
        align >= 2 ==> pad_amount(align, pos) < align,
        align >= 2 ==> (pos + pad_amount(align, pos)) % align == 0,
        align >= 2 && pos % align == 0 ==> pad_amount(align, pos) == 0,
{
    if align >= 2 {
        let m = pos % align;
        assert(0 <= m < align);
        if m != 0 {
            assert((pos + (align - m)) % align == 0) by {
                vstd::arithmetic::div_mod::lemma_fundamental_div_mod(pos, align);
                assert(pos == align * (pos / align) + m);
                assert(pos + (align - m) == align * (pos / align + 1)) by (nonlinear_arith)
                    requires
                        pos == align * (pos / align) + m,
                ;
                assert((align * (pos / align + 1)) % align == 0) by (nonlinear_arith)
                    requires
                        align >= 2,
                ;
            };
        }
    }
}

/// The run-time form of `pad_amount`.
pub fn align_padding(align: u64, position: u64) -> (r: u64)
    ensures
        r == pad_amount(align as int, position as int),
{
    if align < 2 {
        return 0;
    }
    let offset = position % align;
    if offset == 0 {
        0
    } else {
        align - offset
    }
}

/// A zero-sized marker that consumes exactly N bytes when reading (content
/// ignored, not validated) and writes N zero bytes when writing.
#[derive(Clone, Copy, Debug)]
pub struct Padding<const N: usize> {}

/// A zero-sized marker that pads the stream to a multiple of N, writing the
/// fill byte P. Position comes from the stream itself, so alignment is
/// relative to the stream's own start. Any N is accepted, including 0 and
/// non-powers of two; N below 2 pads nothing.
#[derive(Clone, Copy, Debug)]
pub struct PadToAlign<const N: u64, const P: u8> {}

impl<const N: u64, const P: u8> PadToAlign<N, P> {
    /// How much padding a stream standing at `position` needs.
    pub fn padding_for(position: u64) -> (r: u64)
        ensures
            r == pad_amount(N as int, position as int),
    {
        align_padding(N, position)
    }
}

} // verus!
