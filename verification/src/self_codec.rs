//! Types that read and write themselves. These traits are the typed face of
//! the engine: a spec function in each trait pins what the implementation
//! does to the stream, so every implementation carries its wire format in
//! its contract.

use vstd::prelude::*;

use crate::CodecError;
use crate::bytes::filled;
use crate::bytes::lemma_pow256_vals;
use crate::codec::{bytes_of, dec_raw, read_raw, resolve, val_of, write_raw};
use crate::grammar::{consume_bytes, pad_amount, write_padding, PadToAlign, Padding};
use crate::positional::{PositionAware, ReadCounter, WriteCounter};
use crate::schema::{Endian, PrimKind};

verus! {

/// A type that can read one value of itself from a stream. `spec_read`
/// says exactly which value the bytes at the cursor denote and where the
/// cursor lands; reads fail only by running out of bytes.
pub trait ReadSelf: Sized {
    /// What `read_from` does on `data` starting at `pos`.
    spec fn spec_read(data: Seq<u8>, pos: int) -> Option<(Self, int)>;

    fn read_from(buffer: &mut ReadCounter) -> (r: Result<Self, CodecError>)
        ensures
            final(buffer).stream() == old(buffer).stream(),
            match Self::spec_read(old(buffer).stream(), old(buffer).cursor() as int) {
                Some(pair) => r matches Ok(x) && x == pair.0 && final(buffer).cursor() as int
                    == pair.1,
                None => r matches Err(e) && e == CodecError::UnexpectedEof && final(buffer).cursor() == old(buffer).cursor(),
            },
    ;
}

/// A type that can overwrite an existing value of itself from a stream,
/// reusing the memory it already owns. Same wire shape as `ReadSelf`.
pub trait ReadIntoSelf: ReadSelf {
    fn read_into(&mut self, buffer: &mut ReadCounter) -> (r: Result<(), CodecError>)
        ensures
            final(buffer).stream() == old(buffer).stream(),
            match Self::spec_read(old(buffer).stream(), old(buffer).cursor() as int) {
                Some(pair) => r is Ok && *final(self) == pair.0 && final(buffer).cursor() as int
                    == pair.1,
                None => r matches Err(e) && e == CodecError::UnexpectedEof && final(buffer).cursor() == old(buffer).cursor() && *final(self) == *old(self),
            },
    ;
}

/// A type that can write one value of itself to a stream. `spec_write`
/// gives the bytes appended, as a function of the value and the position
/// the stream stands at; writes to an in-memory stream cannot fail.
pub trait WriteSelf: Sized {
    /// The bytes `write_to` appends when the stream stands at `pos`.
    spec fn spec_write(&self, pos: int) -> Seq<u8>;

    fn write_to(&self, buffer: &mut WriteCounter) -> (r: Result<(), CodecError>)
        ensures
            r is Ok,
            final(buffer).stream() == old(buffer).stream() + self.spec_write(
                old(buffer).stream().len() as int,
            ),
    ;
}

/// A multi-byte integer that reads itself under an explicit byte order.
pub trait ReadSelfEndian: Sized {
    /// What `read_from` does on `data` at `pos` under order `e`.
    spec fn spec_read_endian(e: Endian, data: Seq<u8>, pos: int) -> Option<(Self, int)>;

    fn read_from(buffer: &mut ReadCounter, endian: Endian) -> (r: Result<Self, CodecError>)
        ensures
            final(buffer).stream() == old(buffer).stream(),
            match Self::spec_read_endian(endian, old(buffer).stream(), old(buffer).cursor()
                as int) {
                Some(pair) => r matches Ok(x) && x == pair.0 && final(buffer).cursor() as int
                    == pair.1,
                None => r matches Err(e) && e == CodecError::UnexpectedEof && final(buffer).cursor() == old(buffer).cursor(),
            },
    ;
}

/// A multi-byte integer that writes itself under an explicit byte order.
pub trait WriteSelfEndian: Sized {
    /// The bytes `write_to` appends under order `e`.
    spec fn spec_write_endian(&self, e: Endian) -> Seq<u8>;

    fn write_to(&self, buffer: &mut WriteCounter, endian: Endian) -> (r: Result<(), CodecError>)
        ensures
            r is Ok,
            final(buffer).stream() == old(buffer).stream() + self.spec_write_endian(endian),
    ;
}

impl ReadSelf for u8 {
    open spec fn spec_read(data: Seq<u8>, pos: int) -> Option<(u8, int)> {
        if 0 <= pos && pos + 1 <= data.len() {
            Some((data[pos], pos + 1))
        } else {
            None
        }
    }

    fn read_from(buffer: &mut ReadCounter) -> (r: Result<u8, CodecError>) {
        match buffer.read_exact(1) {
            Ok(bytes) => Ok(bytes[0]),
            Err(e) => Err(e),
        }
    }
}

impl ReadIntoSelf for u8 {
    fn read_into(&mut self, buffer: &mut ReadCounter) -> (r: Result<(), CodecError>) {
        match buffer.read_exact(1) {
            Ok(bytes) => {
                *self = bytes[0];
                Ok(())
            },
            Err(e) => Err(e),
        }
    }
}

impl WriteSelf for u8 {
    open spec fn spec_write(&self, pos: int) -> Seq<u8> {
        seq![*self]
    }

    fn write_to(&self, buffer: &mut WriteCounter) -> (r: Result<(), CodecError>) {
        buffer.write_byte(*self);
        proof {
            assert(old(buffer).stream().push(*self) =~= old(buffer).stream() + seq![*self]);
        }
        Ok(())
    }
}

impl ReadSelf for i8 {
    open spec fn spec_read(data: Seq<u8>, pos: int) -> Option<(i8, int)> {
        if 0 <= pos && pos + 1 <= data.len() {
            Some(
                (
                    if data[pos] < 0x80 {
                        data[pos] as i8
                    } else {
                        (data[pos] - 0x100) as i8
                    },
                    pos + 1,
                ),
            )
        } else {
            None
        }
    }

    fn read_from(buffer: &mut ReadCounter) -> (r: Result<i8, CodecError>) {
        match buffer.read_exact(1) {
            Ok(bytes) => {
                let b = bytes[0];
                if b < 0x80 {
                    Ok(b as i8)
                } else {
                    Ok(((b as i16) - 0x100) as i8)
                }
            },
            Err(e) => Err(e),
        }
    }
}

impl WriteSelf for i8 {
    open spec fn spec_write(&self, pos: int) -> Seq<u8> {
        seq![(((*self as int) % 0x100) as u8)]
    }

    fn write_to(&self, buffer: &mut WriteCounter) -> (r: Result<(), CodecError>) {
        let b: u8 = if *self >= 0 {
            *self as u8
        } else {
            ((*self as i16) + 0x100) as u8
        };
        buffer.write_byte(b);
        proof {
            assert(old(buffer).stream().push(b) =~= old(buffer).stream() + seq![b]);
        }
        Ok(())
    }
}

impl<const N: usize> ReadSelf for Padding<N> {
    open spec fn spec_read(data: Seq<u8>, pos: int) -> Option<(Padding<N>, int)> {
        if 0 <= pos && pos + N <= data.len() {
            Some((Padding {  }, pos + N))
        } else {
            None
        }
    }

    fn read_from(buffer: &mut ReadCounter) -> (r: Result<Padding<N>, CodecError>) {
        match consume_bytes(buffer, N) {
            Ok(_) => Ok(Padding {  }),
            Err(e) => Err(e),
        }
    }
}

impl<const N: usize> ReadIntoSelf for Padding<N> {
    fn read_into(&mut self, buffer: &mut ReadCounter) -> (r: Result<(), CodecError>) {
        match consume_bytes(buffer, N) {
            Ok(_) => Ok(()),
            Err(e) => Err(e),
        }
    }
}

impl<const N: usize> WriteSelf for Padding<N> {
    open spec fn spec_write(&self, pos: int) -> Seq<u8> {
        filled(N as nat, 0)
    }

    fn write_to(&self, buffer: &mut WriteCounter) -> (r: Result<(), CodecError>) {
        write_padding(buffer, 0, N)
    }
}

impl<const N: u64, const P: u8> ReadSelf for PadToAlign<N, P> {
    open spec fn spec_read(data: Seq<u8>, pos: int) -> Option<(PadToAlign<N, P>, int)> {
        let pad = pad_amount(N as int, pos);
        if 0 <= pos && pos + pad <= data.len() {
            Some((PadToAlign {  }, pos + pad))
        } else {
            None
        }
    }

    fn read_from(buffer: &mut ReadCounter) -> (r: Result<PadToAlign<N, P>, CodecError>) {
        let pad = Self::padding_for(buffer.position());
        let rem = buffer.remaining();
        if pad > rem as u64 {
            Err(CodecError::UnexpectedEof)
        } else {
            match consume_bytes(buffer, pad as usize) {
                Ok(_) => Ok(PadToAlign {  }),
                Err(e) => Err(e),
            }
        }
    }
}

impl<const N: u64, const P: u8> ReadIntoSelf for PadToAlign<N, P> {
    fn read_into(&mut self, buffer: &mut ReadCounter) -> (r: Result<(), CodecError>) {
        let pad = Self::padding_for(buffer.position());
        let rem = buffer.remaining();
        if pad > rem as u64 {
            Err(CodecError::UnexpectedEof)
        } else {
            match consume_bytes(buffer, pad as usize) {
                Ok(_) => Ok(()),
                Err(e) => Err(e),
            }
        }
    }
}

impl<const N: u64, const P: u8> WriteSelf for PadToAlign<N, P> {
    open spec fn spec_write(&self, pos: int) -> Seq<u8> {
        filled(pad_amount(N as int, pos) as nat, P)
    }

    fn write_to(&self, buffer: &mut WriteCounter) -> (r: Result<(), CodecError>) {
        let pad = Self::padding_for(buffer.position());
        let mut k: u64 = 0;
        let ghost pre = buffer.stream();
        while k < pad
            invariant
                k <= pad,
                pre == old(buffer).stream(),
                pad == pad_amount(N as int, pre.len() as int),
                buffer.stream() == pre + filled(k as nat, P),
            decreases pad - k,
        {
            buffer.write_byte(P);
            k = k + 1;
            assert((pre + filled((k - 1) as nat, P)).push(P) =~= pre + filled(k as nat, P));
        }
        Ok(())
    }
}


impl ReadSelfEndian for u16 {
    open spec fn spec_read_endian(e: Endian, data: Seq<u8>, pos: int) -> Option<(u16, int)> {
        match dec_raw(PrimKind::U16, e, data, pos) {
            Some(r) => Some(((r as u16), pos + 2)),
            None => None,
        }
    }

    fn read_from(buffer: &mut ReadCounter, endian: Endian) -> (r: Result<u16, CodecError>) {
        proof {
            lemma_pow256_vals();
        }
        match read_raw(PrimKind::U16, endian, buffer) {
            Ok(raw) => Ok(raw as u16),
            Err(e) => Err(e),
        }
    }
}

impl WriteSelfEndian for u16 {
    open spec fn spec_write_endian(&self, e: Endian) -> Seq<u8> {
        bytes_of(*self as nat, 2, e)
    }

    fn write_to(&self, buffer: &mut WriteCounter, endian: Endian) -> (r: Result<(), CodecError>) {
        proof {
            lemma_pow256_vals();
        }
        write_raw(PrimKind::U16, endian, *self as u128, buffer);
        Ok(())
    }
}

impl ReadSelfEndian for i16 {
    open spec fn spec_read_endian(e: Endian, data: Seq<u8>, pos: int) -> Option<(i16, int)> {
        match dec_raw(PrimKind::I16, e, data, pos) {
            Some(r) => Some(
                (
                    if r < 0x8000 {
                        r as i16
                    } else {
                        (r - 0x1_0000) as i16
                    },
                    pos + 2,
                ),
            ),
            None => None,
        }
    }

    fn read_from(buffer: &mut ReadCounter, endian: Endian) -> (r: Result<i16, CodecError>) {
        proof {
            lemma_pow256_vals();
        }
        match read_raw(PrimKind::I16, endian, buffer) {
            Ok(raw) => {
                if raw < 0x8000 {
                    Ok(raw as i16)
                } else {
                    Ok(((raw as i32) - 0x1_0000i32) as i16)
                }
            },
            Err(e) => Err(e),
        }
    }
}

impl WriteSelfEndian for i16 {
    open spec fn spec_write_endian(&self, e: Endian) -> Seq<u8> {
        bytes_of((((*self as int) % 0x1_0000) as nat), 2, e)
    }

    fn write_to(&self, buffer: &mut WriteCounter, endian: Endian) -> (r: Result<(), CodecError>) {
        proof {
            lemma_pow256_vals();
        }
        let res: u128 = if *self >= 0 {
            *self as u128
        } else {
            ((*self as i32) + 0x1_0000i32) as u128
        };
        write_raw(PrimKind::I16, endian, res, buffer);
        Ok(())
    }
}

impl ReadSelfEndian for u32 {
    open spec fn spec_read_endian(e: Endian, data: Seq<u8>, pos: int) -> Option<(u32, int)> {
        match dec_raw(PrimKind::U32, e, data, pos) {
            Some(r) => Some(((r as u32), pos + 4)),
            None => None,
        }
    }

    fn read_from(buffer: &mut ReadCounter, endian: Endian) -> (r: Result<u32, CodecError>) {
        proof {
            lemma_pow256_vals();
        }
        match read_raw(PrimKind::U32, endian, buffer) {
            Ok(raw) => Ok(raw as u32),
            Err(e) => Err(e),
        }
    }
}

impl WriteSelfEndian for u32 {
    open spec fn spec_write_endian(&self, e: Endian) -> Seq<u8> {
        bytes_of(*self as nat, 4, e)
    }

    fn write_to(&self, buffer: &mut WriteCounter, endian: Endian) -> (r: Result<(), CodecError>) {
        proof {
            lemma_pow256_vals();
        }
        write_raw(PrimKind::U32, endian, *self as u128, buffer);
        Ok(())
    }
}

impl ReadSelfEndian for i32 {
    open spec fn spec_read_endian(e: Endian, data: Seq<u8>, pos: int) -> Option<(i32, int)> {
        match dec_raw(PrimKind::I32, e, data, pos) {
            Some(r) => Some(
                (
                    if r < 0x8000_0000 {
                        r as i32
                    } else {
                        (r - 0x1_0000_0000) as i32
                    },
                    pos + 4,
                ),
            ),
            None => None,
        }
    }

    fn read_from(buffer: &mut ReadCounter, endian: Endian) -> (r: Result<i32, CodecError>) {
        proof {
            lemma_pow256_vals();
        }
        match read_raw(PrimKind::I32, endian, buffer) {
            Ok(raw) => {
                if raw < 0x8000_0000 {
                    Ok(raw as i32)
                } else {
                    Ok(((raw as i64) - 0x1_0000_0000i64) as i32)
                }
            },
            Err(e) => Err(e),
        }
    }
}

impl WriteSelfEndian for i32 {
    open spec fn spec_write_endian(&self, e: Endian) -> Seq<u8> {
        bytes_of((((*self as int) % 0x1_0000_0000) as nat), 4, e)
    }

    fn write_to(&self, buffer: &mut WriteCounter, endian: Endian) -> (r: Result<(), CodecError>) {
        proof {
            lemma_pow256_vals();
        }
        let res: u128 = if *self >= 0 {
            *self as u128
        } else {
            ((*self as i64) + 0x1_0000_0000i64) as u128
        };
        write_raw(PrimKind::I32, endian, res, buffer);
        Ok(())
    }
}

impl ReadSelfEndian for u64 {
    open spec fn spec_read_endian(e: Endian, data: Seq<u8>, pos: int) -> Option<(u64, int)> {
        match dec_raw(PrimKind::U64, e, data, pos) {
            Some(r) => Some(((r as u64), pos + 8)),
            None => None,
        }
    }

    fn read_from(buffer: &mut ReadCounter, endian: Endian) -> (r: Result<u64, CodecError>) {
        proof {
            lemma_pow256_vals();
        }
        match read_raw(PrimKind::U64, endian, buffer) {
            Ok(raw) => Ok(raw as u64),
            Err(e) => Err(e),
        }
    }
}

impl WriteSelfEndian for u64 {
    open spec fn spec_write_endian(&self, e: Endian) -> Seq<u8> {
        bytes_of(*self as nat, 8, e)
    }

    fn write_to(&self, buffer: &mut WriteCounter, endian: Endian) -> (r: Result<(), CodecError>) {
        proof {
            lemma_pow256_vals();
        }
        write_raw(PrimKind::U64, endian, *self as u128, buffer);
        Ok(())
    }
}

impl ReadSelfEndian for i64 {
    open spec fn spec_read_endian(e: Endian, data: Seq<u8>, pos: int) -> Option<(i64, int)> {
        match dec_raw(PrimKind::I64, e, data, pos) {
            Some(r) => Some(
                (
                    if r < 0x8000_0000_0000_0000 {
                        r as i64
                    } else {
                        (r - 0x1_0000_0000_0000_0000) as i64
                    },
                    pos + 8,
                ),
            ),
            None => None,
        }
    }

    fn read_from(buffer: &mut ReadCounter, endian: Endian) -> (r: Result<i64, CodecError>) {
        proof {
            lemma_pow256_vals();
        }
        match read_raw(PrimKind::I64, endian, buffer) {
            Ok(raw) => {
                if raw < 0x8000_0000_0000_0000 {
                    Ok(raw as i64)
                } else {
                    Ok(((raw as i128) - 0x1_0000_0000_0000_0000i128) as i64)
                }
            },
            Err(e) => Err(e),
        }
    }
}

impl WriteSelfEndian for i64 {
    open spec fn spec_write_endian(&self, e: Endian) -> Seq<u8> {
        bytes_of((((*self as int) % 0x1_0000_0000_0000_0000) as nat), 8, e)
    }

    fn write_to(&self, buffer: &mut WriteCounter, endian: Endian) -> (r: Result<(), CodecError>) {
        proof {
            lemma_pow256_vals();
        }
        let res: u128 = if *self >= 0 {
            *self as u128
        } else {
            ((*self as i128) + 0x1_0000_0000_0000_0000i128) as u128
        };
        write_raw(PrimKind::I64, endian, res, buffer);
        Ok(())
    }
}

impl ReadSelfEndian for u128 {
    open spec fn spec_read_endian(e: Endian, data: Seq<u8>, pos: int) -> Option<(u128, int)> {
        match dec_raw(PrimKind::U128, e, data, pos) {
            Some(r) => Some(((r as u128), pos + 16)),
            None => None,
        }
    }

    fn read_from(buffer: &mut ReadCounter, endian: Endian) -> (r: Result<u128, CodecError>) {
        proof {
            lemma_pow256_vals();
        }
        match read_raw(PrimKind::U128, endian, buffer) {
            Ok(raw) => Ok(raw as u128),
            Err(e) => Err(e),
        }
    }
}

impl WriteSelfEndian for u128 {
    open spec fn spec_write_endian(&self, e: Endian) -> Seq<u8> {
        bytes_of(*self as nat, 16, e)
    }

    fn write_to(&self, buffer: &mut WriteCounter, endian: Endian) -> (r: Result<(), CodecError>) {
        proof {
            lemma_pow256_vals();
        }
        write_raw(PrimKind::U128, endian, *self as u128, buffer);
        Ok(())
    }
}

impl ReadSelfEndian for i128 {
    open spec fn spec_read_endian(e: Endian, data: Seq<u8>, pos: int) -> Option<(i128, int)> {
        match dec_raw(PrimKind::I128, e, data, pos) {
            Some(r) => Some(
                (
                    if r < 0x8000_0000_0000_0000_0000_0000_0000_0000int {
                        r as i128
                    } else {
                        (r - 0x1_0000_0000_0000_0000_0000_0000_0000_0000int) as i128
                    },
                    pos + 16,
                ),
            ),
            None => None,
        }
    }

    fn read_from(buffer: &mut ReadCounter, endian: Endian) -> (r: Result<i128, CodecError>) {
        proof {
            lemma_pow256_vals();
        }
        match read_raw(PrimKind::I128, endian, buffer) {
            Ok(raw) => {
                if raw < 0x8000_0000_0000_0000_0000_0000_0000_0000u128 {
                    Ok(raw as i128)
                } else {
                    Ok(-((u128::MAX - raw) as i128) - 1)
                }
            },
            Err(e) => Err(e),
        }
    }
}

impl WriteSelfEndian for i128 {
    open spec fn spec_write_endian(&self, e: Endian) -> Seq<u8> {
        bytes_of(
            (((*self as int) % 0x1_0000_0000_0000_0000_0000_0000_0000_0000int) as nat),
            16,
            e,
        )
    }

    fn write_to(&self, buffer: &mut WriteCounter, endian: Endian) -> (r: Result<(), CodecError>) {
        proof {
            lemma_pow256_vals();
        }
        let res: u128 = if *self >= 0 {
            *self as u128
        } else {
            u128::MAX - ((-(*self + 1)) as u128)
        };
        write_raw(PrimKind::I128, endian, res, buffer);
        Ok(())
    }
}

} // verus!
