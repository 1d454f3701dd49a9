//! Custom field codecs. A field may name a decode/encode hook pair that
//! replaces the generic dispatch for that field; the pair is selected by id
//! from a `CodecHooks` implementation handed to the engine.

use vstd::prelude::*;

use crate::CodecError;
use crate::bytes::{be_bytes, be_val, lemma_be_bytes_len, lemma_be_round_trip, lemma_be_val_bound,
    lemma_pow256_vals, read_uint_be, write_uint_be};
use crate::positional::{ReadCounter, WriteCounter};
use crate::value::{DecR, ValV, Value, view_val};

verus! {

/// A family of decode/encode hook pairs, selected by id. The two spec
/// functions say what each half does; the law ties them together so that
/// hooked fields still round-trip.
pub trait CodecHooks: Sized {
    /// What the encode half of pair `id` emits for `v`; `None` when the
    /// hook rejects the value.
    spec fn hook_wire(&self, id: u64, v: ValV) -> Option<Seq<u8>>;

    /// What the decode half of pair `id` does on `data` starting at `pos`.
    spec fn hook_read(&self, id: u64, data: Seq<u8>, pos: int) -> DecR;

    /// Law: the decode half reads back exactly what the encode half emitted,
    /// whatever follows it on the stream.
    proof fn hook_round_trip(&self, id: u64, v: ValV, b: Seq<u8>, data: Seq<u8>, pos: int)
        requires
            self.hook_wire(id, v) == Some(b),
            0 <= pos,
            pos + b.len() <= data.len(),
            data.subrange(pos, pos + b.len() as int) == b,
        ensures
            self.hook_read(id, data, pos) == DecR::Val(v, pos + b.len()),
    ;

    /// Run the decode half of pair `id` on the stream.
    fn read_hook(&self, id: u64, buffer: &mut ReadCounter) -> (r: Result<Value, CodecError>)
        ensures
            final(buffer).stream() == old(buffer).stream(),
            match self.hook_read(id, old(buffer).stream(), old(buffer).cursor() as int) {
                DecR::Val(v, p) => r matches Ok(x) && view_val(x) == v && final(buffer).cursor()
                    as int == p,
                DecR::Fail(e, p) => r matches Err(x) && x == e && final(buffer).cursor() as int
                    == p,
            },
    ;

    /// Run the encode half of pair `id`, appending to the stream.
    fn write_hook(&self, id: u64, value: &Value, buffer: &mut WriteCounter) -> (r: Result<
        (),
        CodecError,
    >)
        ensures
            match self.hook_wire(id, view_val(*value)) {
                Some(b) => r is Ok && final(buffer).stream() == old(buffer).stream() + b,
                None => r matches Err(e) && e == CodecError::CustomHookFailure
                    && final(buffer).stream() == old(buffer).stream(),
            },
    ;
}

/// Hooks for schemas that declare no custom field codec: every id rejects
/// every value and every stream.
pub struct NoHooks {}

impl CodecHooks for NoHooks {
    open spec fn hook_wire(&self, id: u64, v: ValV) -> Option<Seq<u8>> {
        None
    }

    open spec fn hook_read(&self, id: u64, data: Seq<u8>, pos: int) -> DecR {
        DecR::Fail(CodecError::CustomHookFailure, pos)
    }

    proof fn hook_round_trip(&self, id: u64, v: ValV, b: Seq<u8>, data: Seq<u8>, pos: int) {
    }

    fn read_hook(&self, id: u64, buffer: &mut ReadCounter) -> (r: Result<Value, CodecError>) {
        Err(CodecError::CustomHookFailure)
    }

    fn write_hook(&self, id: u64, value: &Value, buffer: &mut WriteCounter) -> (r: Result<
        (),
        CodecError,
    >) {
        Err(CodecError::CustomHookFailure)
    }
}

/// A sample hook pair, for fields carried as a raw big-endian `u64`
/// whatever the surrounding options say: every id maps a `U64` value to its
/// eight big-endian bytes and rejects anything else.
pub struct RawU64Hooks {}

impl CodecHooks for RawU64Hooks {
    open spec fn hook_wire(&self, id: u64, v: ValV) -> Option<Seq<u8>> {
        match v {
            ValV::U64(x) => Some(be_bytes(x as nat, 8)),
            _ => None,
        }
    }

    open spec fn hook_read(&self, id: u64, data: Seq<u8>, pos: int) -> DecR {
        if 0 <= pos && pos + 8 <= data.len() {
            DecR::Val(ValV::U64(be_val(data.subrange(pos, pos + 8)) as u64), pos + 8)
        } else {
            DecR::Fail(CodecError::UnexpectedEof, pos)
        }
    }

    proof fn hook_round_trip(&self, id: u64, v: ValV, b: Seq<u8>, data: Seq<u8>, pos: int) {
        match v {
            ValV::U64(x) => {
                lemma_pow256_vals();
                lemma_be_bytes_len(x as nat, 8);
                lemma_be_round_trip(x as nat, 8);
            },
            _ => {},
        }
    }

    fn read_hook(&self, id: u64, buffer: &mut ReadCounter) -> (r: Result<Value, CodecError>) {
        match buffer.read_exact(8) {
            Ok(bytes) => {
                proof {
                    lemma_pow256_vals();
                    lemma_be_val_bound(bytes@);
                }
                let x = read_uint_be(bytes.as_slice());
                Ok(Value::U64(x as u64))
            },
            Err(e) => Err(e),
        }
    }

    fn write_hook(&self, id: u64, value: &Value, buffer: &mut WriteCounter) -> (r: Result<
        (),
        CodecError,
    >) {
        match value {
            Value::U64(x) => {
                proof {
                    lemma_pow256_vals();
                }
                let bytes = write_uint_be(*x as u128, 8);
                buffer.write_all(bytes.as_slice());
                Ok(())
            },
            _ => Err(CodecError::CustomHookFailure),
        }
    }
}

} // verus!
