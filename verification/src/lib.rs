//! A declarative binary codec: a schema (`TypeDescriptor`) fixes the wire
//! layout of a value — byte order, tag-discriminated variants, length-prefixed
//! collections and alignment padding — and the engine in `codec` derives the
//! matching decode and encode procedures, proved to agree byte-for-byte.

use vstd::prelude::*;

pub mod bytes;
pub mod codec;
pub mod grammar;
pub mod hooks;
pub mod laws;
pub mod positional;
pub mod schema;
pub mod self_codec;
pub mod value;

verus! {

/// The ways a decode or encode call can fail. Every failure is terminal for
/// the call: the engine never retries or resynchronises.
#[derive(Clone, Copy, Debug, PartialEq, Eq, Structural)]
pub enum CodecError {
    /// The stream ended in the middle of a value.
    UnexpectedEof,
    /// A tag value matched no declared variant; carries the raw tag.
    InvalidData(u128),
    /// A count or byte length does not fit the declared prefix integer width.
    Overflow,
    /// A custom field codec rejected the value or the stream.
    CustomHookFailure,
}

} // verus!
