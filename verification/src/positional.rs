//! Position-aware in-memory byte streams. A reader walks a fixed byte string
//! and a writer grows one; both expose their current offset, which the
//! alignment codecs consume.

use vstd::prelude::*;

use crate::CodecError;

verus! {

/// Access to the current offset of a stream, the one capability the
/// alignment codecs need beyond plain reads and writes.
pub trait PositionAware {
    /// The model-level offset from the start of the stream.
    spec fn spec_position(&self) -> nat;

    /// The current offset from the start of the stream.
    fn position(&self) -> (r: u64)
        ensures
            r as nat == self.spec_position(),
    ;
}

/// A minimal position-aware reader over a byte string held in memory.
pub struct ReadCounter {
    data: Vec<u8>,
    position: usize,
}

impl ReadCounter {
    /// The bytes this reader walks over; fixed for the reader's lifetime.
    pub closed spec fn stream(&self) -> Seq<u8> {
        self.data@
    }

    /// The read offset: everything before it has been consumed.
    pub closed spec fn cursor(&self) -> nat {
        self.position as nat
    }

    #[verifier::type_invariant]
    spec fn cursor_in_bounds(&self) -> bool {
        self.position <= self.data@.len()
    }

    pub fn new(data: Vec<u8>) -> (r: ReadCounter)
        ensures
            r.stream() == data@,
            r.cursor() == 0,
    {
        ReadCounter { data, position: 0 }
    }

    /// How many bytes are left to read.
    pub fn remaining(&self) -> (r: usize)
        ensures
            r == self.stream().len() - self.cursor(),
    {
        proof {
            use_type_invariant(self);
        }
        self.data.len() - self.position
    }

    /// Read exactly n bytes and advance; a short stream yields
    /// `UnexpectedEof` and consumes nothing.
    pub fn read_exact(&mut self, n: usize) -> (r: Result<Vec<u8>, CodecError>)
        ensures
            final(self).stream() == old(self).stream(),
            if old(self).cursor() + n <= old(self).stream().len() {
                r matches Ok(v) && v@ == old(self).stream().subrange(
                    old(self).cursor() as int,
                    old(self).cursor() + n,
                ) && final(self).cursor() == old(self).cursor() + n
            } else {
                r matches Err(e) && e == CodecError::UnexpectedEof && final(self).cursor()
                    == old(self).cursor()
            },
    {
        proof {
            use_type_invariant(&*self);
        }
        if n > self.data.len() - self.position {
            return Err(CodecError::UnexpectedEof);
        }
        let start = self.position;
        let mut out: Vec<u8> = Vec::new();
        let mut i: usize = 0;
        while i < n
            invariant
                i <= n,
                start + n <= self.data@.len(),
                start + n <= usize::MAX,
                self == old(self),
                out@ == self.data@.subrange(start as int, start + i),
            decreases n - i,
        {
            out.push(self.data[start + i]);
            i = i + 1;
            assert(out@ =~= self.data@.subrange(start as int, start + i));
        }
        self.position = start + n;
        Ok(out)
    }

    /// Advance past n bytes without looking at them; a short stream yields
    /// `UnexpectedEof` and consumes nothing.
    pub fn skip(&mut self, n: usize) -> (r: Result<(), CodecError>)
        ensures
            final(self).stream() == old(self).stream(),
            if old(self).cursor() + n <= old(self).stream().len() {
                r is Ok && final(self).cursor() == old(self).cursor() + n
            } else {
                r matches Err(e) && e == CodecError::UnexpectedEof && final(self).cursor()
                    == old(self).cursor()
            },
    {
        proof {
            use_type_invariant(&*self);
        }
        if n > self.data.len() - self.position {
            return Err(CodecError::UnexpectedEof);
        }
        self.position = self.position + n;
        Ok(())
    }
}

impl PositionAware for ReadCounter {
    open spec fn spec_position(&self) -> nat {
        self.cursor()
    }

    fn position(&self) -> (r: u64) {
        proof {
            use_type_invariant(self);
        }
        self.position as u64
    }
}

/// A minimal position-aware writer that appends to a byte string in memory.
pub struct WriteCounter {
    data: Vec<u8>,
}

impl WriteCounter {
    /// Everything written so far.
    pub closed spec fn stream(&self) -> Seq<u8> {
        self.data@
    }

    pub fn new() -> (r: WriteCounter)
        ensures
            r.stream() == Seq::<u8>::empty(),
    {
        WriteCounter { data: Vec::new() }
    }

    /// Append one byte.
    pub fn write_byte(&mut self, b: u8)
        ensures
            final(self).stream() == old(self).stream().push(b),
    {
        self.data.push(b);
    }

    /// Append a whole slice.
    pub fn write_all(&mut self, bytes: &[u8])
        ensures
            final(self).stream() == old(self).stream() + bytes@,
    {
        let n = bytes.len();
        let mut i: usize = 0;
        while i < n
            invariant
                i <= n,
                n == bytes@.len(),
                self.stream() == old(self).stream() + bytes@.subrange(0, i as int),
            decreases n - i,
        {
            self.data.push(bytes[i]);
            i = i + 1;
            assert(old(self).stream() + bytes@.subrange(0, i as int) =~= self.stream());
        }
        assert(bytes@.subrange(0, n as int) =~= bytes@);
    }

    /// Give up the writer and keep its bytes.
    pub fn into_bytes(self) -> (r: Vec<u8>)
        ensures
            r@ == self.stream(),
    {
        self.data
    }
}

impl PositionAware for WriteCounter {
    open spec fn spec_position(&self) -> nat {
        self.stream().len()
    }

    fn position(&self) -> (r: u64) {
        self.data.len() as u64
    }
}

} // verus!
