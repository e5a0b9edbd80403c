//! A cursor over a byte slice: the source that decoding consumes.

use vstd::prelude::*;
use vstd::slice::{slice_subrange, slice_to_vec};
use crate::error::DecodeError;

verus! {

/// A byte slice together with the number of bytes already consumed from it.
pub struct ByteReader<'a> {
    bytes: &'a [u8],
    pos: usize,
}

impl<'a> ByteReader<'a> {
    #[verifier::type_invariant]
    spec fn in_bounds(&self) -> bool {
        self.pos <= self.bytes@.len()
    }

    /// All the bytes the reader was created over.
    pub closed spec fn source(&self) -> Seq<u8> {
        self.bytes@
    }

    /// How many bytes of the source have been consumed.
    pub closed spec fn consumed(&self) -> nat {
        self.pos as nat
    }

    /// The bytes not yet consumed.
    pub closed spec fn remaining(&self) -> Seq<u8> {
        self.bytes@.skip(self.pos as int)
    }

    /// A reader positioned at the start of `bytes`.
    pub fn new(bytes: &'a [u8]) -> (reader: Self)
        ensures
            reader.source() == bytes@,
            reader.remaining() == bytes@,
            reader.consumed() == 0,
    {
        ByteReader { bytes, pos: 0 }
    }

    /// The number of bytes consumed so far.
    pub fn position(&self) -> (n: usize)
        ensures
            n == self.consumed(),
    {
        self.pos
    }

    /// The number of bytes still to be read.
    pub fn remaining_len(&self) -> (n: usize)
        ensures
            n == self.remaining().len(),
    {
        proof {
            use_type_invariant(self);
        }
        self.bytes.len() - self.pos
    }

    /// Consumes one byte. On an exhausted reader this is an end-of-input
    /// error and the reader does not move.
    pub fn read_byte(&mut self) -> (r: Result<u8, DecodeError>)
        ensures
            final(self).source() == old(self).source(),
            old(self).remaining().len() == 0 ==> {
                &&& r == Err::<u8, DecodeError>(DecodeError::UnexpectedEof)
                &&& final(self).remaining() == old(self).remaining()
                &&& final(self).consumed() == old(self).consumed()
            },
            old(self).remaining().len() > 0 ==> {
                &&& r == Ok::<u8, DecodeError>(old(self).remaining()[0])
                &&& final(self).remaining() == old(self).remaining().skip(1)
                &&& final(self).consumed() == old(self).consumed() + 1
            },
    {
        proof {
            use_type_invariant(&*self);
        }
        if self.pos < self.bytes.len() {
            let byte = self.bytes[self.pos];
            self.pos = self.pos + 1;
            assert(self.bytes@.skip(self.pos as int) == self.bytes@.skip(self.pos - 1).skip(1));
            Ok(byte)
        } else {
            Err(DecodeError::UnexpectedEof)
        }
    }

    /// Consumes exactly `count` bytes and returns them. If fewer remain this
    /// is an end-of-input error and the reader does not move.
    pub fn read_bytes(&mut self, count: usize) -> (r: Result<Vec<u8>, DecodeError>)
        ensures
            final(self).source() == old(self).source(),
            count > old(self).remaining().len() ==> {
                &&& r == Err::<Vec<u8>, DecodeError>(DecodeError::UnexpectedEof)
                &&& final(self).remaining() == old(self).remaining()
                &&& final(self).consumed() == old(self).consumed()
            },
            count <= old(self).remaining().len() ==> {
                &&& r matches Ok(bytes)
                &&& bytes@ == old(self).remaining().take(count as int)
                &&& final(self).remaining() == old(self).remaining().skip(count as int)
                &&& final(self).consumed() == old(self).consumed() + count
            },
    {
        proof {
            use_type_invariant(&*self);
        }
        if count > self.bytes.len() - self.pos {
            return Err(DecodeError::UnexpectedEof);
        }
        let end = self.pos + count;
        let taken = slice_to_vec(slice_subrange(self.bytes, self.pos, end));
        assert(taken@ == self.bytes@.skip(self.pos as int).take(count as int));
        assert(self.bytes@.skip(end as int) == self.bytes@.skip(self.pos as int).skip(count as int));
        self.pos = end;
        Ok(taken)
    }
}

} // verus!
