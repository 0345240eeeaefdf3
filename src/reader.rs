//! A byte source with a cursor, the input of the decoder.
use vstd::prelude::*;

verus! {

/// Why reading failed. The only failure of an in-memory source is running
/// out of bytes.
#[derive(Clone, Copy, Debug, PartialEq, Eq, Structural)]
pub enum ReadError {
    UnexpectedEof,
}

/// Bytes to be read from the front, one at a time.
pub struct ByteReader {
    bytes: Vec<u8>,
    pos: usize,
}

impl ByteReader {
    /// The cursor never passes the end of the data.
    #[verifier::type_invariant]
    spec fn cursor_in_bounds(&self) -> bool {
        self.pos <= self.bytes.len()
    }

    /// All bytes of the source, read or not.
    pub closed spec fn data(&self) -> Seq<u8> {
        self.bytes@
    }

    /// The index of the next byte to be read.
    pub closed spec fn cursor(&self) -> nat {
        self.pos as nat
    }

    /// A reader positioned at the first of `bytes`.
    pub fn new(bytes: Vec<u8>) -> (r: ByteReader)
        ensures
            r.data() == bytes@,
            r.cursor() == 0,
    {
        ByteReader { bytes, pos: 0 }
    }

    /// The index of the next byte to be read.
    pub fn position(&self) -> (r: usize)
        ensures
            r == self.cursor(),
            self.cursor() <= self.data().len(),
    {
        proof {
            use_type_invariant(self);
        }
        self.pos
    }

    /// Takes the next byte; fails at the end of the data.
    pub fn read_byte(&mut self) -> (r: Result<u8, ReadError>)
        ensures
            final(self).data() == old(self).data(),
            old(self).cursor() < old(self).data().len() ==> r == Ok::<u8, ReadError>(
                old(self).data()[old(self).cursor() as int],
            ) && final(self).cursor() == old(self).cursor() + 1,
            old(self).cursor() >= old(self).data().len() ==> r == Err::<u8, ReadError>(
                ReadError::UnexpectedEof,
            ) && final(self).cursor() == old(self).cursor(),
    {
        proof {
            use_type_invariant(&*self);
        }
        if self.pos < self.bytes.len() {
            let b = self.bytes[self.pos];
            self.pos = self.pos + 1;
            Ok(b)
        } else {
            Err(ReadError::UnexpectedEof)
        }
    }
}

} // verus!
