//! An order-preserving binary codec: values are mapped to byte strings so
//! that byte-wise lexicographic comparison of two encodings agrees with the
//! ordering of the values themselves, and so that every encoding can be
//! decoded back to the exact value it came from.

use vstd::prelude::*;

pub mod bytes;
pub mod codec;
pub mod stdlib;
pub mod util;
pub mod varint;
pub mod order;

pub use crate::codec::LexOrd;
pub use crate::codec::LexOrdSer;
pub use crate::codec::ObjectType;

verus! {

/// A decoding failure. Encoding into a byte vector cannot fail, so only
/// reading reports errors.
#[derive(Clone, Copy, Debug, PartialEq, Eq, Structural)]
pub enum Error {
    /// The input ended before the encoding was complete.
    Eof,
    /// The collected bytes of a text encoding are not valid UTF-8.
    Utf8,
    /// A decoded integer does not fit the requested integer width.
    FromInt,
    /// The bytes do not match any valid encoding for the target type.
    Parse,
}

/// A byte source: a buffer, a cursor, and a one-byte pushback slot, so that
/// a framing byte that was consumed by an outer protocol can be handed back
/// and re-read by an inner decoder.
pub struct PrefixRead {
    bytes: Vec<u8>,
    pos: usize,
    prefix: Option<u8>,
}

impl PrefixRead {
    /// The bytes still to be read: the pushed-back byte, if any, followed by
    /// the unread part of the buffer.
    pub closed spec fn stream(&self) -> Seq<u8> {
        match self.prefix {
            Some(b) => seq![b] + self.bytes@.skip(self.pos as int),
            None => self.bytes@.skip(self.pos as int),
        }
    }

    /// The cursor never points past the end of the buffer.
    pub closed spec fn wf(&self) -> bool {
        self.pos <= self.bytes@.len()
    }

    /// Whether the one-byte pushback slot is occupied.
    pub closed spec fn has_prefix(&self) -> bool {
        self.prefix is Some
    }

    /// An occupied pushback slot means at least one byte is left to read.
    pub proof fn lemma_prefix_nonempty(&self)
        ensures
            self.has_prefix() ==> self.stream().len() >= 1,
    {
    }

    pub fn new(bytes: Vec<u8>) -> (r: PrefixRead)
        ensures
            r.wf(),
            !r.has_prefix(),
            r.stream() == bytes@,
    {
        let r = PrefixRead { bytes, pos: 0, prefix: None };
        proof {
            assert(r.stream() =~= r.bytes@);
        }
        r
    }

    /// Read one byte, or fail with `Error::Eof` on an empty stream.
    pub fn read_byte(&mut self) -> (res: Result<u8, Error>)
        requires
            old(self).wf(),
        ensures
            final(self).wf(),
            !final(self).has_prefix(),
            match res {
                Ok(b) => old(self).stream().len() > 0 && b == old(self).stream()[0]
                    && final(self).stream() == old(self).stream().skip(1),
                Err(e) => e == Error::Eof && old(self).stream().len() == 0
                    && final(self).stream() == old(self).stream(),
            },
    {
        match self.prefix {
            Some(b) => {
                self.prefix = None;
                proof {
                    assert(final(self).stream() =~= old(self).stream().skip(1));
                }
                Ok(b)
            }
            None => {
                if self.pos < self.bytes.len() {
                    let b = self.bytes[self.pos];
                    self.pos = self.pos + 1;
                    proof {
                        assert(final(self).stream() =~= old(self).stream().skip(1));
                    }
                    Ok(b)
                } else {
                    Err(Error::Eof)
                }
            }
        }
    }

    /// Hand one byte back so that it is read again before the rest of the
    /// stream. The pushback slot holds a single byte; pushing while it is
    /// occupied is a contract violation, so callers must consume first.
    pub fn push_prefix(&mut self, b: u8)
        requires
            old(self).wf(),
            !old(self).has_prefix(),
        ensures
            final(self).wf(),
            final(self).has_prefix(),
            final(self).stream() == seq![b] + old(self).stream(),
    {
        self.prefix = Some(b);
        proof {
            assert(final(self).stream() =~= seq![b] + old(self).stream());
        }
    }

    /// Empty the pushback slot, discarding the held byte if there is one.
    /// An outer framing layer uses this to drop a framing byte that an inner
    /// decoder turned out not to need.
    pub fn clear_prefix(&mut self)
        requires
            old(self).wf(),
        ensures
            final(self).wf(),
            !final(self).has_prefix(),
            old(self).has_prefix() ==> final(self).stream() == old(self).stream().skip(1),
            !old(self).has_prefix() ==> *final(self) == *old(self),
    {
        proof {
            if old(self).has_prefix() {
                assert(self.stream().skip(1) =~= self.bytes@.skip(self.pos as int));
            }
        }
        self.prefix = None;
    }

    /// Whether the stream is exhausted.
    pub fn is_empty(&self) -> (r: bool)
        requires
            self.wf(),
        ensures
            r == (self.stream().len() == 0),
    {
        match self.prefix {
            Some(_) => false,
            None => self.pos == self.bytes.len(),
        }
    }
}

} // verus!
