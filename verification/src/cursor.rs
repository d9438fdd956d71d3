//! A zero-copy read cursor over an input byte slice.

use vstd::prelude::*;

use crate::error::{EtfError, Needed};

verus! {

/// The error a read yields that needs `n` more bytes than the input holds:
/// in streaming mode the input is merely incomplete, and `n` more bytes are
/// needed; otherwise it ended unexpectedly.
#[verifier::opaque]
pub open spec fn short_error(streaming: bool, n: int) -> EtfError {
    if streaming {
        EtfError::Incomplete(Needed::Size(n as usize))
    } else {
        EtfError::UnexpectedEof
    }
}

/// The big-endian value of the two bytes at `p`.
pub open spec fn be_u16_at(d: Seq<u8>, p: int) -> int {
    d[p] as int * 256 + d[p + 1] as int
}

/// The big-endian value of the four bytes at `p`.
pub open spec fn be_u32_at(d: Seq<u8>, p: int) -> int {
    d[p] as int * 16777216 + d[p + 1] as int * 65536 + d[p + 2] as int * 256 + d[p + 3] as int
}

/// The big-endian value of the eight bytes at `p`.
pub open spec fn be_u64_at(d: Seq<u8>, p: int) -> int {
    be_u32_at(d, p) * 4294967296 + be_u32_at(d, p + 4)
}

/// A cursor over the unconsumed part of an input slice.
///
/// Keeps the *original* slice so that any consumed range can later be
/// recovered with [`slice_between`](Self::slice_between).  It also records,
/// as ghost state, the value each legacy float in the input was decoded to
/// (keyed by the offset of its tag byte).
pub struct Cursor<'a> {
    original: &'a [u8],
    pos: usize,
    streaming: bool,
    floats: Ghost<Map<int, Option<u64>>>,
}

impl<'a> Cursor<'a> {
    #[verifier::type_invariant]
    spec fn inv(self) -> bool {
        self.pos <= self.original@.len()
    }

    /// The whole input.
    pub closed spec fn input(self) -> Seq<u8> {
        self.original@
    }

    /// The number of bytes consumed so far.
    pub closed spec fn pos(self) -> nat {
        self.pos as nat
    }

    /// Whether short reads report [`EtfError::Incomplete`].
    pub closed spec fn is_streaming(self) -> bool {
        self.streaming
    }

    /// The legacy floats decoded so far, keyed by the offset of their tag.
    pub closed spec fn floats(self) -> Map<int, Option<u64>> {
        self.floats@
    }

    /// The cursor invariant, for callers: the position lies within the input.
    pub fn check_inv(&self)
        ensures
            0 <= self.pos() <= self.input().len(),
    {
        proof {
            use_type_invariant(self);
        }
    }

    /// Create a cursor at the start of `data` (non-streaming).
    pub fn new(data: &'a [u8]) -> (c: Cursor<'a>)
        ensures
            c.input() == data@,
            c.pos() == 0,
            !c.is_streaming(),
            c.floats() == Map::<int, Option<u64>>::empty(),
    {
        Cursor { original: data, pos: 0, streaming: false, floats: Ghost(Map::empty()) }
    }

    /// Create a cursor at the start of `data` in **streaming** mode.
    pub fn new_streaming(data: &'a [u8]) -> (c: Cursor<'a>)
        ensures
            c.input() == data@,
            c.pos() == 0,
            c.is_streaming(),
            c.floats() == Map::<int, Option<u64>>::empty(),
    {
        Cursor { original: data, pos: 0, streaming: true, floats: Ghost(Map::empty()) }
    }

    /// Number of bytes consumed from the original input so far.
    pub fn consumed(&self) -> (r: usize)
        ensures
            r == self.pos(),
    {
        self.pos
    }

    /// Number of bytes not yet consumed.
    pub fn remaining(&self) -> (r: usize)
        ensures
            r == self.input().len() - self.pos(),
    {
        proof {
            use_type_invariant(self);
        }
        self.original.len() - self.pos
    }

    /// The next byte, without consuming it.
    pub fn peek(&self) -> (r: Option<u8>)
        ensures
            r == (if self.pos() < self.input().len() {
                Some(self.input()[self.pos() as int])
            } else {
                None::<u8>
            }),
    {
        if self.pos < self.original.len() {
            Some(self.original[self.pos])
        } else {
            None
        }
    }

    /// The sub-slice of the original input between two offsets.
    pub fn slice_between(&self, start: usize, end: usize) -> (r: &'a [u8])
        requires
            start <= end <= self.input().len(),
        ensures
            r@ == self.input().subrange(start as int, end as int),
    {
        vstd::slice::slice_subrange(self.original, start, end)
    }

    /// The error a read yields that is `needed` bytes short.
    pub fn eof_or_incomplete(&self, needed: usize) -> (r: EtfError)
        ensures
            r == short_error(self.is_streaming(), needed as int),
    {
        proof {
            reveal(short_error);
        }
        if self.streaming {
            EtfError::Incomplete(Needed::Size(needed))
        } else {
            EtfError::UnexpectedEof
        }
    }

    /// Consume exactly `n` bytes from the front and return them.
    pub fn take(&mut self, n: usize) -> (r: Result<&'a [u8], EtfError>)
        ensures
            final(self).input() == old(self).input(),
            final(self).is_streaming() == old(self).is_streaming(),
            final(self).floats() == old(self).floats(),
            old(self).pos() + n <= old(self).input().len() ==> (r matches Ok(s) && s@ == old(self).input().subrange(
                old(self).pos() as int,
                old(self).pos() + n,
            )) && final(self).pos() == old(self).pos() + n,
            old(self).pos() + n > old(self).input().len() ==> r == Err::<&'a [u8], EtfError>(
                short_error(old(self).is_streaming(), old(self).pos() + n - old(self).input().len()),
            ) && final(self).pos() == old(self).pos(),
    {
        proof {
            use_type_invariant(&*self);
        }
        if self.original.len() - self.pos < n {
            return Err(self.eof_or_incomplete(n - (self.original.len() - self.pos)));
        }
        let s = vstd::slice::slice_subrange(self.original, self.pos, self.pos + n);
        self.pos = self.pos + n;
        Ok(s)
    }

    /// Consume one byte.
    pub fn read_u8(&mut self) -> (r: Result<u8, EtfError>)
        ensures
            final(self).input() == old(self).input(),
            final(self).is_streaming() == old(self).is_streaming(),
            final(self).floats() == old(self).floats(),
            old(self).pos() + 1 <= old(self).input().len() ==> r == Ok::<u8, EtfError>(
                old(self).input()[old(self).pos() as int],
            ) && final(self).pos() == old(self).pos() + 1,
            old(self).pos() + 1 > old(self).input().len() ==> r == Err::<u8, EtfError>(
                short_error(old(self).is_streaming(), 1),
            ) && final(self).pos() == old(self).pos(),
    {
        proof {
            use_type_invariant(&*self);
        }
        if self.pos >= self.original.len() {
            return Err(self.eof_or_incomplete(1));
        }
        let b = self.original[self.pos];
        self.pos = self.pos + 1;
        Ok(b)
    }

    /// Consume two bytes as a big-endian integer.
    pub fn read_u16(&mut self) -> (r: Result<u16, EtfError>)
        ensures
            final(self).input() == old(self).input(),
            final(self).is_streaming() == old(self).is_streaming(),
            final(self).floats() == old(self).floats(),
            old(self).pos() + 2 <= old(self).input().len() ==> r == Ok::<u16, EtfError>(
                be_u16_at(old(self).input(), old(self).pos() as int) as u16,
            ) && final(self).pos() == old(self).pos() + 2,
            old(self).pos() + 2 > old(self).input().len() ==> r == Err::<u16, EtfError>(
                short_error(old(self).is_streaming(), old(self).pos() + 2 - old(self).input().len()),
            ) && final(self).pos() == old(self).pos(),
    {
        proof {
            use_type_invariant(&*self);
        }
        if self.original.len() - self.pos < 2 {
            return Err(self.eof_or_incomplete(2 - (self.original.len() - self.pos)));
        }
        let p = self.pos;
        let v = (self.original[p] as u16) * 256 + (self.original[p + 1] as u16);
        self.pos = p + 2;
        Ok(v)
    }

    /// Consume four bytes as a big-endian integer.
    pub fn read_u32(&mut self) -> (r: Result<u32, EtfError>)
        ensures
            final(self).input() == old(self).input(),
            final(self).is_streaming() == old(self).is_streaming(),
            final(self).floats() == old(self).floats(),
            old(self).pos() + 4 <= old(self).input().len() ==> r == Ok::<u32, EtfError>(
                be_u32_at(old(self).input(), old(self).pos() as int) as u32,
            ) && final(self).pos() == old(self).pos() + 4,
            old(self).pos() + 4 > old(self).input().len() ==> r == Err::<u32, EtfError>(
                short_error(old(self).is_streaming(), old(self).pos() + 4 - old(self).input().len()),
            ) && final(self).pos() == old(self).pos(),
    {
        proof {
            use_type_invariant(&*self);
        }
        if self.original.len() - self.pos < 4 {
            return Err(self.eof_or_incomplete(4 - (self.original.len() - self.pos)));
        }
        let p = self.pos;
        let v = (self.original[p] as u32) * 16777216 + (self.original[p + 1] as u32) * 65536
            + (self.original[p + 2] as u32) * 256 + (self.original[p + 3] as u32);
        self.pos = p + 4;
        Ok(v)
    }

    /// Consume eight bytes as a big-endian integer (the bits of an IEEE 754
    /// binary64 value in `NEW_FLOAT_EXT`).
    pub fn read_u64(&mut self) -> (r: Result<u64, EtfError>)
        ensures
            final(self).input() == old(self).input(),
            final(self).is_streaming() == old(self).is_streaming(),
            final(self).floats() == old(self).floats(),
            old(self).pos() + 8 <= old(self).input().len() ==> r == Ok::<u64, EtfError>(
                be_u64_at(old(self).input(), old(self).pos() as int) as u64,
            ) && final(self).pos() == old(self).pos() + 8,
            old(self).pos() + 8 > old(self).input().len() ==> r == Err::<u64, EtfError>(
                short_error(old(self).is_streaming(), old(self).pos() + 8 - old(self).input().len()),
            ) && final(self).pos() == old(self).pos(),
    {
        proof {
            use_type_invariant(&*self);
        }
        if self.original.len() - self.pos < 8 {
            return Err(self.eof_or_incomplete(8 - (self.original.len() - self.pos)));
        }
        let hi = self.read_u32_unchecked();
        let lo = self.read_u32_unchecked();
        Ok((hi as u64) * 4294967296 + (lo as u64))
    }

    fn read_u32_unchecked(&mut self) -> (v: u32)
        requires
            old(self).pos() + 4 <= old(self).input().len(),
        ensures
            final(self).input() == old(self).input(),
            final(self).is_streaming() == old(self).is_streaming(),
            final(self).floats() == old(self).floats(),
            v == be_u32_at(old(self).input(), old(self).pos() as int),
            final(self).pos() == old(self).pos() + 4,
    {
        let p = self.pos;
        let v = (self.original[p] as u32) * 16777216 + (self.original[p + 1] as u32) * 65536
            + (self.original[p + 2] as u32) * 256 + (self.original[p + 3] as u32);
        self.pos = p + 4;
        v
    }

    /// Record the value the legacy float whose tag byte is at `at` was
    /// decoded to.
    pub(crate) fn record_float(&mut self, at: Ghost<int>, value: Ghost<Option<u64>>)
        ensures
            final(self).input() == old(self).input(),
            final(self).pos() == old(self).pos(),
            final(self).is_streaming() == old(self).is_streaming(),
            final(self).floats() == old(self).floats().insert(at@, value@),
    {
        proof {
            use_type_invariant(&*self);
        }
        self.floats = Ghost(self.floats@.insert(at@, value@));
    }
}

} // verus!
