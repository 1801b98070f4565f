//! Reading a value from a buffer in memory, through the `bytes` crate.
//!
//! A buffered read looks at the bytes that are resident and takes none of
//! them. It moves the buffer's position only once it has found a whole
//! value. A read that may find nothing reports a buffer that holds no whole
//! value yet, an empty one or the start of a value, as `Ok(None)`: the read
//! came too early, and can be made again when more bytes have arrived.

use crate::error::Error;
use crate::read::{narrow, narrowed_result, narrowed_try_result, read_result, read_slice};
use crate::wire::{decode, lemma_decode_complete, Decoded};
use bytes::Buf;
use std::io::Cursor;
use vstd::prelude::*;

verus! {

/// `std::io::Cursor`, a buffer with a position in it. Nothing is known of a
/// value of it but what the items below state.
#[verifier::external_type_specification]
#[verifier::external_body]
#[verifier::reject_recursive_types(T)]
pub struct ExCursor<T>(Cursor<T>);

/// What `Buf::bytes` hands out for a cursor over a vector: the bytes of the
/// vector from the cursor's position on.
pub uninterp spec fn cursor_bytes(c: Cursor<Vec<u8>>) -> Seq<u8>;

/// `Buf::bytes` on a cursor: the slice of its buffer from the position on,
/// an empty one where the position is not inside the buffer. Nothing is
/// taken from the buffer.
#[verifier::external_body]
fn buf_bytes(c: &Cursor<Vec<u8>>) -> (s: &[u8])
    ensures
        s@ == cursor_bytes(*c),
{
    Buf::bytes(c)
}

/// `Buf::advance` on a cursor: moves the position `cnt` bytes on, so that
/// `Buf::bytes` then starts `cnt` bytes later. The call panics where the new
/// position would lie behind the end of the buffer. It is made only with
/// one or more bytes, and no more than `Buf::bytes` hands out: then the
/// position is inside the buffer before the call, and not behind its end
/// after it.
#[verifier::external_body]
fn buf_advance(c: &mut Cursor<Vec<u8>>, cnt: usize)
    requires
        0 < cnt <= cursor_bytes(*old(c)).len(),
    ensures
        cursor_bytes(*final(c)) == cursor_bytes(*old(c)).skip(cnt as int),
{
    Buf::advance(c, cnt)
}

/// How many bytes a buffered read commits to: those of a whole value, and
/// none where there is no whole value.
pub open spec fn committed(bytes: Seq<u8>) -> nat {
    match decode(bytes) {
        Decoded::Complete { len, .. } => len,
        _ => 0,
    }
}

/// What a buffered read that may find nothing gives on a buffer that holds
/// `bytes`: the value where it is whole, nothing where it is not whole yet,
/// and a fault where it is too long.
pub open spec fn try_get_result(bytes: Seq<u8>) -> Result<Option<u64>, Error> {
    match decode(bytes) {
        Decoded::Complete { value, .. } => Ok(Some(value)),
        Decoded::Incomplete => Ok(None),
        Decoded::TooLong => Err(Error::LengthExceeded),
    }
}

/// What a buffered read gives on a buffer that holds `bytes`: what
/// `try_get_result` says for a read that may find nothing, and what
/// `read_result` says for one that must find a value.
pub open spec fn get_result(bytes: Seq<u8>, optional: bool) -> Result<Option<u64>, Error> {
    if optional {
        try_get_result(bytes)
    } else {
        match read_result(bytes) {
            Ok(value) => Ok(Some(value)),
            Err(e) => Err(e),
        }
    }
}

/// Reads one value from the front of `bytes`, the resident bytes of a
/// buffer. Returns the result with the number of bytes by which the buffer
/// is to be advanced: those of a whole value, and none without one.
pub fn get_slice(bytes: &[u8], optional: bool) -> (r: (Result<Option<u64>, Error>, usize))
    ensures
        r.0 == get_result(bytes@, optional),
        r.1 == committed(bytes@),
{
    let (result, n) = read_slice(bytes, false);
    match result {
        Ok(value) => (Ok(value), n),
        Err(Error::Truncated) => {
            if optional {
                (Ok(None), 0)
            } else {
                (Err(Error::Truncated), 0)
            }
        },
        Err(e) => (Err(e), 0),
    }
}

/// Reading integers in the varint format from a buffer in memory.
pub trait BufVarInt: Sized {
    /// The bytes in the buffer from the current position on.
    spec fn resident(&self) -> Seq<u8>;

    /// Reads a varint that fits into a `u64`.
    ///
    /// Where the buffer holds no whole value the read fails, with
    /// `Truncated` where the buffer ends too early, and the position stays
    /// where it was.
    fn get_u64_varint(&mut self) -> (r: Result<u64, Error>)
        ensures
            r == read_result(old(self).resident()),
            final(self).resident() == old(self).resident().skip(
                committed(old(self).resident()) as int,
            ),
            committed(old(self).resident()) == 0 ==> *final(self) == *old(self),
    ;

    /// Reads a varint that fits into a `usize`: the value is read as by
    /// `get_u64_varint`, and then held against the width of `usize`. A whole
    /// value that does not fit gives `WidthExceeded`, and the position is
    /// behind it.
    fn get_usize_varint(&mut self) -> (r: Result<usize, Error>)
        ensures
            r == narrowed_result(read_result(old(self).resident())),
            final(self).resident() == old(self).resident().skip(
                committed(old(self).resident()) as int,
            ),
            committed(old(self).resident()) == 0 ==> *final(self) == *old(self),
    ;

    /// Reads a varint that fits into a `u64`, if the buffer holds a whole
    /// one.
    ///
    /// A buffer that does not hold a whole value, an empty one or one that
    /// ends inside a value, gives `Ok(None)`, and the position stays where
    /// it was.
    fn try_get_u64_varint(&mut self) -> (r: Result<Option<u64>, Error>)
        ensures
            r == try_get_result(old(self).resident()),
            final(self).resident() == old(self).resident().skip(
                committed(old(self).resident()) as int,
            ),
            committed(old(self).resident()) == 0 ==> *final(self) == *old(self),
    ;

    /// Reads a varint that fits into a `usize`, if the buffer holds a whole
    /// one.
    fn try_get_usize_varint(&mut self) -> (r: Result<Option<usize>, Error>)
        ensures
            r == narrowed_try_result(try_get_result(old(self).resident())),
            final(self).resident() == old(self).resident().skip(
                committed(old(self).resident()) as int,
            ),
            committed(old(self).resident()) == 0 ==> *final(self) == *old(self),
    ;
}

impl BufVarInt for Cursor<Vec<u8>> {
    open spec fn resident(&self) -> Seq<u8> {
        cursor_bytes(*self)
    }

    fn get_u64_varint(&mut self) -> (r: Result<u64, Error>) {
        let (result, n) = get_slice(buf_bytes(self), false);
        proof {
            lemma_decode_complete(cursor_bytes(*self));
        }
        if n > 0 {
            buf_advance(self, n);
        }
        match result {
            Ok(Some(value)) => Ok(value),
            Ok(None) => Err(Error::Truncated),
            Err(e) => Err(e),
        }
    }

    fn get_usize_varint(&mut self) -> (r: Result<usize, Error>) {
        match self.get_u64_varint() {
            Ok(value) => narrow(value),
            Err(e) => Err(e),
        }
    }

    fn try_get_u64_varint(&mut self) -> (r: Result<Option<u64>, Error>) {
        let (result, n) = get_slice(buf_bytes(self), true);
        proof {
            lemma_decode_complete(cursor_bytes(*self));
        }
        if n > 0 {
            buf_advance(self, n);
        }
        result
    }

    fn try_get_usize_varint(&mut self) -> (r: Result<Option<usize>, Error>) {
        match self.try_get_u64_varint() {
            Ok(Some(value)) => match narrow(value) {
                Ok(v) => Ok(Some(v)),
                Err(e) => Err(e),
            },
            Ok(None) => Ok(None),
            Err(e) => Err(e),
        }
    }
}

} // verus!
