//! Reading a value from a byte source that is read to the end of the value
//! in one go.
//!
//! A read starts a fresh [`Reading`] and hands it the bytes of the source
//! one at a time, until the value is whole, the encoding is refused, or the
//! source has no more.

use crate::error::Error;
use crate::reading::{delivered, ends, run, Fetched, Progress, Reading};
use crate::wire::{
    decode, encode, lemma_decode_complete, lemma_decode_encode, lemma_decode_next,
    lemma_decode_settled, Decoded,
};
use vstd::prelude::*;
use vstd::slice::slice_subrange;

verus! {

/// What a read that must find a value gives on a source that holds `bytes`
/// and then ends.
pub open spec fn read_result(bytes: Seq<u8>) -> Result<u64, Error> {
    match decode(bytes) {
        Decoded::Complete { value, .. } => Ok(value),
        Decoded::Incomplete => Err(Error::Truncated),
        Decoded::TooLong => Err(Error::LengthExceeded),
    }
}

/// What a read that may find nothing gives on such a source: no value where
/// the source is empty, and what [`read_result`] says where it is not.
pub open spec fn try_read_result(bytes: Seq<u8>) -> Result<Option<u64>, Error> {
    if bytes.len() == 0 {
        Ok(None)
    } else {
        match read_result(bytes) {
            Ok(value) => Ok(Some(value)),
            Err(e) => Err(e),
        }
    }
}

/// How many bytes a read takes from a source that holds `bytes`: those of
/// the value, the ten that are too long, or all there are.
pub open spec fn taken(bytes: Seq<u8>) -> nat {
    match decode(bytes) {
        Decoded::Complete { len, .. } => len,
        Decoded::Incomplete => bytes.len(),
        Decoded::TooLong => 10,
    }
}

/// A value of 64 bits as a `usize`, or `WidthExceeded` where it does not fit.
pub open spec fn narrowed(value: u64) -> Result<usize, Error> {
    if value <= usize::MAX {
        Ok(value as usize)
    } else {
        Err(Error::WidthExceeded)
    }
}

/// The result of a read of 64 bits, narrowed to a `usize`.
pub open spec fn narrowed_result(r: Result<u64, Error>) -> Result<usize, Error> {
    match r {
        Ok(value) => narrowed(value),
        Err(e) => Err(e),
    }
}

/// The result of a read that may find nothing, narrowed to a `usize`.
pub open spec fn narrowed_try_result(r: Result<Option<u64>, Error>) -> Result<
    Option<usize>,
    Error,
> {
    match r {
        Ok(Some(value)) => match narrowed(value) {
            Ok(v) => Ok(Some(v)),
            Err(e) => Err(e),
        },
        Ok(None) => Ok(None),
        Err(e) => Err(e),
    }
}

/// Checks a decoded value against the width of `usize`.
pub fn narrow(value: u64) -> (r: Result<usize, Error>)
    ensures
        r == narrowed(value),
{
    if value <= usize::MAX as u64 {
        Ok(value as usize)
    } else {
        Err(Error::WidthExceeded)
    }
}

/// What a whole read of a source that holds `bytes` comes to.
pub open spec fn outcome(bytes: Seq<u8>, optional: bool) -> Result<Option<u64>, Error> {
    if optional {
        try_read_result(bytes)
    } else {
        match read_result(bytes) {
            Ok(value) => Ok(Some(value)),
            Err(e) => Err(e),
        }
    }
}

/// Reads one value from the front of `bytes`, a source that ends where the
/// slice does. Returns the result with the number of bytes that the read
/// took from the slice.
pub fn read_slice(bytes: &[u8], optional: bool) -> (r: (Result<Option<u64>, Error>, usize))
    ensures
        r.0 == outcome(bytes@, optional),
        r.1 == taken(bytes@),
{
    let mut reading = Reading::new(optional);
    let mut i: usize = 0;
    loop
        invariant
            reading.wf(),
            !reading.is_over(),
            reading.optional() == optional,
            i <= bytes.len(),
            reading.consumed() == bytes@.take(i as int),
            decode(bytes@.take(i as int)) is Incomplete,
        decreases bytes.len() - i,
    {
        let fetched = if i < bytes.len() {
            Fetched::Byte(bytes[i])
        } else {
            Fetched::End
        };
        proof {
            if i < bytes.len() {
                assert(bytes@.take(i as int).push(bytes@[i as int]) =~= bytes@.take(i + 1));
                lemma_decode_next(bytes@.take(i as int), bytes@[i as int]);
                if !(decode(bytes@.take(i + 1)) is Incomplete) {
                    lemma_decode_settled(bytes@, i + 1);
                }
            } else {
                assert(bytes@.take(i as int) =~= bytes@);
            }
        }
        match reading.resume(fetched) {
            Progress::Pending => {
                i += 1;
            },
            Progress::Done(result) => {
                let n = if i < bytes.len() {
                    i + 1
                } else {
                    i
                };
                return (result, n);
            },
        }
    }
}

/// Truncation is not absence: of the sources that end before a value does,
/// the empty one alone is read as "no value", and by the optional read
/// alone. Every other one is truncated, for both reads.
pub proof fn lemma_truncated_or_absent(bytes: Seq<u8>)
    requires
        decode(bytes) is Incomplete,
    ensures
        read_result(bytes) == Err::<u64, Error>(Error::Truncated),
        bytes.len() == 0 ==> try_read_result(bytes) == Ok::<Option<u64>, Error>(None),
        bytes.len() > 0 ==> try_read_result(bytes) == Err::<Option<u64>, Error>(Error::Truncated),
{
}

/// The two sources that show the difference: the empty one holds no value,
/// and the single byte `0xFF` is the start of one that does not end.
pub proof fn lemma_absent_and_truncated()
    ensures
        try_read_result(Seq::<u8>::empty()) == Ok::<Option<u64>, Error>(None),
        read_result(Seq::<u8>::empty()) == Err::<u64, Error>(Error::Truncated),
        try_read_result(seq![0xFFu8]) == Err::<Option<u64>, Error>(Error::Truncated),
        read_result(seq![0xFFu8]) == Err::<u64, Error>(Error::Truncated),
{
}

/// Round trip through a source: a read of the encoding of a value gives
/// that value, and takes the bytes of the encoding and none of what lies
/// behind them.
pub proof fn lemma_read_encoded(value: u64, rest: Seq<u8>)
    ensures
        read_result(encode(value) + rest) == Ok::<u64, Error>(value),
        try_read_result(encode(value) + rest) == Ok::<Option<u64>, Error>(Some(value)),
        taken(encode(value) + rest) == encode(value).len(),
{
    let bytes = encode(value) + rest;
    lemma_decode_encode(value);
    assert(bytes.take(encode(value).len() as int) =~= encode(value));
    lemma_decode_settled(bytes, encode(value).len() as int);
}

/// A read that has taken `consumed` and is not over, after the steps for
/// `events`: it has taken what a read in one go takes of all the bytes
/// together, and it is over, with the result of that read, as soon as the
/// source has ended or the bytes hold a value or are too long.
proof fn lemma_run_from(consumed: Seq<u8>, optional: bool, events: Seq<Fetched>)
    requires
        decode(consumed) is Incomplete,
    ensures
        run(consumed, optional, events).0 == (consumed + delivered(events)).take(
            taken(consumed + delivered(events)) as int,
        ),
        run(consumed, optional, events).1 == if ends(events) || !(decode(
            consumed + delivered(events),
        ) is Incomplete) {
            Progress::Done(outcome(consumed + delivered(events), optional))
        } else {
            Progress::Pending
        },
    decreases events.len(),
{
    let all = consumed + delivered(events);
    if events.len() == 0 {
        assert(all =~= consumed);
        assert(all.take(all.len() as int) =~= all);
    } else {
        let rest = events.skip(1);
        assert(ends(events) == (events[0] is End || ends(rest))) by {
            if ends(events) && !(events[0] is End) {
                let i = choose|i: int| 0 <= i < events.len() && events[i] is End;
                assert(rest[i - 1] is End);
            }
            if ends(rest) {
                let i = choose|i: int| 0 <= i < rest.len() && rest[i] is End;
                assert(events[i + 1] is End);
            }
        }
        match events[0] {
            Fetched::Byte(byte) => {
                let bytes = consumed.push(byte);
                assert(all =~= bytes + delivered(rest));
                if decode(bytes) is Incomplete {
                    lemma_run_from(bytes, optional, rest);
                } else {
                    assert(all.take(bytes.len() as int) =~= bytes);
                    lemma_decode_settled(all, bytes.len() as int);
                    lemma_decode_next(consumed, byte);
                }
            },
            Fetched::NotReady => {
                lemma_run_from(consumed, optional, rest);
            },
            Fetched::End => {
                assert(all =~= consumed);
                assert(all.take(all.len() as int) =~= all);
            },
        }
    }
}

/// Suspension transparency, for the result: a read that is resumed once for
/// every attempt on its source, however often the source was not ready and
/// however its bytes were spread over the attempts, ends with the result of
/// a read that takes the same bytes in one go. It ends as soon as the source
/// has ended, or the bytes it has handed out hold a value or are too long;
/// until then it is pending.
pub proof fn lemma_suspension_transparent(events: Seq<Fetched>, optional: bool)
    ensures
        run(Seq::empty(), optional, events).1 == if ends(events) || !(decode(delivered(events))
            is Incomplete) {
            Progress::Done(outcome(delivered(events), optional))
        } else {
            Progress::Pending
        },
{
    lemma_run_from(Seq::empty(), optional, events);
    assert(Seq::<u8>::empty() + delivered(events) =~= delivered(events));
}

/// Suspension transparency, for the source: after any attempts the read has
/// taken from its source the bytes that a read in one go takes of what the
/// source has handed out, no more and no fewer, and in their order.
pub proof fn lemma_suspension_takes_the_same(events: Seq<Fetched>, optional: bool)
    ensures
        run(Seq::empty(), optional, events).0 == delivered(events).take(
            taken(delivered(events)) as int,
        ),
        taken(delivered(events)) <= delivered(events).len(),
{
    lemma_run_from(Seq::empty(), optional, events);
    assert(Seq::<u8>::empty() + delivered(events) =~= delivered(events));
    lemma_decode_complete(delivered(events));
}

/// Reading integers in the varint format from a byte-oriented source that
/// hands out its bytes in order and waits where it has to.
pub trait ReadVarInt {
    /// The bytes that the source has yet to give, up to its end.
    spec fn unread(&self) -> Seq<u8>;

    /// Reads a varint that fits into a `u64`.
    ///
    /// Any end of the source before the end of the value is a fault, an
    /// empty source too. The source is left behind the bytes that the read
    /// took, whatever the result.
    fn read_u64_varint(&mut self) -> (r: Result<u64, Error>)
        ensures
            r == read_result(old(self).unread()),
            final(self).unread() == old(self).unread().skip(taken(old(self).unread()) as int),
    ;

    /// Reads a varint that fits into a `usize`: the value is read as by
    /// `read_u64_varint`, and then held against the width of `usize`. A value
    /// that does not fit gives `WidthExceeded`.
    fn read_usize_varint(&mut self) -> (r: Result<usize, Error>)
        ensures
            r == narrowed_result(read_result(old(self).unread())),
            final(self).unread() == old(self).unread().skip(taken(old(self).unread()) as int),
    ;

    /// Reads a varint that fits into a `u64`, if the source holds anything.
    ///
    /// A source that is at its end gives `Ok(None)`. One that ends inside a
    /// value gives `Truncated`.
    fn try_read_u64_varint(&mut self) -> (r: Result<Option<u64>, Error>)
        ensures
            r == try_read_result(old(self).unread()),
            final(self).unread() == old(self).unread().skip(taken(old(self).unread()) as int),
    ;

    /// Reads a varint that fits into a `usize`, if the source holds anything.
    fn try_read_usize_varint(&mut self) -> (r: Result<Option<usize>, Error>)
        ensures
            r == narrowed_try_result(try_read_result(old(self).unread())),
            final(self).unread() == old(self).unread().skip(taken(old(self).unread()) as int),
    ;
}

impl<'a> ReadVarInt for &'a [u8] {
    open spec fn unread(&self) -> Seq<u8> {
        self@
    }

    fn read_u64_varint(&mut self) -> (r: Result<u64, Error>) {
        let (result, n) = read_slice(*self, false);
        *self = slice_subrange(*self, n, self.len());
        match result {
            Ok(Some(value)) => Ok(value),
            Ok(None) => Err(Error::Truncated),
            Err(e) => Err(e),
        }
    }

    fn read_usize_varint(&mut self) -> (r: Result<usize, Error>) {
        match self.read_u64_varint() {
            Ok(value) => narrow(value),
            Err(e) => Err(e),
        }
    }

    fn try_read_u64_varint(&mut self) -> (r: Result<Option<u64>, Error>) {
        let (result, n) = read_slice(*self, true);
        *self = slice_subrange(*self, n, self.len());
        result
    }

    fn try_read_usize_varint(&mut self) -> (r: Result<Option<usize>, Error>) {
        match self.try_read_u64_varint() {
            Ok(Some(value)) => match narrow(value) {
                Ok(v) => Ok(Some(v)),
                Err(e) => Err(e),
            },
            Ok(None) => Ok(None),
            Err(e) => Err(e),
        }
    }
}

} // verus!
