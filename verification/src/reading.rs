//! A read as a value that can wait.
//!
//! A source that has no byte yet must not hold up its reader. [`Reading`]
//! is a read between two bytes: it holds what the read has come to, takes
//! what one attempt on the source gave, and says whether the read is over.
//! Who drives it performs the attempts, and may put the read down after any
//! of them.

use crate::error::Error;
use crate::parser::Parser;
use crate::wire::{decode, Decoded};
use vstd::prelude::*;

verus! {

/// What one attempt to take the next byte from a source gave.
#[derive(Debug, Clone, Copy, PartialEq, Eq, Structural)]
pub enum Fetched {
    /// The next byte.
    Byte(u8),
    /// Nothing yet: the source may give a byte later.
    NotReady,
    /// Nothing, and nothing will come.
    End,
}

/// Where a read stands after a step.
#[derive(Debug, Clone, Copy, PartialEq, Eq)]
pub enum Progress {
    /// The value is not whole yet and the source has not ended.
    Pending,
    /// The read is over, with this result.
    Done(Result<Option<u64>, Error>),
}

/// One step of a read that has taken `consumed` so far: the bytes it has
/// taken after the step, and where it stands then.
pub open spec fn step(consumed: Seq<u8>, optional: bool, fetched: Fetched) -> (Seq<u8>, Progress) {
    match fetched {
        Fetched::Byte(byte) => {
            let bytes = consumed.push(byte);
            (
                bytes,
                match decode(bytes) {
                    Decoded::Complete { value, .. } => Progress::Done(Ok(Some(value))),
                    Decoded::Incomplete => Progress::Pending,
                    Decoded::TooLong => Progress::Done(Err(Error::LengthExceeded)),
                },
            )
        },
        Fetched::NotReady => (consumed, Progress::Pending),
        Fetched::End => (
            consumed,
            if optional && consumed.len() == 0 {
                Progress::Done(Ok(None))
            } else {
                Progress::Done(Err(Error::Truncated))
            },
        ),
    }
}

/// A read in progress: the parser's state, and whether the read may find
/// nothing. Between two steps it holds all that the read has come to, so a
/// read that waits for its source loses nothing.
pub struct Reading {
    parser: Parser,
    optional: bool,
    started: bool,
    over: bool,
}

impl Reading {
    /// The bytes that the read has taken from its source.
    pub closed spec fn consumed(&self) -> Seq<u8> {
        self.parser.consumed()
    }

    /// True for a read that reports an empty source as "no value".
    pub closed spec fn optional(&self) -> bool {
        self.optional
    }

    /// True once a step has ended the read.
    pub closed spec fn is_over(&self) -> bool {
        self.over
    }

    /// The invariant: a read that is not over has a parser that takes bytes.
    pub closed spec fn wf(&self) -> bool {
        &&& self.parser.wf()
        &&& self.started == (self.parser.consumed().len() > 0)
        &&& !self.over ==> !self.parser.is_done()
    }

    /// Starts a read. An `optional` read reports a source that ends before
    /// its first byte as no value; any other end of the source is a fault.
    pub fn new(optional: bool) -> (reading: Reading)
        ensures
            reading.wf(),
            reading.consumed() == Seq::<u8>::empty(),
            reading.optional() == optional,
            !reading.is_over(),
    {
        Reading { parser: Parser::new(), optional, started: false, over: false }
    }

    /// Takes the read one step on, with what the source gave.
    pub fn resume(&mut self, fetched: Fetched) -> (progress: Progress)
        requires
            old(self).wf(),
            !old(self).is_over(),
        ensures
            final(self).wf(),
            final(self).optional() == old(self).optional(),
            (final(self).consumed(), progress) == step(
                old(self).consumed(),
                old(self).optional(),
                fetched,
            ),
            final(self).is_over() == !(progress is Pending),
            fetched is NotReady ==> *final(self) == *old(self),
    {
        match fetched {
            Fetched::Byte(byte) => {
                self.started = true;
                match self.parser.push(byte) {
                    Ok(()) => {
                        if self.parser.done() {
                            self.over = true;
                            Progress::Done(Ok(Some(self.parser.result())))
                        } else {
                            Progress::Pending
                        }
                    },
                    Err(e) => {
                        self.over = true;
                        Progress::Done(Err(e))
                    },
                }
            },
            Fetched::NotReady => Progress::Pending,
            Fetched::End => {
                self.over = true;
                if self.optional && !self.started {
                    Progress::Done(Ok(None))
                } else {
                    Progress::Done(Err(Error::Truncated))
                }
            },
        }
    }
}

/// The bytes that a source hands out through the attempts `events`, up to
/// the attempt that finds it at its end.
pub open spec fn delivered(events: Seq<Fetched>) -> Seq<u8>
    decreases events.len(),
{
    if events.len() == 0 {
        Seq::empty()
    } else {
        match events[0] {
            Fetched::Byte(byte) => seq![byte] + delivered(events.skip(1)),
            Fetched::NotReady => delivered(events.skip(1)),
            Fetched::End => Seq::empty(),
        }
    }
}

/// True where one of the attempts `events` finds the source at its end.
pub open spec fn ends(events: Seq<Fetched>) -> bool {
    exists|i: int| 0 <= i < events.len() && events[i] is End
}

/// A read that has taken `consumed`, after the steps for `events`, made
/// one after the other until one of them ends the read: the bytes that it
/// has taken from its source then, and where it stands.
pub open spec fn run(consumed: Seq<u8>, optional: bool, events: Seq<Fetched>) -> (
    Seq<u8>,
    Progress,
)
    decreases events.len(),
{
    if events.len() == 0 {
        (consumed, Progress::Pending)
    } else {
        let (bytes, progress) = step(consumed, optional, events[0]);
        if progress is Pending {
            run(bytes, optional, events.skip(1))
        } else {
            (bytes, progress)
        }
    }
}

} // verus!
