//! The decoding state machine: one byte in, and either more are needed, or
//! the value is there, or the encoding is too long.

use crate::error::Error;
use crate::wire::{
    continues, decode, groups_value, lemma_continued_len, lemma_continued_len_is_run,
    lemma_decode_incomplete, lemma_groups_value_bound, lemma_groups_value_push, payload, Decoded,
};
use vstd::arithmetic::power2::{lemma2_to64, lemma2_to64_rest, pow2};
use vstd::bits::lemma_u64_shl_is_mul;
use vstd::prelude::*;

verus! {

/// The state of one decode. It lives for one value: made, fed byte by byte
/// until it is done, asked for the result, and dropped.
#[derive(Clone, Copy)]
pub struct Parser {
    done: bool,
    result: u64,
    offset: usize,
    consumed: Ghost<Seq<u8>>,
}

impl Parser {
    /// The bytes pushed so far, in order.
    pub closed spec fn consumed(&self) -> Seq<u8> {
        self.consumed@
    }

    /// The number of value bits that have their place: seven for every byte
    /// pushed, up to the 63 that nine bytes fill.
    pub closed spec fn bit_offset(&self) -> nat {
        self.offset as nat
    }

    /// True once the bytes pushed hold a whole value, or are too long.
    pub open spec fn is_done(&self) -> bool {
        !(decode(self.consumed()) is Incomplete)
    }

    /// The value accumulated from the bytes pushed: the decoded value once it
    /// is whole; before that, and where the tenth byte was refused, what the
    /// groups taken in spell.
    pub open spec fn accumulated(&self) -> nat {
        match decode(self.consumed()) {
            Decoded::Complete { value, .. } => value as nat,
            Decoded::Incomplete => groups_value(self.consumed()),
            Decoded::TooLong => groups_value(self.consumed().take(9)),
        }
    }

    /// The invariant of the state: at most ten bytes were pushed, none after
    /// one that ended the value, and the fields say what these bytes decode to.
    pub closed spec fn wf(&self) -> bool {
        let s = self.consumed@;
        &&& s.len() <= 10
        &&& forall|i: int| 0 <= i < s.len() - 1 ==> continues(#[trigger] s[i])
        &&& self.done == self.is_done()
        &&& self.offset == 7 * (if s.len() < 9 { s.len() } else { 9 })
        &&& self.result == self.accumulated()
    }

    /// What holds of the bytes pushed into any parser: only the last of them
    /// can end the value, so a decoded value takes all of them.
    pub proof fn lemma_consumed(&self)
        requires
            self.wf(),
        ensures
            self.consumed().len() <= 10,
            forall|i: int| 0 <= i < self.consumed().len() - 1 ==> continues(
                #[trigger] self.consumed()[i],
            ),
            decode(self.consumed()) matches Decoded::Complete { len, .. } ==> len
                == self.consumed().len(),
            decode(self.consumed()) is TooLong ==> self.consumed().len() == 10,
            self.bit_offset() == if self.consumed().len() < 9 {
                7 * self.consumed().len()
            } else {
                63
            },
            self.accumulated() <= u64::MAX,
    {
        lemma_continued_len_is_run(self.consumed());
    }

    /// A parser that has taken no byte yet.
    pub fn new() -> (parser: Parser)
        ensures
            parser.wf(),
            parser.consumed() == Seq::<u8>::empty(),
            !parser.is_done(),
            parser.bit_offset() == 0,
            parser.accumulated() == 0,
    {
        Parser { done: false, result: 0, offset: 0, consumed: Ghost(Seq::empty()) }
    }

    /// Takes the next byte of the value.
    ///
    /// The parser must not be done. It is done after this byte where the
    /// byte ends the value, and where it is the tenth: a tenth byte other
    /// than `0x01` is refused with `LengthExceeded`.
    pub fn push(&mut self, byte: u8) -> (r: Result<(), Error>)
        requires
            old(self).wf(),
            !old(self).is_done(),
        ensures
            final(self).wf(),
            final(self).consumed() == old(self).consumed().push(byte),
            r == if decode(final(self).consumed()) is TooLong {
                Err::<(), Error>(Error::LengthExceeded)
            } else {
                Ok::<(), Error>(())
            },
            old(self).bit_offset() < 63 ==> {
                &&& r is Ok
                &&& final(self).is_done() == !continues(byte)
                &&& final(self).bit_offset() == old(self).bit_offset() + 7
                &&& final(self).accumulated() == old(self).accumulated() + payload(byte) * pow2(
                    old(self).bit_offset(),
                )
            },
            old(self).bit_offset() == 63 ==> {
                &&& r is Ok <==> byte == 0x01
                &&& final(self).is_done()
                &&& final(self).bit_offset() == 63
                &&& final(self).accumulated() == old(self).accumulated() + if byte == 0x01 {
                    pow2(63)
                } else {
                    0
                }
            },
    {
        let ghost before = self.consumed@;
        let ghost after = before.push(byte);
        proof {
            lemma2_to64();
            lemma2_to64_rest();
            lemma_continued_len_is_run(before);
            assert forall|i: int| 0 <= i < before.len() implies continues(
                #[trigger] after[i],
            ) by {
                assert(after[i] == before[i]);
            }
            lemma_groups_value_bound(before);
            lemma_groups_value_push(before, byte);
        }
        if self.offset == 63 {
            proof {
                lemma_continued_len(after, 9);
                assert(after.take(10) =~= after);
                assert(1u64 << 63 == 0x8000_0000_0000_0000u64) by (bit_vector);
            }
            self.done = true;
            self.consumed = Ghost(after);
            if byte == 0x01 {
                self.result += 1 << 63;
            } else {
                return Err(Error::LengthExceeded);
            }
        } else {
            let group: u64 = (byte & 0x7F) as u64;
            proof {
                let shift = self.offset as u64;
                assert(byte & 0x7F == byte % 0x80) by (bit_vector);
                assert((byte & 0x80 == 0) == (byte < 0x80)) by (bit_vector);
                let w = pow2(shift as nat) as int;
                assert(group * w <= 0x7f * w) by (nonlinear_arith)
                    requires
                        0 <= group <= 0x7f,
                        0 <= w,
                ;
                lemma_u64_shl_is_mul(group, shift);
                if continues(byte) {
                    lemma_decode_incomplete(after);
                } else {
                    lemma_continued_len(after, before.len());
                    assert(after.take(after.len() as int) =~= after);
                }
            }
            self.done = byte & 0x80 == 0;
            self.result += group << self.offset;
            self.offset += 7;
            self.consumed = Ghost(after);
        }
        Ok(())
    }

    /// True once the value is whole or the encoding was refused: the parser
    /// takes no more bytes.
    pub fn done(&self) -> (b: bool)
        requires
            self.wf(),
        ensures
            b == self.is_done(),
    {
        self.done
    }

    /// The value, once the parser is done.
    pub fn result(self) -> (value: u64)
        requires
            self.wf(),
            self.is_done(),
        ensures
            value == self.accumulated(),
    {
        self.result
    }
}

} // verus!
