//! Writing a value: the encoder, and the write of its bytes to a sink.

use crate::wire::{encode, lemma_encode_len};
use arrayvec::ArrayVec;
use vstd::prelude::*;

verus! {

/// The bytes of one encoding, held in place in an `arrayvec::ArrayVec` with
/// room for ten bytes. Nothing is known of a value of it but what the items
/// below state.
#[verifier::external_body]
pub struct Encoded {
    bytes: ArrayVec<[u8; 10]>,
}

/// The bytes that the vector holds, first to last.
pub uninterp spec fn encoded_bytes(e: Encoded) -> Seq<u8>;

/// `ArrayVec::new`: a vector that holds nothing.
#[verifier::external_body]
fn encoded_new() -> (e: Encoded)
    ensures
        encoded_bytes(e) == Seq::<u8>::empty(),
{
    Encoded { bytes: ArrayVec::new() }
}

/// `ArrayVec::push`: puts `byte` behind what the vector holds. The call
/// panics on a full vector, so fewer than ten bytes must be in it.
#[verifier::external_body]
fn encoded_push(e: &mut Encoded, byte: u8)
    requires
        encoded_bytes(*old(e)).len() < 10,
    ensures
        encoded_bytes(*final(e)) == encoded_bytes(*old(e)).push(byte),
{
    e.bytes.push(byte)
}

/// `ArrayVec::as_slice`: what the vector holds, as a slice.
#[verifier::external_body]
fn encoded_as_slice(e: &Encoded) -> (s: &[u8])
    ensures
        s@ == encoded_bytes(*e),
{
    e.bytes.as_slice()
}

/// Encodes `val`: seven bits to a byte from the least significant end, the
/// continuation bit on every byte but the last, and no byte more than the
/// value needs.
fn encode_u64_varint(val: u64) -> (bytes: Encoded)
    ensures
        encoded_bytes(bytes) == encode(val),
{
    let mut bytes = encoded_new();
    let mut rest: u64 = val;
    proof {
        lemma_encode_len(val);
    }
    while rest > 0x7F
        invariant
            encoded_bytes(bytes) + encode(rest) == encode(val),
            encode(val).len() <= 10,
        decreases rest,
    {
        proof {
            assert((rest as u8 | 0x80u8) == (0x80 + rest % 0x80) as u8) by (bit_vector);
            assert(rest >> 7 == rest / 0x80) by (bit_vector);
        }
        encoded_push(&mut bytes, rest as u8 | 0x80);
        rest = rest >> 7;
    }
    encoded_push(&mut bytes, rest as u8);
    bytes
}

/// Writes the encoding of `val` to the sink `w`, in one write and behind
/// what the sink holds, and hands the sink back.
pub fn write_u64_varint(w: Vec<u8>, val: u64) -> (written: Vec<u8>)
    ensures
        written@ == w@ + encode(val),
{
    let bytes = encode_u64_varint(val);
    let mut sink = w;
    sink.extend_from_slice(encoded_as_slice(&bytes));
    sink
}

/// Writes the encoding of `val`, a `usize`, as `write_u64_varint` does.
pub fn write_usize_varint(w: Vec<u8>, val: usize) -> (written: Vec<u8>)
    ensures
        written@ == w@ + encode(val as u64),
{
    write_u64_varint(w, val as u64)
}

} // verus!
