//! The wire format, as mathematics.
//!
//! One value is spelled by one to ten bytes. Each byte carries a group of
//! seven value bits, least significant group first, and its high bit says
//! whether another byte follows. The tenth byte has room for bit 63 alone.

use vstd::arithmetic::power2::{lemma2_to64, lemma2_to64_rest, lemma_pow2_adds, lemma_pow2_pos, pow2};
use vstd::math::max;
use vstd::prelude::*;

verus! {

/// The most bytes that one value takes.
pub const MAX_LEN: usize = 10;

/// True when `byte` has its continuation bit set: another byte follows.
pub open spec fn continues(byte: u8) -> bool {
    byte >= 0x80
}

/// The group of seven value bits that `byte` carries.
pub open spec fn payload(byte: u8) -> nat {
    (byte % 0x80) as nat
}

/// The number that the groups of `bytes` spell: the group of the byte at
/// index `i` stands for the value bits `7 * i` to `7 * i + 6`.
pub open spec fn groups_value(bytes: Seq<u8>) -> nat
    decreases bytes.len(),
{
    if bytes.len() == 0 {
        0
    } else {
        groups_value(bytes.drop_last()) + payload(bytes.last()) * pow2((7 * (bytes.len() - 1)) as nat)
    }
}

/// How many bytes at the front of `bytes` have their continuation bit set.
pub open spec fn continued_len(bytes: Seq<u8>) -> nat
    decreases bytes.len(),
{
    if bytes.len() > 0 && continues(bytes[0]) {
        1 + continued_len(bytes.skip(1))
    } else {
        0
    }
}

/// What the front of a byte sequence holds.
pub enum Decoded {
    /// A whole value, spelled by the first `len` bytes.
    Complete { value: u64, len: nat },
    /// The start of a value and nothing against it, but not its end.
    Incomplete,
    /// Ten bytes that spell a number of more than 64 bits.
    TooLong,
}

/// Reads the front of `bytes` as one value.
///
/// A value ends with the first byte whose continuation bit is clear, if that
/// byte is among the first nine. Where nine bytes continue, the tenth byte
/// ends the value and has to be `0x01`, which stands for bit 63. Redundant
/// zero groups before the tenth byte are read as what they are worth.
///
/// The value is the number that the groups spell: that number fits into 64
/// bits, as `lemma_decode_complete` shows.
pub open spec fn decode(bytes: Seq<u8>) -> Decoded {
    let n = continued_len(bytes);
    if n < bytes.len() && n < 9 {
        Decoded::Complete { value: groups_value(bytes.take(n + 1 as int)) as u64, len: n + 1 }
    } else if bytes.len() < 10 {
        Decoded::Incomplete
    } else if bytes[9] == 0x01 {
        Decoded::Complete { value: groups_value(bytes.take(10)) as u64, len: 10 }
    } else {
        Decoded::TooLong
    }
}

/// The encoding of `value`: its groups from the least significant on, as few
/// as hold all its set bits and at least one, every byte but the last with
/// the continuation bit set.
pub open spec fn encode(value: u64) -> Seq<u8>
    decreases value,
{
    if value < 0x80 {
        seq![value as u8]
    } else {
        seq![(0x80 + value % 0x80) as u8] + encode(value / 0x80)
    }
}

/// The number of bits of `value` up to and including its highest set bit;
/// zero for zero.
pub open spec fn bit_length(value: u64) -> nat
    decreases value,
{
    if value == 0 {
        0
    } else {
        1 + bit_length(value / 2)
    }
}

/// The least number of seven-bit groups that hold `bits` bits.
pub open spec fn groups_for(bits: nat) -> nat {
    (bits + 6) / 7
}

/// Appending a byte adds its group at the next free position.
pub proof fn lemma_groups_value_push(bytes: Seq<u8>, byte: u8)
    ensures
        groups_value(bytes.push(byte)) == groups_value(bytes) + payload(byte) * pow2(
            (7 * bytes.len()) as nat,
        ),
{
    assert(bytes.push(byte).drop_last() =~= bytes);
}

/// Putting a byte in front moves every other group up by seven bits.
pub proof fn lemma_groups_value_cons(byte: u8, rest: Seq<u8>)
    ensures
        groups_value(seq![byte] + rest) == payload(byte) + 0x80 * groups_value(rest),
    decreases rest.len(),
{
    let all = seq![byte] + rest;
    lemma2_to64();
    if rest.len() == 0 {
        lemma_groups_value_push(Seq::<u8>::empty(), byte);
        let p = payload(byte) as int;
        let w = pow2(0) as int;
        assert(p * w == p) by (nonlinear_arith)
            requires
                w == 1,
        ;
    } else {
        let shorter = rest.drop_last();
        let e = (7 * (rest.len() - 1)) as nat;
        assert(all =~= (seq![byte] + shorter).push(rest.last()));
        lemma_groups_value_push(seq![byte] + shorter, rest.last());
        lemma_groups_value_cons(byte, shorter);
        lemma_pow2_adds(7, e);
        let p = payload(rest.last()) as int;
        let w = pow2(e) as int;
        let ww = pow2((7 + e) as nat) as int;
        assert(p * ww == 0x80 * (p * w)) by (nonlinear_arith)
            requires
                ww == 0x80 * w,
        ;
    }
}

/// `n` groups spell a number below `2^(7n)`.
pub proof fn lemma_groups_value_bound(bytes: Seq<u8>)
    ensures
        groups_value(bytes) < pow2((7 * bytes.len()) as nat),
    decreases bytes.len(),
{
    lemma2_to64();
    if bytes.len() > 0 {
        let e = (7 * (bytes.len() - 1)) as nat;
        lemma_groups_value_bound(bytes.drop_last());
        lemma_pow2_adds(7, e);
        let p = payload(bytes.last()) as int;
        let w = pow2(e) as int;
        assert(p * w <= 0x7f * w) by (nonlinear_arith)
            requires
                0 <= p <= 0x7f,
                0 <= w,
        ;
    }
}

/// Where the first `n` bytes all continue, `continued_len` is at least `n`,
/// and it is `n` exactly where the byte after them is there and ends the run.
pub proof fn lemma_continued_len(bytes: Seq<u8>, n: nat)
    requires
        n <= bytes.len(),
        forall|i: int| 0 <= i < n ==> continues(#[trigger] bytes[i]),
    ensures
        continued_len(bytes) >= n,
        n == bytes.len() ==> continued_len(bytes) == n,
        n < bytes.len() && !continues(bytes[n as int]) ==> continued_len(bytes) == n,
    decreases n,
{
    if n > 0 {
        let rest = bytes.skip(1);
        assert forall|i: int| 0 <= i < n - 1 implies continues(#[trigger] rest[i]) by {
            assert(rest[i] == bytes[i + 1]);
        }
        lemma_continued_len(rest, (n - 1) as nat);
    }
}

/// The bytes that `continued_len` counts do continue, and the one after them
/// does not.
pub proof fn lemma_continued_len_is_run(bytes: Seq<u8>)
    ensures
        continued_len(bytes) <= bytes.len(),
        forall|i: int| 0 <= i < continued_len(bytes) ==> continues(#[trigger] bytes[i]),
        continued_len(bytes) < bytes.len() ==> !continues(bytes[continued_len(bytes) as int]),
    decreases bytes.len(),
{
    if bytes.len() > 0 && continues(bytes[0]) {
        let rest = bytes.skip(1);
        lemma_continued_len_is_run(rest);
        assert forall|i: int| 0 <= i < continued_len(bytes) implies continues(
            #[trigger] bytes[i],
        ) by {
            if i > 0 {
                assert(bytes[i] == rest[i - 1]);
            }
        }
    }
}

/// A complete value takes one to ten of the bytes that are there, and is
/// the number that the groups of these bytes spell, which fits into 64 bits.
pub proof fn lemma_decode_complete(bytes: Seq<u8>)
    ensures
        decode(bytes) matches Decoded::Complete { value, len } ==> 1 <= len <= MAX_LEN && len
            <= bytes.len() && value == groups_value(bytes.take(len as int)),
{
    lemma2_to64();
    lemma2_to64_rest();
    match decode(bytes) {
        Decoded::Complete { value, len } => {
            if len < 10 {
                lemma_groups_value_bound(bytes.take(len as int));
                lemma_pow2_increases((7 * len) as nat, 63);
            } else {
                let nine = bytes.take(9);
                assert(bytes.take(10).drop_last() =~= nine);
                lemma_groups_value_bound(nine);
                assert(payload(bytes[9]) == 1);
            }
        },
        _ => {},
    }
}

/// `2^a <= 2^b` where `a <= b`.
pub proof fn lemma_pow2_increases(a: nat, b: nat)
    requires
        a <= b,
    ensures
        pow2(a) <= pow2(b),
{
    lemma_pow2_adds(a, (b - a) as nat);
    lemma_pow2_pos((b - a) as nat);
    let x = pow2(a) as int;
    let y = pow2((b - a) as nat) as int;
    assert(x <= x * y) by (nonlinear_arith)
        requires
            0 <= x,
            1 <= y,
    ;
}

/// What the front of `bytes` holds is settled by its first `k` bytes as soon
/// as these hold a whole value or are too long: bytes behind them change
/// nothing.
pub proof fn lemma_decode_settled(bytes: Seq<u8>, k: int)
    requires
        0 <= k <= bytes.len(),
        !(decode(bytes.take(k)) is Incomplete),
    ensures
        decode(bytes) == decode(bytes.take(k)),
{
    let front = bytes.take(k);
    let n = continued_len(front);
    lemma_continued_len_is_run(front);
    assert forall|i: int| 0 <= i < n implies continues(#[trigger] bytes[i]) by {
        assert(bytes[i] == front[i]);
    }
    lemma_continued_len(bytes, n);
    if n < front.len() && n < 9 {
        assert(bytes.take(n + 1 as int) =~= front.take(n + 1 as int));
    } else {
        assert(bytes.take(10) =~= front.take(10));
    }
}

/// A sequence is incomplete exactly where it has at most nine bytes and
/// every one of them continues.
pub proof fn lemma_decode_incomplete(bytes: Seq<u8>)
    ensures
        decode(bytes) is Incomplete <==> bytes.len() <= 9 && forall|i: int|
            0 <= i < bytes.len() ==> continues(#[trigger] bytes[i]),
{
    lemma_continued_len_is_run(bytes);
}

/// One more byte behind an incomplete sequence: where that settles what
/// the sequence holds, the new byte is the last of the value, or the tenth.
pub proof fn lemma_decode_next(bytes: Seq<u8>, byte: u8)
    requires
        decode(bytes) is Incomplete,
    ensures
        decode(bytes.push(byte)) matches Decoded::Complete { len, .. } ==> len == bytes.len() + 1,
        decode(bytes.push(byte)) is TooLong ==> bytes.len() == 9,
{
    let longer = bytes.push(byte);
    lemma_decode_incomplete(bytes);
    assert forall|i: int| 0 <= i < bytes.len() implies continues(#[trigger] longer[i]) by {
        assert(longer[i] == bytes[i]);
    }
    lemma_continued_len(longer, bytes.len());
}

/// What the encoder gives for every value: at least one byte, every byte but
/// the last with the continuation bit set and the last without, no zero group
/// at the end of more than one byte, and groups that spell the value.
pub proof fn lemma_encode_shape(value: u64)
    ensures
        encode(value).len() >= 1,
        forall|i: int| 0 <= i < encode(value).len() - 1 ==> continues(#[trigger] encode(value)[i]),
        !continues(encode(value).last()),
        encode(value).len() >= 2 ==> encode(value).last() != 0,
        groups_value(encode(value)) == value,
    decreases value,
{
    let s = encode(value);
    if value < 0x80 {
        lemma_groups_value_cons(value as u8, Seq::<u8>::empty());
        assert(s =~= seq![value as u8] + Seq::<u8>::empty());
    } else {
        let first = (0x80 + value % 0x80) as u8;
        let rest = encode(value / 0x80);
        lemma_encode_shape(value / 0x80);
        lemma_groups_value_cons(first, rest);
        assert forall|i: int| 0 <= i < s.len() - 1 implies continues(#[trigger] s[i]) by {
            if i > 0 {
                assert(s[i] == rest[i - 1]);
            }
        }
    }
}

/// A value below `2^(7k)` is encoded in at most `k` bytes.
pub proof fn lemma_encode_len_bound(value: u64, k: nat)
    requires
        k >= 1,
        value < pow2(7 * k),
    ensures
        encode(value).len() <= k,
    decreases value,
{
    if value >= 0x80 {
        lemma2_to64();
        if k > 1 {
            lemma_pow2_adds(7, (7 * (k - 1)) as nat);
            lemma_encode_len_bound(value / 0x80, (k - 1) as nat);
        }
    }
}

/// No encoding is longer than ten bytes.
pub proof fn lemma_encode_len(value: u64)
    ensures
        1 <= encode(value).len() <= MAX_LEN,
{
    lemma2_to64();
    lemma_pow2_adds(64, 6);
    lemma_encode_len_bound(value, 10);
}

/// Round trip: reading the encoding of a value gives that value back, and
/// takes the whole encoding.
pub proof fn lemma_decode_encode(value: u64)
    ensures
        decode(encode(value)) == (Decoded::Complete { value, len: encode(value).len() }),
{
    let s = encode(value);
    lemma_encode_shape(value);
    lemma_encode_len(value);
    let n = (s.len() - 1) as nat;
    lemma_continued_len(s, n);
    if n < 9 {
        assert(s.take(n + 1 as int) =~= s);
    } else {
        assert(s.take(10) =~= s);
        lemma2_to64_rest();
        let p = payload(s[9]) as int;
        let w = pow2(63) as int;
        assert(p <= 1) by (nonlinear_arith)
            requires
                p * w < 2 * w,
                0 < w,
        ;
    }
}

/// Seven more bits, as many groups as the rest and one more.
proof fn lemma_bit_length_group(value: u64)
    ensures
        value < 0x80 ==> bit_length(value) <= 7,
        value >= 0x80 ==> bit_length(value) == 7 + bit_length(value / 0x80),
{
    reveal_with_fuel(bit_length, 8);
}

/// Minimality: the encoding of a value has as many bytes as its bits need
/// groups of seven, and one byte where the value is zero.
pub proof fn lemma_encode_minimal(value: u64)
    ensures
        encode(value).len() == max(1, groups_for(bit_length(value)) as int),
        encode(0) == seq![0u8],
    decreases value,
{
    lemma_bit_length_group(value);
    if value >= 0x80 {
        lemma_encode_minimal(value / 0x80);
    }
}

/// Ten bytes of which the first nine continue hold a value only where the
/// tenth byte is `0x01`: with any other tenth byte they are too long.
pub proof fn lemma_tenth_byte(bytes: Seq<u8>)
    requires
        bytes.len() == 10,
        forall|i: int| 0 <= i < 9 ==> continues(#[trigger] bytes[i]),
    ensures
        bytes[9] != 0x01 ==> decode(bytes) is TooLong,
        bytes[9] == 0x01 ==> (decode(bytes) matches Decoded::Complete { value, len } && len == 10
            && value == groups_value(bytes.take(9)) + pow2(63)),
{
    lemma_continued_len(bytes, 9);
    lemma_decode_complete(bytes);
    lemma_groups_value_push(bytes.take(9), bytes[9]);
    assert(bytes.take(10) =~= bytes.take(9).push(bytes[9]));
    let p = payload(bytes[9]) as int;
    let w = pow2(63) as int;
    assert(p == 1 ==> p * w == w) by (nonlinear_arith);
}

} // verus!
