//! Byte strings: integers in little- and big-endian order, comparison and concatenation.

use vstd::arithmetic::div_mod::{lemma_breakdown, lemma_div_denominator};
use vstd::prelude::*;

verus! {

/// The number a big-endian byte string stands for.
pub open spec fn be_value(bytes: Seq<u8>) -> nat
    decreases bytes.len(),
{
    if bytes.len() == 0 {
        0
    } else {
        be_value(bytes.drop_last()) * 256 + bytes.last() as nat
    }
}

/// The number a little-endian byte string stands for.
pub open spec fn le_value(bytes: Seq<u8>) -> nat
    decreases bytes.len(),
{
    if bytes.len() == 0 {
        0
    } else {
        bytes.first() as nat + 256 * le_value(bytes.drop_first())
    }
}

/// The `width` low bytes of `value`, least significant first.
pub open spec fn le_bytes(value: nat, width: nat) -> Seq<u8>
    decreases width,
{
    if width == 0 {
        Seq::empty()
    } else {
        seq![(value % 256) as u8] + le_bytes(value / 256, (width - 1) as nat)
    }
}

/// The `width` low bytes of `value`, most significant first.
pub open spec fn be_bytes(value: nat, width: nat) -> Seq<u8>
    decreases width,
{
    if width == 0 {
        Seq::empty()
    } else {
        be_bytes(value / 256, (width - 1) as nat).push((value % 256) as u8)
    }
}

/// The largest number that `width` bytes can hold, plus one.
pub open spec fn byte_range(width: nat) -> nat
    decreases width,
{
    if width == 0 {
        1
    } else {
        256 * byte_range((width - 1) as nat)
    }
}

/// Writing a number in `width` little-endian bytes and reading it back gives the number,
/// provided it fits.
pub proof fn law_le_round_trip(value: nat, width: nat)
    requires
        value < byte_range(width),
    ensures
        le_bytes(value, width).len() == width,
        le_value(le_bytes(value, width)) == value,
    decreases width,
{
    if width > 0 {
        law_le_round_trip(value / 256, (width - 1) as nat);
        let bytes = le_bytes(value, width);
        assert(bytes.drop_first() =~= le_bytes(value / 256, (width - 1) as nat));
    }
}

/// Writing a number in `width` big-endian bytes and reading it back gives the number, provided
/// it fits.
pub proof fn law_be_round_trip(value: nat, width: nat)
    requires
        value < byte_range(width),
    ensures
        be_bytes(value, width).len() == width,
        be_value(be_bytes(value, width)) == value,
    decreases width,
{
    if width > 0 {
        law_be_round_trip(value / 256, (width - 1) as nat);
        let bytes = be_bytes(value, width);
        assert(bytes.drop_last() =~= be_bytes(value / 256, (width - 1) as nat));
    }
}

/// A little-endian byte string is the encoding of its value in as many bytes as it has.
pub proof fn lemma_le_bytes_of_value(bytes: Seq<u8>)
    ensures
        le_value(bytes) < byte_range(bytes.len()),
        le_bytes(le_value(bytes), bytes.len()) == bytes,
    decreases bytes.len(),
{
    if bytes.len() > 0 {
        let rest = bytes.drop_first();
        lemma_le_bytes_of_value(rest);
        assert(le_value(bytes) / 256 == le_value(rest));
        assert(le_value(bytes) % 256 == bytes.first() as nat);
        assert(seq![bytes.first()] + rest =~= bytes);
    } else {
        assert(bytes =~= Seq::<u8>::empty());
    }
}

/// How many bytes `le_bytes` and `be_bytes` give.
pub proof fn lemma_widths(value: nat, width: nat)
    ensures
        le_bytes(value, width).len() == width,
        be_bytes(value, width).len() == width,
    decreases width,
{
    if width > 0 {
        lemma_widths(value / 256, (width - 1) as nat);
    }
}

/// What a sequence of byte strings stands for.
pub open spec fn views(strings: Seq<Vec<u8>>) -> Seq<Seq<u8>> {
    strings.map_values(|bytes: Vec<u8>| bytes@)
}

/// Append the bytes of `tail` to `out`.
pub fn push_all(out: &mut Vec<u8>, tail: &[u8])
    ensures
        final(out)@ == old(out)@ + tail@,
{
    out.extend_from_slice(tail);
    assert(out@ =~= old(out)@ + tail@);
}

/// The bytes of `bytes`, in a vector of their own.
pub fn to_vec(bytes: &[u8]) -> (out: Vec<u8>)
    ensures
        out@ == bytes@,
{
    let mut out: Vec<u8> = Vec::new();
    push_all(&mut out, bytes);
    assert(out@ =~= bytes@);
    out
}

/// Whether two byte strings are the same.
pub fn equal(left: &[u8], right: &[u8]) -> (same: bool)
    ensures
        same == (left@ == right@),
{
    if left.len() != right.len() {
        return false;
    }
    let mut i: usize = 0;
    while i < left.len()
        invariant
            i <= left.len(),
            left.len() == right.len(),
            forall|j: int| 0 <= j < i ==> left@[j] == right@[j],
        decreases left.len() - i,
    {
        if left[i] != right[i] {
            return false;
        }
        i += 1;
    }
    assert(left@ =~= right@);
    true
}

/// Append a 16-bit number in little-endian order.
pub fn push_u16_le(out: &mut Vec<u8>, value: u16)
    ensures
        final(out)@ == old(out)@ + le_bytes(value as nat, 2),
{
    reveal_with_fuel(le_bytes, 3);
    out.push((value % 256) as u8);
    out.push((value / 256) as u8);
    assert(out@ =~= old(out)@ + le_bytes(value as nat, 2));
}

/// Append a 32-bit number in little-endian order.
pub fn push_u32_le(out: &mut Vec<u8>, value: u32)
    ensures
        final(out)@ == old(out)@ + le_bytes(value as nat, 4),
{
    reveal_with_fuel(le_bytes, 5);
    out.push((value % 256) as u8);
    out.push((value / 256 % 256) as u8);
    out.push((value / 256 / 256 % 256) as u8);
    out.push((value / 256 / 256 / 256) as u8);
    assert(out@ =~= old(out)@ + le_bytes(value as nat, 4));
}

/// Append a 64-bit number in little-endian order.
pub fn push_u64_le(out: &mut Vec<u8>, value: u64)
    ensures
        final(out)@ == old(out)@ + le_bytes(value as nat, 8),
{
    let mut rest: u64 = value;
    let mut i: usize = 0;
    while i < 8
        invariant
            i <= 8,
            out@ + le_bytes(rest as nat, (8 - i) as nat) == old(out)@ + le_bytes(value as nat, 8),
        decreases 8 - i,
    {
        let ghost before = out@;
        out.push((rest % 256) as u8);
        proof {
            assert(out@ + le_bytes(rest as nat / 256, (7 - i) as nat) =~= before + le_bytes(
                rest as nat,
                (8 - i) as nat,
            ));
        }
        rest = rest / 256;
        i += 1;
    }
    assert(out@ + le_bytes(rest as nat, 0) =~= out@);
}

/// Append a 16-bit number in big-endian order.
pub fn push_u16_be(out: &mut Vec<u8>, value: u16)
    ensures
        final(out)@ == old(out)@ + be_bytes(value as nat, 2),
{
    reveal_with_fuel(be_bytes, 3);
    out.push((value / 256) as u8);
    out.push((value % 256) as u8);
    assert(out@ =~= old(out)@ + be_bytes(value as nat, 2));
}

/// Append a 32-bit number in big-endian order.
pub fn push_u32_be(out: &mut Vec<u8>, value: u32)
    ensures
        final(out)@ == old(out)@ + be_bytes(value as nat, 4),
{
    reveal_with_fuel(be_bytes, 5);
    out.push((value / 256 / 256 / 256) as u8);
    out.push((value / 256 / 256 % 256) as u8);
    out.push((value / 256 % 256) as u8);
    out.push((value % 256) as u8);
    assert(out@ =~= old(out)@ + be_bytes(value as nat, 4));
}

/// A big-endian encoding is that of the upper bytes followed by that of the lower bytes.
proof fn lemma_be_split(value: nat, upper: nat, lower: nat)
    ensures
        byte_range(lower) > 0,
        be_bytes(value, upper + lower) == be_bytes(value / byte_range(lower), upper) + be_bytes(
            value,
            lower,
        ),
    decreases lower,
{
    if lower == 0 {
        assert(byte_range(0) == 1);
        assert(value / 1 == value);
        assert(be_bytes(value, upper) + be_bytes(value, 0) =~= be_bytes(value, upper));
    } else {
        let below = (lower - 1) as nat;
        lemma_be_split(value / 256, upper, below);
        lemma_div_denominator(value as int, 256, byte_range(below) as int);
        assert(be_bytes(value, upper + lower) =~= be_bytes(value / byte_range(lower), upper)
            + be_bytes(value, lower));
    }
}

/// Only the low bytes of a number show in its encoding.
proof fn lemma_be_low(value: nat, width: nat)
    ensures
        byte_range(width) > 0,
        be_bytes(value % byte_range(width), width) == be_bytes(value, width),
    decreases width,
{
    if width > 0 {
        let below = (width - 1) as nat;
        lemma_be_low(value / 256, below);
        lemma_breakdown(value as int, 256, byte_range(below) as int);
        let low = value % byte_range(width);
        assert(low / 256 == (value / 256) % byte_range(below));
        assert(low % 256 == value % 256);
    }
}

/// Append a 64-bit number in big-endian order.
pub fn push_u64_be(out: &mut Vec<u8>, value: u64)
    ensures
        final(out)@ == old(out)@ + be_bytes(value as nat, 8),
{
    push_u32_be(out, (value / 0x1_0000_0000) as u32);
    push_u32_be(out, (value % 0x1_0000_0000) as u32);
    proof {
        reveal_with_fuel(byte_range, 5);
        lemma_be_split(value as nat, 4, 4);
        lemma_be_low(value as nat, 4);
    }
    assert(out@ =~= old(out)@ + be_bytes(value as nat, 8));
}

/// The 32-bit number at `offset`, in little-endian order.
pub fn u32_le_at(bytes: &[u8], offset: usize) -> (value: u32)
    requires
        offset + 4 <= bytes@.len(),
    ensures
        value == le_value(bytes@.subrange(offset as int, offset + 4)),
{
    let value: u32 = bytes[offset] as u32 + 256 * (bytes[offset + 1] as u32) + 0x1_0000 * (
    bytes[offset + 2] as u32) + 0x100_0000 * (bytes[offset + 3] as u32);
    proof {
        reveal_with_fuel(le_value, 5);
        let field = bytes@.subrange(offset as int, offset + 4);
        assert(field.drop_first()[0] == bytes@[offset + 1]);
        assert(field.drop_first().drop_first()[0] == bytes@[offset + 2]);
        assert(field.drop_first().drop_first().drop_first()[0] == bytes@[offset + 3]);
    }
    value
}

/// A big-endian byte string is the encoding of its value in as many bytes as it has.
pub proof fn law_be_bytes_of_value(bytes: Seq<u8>)
    ensures
        be_bytes(be_value(bytes), bytes.len()) == bytes,
    decreases bytes.len(),
{
    if bytes.len() > 0 {
        let front = bytes.drop_last();
        law_be_bytes_of_value(front);
        assert(be_value(bytes) / 256 == be_value(front));
        assert(be_value(bytes) % 256 == bytes.last() as nat);
        assert(front.push(bytes.last()) =~= bytes);
    } else {
        assert(bytes =~= Seq::<u8>::empty());
    }
}

/// What the bytes of a number of two, four or eight bytes add up to, in both orders: each byte
/// counts 256 times as much as the one beside it.
pub proof fn law_place_values(bytes: Seq<u8>)
    ensures
        bytes.len() == 2 ==> le_value(bytes) == bytes[0] + 0x100 * bytes[1],
        bytes.len() == 2 ==> be_value(bytes) == 0x100 * bytes[0] + bytes[1],
        bytes.len() == 4 ==> le_value(bytes) == bytes[0] + 0x100 * bytes[1] + 0x1_0000 * bytes[2]
            + 0x100_0000 * bytes[3],
        bytes.len() == 4 ==> be_value(bytes) == 0x100_0000 * bytes[0] + 0x1_0000 * bytes[1] + 0x100
            * bytes[2] + bytes[3],
        bytes.len() == 8 ==> le_value(bytes) == bytes[0] + 0x100 * bytes[1] + 0x1_0000 * bytes[2]
            + 0x100_0000 * bytes[3] + 0x1_0000_0000 * bytes[4] + 0x100_0000_0000 * bytes[5]
            + 0x1_0000_0000_0000 * bytes[6] + 0x100_0000_0000_0000 * bytes[7],
        bytes.len() == 8 ==> be_value(bytes) == 0x100_0000_0000_0000 * bytes[0]
            + 0x1_0000_0000_0000 * bytes[1] + 0x100_0000_0000 * bytes[2] + 0x1_0000_0000
            * bytes[3] + 0x100_0000 * bytes[4] + 0x1_0000 * bytes[5] + 0x100 * bytes[6] + bytes[7],
{
    reveal_with_fuel(le_value, 9);
    reveal_with_fuel(be_value, 9);
}

/// How many numbers one to eight bytes can hold.
pub proof fn law_byte_ranges()
    ensures
        byte_range(1) == 0x100,
        byte_range(2) == 0x1_0000,
        byte_range(4) == 0x1_0000_0000,
        byte_range(8) == 0x1_0000_0000_0000_0000,
{
    reveal_with_fuel(byte_range, 9);
}

} // verus!
