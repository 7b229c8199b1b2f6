//! Wire primitives: bits of a 16-bit flag word and big-endian integers.

use crate::error::DNSResolverError;
use vstd::prelude::*;

verus! {

/// The mask that selects the bit at `position` of a 16-bit word, where
/// position 0 is the most significant bit.
pub open spec fn bit_mask(position: u16) -> u16
    recommends
        position < 16,
{
    1u16 << ((15 - position) as u16)
}

/// The word `number` with the bit at `position` set to `bit`.
pub open spec fn with_bit(number: u16, bit: bool, position: u16) -> u16 {
    if position < 16 {
        if bit {
            number | bit_mask(position)
        } else {
            number & !bit_mask(position)
        }
    } else {
        number
    }
}

/// Whether the bit at `position` of `number` is set.
pub open spec fn bit_at(number: u16, position: u16) -> bool {
    position < 16 && (number >> ((15 - position) as u16)) & 1 == 1
}

/// Sets the bit at `position` (0 is the most significant bit) to 1 when `bit`
/// is not 0 and to 0 when it is. A position past 15 leaves the word as it is.
pub fn set_bit(number: u16, bit: u8, position: u16) -> (r: u16)
    ensures
        r == with_bit(number, bit != 0, position),
{
    if position < 16 {
        let mask: u16 = 1u16 << (15 - position);
        if bit != 0 {
            number | mask
        } else {
            number & !mask
        }
    } else {
        number
    }
}

/// Reads the bit at `position` (0 is the most significant bit) as 0 or 1.
/// A position past 15 reads as 0.
pub fn get_bit(number: u16, position: u16) -> (r: u8)
    ensures
        r == if bit_at(number, position) { 1u8 } else { 0u8 },
{
    if position < 16 {
        if (number >> (15 - position)) & 1 == 1 {
            1
        } else {
            0
        }
    } else {
        0
    }
}

/// Reading back the bit that was set gives the value that was set.
pub proof fn lemma_set_then_get(number: u16, bit: bool, position: u16)
    requires
        position < 16,
    ensures
        bit_at(with_bit(number, bit, position), position) == bit,
{
    assert(bit_at(with_bit(number, bit, position), position) == bit) by (bit_vector)
        requires
            position < 16,
    ;
}

/// Setting one bit leaves every other bit as it was.
pub proof fn lemma_set_keeps_other_bits(number: u16, bit: bool, position: u16, other: u16)
    requires
        position != other,
    ensures
        bit_at(with_bit(number, bit, position), other) == bit_at(number, other),
{
    if position < 16 && other < 16 {
        assert(bit_at(with_bit(number, bit, position), other) == bit_at(number, other))
            by (bit_vector)
            requires
                position < 16,
                other < 16,
                position != other,
        ;
    }
}

/// The 16-bit value whose big-endian bytes are `high`, `low`.
pub open spec fn be16(high: u8, low: u8) -> u16 {
    (high as u16 * 256 + low as u16) as u16
}

/// The 32-bit value whose big-endian bytes are `b0` to `b3`.
pub open spec fn be32(b0: u8, b1: u8, b2: u8, b3: u8) -> u32 {
    (b0 as u32 * 16777216 + b1 as u32 * 65536 + b2 as u32 * 256 + b3 as u32) as u32
}

/// The two big-endian bytes of a 16-bit value.
pub open spec fn be16_bytes(value: u16) -> Seq<u8> {
    seq![(value / 256) as u8, (value % 256) as u8]
}

/// The four big-endian bytes of a 32-bit value.
pub open spec fn be32_bytes(value: u32) -> Seq<u8> {
    seq![
        (value / 16777216) as u8,
        ((value / 65536) % 256) as u8,
        ((value / 256) % 256) as u8,
        (value % 256) as u8,
    ]
}

/// The first `count` big-endian 16-bit values of `bytes`, read from `pos` on.
pub open spec fn be16_values(bytes: Seq<u8>, pos: int, count: nat) -> Seq<u16> {
    Seq::new(count, |i: int| be16(bytes[pos + 2 * i], bytes[pos + 2 * i + 1]))
}

/// Reading the bytes of a 16-bit value gives the value back.
pub proof fn lemma_be16_round_trip(value: u16)
    ensures
        be16(be16_bytes(value)[0], be16_bytes(value)[1]) == value,
{
}

/// Reading the bytes of a 32-bit value gives the value back.
pub proof fn lemma_be32_round_trip(value: u32)
    ensures
        be32(
            be32_bytes(value)[0],
            be32_bytes(value)[1],
            be32_bytes(value)[2],
            be32_bytes(value)[3],
        ) == value,
{
}

/// Appends the two big-endian bytes of `value`.
pub fn push_be16(encoded: &mut Vec<u8>, value: u16)
    ensures
        final(encoded)@ == old(encoded)@ + be16_bytes(value),
{
    encoded.push((value / 256) as u8);
    encoded.push((value % 256) as u8);
}

/// Appends the four big-endian bytes of `value`.
pub fn push_be32(encoded: &mut Vec<u8>, value: u32)
    ensures
        final(encoded)@ == old(encoded)@ + be32_bytes(value),
{
    encoded.push((value / 16777216) as u8);
    encoded.push(((value / 65536) % 256) as u8);
    encoded.push(((value / 256) % 256) as u8);
    encoded.push((value % 256) as u8);
}

/// What reading `n` big-endian 16-bit values from `bytes` at `pos` gives:
/// the values and the position after them, or nothing when fewer than
/// `2 * n` bytes are left. A count below 1 reads nothing.
pub open spec fn read_be16s(bytes: Seq<u8>, pos: int, n: int) -> Option<(Seq<u16>, int)> {
    if n <= 0 {
        Some((Seq::empty(), pos))
    } else if pos + 2 * n <= bytes.len() {
        Some((be16_values(bytes, pos, n as nat), pos + 2 * n))
    } else {
        None
    }
}

/// Reads `n` big-endian 16-bit values from `bytes`, starting at `pos`.
/// Returns them with the position after the last byte read. Fails with
/// `Parse` when fewer than `2 * n` bytes are left; a count below 1 reads
/// nothing.
pub fn u8_bytes_to_u16_vec(bytes: &[u8], pos: usize, n: i32) -> (r: Result<
    (Vec<u16>, usize),
    DNSResolverError,
>)
    ensures
        match r {
            Ok((parts, next)) => read_be16s(bytes@, pos as int, n as int) == Some(
                (parts@, next as int),
            ),
            Err(e) => read_be16s(bytes@, pos as int, n as int) is None && e is Parse,
        },
{
    let mut parts: Vec<u16> = Vec::new();
    if n <= 0 {
        return Ok((parts, pos));
    }
    let count: usize = n as usize;
    let total: usize = bytes.len();
    if pos > total || (total - pos) / 2 < count {
        return Err(DNSResolverError::Parse);
    }
    let mut i: usize = 0;
    while i < count
        invariant
            i <= count,
            count == n,
            pos + 2 * count <= total,
            total == bytes@.len(),
            parts@ == be16_values(bytes@, pos as int, i as nat),
        decreases count - i,
    {
        let high: u8 = bytes[pos + 2 * i];
        let low: u8 = bytes[pos + 2 * i + 1];
        parts.push(high as u16 * 256 + low as u16);
        i = i + 1;
    }
    Ok((parts, pos + 2 * count))
}

} // verus!
