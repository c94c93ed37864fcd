//! LEB128, the variable-length integer encoding of DWARF.

use vstd::prelude::*;

verus! {

/// The unsigned LEB128 encoding of `value`: seven bits per byte, low bits
/// first, with the top bit set on every byte but the last.
pub open spec fn uleb128(value: nat) -> Seq<u8>
    decreases value,
{
    if value < 128 {
        seq![value as u8]
    } else {
        seq![(128 + value % 128) as u8] + uleb128(value / 128)
    }
}

/// The number that unsigned LEB128 bytes stand for.
pub open spec fn uleb128_value(bytes: Seq<u8>) -> nat
    decreases bytes.len(),
{
    if bytes.len() == 0 {
        0
    } else if bytes[0] < 128 {
        bytes[0] as nat
    } else {
        (bytes[0] - 128) as nat + 128 * uleb128_value(bytes.drop_first())
    }
}

/// The signed LEB128 encoding of `value`: as the unsigned one, but the last
/// byte is the first whose bit six agrees with the sign of what is left.
pub open spec fn sleb128(value: int) -> Seq<u8>
    decreases
            if value < 0 {
                -value
            } else {
                value
            },
{
    if -64 <= value < 64 {
        seq![(value % 128) as u8]
    } else {
        seq![(128 + value % 128) as u8] + sleb128(value / 128)
    }
}

/// The number that signed LEB128 bytes stand for.
pub open spec fn sleb128_value(bytes: Seq<u8>) -> int
    decreases bytes.len(),
{
    if bytes.len() == 0 {
        0
    } else if bytes[0] < 64 {
        bytes[0] as int
    } else if bytes[0] < 128 {
        bytes[0] - 128
    } else {
        (bytes[0] - 128) + 128 * sleb128_value(bytes.drop_first())
    }
}

/// Decoding an unsigned LEB128 encoding gives back the number.
pub proof fn law_uleb128_round_trip(value: nat)
    ensures
        uleb128_value(uleb128(value)) == value,
    decreases value,
{
    if value >= 128 {
        law_uleb128_round_trip(value / 128);
        assert(uleb128(value).drop_first() =~= uleb128(value / 128));
    }
}

/// Decoding a signed LEB128 encoding gives back the number.
pub proof fn law_sleb128_round_trip(value: int)
    ensures
        sleb128_value(sleb128(value)) == value,
    decreases
            if value < 0 {
                -value
            } else {
                value
            },
{
    if !(-64 <= value < 64) {
        law_sleb128_round_trip(value / 128);
        assert(sleb128(value).drop_first() =~= sleb128(value / 128));
    }
}

/// Every byte of an unsigned LEB128 encoding but the last announces another
/// one, so that a reader finds the end of it.
pub proof fn law_uleb128_ends_at_last_byte(value: nat)
    ensures
        uleb128(value).len() > 0,
        uleb128(value).last() < 128,
        forall|i: int| 0 <= i < uleb128(value).len() - 1 ==> #[trigger] uleb128(value)[i] >= 128,
    decreases value,
{
    if value >= 128 {
        law_uleb128_ends_at_last_byte(value / 128);
        let rest = uleb128(value / 128);
        assert forall|i: int| 0 <= i < uleb128(value).len() - 1 implies #[trigger] uleb128(value)[i]
            >= 128 by {
            if i > 0 {
                assert(uleb128(value)[i] == rest[i - 1]);
            }
        }
    }
}

/// Every byte of a signed LEB128 encoding but the last announces another one,
/// so that a reader finds the end of it.
pub proof fn law_sleb128_ends_at_last_byte(value: int)
    ensures
        sleb128(value).len() > 0,
        sleb128(value).last() < 128,
        forall|i: int| 0 <= i < sleb128(value).len() - 1 ==> #[trigger] sleb128(value)[i] >= 128,
    decreases
            if value < 0 {
                -value
            } else {
                value
            },
{
    if !(-64 <= value < 64) {
        law_sleb128_ends_at_last_byte(value / 128);
        let rest = sleb128(value / 128);
        assert forall|i: int| 0 <= i < sleb128(value).len() - 1 implies #[trigger] sleb128(value)[i]
            >= 128 by {
            if i > 0 {
                assert(sleb128(value)[i] == rest[i - 1]);
            }
        }
    }
}

/// A number below 128 takes one byte, which is the number itself; a larger one
/// takes a byte for its lowest seven bits and then those of the rest. So no
/// encoding is longer than it need be: the last of several bytes is not zero.
pub proof fn law_uleb128_is_short(value: nat)
    ensures
        value < 128 ==> uleb128(value) == seq![value as u8],
        value >= 128 ==> uleb128(value)[0] == 128 + value % 128 && uleb128(value).skip(1)
            == uleb128(value / 128),
        uleb128(value).len() > 1 ==> uleb128(value).last() != 0,
    decreases value,
{
    if value >= 128 {
        law_uleb128_is_short(value / 128);
        law_uleb128_ends_at_last_byte(value / 128);
        assert(uleb128(value).skip(1) =~= uleb128(value / 128));
        assert(uleb128(value).last() == uleb128(value / 128).last());
    }
}

/// A number from -64 to 63 takes one byte, which is its two's complement in
/// seven bits; another one takes a byte for its lowest seven bits and then
/// those of the rest.
pub proof fn law_sleb128_is_short(value: int)
    ensures
        0 <= value < 64 ==> sleb128(value) == seq![value as u8],
        -64 <= value < 0 ==> sleb128(value) == seq![(value + 128) as u8],
        value < -64 || 64 <= value ==> sleb128(value)[0] == 128 + value % 128 && sleb128(
            value,
        ).skip(1) == sleb128(value / 128),
{
    if value < -64 || 64 <= value {
        assert(sleb128(value).skip(1) =~= sleb128(value / 128));
    }
}

/// A reader takes seven bits of each byte, the first byte as the lowest one,
/// up to the first byte whose top bit is clear; bit six of that one is the
/// sign of a signed number.
pub proof fn law_leb128_values(bytes: Seq<u8>)
    requires
        bytes.len() > 0,
    ensures
        bytes[0] < 128 ==> uleb128_value(bytes) == bytes[0],
        bytes[0] >= 128 ==> uleb128_value(bytes) == bytes[0] - 128 + 128 * uleb128_value(
            bytes.skip(1),
        ),
        bytes[0] < 64 ==> sleb128_value(bytes) == bytes[0],
        64 <= bytes[0] < 128 ==> sleb128_value(bytes) == bytes[0] - 128,
        bytes[0] >= 128 ==> sleb128_value(bytes) == bytes[0] - 128 + 128 * sleb128_value(
            bytes.skip(1),
        ),
{
    assert(bytes.skip(1) =~= bytes.drop_first());
}

/// Appends the unsigned LEB128 encoding of `value`.
pub fn write_uleb128(buf: &mut Vec<u8>, value: u64)
    ensures
        final(buf)@ == old(buf)@ + uleb128(value as nat),
{
    let ghost start = buf@;
    let mut value = value;
    let ghost whole = value;
    loop
        invariant_except_break
            start + uleb128(whole as nat) =~= buf@ + uleb128(value as nat),
        ensures
            buf@ =~= start + uleb128(whole as nat),
        decreases value,
    {
        let low: u8 = (value & 0x7f) as u8;
        let rest: u64 = value >> 7;
        assert((value & 0x7f) == value % 128 && (value >> 7) == value / 128) by (bit_vector);
        assert((low | 0x80) == low + 128) by (bit_vector)
            requires
                low < 128,
        ;
        let ghost before = buf@;
        if rest != 0 {
            buf.push(low | 0x80);
            assert(before + uleb128(value as nat) =~= buf@ + uleb128(rest as nat));
        } else {
            buf.push(low);
            assert(before + uleb128(value as nat) =~= buf@);
        }
        value = rest;
        if value == 0 {
            break;
        }
    }
}

/// Appends the signed LEB128 encoding of `value`.
pub fn write_sleb128(buf: &mut Vec<u8>, value: i64)
    ensures
        final(buf)@ == old(buf)@ + sleb128(value as int),
{
    let ghost start = buf@;
    let mut value = value;
    let ghost whole = value;
    loop
        invariant_except_break
            start + sleb128(whole as int) =~= buf@ + sleb128(value as int),
        ensures
            buf@ =~= start + sleb128(whole as int),
        decreases (if value < 0 {
                -(value as int)
            } else {
                value as int
            }),
    {
        let low: u8 = (value & 0x7f) as u8;
        let sign: u8 = low & 0x40;
        let rest: i64 = value >> 7;
        assert((value & 0x7f) == value % 128 && (value >> 7) == value / 128) by (bit_vector);
        assert((low & 0x40 == 0) == (low < 64) && (low | 0x80) == low + 128) by (bit_vector)
            requires
                low < 128,
        ;
        let done = (rest == 0 && sign == 0) || (rest == -1 && sign != 0);
        let ghost before = buf@;
        if done {
            buf.push(low);
            assert(before + sleb128(value as int) =~= buf@);
        } else {
            buf.push(low | 0x80);
            assert(before + sleb128(value as int) =~= buf@ + sleb128(rest as int));
        }
        value = rest;
        if done {
            break;
        }
    }
}

} // verus!
