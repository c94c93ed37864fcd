//! Little-endian byte encoding and byte buffer primitives.

use byteorder::{LittleEndian, WriteBytesExt};
use vstd::prelude::*;

verus! {

/// The `width` low bytes of `value`, least significant byte first.
pub open spec fn le_bytes(value: nat, width: nat) -> Seq<u8>
    decreases width,
{
    if width == 0 {
        Seq::empty()
    } else {
        seq![(value % 256) as u8] + le_bytes(value / 256, (width - 1) as nat)
    }
}

/// The number whose little-endian bytes are `bytes`.
pub open spec fn le_value(bytes: Seq<u8>) -> nat
    decreases bytes.len(),
{
    if bytes.len() == 0 {
        0
    } else {
        bytes[0] as nat + 256 * le_value(bytes.drop_first())
    }
}

/// How many values `width` bytes can hold.
pub open spec fn byte_range(width: nat) -> nat
    decreases width,
{
    if width == 0 {
        1
    } else {
        256 * byte_range((width - 1) as nat)
    }
}

/// What is left of `value` when it is stored in 32 bits.
pub open spec fn low32(value: nat) -> u32 {
    (value % 0x1_0000_0000) as u32
}

/// `count` zero bytes.
pub open spec fn zeros(count: nat) -> Seq<u8> {
    Seq::new(count, |i: int| 0u8)
}

/// `width` bytes are written for a value, whatever it is.
pub proof fn lemma_le_bytes_len(value: nat, width: nat)
    ensures
        le_bytes(value, width).len() == width,
    decreases width,
{
    if width > 0 {
        lemma_le_bytes_len(value / 256, (width - 1) as nat);
    }
}

/// Reading little-endian bytes gives back the value that was written, where
/// the value fits in as many bytes.
pub proof fn law_le_round_trip(value: nat, width: nat)
    requires
        value < byte_range(width),
    ensures
        le_bytes(value, width).len() == width,
        le_value(le_bytes(value, width)) == value,
    decreases width,
{
    if width > 0 {
        let rest = (width - 1) as nat;
        assert(value / 256 < byte_range(rest));
        law_le_round_trip(value / 256, rest);
        assert(le_bytes(value, width).drop_first() =~= le_bytes(value / 256, rest));
    }
}

/// The ranges of the widths that the file formats use.
pub proof fn lemma_byte_ranges()
    ensures
        byte_range(1) == 0x100,
        byte_range(2) == 0x1_0000,
        byte_range(4) == 0x1_0000_0000,
        byte_range(8) == 0x1_0000_0000_0000_0000,
{
    reveal_with_fuel(byte_range, 9);
}

/// The number in `width` bytes at `at`.
pub open spec fn field(file: Seq<u8>, at: int, width: int) -> nat {
    le_value(file.subrange(at, at + width))
}

/// The bytes from `at` up to the next zero byte.
pub open spec fn c_string(table: Seq<u8>, at: int) -> Seq<u8>
    decreases table.len() - at,
{
    if at < 0 || at >= table.len() || table[at] == 0 {
        Seq::empty()
    } else {
        seq![table[at]] + c_string(table, at + 1)
    }
}

/// A number is read alike from a file and from the part of it that holds it.
pub proof fn lemma_field_of_part(file: Seq<u8>, from: int, to: int, at: int, width: int)
    requires
        0 <= from <= to <= file.len(),
        0 <= at,
        0 <= width,
        from + at + width <= to,
    ensures
        field(file, from + at, width) == field(file.subrange(from, to), at, width),
{
    assert(file.subrange(from, to).subrange(at, at + width) =~= file.subrange(
        from + at,
        from + at + width,
    ));
}

/// How many bytes the encodings of numbers have.
pub proof fn lemma_le_len()
    ensures
        forall|v: nat, w: nat| (#[trigger] le_bytes(v, w)).len() == w,
{
    assert forall|v: nat, w: nat| (#[trigger] le_bytes(v, w)).len() == w by {
        lemma_le_bytes_len(v, w);
    }
}

/// What stands before a zero byte is read back, where it holds none.
pub proof fn lemma_c_string_at(table: Seq<u8>, at: int, name: Seq<u8>)
    requires
        0 <= at,
        at + name.len() < table.len(),
        table.subrange(at, at + name.len()) == name,
        table[at + name.len()] == 0,
        forall|i: int| 0 <= i < name.len() ==> name[i] != 0,
    ensures
        c_string(table, at) == name,
    decreases name.len(),
{
    if name.len() == 0 {
        assert(c_string(table, at) =~= name);
    } else {
        let rest = name.drop_first();
        assert(table[at] == table.subrange(at, at + name.len())[0]);
        assert(table.subrange(at + 1, at + 1 + rest.len()) =~= rest) by {
            assert(table.subrange(at, at + name.len()).drop_first() =~= table.subrange(
                at + 1,
                at + 1 + rest.len(),
            ));
        }
        lemma_c_string_at(table, at + 1, rest);
        assert(seq![table[at]] + rest =~= name);
    }
}

/// The bytes of an encoding are the digits of the value in base 256: the byte
/// at `place` counts how often 256 to the power of its place goes in.
pub proof fn law_le_digits(value: nat, width: nat, place: nat)
    requires
        place < width,
    ensures
        le_bytes(value, width).len() == width,
        le_bytes(value, width)[place as int] == (value as int / vstd::arithmetic::power::pow(256, place)) % 256,
    decreases width,
{
    lemma_le_bytes_len(value, width);
    reveal(vstd::arithmetic::power::pow);
    if place > 0 {
        let rest = (place - 1) as nat;
        law_le_digits(value / 256, (width - 1) as nat, rest);
        vstd::arithmetic::power::lemma_pow_positive(256, rest);
        vstd::arithmetic::div_mod::lemma_div_denominator(value as int, 256, vstd::arithmetic::power::pow(256, rest));
        assert(le_bytes(value, width)[place as int] == le_bytes(
            value / 256,
            (width - 1) as nat,
        )[rest as int]);
    }
}

/// A number of one, two, four or eight bytes is read with its first byte as
/// the lowest one.
pub proof fn law_field_bytes(file: Seq<u8>, at: int)
    requires
        0 <= at,
    ensures
        at + 1 <= file.len() ==> field(file, at, 1) == file[at],
        at + 2 <= file.len() ==> field(file, at, 2) == file[at] + 0x100 * file[at + 1],
        at + 4 <= file.len() ==> field(file, at, 4) == file[at] + 0x100 * file[at + 1] + 0x1_0000
            * file[at + 2] + 0x100_0000 * file[at + 3],
        at + 8 <= file.len() ==> field(file, at, 8) == field(file, at, 4) + 0x1_0000_0000 * field(
            file,
            at + 4,
            4,
        ),
{
    if at + 1 <= file.len() {
        lemma_value_of_bytes(file.subrange(at, at + 1));
    }
    if at + 2 <= file.len() {
        lemma_value_of_bytes(file.subrange(at, at + 2));
    }
    if at + 4 <= file.len() {
        lemma_value_of_bytes(file.subrange(at, at + 4));
    }
    if at + 8 <= file.len() {
        let whole = file.subrange(at, at + 8);
        lemma_value_of_bytes(file.subrange(at + 4, at + 8));
        reveal_with_fuel(le_value, 5);
        assert(whole.drop_first().drop_first().drop_first().drop_first() =~= file.subrange(
            at + 4,
            at + 8,
        ));
    }
}

/// The value of a few bytes.
pub proof fn lemma_value_of_bytes(s: Seq<u8>)
    ensures
        s.len() == 1 ==> le_value(s) == s[0],
        s.len() == 2 ==> le_value(s) == s[0] + 0x100 * s[1],
        s.len() == 4 ==> le_value(s) == s[0] + 0x100 * s[1] + 0x1_0000 * s[2] + 0x100_0000 * s[3],
{
    reveal_with_fuel(le_value, 5);
    if s.len() == 2 {
        assert(s.drop_first()[0] == s[1]);
    }
    if s.len() == 4 {
        let t = s.drop_first();
        assert(t[0] == s[1]);
        assert(t.drop_first()[0] == s[2]);
        assert(t.drop_first().drop_first()[0] == s[3]);
    }
}

/// A number that fits in 32 bits is stored in them as it is, and numbers that
/// differ by a multiple of their range are stored alike.
pub proof fn law_low32(value: nat)
    ensures
        value < 0x1_0000_0000 ==> low32(value) == value,
        low32(value + 0x1_0000_0000) == low32(value),
{
}

/// A text is read up to its first zero byte, which is not part of it.
pub proof fn law_c_string_ends_at_zero(table: Seq<u8>, at: int)
    requires
        0 <= at <= table.len(),
    ensures
        ({
            let read = c_string(table, at);
            &&& at + read.len() <= table.len()
            &&& read == table.subrange(at, at + read.len())
            &&& !read.contains(0)
            &&& at + read.len() < table.len() ==> table[at + read.len()] == 0
        }),
    decreases table.len() - at,
{
    let read = c_string(table, at);
    if at < table.len() && table[at] != 0 {
        law_c_string_ends_at_zero(table, at + 1);
        let rest = c_string(table, at + 1);
        assert(read =~= table.subrange(at, at + read.len())) by {
            assert forall|i: int| 0 <= i < read.len() implies read[i] == table[at + i] by {
                if i > 0 {
                    assert(rest[i - 1] == table.subrange(at + 1, at + 1 + rest.len())[i - 1]);
                }
            }
        }
        if read.contains(0) {
            let i = read.index_of(0);
            assert(rest[i - 1] == 0);
            assert(rest.contains(0));
        }
    } else {
        assert(read =~= table.subrange(at, at));
    }
}

/// Appends one byte with `byteorder::WriteBytesExt::write_u8`. A `Vec` takes
/// every write, so the byte always arrives at its end.
#[verifier::external_body]
pub(crate) fn write_u8(buf: &mut Vec<u8>, value: u8)
    ensures
        final(buf)@ == old(buf)@.push(value),
{
    let _ = buf.write_u8(value);
}

/// Appends two bytes with `byteorder::WriteBytesExt::write_u16` in
/// `LittleEndian` order. A `Vec` takes every write, so the bytes always arrive
/// at its end.
#[verifier::external_body]
pub(crate) fn write_u16(buf: &mut Vec<u8>, value: u16)
    ensures
        final(buf)@ == old(buf)@ + le_bytes(value as nat, 2),
{
    let _ = buf.write_u16::<LittleEndian>(value);
}

/// Appends four bytes with `byteorder::WriteBytesExt::write_u32` in
/// `LittleEndian` order. A `Vec` takes every write, so the bytes always arrive
/// at its end.
#[verifier::external_body]
pub(crate) fn write_u32(buf: &mut Vec<u8>, value: u32)
    ensures
        final(buf)@ == old(buf)@ + le_bytes(value as nat, 4),
{
    let _ = buf.write_u32::<LittleEndian>(value);
}

/// Appends eight bytes with `byteorder::WriteBytesExt::write_u64` in
/// `LittleEndian` order. A `Vec` takes every write, so the bytes always arrive
/// at its end.
#[verifier::external_body]
pub(crate) fn write_u64(buf: &mut Vec<u8>, value: u64)
    ensures
        final(buf)@ == old(buf)@ + le_bytes(value as nat, 8),
{
    let _ = buf.write_u64::<LittleEndian>(value);
}

/// Appends a whole slice.
pub(crate) fn append(buf: &mut Vec<u8>, data: &[u8])
    ensures
        final(buf)@ == old(buf)@ + data@,
{
    let ghost before = buf@;
    buf.extend_from_slice(data);
    assert(buf@ =~= before + data@);
}

/// Fills a buffer with zero bytes up to `len` bytes; a longer one is kept.
pub(crate) fn pad_to(buf: &mut Vec<u8>, len: usize)
    ensures
        final(buf)@ == old(buf)@ + zeros(
            if len > old(buf)@.len() {
                (len - old(buf)@.len()) as nat
            } else {
                0
            },
        ),
{
    let ghost before = buf@;
    if buf.len() < len {
        buf.resize(len, 0);
        assert(buf@.subrange(0, before.len() as int) == before);
        assert forall|i: int| 0 <= i < before.len() implies buf@[i] == before[i] by {
            assert(buf@.subrange(0, before.len() as int)[i] == buf@[i]);
        }
    }
    assert(buf@ =~= before + zeros(
        if len > before.len() {
            (len - before.len()) as nat
        } else {
            0
        },
    ));
}

/// The low 32 bits of a `usize`.
pub(crate) fn truncate_u32(value: usize) -> (low: u32)
    ensures
        low == low32(value as nat),
{
    let wide: u64 = value as u64;
    assert(wide as u32 == wide % 0x1_0000_0000) by (bit_vector);
    wide as u32
}

} // verus!
