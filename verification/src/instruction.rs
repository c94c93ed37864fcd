//! The instructions of an SBPF program.

use crate::bytes;
use vstd::prelude::*;

verus! {

/// How many bytes an instruction slot has.
pub const INSN_SIZE: usize = 8;

/// The opcode of `lddw`, which takes two slots.
pub const LD_DW_IMM: u8 = 0x18;

/// An instruction.
#[derive(Clone, Copy, Debug, PartialEq, Eq, Structural)]
pub struct Insn {
    /// The program counter at which it stands.
    pub ptr: usize,
    pub opc: u8,
    pub dst: u8,
    pub src: u8,
    pub off: i16,
    pub imm: i64,
}

/// How many whole slots a program has.
pub open spec fn slot_count(program: Seq<u8>) -> nat {
    program.len() / INSN_SIZE as nat
}

/// The bytes of a slot.
pub open spec fn slot(program: Seq<u8>, pc: int) -> Seq<u8> {
    program.subrange(pc * INSN_SIZE, (pc + 1) * INSN_SIZE)
}

/// The bytes of a slot from `from` to `to`, as a little-endian number.
pub open spec fn slot_value(program: Seq<u8>, pc: int, from: int, to: int) -> nat {
    bytes::le_value(slot(program, pc).subrange(from, to))
}

/// The number whose two's complement in `range` values is `value`.
pub open spec fn signed(value: nat, range: int) -> int {
    if value < range / 2 {
        value as int
    } else {
        value - range
    }
}

/// The instruction in one slot.
pub open spec fn instruction(program: Seq<u8>, pc: int) -> Insn {
    Insn {
        ptr: pc as usize,
        opc: slot(program, pc)[0],
        dst: (slot(program, pc)[1] % 16) as u8,
        src: (slot(program, pc)[1] / 16) as u8,
        off: signed(slot_value(program, pc, 2, 4), 0x1_0000) as i16,
        imm: signed(slot_value(program, pc, 4, 8), 0x1_0000_0000) as i64,
    }
}

/// The instruction in two slots: the second one holds the high half of the
/// immediate.
pub open spec fn wide_instruction(program: Seq<u8>, pc: int) -> Insn {
    Insn {
        imm: signed(
            slot_value(program, pc, 4, 8) + 0x1_0000_0000 * slot_value(program, pc + 1, 4, 8),
            0x1_0000_0000_0000_0000,
        ) as i64,
        ..instruction(program, pc)
    }
}

/// An instruction holds what its slot holds: the opcode is the first byte, the
/// two registers share the second, and the offset and the immediate are the
/// numbers whose two's complements the next two and the last four bytes are.
pub proof fn law_instruction_is_its_slot(program: Seq<u8>, pc: int)
    requires
        0 <= pc <= usize::MAX,
        8 * pc + 8 <= program.len(),
    ensures
        ({
            let insn = instruction(program, pc);
            let at = 8 * pc;
            &&& insn.ptr == pc
            &&& insn.opc == program[at]
            &&& insn.dst < 16
            &&& insn.src < 16
            &&& insn.dst + 16 * insn.src == program[at + 1]
            &&& -0x8000 <= insn.off < 0x8000
            &&& bytes::le_bytes((insn.off as int % 0x1_0000) as nat, 2) == program.subrange(
                at + 2,
                at + 4,
            )
            &&& insn.off as int % 0x1_0000 == program[at + 2] + 0x100 * program[at + 3]
            &&& -0x8000_0000 <= insn.imm < 0x8000_0000
            &&& bytes::le_bytes((insn.imm as int % 0x1_0000_0000) as nat, 4) == program.subrange(
                at + 4,
                at + 8,
            )
            &&& insn.imm as int % 0x1_0000_0000 == program[at + 4] + 0x100 * program[at + 5]
                + 0x1_0000 * program[at + 6] + 0x100_0000 * program[at + 7]
        }),
{
    let at = 8 * pc;
    let off = slot(program, pc).subrange(2, 4);
    let imm = slot(program, pc).subrange(4, 8);
    lemma_short_values(off);
    lemma_short_values(imm);
    assert(off =~= program.subrange(at + 2, at + 4));
    assert(imm =~= program.subrange(at + 4, at + 8));
    lemma_encoded_value(off);
    lemma_encoded_value(imm);
    let registers = program[at + 1];
    assert(registers as int == registers as int % 16 + 16 * (registers as int / 16));
}

/// The immediate of an instruction in two slots is the number whose two's
/// complement has the last four bytes of the first slot as its low half and
/// those of the second slot as its high half; the rest of the instruction is
/// that of the first slot.
pub proof fn law_wide_instruction_is_its_slots(program: Seq<u8>, pc: int)
    requires
        0 <= pc <= usize::MAX,
        8 * pc + 16 <= program.len(),
    ensures
        ({
            let insn = wide_instruction(program, pc);
            let at = 8 * pc;
            &&& -0x8000_0000_0000_0000 <= insn.imm < 0x8000_0000_0000_0000
            &&& bytes::le_bytes((insn.imm as int % 0x1_0000_0000_0000_0000) as nat, 8)
                == program.subrange(at + 4, at + 8) + program.subrange(at + 12, at + 16)
            &&& insn == (Insn { imm: insn.imm, ..instruction(program, pc) })
        }),
{
    let at = 8 * pc;
    let low = slot(program, pc).subrange(4, 8);
    let high = slot(program, pc + 1).subrange(4, 8);
    assert(low =~= program.subrange(at + 4, at + 8));
    assert(high =~= program.subrange(at + 12, at + 16));
    lemma_short_values(low);
    lemma_short_values(high);
    bytes::law_field_bytes(low + high, 0);
    let whole = low + high;
    assert(whole.subrange(0, 8) =~= whole);
    assert(whole.subrange(0, 4) =~= low);
    assert(whole.subrange(4, 8) =~= high);
    lemma_encoded_value(whole);
}

/// Encoding the value of bytes gives back the bytes.
proof fn lemma_encoded_value(s: Seq<u8>)
    ensures
        bytes::le_bytes(bytes::le_value(s), s.len()) == s,
    decreases s.len(),
{
    if s.len() > 0 {
        lemma_encoded_value(s.drop_first());
        let value = bytes::le_value(s);
        assert(value % 256 == s[0] && value / 256 == bytes::le_value(s.drop_first()));
        assert(seq![s[0]] + s.drop_first() =~= s);
    }
}

/// The value of a few bytes.
proof fn lemma_short_values(s: Seq<u8>)
    ensures
        s.len() == 2 ==> bytes::le_value(s) == s[0] + 256 * s[1],
        s.len() == 4 ==> bytes::le_value(s) == s[0] + 256 * s[1] + 0x1_0000 * s[2] + 0x100_0000
            * s[3],
{
    bytes::lemma_value_of_bytes(s);
}

/// Reads four bytes of a slot as a little-endian number.
fn read_half(program: &[u8], pc: usize) -> (half: u32)
    requires
        pc < slot_count(program@),
    ensures
        half == slot_value(program@, pc as int, 4, 8),
{
    let size: usize = program.len();
    assert((pc + 1) * INSN_SIZE <= size);
    let at: usize = pc * INSN_SIZE + 4;
    proof {
        lemma_short_values(slot(program@, pc as int).subrange(4, 8));
    }
    program[at] as u32 + 256 * program[at + 1] as u32 + 0x1_0000 * program[at + 2] as u32
        + 0x100_0000 * program[at + 3] as u32
}

/// Decodes the instruction in one slot.
pub fn get_insn(program: &[u8], pc: usize) -> (insn: Insn)
    requires
        pc < slot_count(program@),
    ensures
        insn == instruction(program@, pc as int),
{
    let size: usize = program.len();
    assert((pc + 1) * INSN_SIZE <= size);
    let at: usize = pc * INSN_SIZE;
    let registers: u8 = program[at + 1];
    let off: u16 = program[at + 2] as u16 + 256 * program[at + 3] as u16;
    let imm: u32 = read_half(program, pc);
    proof {
        lemma_short_values(slot(program@, pc as int).subrange(2, 4));
    }
    assert(registers & 0x0f == registers % 16) by (bit_vector);
    assert(registers >> 4 == registers / 16) by (bit_vector);
    assert(off as i16 == (if off < 0x8000 { off as int } else { off - 0x1_0000 })) by (bit_vector);
    assert(imm as i32 == (if imm < 0x8000_0000 { imm as int } else { imm - 0x1_0000_0000 }))
        by (bit_vector);
    Insn {
        ptr: pc,
        opc: program[at],
        dst: registers & 0x0f,
        src: registers >> 4,
        off: off as i16,
        imm: imm as i32 as i64,
    }
}

/// Decodes the instruction in two slots.
pub fn get_wide_insn(program: &[u8], pc: usize) -> (insn: Insn)
    requires
        pc + 1 < slot_count(program@),
    ensures
        insn == wide_instruction(program@, pc as int),
{
    let size: usize = program.len();
    assert((pc + 2) * INSN_SIZE <= size);
    let mut insn = get_insn(program, pc);
    let low: u64 = read_half(program, pc) as u64;
    let high: u64 = read_half(program, pc + 1) as u64;
    let imm: u64 = low + 0x1_0000_0000 * high;
    assert(imm as i64 == (if imm < 0x8000_0000_0000_0000 {
        imm as int
    } else {
        imm - 0x1_0000_0000_0000_0000
    })) by (bit_vector);
    insn.imm = imm as i64;
    insn
}

/// What is decoded from a slot is that slot: its bytes are the opcode, the two
/// registers, and the two's complements of the offset and of the immediate.
pub proof fn law_decoded_instruction_is_its_slot(program: &[u8], pc: usize, insn: Insn)
    requires
        call_ensures(get_insn, (program, pc), insn),
        8 * pc + 8 <= program@.len(),
    ensures
        insn.ptr == pc,
        insn.opc == program@[8 * pc],
        insn.dst < 16,
        insn.src < 16,
        insn.dst + 16 * insn.src == program@[8 * pc + 1],
        bytes::le_bytes((insn.off as int % 0x1_0000) as nat, 2) == program@.subrange(
            8 * pc + 2,
            8 * pc + 4,
        ),
        -0x8000_0000 <= insn.imm < 0x8000_0000,
        bytes::le_bytes((insn.imm as int % 0x1_0000_0000) as nat, 4) == program@.subrange(
            8 * pc + 4,
            8 * pc + 8,
        ),
{
    law_instruction_is_its_slot(program@, pc as int);
}

/// What is decoded from two slots has the last four bytes of each as its
/// immediate, and for the rest is what is decoded from the first one.
pub proof fn law_decoded_wide_instruction_is_its_slots(
    program: &[u8],
    pc: usize,
    wide: Insn,
    insn: Insn,
)
    requires
        call_ensures(get_wide_insn, (program, pc), wide),
        call_ensures(get_insn, (program, pc), insn),
        8 * pc + 16 <= program@.len(),
    ensures
        bytes::le_bytes((wide.imm as int % 0x1_0000_0000_0000_0000) as nat, 8)
            == program@.subrange(8 * pc + 4, 8 * pc + 8) + program@.subrange(
            8 * pc + 12,
            8 * pc + 16,
        ),
        wide == (Insn { imm: wide.imm, ..insn }),
{
    law_wide_instruction_is_its_slots(program@, pc as int);
}

} // verus!
