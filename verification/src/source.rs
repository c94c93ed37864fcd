//! The source files that a dump refers to: one line for each program counter
//! of a function.

use crate::instruction;
use crate::instruction::{get_insn, get_wide_insn, Insn, INSN_SIZE, LD_DW_IMM};
use crate::meta::SBPFVersion;
use crate::text;
use crate::text::{push_decimal4, push_hex};
use vstd::prelude::*;
use vstd::slice::slice_subrange;
use vstd::string::StringExecFns;

verus! {

/// Why a source file could not be finished.
#[derive(Clone, Copy, Debug, PartialEq, Eq, Structural)]
pub enum SourceError {
    /// The second slot of the last `lddw` is missing.
    TruncatedLddw,
}

/// The bytes of a slot, each with two digits and a space.
pub open spec fn hex_bytes(bytes: Seq<u8>) -> Seq<char>
    decreases bytes.len(),
{
    if bytes.len() == 0 {
        Seq::empty()
    } else {
        hex_bytes(bytes.drop_last()) + text::hex(bytes.last() as nat, 2) + seq![' ']
    }
}

/// The line of one program counter.
pub open spec fn source_line(pc: nat, bytes: Seq<u8>, disassembly: Seq<char>) -> Seq<char> {
    "pc "@ + text::decimal4(pc) + ": "@ + hex_bytes(bytes) + "| "@ + disassembly + seq!['\n']
}

/// Whether the slot at `pc` is the second one of an `lddw`, where reading
/// starts at `start`.
pub open spec fn is_continuation(
    program: Seq<u8>,
    version: SBPFVersion,
    start: int,
    pc: int,
) -> bool
    decreases pc - start,
{
    start < pc && is_lddw(program, version, start, pc - 1)
}

/// Whether the slot at `pc` is the first one of an `lddw`, where reading
/// starts at `start`.
pub open spec fn is_lddw(program: Seq<u8>, version: SBPFVersion, start: int, pc: int) -> bool
    decreases pc - start,
{
    &&& start <= pc
    &&& !version.disable_lddw
    &&& instruction::slot(program, pc)[0] == LD_DW_IMM
    &&& !(start < pc && is_lddw(program, version, start, pc - 1))
}

/// The end of the slots of a function that the program has.
pub open spec fn source_end(program: Seq<u8>, pc_end: int) -> int {
    if pc_end < instruction::slot_count(program) {
        pc_end
    } else {
        instruction::slot_count(program) as int
    }
}

/// Whether the slots of a function end amid an `lddw`.
pub open spec fn is_truncated(
    program: Seq<u8>,
    version: SBPFVersion,
    start: int,
    pc_end: int,
) -> bool {
    is_lddw(program, version, start, source_end(program, pc_end) - 1)
}

/// The end of the slots of a function that get a line.
pub open spec fn lines_end(
    program: Seq<u8>,
    version: SBPFVersion,
    start: int,
    pc_end: int,
) -> int {
    if source_end(program, pc_end) <= start {
        start
    } else if is_truncated(program, version, start, pc_end) {
        source_end(program, pc_end) - 1
    } else {
        source_end(program, pc_end)
    }
}

/// The instruction at `pc`, where reading starts at `start`.
pub open spec fn instruction_at(
    program: Seq<u8>,
    version: SBPFVersion,
    start: int,
    pc: int,
) -> Insn {
    if is_lddw(program, version, start, pc) {
        instruction::wide_instruction(program, pc)
    } else {
        instruction::instruction(program, pc)
    }
}

/// What the line at `pc` says of its slot; `disassembly` is the text of its
/// instruction, where it holds the start of one.
pub open spec fn slot_text(
    program: Seq<u8>,
    version: SBPFVersion,
    start: int,
    pc: int,
    disassembly: Seq<char>,
) -> Seq<char> {
    if is_continuation(program, version, start, pc) {
        "lddw continuation"@
    } else {
        disassembly
    }
}

/// The lines from `start` to `end`; `disassembly` holds the texts of the
/// instructions from `start` on.
pub open spec fn source_text(
    program: Seq<u8>,
    version: SBPFVersion,
    start: int,
    end: int,
    disassembly: Seq<String>,
) -> Seq<char>
    decreases end - start,
{
    if end <= start {
        Seq::empty()
    } else {
        source_text(program, version, start, end - 1, disassembly) + source_line(
            (end - 1) as nat,
            instruction::slot(program, end - 1),
            slot_text(program, version, start, end - 1, disassembly[end - 1 - start]@),
        )
    }
}

/// Whether `disassembly` holds what `disassemble` says of the instructions
/// from `start` to `end`.
pub open spec fn is_disassembly<F: Fn(&Insn) -> String>(
    program: Seq<u8>,
    version: SBPFVersion,
    start: int,
    end: int,
    disassemble: F,
    disassembly: Seq<String>,
) -> bool {
    &&& disassembly.len() == end - start
    &&& forall|i: int|
        0 <= i < end - start && !is_continuation(program, version, start, start + i)
            ==> call_ensures(
            disassemble,
            (&instruction_at(program, version, start, start + i),),
            #[trigger] disassembly[i],
        )
}

/// How many line breaks a text has.
pub open spec fn line_breaks(s: Seq<char>) -> nat
    decreases s.len(),
{
    if s.len() == 0 {
        0
    } else {
        line_breaks(s.drop_last()) + if s.last() == '\n' {
            1nat
        } else {
            0
        }
    }
}

/// The line breaks of two texts add up.
proof fn lemma_line_breaks_add(a: Seq<char>, b: Seq<char>)
    ensures
        line_breaks(a + b) == line_breaks(a) + line_breaks(b),
    decreases b.len(),
{
    if b.len() == 0 {
        assert(a + b =~= a);
    } else {
        assert((a + b).drop_last() =~= a + b.drop_last());
        lemma_line_breaks_add(a, b.drop_last());
    }
}

/// A text without the character has no line breaks.
proof fn lemma_no_line_breaks(s: Seq<char>)
    requires
        !s.contains('\n'),
    ensures
        line_breaks(s) == 0,
    decreases s.len(),
{
    if s.len() > 0 {
        assert(s.contains(s.last()));
        assert forall|ch: char| s.drop_last().contains(ch) implies s.contains(ch) by {
            let i = s.drop_last().index_of(ch);
            assert(s[i] == ch);
        }
        lemma_no_line_breaks(s.drop_last());
    }
}

/// Numbers have no line breaks.
proof fn lemma_numbers_stay_on_the_line(value: nat, places: nat)
    ensures
        line_breaks(text::decimal(value)) == 0,
        line_breaks(text::hex(value, places)) == 0,
    decreases value + places,
{
    if value >= 10 {
        lemma_numbers_stay_on_the_line(value / 10, 0);
        assert(text::decimal(value).drop_last() =~= text::decimal(value / 10));
    } else {
        lemma_no_line_breaks(text::decimal(value));
    }
    if places > 0 {
        lemma_numbers_stay_on_the_line(value / 16, (places - 1) as nat);
        assert(text::hex(value, places).drop_last() =~= text::hex(
            value / 16,
            (places - 1) as nat,
        ));
    }
}

/// Bytes have no line breaks.
proof fn lemma_bytes_stay_on_the_line(bytes: Seq<u8>)
    ensures
        line_breaks(hex_bytes(bytes)) == 0,
    decreases bytes.len(),
{
    if bytes.len() > 0 {
        let head = hex_bytes(bytes.drop_last());
        let digits = text::hex(bytes.last() as nat, 2);
        lemma_bytes_stay_on_the_line(bytes.drop_last());
        lemma_numbers_stay_on_the_line(bytes.last() as nat, 2);
        lemma_line_breaks_add(head, digits);
        lemma_line_breaks_add(head + digits, seq![' ']);
        lemma_no_line_breaks(seq![' ']);
    }
}

/// A line is one line: its only line break is its last character.
pub proof fn law_line_is_one_line(pc: nat, bytes: Seq<u8>, disassembly: Seq<char>)
    requires
        !disassembly.contains('\n'),
    ensures
        line_breaks(source_line(pc, bytes, disassembly)) == 1,
        source_line(pc, bytes, disassembly).last() == '\n',
{
    reveal_strlit("pc ");
    reveal_strlit(": ");
    reveal_strlit("| ");
    let zeros = text::zero_digits((text::decimal4(pc).len() - text::decimal(pc).len()) as nat);
    let a = "pc "@;
    let b = text::decimal4(pc);
    let c = ": "@;
    let d = hex_bytes(bytes);
    let e = "| "@;
    assert(b == zeros + text::decimal(pc));
    lemma_no_line_breaks(zeros);
    lemma_numbers_stay_on_the_line(pc, 0);
    lemma_line_breaks_add(zeros, text::decimal(pc));
    lemma_bytes_stay_on_the_line(bytes);
    lemma_no_line_breaks(a);
    lemma_no_line_breaks(c);
    lemma_no_line_breaks(e);
    lemma_no_line_breaks(disassembly);
    lemma_line_breaks_add(a, b);
    lemma_line_breaks_add(a + b, c);
    lemma_line_breaks_add(a + b + c, d);
    lemma_line_breaks_add(a + b + c + d, e);
    lemma_line_breaks_add(a + b + c + d + e, disassembly);
    let line = source_line(pc, bytes, disassembly);
    assert(line.drop_last() =~= a + b + c + d + e + disassembly);
}

/// The line of a program counter stands in the source file behind one line for
/// each program counter before it, as long as no disassembly breaks a line.
#[verifier::rlimit(30)]
pub proof fn law_lines_follow_counters(
    program: Seq<u8>,
    version: SBPFVersion,
    start: int,
    end: int,
    disassembly: Seq<String>,
    pc: int,
)
    requires
        0 <= start <= pc < end,
        disassembly.len() == end - start,
        forall|i: int| 0 <= i < end - start ==> !(#[trigger] disassembly[i])@.contains('\n'),
    ensures
        line_breaks(source_text(program, version, start, pc, disassembly)) == pc - start,
        (source_text(program, version, start, pc, disassembly) + source_line(
            pc as nat,
            instruction::slot(program, pc),
            slot_text(program, version, start, pc, disassembly[pc - start]@),
        )).is_prefix_of(source_text(program, version, start, end, disassembly)),
    decreases end - start,
{
    reveal_strlit("lddw continuation");
    if pc + 1 < end {
        let fewer = disassembly.drop_last();
        lemma_more_disassembly(program, version, start, end - 1, fewer, disassembly);
        lemma_more_disassembly(program, version, start, pc, fewer, disassembly);
        law_lines_follow_counters(program, version, start, end - 1, fewer, pc);
    } else if start < pc {
        let fewer = disassembly.drop_last();
        lemma_more_disassembly(program, version, start, pc, fewer, disassembly);
        law_lines_follow_counters(program, version, start, pc, fewer, pc - 1);
        lemma_more_disassembly(program, version, start, pc - 1, fewer, disassembly);
        let line = slot_text(program, version, start, pc - 1, disassembly[pc - 1 - start]@);
        assert(!fewer[pc - 1 - start]@.contains('\n'));
        law_line_is_one_line((pc - 1) as nat, instruction::slot(program, pc - 1), line);
        lemma_line_breaks_add(
            source_text(program, version, start, pc - 1, disassembly),
            source_line((pc - 1) as nat, instruction::slot(program, pc - 1), line),
        );
    }
}

/// How a line reads: `pc `, the program counter with at least four digits, a
/// colon, two digits of base sixteen for each byte, a bar, the disassembly, and
/// a line break, with a space behind the colon, each byte and the bar.
pub proof fn law_source_line_reads(pc: nat, bytes: Seq<u8>, disassembly: Seq<char>)
    ensures
        ({
            let line = source_line(pc, bytes, disassembly);
            let from = 5 + text::decimal4(pc).len() as int;
            let bar = from + 3 * bytes.len();
            &&& line.take(3) == seq!['p', 'c', ' ']
            &&& from >= 9
            &&& text::number_value(line.subrange(3, from - 2), 10) == pc
            &&& line.subrange(from - 2, from) == seq![':', ' ']
            &&& forall|i: int|
                0 <= i < bytes.len() ==> text::number_value(
                    line.subrange(from + 3 * i, from + 3 * i + 2),
                    16,
                ) == #[trigger] bytes[i] && line[from + 3 * i + 2] == ' '
            &&& line.subrange(bar, bar + 2) == seq!['|', ' ']
            &&& line.subrange(bar + 2, bar + 2 + disassembly.len()) == disassembly
            &&& line.len() == bar + 3 + disassembly.len()
            &&& line.last() == '\n'
        }),
{
    reveal_strlit("pc ");
    reveal_strlit(": ");
    reveal_strlit("| ");
    let line = source_line(pc, bytes, disassembly);
    let digits = text::decimal4(pc);
    let codes = hex_bytes(bytes);
    let from = 5 + digits.len() as int;
    let bar = from + 3 * bytes.len();
    text::law_decimal4_read_back(pc);
    lemma_hex_bytes(bytes);
    assert(line.take(3) =~= seq!['p', 'c', ' ']);
    assert(line.subrange(3, from - 2) =~= digits);
    assert(line.subrange(from - 2, from) =~= seq![':', ' ']);
    assert forall|i: int| 0 <= i < bytes.len() implies text::number_value(
        line.subrange(from + 3 * i, from + 3 * i + 2),
        16,
    ) == #[trigger] bytes[i] && line[from + 3 * i + 2] == ' ' by {
        assert(line.subrange(from + 3 * i, from + 3 * i + 2) =~= codes.subrange(3 * i, 3 * i + 2));
        assert(line[from + 3 * i + 2] == codes[3 * i + 2]);
    }
    assert(line.subrange(bar, bar + 2) =~= seq!['|', ' ']);
    assert(line.subrange(bar + 2, bar + 2 + disassembly.len()) =~= disassembly);
}

/// The digits of each byte.
proof fn lemma_hex_bytes(bytes: Seq<u8>)
    ensures
        hex_bytes(bytes).len() == 3 * bytes.len(),
        forall|i: int|
            0 <= i < bytes.len() ==> text::number_value(
                hex_bytes(bytes).subrange(3 * i, 3 * i + 2),
                16,
            ) == #[trigger] bytes[i] && hex_bytes(bytes)[3 * i + 2] == ' ',
    decreases bytes.len(),
{
    if bytes.len() > 0 {
        let before = bytes.drop_last();
        let digits = text::hex(bytes.last() as nat, 2);
        let all = hex_bytes(bytes);
        lemma_hex_bytes(before);
        text::law_hex_read_back(bytes.last() as nat, 2);
        assert(vstd::arithmetic::power::pow(16, 2) == 256) by {
            reveal_with_fuel(vstd::arithmetic::power::pow, 3);
        }
        assert forall|i: int| 0 <= i < bytes.len() implies text::number_value(
            all.subrange(3 * i, 3 * i + 2),
            16,
        ) == #[trigger] bytes[i] && all[3 * i + 2] == ' ' by {
            if i < before.len() {
                assert(before[i] == bytes[i]);
                assert(all.subrange(3 * i, 3 * i + 2) =~= hex_bytes(before).subrange(
                    3 * i,
                    3 * i + 2,
                ));
            } else {
                assert(all.subrange(3 * i, 3 * i + 2) =~= digits);
            }
        }
    }
}

/// An `lddw` is a slot whose first byte is 0x18 and that is not the second slot
/// of another one; the slot behind it is its second one. A version without the
/// instruction has none.
pub proof fn law_lddw_takes_two_slots(
    program: Seq<u8>,
    version: SBPFVersion,
    start: int,
    pc: int,
)
    requires
        0 <= start <= pc,
        8 * pc + 8 <= program.len(),
    ensures
        version.disable_lddw ==> !is_lddw(program, version, start, pc),
        !version.disable_lddw && pc == start ==> (is_lddw(program, version, start, pc)
            <==> program[8 * pc] == 0x18),
        !version.disable_lddw && pc > start ==> (is_lddw(program, version, start, pc)
            <==> program[8 * pc] == 0x18 && !is_lddw(program, version, start, pc - 1)),
        is_continuation(program, version, start, pc) <==> pc > start && is_lddw(
            program,
            version,
            start,
            pc - 1,
        ),
{
    assert(instruction::slot(program, pc)[0] == program[8 * pc]);
}

/// Every slot of a function that the program has gets a line, but an `lddw`
/// whose second slot is missing: the lines go on to the end of the function or
/// of the program, whichever comes first, and stop one before it where an
/// `lddw` stands last. That is also when the file is not finished.
pub proof fn law_every_slot_gets_a_line(
    program: Seq<u8>,
    version: SBPFVersion,
    start: int,
    pc_end: int,
)
    requires
        0 <= start,
    ensures
        ({
            let whole = program.len() as int / 8;
            let end = if pc_end < whole {
                pc_end
            } else {
                whole
            };
            let cut = start < end && is_lddw(program, version, start, end - 1);
            &&& is_truncated(program, version, start, pc_end) <==> cut
            &&& lines_end(program, version, start, pc_end) == (if end <= start {
                start
            } else if cut {
                end - 1
            } else {
                end
            })
        }),
{
}

/// The file has as many lines as slots that get one, where no disassembly
/// breaks a line; the line of a slot is that of its program counter, of its
/// eight bytes, and of its disassembly, or of the words `lddw continuation`
/// where an `lddw` stands in the slot before it.
pub proof fn law_lines_are_those_of_slots(
    program: Seq<u8>,
    version: SBPFVersion,
    start: int,
    end: int,
    disassembly: Seq<String>,
    pc: int,
)
    requires
        0 <= start <= pc < end,
        8 * end <= program.len(),
        disassembly.len() == end - start,
        forall|i: int| 0 <= i < end - start ==> !(#[trigger] disassembly[i])@.contains('\n'),
    ensures
        ({
            let whole = source_text(program, version, start, end, disassembly);
            let before = source_text(program, version, start, pc, disassembly);
            let said = if pc > start && is_lddw(program, version, start, pc - 1) {
                "lddw continuation"@
            } else {
                disassembly[pc - start]@
            };
            let line = source_line(pc as nat, program.subrange(8 * pc, 8 * pc + 8), said);
            &&& line_breaks(whole) == end - start
            &&& line_breaks(before) == pc - start
            &&& (before + line).is_prefix_of(whole)
        }),
{
    law_lines_follow_counters(program, version, start, end, disassembly, pc);
    assert(instruction::slot(program, pc) =~= program.subrange(8 * pc, 8 * pc + 8));
    let last = end - 1;
    let before = source_text(program, version, start, last, disassembly);
    let said = slot_text(program, version, start, last, disassembly[last - start]@);
    law_lines_follow_counters(program, version, start, end, disassembly, last);
    reveal_strlit("lddw continuation");
    assert(!disassembly[last - start]@.contains('\n'));
    assert(!said.contains('\n'));
    law_line_is_one_line(last as nat, instruction::slot(program, last), said);
    lemma_line_breaks_add(
        before,
        source_line(last as nat, instruction::slot(program, last), said),
    );
}

/// What is disassembled is the instruction of each slot that is no second one:
/// that of two slots for an `lddw`, and that of the slot alone for any other.
pub proof fn law_each_instruction_is_disassembled<F: Fn(&Insn) -> String>(
    program: Seq<u8>,
    version: SBPFVersion,
    start: int,
    end: int,
    disassemble: F,
    disassembly: Seq<String>,
    pc: int,
)
    requires
        is_disassembly(program, version, start, end, disassemble, disassembly),
        start <= pc < end,
    ensures
        disassembly.len() == end - start,
        is_lddw(program, version, start, pc) ==> call_ensures(
            disassemble,
            (&instruction::wide_instruction(program, pc),),
            disassembly[pc - start],
        ),
        !is_lddw(program, version, start, pc) && !(start < pc && is_lddw(
            program,
            version,
            start,
            pc - 1,
        )) ==> call_ensures(
            disassemble,
            (&instruction::instruction(program, pc),),
            disassembly[pc - start],
        ),
{
    let i = pc - start;
    assert(start + i == pc);
    assert(disassembly[i] == disassembly[i]);
}

/// Appends one line for a slot.
pub fn push_source_line(source: &mut String, pc: usize, bytes: &[u8], disassembly: &str)
    ensures
        final(source)@ == old(source)@ + source_line(pc as nat, bytes@, disassembly@),
{
    let ghost before = source@;
    source.append("pc ");
    push_decimal4(source, pc as u64);
    source.append(": ");
    let ghost head = source@;
    let count: usize = bytes.len();
    for i in 0..count
        invariant
            count == bytes@.len(),
            source@ == head + hex_bytes(bytes@.take(i as int)),
    {
        push_hex(source, bytes[i] as u32, 2);
        source.push(' ');
        assert(bytes@.take(i + 1).drop_last() =~= bytes@.take(i as int));
        assert(source@ =~= head + hex_bytes(bytes@.take(i + 1)));
    }
    assert(bytes@.take(count as int) =~= bytes@);
    source.append("| ");
    source.append(disassembly);
    source.push('\n');
    assert(source@ =~= before + source_line(pc as nat, bytes@, disassembly@));
}

/// Adding lines only looks at the texts of the lines added.
proof fn lemma_more_disassembly(
    program: Seq<u8>,
    version: SBPFVersion,
    start: int,
    end: int,
    disassembly: Seq<String>,
    more: Seq<String>,
)
    requires
        end - start <= disassembly.len() <= more.len(),
        forall|i: int| 0 <= i < disassembly.len() ==> disassembly[i] == more[i],
    ensures
        source_text(program, version, start, end, disassembly) == source_text(
            program,
            version,
            start,
            end,
            more,
        ),
    decreases end - start,
{
    if start < end {
        lemma_more_disassembly(program, version, start, end - 1, disassembly, more);
    }
}

/// Writes the source file of a function: one line for each of its slots that
/// the program has. `disassemble` gives the text of an instruction. Where the
/// slots end amid an `lddw`, the lines before it are kept.
pub fn write_source_file<F: Fn(&Insn) -> String>(
    program: &[u8],
    pc_start: usize,
    pc_end: usize,
    sbpf_version: SBPFVersion,
    disassemble: F,
) -> (written: (String, Result<(), SourceError>))
    requires
        forall|insn: &Insn| #[trigger] call_requires(disassemble, (insn,)),
    ensures
        written.1 == (if is_truncated(program@, sbpf_version, pc_start as int, pc_end as int) {
            Err::<(), SourceError>(SourceError::TruncatedLddw)
        } else {
            Ok(())
        }),
        exists|disassembly: Seq<String>|
            {
                &&& #[trigger] is_disassembly(
                    program@,
                    sbpf_version,
                    pc_start as int,
                    lines_end(program@, sbpf_version, pc_start as int, pc_end as int),
                    disassemble,
                    disassembly,
                )
                &&& written.0@ == source_text(
                    program@,
                    sbpf_version,
                    pc_start as int,
                    lines_end(program@, sbpf_version, pc_start as int, pc_end as int),
                    disassembly,
                )
            },
{
    let mut source = String::new();
    let ghost mut disassembly = Seq::<String>::empty();
    let count: usize = program.len() / INSN_SIZE;
    let end: usize = if pc_end < count {
        pc_end
    } else {
        count
    };
    let ghost start = pc_start as int;
    let mut lddw_continuation = false;
    let mut pc: usize = pc_start;
    assert(source@ =~= source_text(program@, sbpf_version, start, start, disassembly));
    while pc < end
        invariant
            start == pc_start,
            count == instruction::slot_count(program@),
            end == source_end(program@, pc_end as int),
            pc_start <= pc,
            pc <= end || pc == pc_start,
            end <= count,
            lddw_continuation == is_continuation(program@, sbpf_version, start, pc as int),
            lddw_continuation ==> pc < end,
            forall|insn: &Insn| #[trigger] call_requires(disassemble, (insn,)),
            is_disassembly(
                program@,
                sbpf_version,
                start,
                pc as int,
                disassemble,
                disassembly,
            ),
            source@ == source_text(program@, sbpf_version, start, pc as int, disassembly),
        decreases end - pc,
    {
        let size: usize = program.len();
        assert((pc + 1) * INSN_SIZE <= size);
        let bytes = slice_subrange(program, pc * INSN_SIZE, (pc + 1) * INSN_SIZE);
        assert(bytes@ == instruction::slot(program@, pc as int));
        let line_text;
        if lddw_continuation {
            lddw_continuation = false;
            line_text = String::from_str("lddw continuation");
        } else {
            let insn;
            if bytes[0] == LD_DW_IMM && !sbpf_version.disable_lddw {
                if end - pc < 2 {
                    assert(lines_end(program@, sbpf_version, start, pc_end as int) == pc);
                    return (source, Err(SourceError::TruncatedLddw));
                }
                insn = get_wide_insn(program, pc);
                lddw_continuation = true;
            } else {
                insn = get_insn(program, pc);
            }
            line_text = disassemble(&insn);
        }
        push_source_line(&mut source, pc, bytes, line_text.as_str());
        proof {
            let more = disassembly.push(line_text);
            lemma_more_disassembly(
                program@,
                sbpf_version,
                start,
                pc as int,
                disassembly,
                more,
            );
            disassembly = more;
        }
        pc = pc + 1;
    }
    assert(lines_end(program@, sbpf_version, start, pc_end as int) == pc);
    (source, Ok(()))
}

/// The source file that is written for a function is not finished exactly where
/// its slots end amid an `lddw`. It has one line for each of its slots that the
/// program has, but for such an `lddw`, where no disassembly breaks a line.
pub proof fn law_written_file_has_a_line_for_each_slot<F: Fn(&Insn) -> String>(
    program: &[u8],
    pc_start: usize,
    pc_end: usize,
    version: SBPFVersion,
    disassemble: F,
    written: (String, Result<(), SourceError>),
)
    requires
        call_ensures(
            write_source_file::<F>,
            (program, pc_start, pc_end, version, disassemble),
            written,
        ),
        forall|insn: &Insn, said: String| #[trigger]
            call_ensures(disassemble, (insn,), said) ==> !said@.contains('\n'),
    ensures
        ({
            let whole = program@.len() as int / 8;
            let end = if pc_end < whole {
                pc_end as int
            } else {
                whole
            };
            let cut = pc_start < end && is_lddw(program@, version, pc_start as int, end - 1);
            &&& written.1 is Err <==> cut
            &&& end <= pc_start ==> written.0@.len() == 0
            &&& end > pc_start ==> line_breaks(written.0@) == end - pc_start - if cut {
                1int
            } else {
                0
            }
        }),
{
    let start = pc_start as int;
    let end = lines_end(program@, version, start, pc_end as int);
    law_every_slot_gets_a_line(program@, version, start, pc_end as int);
    let disassembly = choose|disassembly: Seq<String>|
        {
            &&& #[trigger] is_disassembly(
                program@,
                version,
                start,
                end,
                disassemble,
                disassembly,
            )
            &&& written.0@ == source_text(program@, version, start, end, disassembly)
        };
    if start < end {
        lemma_second_slots_do_not_count(program@, version, start, end, disassemble, disassembly);
    }
}

/// What is said of second slots is not in the file, so that it breaks no line.
proof fn lemma_second_slots_do_not_count<F: Fn(&Insn) -> String>(
    program: Seq<u8>,
    version: SBPFVersion,
    start: int,
    end: int,
    disassemble: F,
    disassembly: Seq<String>,
)
    requires
        0 <= start <= end,
        is_disassembly(program, version, start, end, disassemble, disassembly),
        forall|insn: &Insn, said: String| #[trigger]
            call_ensures(disassemble, (insn,), said) ==> !said@.contains('\n'),
    ensures
        line_breaks(source_text(program, version, start, end, disassembly)) == end - start,
    decreases end - start,
{
    if start < end {
        let last = end - 1;
        let fewer = disassembly.drop_last();
        let said = slot_text(program, version, start, last, disassembly[last - start]@);
        assert forall|i: int|
            0 <= i < last - start && !is_continuation(program, version, start, start + i)
            implies call_ensures(
            disassemble,
            (&instruction_at(program, version, start, start + i),),
            #[trigger] fewer[i],
        ) by {
            assert(disassembly[i] == fewer[i]);
        }
        lemma_second_slots_do_not_count(program, version, start, last, disassemble, fewer);
        lemma_more_disassembly(program, version, start, last, fewer, disassembly);
        reveal_strlit("lddw continuation");
        assert(start + (last - start) == last);
        assert(!said.contains('\n'));
        law_line_is_one_line(last as nat, instruction::slot(program, last), said);
        lemma_line_breaks_add(
            source_text(program, version, start, last, disassembly),
            source_line(last as nat, instruction::slot(program, last), said),
        );
    }
}

} // verus!
