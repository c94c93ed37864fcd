//! The DWARF line table, which maps machine code to program counters.

use crate::bytes;
use crate::code_map;
use crate::leb128;
use crate::meta::JitCodeMeta;
use vstd::prelude::*;
use vstd::utf8;

verus! {

/// The standard opcode that emits a row.
pub const DW_LNS_COPY: u8 = 0x01;

/// The standard opcode that moves the line by a signed amount.
pub const DW_LNS_ADVANCE_LINE: u8 = 0x03;

/// The extended opcode that ends the table.
pub const DW_LNE_END_SEQUENCE: u8 = 0x01;

/// The extended opcode that sets the address.
pub const DW_LNE_SET_ADDRESS: u8 = 0x02;

/// The address of the code of one program counter.
pub open spec fn row_address(code_ptr: u64, offset: u32) -> nat {
    code_ptr as nat + code_map::host_offset(offset)
}

/// Whether the address of the code of each program counter fits in 64 bits.
pub open spec fn addresses_fit(code_ptr: u64, pc_offsets: Seq<u32>) -> bool {
    forall|pc: int|
        0 <= pc < pc_offsets.len() ==> #[trigger] row_address(code_ptr, pc_offsets[pc])
            <= u64::MAX
}

/// The part of the header that follows its length: one-byte instructions, the
/// operand counts of the standard opcodes, no directories, and one file that
/// has the name `filename`.
pub open spec fn line_header(filename: Seq<u8>) -> Seq<u8> {
    seq![1u8, 1, 1, 0xfb, 14, 13] + seq![0u8, 1, 1, 1, 1, 0, 0, 0, 1, 0, 0, 1] + seq![0u8]
        + filename + seq![0u8] + seq![0u8, 0, 0] + seq![0u8]
}

/// The instructions that add a row for the program counter `pc`. The line
/// counts from one, so the first of them moves it back to zero.
pub open spec fn line_row(pc: int, address: nat) -> Seq<u8> {
    seq![0u8, 9, DW_LNE_SET_ADDRESS] + bytes::le_bytes(address, 8) + seq![DW_LNS_ADVANCE_LINE]
        + leb128::sleb128(
        if pc == 0 {
            -1
        } else {
            1
        },
    ) + seq![DW_LNS_COPY]
}

/// The instructions that add a row for each program counter in turn.
pub open spec fn line_rows(code_ptr: u64, pc_offsets: Seq<u32>) -> Seq<u8>
    decreases pc_offsets.len(),
{
    if pc_offsets.len() == 0 {
        Seq::empty()
    } else {
        line_rows(code_ptr, pc_offsets.drop_last()) + line_row(
            pc_offsets.len() - 1,
            row_address(code_ptr, pc_offsets.last()),
        )
    }
}

/// The whole line program.
pub open spec fn line_program(code_ptr: u64, pc_offsets: Seq<u32>) -> Seq<u8> {
    line_rows(code_ptr, pc_offsets) + seq![0u8, 1, DW_LNE_END_SEQUENCE]
}

/// A line table unit: its length, the DWARF version, the length of the header,
/// the header and the program.
pub open spec fn line_unit(header: Seq<u8>, program: Seq<u8>) -> Seq<u8> {
    bytes::le_bytes(bytes::low32(6 + header.len() + program.len()) as nat, 4) + bytes::le_bytes(
        4,
        2,
    ) + bytes::le_bytes(bytes::low32(header.len()) as nat, 4) + header + program
}

/// The line table of a program named `id`.
pub open spec fn debug_line(id: Seq<char>, code_ptr: u64, pc_offsets: Seq<u32>) -> Seq<u8> {
    line_unit(line_header(utf8::encode_utf8(id)), line_program(code_ptr, pc_offsets))
}

/// How many bytes the LEB128 number at the start of `code` takes.
pub open spec fn leb128_len(code: Seq<u8>) -> nat
    decreases code.len(),
{
    if code.len() == 0 {
        0
    } else if code[0] < 128 {
        1
    } else {
        1 + leb128_len(code.drop_first())
    }
}

/// The rows, each an address and a line, that a line program emits from the
/// given address and line on, as far as it consists of the four instructions
/// above; what follows another one is not run.
pub open spec fn run_line_program(code: Seq<u8>, address: nat, line: int) -> Seq<(nat, int)>
    decreases code.len(),
{
    if code.len() == 0 {
        Seq::empty()
    } else if code[0] == DW_LNS_COPY {
        seq![(address, line)] + run_line_program(code.skip(1), address, line)
    } else if code[0] == DW_LNS_ADVANCE_LINE && 1 + leb128_len(code.skip(1)) <= code.len() {
        let amount = leb128::sleb128_value(code.skip(1));
        run_line_program(code.skip(1 + leb128_len(code.skip(1)) as int), address, line + amount)
    } else if code[0] == 0 && code.len() >= 11 && code[1] == 9 && code[2] == DW_LNE_SET_ADDRESS {
        run_line_program(code.skip(11), bytes::le_value(code.subrange(3, 11)), line)
    } else {
        Seq::empty()
    }
}

/// The table that a debugger is to see: the code of program counter `i` is
/// line `i`.
pub open spec fn expected_rows(code_ptr: u64, pc_offsets: Seq<u32>) -> Seq<(nat, int)> {
    Seq::new(pc_offsets.len(), |i: int| (row_address(code_ptr, pc_offsets[i]), i))
}

proof fn lemma_row_runs(pc: int, address: nat, rest: Seq<u8>, before: nat, line: int)
    requires
        address <= u64::MAX,
        line == (if pc == 0 {
            1
        } else {
            pc - 1
        }),
    ensures
        run_line_program(line_row(pc, address) + rest, before, line) == seq![(address, pc)]
            + run_line_program(rest, address, pc),
{
    let amount: int = if pc == 0 {
        -1
    } else {
        1
    };
    let set = seq![0u8, 9, DW_LNE_SET_ADDRESS] + bytes::le_bytes(address, 8);
    let leb = leb128::sleb128(amount);
    let code = line_row(pc, address) + rest;
    bytes::lemma_byte_ranges();
    bytes::law_le_round_trip(address, 8);
    assert(set.len() == 11);
    assert(code.subrange(3, 11) =~= bytes::le_bytes(address, 8));
    let code2 = code.skip(11);
    assert(code2 =~= seq![DW_LNS_ADVANCE_LINE] + leb + seq![DW_LNS_COPY] + rest);
    assert(leb =~= seq![(amount % 128) as u8]);
    let operand = code2.skip(1);
    assert(operand[0] == (amount % 128) as u8);
    assert(leb128_len(operand) == 1);
    assert(leb128::sleb128_value(operand) == amount);
    let code3 = code2.skip(2);
    assert(code3 =~= seq![DW_LNS_COPY] + rest);
    assert(code3.skip(1) =~= rest);
    assert(run_line_program(code3, address, pc) == seq![(address, pc)] + run_line_program(
        rest,
        address,
        pc,
    ));
    assert(run_line_program(code2, address, line) == run_line_program(code3, address, pc));
}

proof fn lemma_rows_run(code_ptr: u64, pc_offsets: Seq<u32>, rest: Seq<u8>)
    requires
        addresses_fit(code_ptr, pc_offsets),
    ensures
        run_line_program(line_rows(code_ptr, pc_offsets) + rest, 0, 1) == expected_rows(
            code_ptr,
            pc_offsets,
        ) + run_line_program(
            rest,
            if pc_offsets.len() == 0 {
                0
            } else {
                row_address(code_ptr, pc_offsets.last())
            },
            if pc_offsets.len() == 0 {
                1
            } else {
                pc_offsets.len() - 1
            },
        ),
    decreases pc_offsets.len(),
{
    if pc_offsets.len() == 0 {
        assert(line_rows(code_ptr, pc_offsets) + rest =~= rest);
        assert(expected_rows(code_ptr, pc_offsets) =~= Seq::<(nat, int)>::empty());
        assert(Seq::<(nat, int)>::empty() + run_line_program(rest, 0, 1) =~= run_line_program(
            rest,
            0,
            1,
        ));
    } else {
        let init = pc_offsets.drop_last();
        let pc = pc_offsets.len() - 1;
        let address = row_address(code_ptr, pc_offsets.last());
        assert(row_address(code_ptr, pc_offsets[pc]) <= u64::MAX);
        assert(addresses_fit(code_ptr, init)) by {
            assert forall|i: int| 0 <= i < init.len() implies #[trigger] row_address(
                code_ptr,
                init[i],
            ) <= u64::MAX by {
                assert(row_address(code_ptr, pc_offsets[i]) <= u64::MAX);
            }
        }
        let tail = line_row(pc, address) + rest;
        assert(line_rows(code_ptr, pc_offsets) + rest =~= line_rows(code_ptr, init) + tail);
        lemma_rows_run(code_ptr, init, tail);
        let before: nat = if init.len() == 0 {
            0
        } else {
            row_address(code_ptr, init.last())
        };
        let line: int = if init.len() == 0 {
            1
        } else {
            init.len() - 1
        };
        lemma_row_runs(pc, address, rest, before, line);
        assert(expected_rows(code_ptr, init) + (seq![(address, pc)] + run_line_program(
            rest,
            address,
            pc,
        )) =~= expected_rows(code_ptr, pc_offsets) + run_line_program(rest, address, pc));
    }
}

/// A debugger that runs the line program sees the code of program counter `i`
/// as line `i`, and nothing else.
pub proof fn law_line_program_maps_code_to_counters(code_ptr: u64, pc_offsets: Seq<u32>)
    requires
        addresses_fit(code_ptr, pc_offsets),
    ensures
        run_line_program(line_program(code_ptr, pc_offsets), 0, 1) == expected_rows(
            code_ptr,
            pc_offsets,
        ),
{
    let end = seq![0u8, 1, DW_LNE_END_SEQUENCE];
    lemma_rows_run(code_ptr, pc_offsets, end);
    assert(expected_rows(code_ptr, pc_offsets) + Seq::<(nat, int)>::empty() =~= expected_rows(
        code_ptr,
        pc_offsets,
    ));
}

/// The two length fields of a unit say where its header ends and where it
/// ends itself, where the unit has less than four gigabytes.
pub proof fn law_unit_lengths(header: Seq<u8>, program: Seq<u8>)
    requires
        6 + header.len() + program.len() < 0x1_0000_0000,
    ensures
        ({
            let unit = line_unit(header, program);
            &&& bytes::le_value(unit.subrange(0, 4)) == unit.len() - 4
            &&& bytes::le_value(unit.subrange(6, 10)) == header.len()
            &&& unit.skip(10 + header.len() as int) == program
            &&& unit.subrange(10, 10 + header.len() as int) == header
        }),
{
    let unit = line_unit(header, program);
    bytes::lemma_byte_ranges();
    bytes::law_le_round_trip((6 + header.len() + program.len()) as nat, 4);
    bytes::law_le_round_trip(4, 2);
    bytes::law_le_round_trip(header.len(), 4);
    assert(unit.subrange(0, 4) =~= bytes::le_bytes((6 + header.len() + program.len()) as nat, 4));
    assert(unit.subrange(6, 10) =~= bytes::le_bytes(header.len(), 4));
    assert(unit.skip(10 + header.len() as int) =~= program);
    assert(unit.subrange(10, 10 + header.len() as int) =~= header);
}

/// The addresses fit where, for each program counter, the address of the code
/// plus the low 31 bits of the offset is below two to the power of 64.
pub proof fn law_addresses_fit_in_64_bits(code_ptr: u64, pc_offsets: Seq<u32>)
    ensures
        addresses_fit(code_ptr, pc_offsets) <==> forall|pc: int|
            0 <= pc < pc_offsets.len() ==> code_ptr + (#[trigger] pc_offsets[pc] & 0x7fff_ffff)
                < 0x1_0000_0000_0000_0000,
{
    assert forall|pc: int| 0 <= pc < pc_offsets.len() implies #[trigger] row_address(
        code_ptr,
        pc_offsets[pc],
    ) == code_ptr + (pc_offsets[pc] & 0x7fff_ffff) by {
        code_map::lemma_low_bits(pc_offsets[pc]);
    }
    if addresses_fit(code_ptr, pc_offsets) {
        assert forall|pc: int| 0 <= pc < pc_offsets.len() implies code_ptr + (
        #[trigger] pc_offsets[pc] & 0x7fff_ffff) < 0x1_0000_0000_0000_0000 by {
            assert(row_address(code_ptr, pc_offsets[pc]) <= u64::MAX);
        }
    }
}

/// A debugger that runs the line program gets one row for each program
/// counter. The row of program counter `pc` is line `pc`, and its address is
/// the low 31 bits of the offset above the start of the code: a smaller offset
/// is exactly as many bytes above it, and the top bit makes no difference.
pub proof fn law_rows_are_offsets_above_the_code(code_ptr: u64, pc_offsets: Seq<u32>, pc: int)
    requires
        addresses_fit(code_ptr, pc_offsets),
        0 <= pc < pc_offsets.len(),
    ensures
        ({
            let rows = run_line_program(line_program(code_ptr, pc_offsets), 0, 1);
            &&& rows.len() == pc_offsets.len()
            &&& rows[pc] == ((code_ptr + (pc_offsets[pc] & 0x7fff_ffff)) as nat, pc)
            &&& pc_offsets[pc] < 0x8000_0000 ==> rows[pc].0 == code_ptr + pc_offsets[pc]
            &&& pc_offsets[pc] >= 0x8000_0000 ==> rows[pc].0 == code_ptr + pc_offsets[pc]
                - 0x8000_0000
        }),
{
    law_line_program_maps_code_to_counters(code_ptr, pc_offsets);
    code_map::lemma_low_bits(pc_offsets[pc]);
}

/// What the instructions of a line program do: a byte of one emits a row, a
/// byte of three moves the line by the signed LEB128 number behind it, the
/// bytes zero, nine and two set the address to the eight bytes behind them,
/// and the bytes zero, one and one end the rows.
pub proof fn law_line_instructions(
    rest: Seq<u8>,
    address: nat,
    line: int,
    amount: int,
    target: u64,
)
    requires
        -64 <= amount < 64,
    ensures
        run_line_program(seq![1u8] + rest, address, line) == seq![(address, line)]
            + run_line_program(rest, address, line),
        run_line_program(seq![3u8, (amount % 128) as u8] + rest, address, line)
            == run_line_program(rest, address, line + amount),
        run_line_program(seq![0u8, 9, 2] + bytes::le_bytes(target as nat, 8) + rest, address, line)
            == run_line_program(rest, target as nat, line),
        run_line_program(seq![0u8, 1, 1] + rest, address, line) == Seq::<(nat, int)>::empty(),
{
    let copy = seq![1u8] + rest;
    assert(copy.skip(1) =~= rest);
    let advance = seq![3u8, (amount % 128) as u8] + rest;
    let operand = advance.skip(1);
    assert(operand[0] == (amount % 128) as u8);
    assert(leb128_len(operand) == 1);
    assert(leb128::sleb128_value(operand) == amount);
    assert(advance.skip(2) =~= rest);
    let set = seq![0u8, 9, 2] + bytes::le_bytes(target as nat, 8) + rest;
    bytes::lemma_byte_ranges();
    bytes::law_le_round_trip(target as nat, 8);
    assert(set.subrange(3, 11) =~= bytes::le_bytes(target as nat, 8));
    assert(set.skip(11) =~= rest);
}

/// A reader of the line table finds, by the lengths that it states, version
/// four, instructions of one byte, no directory, one file that has the name of
/// the program, and a line program that ends behind the row of the last
/// program counter.
pub proof fn law_line_table_read_back(id: Seq<char>, code_ptr: u64, pc_offsets: Seq<u32>)
    requires
        addresses_fit(code_ptr, pc_offsets),
        !utf8::encode_utf8(id).contains(0),
        debug_line(id, code_ptr, pc_offsets).len() < 0x1_0000_0000,
    ensures
        ({
            let table = debug_line(id, code_ptr, pc_offsets);
            let name = utf8::encode_utf8(id);
            let program = table.skip((10 + bytes::field(table, 6, 4)) as int);
            &&& bytes::field(table, 0, 4) == table.len() - 4
            &&& bytes::field(table, 4, 2) == 4
            &&& bytes::field(table, 6, 4) == 24 + name.len()
            &&& table.subrange(10, 29) == seq![
                1u8, 1, 1, 0xfb, 14, 13, 0, 1, 1, 1, 1, 0, 0, 0, 1, 0, 0, 1, 0,
            ]
            &&& bytes::c_string(table, 29) == name
            &&& table.subrange((29 + name.len()) as int, (34 + name.len()) as int) == seq![
                0u8, 0, 0, 0, 0,
            ]
            &&& run_line_program(program, 0, 1).len() == pc_offsets.len()
            &&& forall|pc: int|
                0 <= pc < pc_offsets.len() ==> #[trigger] run_line_program(program, 0, 1)[pc] == ((
                code_ptr + (pc_offsets[pc] & 0x7fff_ffff)) as nat, pc)
            &&& program.subrange(program.len() - 3, program.len() as int) == seq![0u8, 1, 1]
        }),
{
    let name = utf8::encode_utf8(id);
    let header = line_header(name);
    let program = line_program(code_ptr, pc_offsets);
    let table = debug_line(id, code_ptr, pc_offsets);
    bytes::lemma_le_len();
    bytes::lemma_byte_ranges();
    assert(header.len() == 24 + name.len());
    law_unit_lengths(header, program);
    assert(table.subrange(4, 6) =~= bytes::le_bytes(4, 2));
    bytes::law_le_round_trip(4, 2);
    assert(table.subrange(10, 29) =~= seq![
        1u8, 1, 1, 0xfb, 14, 13, 0, 1, 1, 1, 1, 0, 0, 0, 1, 0, 0, 1, 0,
    ]);
    assert(table.subrange(29, (29 + name.len()) as int) =~= name);
    assert(table.subrange((29 + name.len()) as int, (34 + name.len()) as int) =~= seq![
        0u8, 0, 0, 0, 0,
    ]);
    assert forall|i: int| 0 <= i < name.len() implies name[i] != 0 by {
        assert(name.contains(name[i]));
    }
    bytes::lemma_c_string_at(table, 29, name);
    law_line_program_maps_code_to_counters(code_ptr, pc_offsets);
    assert forall|pc: int| 0 <= pc < pc_offsets.len() implies #[trigger] run_line_program(
        program,
        0,
        1,
    )[pc] == ((code_ptr + (pc_offsets[pc] & 0x7fff_ffff)) as nat, pc) by {
        law_rows_are_offsets_above_the_code(code_ptr, pc_offsets, pc);
    }
    assert(program.subrange(program.len() - 3, program.len() as int) =~= seq![0u8, 1, 1]);
}

/// A line table is never empty.
pub proof fn law_debug_line_is_not_empty(id: Seq<char>, code_ptr: u64, pc_offsets: Seq<u32>)
    ensures
        debug_line(id, code_ptr, pc_offsets).len() > 0,
{
}

/// Builds the header that follows its own length.
fn build_header(filename: &[u8]) -> (header: Vec<u8>)
    ensures
        header@ == line_header(filename@),
{
    let mut header: Vec<u8> = Vec::new();
    header.push(1);
    header.push(1);
    header.push(1);
    header.push(0xfb);
    header.push(14);
    header.push(13);
    bytes::append(&mut header, &[0, 1, 1, 1, 1, 0, 0, 0, 1, 0, 0, 1]);
    header.push(0);
    bytes::append(&mut header, filename);
    header.push(0);
    leb128::write_uleb128(&mut header, 0);
    leb128::write_uleb128(&mut header, 0);
    leb128::write_uleb128(&mut header, 0);
    header.push(0);
    assert(header@ =~= line_header(filename@));
    header
}

/// Builds the line program.
fn build_program(code_ptr: u64, pc_offsets: &[u32]) -> (program: Vec<u8>)
    requires
        addresses_fit(code_ptr, pc_offsets@),
    ensures
        program@ == line_program(code_ptr, pc_offsets@),
{
    let mut program: Vec<u8> = Vec::new();
    let mut pc: usize = 0;
    assert(pc_offsets@.take(0) =~= Seq::<u32>::empty());
    while pc < pc_offsets.len()
        invariant
            pc <= pc_offsets@.len(),
            addresses_fit(code_ptr, pc_offsets@),
            program@ == line_rows(code_ptr, pc_offsets@.take(pc as int)),
        decreases pc_offsets@.len() - pc,
    {
        let ghost before = program@;
        let offset = pc_offsets[pc];
        assert(row_address(code_ptr, pc_offsets@[pc as int]) <= u64::MAX);
        let addr: u64 = code_ptr + code_map::strip_flag(offset) as u64;
        program.push(0);
        leb128::write_uleb128(&mut program, 1 + 8);
        program.push(DW_LNE_SET_ADDRESS);
        bytes::write_u64(&mut program, addr);
        program.push(DW_LNS_ADVANCE_LINE);
        leb128::write_sleb128(
            &mut program,
            if pc == 0 {
                -1
            } else {
                1
            },
        );
        program.push(DW_LNS_COPY);
        assert(leb128::uleb128(9) =~= seq![9u8]);
        assert(program@ =~= before + line_row(pc as int, addr as nat));
        assert(pc_offsets@.take(pc + 1).drop_last() =~= pc_offsets@.take(pc as int));
        assert(pc_offsets@.take(pc + 1).last() == offset);
        pc = pc + 1;
    }
    assert(pc_offsets@.take(pc as int) =~= pc_offsets@);
    let ghost before = program@;
    program.push(0);
    leb128::write_uleb128(&mut program, 1);
    program.push(DW_LNE_END_SEQUENCE);
    assert(leb128::uleb128(1) =~= seq![1u8]);
    assert(program@ =~= before + seq![0u8, 1, DW_LNE_END_SEQUENCE]);
    program
}

/// Tests whether the address of the code of each program counter fits in 64
/// bits.
pub fn check_addresses(code_ptr: u64, pc_offsets: &[u32]) -> (fit: bool)
    ensures
        fit == addresses_fit(code_ptr, pc_offsets@),
{
    for i in 0..pc_offsets.len()
        invariant
            forall|pc: int|
                0 <= pc < i ==> #[trigger] row_address(code_ptr, pc_offsets@[pc]) <= u64::MAX,
    {
        let offset: u64 = code_map::strip_flag(pc_offsets[i]) as u64;
        if offset > u64::MAX - code_ptr {
            assert(row_address(code_ptr, pc_offsets@[i as int]) > u64::MAX);
            return false;
        }
    }
    true
}

/// Adding up the low halves of lengths gives the low half of their sum.
proof fn lemma_low32_sum(a: nat, b: nat)
    ensures
        bytes::low32(6 + a + b) == (bytes::low32(a) + bytes::low32(b) + 6) % 0x1_0000_0000,
{
}

/// Builds a line table unit around its header and its program.
fn build_unit(header: &[u8], program: &[u8]) -> (data: Vec<u8>)
    ensures
        data@ == line_unit(header@, program@),
{
    let header_len: u32 = bytes::truncate_u32(header.len());
    let program_len: u32 = bytes::truncate_u32(program.len());
    let unit_length: u32 = header_len.wrapping_add(program_len).wrapping_add(6);
    proof {
        lemma_low32_sum(header@.len(), program@.len());
    }
    let mut data: Vec<u8> = Vec::new();
    bytes::write_u32(&mut data, unit_length);
    bytes::write_u16(&mut data, 4);
    bytes::write_u32(&mut data, header_len);
    bytes::append(&mut data, header);
    bytes::append(&mut data, program);
    assert(data@ =~= line_unit(header@, program@));
    data
}

/// Builds the line table of a program, in which the code of each program
/// counter is the line of that number.
pub fn build_debug_line(meta: &JitCodeMeta, pc_offsets: &[u32]) -> (data: Vec<u8>)
    requires
        addresses_fit(meta.code_ptr, pc_offsets@),
    ensures
        data@ == debug_line(meta.id@, meta.code_ptr, pc_offsets@),
{
    let header = build_header(meta.id.as_str().as_bytes());
    let program = build_program(meta.code_ptr, pc_offsets);
    build_unit(header.as_slice(), program.as_slice())
}

/// The line table that is built for a program gives a debugger one row for each
/// program counter: line `pc`, at the low 31 bits of its offset above the start
/// of the code.
pub proof fn law_built_table_maps_code_to_counters(
    meta: &JitCodeMeta,
    pc_offsets: &[u32],
    data: Vec<u8>,
    pc: int,
)
    requires
        call_ensures(build_debug_line, (meta, pc_offsets), data),
        forall|i: int|
            0 <= i < pc_offsets@.len() ==> meta.code_ptr + (#[trigger] pc_offsets@[i]
                & 0x7fff_ffff) < 0x1_0000_0000_0000_0000,
        !utf8::encode_utf8(meta.id@).contains(0),
        data@.len() < 0x1_0000_0000,
        0 <= pc < pc_offsets@.len(),
    ensures
        ({
            let program = data@.skip((10 + bytes::field(data@, 6, 4)) as int);
            let rows = run_line_program(program, 0, 1);
            &&& bytes::field(data@, 0, 4) == data@.len() - 4
            &&& bytes::c_string(data@, 29) == utf8::encode_utf8(meta.id@)
            &&& rows.len() == pc_offsets@.len()
            &&& rows[pc] == ((meta.code_ptr + (pc_offsets@[pc] & 0x7fff_ffff)) as nat, pc)
            &&& pc_offsets@[pc] < 0x8000_0000 ==> rows[pc].0 == meta.code_ptr + pc_offsets@[pc]
        }),
{
    law_addresses_fit_in_64_bits(meta.code_ptr, pc_offsets@);
    lemma_table_parts(meta.id@, meta.code_ptr, pc_offsets@);
    law_rows_are_offsets_above_the_code(meta.code_ptr, pc_offsets@, pc);
}

/// Where the parts of a line table stand.
proof fn lemma_table_parts(id: Seq<char>, code_ptr: u64, pc_offsets: Seq<u32>)
    requires
        addresses_fit(code_ptr, pc_offsets),
        !utf8::encode_utf8(id).contains(0),
        debug_line(id, code_ptr, pc_offsets).len() < 0x1_0000_0000,
    ensures
        ({
            let table = debug_line(id, code_ptr, pc_offsets);
            &&& bytes::field(table, 0, 4) == table.len() - 4
            &&& bytes::c_string(table, 29) == utf8::encode_utf8(id)
            &&& table.skip((10 + bytes::field(table, 6, 4)) as int) == line_program(
                code_ptr,
                pc_offsets,
            )
        }),
{
    let header = line_header(utf8::encode_utf8(id));
    let program = line_program(code_ptr, pc_offsets);
    bytes::lemma_le_len();
    law_line_table_read_back(id, code_ptr, pc_offsets);
    law_unit_lengths(header, program);
}

/// The test for addresses passes where each is below two to the power of 64.
pub proof fn law_checked_addresses_fit(code_ptr: u64, pc_offsets: &[u32], fit: bool)
    requires
        call_ensures(check_addresses, (code_ptr, pc_offsets), fit),
    ensures
        fit <==> forall|pc: int|
            0 <= pc < pc_offsets@.len() ==> code_ptr + (#[trigger] pc_offsets@[pc] & 0x7fff_ffff)
                < 0x1_0000_0000_0000_0000,
{
    law_addresses_fit_in_64_bits(code_ptr, pc_offsets@);
}

/// Every byte of the name of the program stands in its line table, and a zero
/// byte behind it, whatever the name holds; the line program stands where the
/// length of the header says.
pub proof fn law_line_table_keeps_the_name_whole(
    meta: &JitCodeMeta,
    pc_offsets: &[u32],
    data: Vec<u8>,
)
    requires
        call_ensures(build_debug_line, (meta, pc_offsets), data),
        data@.len() < 0x1_0000_0000,
    ensures
        ({
            let name = utf8::encode_utf8(meta.id@);
            let end = 29 + name.len() as int;
            &&& data@.subrange(29, end) == name
            &&& data@.subrange(end, end + 5) == seq![0u8, 0, 0, 0, 0]
            &&& bytes::field(data@, 6, 4) == 24 + name.len()
            &&& data@.skip(34 + name.len() as int) == line_program(meta.code_ptr, pc_offsets@)
        }),
{
    let name = utf8::encode_utf8(meta.id@);
    let end = 29 + name.len() as int;
    let header = line_header(name);
    let program = line_program(meta.code_ptr, pc_offsets@);
    bytes::lemma_le_len();
    assert(header.len() == 24 + name.len());
    law_unit_lengths(header, program);
    assert(data@.subrange(29, end) =~= name);
    assert(data@.subrange(end, end + 5) =~= seq![0u8, 0, 0, 0, 0]);
}

} // verus!
