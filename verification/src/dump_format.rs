//! The jitdump file format: a header, then records of machine code.

use crate::bytes;
use crate::bytes::{append, truncate_u32, write_u32, write_u64, write_u8};
use crate::code_map;
use crate::code_map::strip_flag;
use vstd::prelude::*;
use vstd::utf8;

verus! {

pub const JITDUMP_MAGIC: u32 = 0x4a695444;

pub const JITDUMP_VERSION: u32 = 1;

pub const JITDUMP_ELF_MACHINE: u32 = 62;

/// How many bytes the header of the file has.
pub const DUMP_HEADER_SIZE: u32 = 40;

/// How many bytes the header of a record has.
pub const RECORD_HEADER_SIZE: usize = 16;

pub const CODE_LOAD_ID: u32 = 0;

pub const CODE_MOVE_ID: u32 = 1;

pub const CODE_DEBUG_INFO_ID: u32 = 2;

pub const CODE_CLOSE_ID: u32 = 3;

/// The header of a dump file.
pub open spec fn dump_header(pid: u32, timestamp: u64) -> Seq<u8> {
    bytes::le_bytes(JITDUMP_MAGIC as nat, 4) + bytes::le_bytes(JITDUMP_VERSION as nat, 4)
        + bytes::le_bytes(DUMP_HEADER_SIZE as nat, 4) + bytes::le_bytes(
        JITDUMP_ELF_MACHINE as nat,
        4,
    ) + bytes::le_bytes(0, 4) + bytes::le_bytes(pid as nat, 4) + bytes::le_bytes(
        timestamp as nat,
        8,
    ) + bytes::le_bytes(0, 8)
}

/// How many bytes a record takes: its header and its payload, filled up to a
/// multiple of eight.
pub open spec fn record_size(payload_len: nat) -> nat {
    code_map::aligned(RECORD_HEADER_SIZE as nat + payload_len, 8)
}

/// The payload of a record, filled up with zero bytes.
pub open spec fn padded_payload(payload: Seq<u8>) -> Seq<u8> {
    payload + bytes::zeros(
        (record_size(payload.len()) - RECORD_HEADER_SIZE - payload.len()) as nat,
    )
}

/// The bytes of a record.
pub open spec fn record(id: u32, payload: Seq<u8>, timestamp: u64) -> Seq<u8> {
    bytes::le_bytes(id as nat, 4) + bytes::le_bytes(
        bytes::low32(record_size(payload.len())) as nat,
        4,
    ) + bytes::le_bytes(timestamp as nat, 8) + padded_payload(payload)
}

/// The payload that says where the machine code of a function is, and holds a
/// copy of it.
pub open spec fn code_load(
    pid: u32,
    tid: u32,
    code_addr: u64,
    code_index: u64,
    name: Seq<char>,
    code: Seq<u8>,
) -> Seq<u8> {
    bytes::le_bytes(pid as nat, 4) + bytes::le_bytes(tid as nat, 4) + bytes::le_bytes(
        code_addr as nat,
        8,
    ) + bytes::le_bytes(code_addr as nat, 8) + bytes::le_bytes(code.len(), 8) + bytes::le_bytes(
        code_index as nat,
        8,
    ) + utf8::encode_utf8(name) + seq![0u8] + code
}

/// One line of a source file and the address of its machine code.
#[derive(Clone, Copy, Debug, PartialEq, Eq, Structural)]
pub struct LineEntry {
    pub addr: u64,
    pub line: u32,
}

/// The address of the machine code for an offset, in a function whose machine
/// code starts at the offset `function_host_start` and at the address
/// `code_addr`.
pub open spec fn line_address(code_addr: u64, function_host_start: u64, offset: u32) -> u64 {
    let relative = if code_map::host_offset(offset) > function_host_start {
        code_map::host_offset(offset) - function_host_start
    } else {
        0
    };
    ((code_addr + relative) % 0x1_0000_0000_0000_0000) as u64
}

/// The lines of the program counters from `pc_start` to `pc_end`, numbered
/// from one. A line whose address is not above that of the last line kept is
/// left out.
pub open spec fn line_entries(
    code_addr: u64,
    function_host_start: u64,
    pc_offsets: Seq<u32>,
    pc_start: int,
    pc_end: int,
) -> Seq<LineEntry>
    decreases pc_end - pc_start,
{
    if pc_end <= pc_start {
        Seq::empty()
    } else {
        let before = line_entries(
            code_addr,
            function_host_start,
            pc_offsets,
            pc_start,
            pc_end - 1,
        );
        let addr = line_address(code_addr, function_host_start, pc_offsets[pc_end - 1]);
        if before.len() > 0 && addr <= before.last().addr {
            before
        } else {
            before.push(LineEntry { addr, line: bytes::low32((pc_end - pc_start) as nat) })
        }
    }
}

/// The bytes of one line.
pub open spec fn line_bytes(entry: LineEntry, filename: Seq<char>) -> Seq<u8> {
    bytes::le_bytes(entry.addr as nat, 8) + bytes::le_bytes(entry.line as nat, 4)
        + bytes::le_bytes(0, 4) + utf8::encode_utf8(filename) + seq![0u8]
}

/// The bytes of lines.
pub open spec fn lines_bytes(entries: Seq<LineEntry>, filename: Seq<char>) -> Seq<u8>
    decreases entries.len(),
{
    if entries.len() == 0 {
        Seq::empty()
    } else {
        lines_bytes(entries.drop_last(), filename) + line_bytes(entries.last(), filename)
    }
}

/// The payload that says which lines of a source file the machine code of a
/// function belongs to.
pub open spec fn debug_info(
    code_addr: u64,
    entries: Seq<LineEntry>,
    filename: Seq<char>,
) -> Seq<u8> {
    bytes::le_bytes(code_addr as nat, 8) + bytes::le_bytes(entries.len(), 8) + lines_bytes(
        entries,
        filename,
    )
}

/// The nanoseconds of a clock reading; what does not fit is cut off at the
/// largest number.
pub open spec fn nanoseconds(tv_sec: i64, tv_nsec: i64) -> nat {
    let seconds = unsigned(tv_sec) * 1_000_000_000;
    let capped = if seconds > u64::MAX {
        u64::MAX as nat
    } else {
        seconds
    };
    if capped + unsigned(tv_nsec) > u64::MAX {
        u64::MAX as nat
    } else {
        capped + unsigned(tv_nsec)
    }
}

/// A signed number as its two's complement.
pub open spec fn unsigned(value: i64) -> nat {
    if value < 0 {
        (value + 0x1_0000_0000_0000_0000) as nat
    } else {
        value as nat
    }
}

/// A later reading of the clock gives no smaller number, so what is written
/// later is not marked as earlier.
pub proof fn law_time_does_not_go_back(
    tv_sec: i64,
    tv_nsec: i64,
    later_sec: i64,
    later_nsec: i64,
)
    requires
        0 <= tv_sec,
        0 <= tv_nsec < 1_000_000_000,
        0 <= later_nsec < 1_000_000_000,
        tv_sec < later_sec || tv_sec == later_sec && tv_nsec <= later_nsec,
    ensures
        nanoseconds(tv_sec, tv_nsec) <= nanoseconds(later_sec, later_nsec),
{
}

/// A reading of the clock is its seconds times a thousand million, plus its
/// nanoseconds, where that fits in 64 bits, and else the largest number that
/// does. Negative readings count as their two's complements.
pub proof fn law_time_is_in_nanoseconds(tv_sec: i64, tv_nsec: i64)
    ensures
        ({
            let seconds = if tv_sec < 0 {
                tv_sec + 0x1_0000_0000_0000_0000
            } else {
                tv_sec as int
            };
            let rest = if tv_nsec < 0 {
                tv_nsec + 0x1_0000_0000_0000_0000
            } else {
                tv_nsec as int
            };
            nanoseconds(tv_sec, tv_nsec) == if seconds * 1_000_000_000 + rest
                < 0x1_0000_0000_0000_0000 {
                seconds * 1_000_000_000 + rest
            } else {
                0xffff_ffff_ffff_ffff
            }
        }),
{
}

/// A line has the address of the code of the function plus the distance from
/// the start of the function to the code of the program counter, in 64 bits;
/// the top bit of an offset makes no difference, and an offset before the
/// start counts as the start.
pub proof fn law_line_address_is_the_distance(
    code_addr: u64,
    function_host_start: u64,
    offset: u32,
)
    ensures
        ({
            let low = (offset & 0x7fff_ffff) as int;
            let distance = if low < function_host_start {
                0
            } else {
                low - function_host_start
            };
            line_address(code_addr, function_host_start, offset) == (code_addr + distance)
                % 0x1_0000_0000_0000_0000
        }),
{
    code_map::lemma_low_bits(offset);
}

/// The header of a dump file for a process.
pub fn build_header(pid: u32, timestamp: u64) -> (header: Vec<u8>)
    ensures
        header@ == dump_header(pid, timestamp),
{
    let mut header = Vec::new();
    write_u32(&mut header, JITDUMP_MAGIC);
    write_u32(&mut header, JITDUMP_VERSION);
    write_u32(&mut header, DUMP_HEADER_SIZE);
    write_u32(&mut header, JITDUMP_ELF_MACHINE);
    write_u32(&mut header, 0);
    write_u32(&mut header, pid);
    write_u64(&mut header, timestamp);
    write_u64(&mut header, 0);
    assert(header@ =~= dump_header(pid, timestamp));
    header
}

/// The time in nanoseconds that a reading of the clock gives.
pub fn timestamp(tv_sec: i64, tv_nsec: i64) -> (nanos: u64)
    ensures
        nanos == nanoseconds(tv_sec, tv_nsec),
{
    assert(tv_sec as u64 == (if tv_sec < 0 {
        tv_sec + 0x1_0000_0000_0000_0000
    } else {
        tv_sec as int
    })) by (bit_vector);
    assert(tv_nsec as u64 == (if tv_nsec < 0 {
        tv_nsec + 0x1_0000_0000_0000_0000
    } else {
        tv_nsec as int
    })) by (bit_vector);
    let seconds: u64 = tv_sec as u64;
    let capped: u64 = if seconds > u64::MAX / 1_000_000_000 {
        u64::MAX
    } else {
        seconds * 1_000_000_000
    };
    capped.saturating_add(tv_nsec as u64)
}

/// How a record is sized: by its payload, in steps of eight bytes.
pub proof fn lemma_record_size(payload_len: nat)
    ensures
        record_size(payload_len) % 8 == 0,
        RECORD_HEADER_SIZE + payload_len <= record_size(payload_len) < RECORD_HEADER_SIZE
            + payload_len + 8,
{
    code_map::law_aligned(RECORD_HEADER_SIZE as nat + payload_len, 8);
}

/// Builds a record around a payload.
pub fn write_record(record_id: u32, payload: &[u8], timestamp: u64) -> (bytes: Vec<u8>)
    ensures
        bytes@ == record(record_id, payload@, timestamp),
{
    let len: usize = payload.len();
    let padding: usize = (8 - len % 8) % 8;
    let size: u32 = truncate_u32(len).wrapping_add(16 + padding as u32);
    proof {
        lemma_record_size(len as nat);
        assert(record_size(len as nat) == 16 + len + padding);
        assert(size == bytes::low32(record_size(len as nat)));
    }
    let mut record_bytes = Vec::new();
    write_u32(&mut record_bytes, record_id);
    write_u32(&mut record_bytes, size);
    write_u64(&mut record_bytes, timestamp);
    append(&mut record_bytes, payload);
    let ghost unpadded = record_bytes@;
    for i in 0..padding
        invariant
            record_bytes@ == unpadded + bytes::zeros(i as nat),
    {
        write_u8(&mut record_bytes, 0);
        assert(record_bytes@ =~= unpadded + bytes::zeros((i + 1) as nat));
    }
    assert(record_bytes@ =~= record(record_id, payload@, timestamp));
    record_bytes
}

/// Builds the payload that says where the machine code of a function is.
pub fn build_code_load(
    pid: u32,
    tid: u32,
    code_addr: u64,
    code_index: u64,
    name: &str,
    code_bytes: &[u8],
) -> (payload: Vec<u8>)
    ensures
        payload@ == code_load(pid, tid, code_addr, code_index, name@, code_bytes@),
{
    let mut payload = Vec::new();
    write_u32(&mut payload, pid);
    write_u32(&mut payload, tid);
    write_u64(&mut payload, code_addr);
    write_u64(&mut payload, code_addr);
    write_u64(&mut payload, code_bytes.len() as u64);
    write_u64(&mut payload, code_index);
    append(&mut payload, name.as_bytes());
    write_u8(&mut payload, 0);
    append(&mut payload, code_bytes);
    assert(payload@ =~= code_load(pid, tid, code_addr, code_index, name@, code_bytes@));
    payload
}

/// Collects the lines of the program counters from `pc_start` to `pc_end`.
pub fn build_line_entries(
    code_addr: u64,
    function_host_start: u64,
    pc_offsets: &[u32],
    pc_start: usize,
    pc_end: usize,
) -> (entries: Vec<LineEntry>)
    requires
        pc_start < pc_end ==> pc_end <= pc_offsets@.len(),
    ensures
        entries@ == line_entries(
            code_addr,
            function_host_start,
            pc_offsets@,
            pc_start as int,
            pc_end as int,
        ),
{
    let mut entries: Vec<LineEntry> = Vec::new();
    let mut last_addr: Option<u64> = None;
    let mut pc: usize = pc_start;
    while pc < pc_end
        invariant
            pc_start <= pc,
            pc <= pc_end || pc == pc_start,
            pc_start < pc_end ==> pc_end <= pc_offsets@.len(),
            last_addr == (if entries@.len() > 0 {
                Some(entries@.last().addr)
            } else {
                None
            }),
            entries@ == line_entries(
                code_addr,
                function_host_start,
                pc_offsets@,
                pc_start as int,
                pc as int,
            ),
        decreases pc_end - pc,
    {
        let host_offset: u64 = strip_flag(pc_offsets[pc]) as u64;
        let relative: u64 = host_offset.saturating_sub(function_host_start);
        let addr: u64 = code_addr.wrapping_add(relative);
        assert(addr == line_address(code_addr, function_host_start, pc_offsets@[pc as int]));
        let skipped = match last_addr {
            Some(last) => addr <= last,
            None => false,
        };
        if !skipped {
            entries.push(LineEntry { addr, line: truncate_u32(pc - pc_start + 1) });
            last_addr = Some(addr);
        }
        pc = pc + 1;
    }
    entries
}

/// Builds the payload that says which lines the machine code of a function
/// belongs to.
pub fn build_debug_info(code_addr: u64, entries: &Vec<LineEntry>, filename: &str) -> (payload: Vec<
    u8,
>)
    ensures
        payload@ == debug_info(code_addr, entries@, filename@),
{
    let name = filename.as_bytes();
    let mut payload = Vec::new();
    write_u64(&mut payload, code_addr);
    write_u64(&mut payload, entries.len() as u64);
    let ghost head = payload@;
    for i in 0..entries.len()
        invariant
            name@ == utf8::encode_utf8(filename@),
            payload@ == head + lines_bytes(entries@.take(i as int), filename@),
    {
        write_u64(&mut payload, entries[i].addr);
        write_u32(&mut payload, entries[i].line);
        write_u32(&mut payload, 0);
        append(&mut payload, name);
        write_u8(&mut payload, 0);
        assert(entries@.take(i + 1).drop_last() =~= entries@.take(i as int));
        assert(payload@ =~= head + lines_bytes(entries@.take(i + 1), filename@));
    }
    assert(entries@.take(entries@.len() as int) =~= entries@);
    assert(payload@ =~= debug_info(code_addr, entries@, filename@));
    payload
}

} // verus!
