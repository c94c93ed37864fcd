//! What a reader finds in the files of [`crate::dump_format`].

use crate::bytes;
use crate::dump_format;
use crate::dump_format::LineEntry;
use vstd::prelude::*;
use vstd::utf8;

verus! {

/// A record of a dump.
pub struct DumpRecord {
    pub id: u32,
    pub timestamp: u64,
    pub payload: Seq<u8>,
}

/// The bytes of records, one after the other.
pub open spec fn records_bytes(records: Seq<DumpRecord>) -> Seq<u8>
    decreases records.len(),
{
    if records.len() == 0 {
        Seq::empty()
    } else {
        dump_format::record(records[0].id, records[0].payload, records[0].timestamp)
            + records_bytes(records.drop_first())
    }
}

/// The bytes of a dump file.
pub open spec fn dump_file(pid: u32, timestamp: u64, records: Seq<DumpRecord>) -> Seq<u8> {
    dump_format::dump_header(pid, timestamp) + records_bytes(records)
}

/// Whether the size of each record can be stored in 32 bits.
pub open spec fn sizes_fit(records: Seq<DumpRecord>) -> bool {
    forall|i: int|
        0 <= i < records.len() ==> dump_format::record_size(
            (#[trigger] records[i]).payload.len(),
        ) <= u32::MAX
}

/// The records in bytes, each found by the size of the one before it. What is
/// no whole record ends them.
pub open spec fn read_records(data: Seq<u8>) -> Seq<DumpRecord>
    decreases data.len(),
{
    let size = bytes::field(data, 4, 4);
    if data.len() < 16 || size < 16 || size > data.len() {
        Seq::empty()
    } else {
        let found = DumpRecord {
            id: bytes::field(data, 0, 4) as u32,
            timestamp: bytes::field(data, 8, 8) as u64,
            payload: data.subrange(16, size as int),
        };
        seq![found] + read_records(data.subrange(size as int, data.len() as int))
    }
}

/// Records with their payloads filled up.
pub open spec fn padded(records: Seq<DumpRecord>) -> Seq<DumpRecord> {
    records.map_values(
        |r: DumpRecord|
            DumpRecord {
                id: r.id,
                timestamp: r.timestamp,
                payload: dump_format::padded_payload(r.payload),
            },
    )
}

/// A record has the size that it states, which is a multiple of eight and not
/// less than that of its header, and less than eight bytes fill it up.
pub proof fn law_record_size(id: u32, payload: Seq<u8>, timestamp: u64)
    ensures
        dump_format::record(id, payload, timestamp).len() == dump_format::record_size(
            payload.len(),
        ),
        dump_format::record_size(payload.len()) % 8 == 0,
        16 + payload.len() <= dump_format::record_size(payload.len()) < 24 + payload.len(),
        dump_format::padded_payload(payload).len() == dump_format::record_size(payload.len()) - 16,
{
    bytes::lemma_le_len();
    dump_format::lemma_record_size(payload.len());
}

/// The head of a record is read back, whatever follows the record.
proof fn lemma_record_head(id: u32, payload: Seq<u8>, timestamp: u64, rest: Seq<u8>)
    requires
        dump_format::record_size(payload.len()) <= u32::MAX,
    ensures
        ({
            let data = dump_format::record(id, payload, timestamp) + rest;
            let size = dump_format::record_size(payload.len()) as int;
            &&& bytes::field(data, 0, 4) == id
            &&& bytes::field(data, 4, 4) == size
            &&& bytes::field(data, 8, 8) == timestamp
            &&& data.len() == size + rest.len()
            &&& data.subrange(16, size) == dump_format::padded_payload(payload)
            &&& data.subrange(size, data.len() as int) == rest
        }),
{
    law_record_size(id, payload, timestamp);
    bytes::lemma_le_len();
    bytes::lemma_byte_ranges();
    let data = dump_format::record(id, payload, timestamp) + rest;
    let size = dump_format::record_size(payload.len());
    assert(bytes::low32(size) == size);
    assert(data.subrange(0, 4) =~= bytes::le_bytes(id as nat, 4));
    assert(data.subrange(4, 8) =~= bytes::le_bytes(size, 4));
    assert(data.subrange(8, 16) =~= bytes::le_bytes(timestamp as nat, 8));
    assert(data.subrange(16, size as int) =~= dump_format::padded_payload(payload));
    assert(data.subrange(size as int, data.len() as int) =~= rest);
    bytes::law_le_round_trip(id as nat, 4);
    bytes::law_le_round_trip(size, 4);
    bytes::law_le_round_trip(timestamp as nat, 8);
}

/// The records that were written are the records that are read, each with its
/// payload filled up with zero bytes.
pub proof fn law_records_read_back(records: Seq<DumpRecord>)
    requires
        sizes_fit(records),
    ensures
        read_records(records_bytes(records)) == padded(records),
    decreases records.len(),
{
    if records.len() == 0 {
        assert(read_records(records_bytes(records)) =~= padded(records));
    } else {
        let first = records[0];
        let rest = records.drop_first();
        lemma_record_head(first.id, first.payload, first.timestamp, records_bytes(rest));
        law_record_size(first.id, first.payload, first.timestamp);
        law_records_read_back(rest);
        assert(padded(records) =~= seq![padded(records)[0]] + padded(rest));
    }
}

/// The header states its magic number, its version, its size, the machine, the
/// process and the time, and the records follow it.
pub proof fn law_dump_read_back(pid: u32, timestamp: u64, records: Seq<DumpRecord>)
    requires
        sizes_fit(records),
    ensures
        ({
            let file = dump_file(pid, timestamp, records);
            &&& bytes::field(file, 0, 4) == dump_format::JITDUMP_MAGIC
            &&& bytes::field(file, 4, 4) == dump_format::JITDUMP_VERSION
            &&& bytes::field(file, 8, 4) == dump_format::DUMP_HEADER_SIZE
            &&& bytes::field(file, 12, 4) == dump_format::JITDUMP_ELF_MACHINE
            &&& bytes::field(file, 20, 4) == pid
            &&& bytes::field(file, 24, 8) == timestamp
            &&& read_records(file.skip(dump_format::DUMP_HEADER_SIZE as int)) == padded(records)
        }),
{
    bytes::lemma_le_len();
    bytes::lemma_byte_ranges();
    let head = dump_format::dump_header(pid, timestamp);
    let file = dump_file(pid, timestamp, records);
    assert(head.len() == 40);
    assert(file.subrange(0, 4) =~= bytes::le_bytes(dump_format::JITDUMP_MAGIC as nat, 4));
    assert(file.subrange(4, 8) =~= bytes::le_bytes(dump_format::JITDUMP_VERSION as nat, 4));
    assert(file.subrange(8, 12) =~= bytes::le_bytes(dump_format::DUMP_HEADER_SIZE as nat, 4));
    assert(file.subrange(12, 16) =~= bytes::le_bytes(
        dump_format::JITDUMP_ELF_MACHINE as nat,
        4,
    ));
    assert(file.subrange(20, 24) =~= bytes::le_bytes(pid as nat, 4));
    assert(file.subrange(24, 32) =~= bytes::le_bytes(timestamp as nat, 8));
    bytes::law_le_round_trip(dump_format::JITDUMP_MAGIC as nat, 4);
    bytes::law_le_round_trip(dump_format::JITDUMP_VERSION as nat, 4);
    bytes::law_le_round_trip(dump_format::DUMP_HEADER_SIZE as nat, 4);
    bytes::law_le_round_trip(dump_format::JITDUMP_ELF_MACHINE as nat, 4);
    bytes::law_le_round_trip(pid as nat, 4);
    bytes::law_le_round_trip(timestamp as nat, 8);
    assert(file.skip(40) =~= records_bytes(records));
    law_records_read_back(records);
}

/// The bytes of one more record come behind those of the others.
proof fn lemma_records_bytes_push(records: Seq<DumpRecord>, last: DumpRecord)
    ensures
        records_bytes(records.push(last)) == records_bytes(records) + dump_format::record(
            last.id,
            last.payload,
            last.timestamp,
        ),
    decreases records.len(),
{
    let all = records.push(last);
    let bytes = dump_format::record(last.id, last.payload, last.timestamp);
    if records.len() == 0 {
        assert(all.drop_first() =~= Seq::<DumpRecord>::empty());
        assert(records_bytes(Seq::empty()) =~= Seq::<u8>::empty());
        assert(records_bytes(all) =~= records_bytes(records) + bytes);
    } else {
        assert(all.drop_first() =~= records.drop_first().push(last));
        lemma_records_bytes_push(records.drop_first(), last);
        assert(records_bytes(all) =~= records_bytes(records) + bytes);
    }
}

/// An empty record that is appended to a dump file is read back behind the
/// records that were there.
#[verifier::rlimit(30)]
pub proof fn lemma_close_read_back(
    pid: u32,
    header_time: u64,
    records: Seq<DumpRecord>,
    close: DumpRecord,
)
    requires
        sizes_fit(records),
        close.payload.len() == 0,
    ensures
        read_records(
            (dump_file(pid, header_time, records) + dump_format::record(
                close.id,
                close.payload,
                close.timestamp,
            )).skip(dump_format::DUMP_HEADER_SIZE as int),
        ) == padded(records).push(close),
{
    let all = records.push(close);
    let bytes = dump_format::record(close.id, close.payload, close.timestamp);
    dump_format::lemma_record_size(0);
    assert forall|i: int| 0 <= i < all.len() implies dump_format::record_size(
        (#[trigger] all[i]).payload.len(),
    ) <= u32::MAX by {
        if i < records.len() {
            assert(all[i] == records[i]);
        }
    }
    lemma_records_bytes_push(records, close);
    assert(dump_file(pid, header_time, records) + bytes =~= dump_file(pid, header_time, all));
    law_dump_read_back(pid, header_time, all);
    assert(dump_format::padded_payload(close.payload) =~= close.payload);
    assert(padded(all) =~= padded(records).push(close));
}

/// Bytes without a zero byte among them.
pub open spec fn no_zero(s: Seq<u8>) -> bool {
    forall|i: int| 0 <= i < s.len() ==> s[i] != 0
}

/// A code load record gives back the process, the thread, the address, the
/// index, the name and the machine code that it was made from.
pub proof fn law_code_load_read_back(
    pid: u32,
    tid: u32,
    code_addr: u64,
    code_index: u64,
    name: Seq<char>,
    code: Seq<u8>,
)
    requires
        no_zero(utf8::encode_utf8(name)),
        code.len() <= u64::MAX,
    ensures
        ({
            let data = dump_format::padded_payload(
                dump_format::code_load(pid, tid, code_addr, code_index, name, code),
            );
            let code_at = 40 + utf8::encode_utf8(name).len() + 1;
            &&& bytes::field(data, 0, 4) == pid
            &&& bytes::field(data, 4, 4) == tid
            &&& bytes::field(data, 8, 8) == code_addr
            &&& bytes::field(data, 16, 8) == code_addr
            &&& bytes::field(data, 24, 8) == code.len()
            &&& bytes::field(data, 32, 8) == code_index
            &&& bytes::c_string(data, 40) == utf8::encode_utf8(name)
            &&& data.subrange(code_at as int, (code_at + code.len()) as int) == code
        }),
{
    bytes::lemma_le_len();
    bytes::lemma_byte_ranges();
    let load = dump_format::code_load(pid, tid, code_addr, code_index, name, code);
    let data = dump_format::padded_payload(load);
    let name_bytes = utf8::encode_utf8(name);
    let code_at = (40 + name_bytes.len() + 1) as int;
    dump_format::lemma_record_size(load.len());
    assert(data.subrange(0, 4) =~= bytes::le_bytes(pid as nat, 4));
    assert(data.subrange(4, 8) =~= bytes::le_bytes(tid as nat, 4));
    assert(data.subrange(8, 16) =~= bytes::le_bytes(code_addr as nat, 8));
    assert(data.subrange(16, 24) =~= bytes::le_bytes(code_addr as nat, 8));
    assert(data.subrange(24, 32) =~= bytes::le_bytes(code.len(), 8));
    assert(data.subrange(32, 40) =~= bytes::le_bytes(code_index as nat, 8));
    assert(data.subrange(40, code_at - 1) =~= name_bytes);
    assert(data[code_at - 1] == 0);
    assert(data.subrange(code_at, (code_at + code.len()) as int) =~= code);
    bytes::law_le_round_trip(pid as nat, 4);
    bytes::law_le_round_trip(tid as nat, 4);
    bytes::law_le_round_trip(code_addr as nat, 8);
    bytes::law_le_round_trip(code.len(), 8);
    bytes::law_le_round_trip(code_index as nat, 8);
    bytes::lemma_c_string_at(data, 40, name_bytes);
}

/// How many bytes a line takes.
pub open spec fn line_size(filename: Seq<char>) -> int {
    (17 + utf8::encode_utf8(filename).len()) as int
}

/// Where the lines stand.
proof fn lemma_lines_part(entries: Seq<LineEntry>, filename: Seq<char>, i: int)
    requires
        0 <= i < entries.len(),
    ensures
        ({
            let lines = dump_format::lines_bytes(entries, filename);
            let size = line_size(filename);
            &&& lines.len() == entries.len() * size
            &&& 0 <= i * size
            &&& (i + 1) * size <= lines.len()
            &&& lines.subrange(i * size, (i + 1) * size) == dump_format::line_bytes(
                entries[i],
                filename,
            )
        }),
    decreases entries.len(),
{
    bytes::lemma_le_len();
    let size = line_size(filename);
    let before = entries.drop_last();
    let shorter = dump_format::lines_bytes(before, filename);
    let lines = dump_format::lines_bytes(entries, filename);
    let count = before.len() as int;
    if count > 0 {
        lemma_lines_part(before, filename, 0);
    } else {
        assert(count * size == 0) by (nonlinear_arith)
            requires
                count == 0,
        ;
    }
    assert((count + 1) * size == count * size + size) by (nonlinear_arith);
    assert((i + 1) * size == i * size + size) by (nonlinear_arith);
    assert(0 <= i * size) by (nonlinear_arith)
        requires
            0 <= i,
            0 <= size,
    ;
    if i == count {
        assert(lines.subrange(i * size, (i + 1) * size) =~= dump_format::line_bytes(
            entries[i],
            filename,
        ));
    } else {
        lemma_lines_part(before, filename, i);
        assert(lines.subrange(i * size, (i + 1) * size) =~= shorter.subrange(
            i * size,
            (i + 1) * size,
        ));
    }
}

/// A debug info record gives back the address and the number of its lines, and
/// of each line its address, its number and the file that it is in.
pub proof fn law_debug_info_read_back(
    code_addr: u64,
    entries: Seq<LineEntry>,
    filename: Seq<char>,
    i: int,
)
    requires
        no_zero(utf8::encode_utf8(filename)),
        0 <= i < entries.len() <= u64::MAX,
    ensures
        ({
            let data = dump_format::padded_payload(
                dump_format::debug_info(code_addr, entries, filename),
            );
            let at = 16 + i * line_size(filename);
            &&& bytes::field(data, 0, 8) == code_addr
            &&& bytes::field(data, 8, 8) == entries.len()
            &&& bytes::field(data, at, 8) == entries[i].addr
            &&& bytes::field(data, at + 8, 4) == entries[i].line
            &&& bytes::c_string(data, at + 16) == utf8::encode_utf8(filename)
        }),
{
    bytes::lemma_le_len();
    bytes::lemma_byte_ranges();
    lemma_lines_part(entries, filename, i);
    let info = dump_format::debug_info(code_addr, entries, filename);
    let data = dump_format::padded_payload(info);
    let size = line_size(filename);
    let name = utf8::encode_utf8(filename);
    let lines = dump_format::lines_bytes(entries, filename);
    let line = dump_format::line_bytes(entries[i], filename);
    let at = 16 + i * size;
    assert((i + 1) * size == i * size + size) by (nonlinear_arith);
    assert(line =~= lines.subrange(i * size, (i + 1) * size));
    assert(line.len() == size);
    assert(data.subrange(at, at + size) =~= line);
    assert(data.subrange(0, 8) =~= bytes::le_bytes(code_addr as nat, 8));
    assert(data.subrange(8, 16) =~= bytes::le_bytes(entries.len(), 8));
    bytes::law_le_round_trip(code_addr as nat, 8);
    bytes::law_le_round_trip(entries.len(), 8);
    assert(line.subrange(0, 8) =~= bytes::le_bytes(entries[i].addr as nat, 8));
    assert(line.subrange(8, 12) =~= bytes::le_bytes(entries[i].line as nat, 4));
    bytes::lemma_field_of_part(data, at, at + size, 0, 8);
    bytes::lemma_field_of_part(data, at, at + size, 8, 4);
    bytes::law_le_round_trip(entries[i].addr as nat, 8);
    bytes::law_le_round_trip(entries[i].line as nat, 4);
    assert(line.subrange(16, size - 1) =~= name);
    assert(line[size - 1] == 0);
    assert(data.subrange(at + 16, at + size - 1) =~= data.subrange(at, at + size).subrange(
        16,
        size - 1,
    ));
    assert(data[at + size - 1] == data.subrange(at, at + size)[size - 1]);
    bytes::lemma_c_string_at(data, at + 16, name);
}

/// The lines of a function go up, both in their addresses and in their
/// numbers, and each has the address of the program counter that it is for.
/// The line of the first program counter is always there.
pub proof fn law_lines_go_up(
    code_addr: u64,
    function_host_start: u64,
    pc_offsets: Seq<u32>,
    pc_start: int,
    pc_end: int,
)
    requires
        pc_end - pc_start <= u32::MAX,
    ensures
        ({
            let entries = dump_format::line_entries(
                code_addr,
                function_host_start,
                pc_offsets,
                pc_start,
                pc_end,
            );
            &&& pc_start < pc_end ==> entries.len() > 0 && entries[0].line == 1
            &&& forall|i: int|
                0 <= i < entries.len() ==> {
                    &&& 1 <= (#[trigger] entries[i]).line <= pc_end - pc_start
                    &&& entries[i].addr == dump_format::line_address(
                        code_addr,
                        function_host_start,
                        pc_offsets[pc_start + entries[i].line - 1],
                    )
                }
            &&& forall|i: int, j: int|
                0 <= i < j < entries.len() ==> (#[trigger] entries[i]).addr < (
                #[trigger] entries[j]).addr && entries[i].line < entries[j].line
        }),
    decreases pc_end - pc_start,
{
    if pc_start < pc_end {
        law_lines_go_up(code_addr, function_host_start, pc_offsets, pc_start, pc_end - 1);
        let before = dump_format::line_entries(
            code_addr,
            function_host_start,
            pc_offsets,
            pc_start,
            pc_end - 1,
        );
        let entries = dump_format::line_entries(
            code_addr,
            function_host_start,
            pc_offsets,
            pc_start,
            pc_end,
        );
        let line = (pc_end - pc_start) as nat;
        assert(bytes::low32(line) == line);
        assert(before.len() > 0 ==> before.last() == before[before.len() - 1]);
        assert(entries.len() > before.len() ==> forall|i: int|
            0 <= i < before.len() ==> entries[i] == before[i]);
    }
}

/// No line is left out without reason. `addresses` holds the address of the
/// machine code of each program counter, counted from the start of the
/// function. A program counter whose address is above those of all before it
/// in the function has a line with that address and with its number in the
/// function, counted from one.
pub proof fn law_no_line_is_left_out(
    code_addr: u64,
    function_host_start: u64,
    pc_offsets: Seq<u32>,
    pc_start: int,
    pc_end: int,
    addresses: Seq<u64>,
    pc: int,
)
    requires
        0 <= pc_start,
        pc_end <= pc_offsets.len(),
        pc_end - pc_start < 0x1_0000_0000,
        addresses.len() == pc_offsets.len(),
        forall|i: int|
            0 <= i < pc_offsets.len() ==> #[trigger] addresses[i] == (code_addr + if (pc_offsets[i]
                & 0x7fff_ffff) < function_host_start {
                0
            } else {
                (pc_offsets[i] & 0x7fff_ffff) - function_host_start
            }) % 0x1_0000_0000_0000_0000,
        pc_start <= pc < pc_end,
        forall|before: int| pc_start <= before < pc ==> #[trigger] addresses[before] < addresses[pc],
    ensures
        dump_format::line_entries(
            code_addr,
            function_host_start,
            pc_offsets,
            pc_start,
            pc_end,
        ).contains((LineEntry { addr: addresses[pc], line: (pc - pc_start + 1) as u32 })),
{
    lemma_line_addresses(code_addr, function_host_start, pc_offsets, addresses);
    lemma_higher_line_is_kept(code_addr, function_host_start, pc_offsets, pc_start, pc_end, pc);
}

/// Where the addresses of the machine code go up from each program counter to
/// the next, every program counter has its line, in their order.
pub proof fn law_rising_lines_are_all_there(
    code_addr: u64,
    function_host_start: u64,
    pc_offsets: Seq<u32>,
    pc_start: int,
    pc_end: int,
    addresses: Seq<u64>,
)
    requires
        0 <= pc_start,
        pc_end <= pc_offsets.len(),
        pc_end - pc_start < 0x1_0000_0000,
        addresses.len() == pc_offsets.len(),
        forall|i: int|
            0 <= i < pc_offsets.len() ==> #[trigger] addresses[i] == (code_addr + if (pc_offsets[i]
                & 0x7fff_ffff) < function_host_start {
                0
            } else {
                (pc_offsets[i] & 0x7fff_ffff) - function_host_start
            }) % 0x1_0000_0000_0000_0000,
        pc_start <= pc_end,
        forall|a: int, b: int|
            pc_start <= a < b < pc_end ==> #[trigger] addresses[a] < #[trigger] addresses[b],
    ensures
        dump_format::line_entries(
            code_addr,
            function_host_start,
            pc_offsets,
            pc_start,
            pc_end,
        ) == Seq::new(
            (pc_end - pc_start) as nat,
            |i: int| LineEntry { addr: addresses[pc_start + i], line: (i + 1) as u32 },
        ),
    decreases pc_end - pc_start,
{
    let expected = Seq::new(
        (pc_end - pc_start) as nat,
        |i: int| LineEntry { addr: addresses[pc_start + i], line: (i + 1) as u32 },
    );
    if pc_start < pc_end {
        let last = pc_end - 1;
        law_rising_lines_are_all_there(
            code_addr,
            function_host_start,
            pc_offsets,
            pc_start,
            last,
            addresses,
        );
        let line = (pc_end - pc_start) as nat;
        assert(bytes::low32(line) == line);
        lemma_line_addresses(code_addr, function_host_start, pc_offsets, addresses);
        assert(dump_format::line_entries(
            code_addr,
            function_host_start,
            pc_offsets,
            pc_start,
            pc_end,
        ) =~= expected);
    } else {
        assert(dump_format::line_entries(
            code_addr,
            function_host_start,
            pc_offsets,
            pc_start,
            pc_end,
        ) =~= expected);
    }
}

/// Every line is that of a program counter of the function: it has its number
/// in the function and its address.
pub proof fn law_lines_are_those_of_counters(
    code_addr: u64,
    function_host_start: u64,
    pc_offsets: Seq<u32>,
    pc_start: int,
    pc_end: int,
    addresses: Seq<u64>,
    i: int,
)
    requires
        0 <= pc_start,
        pc_end <= pc_offsets.len(),
        pc_end - pc_start < 0x1_0000_0000,
        addresses.len() == pc_offsets.len(),
        forall|i: int|
            0 <= i < pc_offsets.len() ==> #[trigger] addresses[i] == (code_addr + if (pc_offsets[i]
                & 0x7fff_ffff) < function_host_start {
                0
            } else {
                (pc_offsets[i] & 0x7fff_ffff) - function_host_start
            }) % 0x1_0000_0000_0000_0000,
        0 <= i < dump_format::line_entries(
            code_addr,
            function_host_start,
            pc_offsets,
            pc_start,
            pc_end,
        ).len(),
    ensures
        ({
            let entry = dump_format::line_entries(
                code_addr,
                function_host_start,
                pc_offsets,
                pc_start,
                pc_end,
            )[i];
            &&& 1 <= entry.line <= pc_end - pc_start
            &&& entry.addr == addresses[pc_start + entry.line - 1]
        }),
{
    lemma_line_addresses(code_addr, function_host_start, pc_offsets, addresses);
    law_lines_go_up(code_addr, function_host_start, pc_offsets, pc_start, pc_end);
    let entry = dump_format::line_entries(
            code_addr,
            function_host_start,
            pc_offsets,
            pc_start,
            pc_end,
        )[i];
    assert(entry.addr == addresses[pc_start + entry.line - 1]);
}

/// The addresses of the lines.
proof fn lemma_line_addresses(
    code_addr: u64,
    function_host_start: u64,
    pc_offsets: Seq<u32>,
    addresses: Seq<u64>,
)
    requires
        addresses.len() == pc_offsets.len(),
        forall|i: int|
            0 <= i < pc_offsets.len() ==> #[trigger] addresses[i] == (code_addr + if (pc_offsets[i]
                & 0x7fff_ffff) < function_host_start {
                0
            } else {
                (pc_offsets[i] & 0x7fff_ffff) - function_host_start
            }) % 0x1_0000_0000_0000_0000,
    ensures
        forall|i: int|
            #![trigger addresses[i]]
            #![trigger pc_offsets[i]]
            0 <= i < pc_offsets.len() ==> addresses[i] == dump_format::line_address(
                code_addr,
                function_host_start,
                pc_offsets[i],
            ),
{
    assert forall|i: int|
        #![trigger addresses[i]]
        #![trigger pc_offsets[i]]
        0 <= i < pc_offsets.len() implies addresses[i] == dump_format::line_address(
        code_addr,
        function_host_start,
        pc_offsets[i],
    ) by {
        dump_format::law_line_address_is_the_distance(
            code_addr,
            function_host_start,
            pc_offsets[i],
        );
    }
}

/// The line of a program counter is kept where its address is above those of
/// all before it.
proof fn lemma_higher_line_is_kept(
    code_addr: u64,
    function_host_start: u64,
    pc_offsets: Seq<u32>,
    pc_start: int,
    pc_end: int,
    pc: int,
)
    requires
        pc_start <= pc < pc_end,
        pc_end - pc_start <= u32::MAX,
        forall|before: int|
            pc_start <= before < pc ==> dump_format::line_address(
                code_addr,
                function_host_start,
                #[trigger] pc_offsets[before],
            ) < dump_format::line_address(code_addr, function_host_start, pc_offsets[pc]),
    ensures
        dump_format::line_entries(
            code_addr,
            function_host_start,
            pc_offsets,
            pc_start,
            pc_end,
        ).contains(
            (LineEntry {
                addr: dump_format::line_address(code_addr, function_host_start, pc_offsets[pc]),
                line: (pc - pc_start + 1) as u32,
            }),
        ),
    decreases pc_end - pc_start,
{
    let last = pc_end - 1;
    let before = dump_format::line_entries(
        code_addr,
        function_host_start,
        pc_offsets,
        pc_start,
        last,
    );
    let entries = dump_format::line_entries(
        code_addr,
        function_host_start,
        pc_offsets,
        pc_start,
        pc_end,
    );
    let entry = LineEntry {
        addr: dump_format::line_address(code_addr, function_host_start, pc_offsets[pc]),
        line: (pc - pc_start + 1) as u32,
    };
    if pc == last {
        law_lines_go_up(code_addr, function_host_start, pc_offsets, pc_start, last);
        if before.len() > 0 {
            let kept = before[before.len() - 1];
            assert(pc_offsets[pc_start + kept.line - 1] == pc_offsets[pc_start + kept.line - 1]);
        }
        let line = (pc_end - pc_start) as nat;
        assert(bytes::low32(line) == line);
        assert(entries == before.push(entry));
        assert(entries[before.len() as int] == entry);
    } else {
        lemma_higher_line_is_kept(code_addr, function_host_start, pc_offsets, pc_start, last, pc);
        let i = before.index_of(entry);
        assert(entries[i] == entry);
    }
}

/// A payload stands at the start of what it is filled up to, and zero bytes
/// behind it, less than eight of them and as many as end the record at a
/// multiple of eight.
pub proof fn law_payload_is_filled_with_zeros(payload: Seq<u8>)
    ensures
        ({
            let filled = dump_format::padded_payload(payload);
            &&& payload.len() <= filled.len() < payload.len() + 8
            &&& filled.len() % 8 == 0
            &&& filled.take(payload.len() as int) == payload
            &&& forall|i: int| payload.len() <= i < filled.len() ==> #[trigger] filled[i] == 0
        }),
{
    dump_format::lemma_record_size(payload.len());
    assert(dump_format::padded_payload(payload).take(payload.len() as int) =~= payload);
}

/// A dump starts with a header of forty bytes: the magic number, version one,
/// the size of the header, the number of the x86-64 architecture, the process,
/// the time, and zeros elsewhere.
pub proof fn law_dump_header_numbers(pid: u32, timestamp: u64)
    ensures
        ({
            let header = dump_format::dump_header(pid, timestamp);
            &&& header.len() == 40
            &&& bytes::field(header, 0, 4) == 0x4a69_5444
            &&& bytes::field(header, 4, 4) == 1
            &&& bytes::field(header, 8, 4) == 40
            &&& bytes::field(header, 12, 4) == 62
            &&& bytes::field(header, 16, 4) == 0
            &&& bytes::field(header, 20, 4) == pid
            &&& bytes::field(header, 24, 8) == timestamp
            &&& bytes::field(header, 32, 8) == 0
        }),
{
    let file = dump_file(pid, timestamp, Seq::empty());
    let header = dump_format::dump_header(pid, timestamp);
    bytes::lemma_le_len();
    bytes::lemma_byte_ranges();
    assert(file =~= header);
    law_dump_read_back(pid, timestamp, Seq::empty());
    assert(header.subrange(16, 20) =~= bytes::le_bytes(0, 4));
    assert(header.subrange(32, 40) =~= bytes::le_bytes(0, 8));
    bytes::law_le_round_trip(0, 4);
    bytes::law_le_round_trip(0, 8);
}

/// A record has a header of sixteen bytes, which states its number, its size
/// and its time; the payload follows, filled up.
pub proof fn law_record_read_back(id: u32, payload: Seq<u8>, timestamp: u64)
    requires
        payload.len() + 24 <= 0x1_0000_0000,
    ensures
        ({
            let record = dump_format::record(id, payload, timestamp);
            &&& bytes::field(record, 0, 4) == id
            &&& bytes::field(record, 4, 4) == record.len()
            &&& bytes::field(record, 8, 8) == timestamp
            &&& record.len() % 8 == 0
            &&& 16 + payload.len() <= record.len() < 24 + payload.len()
            &&& record.subrange(16, (16 + payload.len()) as int) == payload
            &&& forall|i: int| 16 + payload.len() <= i < record.len() ==> #[trigger] record[i] == 0
        }),
{
    let record = dump_format::record(id, payload, timestamp);
    law_record_size(id, payload, timestamp);
    lemma_record_head(id, payload, timestamp, Seq::empty());
    assert(record + Seq::<u8>::empty() =~= record);
    bytes::lemma_le_len();
    assert(record.subrange(16, (16 + payload.len()) as int) =~= payload);
}

/// The payloads have no more bytes than what is read back of them, and the
/// column of each line is zero.
pub proof fn law_payload_sizes(
    pid: u32,
    tid: u32,
    code_addr: u64,
    code_index: u64,
    name: Seq<char>,
    code: Seq<u8>,
    entries: Seq<LineEntry>,
)
    ensures
        dump_format::code_load(pid, tid, code_addr, code_index, name, code).len() == 41
            + utf8::encode_utf8(name).len() + code.len(),
        dump_format::debug_info(code_addr, entries, name).len() == 16 + entries.len() * (17
            + utf8::encode_utf8(name).len()),
        forall|i: int|
            0 <= i < entries.len() ==> bytes::field(
                dump_format::debug_info(code_addr, entries, name),
                16 + #[trigger] (i * (17 + utf8::encode_utf8(name).len())) + 12,
                4,
            ) == 0,
{
    bytes::lemma_le_len();
    bytes::lemma_byte_ranges();
    bytes::law_le_round_trip(0, 4);
    let size = line_size(name);
    let info = dump_format::debug_info(code_addr, entries, name);
    let lines = dump_format::lines_bytes(entries, name);
    if entries.len() > 0 {
        lemma_lines_part(entries, name, 0);
    } else {
        assert(0 * size == 0);
    }
    assert forall|i: int| 0 <= i < entries.len() implies bytes::field(
        info,
        16 + #[trigger] (i * size) + 12,
        4,
    ) == 0 by {
        lemma_lines_part(entries, name, i);
        let line = dump_format::line_bytes(entries[i], name);
        let at = 16 + i * size;
        assert((i + 1) * size == i * size + size) by (nonlinear_arith);
        assert(info.subrange(at, at + size) =~= lines.subrange(i * size, (i + 1) * size));
        assert(line.subrange(12, 16) =~= bytes::le_bytes(0, 4));
        bytes::lemma_field_of_part(info, at, at + size, 12, 4);
    }
}

/// Of the lines that are collected none is left out without reason, where
/// `addresses` holds the address of the machine code of each program counter:
/// one that is above all before it in the function has its line, every line is
/// that of a program counter, and where the addresses go up there are as many
/// lines as program counters.
pub proof fn law_collected_lines_are_complete(
    code_addr: u64,
    function_host_start: u64,
    pc_offsets: &[u32],
    pc_start: usize,
    pc_end: usize,
    entries: Vec<LineEntry>,
    addresses: Seq<u64>,
)
    requires
        call_ensures(
            dump_format::build_line_entries,
            (code_addr, function_host_start, pc_offsets, pc_start, pc_end),
            entries,
        ),
        pc_start <= pc_end <= pc_offsets@.len(),
        pc_end - pc_start < 0x1_0000_0000,
        addresses.len() == pc_offsets@.len(),
        forall|i: int|
            0 <= i < pc_offsets@.len() ==> #[trigger] addresses[i] == (code_addr + if (
            pc_offsets@[i] & 0x7fff_ffff) < function_host_start {
                0
            } else {
                (pc_offsets@[i] & 0x7fff_ffff) - function_host_start
            }) % 0x1_0000_0000_0000_0000,
    ensures
        forall|pc: int|
            pc_start <= pc < pc_end && is_above_all(addresses, pc_start as int, pc)
                ==> entries@.contains(
                (LineEntry { addr: #[trigger] addresses[pc], line: (pc - pc_start + 1) as u32 }),
            ),
        forall|i: int|
            0 <= i < entries@.len() ==> 1 <= (#[trigger] entries@[i]).line <= pc_end - pc_start
                && entries@[i].addr == addresses[pc_start + entries@[i].line - 1],
        (forall|a: int, b: int|
            pc_start <= a < b < pc_end ==> #[trigger] addresses[a] < #[trigger] addresses[b])
            ==> entries@.len() == pc_end - pc_start,
{
    assert forall|pc: int|
        pc_start <= pc < pc_end && is_above_all(
            addresses,
            pc_start as int,
            pc,
        ) implies entries@.contains(
        (LineEntry { addr: #[trigger] addresses[pc], line: (pc - pc_start + 1) as u32 }),
    ) by {
        law_no_line_is_left_out(
            code_addr,
            function_host_start,
            pc_offsets@,
            pc_start as int,
            pc_end as int,
            addresses,
            pc,
        );
    }
    assert forall|i: int| 0 <= i < entries@.len() implies 1 <= (#[trigger] entries@[i]).line
        <= pc_end - pc_start && entries@[i].addr == addresses[pc_start + entries@[i].line
        - 1] by {
        law_lines_are_those_of_counters(
            code_addr,
            function_host_start,
            pc_offsets@,
            pc_start as int,
            pc_end as int,
            addresses,
            i,
        );
    }
    if forall|a: int, b: int|
        pc_start <= a < b < pc_end ==> #[trigger] addresses[a] < #[trigger] addresses[b] {
        law_rising_lines_are_all_there(
            code_addr,
            function_host_start,
            pc_offsets@,
            pc_start as int,
            pc_end as int,
            addresses,
        );
    }
}

/// Whether the address at `pc` is above all from `start` on before it.
pub open spec fn is_above_all(addresses: Seq<u64>, start: int, pc: int) -> bool {
    forall|before: int| start <= before < pc ==> #[trigger] addresses[before] < addresses[pc]
}

/// The header that is built for a dump states its magic number, its version,
/// its size, the machine, the process and the time.
pub proof fn law_built_header_is_read_back(pid: u32, timestamp: u64, header: Vec<u8>)
    requires
        call_ensures(dump_format::build_header, (pid, timestamp), header),
    ensures
        header@.len() == 40,
        bytes::field(header@, 0, 4) == 0x4a69_5444,
        bytes::field(header@, 4, 4) == 1,
        bytes::field(header@, 8, 4) == 40,
        bytes::field(header@, 12, 4) == 62,
        bytes::field(header@, 20, 4) == pid,
        bytes::field(header@, 24, 8) == timestamp,
{
    law_dump_header_numbers(pid, timestamp);
}

/// A record that is built states its number, its size and its time, and holds
/// its payload, filled up with zero bytes to a multiple of eight.
pub proof fn law_built_record_is_read_back(
    id: u32,
    payload: &[u8],
    timestamp: u64,
    record: Vec<u8>,
)
    requires
        call_ensures(dump_format::write_record, (id, payload, timestamp), record),
        payload@.len() + 24 <= 0x1_0000_0000,
    ensures
        bytes::field(record@, 0, 4) == id,
        bytes::field(record@, 4, 4) == record@.len(),
        bytes::field(record@, 8, 8) == timestamp,
        record@.len() % 8 == 0,
        record@.len() < 24 + payload@.len(),
        record@.subrange(16, (16 + payload@.len()) as int) == payload@,
{
    law_record_read_back(id, payload@, timestamp);
}

/// The payload of a code load that is built gives back what it was built from.
pub proof fn law_built_code_load_is_read_back(
    pid: u32,
    tid: u32,
    code_addr: u64,
    code_index: u64,
    name: &str,
    code: &[u8],
    payload: Vec<u8>,
)
    requires
        call_ensures(
            dump_format::build_code_load,
            (pid, tid, code_addr, code_index, name, code),
            payload,
        ),
        code@.len() <= u64::MAX,
    ensures
        ({
            let end = 40 + utf8::encode_utf8(name@).len() as int;
            &&& payload@.len() == end + 1 + code@.len()
            &&& bytes::field(payload@, 0, 4) == pid
            &&& bytes::field(payload@, 4, 4) == tid
            &&& bytes::field(payload@, 8, 8) == code_addr
            &&& bytes::field(payload@, 16, 8) == code_addr
            &&& bytes::field(payload@, 24, 8) == code@.len()
            &&& bytes::field(payload@, 32, 8) == code_index
            &&& payload@.subrange(40, end) == utf8::encode_utf8(name@)
            &&& payload@[end] == 0
            &&& payload@.skip(end + 1) == code@
        }),
{
    law_code_load_holds_every_byte(pid, tid, code_addr, code_index, name@, code@);
    law_payload_sizes(pid, tid, code_addr, code_index, name@, code@, Seq::empty());
}

/// A reading of the clock is turned into nanoseconds.
pub proof fn law_clock_is_read_in_nanoseconds(tv_sec: i64, tv_nsec: i64, nanos: u64)
    requires
        call_ensures(dump_format::timestamp, (tv_sec, tv_nsec), nanos),
        0 <= tv_sec,
        0 <= tv_nsec,
    ensures
        tv_sec * 1_000_000_000 + tv_nsec < 0x1_0000_0000_0000_0000 ==> nanos == tv_sec
            * 1_000_000_000 + tv_nsec,
        tv_sec * 1_000_000_000 + tv_nsec >= 0x1_0000_0000_0000_0000 ==> nanos
            == 0xffff_ffff_ffff_ffff,
{
    dump_format::law_time_is_in_nanoseconds(tv_sec, tv_nsec);
}

/// A payload of machine code holds its numbers, then every byte of the name and
/// a zero byte, then every byte of the code, whatever the name holds.
pub proof fn law_code_load_holds_every_byte(
    pid: u32,
    tid: u32,
    code_addr: u64,
    code_index: u64,
    name: Seq<char>,
    code: Seq<u8>,
)
    requires
        code.len() <= u64::MAX,
    ensures
        ({
            let load = dump_format::code_load(pid, tid, code_addr, code_index, name, code);
            let end = 40 + utf8::encode_utf8(name).len() as int;
            &&& bytes::field(load, 0, 4) == pid
            &&& bytes::field(load, 4, 4) == tid
            &&& bytes::field(load, 8, 8) == code_addr
            &&& bytes::field(load, 16, 8) == code_addr
            &&& bytes::field(load, 24, 8) == code.len()
            &&& bytes::field(load, 32, 8) == code_index
            &&& load.subrange(40, end) == utf8::encode_utf8(name)
            &&& load[end] == 0
            &&& load.skip(end + 1) == code
        }),
{
    bytes::lemma_le_len();
    bytes::lemma_byte_ranges();
    let load = dump_format::code_load(pid, tid, code_addr, code_index, name, code);
    let name_bytes = utf8::encode_utf8(name);
    let end = 40 + name_bytes.len() as int;
    assert(load.subrange(0, 4) =~= bytes::le_bytes(pid as nat, 4));
    assert(load.subrange(4, 8) =~= bytes::le_bytes(tid as nat, 4));
    assert(load.subrange(8, 16) =~= bytes::le_bytes(code_addr as nat, 8));
    assert(load.subrange(16, 24) =~= bytes::le_bytes(code_addr as nat, 8));
    assert(load.subrange(24, 32) =~= bytes::le_bytes(code.len(), 8));
    assert(load.subrange(32, 40) =~= bytes::le_bytes(code_index as nat, 8));
    assert(load.subrange(40, end) =~= name_bytes);
    assert(load.skip(end + 1) =~= code);
    bytes::law_le_round_trip(pid as nat, 4);
    bytes::law_le_round_trip(tid as nat, 4);
    bytes::law_le_round_trip(code_addr as nat, 8);
    bytes::law_le_round_trip(code.len(), 8);
    bytes::law_le_round_trip(code_index as nat, 8);
}

/// A payload of lines holds, for each line, its address, its number, four zero
/// bytes, and every byte of the path of the file and a zero byte, whatever the
/// path holds; nothing follows the last line.
pub proof fn law_built_lines_hold_every_byte(
    code_addr: u64,
    entries: &Vec<LineEntry>,
    filename: &str,
    payload: Vec<u8>,
    i: int,
)
    requires
        call_ensures(dump_format::build_debug_info, (code_addr, entries, filename), payload),
        0 <= i < entries@.len() <= u64::MAX,
    ensures
        ({
            let size = 17 + utf8::encode_utf8(filename@).len() as int;
            let at = 16 + i * size;
            &&& payload@.len() == 16 + entries@.len() * size
            &&& bytes::field(payload@, 0, 8) == code_addr
            &&& bytes::field(payload@, 8, 8) == entries@.len()
            &&& bytes::field(payload@, at, 8) == entries@[i].addr
            &&& bytes::field(payload@, at + 8, 4) == entries@[i].line
            &&& payload@.subrange(at + 16, at + size - 1) == utf8::encode_utf8(filename@)
            &&& payload@[at + size - 1] == 0
        }),
{
    bytes::lemma_le_len();
    bytes::lemma_byte_ranges();
    lemma_lines_part(entries@, filename@, i);
    let data = payload@;
    let size = line_size(filename@);
    let name = utf8::encode_utf8(filename@);
    let lines = dump_format::lines_bytes(entries@, filename@);
    let line = dump_format::line_bytes(entries@[i], filename@);
    let at = 16 + i * size;
    assert((i + 1) * size == i * size + size) by (nonlinear_arith);
    assert(line =~= lines.subrange(i * size, (i + 1) * size));
    assert(line.len() == size);
    assert(data.subrange(at, at + size) =~= line);
    assert(data.subrange(0, 8) =~= bytes::le_bytes(code_addr as nat, 8));
    assert(data.subrange(8, 16) =~= bytes::le_bytes(entries@.len(), 8));
    bytes::law_le_round_trip(code_addr as nat, 8);
    bytes::law_le_round_trip(entries@.len(), 8);
    assert(line.subrange(0, 8) =~= bytes::le_bytes(entries@[i].addr as nat, 8));
    assert(line.subrange(8, 12) =~= bytes::le_bytes(entries@[i].line as nat, 4));
    bytes::lemma_field_of_part(data, at, at + size, 0, 8);
    bytes::lemma_field_of_part(data, at, at + size, 8, 4);
    bytes::law_le_round_trip(entries@[i].addr as nat, 8);
    bytes::law_le_round_trip(entries@[i].line as nat, 4);
    assert(line.subrange(16, size - 1) =~= name);
    assert(data.subrange(at + 16, at + size - 1) =~= data.subrange(at, at + size).subrange(
        16,
        size - 1,
    ));
    assert(data[at + size - 1] == data.subrange(at, at + size)[size - 1]);
}

} // verus!
