use jit_debug::dump_format::{
    build_code_load, build_debug_info, build_header, build_line_entries, timestamp, write_record,
    LineEntry, CODE_CLOSE_ID, CODE_DEBUG_INFO_ID, CODE_LOAD_ID, JITDUMP_MAGIC, JITDUMP_VERSION,
    RECORD_HEADER_SIZE,
};
use jit_debug::dump_session::{source_outcome, DumpAction, DumpSession, SourceOutcome};
use jit_debug::dump_items::check_dump_addresses;
use jit_debug::dump_opening::{CreateOutcome, DumpGenerations, DumpOpening, OpenStep};
use jit_debug::dump_writer::{build_dump_name, JitDumpWriter};
use jit_debug::jit_dump::JitDumpHook;
use jit_debug::source::SourceError;
use jit_debug::meta::{JitCodeMeta, JitHostSymbol, JitSymbol, JitSyscallSymbol, SBPFVersion};

fn u32_at(data: &[u8], at: usize) -> u32 {
    u32::from_le_bytes(data[at..at + 4].try_into().unwrap())
}

fn u64_at(data: &[u8], at: usize) -> u64 {
    u64::from_le_bytes(data[at..at + 8].try_into().unwrap())
}

fn c_str_at(data: &[u8], at: usize) -> &str {
    let len = data[at..].iter().position(|byte| *byte == 0).unwrap();
    std::str::from_utf8(&data[at..at + len]).unwrap()
}

fn read_records(data: &[u8]) -> Vec<(u32, Vec<u8>)> {
    assert_eq!(u32_at(data, 0), JITDUMP_MAGIC);
    assert_eq!(u32_at(data, 4), JITDUMP_VERSION);
    assert_eq!(u32_at(data, 8), 40);
    let mut last_timestamp = u64_at(data, 24);
    let mut data = &data[40..];
    let mut records = Vec::new();
    while !data.is_empty() {
        let size = u32_at(data, 4) as usize;
        let timestamp = u64_at(data, 8);
        assert!(timestamp >= last_timestamp);
        last_timestamp = timestamp;
        assert!(size >= RECORD_HEADER_SIZE && size % 8 == 0);
        records.push((u32_at(data, 0), data[RECORD_HEADER_SIZE..size].to_vec()));
        data = &data[size..];
    }
    records
}

fn new_writer(pid: u32, id: &str, generation: u64) -> JitDumpWriter {
    JitDumpWriter::new(pid, id, generation)
}

fn sample_meta() -> JitCodeMeta {
    JitCodeMeta {
        id: "my program".to_string(),
        code_ptr: 0x1000,
        code_len: 32,
        sbpf_version: SBPFVersion {
            disable_lddw: false,
            static_syscalls: false,
        },
        symbols: vec![
            JitSymbol {
                key: 1,
                name: "second".to_string(),
                pc: 2,
            },
            JitSymbol {
                key: 0,
                name: "first".to_string(),
                pc: 0,
            },
        ],
        syscalls: vec![JitSyscallSymbol {
            name: "entrypoint".to_string(),
        }],
        host_symbols: vec![
            JitHostSymbol {
                name: "glue".to_string(),
                host_start: 24,
                host_end: 32,
            },
            JitHostSymbol {
                name: "empty".to_string(),
                host_start: 4,
                host_end: 4,
            },
            JitHostSymbol {
                name: "outside".to_string(),
                host_start: 24,
                host_end: 33,
            },
        ],
        function_entry_offsets: Vec::new(),
    }
}

#[test]
fn header_states_magic_version_process_and_time() {
    let header = build_header(0x0102_0304, 0x1122_3344_5566_7788);
    let mut expected = vec![0x44, 0x54, 0x69, 0x4a, 1, 0, 0, 0, 40, 0, 0, 0, 62, 0, 0, 0];
    expected.extend_from_slice(&[0, 0, 0, 0, 4, 3, 2, 1]);
    expected.extend_from_slice(&[0x88, 0x77, 0x66, 0x55, 0x44, 0x33, 0x22, 0x11]);
    expected.extend_from_slice(&[0; 8]);
    assert_eq!(header, expected);
}

#[test]
fn records_are_filled_up_to_eight_bytes() {
    assert_eq!(
        write_record(3, &[], 5),
        [3, 0, 0, 0, 16, 0, 0, 0, 5, 0, 0, 0, 0, 0, 0, 0]
    );
    assert_eq!(
        write_record(2, &[7], 0x0100),
        [2, 0, 0, 0, 24, 0, 0, 0, 0, 1, 0, 0, 0, 0, 0, 0, 7, 0, 0, 0, 0, 0, 0, 0]
    );
    assert_eq!(write_record(0, &[1; 8], 0).len(), 24);
    assert_eq!(write_record(0, &[1; 9], 0).len(), 32);
}

#[test]
fn code_load_payload_holds_name_and_code() {
    let payload = build_code_load(1, 2, 0x1000, 4, "fn", &[9, 8, 7]);
    assert_eq!(payload.len(), 40 + 2 + 1 + 3);
    assert_eq!((u32_at(&payload, 0), u32_at(&payload, 4)), (1, 2));
    assert_eq!((u64_at(&payload, 8), u64_at(&payload, 16)), (0x1000, 0x1000));
    assert_eq!((u64_at(&payload, 24), u64_at(&payload, 32)), (3, 4));
    assert_eq!(c_str_at(&payload, 40), "fn");
    assert_eq!(payload[43..], [9, 8, 7]);
}

#[test]
fn lines_whose_addresses_do_not_go_up_are_left_out() {
    let pc_offsets = [0, 0x8000_0010, 0x14, 0x14, 0x12, 0x20, 0x30];
    // The first line is before the function, so it counts from its start.
    let entries = build_line_entries(0x5000, 0x10, &pc_offsets, 0, 6);
    assert_eq!(
        entries,
        [
            LineEntry { addr: 0x5000, line: 1 },
            LineEntry { addr: 0x5004, line: 3 },
            LineEntry { addr: 0x5010, line: 6 },
        ]
    );
    assert_eq!(build_line_entries(0x5000, 0x10, &pc_offsets, 3, 3), []);
    let payload = build_debug_info(0x5000, &entries, "a.s");
    assert_eq!(payload.len(), 16 + 3 * (16 + 3 + 1));
    assert_eq!((u64_at(&payload, 0), u64_at(&payload, 8)), (0x5000, 3));
    assert_eq!((u64_at(&payload, 36), u32_at(&payload, 44)), (0x5004, 3));
    assert_eq!(u32_at(&payload, 48), 0);
    assert_eq!(c_str_at(&payload, 52), "a.s");
}

#[test]
fn addresses_of_lines_wrap_around() {
    let entries = build_line_entries(u64::MAX, 0, &[0, 1], 0, 2);
    assert_eq!(
        entries,
        [LineEntry {
            addr: u64::MAX,
            line: 1
        }]
    );
}

#[test]
fn clock_readings_become_nanoseconds() {
    assert_eq!(timestamp(0, 0), 0);
    assert_eq!(timestamp(3, 500), 3_000_000_500);
    assert_eq!(timestamp(18_446_744_073, 709_551_615), u64::MAX);
    assert_eq!(timestamp(18_446_744_073, 709_551_616), u64::MAX);
    assert_eq!(timestamp(i64::MAX, 1), u64::MAX);
    assert_eq!(timestamp(-1, 0), u64::MAX);
    assert_eq!(timestamp(0, -1), u64::MAX);
}

#[test]
fn names_tell_dumps_apart() {
    assert_eq!(build_dump_name(77, "my_program", 3), "jit-77-my_program-3.dump");
    let writer = new_writer(77, "my_program", 3);
    assert_eq!(writer.dump_name(), "jit-77-my_program-3.dump");
    assert_eq!(writer.source_name(0), "jit-77-my_program-3-0.sbpf");
    assert_eq!(writer.source_name(12), "jit-77-my_program-3-12.sbpf");
    assert_ne!(build_dump_name(77, "a-1", 2), build_dump_name(77, "a", 12));
    // Different processes, whatever the ids and the generations.
    assert_ne!(build_dump_name(7, "7-a", 2), build_dump_name(77, "a", 2));
    assert_ne!(build_dump_name(1, "2-a", 2), build_dump_name(12, "a", 2));
    assert_ne!(
        new_writer(1, "1-a", 1).source_name(1),
        new_writer(11, "a", 1).source_name(1)
    );
}

#[test]
fn only_taken_names_are_tried_again() {
    let mut generations = DumpGenerations::new();
    let opening = DumpOpening::new(&mut generations, 1, "x");
    assert_eq!(opening.dump_name(), "jit-1-x-0.dump");
    // Another dump of the process comes in between.
    let other = DumpOpening::new(&mut generations, 1, "x");
    let opening = match opening.after_create(CreateOutcome::AlreadyExists, &mut generations) {
        OpenStep::Retry(opening) => opening,
        _ => panic!("no other attempt"),
    };
    assert_eq!(opening.dump_name(), "jit-1-x-2.dump");
    assert!(matches!(
        other.after_create(CreateOutcome::Failed, &mut generations),
        OpenStep::GiveUp
    ));
    let writer = match opening.after_create(CreateOutcome::Created, &mut generations) {
        OpenStep::Opened(writer) => writer,
        _ => panic!("no writer"),
    };
    assert_eq!(writer.dump_name(), "jit-1-x-2.dump");
    assert_eq!(writer.close(0).file_names, ["jit-1-x-2.dump"]);
}

#[test]
fn no_generation_is_taken_twice() {
    let mut generations = DumpGenerations::new();
    let taken: Vec<u64> = (0..5).map(|_| generations.take()).collect();
    assert_eq!(taken, [0, 1, 2, 3, 4]);
}

#[test]
fn source_paths_are_in_the_directory() {
    let writer = new_writer(7, "p", 1);
    assert_eq!(writer.source_path("/dumps", 3), "/dumps/jit-7-p-1-3.sbpf");
    assert_eq!(writer.source_path("/dumps/", 3), "/dumps/jit-7-p-1-3.sbpf");
    assert_eq!(writer.source_path("/", 0), "/jit-7-p-1-0.sbpf");
    assert_eq!(writer.source_path("", 0), "jit-7-p-1-0.sbpf");
    assert_eq!(
        writer.source_path("/größe", 0),
        std::path::Path::new("/größe").join(writer.source_name(0)).to_str().unwrap()
    );
}

#[test]
fn closing_ends_the_file_and_names_what_to_remove() {
    let mut writer = new_writer(5, "empty", 9);
    let mut file = build_header(5, 1);
    writer.header_written();
    writer.source_created(0);
    writer.source_created(1);
    let closing = writer.close(2);
    file.extend_from_slice(&closing.record.unwrap());
    assert_eq!(read_records(&file), vec![(CODE_CLOSE_ID, Vec::new())]);
    assert_eq!(
        closing.file_names,
        [
            "jit-5-empty-9.dump",
            "jit-5-empty-9-0.sbpf",
            "jit-5-empty-9-1.sbpf"
        ]
    );
}

#[test]
fn a_dump_without_a_header_is_only_removed() {
    let closing = new_writer(5, "empty", 9).close(2);
    assert!(closing.record.is_none());
    assert_eq!(closing.file_names, ["jit-5-empty-9.dump"]);
}

#[test]
fn code_loads_are_numbered() {
    let mut writer = new_writer(5, "p", 0);
    writer.header_written();
    let mut file = build_header(5, 0);
    file.extend_from_slice(&writer.write_code_load("a", 0x10, &[1], 6, 1));
    file.extend_from_slice(&writer.write_debug_info_range(0x10, 0, "s", 0, 1, &[0], 2));
    file.extend_from_slice(&writer.write_code_load("b", 0x20, &[2], 7, 3));
    let records = read_records(&file);
    let ids: Vec<_> = records.iter().map(|r| r.0).collect();
    assert_eq!(ids, [CODE_LOAD_ID, CODE_DEBUG_INFO_ID, CODE_LOAD_ID]);
    assert_eq!((u64_at(&records[0].1, 32), u64_at(&records[2].1, 32)), (0, 1));
    assert_eq!((u32_at(&records[0].1, 4), u32_at(&records[2].1, 4)), (6, 7));
}

#[test]
fn hook_follows_the_environment() {
    assert!(JitDumpHook::from_env(None).is_none());
    let hook = JitDumpHook::from_env(Some(b"/tmp/dumps".to_vec())).unwrap();
    assert_eq!(hook.dir(), b"/tmp/dumps");
}

#[test]
fn programs_without_functions_get_no_dump() {
    let hook = JitDumpHook::from_env(Some(Vec::new())).unwrap();
    let text = [0x90u8; 32];
    assert!(hook.on_code_load(&sample_meta(), &text, &[]).is_none());
    let mut unnamed = sample_meta();
    unnamed.symbols.clear();
    assert!(hook.on_code_load(&unnamed, &text, &[0, 4, 8, 12]).is_none());
}

#[test]
fn plan_lists_machine_code_and_names() {
    let hook = JitDumpHook::from_env(Some(Vec::new())).unwrap();
    let text = [0x90u8; 32];
    let plan = hook.on_code_load(&sample_meta(), &text, &[0, 4, 8, 12]).unwrap();
    assert_eq!(plan.sanitized_id, "my_program");
    let items: Vec<_> = plan
        .items
        .iter()
        .map(|i| (i.name.as_str(), i.code_addr, i.host_start, i.host_end))
        .collect();
    assert_eq!(
        items,
        [
            ("glue", 0x1018, 24, 32),
            ("first", 0x1000, 0, 8),
            ("second", 0x1008, 8, 32),
        ]
    );
    let sources: Vec<_> = plan
        .items
        .iter()
        .map(|i| i.source.map(|s| (s.index, s.pc_start, s.pc_end)))
        .collect();
    assert_eq!(sources, [None, Some((0, 0, 2)), Some((1, 2, 4))]);
    assert_eq!(
        plan.function_registry.lookup_by_key(1),
        Some((b"second".as_slice(), 2))
    );
    assert_eq!(plan.loader.lookup_by_key(0x71e3_cf81), Some((b"entrypoint".as_slice(), ())));
}

#[test]
fn session_writes_every_item_once() {
    let hook = JitDumpHook::from_env(Some(Vec::new())).unwrap();
    let text: Vec<u8> = (0..32).collect();
    let pc_offsets = [0, 4, 8, 12];
    let plan = hook.on_code_load(&sample_meta(), &text, &pc_offsets).unwrap();
    let mut writer = new_writer(5, &plan.sanitized_id, 2);
    writer.header_written();
    let mut file = build_header(5, 0);
    let dir = "/dumps".to_string();
    let mut session = DumpSession::new(plan.items, &text, &pc_offsets, dir, writer);
    let mut clock = 0;
    loop {
        clock += 1;
        match session.next(6, clock) {
            DumpAction::Write(record) => file.extend_from_slice(&record),
            DumpAction::WriteSource { name, range } => {
                assert_eq!(name, format!("jit-5-my_program-2-{}.sbpf", range.index));
                // The first source file cannot be created.
                let outcome = if range.index == 0 {
                    SourceOutcome::Failed { created: false }
                } else {
                    SourceOutcome::Written
                };
                clock += 1;
                if let Some(record) = session.source_done(outcome, clock) {
                    file.extend_from_slice(&record);
                }
            }
            DumpAction::Finished => break,
        }
    }
    assert!(matches!(session.next(6, clock), DumpAction::Finished));
    let records = read_records(&file);
    let ids: Vec<_> = records.iter().map(|r| r.0).collect();
    assert_eq!(
        ids,
        [CODE_LOAD_ID, CODE_LOAD_ID, CODE_DEBUG_INFO_ID, CODE_LOAD_ID]
    );
    let loads: Vec<_> = records
        .iter()
        .filter(|r| r.0 == CODE_LOAD_ID)
        .map(|r| (u64_at(&r.1, 8), u64_at(&r.1, 24), u64_at(&r.1, 32), c_str_at(&r.1, 40)))
        .collect();
    assert_eq!(
        loads,
        [
            (0x1018, 8, 0, "glue"),
            (0x1000, 8, 1, "first"),
            (0x1008, 24, 2, "second"),
        ]
    );
    assert_eq!(records[0].1[45..53], text[24..32]);
    let info = &records[2].1;
    assert_eq!((u64_at(info, 0), u64_at(info, 8)), (0x1008, 2));
    assert_eq!((u64_at(info, 16), u32_at(info, 24)), (0x1008, 1));
    assert_eq!(c_str_at(info, 32), "/dumps/jit-5-my_program-2-1.sbpf");

    let before = records.clone();
    let closing = session.finish().close(clock);
    file.extend_from_slice(&closing.record.unwrap());
    let mut records = read_records(&file);
    assert_eq!(records.pop(), Some((CODE_CLOSE_ID, Vec::new())));
    assert_eq!(records, before);
    assert_eq!(
        closing.file_names,
        ["jit-5-my_program-2.dump", "jit-5-my_program-2-1.sbpf"]
    );
}

#[test]
fn unfinished_sources_belong_to_the_dump() {
    let hook = JitDumpHook::from_env(Some(Vec::new())).unwrap();
    let text = [0x90u8; 32];
    let pc_offsets = [0, 4, 8, 12];
    let mut meta = sample_meta();
    meta.host_symbols.clear();
    meta.symbols.remove(0);
    let plan = hook.on_code_load(&meta, &text, &pc_offsets).unwrap();
    let mut writer = new_writer(5, "p", 0);
    writer.header_written();
    let mut session = DumpSession::new(plan.items, &text, &pc_offsets, String::new(), writer);
    assert!(matches!(session.next(1, 1), DumpAction::WriteSource { .. }));
    assert!(session
        .source_done(SourceOutcome::Failed { created: true }, 2)
        .is_none());
    assert!(matches!(session.next(1, 3), DumpAction::Write(_)));
    assert!(matches!(session.next(1, 4), DumpAction::Finished));
    assert_eq!(
        session.finish().close(5).file_names,
        ["jit-5-p-0.dump", "jit-5-p-0-0.sbpf"]
    );
}

#[test]
fn hook_keeps_one_dump() {
    let mut hook = JitDumpHook::from_env(Some(Vec::new())).unwrap();
    assert!(hook.on_code_unload(0).is_none());
    let mut first = new_writer(1, "a", 0);
    first.header_written();
    first.source_created(2);
    let mut file = build_header(1, 0);
    file.extend_from_slice(&first.write_code_load("f", 0x10, &[1], 1, 1));
    assert!(hook.code_loaded(first, 0).is_none());

    let replaced = hook.code_loaded(new_writer(1, "a", 1), 5).unwrap();
    file.extend_from_slice(&replaced.record.unwrap());
    let ids: Vec<_> = read_records(&file).iter().map(|r| r.0).collect();
    assert_eq!(ids, [CODE_LOAD_ID, CODE_CLOSE_ID]);
    assert_eq!(replaced.file_names, ["jit-1-a-0.dump", "jit-1-a-0-2.sbpf"]);

    let closed = hook.on_code_unload(6).unwrap();
    assert!(closed.record.is_none());
    assert_eq!(closed.file_names, ["jit-1-a-1.dump"]);
    assert!(hook.on_code_unload(7).is_none());
}

#[test]
fn files_that_were_there_are_neither_named_nor_removed() {
    let hook = JitDumpHook::from_env(Some(Vec::new())).unwrap();
    let text = [0x90u8; 32];
    let pc_offsets = [0, 8, 16, 24];
    let mut meta = sample_meta();
    meta.host_symbols.clear();
    meta.symbols = (0..4)
        .map(|pc| JitSymbol {
            key: pc as u32,
            name: format!("f{pc}"),
            pc,
        })
        .collect();
    let plan = hook.on_code_load(&meta, &text, &pc_offsets).unwrap();
    let mut writer = new_writer(5, "p", 1);
    writer.header_written();
    let mut file = build_header(5, 0);
    let dir = "/dumps".to_string();
    let mut session = DumpSession::new(plan.items, &text, &pc_offsets, dir, writer);
    loop {
        match session.next(1, 1) {
            DumpAction::Write(record) => file.extend_from_slice(&record),
            DumpAction::WriteSource { range, .. } => {
                // A file has the name of the first source file already.
                let created = range.index != 0;
                let outcome = source_outcome(created, created, Ok(()));
                if let Some(record) = session.source_done(outcome, 1) {
                    file.extend_from_slice(&record);
                }
            }
            DumpAction::Finished => break,
        }
    }
    let records = read_records(&file);
    let paths: Vec<_> = records
        .iter()
        .filter(|r| r.0 == CODE_DEBUG_INFO_ID)
        .map(|r| c_str_at(&r.1, 32))
        .collect();
    assert_eq!(
        paths,
        [
            "/dumps/jit-5-p-1-1.sbpf",
            "/dumps/jit-5-p-1-2.sbpf",
            "/dumps/jit-5-p-1-3.sbpf"
        ]
    );
    assert_eq!(records.iter().filter(|r| r.0 == CODE_LOAD_ID).count(), 4);
    assert_eq!(
        session.finish().close(2).file_names,
        [
            "jit-5-p-1.dump",
            "jit-5-p-1-1.sbpf",
            "jit-5-p-1-2.sbpf",
            "jit-5-p-1-3.sbpf"
        ]
    );
}

#[test]
fn only_whole_sources_are_good_for_debug_info() {
    let outcome = |created, written, whole| match source_outcome(created, written, whole) {
        SourceOutcome::Written => None,
        SourceOutcome::Failed { created } => Some(created),
    };
    assert_eq!(outcome(true, true, Ok(())), None);
    assert_eq!(outcome(true, true, Err(SourceError::TruncatedLddw)), Some(true));
    assert_eq!(outcome(true, false, Ok(())), Some(true));
    assert_eq!(outcome(false, false, Ok(())), Some(false));
}

#[test]
fn later_clock_readings_are_not_earlier() {
    let readings = [(0, 0), (0, 999_999_999), (1, 0), (5, 7), (18_446_744_074, 0), (i64::MAX, 0)];
    for pair in readings.windows(2) {
        assert!(timestamp(pair[0].0, pair[0].1) <= timestamp(pair[1].0, pair[1].1));
    }
}

#[test]
fn addresses_of_a_dump_are_tested() {
    let text = [0x90u8; 32];
    let pc_offsets = [0, 4, 8, 12];
    let mut meta = sample_meta();
    assert!(check_dump_addresses(&meta, &text, &pc_offsets));
    // The code may end at the end of the address space.
    meta.code_ptr = u64::MAX - 31;
    assert!(check_dump_addresses(&meta, &text, &pc_offsets));
    meta.code_ptr = u64::MAX - 24;
    assert!(check_dump_addresses(&meta, &text, &pc_offsets));
    meta.code_ptr = u64::MAX - 23;
    assert!(!check_dump_addresses(&meta, &text, &pc_offsets));
    meta.host_symbols.clear();
    assert!(check_dump_addresses(&meta, &text, &pc_offsets));
    meta.code_ptr = u64::MAX - 7;
    assert!(!check_dump_addresses(&meta, &text, &pc_offsets));
    // Without functions there is no dump.
    assert!(check_dump_addresses(&meta, &text, &[]));
}
