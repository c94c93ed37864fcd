use jit_debug::code_map::{align_up, find_frame_prologue, function_entry_offset};
use jit_debug::function_ranges::build_function_ranges;
use jit_debug::meta::{JitCodeMeta, JitSymbol, SBPFVersion};
use jit_debug::registry::build_function_registry;

fn v0() -> SBPFVersion {
    SBPFVersion {
        disable_lddw: false,
        static_syscalls: false,
    }
}

fn symbol(key: u32, name: &str, pc: usize) -> JitSymbol {
    JitSymbol {
        key,
        name: name.to_string(),
        pc,
    }
}

fn meta(symbols: Vec<JitSymbol>, function_entry_offsets: Vec<u32>) -> JitCodeMeta {
    JitCodeMeta {
        id: "my_program".to_string(),
        code_ptr: 0x1000,
        code_len: 24,
        sbpf_version: v0(),
        symbols,
        syscalls: Vec::new(),
        host_symbols: Vec::new(),
        function_entry_offsets,
    }
}

#[test]
fn test_entrypoint_aliases_share_one_code_range() {
    let mut text = vec![0x90u8; 24];
    for start in [0, 8, 16] {
        text[start..start + 4].copy_from_slice(&[0x55, 0x48, 0x89, 0xe5]);
    }
    let pc_offsets = [0, 4, 8, 12, 16, 20];
    let meta = JitCodeMeta {
        id: "my_program".to_string(),
        code_ptr: 0x1000,
        code_len: text.len(),
        sbpf_version: v0(),
        symbols: vec![
            JitSymbol {
                key: 0,
                name: "before".to_string(),
                pc: 0,
            },
            JitSymbol {
                key: 1,
                name: "my_program".to_string(),
                pc: 2,
            },
            JitSymbol {
                key: 2,
                name: "my_program".to_string(),
                pc: 2,
            },
            JitSymbol {
                key: 3,
                name: "after".to_string(),
                pc: 4,
            },
        ],
        syscalls: Vec::new(),
        host_symbols: Vec::new(),
        function_entry_offsets: vec![0, u32::MAX, 8, u32::MAX, 16, u32::MAX],
    };
    let ranges = build_function_ranges(&meta, &text, &pc_offsets);
    assert_eq!(
        ranges
            .iter()
            .map(|range| (
                range.name.as_str(),
                range.pc_start..range.pc_end,
                range.host_start..range.host_end,
            ))
            .collect::<Vec<_>>(),
        vec![
            ("before", 0..2, 0..8),
            ("my_program", 2..4, 8..16),
            ("after", 4..6, 16..24),
        ]
    );
    // Disassembly still needs to resolve calls through either alias key.
    let registry = build_function_registry(&meta);
    for key in [1, 2] {
        assert_eq!(
            registry.lookup_by_key(key),
            Some((b"my_program".as_slice(), 2))
        );
    }
}

#[test]
fn aliases_with_different_names_get_one_range_each() {
    let text = vec![0x90u8; 24];
    let pc_offsets = [0, 4, 8, 12, 16, 20];
    let meta = meta(
        vec![
            symbol(7, "zeta", 3),
            symbol(1, "alpha", 3),
            symbol(2, "alpha", 3),
            symbol(3, "", 1),
            symbol(4, "outside", 6),
            symbol(5, "start", 0),
        ],
        Vec::new(),
    );
    let ranges = build_function_ranges(&meta, &text, &pc_offsets);
    let found: Vec<_> = ranges
        .iter()
        .map(|r| (r.name.as_str(), r.pc_start, r.pc_end, r.host_start, r.host_end))
        .collect();
    assert_eq!(
        found,
        vec![
            ("start", 0, 3, 0, 12),
            ("alpha", 3, 6, 12, 24),
            ("zeta", 3, 6, 12, 24),
        ]
    );
}

#[test]
fn ranges_without_machine_code_are_left_out() {
    let text = vec![0x90u8; 8];
    let pc_offsets = [0, 4, 4, 64];
    let meta = meta(
        vec![symbol(0, "a", 0), symbol(1, "b", 1), symbol(2, "c", 2), symbol(3, "d", 3)],
        Vec::new(),
    );
    // b and c start at one place, c ends past the code, and d is past it.
    let ranges = build_function_ranges(&meta, &text, &pc_offsets);
    let found: Vec<_> = ranges
        .iter()
        .map(|r| (r.name.as_str(), r.host_start, r.host_end))
        .collect();
    assert_eq!(found, vec![("a", 0, 4)]);
    assert_eq!(build_function_ranges(&meta, &text, &[]).len(), 0);
}

#[test]
fn frame_prologue_is_the_last_one_in_the_window() {
    let mut text = vec![0x90u8; 80];
    for at in [0, 10, 40] {
        text[at..at + 4].copy_from_slice(&[0x55, 0x48, 0x89, 0xe5]);
    }
    assert_eq!(find_frame_prologue(&text, 0), None);
    assert_eq!(find_frame_prologue(&text, 1), Some(0));
    assert_eq!(find_frame_prologue(&text, 20), Some(10));
    assert_eq!(find_frame_prologue(&text, 40), Some(10));
    assert_eq!(find_frame_prologue(&text, 42), Some(40));
    assert_eq!(find_frame_prologue(&text, 72), Some(40));
    assert_eq!(find_frame_prologue(&text, 73), None);
    assert_eq!(find_frame_prologue(&text, 80), None);
}

#[test]
fn entry_offsets_come_from_records_then_frames_then_code() {
    let mut text = vec![0x90u8; 40];
    text[16..20].copy_from_slice(&[0x55, 0x48, 0x89, 0xe5]);
    let meta = meta(Vec::new(), vec![0x8000_0003, u32::MAX]);
    let pc_offsets = [9, 0x8000_0014, 2];
    assert_eq!(function_entry_offset(&meta, &text, &pc_offsets, 0), Some(3));
    assert_eq!(function_entry_offset(&meta, &text, &pc_offsets, 1), Some(16));
    assert_eq!(function_entry_offset(&meta, &text, &pc_offsets, 2), Some(2));
    assert_eq!(function_entry_offset(&meta, &text, &pc_offsets, 3), None);
}

#[test]
fn alignment_goes_to_the_next_multiple() {
    assert_eq!(align_up(0, 8), 0);
    assert_eq!(align_up(1, 8), 8);
    assert_eq!(align_up(8, 8), 8);
    assert_eq!(align_up(17, 16), 32);
    assert_eq!(align_up(17, 0), 17);
    assert_eq!(align_up(17, 1), 17);
}
