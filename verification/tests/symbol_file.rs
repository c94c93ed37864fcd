use jit_debug::debug_line::{build_debug_line, check_addresses};
use jit_debug::elf_image::build_elf;
use jit_debug::leb128::{write_sleb128, write_uleb128};
use jit_debug::meta::{JitCodeMeta, JitHostSymbol, JitSymbol, SBPFVersion};
use object::{Object, ObjectSection, ObjectSymbol};

fn v0() -> SBPFVersion {
    SBPFVersion {
        disable_lddw: false,
        static_syscalls: false,
    }
}

#[test]
fn test_build_elf_sections_and_symbols() {
    let mut text = vec![0x90u8; 16];
    text[..4].copy_from_slice(&[0x55, 0x48, 0x89, 0xe5]);
    text[8..12].copy_from_slice(&[0x55, 0x48, 0x89, 0xe5]);
    let pc_offsets = vec![0u32, 4, 8, 12];
    let meta = JitCodeMeta {
        id: "jit_test_program".to_string(),
        code_ptr: 0x1000,
        code_len: text.len(),
        sbpf_version: v0(),
        symbols: vec![
            JitSymbol {
                key: 0,
                name: "func_a".to_string(),
                pc: 0,
            },
            JitSymbol {
                key: 1,
                name: "jit_test_program".to_string(),
                pc: 2,
            },
            JitSymbol {
                key: 2,
                name: "jit_test_program".to_string(),
                pc: 2,
            },
        ],
        syscalls: Vec::new(),
        host_symbols: vec![JitHostSymbol {
            name: "ANCHOR_TRACE".to_string(),
            host_start: 12,
            host_end: 16,
        }],
        function_entry_offsets: vec![0, u32::MAX, 8, u32::MAX],
    };

    let elf = build_elf(&meta, &text, &pc_offsets);
    let file = object::File::parse(elf.as_slice()).expect("failed to parse ELF");

    let text_section = file.section_by_name(".text").expect("missing .text");
    let text_data = text_section.data().expect("failed to read .text");
    assert_eq!(text_data, text.as_slice());

    let debug_line = file
        .section_by_name(".debug_line")
        .expect("missing .debug_line");
    let debug_line_data = debug_line.data().expect("failed to read .debug_line");
    assert!(
        !debug_line_data.is_empty(),
        ".debug_line should not be empty"
    );

    let symbols: Vec<_> = file
        .symbols()
        .filter(|symbol| !symbol.is_undefined())
        .map(|symbol| (symbol.name().unwrap(), symbol.address()))
        .collect();
    assert_eq!(
        symbols,
        vec![
            ("func_a", 0x1000),
            ("jit_test_program", 0x1008),
            ("ANCHOR_TRACE", 0x100c),
        ]
    );
}

#[test]
fn symbol_file_of_nothing_has_its_five_sections() {
    let meta = JitCodeMeta {
        id: String::new(),
        code_ptr: 0,
        code_len: 0,
        sbpf_version: v0(),
        symbols: vec![JitSymbol {
            key: 0,
            name: "gone".to_string(),
            pc: 0,
        }],
        syscalls: Vec::new(),
        host_symbols: vec![JitHostSymbol {
            name: "empty".to_string(),
            host_start: 4,
            host_end: 4,
        }],
        function_entry_offsets: Vec::new(),
    };
    let elf = build_elf(&meta, &[], &[]);
    let file = object::File::parse(elf.as_slice()).unwrap();
    let names: Vec<_> = file.sections().map(|s| s.name().unwrap().to_string()).collect();
    assert_eq!(names, [".text", ".symtab", ".strtab", ".debug_line", ".shstrtab"]);
    assert_eq!(file.symbols().filter(|s| !s.is_undefined()).count(), 0);
}

#[test]
fn symbol_sizes_and_section_addresses_are_kept() {
    let meta = JitCodeMeta {
        id: "p".to_string(),
        code_ptr: 0x7f00_0000_0000,
        code_len: 4,
        sbpf_version: v0(),
        symbols: Vec::new(),
        syscalls: Vec::new(),
        host_symbols: vec![JitHostSymbol {
            name: "glue".to_string(),
            host_start: 1,
            host_end: 3,
        }],
        function_entry_offsets: Vec::new(),
    };
    let elf = build_elf(&meta, &[1, 2, 3, 4], &[0]);
    let file = object::File::parse(elf.as_slice()).unwrap();
    let glue = file.symbols().find(|s| s.name() == Ok("glue")).unwrap();
    assert_eq!((glue.address(), glue.size()), (0x7f00_0000_0001, 2));
    let text = file.section_by_name(".text").unwrap();
    assert_eq!((text.address(), text.size(), text.align()), (0x7f00_0000_0000, 4, 16));
}

#[test]
fn line_table_has_a_row_for_each_counter() {
    let meta = JitCodeMeta {
        id: "ab".to_string(),
        code_ptr: 0x10,
        code_len: 0,
        sbpf_version: v0(),
        symbols: Vec::new(),
        syscalls: Vec::new(),
        host_symbols: Vec::new(),
        function_entry_offsets: Vec::new(),
    };
    let data = build_debug_line(&meta, &[1, 0x8000_0002]);
    let mut expected = vec![];
    let header = [
        1, 1, 1, 0xfb, 14, 13, 0, 1, 1, 1, 1, 0, 0, 0, 1, 0, 0, 1, 0, b'a', b'b', 0, 0, 0, 0, 0,
    ];
    let program = [
        0, 9, 2, 0x11, 0, 0, 0, 0, 0, 0, 0, 3, 0x7f, 1, // line 0
        0, 9, 2, 0x12, 0, 0, 0, 0, 0, 0, 0, 3, 1, 1, // line 1
        0, 1, 1,
    ];
    expected.extend_from_slice(&((6 + header.len() + program.len()) as u32).to_le_bytes());
    expected.extend_from_slice(&[4, 0]);
    expected.extend_from_slice(&(header.len() as u32).to_le_bytes());
    expected.extend_from_slice(&header);
    expected.extend_from_slice(&program);
    assert_eq!(data, expected);
}

#[test]
fn leb128_numbers_take_seven_bits_a_byte() {
    let mut buf = Vec::new();
    for value in [0, 127, 128, 624485, u64::MAX] {
        write_uleb128(&mut buf, value);
    }
    assert_eq!(
        buf,
        [
            0, 0x7f, 0x80, 1, 0xe5, 0x8e, 0x26, 0xff, 0xff, 0xff, 0xff, 0xff, 0xff, 0xff, 0xff,
            0xff, 1
        ]
    );
    let mut buf = Vec::new();
    for value in [0, 2, -2, 63, 64, -64, -65, -123456] {
        write_sleb128(&mut buf, value);
    }
    assert_eq!(
        buf,
        [0, 2, 0x7e, 0x3f, 0xc0, 0, 0x40, 0xbf, 0x7f, 0xc0, 0xbb, 0x78]
    );
}

#[test]
fn addresses_of_counters_are_tested() {
    assert!(check_addresses(0x1000, &[0, u32::MAX]));
    assert!(check_addresses(u64::MAX - 4, &[0, 0x8000_0004]));
    assert!(!check_addresses(u64::MAX - 4, &[0, 5]));
    assert!(check_addresses(u64::MAX, &[]));
}
