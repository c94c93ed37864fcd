use jit_debug::instruction::{get_insn, get_wide_insn, Insn};
use jit_debug::meta::SBPFVersion;
use jit_debug::source::{push_source_line, write_source_file, SourceError};
use jit_debug::text::{push_decimal, push_decimal4, push_hex, sanitize_component};

const V0: SBPFVersion = SBPFVersion {
    disable_lddw: false,
    static_syscalls: false,
};

fn disassemble(insn: &Insn) -> String {
    match insn.opc {
        0x18 => format!("lddw r{}, {:#x}", insn.dst, insn.imm),
        0x95 => "exit".to_string(),
        opc => format!("op {opc:#x} at {}", insn.ptr),
    }
}

#[test]
fn test_source_file_preserves_lddw_and_pc_lines() {
    let program = [
        0x18, 0, 0, 0, 0x88, 0x77, 0x66, 0x55, 0, 0, 0, 0, 0x44, 0x33, 0x22, 0x11, 0x95, 0, 0, 0,
        0, 0, 0, 0,
    ];
    let (source, result) = write_source_file(&program, 0, 3, V0, disassemble);
    assert_eq!(result, Ok(()));
    assert_eq!(
        source,
        [
            "pc 0000: 18 00 00 00 88 77 66 55 | lddw r0, 0x1122334455667788\n",
            "pc 0001: 00 00 00 00 44 33 22 11 | lddw continuation\n",
            "pc 0002: 95 00 00 00 00 00 00 00 | exit\n",
        ]
        .concat()
    );
    for (program, pc_end) in [(&program[..8], 1), (&program[..], 1)] {
        let (_, result) = write_source_file(program, 0, pc_end, V0, disassemble);
        assert_eq!(result, Err(SourceError::TruncatedLddw));
    }
}

#[test]
fn lines_before_a_truncated_lddw_are_kept() {
    let program = [
        0x95, 0, 0, 0, 0, 0, 0, 0, 0x18, 0, 0, 0, 0, 0, 0, 0, 0x95, 0, 0, 0, 0, 0, 0, 0,
    ];
    let (source, result) = write_source_file(&program, 0, 2, V0, disassemble);
    assert_eq!(result, Err(SourceError::TruncatedLddw));
    assert_eq!(source, "pc 0000: 95 00 00 00 00 00 00 00 | exit\n");
}

#[test]
fn versions_without_lddw_have_no_continuations() {
    let program = [0x18u8; 16];
    let v3 = SBPFVersion {
        disable_lddw: true,
        static_syscalls: true,
    };
    let (source, result) = write_source_file(&program, 0, 2, v3, |_| "x".to_string());
    assert_eq!(result, Ok(()));
    assert_eq!(
        source,
        "pc 0000: 18 18 18 18 18 18 18 18 | x\npc 0001: 18 18 18 18 18 18 18 18 | x\n"
    );
    // Of four first slots in a row, every other one is a continuation.
    let program = [0x18u8; 32];
    let (source, result) = write_source_file(&program, 0, 4, V0, |_| "x".to_string());
    assert_eq!(result, Ok(()));
    let texts: Vec<_> = source.lines().map(|l| l.split("| ").nth(1).unwrap()).collect();
    assert_eq!(texts, ["x", "lddw continuation", "x", "lddw continuation"]);
}

#[test]
fn source_ends_where_the_program_ends() {
    let program = [0x95u8; 8 * 3 + 7];
    let (source, result) = write_source_file(&program, 1, 10, V0, disassemble);
    assert_eq!(result, Ok(()));
    assert_eq!(source.lines().count(), 2);
    assert!(source.starts_with("pc 0001: 95"));
    let (source, result) = write_source_file(&program, 7, 10, V0, disassemble);
    assert_eq!((source.as_str(), result), ("", Ok(())));
    let (source, result) = write_source_file(&program, 2, 2, V0, disassemble);
    assert_eq!((source.as_str(), result), ("", Ok(())));
    let (source, result) = write_source_file(&program, 2, 1, V0, disassemble);
    assert_eq!((source.as_str(), result), ("", Ok(())));
}

#[test]
fn instructions_are_decoded() {
    let program = [0xb7, 0xa3, 0xfe, 0xff, 0x00, 0x00, 0x00, 0x80, 0, 0, 0, 0, 1, 0, 0, 0x80];
    assert_eq!(
        get_insn(&program, 0),
        Insn {
            ptr: 0,
            opc: 0xb7,
            dst: 3,
            src: 10,
            off: -2,
            imm: -0x8000_0000,
        }
    );
    assert_eq!(get_wide_insn(&program, 0).imm, -0x7fff_fffe_8000_0000);
    assert_eq!(get_insn(&program, 1).imm, -0x7fff_ffff);
    assert_eq!(get_insn(&program, 1).ptr, 1);
}

#[test]
fn lines_are_formatted() {
    let mut source = String::from("> ");
    push_source_line(&mut source, 12345, &[0, 0xab, 255], "text");
    assert_eq!(source, "> pc 12345: 00 ab ff | text\n");
}

#[test]
fn numbers_are_formatted() {
    let mut text = String::new();
    for value in [0, 9, 10, 905, u64::MAX] {
        push_decimal(&mut text, value);
        text.push(' ');
    }
    assert_eq!(text, "0 9 10 905 18446744073709551615 ");
    let mut text = String::new();
    for value in [0, 9, 10, 99, 100, 999, 1000, 9999, 10000] {
        push_decimal4(&mut text, value);
        text.push(' ');
    }
    assert_eq!(text, "0000 0009 0010 0099 0100 0999 1000 9999 10000 ");
    let mut text = String::new();
    push_hex(&mut text, 0x00c0_ffee, 8);
    push_hex(&mut text, 0xa, 2);
    assert_eq!(text, "00c0ffee0a");
}

#[test]
fn components_are_sanitized() {
    assert_eq!(sanitize_component("My-prog_1"), "My-prog_1");
    assert_eq!(sanitize_component("shared/name"), "shared_name");
    assert_eq!(sanitize_component("shared?name"), "shared_name");
    assert_eq!(sanitize_component("../ä."), "______".get(..5).unwrap());
    assert_eq!(sanitize_component(""), "unknown");
    assert_eq!(sanitize_component(&sanitize_component("a b")), "a_b");
}
