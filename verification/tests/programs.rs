use jit_debug::executable::{build_jit_code_meta, code_id, collect_symbols_with_key, Executable};
use jit_debug::hash::hash_symbol_name;
use jit_debug::meta::{JitCodeMeta, JitSymbol, JitSyscallSymbol, SBPFVersion};
use jit_debug::registry::{
    build_function_registry, build_syscall_loader, FunctionRegistry, SymbolHashCollision,
};

fn v0() -> SBPFVersion {
    SBPFVersion {
        disable_lddw: false,
        static_syscalls: false,
    }
}

fn v3() -> SBPFVersion {
    SBPFVersion {
        disable_lddw: true,
        static_syscalls: true,
    }
}

fn empty_meta() -> JitCodeMeta {
    JitCodeMeta {
        id: String::new(),
        code_ptr: 0,
        code_len: 0,
        sbpf_version: v0(),
        symbols: Vec::new(),
        syscalls: Vec::new(),
        host_symbols: Vec::new(),
        function_entry_offsets: Vec::new(),
    }
}

#[test]
fn test_program_id_names_entrypoint_aliases() {
    let program = [0u8; 4 * 8];
    let mut registry = FunctionRegistry::new();
    registry.register_function(0, b"helper", 0).unwrap();
    registry.register_function(1, b"alias", 2).unwrap();
    registry.register_function(2, b"entrypoint", 2).unwrap();
    registry.register_function(3, b"", 2).unwrap();
    let mut executable = Executable {
        program_id: None,
        entry_pc: 2,
        sbpf_version: v0(),
        function_registry: registry,
        syscall_registry: FunctionRegistry::new(),
    };

    for program_id in [None, Some("my_program")] {
        if let Some(id) = program_id {
            executable.program_id = Some(id.to_string());
        }
        let meta = build_jit_code_meta(&executable, &program, 0, 0, Vec::new(), Vec::new());
        let symbols: Vec<_> = meta
            .symbols
            .iter()
            .map(|symbol| (symbol.key, symbol.name.as_str(), symbol.pc))
            .collect();
        if program_id.is_some() {
            assert_eq!(meta.id, "my_program");
            assert_eq!(
                symbols,
                vec![
                    (0, "helper", 0),
                    (1, "my_program", 2),
                    (2, "my_program", 2),
                    (3, "my_program", 2),
                ]
            );
        } else {
            assert_eq!(
                symbols,
                vec![(0, "helper", 0), (1, "alias", 2), (2, "entrypoint", 2)]
            );
        }
    }
    assert_eq!(
        executable.function_registry.lookup_by_key(1),
        Some((b"alias".as_slice(), 2))
    );
    assert_eq!(
        executable.function_registry.lookup_by_key(2),
        Some((b"entrypoint".as_slice(), 2))
    );
}

#[test]
fn test_program_id_with_stripped_elf() {
    let text = [0x95u8, 0, 0, 0, 0, 0, 0, 0];
    let mut executable = Executable {
        program_id: None,
        entry_pc: 5,
        sbpf_version: v3(),
        function_registry: FunctionRegistry::new(),
        syscall_registry: FunctionRegistry::new(),
    };
    assert_eq!(executable.function_registry.len(), 0);
    let entry_pc = executable.entry_pc;
    assert_ne!(entry_pc, 0);

    for program_id in [None, Some("my_program")] {
        if let Some(id) = program_id {
            executable.program_id = Some(id.to_string());
        }
        let meta = build_jit_code_meta(&executable, &text, 0, 0, Vec::new(), Vec::new());
        assert_eq!(meta.symbols.len(), 1);
        let symbol = &meta.symbols[0];
        assert_eq!(symbol.pc, entry_pc);
        assert_eq!(symbol.key, entry_pc as u32);
        assert_eq!(symbol.name, meta.id);
        if let Some(id) = program_id {
            assert_eq!(symbol.name, id);
        } else {
            assert!(symbol.name.starts_with("sbpf_"));
        }
    }
}

#[test]
fn start_without_static_syscalls_is_keyed_by_name() {
    let executable = Executable {
        program_id: None,
        entry_pc: 7,
        sbpf_version: v0(),
        function_registry: FunctionRegistry::new(),
        syscall_registry: FunctionRegistry::new(),
    };
    let symbols = collect_symbols_with_key(&executable, "some id", 0x1234);
    assert_eq!(symbols.len(), 1);
    assert_eq!(
        (symbols[0].key, symbols[0].name.as_str(), symbols[0].pc),
        (0x1234, "some id", 7)
    );
    let meta = build_jit_code_meta(&executable, b"", 0x4000, 9, Vec::new(), vec![1, 2]);
    assert_eq!(meta.symbols[0].key, 0x71e3_cf81);
    assert_eq!((meta.code_ptr, meta.code_len), (0x4000, 9));
    assert_eq!(meta.sbpf_version, v0());
    assert_eq!(meta.function_entry_offsets, [1, 2]);
}

#[test]
fn program_with_an_empty_id_still_has_a_start() {
    let mut registry = FunctionRegistry::new();
    registry.register_function(9, b"entrypoint", 4).unwrap();
    let executable = Executable {
        program_id: Some(String::new()),
        entry_pc: 4,
        sbpf_version: v3(),
        function_registry: registry,
        syscall_registry: FunctionRegistry::new(),
    };
    let meta = build_jit_code_meta(&executable, b"", 0, 0, Vec::new(), Vec::new());
    assert_eq!(meta.id, "");
    let found: Vec<_> = meta.symbols.iter().map(|s| (s.key, s.name.as_str(), s.pc)).collect();
    assert_eq!(found, vec![(4, "", 4)]);
}

#[test]
fn names_are_decoded_and_bad_bytes_replaced() {
    let mut registry = FunctionRegistry::new();
    registry.register_function(1, "größe".as_bytes(), 0).unwrap();
    registry.register_function(0, b"a\xffb", 1).unwrap();
    let mut syscalls = FunctionRegistry::new();
    assert!(syscalls.insert_if_absent(30, b"sol_log_", ()));
    assert!(syscalls.insert_if_absent(20, b"", ()));
    assert!(syscalls.insert_if_absent(10, b"\xfe", ()));
    let executable = Executable {
        program_id: None,
        entry_pc: 0,
        sbpf_version: v0(),
        function_registry: registry,
        syscall_registry: syscalls,
    };
    let meta = build_jit_code_meta(&executable, b"", 0, 0, Vec::new(), Vec::new());
    let symbols: Vec<_> = meta.symbols.iter().map(|s| s.name.as_str()).collect();
    assert_eq!(symbols, ["a\u{fffd}b", "größe"]);
    let syscalls: Vec<_> = meta.syscalls.iter().map(|s| s.name.as_str()).collect();
    assert_eq!(syscalls, ["\u{fffd}", "sol_log_"]);
}

#[test]
fn program_without_an_id_is_named_by_its_hash() {
    let executable = Executable {
        program_id: None,
        entry_pc: 0,
        sbpf_version: v0(),
        function_registry: FunctionRegistry::new(),
        syscall_registry: FunctionRegistry::new(),
    };
    assert_eq!(code_id(&executable, 0x00ab_cdef), "sbpf_00abcdef");
    let meta = build_jit_code_meta(&executable, b"entrypoint", 0, 0, Vec::new(), Vec::new());
    assert_eq!(meta.id, "sbpf_71e3cf81");
    let empty = build_jit_code_meta(&executable, b"", 0, 0, Vec::new(), Vec::new());
    assert_eq!(empty.id, "sbpf_00000000");
}

#[test]
fn hashes_are_those_of_murmur3() {
    assert_eq!(hash_symbol_name(b"entrypoint"), 0x71e3_cf81);
    assert_eq!(hash_symbol_name(b""), 0);
    assert_ne!(hash_symbol_name(b"abort"), hash_symbol_name(b"sol_panic_"));
}

#[test]
fn registered_functions_are_found_in_the_order_of_their_keys() {
    let mut registry = FunctionRegistry::new();
    assert_eq!(registry.register_function(30, b"c", 3), Ok(()));
    assert_eq!(registry.register_function(10, b"a", 1), Ok(()));
    assert_eq!(registry.register_function(20, b"b", 2), Ok(()));
    let keys: Vec<_> = (0..registry.len()).map(|i| registry.entry(i).key).collect();
    assert_eq!(keys, [10, 20, 30]);
    assert_eq!(registry.lookup_by_key(20), Some((b"b".as_slice(), 2)));
    assert_eq!(registry.lookup_by_key(25), None);
    assert_eq!(registry.lookup_by_key(31), None);
}

#[test]
fn taken_keys_keep_their_function() {
    let mut registry = FunctionRegistry::new();
    registry.register_function(10, b"a", 1).unwrap();
    assert_eq!(registry.register_function(10, b"other", 1), Ok(()));
    assert_eq!(
        registry.register_function(10, b"other", 2),
        Err(SymbolHashCollision(10))
    );
    assert_eq!(registry.len(), 1);
    assert_eq!(registry.lookup_by_key(10), Some((b"a".as_slice(), 1)));
    let mut syscalls = FunctionRegistry::new();
    assert!(syscalls.insert_if_absent(1, b"x", ()));
    assert!(!syscalls.insert_if_absent(1, b"y", ()));
    assert_eq!(syscalls.lookup_by_key(1), Some((b"x".as_slice(), ())));
}

#[test]
fn first_symbol_with_a_key_is_registered() {
    let mut meta = empty_meta();
    for (key, name, pc) in [(5, "late", 9), (1, "first", 0), (1, "second", 3)] {
        meta.symbols.push(JitSymbol {
            key,
            name: name.to_string(),
            pc,
        });
    }
    let registry = build_function_registry(&meta);
    assert!(meta.symbols.iter().all(|s| registry.lookup_by_key(s.key).is_some()));
    assert_eq!(registry.len(), 2);
    assert_eq!(registry.lookup_by_key(1), Some((b"first".as_slice(), 0)));
    assert_eq!(registry.lookup_by_key(5), Some((b"late".as_slice(), 9)));
}

#[test]
fn syscalls_are_registered_under_the_hashes_of_their_names() {
    let mut meta = empty_meta();
    for name in ["sol_log_", "abort", "abort", "entrypoint"] {
        meta.syscalls.push(JitSyscallSymbol {
            name: name.to_string(),
        });
    }
    let loader = build_syscall_loader(&meta);
    assert_eq!(loader.len(), 3);
    assert_eq!(
        loader.lookup_by_key(0x71e3_cf81),
        Some((b"entrypoint".as_slice(), ()))
    );
    assert_eq!(
        loader.lookup_by_key(hash_symbol_name(b"abort")),
        Some((b"abort".as_slice(), ()))
    );
    assert_eq!(loader.lookup_by_key(0), None);
}
