use jit_debug::dump_writer::JitDumpWriter;
use jit_debug::entry_list::{
    JitCodeEntry, JitDescriptor, LinkWrite, JIT_NOACTION, JIT_REGISTER_FN, JIT_UNREGISTER_FN,
};
use jit_debug::jit_debug::{DebugFeatures, JitDebug};
use jit_debug::jit_gdb::JitGdbHook;
use jit_debug::meta::{JitCodeMeta, JitSymbol, SBPFVersion};
use std::collections::BTreeMap;

fn features(jit_dump: bool, jit_gdb: bool) -> DebugFeatures {
    DebugFeatures { jit_dump, jit_gdb }
}

fn meta_at(code_ptr: u64) -> JitCodeMeta {
    JitCodeMeta {
        id: "program".to_string(),
        code_ptr,
        code_len: 8,
        sbpf_version: SBPFVersion {
            disable_lddw: false,
            static_syscalls: false,
        },
        symbols: vec![JitSymbol {
            key: 0,
            name: "main".to_string(),
            pc: 0,
        }],
        syscalls: Vec::new(),
        host_symbols: Vec::new(),
        function_entry_offsets: Vec::new(),
    }
}

/// Walks the list forwards and checks the links back.
fn walk(descriptor: &JitDescriptor) -> Vec<u64> {
    let mut found = Vec::new();
    let mut prev = 0;
    let mut current = descriptor.first_entry();
    while current != 0 {
        let entry = descriptor.entry(current).expect("unknown entry in the list");
        assert_eq!(entry.prev, prev);
        found.push(current);
        prev = current;
        current = entry.next;
    }
    found
}

/// A copy of the links that only link writes keep up to date.
fn apply(links: &mut BTreeMap<u64, (u64, u64)>, writes: &[LinkWrite]) {
    for write in writes {
        links.insert(write.entry, (write.next, write.prev));
    }
}

#[test]
fn new_descriptor_is_empty() {
    let descriptor = JitDescriptor::new();
    assert_eq!(descriptor.version(), 1);
    assert_eq!(descriptor.action_flag(), JIT_NOACTION);
    assert_eq!(descriptor.relevant_entry(), 0);
    assert_eq!(descriptor.first_entry(), 0);
    assert_eq!(descriptor.entry(0), None);
}

#[test]
fn registered_entries_come_first() {
    let mut descriptor = JitDescriptor::new();
    let writes = descriptor.register_entry(0x10, 0xa0, 7);
    assert_eq!(
        writes,
        [LinkWrite {
            entry: 0x10,
            next: 0,
            prev: 0
        }]
    );
    descriptor.register_entry(0x20, 0xb0, 8);
    assert_eq!(walk(&descriptor), [0x20, 0x10]);
    assert_eq!(descriptor.action_flag(), JIT_REGISTER_FN);
    assert_eq!(descriptor.relevant_entry(), 0x20);
    assert_eq!(
        descriptor.entry(0x10),
        Some(JitCodeEntry {
            next: 0,
            prev: 0x20,
            symfile_addr: 0xa0,
            symfile_size: 7
        })
    );
}

#[test]
fn unregistering_links_the_neighbours() {
    let mut descriptor = JitDescriptor::new();
    for entry in [1, 2, 3] {
        descriptor.register_entry(entry, 0, 0);
    }
    let writes = descriptor.unregister_entry(2);
    assert_eq!(
        writes,
        [
            LinkWrite {
                entry: 3,
                next: 1,
                prev: 0
            },
            LinkWrite {
                entry: 1,
                next: 0,
                prev: 3
            },
        ]
    );
    assert_eq!(walk(&descriptor), [3, 1]);
    assert_eq!(descriptor.action_flag(), JIT_UNREGISTER_FN);
    assert_eq!(descriptor.relevant_entry(), 2);
    descriptor.unregister_entry(3);
    assert_eq!(walk(&descriptor), [1]);
    assert_eq!(descriptor.unregister_entry(1), []);
    assert_eq!(walk(&descriptor), []);
}

#[test]
fn list_stays_whole_through_many_entries() {
    let mut descriptor = JitDescriptor::new();
    let mut links = BTreeMap::new();
    let entries: Vec<u64> = (1..=512).map(|i| i * 0x40).collect();
    for entry in &entries {
        let writes = descriptor.register_entry(*entry, 0, 0);
        apply(&mut links, &writes);
    }
    assert_eq!(walk(&descriptor).len(), entries.len());
    assert!(entries.iter().all(|entry| descriptor.entry(*entry).is_some()));
    // Take them out in an order that has nothing to do with the list.
    let mut left = entries.len();
    for i in 0..entries.len() {
        let entry = entries[i * 77 % entries.len()];
        let writes = descriptor.unregister_entry(entry);
        apply(&mut links, &writes);
        links.remove(&entry);
        left -= 1;
        let found = walk(&descriptor);
        assert_eq!(found.len(), left);
        for address in found {
            let listed = descriptor.entry(address).unwrap();
            assert_eq!(links[&address], (listed.next, listed.prev));
        }
    }
    assert_eq!(descriptor.first_entry(), 0);
    assert!(links.is_empty());
}

#[test]
fn hook_puts_symbol_files_in_and_out() {
    let mut descriptor = JitDescriptor::new();
    descriptor.register_entry(0x99, 1, 1);
    let mut hook = JitGdbHook::new();
    let meta = meta_at(0x1000);
    assert!(hook.on_code_unload(&mut descriptor, &meta).is_none());
    assert_eq!(walk(&descriptor), [0x99]);

    let elf = hook.symbol_file(&meta, &[0x90; 8], &[0, 4]);
    let size = elf.len() as u64;
    let (writes, replaced) = hook.on_code_load(&mut descriptor, &meta, 0x10, 0xe1f, elf.clone());
    assert_eq!(writes.len(), 2);
    assert!(replaced.is_none());
    assert_eq!(walk(&descriptor), [0x10, 0x99]);
    let entry = descriptor.entry(0x10).unwrap();
    assert_eq!((entry.symfile_addr, entry.symfile_size), (0xe1f, size));

    assert!(hook.on_code_unload(&mut descriptor, &meta_at(0x2000)).is_none());
    let (removed, _) = hook.on_code_unload(&mut descriptor, &meta).unwrap();
    assert_eq!((removed.entry, removed.elf), (0x10, elf));
    assert_eq!(walk(&descriptor), [0x99]);
}

#[test]
fn second_load_of_the_same_code_replaces_the_first() {
    let mut descriptor = JitDescriptor::new();
    let mut hook = JitGdbHook::new();
    let meta = meta_at(0x1000);
    hook.on_code_load(&mut descriptor, &meta, 0x10, 0, vec![1]);
    let (_, replaced) = hook.on_code_load(&mut descriptor, &meta, 0x20, 0, vec![2]);
    assert_eq!(replaced.unwrap().entry, 0x10);
    assert_eq!(walk(&descriptor), [0x20, 0x10]);
    let (removed, _) = hook.on_code_unload(&mut descriptor, &meta).unwrap();
    assert_eq!(removed.entry, 0x20);
    assert_eq!(walk(&descriptor), [0x10]);
}

#[test]
fn programs_come_and_go_independently() {
    let mut descriptor = JitDescriptor::new();
    let (mut first, mut second) = (JitGdbHook::new(), JitGdbHook::new());
    first.on_code_load(&mut descriptor, &meta_at(0x1000), 0x10, 0xa, vec![1]);
    second.on_code_load(&mut descriptor, &meta_at(0x1000), 0x20, 0xb, vec![2, 2]);
    first.on_code_load(&mut descriptor, &meta_at(0x3000), 0x30, 0xc, vec![3]);
    assert_eq!(walk(&descriptor), [0x30, 0x20, 0x10]);
    first.on_code_unload(&mut descriptor, &meta_at(0x1000)).unwrap();
    assert_eq!(walk(&descriptor), [0x30, 0x20]);
    let kept = descriptor.entry(0x20).unwrap();
    assert_eq!((kept.symfile_addr, kept.symfile_size), (0xb, 2));
    second.on_code_unload(&mut descriptor, &meta_at(0x1000)).unwrap();
    first.on_code_unload(&mut descriptor, &meta_at(0x3000)).unwrap();
    assert_eq!(walk(&descriptor), []);
}

#[test]
fn output_is_enabled_by_features_and_directory() {
    let dir = || Some(b"/tmp".to_vec());
    assert!(!JitDebug::enabled(features(false, false), dir()));
    assert!(!JitDebug::enabled(features(true, false), None));
    assert!(JitDebug::enabled(features(true, false), dir()));
    assert!(JitDebug::enabled(features(false, true), None));
    assert!(JitDebug::enabled(features(true, true), None));
}

#[test]
fn disabled_output_does_nothing() {
    let mut debug = JitDebug::new(features(true, false), None, meta_at(0x1000));
    assert_eq!(debug.dump_dir(), None);
    let output = debug.on_code_load(&[0x90; 8], &[0, 4]);
    assert!(output.dump.is_none() && output.symbol_file.is_none());
    let mut descriptor = JitDescriptor::new();
    let output = debug.on_code_unload(&mut descriptor, 0);
    assert!(output.dump.is_none() && output.symbol_file.is_none());
    assert_eq!(descriptor.action_flag(), JIT_NOACTION);
}

#[test]
fn both_kinds_of_output_follow_the_program() {
    let dir = Some(b"/tmp".to_vec());
    let mut debug = JitDebug::new(features(true, true), dir, meta_at(0x1000));
    assert_eq!(debug.meta().id, "program");
    assert_eq!(debug.dump_dir(), Some(b"/tmp".as_slice()));
    let text = [0x90; 8];
    let output = debug.on_code_load(&text, &[0, 4]);
    let plan = output.dump.unwrap();
    assert_eq!(plan.items.len(), 1);
    assert_eq!(plan.items[0].name, "main");
    let elf = output.symbol_file.unwrap();
    assert_eq!(elf[..4], [0x7f, b'E', b'L', b'F']);

    let mut descriptor = JitDescriptor::new();
    let (_, replaced) = debug.symbol_file_placed(&mut descriptor, 0x10, 0x20, elf);
    assert!(replaced.is_none());
    assert_eq!(walk(&descriptor), [0x10]);
    let output = debug.on_code_unload(&mut descriptor, 0);
    assert!(output.dump.is_none());
    assert_eq!(output.symbol_file.unwrap().0.entry, 0x10);
    assert_eq!(walk(&descriptor), []);

    assert!(debug.dump_written(JitDumpWriter::new(1, "p", 0), 1).is_none());
    let replaced = debug.dump_written(JitDumpWriter::new(1, "p", 1), 2).unwrap();
    assert_eq!(replaced.file_names, ["jit-1-p-0.dump"]);
    assert_eq!(debug.close_dump(3).unwrap().file_names, ["jit-1-p-1.dump"]);
    assert!(debug.close_dump(4).is_none());
}
