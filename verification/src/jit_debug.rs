//! What is told of a compiled program, and to whom.

use crate::dump_items;
use crate::dump_writer;
use crate::dump_writer::{DumpClosing, JitDumpWriter};
use crate::elf_image;
use crate::entry_list;
use crate::entry_list::{JitDescriptor, LinkWrite};
use crate::function_ranges;
use crate::function_ranges::FunctionRange;
use crate::jit_dump;
use crate::jit_dump::{DumpHookView, DumpPlan, JitDumpHook};
use crate::jit_gdb;
use crate::jit_gdb::{JitGdbEntry, JitGdbHook};
use crate::meta::JitCodeMeta;
use vstd::prelude::*;

verus! {

/// Which kinds of debug output there are.
#[derive(Clone, Copy, Debug, PartialEq, Eq, Structural)]
pub struct DebugFeatures {
    /// Dumps for profilers.
    pub jit_dump: bool,
    /// Symbol files for debuggers.
    pub jit_gdb: bool,
}

/// The debug output for one compiled program.
pub struct JitDebug {
    dump: Option<JitDumpHook>,
    gdb: Option<JitGdbHook>,
    meta: JitCodeMeta,
}

/// What a [`JitDebug`] knows.
pub struct DebugView {
    pub dump: Option<DumpHookView>,
    pub gdb: Option<Map<u64, JitGdbEntry>>,
    pub meta: JitCodeMeta,
}

impl View for JitDebug {
    type V = DebugView;

    closed spec fn view(&self) -> DebugView {
        DebugView {
            dump: match self.dump {
                Some(hook) => Some(hook@),
                None => None,
            },
            gdb: match self.gdb {
                Some(hook) => Some(hook@),
                None => None,
            },
            meta: self.meta,
        }
    }
}

/// What is to be put out for a program that was loaded.
pub struct LoadOutput {
    /// The plan of its dump.
    pub dump: Option<DumpPlan>,
    /// Its symbol file.
    pub symbol_file: Option<Vec<u8>>,
}

/// What is to be cleared away for a program that was unloaded.
pub struct UnloadOutput {
    /// The end of its dump.
    pub dump: Option<DumpClosing>,
    /// Its symbol file, with the links of the list that changed.
    pub symbol_file: Option<(JitGdbEntry, Vec<LinkWrite>)>,
}

/// Whether there is debug output of some kind; dumps need a directory.
pub open spec fn is_enabled(features: DebugFeatures, dump_dir: Option<Seq<u8>>) -> bool {
    features.jit_dump && dump_dir is Some || features.jit_gdb
}

/// What is known of a program before it is loaded.
pub open spec fn initial(
    features: DebugFeatures,
    dump_dir: Option<Seq<u8>>,
    meta: JitCodeMeta,
) -> DebugView {
    DebugView {
        dump: match dump_dir {
            Some(dir) => if features.jit_dump {
                Some(DumpHookView { dir, writer: None })
            } else {
                None
            },
            None => None,
        },
        gdb: if features.jit_gdb {
            Some(Map::empty())
        } else {
            None
        },
        meta,
    }
}

/// The bytes of a path.
pub open spec fn path_view(path: Option<Vec<u8>>) -> Option<Seq<u8>> {
    match path {
        Some(path) => Some(path@),
        None => None,
    }
}

/// Debug output is enabled if and only if there is a hook that gives some.
pub proof fn law_enabled_means_hooked(
    features: DebugFeatures,
    dump_dir: Option<Seq<u8>>,
    meta: JitCodeMeta,
)
    ensures
        is_enabled(features, dump_dir) <==> initial(features, dump_dir, meta).dump is Some
            || initial(features, dump_dir, meta).gdb is Some,
{
}

/// A program has a hook for dumps exactly where there are dumps and the
/// environment names a directory, and that directory is the hook's; it has one
/// for symbol files exactly where there are symbol files. Neither has put
/// anything out yet, and what is known of the program is what was said.
pub proof fn law_hooks_follow_features(
    features: DebugFeatures,
    dump_dir: Option<Vec<u8>>,
    meta: JitCodeMeta,
)
    ensures
        ({
            let debug = initial(features, path_view(dump_dir), meta);
            &&& debug.dump is Some <==> features.jit_dump && dump_dir is Some
            &&& debug.dump matches Some(hook) ==> hook.dir == dump_dir.unwrap()@
                && hook.writer is None
            &&& debug.gdb is Some <==> features.jit_gdb
            &&& debug.gdb matches Some(files) ==> files == Map::<u64, JitGdbEntry>::empty()
            &&& debug.meta == meta
            &&& is_enabled(features, path_view(dump_dir)) <==> debug.dump is Some
                || debug.gdb is Some
        }),
{
}

impl JitDebug {
    /// Whether there is debug output of some kind. `dump_dir` is the directory
    /// that the environment names for dumps.
    pub fn enabled(features: DebugFeatures, dump_dir: Option<Vec<u8>>) -> (enabled: bool)
        ensures
            enabled == is_enabled(features, path_view(dump_dir)),
    {
        if features.jit_dump && JitDumpHook::from_env(dump_dir).is_some() {
            return true;
        }
        features.jit_gdb
    }

    /// The debug output for a program, which is not loaded yet.
    pub fn new(features: DebugFeatures, dump_dir: Option<Vec<u8>>, meta: JitCodeMeta) -> (debug:
        JitDebug)
        ensures
            debug@ == initial(features, path_view(dump_dir), meta),
    {
        let dump = if features.jit_dump {
            JitDumpHook::from_env(dump_dir)
        } else {
            None
        };
        let gdb = if features.jit_gdb {
            Some(JitGdbHook::new())
        } else {
            None
        };
        JitDebug { dump, gdb, meta }
    }

    /// What is known of the program.
    pub fn meta(&self) -> (meta: &JitCodeMeta)
        ensures
            *meta == self@.meta,
    {
        &self.meta
    }

    /// The directory for dumps.
    pub fn dump_dir(&self) -> (dir: Option<&[u8]>)
        ensures
            match dir {
                Some(dir) => self@.dump matches Some(hook) && hook.dir == dir@,
                None => self@.dump is None,
            },
    {
        match &self.dump {
            Some(hook) => Some(hook.dir()),
            None => None,
        }
    }

    /// Plans the dump of the program, which was loaded.
    pub fn plan_dump(&self, text: &[u8], pc_offsets: &[u32]) -> (plan: Option<DumpPlan>)
        requires
            self@.dump is Some ==> dump_items::dump_addressable(
                self@.meta,
                text@,
                pc_offsets@,
            ),
        ensures
            match plan {
                Some(plan) => {
                    &&& self@.dump is Some
                    &&& dump_items::has_functions(self@.meta, text@, pc_offsets@)
                    &&& jit_dump::is_plan_of(plan, self@.meta, text@, pc_offsets@)
                },
                None => self@.dump is None || !dump_items::has_functions(
                    self@.meta,
                    text@,
                    pc_offsets@,
                ),
            },
    {
        match &self.dump {
            Some(hook) => hook.on_code_load(&self.meta, text, pc_offsets),
            None => None,
        }
    }

    /// Builds the symbol file of the program, which was loaded.
    pub fn symbol_file(&self, text: &[u8], pc_offsets: &[u32]) -> (symbol_file: Option<Vec<u8>>)
        requires
            self@.gdb is Some ==> elf_image::image_fits(self@.meta, text@, pc_offsets@),
        ensures
            match symbol_file {
                Some(elf) => self@.gdb is Some && elf@ == elf_image::elf_image(
                    self@.meta,
                    text@,
                    pc_offsets@,
                ),
                None => self@.gdb is None,
            },
    {
        match &self.gdb {
            Some(hook) => Some(hook.symbol_file(&self.meta, text, pc_offsets)),
            None => None,
        }
    }

    /// Says what is to be put out for the program, which was loaded.
    pub fn on_code_load(&self, text: &[u8], pc_offsets: &[u32]) -> (output: LoadOutput)
        requires
            self@.dump is Some ==> dump_items::dump_addressable(
                self@.meta,
                text@,
                pc_offsets@,
            ),
            self@.gdb is Some ==> elf_image::image_fits(self@.meta, text@, pc_offsets@),
        ensures
            match output.dump {
                Some(plan) => {
                    &&& self@.dump is Some
                    &&& dump_items::has_functions(self@.meta, text@, pc_offsets@)
                    &&& jit_dump::is_plan_of(plan, self@.meta, text@, pc_offsets@)
                },
                None => self@.dump is None || !dump_items::has_functions(
                    self@.meta,
                    text@,
                    pc_offsets@,
                ),
            },
            match output.symbol_file {
                Some(elf) => self@.gdb is Some && elf@ == elf_image::elf_image(
                    self@.meta,
                    text@,
                    pc_offsets@,
                ),
                None => self@.gdb is None,
            },
    {
        LoadOutput {
            dump: self.plan_dump(text, pc_offsets),
            symbol_file: self.symbol_file(text, pc_offsets),
        }
    }

    /// Keeps the dump of the program, and ends the dump that was kept before.
    pub fn dump_written(&mut self, writer: JitDumpWriter, timestamp: u64) -> (replaced: Option<
        DumpClosing,
    >)
        requires
            old(self)@.dump is Some,
        ensures
            final(self)@ == (DebugView {
                dump: Some(
                    (DumpHookView { writer: Some(writer@), ..old(self)@.dump.unwrap() }),
                ),
                ..old(self)@
            }),
            match replaced {
                Some(closing) => old(self)@.dump.unwrap().writer matches Some(before)
                    && dump_writer::is_closing(closing, before, timestamp),
                None => old(self)@.dump.unwrap().writer is None,
            },
    {
        let mut hook = self.dump.take().unwrap();
        let replaced = hook.code_loaded(writer, timestamp);
        self.dump = Some(hook);
        replaced
    }

    /// Puts the symbol file of the program into the list. It is at the address
    /// `elf_addr`, and its entry at the address `entry`. Gives the links that
    /// changed, and the symbol file that was kept before, which stays in the
    /// list.
    pub fn symbol_file_placed(
        &mut self,
        descriptor: &mut JitDescriptor,
        entry: u64,
        elf_addr: u64,
        elf: Vec<u8>,
    ) -> (placed: (Vec<LinkWrite>, Option<JitGdbEntry>))
        requires
            old(self)@.gdb is Some,
            old(descriptor)@.wf(),
            entry != 0,
            !old(descriptor)@.entries.contains_key(entry),
        ensures
            final(descriptor)@.wf(),
            final(descriptor)@.order == seq![entry] + old(descriptor)@.order,
            final(descriptor)@.version == old(descriptor)@.version,
            final(descriptor)@.action_flag == entry_list::JIT_REGISTER_FN,
            final(descriptor)@.relevant_entry == entry,
            final(descriptor)@.entries.contains_key(entry),
            final(descriptor)@.entries[entry].symfile_addr == elf_addr,
            final(descriptor)@.entries[entry].symfile_size == elf@.len(),
            entry_list::symfiles_kept(old(descriptor)@.entries, final(descriptor)@.entries),
            entry_list::are_link_writes(
                placed.0@,
                old(descriptor)@.entries,
                final(descriptor)@.entries,
            ),
            final(self)@ == (DebugView {
                gdb: Some(
                    old(self)@.gdb.unwrap().insert(
                        old(self)@.meta.code_ptr,
                        (JitGdbEntry { entry, elf }),
                    ),
                ),
                ..old(self)@
            }),
            placed.1 == (if old(self)@.gdb.unwrap().contains_key(old(self)@.meta.code_ptr) {
                Some(old(self)@.gdb.unwrap()[old(self)@.meta.code_ptr])
            } else {
                None
            }),
            jit_gdb::is_listed(old(self)@.gdb.unwrap(), old(descriptor)@) ==> jit_gdb::is_listed(
                final(self)@.gdb.unwrap(),
                final(descriptor)@,
            ),
    {
        let mut hook = self.gdb.take().unwrap();
        let placed = hook.on_code_load(descriptor, &self.meta, entry, elf_addr, elf);
        self.gdb = Some(hook);
        placed
    }

    /// Ends the dump of the program.
    pub fn close_dump(&mut self, timestamp: u64) -> (closed: Option<DumpClosing>)
        ensures
            match old(self)@.dump {
                Some(hook) => {
                    &&& final(self)@ == (DebugView {
                        dump: Some((DumpHookView { writer: None, ..hook })),
                        ..old(self)@
                    })
                    &&& match closed {
                        Some(closing) => hook.writer matches Some(before)
                            && dump_writer::is_closing(closing, before, timestamp),
                        None => hook.writer is None,
                    }
                },
                None => final(self)@ == old(self)@ && closed is None,
            },
    {
        match self.dump.take() {
            Some(mut hook) => {
                let closed = hook.on_code_unload(timestamp);
                self.dump = Some(hook);
                closed
            },
            None => None,
        }
    }

    /// Says what is to be cleared away for the program, which was unloaded.
    pub fn on_code_unload(&mut self, descriptor: &mut JitDescriptor, timestamp: u64) -> (output:
        UnloadOutput)
        requires
            old(descriptor)@.wf(),
            old(self)@.gdb matches Some(hook) ==> jit_gdb::is_listed(hook, old(descriptor)@),
        ensures
            final(descriptor)@.wf(),
            final(self)@.meta == old(self)@.meta,
            match old(self)@.dump {
                Some(hook) => {
                    &&& final(self)@.dump == Some((DumpHookView { writer: None, ..hook }))
                    &&& match output.dump {
                        Some(closing) => hook.writer matches Some(before)
                            && dump_writer::is_closing(closing, before, timestamp),
                        None => hook.writer is None,
                    }
                },
                None => final(self)@.dump is None && output.dump is None,
            },
            match old(self)@.gdb {
                Some(hook) => {
                    let code_ptr = old(self)@.meta.code_ptr;
                    &&& final(self)@.gdb == Some(hook.remove(code_ptr))
                    &&& jit_gdb::is_listed(hook.remove(code_ptr), final(descriptor)@)
                    &&& if hook.contains_key(code_ptr) {
                        &&& output.symbol_file matches Some((removed, writes))
                        &&& removed == hook[code_ptr]
                        &&& final(descriptor)@.order == old(descriptor)@.order.remove_value(
                            hook[code_ptr].entry,
                        )
                        &&& final(descriptor)@.version == old(descriptor)@.version
                        &&& final(descriptor)@.action_flag == entry_list::JIT_UNREGISTER_FN
                        &&& final(descriptor)@.relevant_entry == hook[code_ptr].entry
                        &&& entry_list::symfiles_kept(
                            old(descriptor)@.entries,
                            final(descriptor)@.entries,
                        )
                        &&& entry_list::are_link_writes(
                            writes@,
                            old(descriptor)@.entries,
                            final(descriptor)@.entries,
                        )
                    } else {
                        output.symbol_file is None && final(descriptor)@ == old(descriptor)@
                    }
                },
                None => {
                    &&& final(self)@.gdb is None
                    &&& output.symbol_file is None
                    &&& final(descriptor)@ == old(descriptor)@
                },
            },
    {
        let dump = self.close_dump(timestamp);
        let symbol_file = match self.gdb.take() {
            Some(mut hook) => {
                let removed = hook.on_code_unload(descriptor, &self.meta);
                self.gdb = Some(hook);
                removed
            },
            None => None,
        };
        UnloadOutput { dump, symbol_file }
    }
}

/// A program that was given a directory for dumps has a hook with that
/// directory, where there are dumps; it has one for symbol files where there
/// are symbol files; and debug output is enabled where it has either.
pub proof fn law_new_program_has_its_hooks(
    features: DebugFeatures,
    dump_dir: Option<Vec<u8>>,
    meta: JitCodeMeta,
    enabled: bool,
    debug: JitDebug,
)
    requires
        call_ensures(JitDebug::enabled, (features, dump_dir), enabled),
        call_ensures(JitDebug::new, (features, dump_dir, meta), debug),
    ensures
        enabled <==> features.jit_dump && dump_dir is Some || features.jit_gdb,
        debug@.dump is Some <==> features.jit_dump && dump_dir is Some,
        debug@.dump matches Some(hook) ==> hook.dir == dump_dir.unwrap()@ && hook.writer is None,
        debug@.gdb is Some <==> features.jit_gdb,
        debug@.gdb matches Some(files) ==> files == Map::<u64, JitGdbEntry>::empty(),
        debug@.meta == meta,
{
    law_hooks_follow_features(features, dump_dir, meta);
}

/// A program that is loaded gets a symbol file where it has a hook for them,
/// and a plan of its dump where it has one for dumps and has a named function
/// with machine code.
pub proof fn law_loaded_program_gets_its_output(
    debug: &JitDebug,
    text: &[u8],
    pc_offsets: &[u32],
    output: LoadOutput,
    ranges: Vec<FunctionRange>,
)
    requires
        call_ensures(JitDebug::on_code_load, (debug, text, pc_offsets), output),
        call_ensures(
            function_ranges::build_function_ranges,
            (&debug@.meta, text, pc_offsets),
            ranges,
        ),
    ensures
        output.symbol_file is Some <==> debug@.gdb is Some,
        output.symbol_file matches Some(elf) ==> elf@ == elf_image::elf_image(
            debug@.meta,
            text@,
            pc_offsets@,
        ),
        output.dump is Some <==> debug@.dump is Some && ranges@.len() > 0,
{
    dump_items::lemma_functions_have_ranges(debug@.meta, text@, pc_offsets@, ranges@);
}

} // verus!
