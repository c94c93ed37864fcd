//! Dumps of compiled programs for profilers.

use crate::dump_format;
use crate::dump_items;
use crate::dump_items::{build_load_items, LoadItem};
use crate::dump_opening;
use crate::dump_opening::OpeningView;
use crate::dump_reader;
use crate::dump_session;
use crate::dump_session::SessionView;
use crate::dump_writer;
use crate::dump_writer::{DumpClosing, JitDumpWriter, WriterView};
use crate::function_ranges;
use crate::function_ranges::{build_function_ranges, FunctionRange};
use crate::meta::{JitCodeMeta, JitHostSymbol};
use crate::registry;
use crate::registry::{build_function_registry, build_syscall_loader, FunctionRegistry};
use crate::text;
use crate::text::sanitize_component;
use vstd::prelude::*;

verus! {

/// Writes a dump for each compiled program into a directory.
pub struct JitDumpHook {
    dir: Vec<u8>,
    writer: Option<JitDumpWriter>,
}

/// What a [`JitDumpHook`] knows.
pub struct DumpHookView {
    /// The path of the directory.
    pub dir: Seq<u8>,
    /// The dump of the program that is loaded.
    pub writer: Option<WriterView>,
}

impl View for JitDumpHook {
    type V = DumpHookView;

    closed spec fn view(&self) -> DumpHookView {
        DumpHookView {
            dir: self.dir@,
            writer: match self.writer {
                Some(writer) => Some(writer@),
                None => None,
            },
        }
    }
}

/// What is to be dumped of a program.
pub struct DumpPlan {
    /// What the program goes by in file names.
    pub sanitized_id: String,
    /// What the dump holds.
    pub items: Vec<LoadItem>,
    /// What the disassembly in the source files names functions by.
    pub function_registry: FunctionRegistry<usize>,
    /// What the disassembly in the source files names syscalls by.
    pub loader: FunctionRegistry<()>,
}

/// Whether a plan is for a program that has these function ranges.
pub open spec fn is_dump_plan(
    plan: DumpPlan,
    meta: JitCodeMeta,
    text: Seq<u8>,
    ranges: Seq<FunctionRange>,
) -> bool {
    &&& plan.sanitized_id@ == text::sanitized(meta.id@)
    &&& dump_items::item_views(plan.items@) == dump_items::load_items(
        meta.code_ptr,
        meta.host_symbols@,
        ranges,
        text.len(),
    )
    &&& registry::is_function_registry(plan.function_registry, meta.symbols@)
    &&& registry::is_syscall_loader(plan.loader, meta.syscalls@)
}

/// Whether a plan is that of a program: for its function ranges, with items
/// that can be written one after the other.
pub open spec fn is_plan_of(
    plan: DumpPlan,
    meta: JitCodeMeta,
    text: Seq<u8>,
    pc_offsets: Seq<u32>,
) -> bool {
    &&& exists|ranges: Seq<FunctionRange>|
        {
            &&& #[trigger] function_ranges::is_function_ranges(ranges, meta, text, pc_offsets)
            &&& is_dump_plan(plan, meta, text, ranges)
        }
    &&& dump_items::items_fit(
        dump_items::item_views(plan.items@),
        text.len(),
        pc_offsets.len(),
    )
    &&& dump_items::sources_apart(dump_items::item_views(plan.items@))
}

/// The plan of a program is made from all that is known of it: its whole name,
/// made fit for files, its host ranges and all its function ranges, each at its
/// address above the start of the code, and the registries of its functions
/// and of its syscalls.
pub proof fn law_plan_holds_the_program(
    plan: DumpPlan,
    meta: JitCodeMeta,
    text: Seq<u8>,
    pc_offsets: Seq<u32>,
)
    requires
        is_plan_of(plan, meta, text, pc_offsets),
        dump_items::dump_addressable(meta, text, pc_offsets),
        dump_items::has_functions(meta, text, pc_offsets),
        plan.items@.len() <= usize::MAX,
    ensures
        plan.sanitized_id@ == text::sanitized(meta.id@),
        registry::is_function_registry(plan.function_registry, meta.symbols@),
        registry::is_syscall_loader(plan.loader, meta.syscalls@),
        exists|ranges: Seq<FunctionRange>|
            {
                let hosts = meta.host_symbols@.filter(
                    |host: JitHostSymbol| host.host_start < host.host_end <= text.len(),
                );
                let count = hosts.len() as int;
                &&& #[trigger] function_ranges::is_function_ranges(ranges, meta, text, pc_offsets)
                &&& plan.items@.len() == count + ranges.len()
                &&& forall|k: int|
                    0 <= k < count ==> {
                        &&& (#[trigger] plan.items@[k]).name@ == hosts[k].name@
                        &&& plan.items@[k].code_addr == meta.code_ptr + hosts[k].host_start
                        &&& plan.items@[k].host_start == hosts[k].host_start
                        &&& plan.items@[k].host_end == hosts[k].host_end
                        &&& plan.items@[k].source is None
                    }
                &&& forall|k: int|
                    count <= k < plan.items@.len() ==> {
                        let range = ranges[k - count];
                        &&& (#[trigger] plan.items@[k]).name@ == range.name@
                        &&& plan.items@[k].code_addr == meta.code_ptr + range.host_start
                        &&& plan.items@[k].host_start == range.host_start
                        &&& plan.items@[k].host_end == range.host_end
                        &&& plan.items@[k].source matches Some(source) && source.index == k - count
                            && source.pc_start == range.pc_start && source.pc_end == range.pc_end
                    }
            },
{
    let ranges = choose|ranges: Seq<FunctionRange>|
        {
            &&& #[trigger] function_ranges::is_function_ranges(ranges, meta, text, pc_offsets)
            &&& is_dump_plan(plan, meta, text, ranges)
        };
    dump_items::lemma_functions_have_ranges(meta, text, pc_offsets, ranges);
    dump_items::lemma_ranges_addressable(meta, text, pc_offsets, ranges);
    dump_items::law_dump_holds_every_range(meta, text, pc_offsets, ranges);
    assert(dump_items::item_views(plan.items@).len() == plan.items@.len());
    assert forall|i: int| 0 <= i < ranges.len() implies (#[trigger] ranges[i]).host_start
        < ranges[i].host_end <= text.len() by {
        function_ranges::law_range_reaches_to_the_next_function(
            ranges,
            meta,
            text,
            pc_offsets,
            i,
        );
    }
    dump_items::law_items_are_the_ranges(meta, ranges, text.len(), plan.items@);
    assert(function_ranges::is_function_ranges(ranges, meta, text, pc_offsets));
}

impl JitDumpHook {
    /// A hook for the directory that the environment names, if it names one.
    pub fn from_env(dir: Option<Vec<u8>>) -> (hook: Option<JitDumpHook>)
        ensures
            match dir {
                Some(dir) => hook matches Some(hook) && hook@ == (DumpHookView {
                    dir: dir@,
                    writer: None,
                }),
                None => hook is None,
            },
    {
        match dir {
            Some(dir) => Some(JitDumpHook { dir, writer: None }),
            None => None,
        }
    }

    /// The path of the directory.
    pub fn dir(&self) -> (dir: &[u8])
        ensures
            dir@ == self@.dir,
    {
        self.dir.as_slice()
    }

    /// Plans the dump of a program that was loaded. A program without named
    /// functions that have machine code gets none.
    pub fn on_code_load(&self, meta: &JitCodeMeta, text: &[u8], pc_offsets: &[u32]) -> (plan: Option<
        DumpPlan,
    >)
        requires
            dump_items::dump_addressable(*meta, text@, pc_offsets@),
        ensures
            match plan {
                Some(plan) => {
                    &&& dump_items::has_functions(*meta, text@, pc_offsets@)
                    &&& is_plan_of(plan, *meta, text@, pc_offsets@)
                },
                None => !dump_items::has_functions(*meta, text@, pc_offsets@),
            },
    {
        let functions = build_function_ranges(meta, text, pc_offsets);
        if functions.len() == 0 {
            proof {
                dump_items::lemma_functions_have_ranges(*meta, text@, pc_offsets@, functions@);
            }
            return None;
        }
        proof {
            dump_items::lemma_ranges_addressable(*meta, text@, pc_offsets@, functions@);
            dump_items::law_dump_holds_every_range(*meta, text@, pc_offsets@, functions@);
            dump_items::lemma_functions_have_ranges(*meta, text@, pc_offsets@, functions@);
        }
        let plan = DumpPlan {
            sanitized_id: sanitize_component(meta.id.as_str()),
            items: build_load_items(meta, text.len(), &functions),
            function_registry: build_function_registry(meta),
            loader: build_syscall_loader(meta),
        };
        assert(is_dump_plan(plan, *meta, text@, functions@));
        Some(plan)
    }

    /// Keeps the dump of a program that was loaded, and ends the dump that was
    /// kept before.
    pub fn code_loaded(&mut self, writer: JitDumpWriter, timestamp: u64) -> (replaced: Option<
        DumpClosing,
    >)
        ensures
            final(self)@ == (DumpHookView { writer: Some(writer@), ..old(self)@ }),
            match replaced {
                Some(closing) => old(self)@.writer matches Some(before) && dump_writer::is_closing(
                    closing,
                    before,
                    timestamp,
                ),
                None => old(self)@.writer is None,
            },
    {
        let replaced = self.on_code_unload(timestamp);
        self.writer = Some(writer);
        replaced
    }

    /// The program was unloaded: ends its dump.
    pub fn on_code_unload(&mut self, timestamp: u64) -> (closed: Option<DumpClosing>)
        ensures
            final(self)@ == (DumpHookView { writer: None, ..old(self)@ }),
            match closed {
                Some(closing) => old(self)@.writer matches Some(before) && dump_writer::is_closing(
                    closing,
                    before,
                    timestamp,
                ),
                None => old(self)@.writer is None,
            },
    {
        match self.writer.take() {
            Some(writer) => Some(writer.close(timestamp)),
            None => None,
        }
    }
}

/// A program that is loaded again gets a new dump, and its earlier one ends.
/// The earlier dump file gets one close record, behind everything that was
/// written to it, none of which closes it. Its own files are removed, all of
/// them and no others, and none of them is a file of the new dump.
pub proof fn law_replaced_dump_ends(
    session: SessionView,
    opening: OpeningView,
    header_time: u64,
    before: DumpHookView,
    after: DumpHookView,
    new_opening: OpeningView,
    closing: DumpClosing,
    close_time: u64,
)
    requires
        session.wf(),
        dump_reader::sizes_fit(session.written),
        before.writer == Some(session.writer),
        session.writer.pid == opening.pid,
        session.writer.file_stem == opening.stem(),
        after.writer is Some,
        after.writer.unwrap().wf(),
        after.writer.unwrap().pid == new_opening.pid,
        after.writer.unwrap().file_stem == new_opening.stem(),
        opening.number < new_opening.number < opening.number + 0x1_0000_0000_0000_0000,
        dump_writer::is_closing(closing, before.writer.unwrap(), close_time),
    ensures
        closing.record matches Some(record) && dump_reader::read_records(
            (dump_reader::dump_file(session.writer.pid, header_time, session.written)
                + record@).skip(dump_format::DUMP_HEADER_SIZE as int),
        ) == dump_reader::padded(session.written).push(dump_session::close_record(close_time)),
        forall|i: int|
            0 <= i < session.written.len() ==> (#[trigger] session.written[i]).id
                != dump_format::CODE_CLOSE_ID,
        dump_writer::name_views(closing.file_names@) == session.writer.file_names(),
        forall|i: int, j: int|
            0 <= i < closing.file_names@.len() && 0 <= j
                < after.writer.unwrap().file_names().len() ==> (
            #[trigger] closing.file_names@[i])@ != (
            #[trigger] after.writer.unwrap().file_names()[j]),
{
    dump_session::law_closed_dump_read_back(session, header_time, close_time);
    dump_session::law_session_owns_its_sources(session);
    dump_opening::law_openings_share_no_file(
        opening,
        session.writer,
        new_opening,
        after.writer.unwrap(),
    );
    assert forall|i: int, j: int|
        0 <= i < closing.file_names@.len() && 0 <= j
            < after.writer.unwrap().file_names().len() implies (#[trigger] closing.file_names@[i])@
        != (#[trigger] after.writer.unwrap().file_names()[j]) by {
        assert(dump_writer::name_views(closing.file_names@)[i] == closing.file_names@[i]@);
        assert(session.writer.file_names()[i] == closing.file_names@[i]@);
    }
}

} // verus!
