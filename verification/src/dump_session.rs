//! The writing of a dump, one step after the other.

use crate::bytes;
use crate::dump_format;
use crate::dump_format::{CODE_CLOSE_ID, CODE_DEBUG_INFO_ID, CODE_LOAD_ID};
use crate::dump_items;
use crate::dump_items::{ItemView, LoadItem, SourceRange};
use crate::dump_reader;
use crate::dump_reader::DumpRecord;
use crate::dump_writer;
use crate::dump_writer::{JitDumpWriter, WriterView};
use crate::source::SourceError;
use vstd::prelude::*;
use vstd::slice::slice_subrange;
use vstd::utf8;

verus! {

/// What is done for the item that it is the turn of.
#[derive(Clone, Copy, Debug, PartialEq, Eq, Structural)]
pub enum DumpPhase {
    /// Nothing yet.
    Next,
    /// Its source file is being written.
    Source,
    /// All but its code load.
    CodeLoad,
}

/// What is to be done next.
pub enum DumpAction {
    /// Append a record to the dump file.
    Write(Vec<u8>),
    /// Create a source file that is not there yet, and write it.
    WriteSource { name: String, range: SourceRange },
    /// Nothing more.
    Finished,
}

/// What came of a source file.
pub enum SourceOutcome {
    /// It was created and written.
    Written,
    /// It could not be written, and perhaps not even created.
    Failed { created: bool },
}

/// What came of a source file: whether it was created, whether its text was
/// written to it, and whether that text is whole. Only a file for which all of
/// this holds is good for debug info.
pub fn source_outcome(created: bool, written: bool, whole: Result<(), SourceError>) -> (outcome:
    SourceOutcome)
    ensures
        if created && written && whole is Ok {
            outcome is Written
        } else {
            outcome matches SourceOutcome::Failed { created: there } && there == created
        },
{
    match whole {
        Ok(()) if created && written => SourceOutcome::Written,
        _ => SourceOutcome::Failed { created },
    }
}

/// What is remembered of the source file of an item.
pub struct SourceLog {
    /// Whether it was created.
    pub created: bool,
    /// The time of the debug info that refers to it, if it was written.
    pub info_time: Option<u64>,
}

/// What is remembered where there is no source file.
pub open spec fn no_source() -> SourceLog {
    SourceLog { created: false, info_time: None }
}

/// What is remembered of an item.
pub struct ItemLog {
    pub source: SourceLog,
    /// The thread and the time of its code load.
    pub tid: u32,
    pub timestamp: u64,
}

/// The record for the lines of an item.
pub open spec fn debug_record(
    item: ItemView,
    pc_offsets: Seq<u32>,
    path: Seq<char>,
    timestamp: u64,
) -> DumpRecord {
    DumpRecord {
        id: CODE_DEBUG_INFO_ID,
        timestamp,
        payload: dump_format::debug_info(
            item.code_addr,
            dump_format::line_entries(
                item.code_addr,
                item.host_start,
                pc_offsets,
                item.source.unwrap().pc_start as int,
                item.source.unwrap().pc_end as int,
            ),
            path,
        ),
    }
}

/// The record for the machine code of an item.
pub open spec fn load_record(
    item: ItemView,
    index: u64,
    pid: u32,
    text: Seq<u8>,
    tid: u32,
    timestamp: u64,
) -> DumpRecord {
    DumpRecord {
        id: CODE_LOAD_ID,
        timestamp,
        payload: dump_format::code_load(
            pid,
            tid,
            item.code_addr,
            index,
            item.name,
            text.subrange(item.host_start as int, item.host_end as int),
        ),
    }
}

/// The path of the source file of an item.
pub open spec fn item_path(item: ItemView, dir: Seq<char>, stem: Seq<char>) -> Seq<char> {
    dump_writer::source_path(dir, stem, item.source.unwrap().index as nat)
}

/// The name of the source file of an item.
pub open spec fn item_source_name(item: ItemView, stem: Seq<char>) -> Seq<char> {
    dump_writer::source_file_name(stem, item.source.unwrap().index as nat)
}

/// What goes into every record of a dump.
pub struct DumpContext {
    pub items: Seq<ItemView>,
    pub text: Seq<u8>,
    pub pc_offsets: Seq<u32>,
    /// The directory of the dump.
    pub dir: Seq<char>,
    pub pid: u32,
    /// What the names of the files of the dump start with.
    pub stem: Seq<char>,
}

impl DumpContext {
    /// The record for the lines of item `k`, which names its source file.
    pub open spec fn info(self, k: int, timestamp: u64) -> DumpRecord {
        debug_record(
            self.items[k],
            self.pc_offsets,
            item_path(self.items[k], self.dir, self.stem),
            timestamp,
        )
    }

    /// The records for the lines of item `k`: one if its source file was
    /// written.
    pub open spec fn infos(self, k: int, source: SourceLog) -> Seq<DumpRecord> {
        match source.info_time {
            Some(timestamp) => seq![self.info(k, timestamp)],
            None => Seq::empty(),
        }
    }

    /// The record for the machine code of item `k`.
    pub open spec fn load(self, k: int, tid: u32, timestamp: u64) -> DumpRecord {
        load_record(self.items[k], k as u64, self.pid, self.text, tid, timestamp)
    }

    /// The records for the first items: for each one its lines, if its source
    /// file was written, and its machine code. The code loads are numbered
    /// from zero.
    pub open spec fn records(self, log: Seq<ItemLog>) -> Seq<DumpRecord>
        decreases log.len(),
    {
        if log.len() == 0 {
            Seq::empty()
        } else {
            let k = log.len() - 1;
            self.records(log.drop_last()) + self.infos(k, log.last().source).push(
                self.load(k, log.last().tid, log.last().timestamp),
            )
        }
    }

    /// The records for the lines of the first items, one for each item whose
    /// source file was written.
    pub open spec fn all_infos(self, sources: Seq<SourceLog>) -> Seq<DumpRecord>
        decreases sources.len(),
    {
        if sources.len() == 0 {
            Seq::empty()
        } else {
            self.all_infos(sources.drop_last()) + self.infos(sources.len() - 1, sources.last())
        }
    }

    /// The names of the source files of the first items that were created.
    pub open spec fn created_names(self, sources: Seq<SourceLog>) -> Seq<Seq<char>>
        decreases sources.len(),
    {
        if sources.len() == 0 {
            Seq::empty()
        } else {
            let before = self.created_names(sources.drop_last());
            if sources.last().created {
                before.push(item_source_name(self.items[sources.len() - 1], self.stem))
            } else {
                before
            }
        }
    }

    /// Whether what is remembered of the source file of item `k` makes sense:
    /// only a function has one, and only one that was created is written.
    pub open spec fn is_source_log(self, k: int, source: SourceLog) -> bool {
        &&& self.items[k].source is None ==> source == no_source()
        &&& source.info_time is Some ==> source.created
    }
}

/// What is remembered of source files.
pub open spec fn source_logs(log: Seq<ItemLog>) -> Seq<SourceLog> {
    log.map_values(|entry: ItemLog| entry.source)
}

/// The writing of a dump for a program.
pub struct DumpSession<'a> {
    items: Vec<LoadItem>,
    text: &'a [u8],
    pc_offsets: &'a [u32],
    dir: String,
    position: usize,
    phase: DumpPhase,
    writer: JitDumpWriter,
    log: Ghost<Seq<ItemLog>>,
    pending: Ghost<SourceLog>,
    written: Ghost<Seq<DumpRecord>>,
}

/// How far a [`DumpSession`] is.
pub struct SessionView {
    pub items: Seq<ItemView>,
    pub text: Seq<u8>,
    pub pc_offsets: Seq<u32>,
    /// The directory of the dump.
    pub dir: Seq<char>,
    /// The item that it is the turn of.
    pub position: int,
    pub phase: DumpPhase,
    pub writer: WriterView,
    /// What is remembered of the items before it.
    pub log: Seq<ItemLog>,
    /// What is remembered of its source file.
    pub pending: SourceLog,
    /// The records that were to be written so far.
    pub written: Seq<DumpRecord>,
}

impl<'a> View for DumpSession<'a> {
    type V = SessionView;

    closed spec fn view(&self) -> SessionView {
        SessionView {
            items: dump_items::item_views(self.items@),
            text: self.text@,
            pc_offsets: self.pc_offsets@,
            dir: self.dir@,
            position: self.position as int,
            phase: self.phase,
            writer: self.writer@,
            log: self.log@,
            pending: self.pending@,
            written: self.written@,
        }
    }
}

impl SessionView {
    /// What goes into every record.
    pub open spec fn context(self) -> DumpContext {
        DumpContext {
            items: self.items,
            text: self.text,
            pc_offsets: self.pc_offsets,
            dir: self.dir,
            pid: self.writer.pid,
            stem: self.writer.file_stem,
        }
    }

    /// What is remembered of the source files, up to the item whose code load
    /// comes next.
    pub open spec fn sources(self) -> Seq<SourceLog> {
        if self.phase == DumpPhase::CodeLoad {
            source_logs(self.log).push(self.pending)
        } else {
            source_logs(self.log)
        }
    }

    /// What holds at every step. The records written are those of the items
    /// that are done, with the lines of the item whose code load comes next.
    /// The source files of the dump are those that were created for it.
    pub open spec fn wf(self) -> bool {
        &&& dump_items::items_fit(self.items, self.text.len(), self.pc_offsets.len())
        &&& 0 <= self.position <= self.items.len()
        &&& self.log.len() == self.position
        &&& self.writer.open
        &&& self.writer.code_index == self.position
        &&& self.phase != DumpPhase::Next ==> self.position < self.items.len()
            && self.items[self.position].source is Some
        &&& self.phase != DumpPhase::CodeLoad ==> self.pending == no_source()
        &&& forall|k: int|
            0 <= k < self.sources().len() ==> self.context().is_source_log(
                k,
                #[trigger] self.sources()[k],
            )
        &&& self.written == self.context().records(self.log) + self.context().infos(
            self.position,
            self.pending,
        )
        &&& self.writer.source_names == self.context().created_names(self.sources())
    }

    /// How many steps are left at most.
    pub open spec fn steps_left(self) -> int {
        3 * (self.items.len() - self.position) - match self.phase {
            DumpPhase::Next => 0int,
            DumpPhase::Source => 1,
            DumpPhase::CodeLoad => 2,
        }
    }

    /// Whether a code load is next.
    pub open spec fn loads_next(self) -> bool {
        ||| self.phase == DumpPhase::CodeLoad
        ||| self.phase == DumpPhase::Next && self.position < self.items.len()
            && self.items[self.position].source is None
    }

    /// The code load of the item that it is the turn of.
    pub open spec fn next_load(self, tid: u32, timestamp: u64) -> DumpRecord {
        self.context().load(self.position, tid, timestamp)
    }
}

/// What is remembered of source files stays in order where a code load is
/// written.
proof fn lemma_sources_after_load(before: SessionView, after: SessionView)
    requires
        before.wf(),
        before.loads_next(),
        after.context() == before.context(),
        after.phase == DumpPhase::Next,
        after.writer.source_names == before.writer.source_names,
        after.log.len() == before.log.len() + 1,
        after.log.drop_last() == before.log,
        after.log.last().source == before.pending,
    ensures
        after.writer.source_names == after.context().created_names(after.sources()),
        forall|k: int|
            0 <= k < after.sources().len() ==> after.context().is_source_log(
                k,
                #[trigger] after.sources()[k],
            ),
{
    assert(after.log =~= before.log.push(after.log.last()));
    let done = source_logs(before.log);
    assert(after.sources() =~= done.push(before.pending));
    if before.phase == DumpPhase::CodeLoad {
        assert(after.sources() =~= before.sources());
    } else {
        assert(after.sources().drop_last() =~= done);
        assert forall|k: int| 0 <= k < after.sources().len() implies after.context().is_source_log(
            k,
            #[trigger] after.sources()[k],
        ) by {
            if k < done.len() {
                assert(before.context().is_source_log(k, before.sources()[k]));
            }
        }
    }
}

/// What is remembered of source files stays in order where a source file is
/// done with.
proof fn lemma_sources_after_source(before: SessionView, after: SessionView)
    requires
        before.wf(),
        before.phase == DumpPhase::Source,
        after.context() == before.context(),
        after.phase == DumpPhase::CodeLoad,
        after.log == before.log,
        after.pending.info_time is Some ==> after.pending.created,
        after.writer.source_names == (if after.pending.created {
            before.writer.source_names.push(
                item_source_name(before.items[before.position], before.writer.file_stem),
            )
        } else {
            before.writer.source_names
        }),
    ensures
        after.writer.source_names == after.context().created_names(after.sources()),
        forall|k: int|
            0 <= k < after.sources().len() ==> after.context().is_source_log(
                k,
                #[trigger] after.sources()[k],
            ),
{
    assert(after.sources().drop_last() =~= before.sources());
    assert forall|k: int| 0 <= k < after.sources().len() implies after.context().is_source_log(
        k,
        #[trigger] after.sources()[k],
    ) by {
        if k < before.sources().len() {
            assert(before.context().is_source_log(k, before.sources()[k]));
        }
    }
}

impl<'a> DumpSession<'a> {
    /// Starts writing items with a new writer, whose files are in `dir`.
    pub fn new(
        items: Vec<LoadItem>,
        text: &'a [u8],
        pc_offsets: &'a [u32],
        dir: String,
        writer: JitDumpWriter,
    ) -> (session: Self)
        requires
            dump_items::items_fit(
                dump_items::item_views(items@),
                text@.len(),
                pc_offsets@.len(),
            ),
            writer@.open,
            writer@.code_index == 0,
            writer@.source_names.len() == 0,
        ensures
            session@ == (SessionView {
                items: dump_items::item_views(items@),
                text: text@,
                pc_offsets: pc_offsets@,
                dir: dir@,
                position: 0,
                phase: DumpPhase::Next,
                writer: writer@,
                log: Seq::empty(),
                pending: no_source(),
                written: Seq::empty(),
            }),
            session@.wf(),
    {
        let session = DumpSession {
            items,
            text,
            pc_offsets,
            dir,
            position: 0,
            phase: DumpPhase::Next,
            writer,
            log: Ghost(Seq::empty()),
            pending: Ghost(no_source()),
            written: Ghost(Seq::empty()),
        };
        assert(session@.written =~= session@.context().records(session@.log)
            + session@.context().infos(0, no_source()));
        assert(session@.writer.source_names =~= session@.context().created_names(
            session@.sources(),
        ));
        session
    }

    /// Says what is to be done next. A code load is numbered by its position,
    /// with the time and the thread given.
    pub fn next(&mut self, tid: u32, timestamp: u64) -> (action: DumpAction)
        requires
            old(self)@.wf(),
            old(self)@.phase != DumpPhase::Source,
        ensures
            final(self)@.wf(),
            action is Finished || 0 <= final(self)@.steps_left() < old(self)@.steps_left(),
            if old(self)@.loads_next() {
                &&& action matches DumpAction::Write(record)
                &&& record@ == dump_format::record(
                    CODE_LOAD_ID,
                    old(self)@.next_load(tid, timestamp).payload,
                    timestamp,
                )
                &&& final(self)@ == (SessionView {
                    position: old(self)@.position + 1,
                    phase: DumpPhase::Next,
                    writer: (WriterView {
                        code_index: (old(self)@.position + 1) as u64,
                        ..old(self)@.writer
                    }),
                    log: old(self)@.log.push(
                        (ItemLog { source: old(self)@.pending, tid, timestamp }),
                    ),
                    pending: no_source(),
                    written: old(self)@.written.push(old(self)@.next_load(tid, timestamp)),
                    ..old(self)@
                })
            } else if old(self)@.position < old(self)@.items.len() {
                &&& action matches DumpAction::WriteSource { name, range }
                &&& Some(range) == old(self)@.items[old(self)@.position].source
                &&& name@ == dump_writer::source_file_name(
                    old(self)@.writer.file_stem,
                    range.index as nat,
                )
                &&& final(self)@ == (SessionView { phase: DumpPhase::Source, ..old(self)@ })
            } else {
                &&& action is Finished
                &&& final(self)@ == old(self)@
            },
    {
        let ghost before = self@;
        if self.position >= self.items.len() {
            return DumpAction::Finished;
        }
        let item = &self.items[self.position];
        assert(item@ == before.items[before.position]);
        if self.phase == DumpPhase::Next {
            if let Some(range) = item.source {
                let name = self.writer.source_name(range.index);
                self.phase = DumpPhase::Source;
                return DumpAction::WriteSource { name, range };
            }
        }
        let text_len: usize = self.text.len();
        assert(dump_items::is_code(item.host_start, item.host_end, text_len as nat));
        let code = slice_subrange(self.text, item.host_start as usize, item.host_end as usize);
        let record = self.writer.write_code_load(
            item.name.as_str(),
            item.code_addr,
            code,
            tid,
            timestamp,
        );
        self.position = self.position + 1;
        self.phase = DumpPhase::Next;
        proof {
            let entry = ItemLog { source: before.pending, tid, timestamp };
            self.log@ = before.log.push(entry);
            self.pending@ = no_source();
            self.written@ = before.written.push(before.next_load(tid, timestamp));
            assert(self@.log.drop_last() =~= before.log);
            assert(code@ == before.text.subrange(item.host_start as int, item.host_end as int));
            assert(self@.context() == before.context());
            assert(self@.written =~= self@.context().records(self@.log) + self@.context().infos(
                self@.position,
                no_source(),
            ));
            lemma_sources_after_load(before, self@);
        }
        DumpAction::Write(record)
    }

    /// Takes note of what came of the source file that was asked for. A file
    /// that was created belongs to the dump. One that was written is referred
    /// to by a debug info record, which names its path and is then to be
    /// written.
    pub fn source_done(&mut self, outcome: SourceOutcome, timestamp: u64) -> (record: Option<
        Vec<u8>,
    >)
        requires
            old(self)@.wf(),
            old(self)@.phase == DumpPhase::Source,
        ensures
            final(self)@.wf(),
            0 <= final(self)@.steps_left() < old(self)@.steps_left(),
            ({
                let item = old(self)@.items[old(self)@.position];
                let name = dump_writer::source_file_name(
                    old(self)@.writer.file_stem,
                    item.source.unwrap().index as nat,
                );
                let owned = WriterView {
                    source_names: old(self)@.writer.source_names.push(name),
                    ..old(self)@.writer
                };
                match outcome {
                    SourceOutcome::Written => {
                        let info = debug_record(
                            item,
                            old(self)@.pc_offsets,
                            dump_writer::source_path(
                                old(self)@.dir,
                                old(self)@.writer.file_stem,
                                item.source.unwrap().index as nat,
                            ),
                            timestamp,
                        );
                        &&& record matches Some(bytes)
                        &&& bytes@ == dump_format::record(info.id, info.payload, timestamp)
                        &&& final(self)@ == (SessionView {
                            phase: DumpPhase::CodeLoad,
                            writer: owned,
                            pending: (SourceLog { created: true, info_time: Some(timestamp) }),
                            written: old(self)@.written.push(info),
                            ..old(self)@
                        })
                    },
                    SourceOutcome::Failed { created } => {
                        &&& record is None
                        &&& final(self)@ == (SessionView {
                            phase: DumpPhase::CodeLoad,
                            writer: if created {
                                owned
                            } else {
                                old(self)@.writer
                            },
                            pending: (SourceLog { created, info_time: None }),
                            ..old(self)@
                        })
                    },
                }
            }),
    {
        let ghost before = self@;
        let item = &self.items[self.position];
        assert(item@ == before.items[before.position]);
        let code_addr = item.code_addr;
        let host_start = item.host_start;
        let range = item.source.unwrap();
        self.phase = DumpPhase::CodeLoad;
        match outcome {
            SourceOutcome::Written => {
                self.writer.source_created(range.index);
                let path = self.writer.source_path(self.dir.as_str(), range.index);
                let record = self.writer.write_debug_info_range(
                    code_addr,
                    host_start,
                    path.as_str(),
                    range.pc_start,
                    range.pc_end,
                    self.pc_offsets,
                    timestamp,
                );
                proof {
                    let info = before.context().info(before.position, timestamp);
                    self.pending@ = SourceLog { created: true, info_time: Some(timestamp) };
                    self.written@ = before.written.push(info);
                    assert(self@.context() == before.context());
                    assert(self@.written =~= self@.context().records(self@.log)
                        + self@.context().infos(self@.position, self@.pending));
                    lemma_sources_after_source(before, self@);
                }
                Some(record)
            },
            SourceOutcome::Failed { created } => {
                if created {
                    self.writer.source_created(range.index);
                }
                proof {
                    self.pending@ = SourceLog { created, info_time: None };
                    assert(self@.context() == before.context());
                    assert(self@.written =~= self@.context().records(self@.log)
                        + self@.context().infos(self@.position, self@.pending));
                    lemma_sources_after_source(before, self@);
                }
                None
            },
        }
    }

    /// Hands the writer over once everything is written.
    pub fn finish(self) -> (writer: JitDumpWriter)
        ensures
            writer@ == self@.writer,
    {
        self.writer
    }
}

/// The records of one kind, in order.
pub open spec fn records_with_id(records: Seq<DumpRecord>, id: u32) -> Seq<DumpRecord>
    decreases records.len(),
{
    if records.len() == 0 {
        Seq::empty()
    } else {
        let before = records_with_id(records.drop_last(), id);
        if records.last().id == id {
            before.push(records.last())
        } else {
            before
        }
    }
}

/// The records of one kind in two sequences.
proof fn lemma_records_with_id_add(a: Seq<DumpRecord>, b: Seq<DumpRecord>, id: u32)
    ensures
        records_with_id(a + b, id) == records_with_id(a, id) + records_with_id(b, id),
    decreases b.len(),
{
    if b.len() == 0 {
        assert(a + b =~= a);
        assert(records_with_id(a, id) + records_with_id(b, id) =~= records_with_id(a, id));
    } else {
        assert((a + b).drop_last() =~= a + b.drop_last());
        lemma_records_with_id_add(a, b.drop_last(), id);
        assert(records_with_id(a + b, id) =~= records_with_id(a, id) + records_with_id(b, id));
    }
}

/// The records for the lines of an item are of one kind.
proof fn lemma_kind_of_infos(context: DumpContext, k: int, source: SourceLog)
    ensures
        records_with_id(context.infos(k, source), CODE_LOAD_ID) == Seq::<DumpRecord>::empty(),
        records_with_id(context.infos(k, source), CODE_DEBUG_INFO_ID) == context.infos(k, source),
{
    let infos = context.infos(k, source);
    assert(records_with_id(Seq::empty(), CODE_LOAD_ID) =~= Seq::<DumpRecord>::empty());
    assert(records_with_id(Seq::empty(), CODE_DEBUG_INFO_ID) =~= Seq::<DumpRecord>::empty());
    if infos.len() > 0 {
        assert(infos.drop_last() =~= Seq::<DumpRecord>::empty());
        assert(records_with_id(infos, CODE_DEBUG_INFO_ID) =~= infos);
    }
}

/// What is written for the first items has one code load for each of them, and
/// the lines of those whose source files were written, both in order, and
/// nothing else.
proof fn lemma_kinds_of_records(context: DumpContext, log: Seq<ItemLog>)
    ensures
        records_with_id(context.records(log), CODE_LOAD_ID) == Seq::new(
            log.len(),
            |k: int| context.load(k, log[k].tid, log[k].timestamp),
        ),
        records_with_id(context.records(log), CODE_DEBUG_INFO_ID) == context.all_infos(
            source_logs(log),
        ),
        forall|i: int|
            0 <= i < context.records(log).len() ==> (#[trigger] context.records(log)[i]).id
                == CODE_LOAD_ID || context.records(log)[i].id == CODE_DEBUG_INFO_ID,
    decreases log.len(),
{
    let all = context.records(log);
    let loads = Seq::new(log.len(), |k: int| context.load(k, log[k].tid, log[k].timestamp));
    if log.len() == 0 {
        assert(records_with_id(all, CODE_LOAD_ID) =~= loads);
        assert(source_logs(log) =~= Seq::<SourceLog>::empty());
    } else {
        let k = log.len() - 1;
        let before = context.records(log.drop_last());
        let infos = context.infos(k, log.last().source);
        let load = context.load(k, log.last().tid, log.last().timestamp);
        let both = infos.push(load);
        lemma_kinds_of_records(context, log.drop_last());
        lemma_records_with_id_add(before, both, CODE_LOAD_ID);
        lemma_records_with_id_add(before, both, CODE_DEBUG_INFO_ID);
        assert(both.drop_last() =~= infos);
        lemma_kind_of_infos(context, k, log.last().source);
        assert(records_with_id(all, CODE_LOAD_ID) =~= loads);
        assert(source_logs(log).drop_last() =~= source_logs(log.drop_last()));
    }
}

/// The code loads written are those of the items that are done: one for each,
/// in their order, numbered from zero.
pub proof fn law_items_are_loaded_once(session: SessionView)
    requires
        session.wf(),
    ensures
        records_with_id(session.written, CODE_LOAD_ID) == Seq::new(
            session.position as nat,
            |k: int|
                session.context().load(k, session.log[k].tid, session.log[k].timestamp),
        ),
{
    let context = session.context();
    let done = context.records(session.log);
    let pending = context.infos(session.position, session.pending);
    lemma_kinds_of_records(context, session.log);
    lemma_records_with_id_add(done, pending, CODE_LOAD_ID);
    lemma_kind_of_infos(context, session.position, session.pending);
    assert(records_with_id(session.written, CODE_LOAD_ID) =~= records_with_id(done, CODE_LOAD_ID));
}

/// A record of one kind is among the records of that kind.
proof fn lemma_is_among_its_kind(records: Seq<DumpRecord>, i: int)
    requires
        0 <= i < records.len(),
    ensures
        records_with_id(records, records[i].id).contains(records[i]),
    decreases records.len(),
{
    let id = records[i].id;
    let fewer = records.drop_last();
    let before = records_with_id(fewer, id);
    let all = records_with_id(records, id);
    if i < fewer.len() {
        lemma_is_among_its_kind(fewer, i);
        assert(all[before.index_of(records[i])] == records[i]);
    } else {
        assert(all[before.len() as int] == records[i]);
    }
}

/// The debug infos of the first items are those of the items whose source
/// files were written.
proof fn lemma_all_infos(context: DumpContext, sources: Seq<SourceLog>, record: DumpRecord)
    requires
        context.all_infos(sources).contains(record),
    ensures
        exists|k: int|
            0 <= k < sources.len() && (#[trigger] sources[k]).info_time is Some && record
                == context.info(k, sources[k].info_time.unwrap()),
    decreases sources.len(),
{
    let all = context.all_infos(sources);
    if sources.len() > 0 {
        let fewer = sources.drop_last();
        let before = context.all_infos(fewer);
        let last = sources.len() - 1;
        let i = all.index_of(record);
        if i < before.len() {
            assert(before[i] == record);
            lemma_all_infos(context, fewer, record);
            let k = choose|k: int|
                0 <= k < fewer.len() && (#[trigger] fewer[k]).info_time is Some && record
                    == context.info(k, fewer[k].info_time.unwrap());
            assert(sources[k].info_time is Some);
        } else {
            assert(sources[last].info_time is Some);
        }
    }
}

/// The debug infos written are exactly those of the functions whose source
/// files were written: one for each, in their order, each with the path of its
/// own source file. Apart from them there are only code loads.
pub proof fn law_debug_infos_are_of_written_sources(session: SessionView)
    requires
        session.wf(),
    ensures
        records_with_id(session.written, CODE_DEBUG_INFO_ID) == session.context().all_infos(
            session.sources(),
        ),
        forall|k: int|
            0 <= k < session.sources().len() && (#[trigger] session.sources()[k]).info_time is Some
                ==> session.items[k].source is Some && session.sources()[k].created,
        forall|i: int|
            0 <= i < session.written.len() ==> (#[trigger] session.written[i]).id == CODE_LOAD_ID
                || session.written[i].id == CODE_DEBUG_INFO_ID,
        forall|i: int|
            0 <= i < session.written.len() && (#[trigger] session.written[i]).id
                == CODE_DEBUG_INFO_ID ==> exists|k: int|
                0 <= k < session.sources().len() && (
                #[trigger] session.sources()[k]).info_time is Some && session.written[i]
                    == session.context().info(k, session.sources()[k].info_time.unwrap()),
{
    let context = session.context();
    let done = context.records(session.log);
    let pending = context.infos(session.position, session.pending);
    lemma_kinds_of_records(context, session.log);
    lemma_records_with_id_add(done, pending, CODE_DEBUG_INFO_ID);
    lemma_kind_of_infos(context, session.position, session.pending);
    if session.phase == DumpPhase::CodeLoad {
        assert(session.sources().drop_last() =~= source_logs(session.log));
    } else {
        assert(done + pending =~= done);
    }
    assert forall|k: int|
        0 <= k < session.sources().len() && (
        #[trigger] session.sources()[k]).info_time is Some implies session.items[k].source is Some
        && session.sources()[k].created by {
        assert(context.is_source_log(k, session.sources()[k]));
    }
    assert forall|i: int|
        0 <= i < session.written.len() && (#[trigger] session.written[i]).id
            == CODE_DEBUG_INFO_ID implies exists|k: int|
        0 <= k < session.sources().len() && (#[trigger] session.sources()[k]).info_time is Some
            && session.written[i] == context.info(
            k,
            session.sources()[k].info_time.unwrap(),
        ) by {
        lemma_is_among_its_kind(session.written, i);
        lemma_all_infos(context, session.sources(), session.written[i]);
    }
}

/// The records of one kind are those that have its number.
proof fn lemma_records_with_id_is_filter(records: Seq<DumpRecord>, id: u32)
    ensures
        records_with_id(records, id) == records.filter(|record: DumpRecord| record.id == id),
    decreases records.len(),
{
    reveal(Seq::filter);
    let wanted = |record: DumpRecord| record.id == id;
    if records.len() > 0 {
        lemma_records_with_id_is_filter(records.drop_last(), id);
        assert(records_with_id(records, id) =~= records.filter(wanted));
    } else {
        assert(records_with_id(records, id) =~= records.filter(wanted));
    }
}

/// A reader of the dump finds one record of number zero for each item that is
/// done, in their order. It states the process, the thread, the address and the
/// place of the item, the whole of its name, and all of its machine code.
pub proof fn law_code_loads_hold_the_items(session: SessionView, k: int)
    requires
        session.wf(),
        0 <= k < session.position,
    ensures
        ({
            let loads = session.written.filter(|record: DumpRecord| record.id == 0);
            let item = session.items[k];
            let data = loads[k].payload;
            let end = 40 + utf8::encode_utf8(item.name).len() as int;
            &&& loads.len() == session.position
            &&& loads[k].timestamp == session.log[k].timestamp
            &&& bytes::field(data, 0, 4) == session.writer.pid
            &&& bytes::field(data, 4, 4) == session.log[k].tid
            &&& bytes::field(data, 8, 8) == item.code_addr
            &&& bytes::field(data, 16, 8) == item.code_addr
            &&& bytes::field(data, 24, 8) == item.host_end - item.host_start
            &&& bytes::field(data, 32, 8) == k
            &&& data.subrange(40, end) == utf8::encode_utf8(item.name)
            &&& data[end] == 0
            &&& data.skip(end + 1) == session.text.subrange(
                item.host_start as int,
                item.host_end as int,
            )
        }),
{
    law_items_are_loaded_once(session);
    lemma_records_with_id_is_filter(session.written, 0);
    let item = session.items[k];
    let log = session.log[k];
    assert(dump_items::is_code(item.host_start, item.host_end, session.text.len()));
    dump_reader::law_code_load_holds_every_byte(
        session.writer.pid,
        log.tid,
        item.code_addr,
        k as u64,
        item.name,
        session.text.subrange(item.host_start as int, item.host_end as int),
    );
}

/// Every record of number two is that of the lines of one function whose
/// source file was created and written. It states the address of the function,
/// the lines of its program counters and the path of its own source file. The
/// code load of the function comes right behind it, unless it is still to be
/// written. The records have no other numbers than zero and two.
pub proof fn law_debug_infos_hold_the_lines(session: SessionView, i: int)
    requires
        session.wf(),
        0 <= i < session.written.len(),
    ensures
        session.written[i].id == 0 || session.written[i].id == 2,
        session.written[i].id == 2 ==> exists|k: int|
            {
                let item = session.items[k];
                let range = item.source.unwrap();
                let lines = dump_format::line_entries(
                    item.code_addr,
                    item.host_start,
                    session.pc_offsets,
                    range.pc_start as int,
                    range.pc_end as int,
                );
                let path = dump_writer::source_path(
                    session.dir,
                    session.writer.file_stem,
                    range.index as nat,
                );
                &&& 0 <= k < session.sources().len()
                &&& item.source is Some
                &&& (#[trigger] session.sources()[k]).created
                &&& session.sources()[k].info_time == Some(session.written[i].timestamp)
                &&& session.written[i].payload == dump_format::debug_info(
                    item.code_addr,
                    lines,
                    path,
                )
                &&& i + 1 == session.written.len() ==> k == session.position
                &&& i + 1 < session.written.len() ==> session.written[i + 1].id == 0
                    && session.written[i + 1].payload == dump_format::code_load(
                    session.writer.pid,
                    session.log[k].tid,
                    item.code_addr,
                    k as u64,
                    item.name,
                    session.text.subrange(item.host_start as int, item.host_end as int),
                )
            },
{
    let context = session.context();
    let done = context.records(session.log);
    let pending = context.infos(session.position, session.pending);
    let sources = session.sources();
    law_debug_infos_are_of_written_sources(session);
    if session.written[i].id == 2 {
        if i < done.len() {
            lemma_info_precedes_load(context, session.log, i);
            let k = choose|k: int|
                {
                    &&& 0 <= k < session.log.len()
                    &&& (#[trigger] session.log[k]).source.info_time is Some
                    &&& done[i] == context.info(k, session.log[k].source.info_time.unwrap())
                    &&& i + 1 < done.len()
                    &&& done[i + 1] == context.load(k, session.log[k].tid, session.log[k].timestamp)
                };
            assert(sources[k] == session.log[k].source);
            assert(context.is_source_log(k, sources[k]));
            assert(session.written[i] == done[i] && session.written[i + 1] == done[i + 1]);
            assert(sources[k].created);
        } else {
            let k = session.position;
            assert(session.written[i] == pending[i - done.len()]);
            assert(pending.len() == 1);
            assert(session.phase == DumpPhase::CodeLoad);
            assert(sources[k] == session.pending);
            assert(context.is_source_log(k, sources[k]));
            assert(sources[k].created);
        }
    }
}

/// The lines of an item are written right before its code load.
proof fn lemma_info_precedes_load(context: DumpContext, log: Seq<ItemLog>, i: int)
    requires
        0 <= i < context.records(log).len(),
        context.records(log)[i].id == CODE_DEBUG_INFO_ID,
    ensures
        exists|k: int|
            {
                &&& 0 <= k < log.len()
                &&& (#[trigger] log[k]).source.info_time is Some
                &&& context.records(log)[i] == context.info(k, log[k].source.info_time.unwrap())
                &&& i + 1 < context.records(log).len()
                &&& context.records(log)[i + 1] == context.load(k, log[k].tid, log[k].timestamp)
            },
    decreases log.len(),
{
    let all = context.records(log);
    let fewer = log.drop_last();
    let before = context.records(fewer);
    let last = log.len() - 1;
    if i < before.len() {
        assert(all[i] == before[i]);
        lemma_info_precedes_load(context, fewer, i);
        let k = choose|k: int|
            {
                &&& 0 <= k < fewer.len()
                &&& (#[trigger] fewer[k]).source.info_time is Some
                &&& before[i] == context.info(k, fewer[k].source.info_time.unwrap())
                &&& i + 1 < before.len()
                &&& before[i + 1] == context.load(k, fewer[k].tid, fewer[k].timestamp)
            };
        assert(log[k] == fewer[k]);
        assert(all[i + 1] == before[i + 1]);
        assert(log[k].source.info_time is Some);
    } else {
        let infos = context.infos(last, log.last().source);
        let both = infos.push(context.load(last, log.last().tid, log.last().timestamp));
        assert(all[i] == both[i - before.len()]);
        assert(infos.len() == 1 && i == before.len());
        assert(all[i + 1] == both[1]);
        assert(log[last].source.info_time is Some);
    }
}

/// Every function whose source file was written has its lines in the dump,
/// under the path of that file.
pub proof fn law_written_sources_have_lines(session: SessionView, k: int)
    requires
        session.wf(),
        0 <= k < session.sources().len(),
        session.sources()[k].info_time is Some,
    ensures
        ({
            let item = session.items[k];
            let range = item.source.unwrap();
            let lines = dump_format::line_entries(
                item.code_addr,
                item.host_start,
                session.pc_offsets,
                range.pc_start as int,
                range.pc_end as int,
            );
            let path = dump_writer::source_path(
                session.dir,
                session.writer.file_stem,
                range.index as nat,
            );
            &&& item.source is Some
            &&& session.written.contains(
                DumpRecord {
                    id: 2,
                    timestamp: session.sources()[k].info_time.unwrap(),
                    payload: dump_format::debug_info(item.code_addr, lines, path),
                },
            )
        }),
{
    let context = session.context();
    let sources = session.sources();
    let record = context.info(k, sources[k].info_time.unwrap());
    let infos = records_with_id(session.written, CODE_DEBUG_INFO_ID);
    law_debug_infos_are_of_written_sources(session);
    lemma_info_is_there(context, sources, k);
    assert(infos.contains(record));
    lemma_kind_is_among_all(session.written, CODE_DEBUG_INFO_ID, record);
}

proof fn lemma_info_is_there(context: DumpContext, sources: Seq<SourceLog>, k: int)
    requires
        0 <= k < sources.len(),
        sources[k].info_time is Some,
    ensures
        context.all_infos(sources).contains(context.info(k, sources[k].info_time.unwrap())),
    decreases sources.len(),
{
    let fewer = sources.drop_last();
    let before = context.all_infos(fewer);
    let all = context.all_infos(sources);
    let record = context.info(k, sources[k].info_time.unwrap());
    if k < fewer.len() {
        lemma_info_is_there(context, fewer, k);
        assert(all[before.index_of(record)] == record);
    } else {
        assert(all[before.len() as int] == record);
    }
}

proof fn lemma_kind_is_among_all(records: Seq<DumpRecord>, id: u32, record: DumpRecord)
    requires
        records_with_id(records, id).contains(record),
    ensures
        records.contains(record),
    decreases records.len(),
{
    let fewer = records.drop_last();
    let before = records_with_id(fewer, id);
    let all = records_with_id(records, id);
    let i = all.index_of(record);
    if i < before.len() {
        assert(before[i] == record);
        lemma_kind_is_among_all(fewer, id, record);
        assert(records[fewer.index_of(record)] == record);
    } else {
        assert(records[records.len() - 1] == record);
    }
}

/// The names of created source files are names of source files of the dump,
/// and each is that of an item whose source file was created.
proof fn lemma_created_names(context: DumpContext, sources: Seq<SourceLog>)
    requires
        sources.len() <= context.items.len(),
    ensures
        forall|name: Seq<char>| #[trigger]
            context.created_names(sources).contains(name) <==> exists|k: int|
                0 <= k < sources.len() && (#[trigger] sources[k]).created && name
                    == item_source_name(context.items[k], context.stem),
    decreases sources.len(),
{
    let names = context.created_names(sources);
    if sources.len() > 0 {
        let fewer = sources.drop_last();
        let before = context.created_names(fewer);
        let last = sources.len() - 1;
        lemma_created_names(context, fewer);
        assert forall|name: Seq<char>| #[trigger] names.contains(name) <==> exists|k: int|
            0 <= k < sources.len() && (#[trigger] sources[k]).created && name == item_source_name(
                context.items[k],
                context.stem,
            ) by {
            if names.contains(name) {
                let i = names.index_of(name);
                if i < before.len() {
                    assert(before[i] == name);
                    assert(before.contains(name));
                    let k = choose|k: int|
                        0 <= k < fewer.len() && (#[trigger] fewer[k]).created && name
                            == item_source_name(context.items[k], context.stem);
                    assert(sources[k].created);
                } else {
                    assert(sources[last].created);
                }
            }
            if exists|k: int|
                0 <= k < sources.len() && (#[trigger] sources[k]).created && name
                    == item_source_name(context.items[k], context.stem) {
                let k = choose|k: int|
                    0 <= k < sources.len() && (#[trigger] sources[k]).created && name
                        == item_source_name(context.items[k], context.stem);
                if k < last {
                    assert(fewer[k].created);
                    assert(before.contains(name));
                    assert(names[before.index_of(name)] == name);
                } else {
                    assert(names[before.len() as int] == name);
                }
            }
        }
    }
}

/// The source files that belong to a dump bear its names.
pub proof fn law_session_owns_its_sources(session: SessionView)
    requires
        session.wf(),
    ensures
        session.writer.wf(),
{
    let context = session.context();
    let stem = session.writer.file_stem;
    let sources = session.sources();
    let names = session.writer.source_names;
    lemma_created_names(context, sources);
    assert forall|i: int| 0 <= i < names.len() implies dump_writer::is_source_name(
        stem,
        #[trigger] names[i],
    ) by {
        assert(names.contains(names[i]));
        let j = choose|j: int|
            0 <= j < sources.len() && (#[trigger] sources[j]).created && names[i]
                == item_source_name(context.items[j], context.stem);
        assert(names[i] == dump_writer::source_file_name(
            stem,
            session.items[j].source.unwrap().index as nat,
        ));
    }
}

/// The files of a dump are those that were created for it: a source file
/// belongs to it if and only if it was created for one of its items, and a
/// file that was there already is neither named by a debug info nor among the
/// files that the dump removes. Each debug info names another file.
pub proof fn law_debug_infos_name_created_files(session: SessionView, k: int)
    requires
        session.wf(),
        dump_items::sources_apart(session.items),
        0 <= k < session.sources().len(),
        session.items[k].source is Some,
    ensures
        session.writer.wf(),
        session.writer.file_names().contains(
            item_source_name(session.items[k], session.writer.file_stem),
        ) <==> session.sources()[k].created,
        session.sources()[k].info_time is Some ==> session.sources()[k].created,
        forall|j: int|
            0 <= j < session.sources().len() && j != k && (
            #[trigger] session.sources()[j]).info_time is Some ==> item_path(
                session.items[j],
                session.dir,
                session.writer.file_stem,
            ) != item_path(session.items[k], session.dir, session.writer.file_stem),
{
    let context = session.context();
    let stem = session.writer.file_stem;
    let sources = session.sources();
    let names = session.writer.source_names;
    let name = item_source_name(session.items[k], stem);
    let files = session.writer.file_names();
    lemma_created_names(context, sources);
    assert(context.is_source_log(k, sources[k]));
    law_session_owns_its_sources(session);
    dump_writer::lemma_dump_name_is_no_source_name(
        stem,
        session.items[k].source.unwrap().index as nat,
    );
    if files.contains(name) {
        let i = files.index_of(name);
        assert(i > 0);
        assert(names[i - 1] == name);
        assert(names.contains(name));
        let j = choose|j: int|
            0 <= j < sources.len() && (#[trigger] sources[j]).created && name == item_source_name(
                context.items[j],
                context.stem,
            );
        assert(context.is_source_log(j, sources[j]));
        dump_writer::law_source_paths_are_apart(
            session.dir,
            stem,
            session.items[k].source.unwrap().index as nat,
            session.items[j].source.unwrap().index as nat,
        );
        assert(j == k);
    }
    if sources[k].created {
        assert(names.contains(name));
        assert(files[names.index_of(name) + 1] == name);
    }
    assert forall|j: int|
        0 <= j < sources.len() && j != k && (#[trigger] sources[j]).info_time is Some implies item_path(
        session.items[j],
        session.dir,
        stem,
    ) != item_path(session.items[k], session.dir, stem) by {
        assert(context.is_source_log(j, sources[j]));
        dump_writer::law_source_paths_are_apart(
            session.dir,
            stem,
            session.items[j].source.unwrap().index as nat,
            session.items[k].source.unwrap().index as nat,
        );
    }
}

/// The record that ends a dump.
pub open spec fn close_record(timestamp: u64) -> DumpRecord {
    DumpRecord { id: CODE_CLOSE_ID, timestamp, payload: Seq::empty() }
}

/// A dump that is closed ends with one close record, behind the bytes that
/// were there. What is read before it is what was written, none of which
/// closes the dump.
pub proof fn law_closed_dump_read_back(
    session: SessionView,
    header_time: u64,
    close_time: u64,
)
    requires
        session.wf(),
        dump_reader::sizes_fit(session.written),
    ensures
        dump_reader::read_records(
            (dump_reader::dump_file(session.writer.pid, header_time, session.written)
                + dump_format::record(CODE_CLOSE_ID, Seq::empty(), close_time)).skip(
                dump_format::DUMP_HEADER_SIZE as int,
            ),
        ) == dump_reader::padded(session.written).push(close_record(close_time)),
        forall|i: int|
            0 <= i < session.written.len() ==> (#[trigger] session.written[i]).id
                != CODE_CLOSE_ID,
{
    let pid = session.writer.pid;
    dump_reader::lemma_close_read_back(pid, header_time, session.written, close_record(close_time));
    law_debug_infos_are_of_written_sources(session);
}

/// Only a source file that was created, written and is whole counts as written;
/// of another one it is kept whether it was created.
pub proof fn law_only_whole_files_count(
    created: bool,
    written: bool,
    whole: Result<(), SourceError>,
    outcome: SourceOutcome,
)
    requires
        call_ensures(source_outcome, (created, written, whole), outcome),
    ensures
        outcome is Written <==> created && written && whole is Ok,
        outcome matches SourceOutcome::Failed { created: there } ==> there == created,
{
}

} // verus!
