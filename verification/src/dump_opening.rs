//! How a dump gets a file of its own.

use crate::dump_writer;
use crate::dump_writer::{build_dump_name, JitDumpWriter, WriterView};
use vstd::prelude::*;
use vstd::string::StringExecFns;

verus! {

/// Hands out the generations of dumps. The numbers go up by one and start over
/// behind the largest one.
pub struct DumpGenerations {
    next: u64,
    taken: Ghost<nat>,
}

impl View for DumpGenerations {
    type V = nat;

    /// How many generations were taken.
    closed spec fn view(&self) -> nat {
        self.taken@
    }
}

/// The generation that is taken after `taken` others.
pub open spec fn generation_after(taken: nat) -> u64 {
    (taken % 0x1_0000_0000_0000_0000) as u64
}

/// No generation is taken twice, as long as fewer are taken than there are
/// numbers.
pub proof fn law_no_generation_twice(taken: nat, later: nat)
    requires
        taken < later < taken + 0x1_0000_0000_0000_0000,
    ensures
        generation_after(taken) != generation_after(later),
{
}

/// The generations are counted from zero, one by one, and start over behind the
/// largest number of 64 bits.
pub proof fn law_generations_count_up(taken: nat)
    ensures
        taken < 0x1_0000_0000_0000_0000 ==> generation_after(taken) == taken,
        generation_after(taken) < 0xffff_ffff_ffff_ffff ==> generation_after(taken + 1)
            == generation_after(taken) + 1,
        generation_after(taken) == 0xffff_ffff_ffff_ffff ==> generation_after(taken + 1) == 0,
{
}

/// The file that is tried bears the process, all of what the program goes by
/// and the generation in its name.
pub proof fn law_opening_names_its_dump(opening: OpeningView)
    ensures
        opening.stem() == dump_writer::dump_stem(
            opening.pid,
            opening.id,
            (opening.number % 0x1_0000_0000_0000_0000) as u64,
        ),
{
}

impl DumpGenerations {
    /// What holds of every counter: what comes next depends on how many were
    /// taken.
    pub closed spec fn wf(&self) -> bool {
        self.next == generation_after(self.taken@)
    }

    /// A counter of which nothing was taken.
    pub fn new() -> (generations: Self)
        ensures
            generations.wf(),
            generations@ == 0,
    {
        DumpGenerations { next: 0, taken: Ghost(0) }
    }

    /// Takes the next generation.
    pub fn take(&mut self) -> (generation: u64)
        requires
            old(self).wf(),
        ensures
            final(self).wf(),
            final(self)@ == old(self)@ + 1,
            generation == generation_after(old(self)@),
    {
        let generation = self.next;
        self.next = generation.wrapping_add(1);
        proof {
            self.taken@ = self.taken@ + 1;
        }
        generation
    }
}

/// What came of an attempt to create a dump file that is not there yet.
#[derive(Clone, Copy, Debug, PartialEq, Eq, Structural)]
pub enum CreateOutcome {
    Created,
    AlreadyExists,
    Failed,
}

/// The search for the name of a new dump file.
pub struct DumpOpening {
    pid: u32,
    id: String,
    generation: u64,
    number: Ghost<nat>,
    skipped: Ghost<Seq<nat>>,
}

/// How far a [`DumpOpening`] is.
pub struct OpeningView {
    pub pid: u32,
    /// What the program goes by in file names.
    pub id: Seq<char>,
    /// How many generations were taken before the one that is tried.
    pub number: nat,
    /// The same of the generations that were tried before, whose files were
    /// there already.
    pub skipped: Seq<nat>,
}

impl View for DumpOpening {
    type V = OpeningView;

    closed spec fn view(&self) -> OpeningView {
        OpeningView {
            pid: self.pid,
            id: self.id@,
            number: self.number@,
            skipped: self.skipped@,
        }
    }
}

impl OpeningView {
    /// What the names of the files of the dump start with, if its file can be
    /// created.
    pub open spec fn stem(self) -> Seq<char> {
        dump_writer::dump_stem(self.pid, self.id, generation_after(self.number))
    }
}

/// What to do after an attempt to create a dump file.
pub enum OpenStep {
    /// The file is there: write its header.
    Opened(JitDumpWriter),
    /// The name is taken: try the next one.
    Retry(DumpOpening),
    /// There will be no dump.
    GiveUp,
}

impl DumpOpening {
    /// What holds at every attempt: the generation is the one that was taken,
    /// and those that were skipped were taken before it.
    pub closed spec fn wf(&self) -> bool {
        &&& self.generation == generation_after(self.number@)
        &&& forall|i: int|
            0 <= i < self.skipped@.len() ==> (#[trigger] self.skipped@[i]) < self.number@
    }

    /// Starts with the next generation.
    pub fn new(generations: &mut DumpGenerations, pid: u32, id: &str) -> (opening: Self)
        requires
            old(generations).wf(),
        ensures
            final(generations).wf(),
            final(generations)@ == old(generations)@ + 1,
            opening.wf(),
            opening@ == (OpeningView {
                pid,
                id: id@,
                number: old(generations)@,
                skipped: Seq::empty(),
            }),
    {
        let ghost number = generations@;
        let generation = generations.take();
        DumpOpening {
            pid,
            id: String::from_str(id),
            generation,
            number: Ghost(number),
            skipped: Ghost(Seq::empty()),
        }
    }

    /// The name of the dump file to create.
    pub fn dump_name(&self) -> (name: String)
        requires
            self.wf(),
        ensures
            name@ == dump_writer::dump_file_name(self@.stem()),
    {
        build_dump_name(self.pid, self.id.as_str(), self.generation)
    }

    /// Decides how to go on after an attempt to create the dump file. Only a
    /// name that is taken is worth another attempt, with the next generation.
    pub fn after_create(self, outcome: CreateOutcome, generations: &mut DumpGenerations) -> (step:
        OpenStep)
        requires
            self.wf(),
            old(generations).wf(),
            self@.number < old(generations)@,
        ensures
            final(generations).wf(),
            match outcome {
                CreateOutcome::Created => {
                    &&& step matches OpenStep::Opened(writer)
                    &&& writer@ == (WriterView {
                        open: false,
                        code_index: 0,
                        pid: self@.pid,
                        file_stem: self@.stem(),
                        source_names: Seq::empty(),
                    })
                    &&& writer@.wf()
                    &&& final(generations)@ == old(generations)@
                },
                CreateOutcome::AlreadyExists => {
                    &&& step matches OpenStep::Retry(opening)
                    &&& opening.wf()
                    &&& opening@ == (OpeningView {
                        number: old(generations)@,
                        skipped: self@.skipped.push(self@.number),
                        ..self@
                    })
                    &&& final(generations)@ == old(generations)@ + 1
                },
                CreateOutcome::Failed => {
                    &&& step is GiveUp
                    &&& final(generations)@ == old(generations)@
                },
            },
    {
        match outcome {
            CreateOutcome::Created => OpenStep::Opened(
                JitDumpWriter::new(self.pid, self.id.as_str(), self.generation),
            ),
            CreateOutcome::AlreadyExists => {
                let ghost number = generations@;
                let generation = generations.take();
                OpenStep::Retry(
                    DumpOpening {
                        pid: self.pid,
                        id: self.id,
                        generation,
                        number: Ghost(number),
                        skipped: Ghost(self.skipped@.push(self.number@)),
                    },
                )
            },
            CreateOutcome::Failed => OpenStep::GiveUp,
        }
    }
}

/// The writers that two openings come to have no file in common: whatever the
/// programs, and however many files were there already. That is so of openings
/// in different processes, and of those in one process, which takes fewer
/// generations than there are numbers.
pub proof fn law_openings_share_no_file(
    opening: OpeningView,
    writer: WriterView,
    other_opening: OpeningView,
    other: WriterView,
)
    requires
        opening.pid != other_opening.pid || opening.number < other_opening.number < opening.number
            + 0x1_0000_0000_0000_0000,
        writer.wf(),
        other.wf(),
        writer.pid == opening.pid,
        other.pid == other_opening.pid,
        writer.file_stem == opening.stem(),
        other.file_stem == other_opening.stem(),
    ensures
        forall|i: int, j: int|
            0 <= i < writer.file_names().len() && 0 <= j < other.file_names().len() ==> (
            #[trigger] writer.file_names()[i]) != (#[trigger] other.file_names()[j]),
{
    if opening.pid == other_opening.pid {
        law_no_generation_twice(opening.number, other_opening.number);
    }
    dump_writer::law_dumps_share_no_file(
        writer,
        opening.id,
        generation_after(opening.number),
        other,
        other_opening.id,
        generation_after(other_opening.number),
    );
}

/// The file of a dump is none of those that were there already and skipped on
/// the way to it.
pub proof fn law_skipped_files_are_kept(opening: DumpOpening, i: int)
    requires
        opening.wf(),
        0 <= i < opening@.skipped.len(),
        opening@.number < opening@.skipped[i] + 0x1_0000_0000_0000_0000,
    ensures
        opening@.skipped[i] < opening@.number,
        dump_writer::dump_file_name(opening@.stem()) != dump_writer::dump_file_name(
            (OpeningView { number: opening@.skipped[i], ..opening@ }).stem(),
        ),
{
    law_no_generation_twice(opening@.skipped[i], opening@.number);
    dump_writer::law_names_tell_files_apart(
        opening@.pid,
        opening@.id,
        generation_after(opening@.number),
        0,
        opening@.pid,
        opening@.id,
        generation_after(opening@.skipped[i]),
        0,
    );
}

} // verus!
