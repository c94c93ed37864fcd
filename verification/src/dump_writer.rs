//! What is written to one dump, and the files that belong to it.

use crate::bytes;
use crate::dump_format;
use crate::dump_format::{
    build_code_load, build_debug_info, build_line_entries, write_record, CODE_CLOSE_ID,
    CODE_DEBUG_INFO_ID, CODE_LOAD_ID,
};
use crate::dump_reader;
use crate::text;
use crate::text::push_decimal;
use vstd::prelude::*;
use vstd::string::{StrSliceExecFns, StringExecFns};

verus! {

/// What the names of the files of a dump start with.
pub open spec fn dump_stem(pid: u32, id: Seq<char>, generation: u64) -> Seq<char> {
    "jit-"@ + text::decimal(pid as nat) + "-"@ + id + "-"@ + text::decimal(generation as nat)
}

/// The name of the dump file.
pub open spec fn dump_file_name(stem: Seq<char>) -> Seq<char> {
    stem + ".dump"@
}

/// The name of a source file.
pub open spec fn source_file_name(stem: Seq<char>, index: nat) -> Seq<char> {
    stem + "-"@ + text::decimal(index) + ".sbpf"@
}

/// What stands before the name of a file in a directory: the directory and,
/// unless it ends in one, a slash.
pub open spec fn dir_prefix(dir: Seq<char>) -> Seq<char> {
    if dir.len() == 0 || dir.last() == '/' {
        dir
    } else {
        dir.push('/')
    }
}

/// The path of a source file in a directory.
pub open spec fn source_path(dir: Seq<char>, stem: Seq<char>, index: nat) -> Seq<char> {
    dir_prefix(dir) + source_file_name(stem, index)
}

/// What follows the last slash of a path.
pub open spec fn file_name(path: Seq<char>) -> Seq<char>
    decreases path.len(),
{
    if path.len() == 0 || path.last() == '/' {
        Seq::empty()
    } else {
        file_name(path.drop_last()).push(path.last())
    }
}

/// Whether a character occurs in the names of the files of a dump.
pub open spec fn is_file_name_char(ch: char) -> bool {
    text::is_plain(ch) || ch == '.'
}

/// A dump that is being written.
pub struct JitDumpWriter {
    open: bool,
    code_index: u64,
    pid: u32,
    file_stem: String,
    source_names: Vec<String>,
}

/// What a [`JitDumpWriter`] knows.
pub struct WriterView {
    /// Whether the header is written.
    pub open: bool,
    /// The number of the next code load.
    pub code_index: u64,
    pub pid: u32,
    pub file_stem: Seq<char>,
    /// The names of the source files that were created.
    pub source_names: Seq<Seq<char>>,
}

impl View for JitDumpWriter {
    type V = WriterView;

    closed spec fn view(&self) -> WriterView {
        WriterView {
            open: self.open,
            code_index: self.code_index,
            pid: self.pid,
            file_stem: self.file_stem@,
            source_names: name_views(self.source_names@),
        }
    }
}

impl WriterView {
    /// Whether the source files are those of this dump.
    pub open spec fn wf(self) -> bool {
        forall|i: int|
            0 <= i < self.source_names.len() ==> is_source_name(
                self.file_stem,
                #[trigger] self.source_names[i],
            )
    }

    /// The files of the dump: the dump file before the source files.
    pub open spec fn file_names(self) -> Seq<Seq<char>> {
        seq![dump_file_name(self.file_stem)] + self.source_names
    }
}

/// Whether a name is that of a source file of a dump.
pub open spec fn is_source_name(stem: Seq<char>, name: Seq<char>) -> bool {
    exists|index: nat| name == #[trigger] source_file_name(stem, index)
}

/// What is left to do for a dump.
pub struct DumpClosing {
    /// The record that ends the dump file, if its header was written.
    pub record: Option<Vec<u8>>,
    /// The files to remove.
    pub file_names: Vec<String>,
}

/// What names say.
pub open spec fn name_views(names: Seq<String>) -> Seq<Seq<char>> {
    names.map_values(|name: String| name@)
}

/// Whether `closing` ends the dump of a writer: with one close record, if its
/// header was written, and with the removal of its files and no others.
pub open spec fn is_closing(closing: DumpClosing, writer: WriterView, timestamp: u64) -> bool {
    &&& match closing.record {
        Some(record) => writer.open && record@ == dump_format::record(
            CODE_CLOSE_ID,
            Seq::empty(),
            timestamp,
        ),
        None => !writer.open,
    }
    &&& name_views(closing.file_names@) == writer.file_names()
}

/// The number after `index`; the largest one stays.
pub open spec fn next_index(index: u64) -> u64 {
    if index < u64::MAX {
        (index + 1) as u64
    } else {
        index
    }
}

/// Numbers consist of digits.
proof fn lemma_decimal_is_plain(value: nat)
    ensures
        text::decimal(value).len() > 0,
        forall|i: int| #![auto] 0 <= i < text::decimal(value).len() ==> text::is_plain(
            text::decimal(value)[i],
        ) && text::decimal(value)[i] != '-',
    decreases value,
{
    if value >= 10 {
        lemma_decimal_is_plain(value / 10);
    }
}

/// Different numbers are written differently.
proof fn lemma_decimal_injective(x: nat, y: nat)
    requires
        text::decimal(x) == text::decimal(y),
    ensures
        x == y,
    decreases x,
{
    lemma_decimal_is_plain(x / 10);
    lemma_decimal_is_plain(y / 10);
    assert(text::decimal(x).last() == text::digit(x % 10));
    assert(text::decimal(y).last() == text::digit(y % 10));
    if x >= 10 && y >= 10 {
        assert(text::decimal(x).drop_last() =~= text::decimal(x / 10));
        assert(text::decimal(y).drop_last() =~= text::decimal(y / 10));
        lemma_decimal_injective(x / 10, y / 10);
    } else {
        assert(text::decimal(x).len() == text::decimal(y).len());
    }
}

/// The number after the last hyphen of a text, and what stands before it.
proof fn lemma_last_number(a: Seq<char>, x: nat, b: Seq<char>, y: nat)
    requires
        a + "-"@ + text::decimal(x) == b + "-"@ + text::decimal(y),
    ensures
        a == b,
        x == y,
{
    reveal_strlit("-");
    let d = text::decimal(x);
    let e = text::decimal(y);
    let s = a + "-"@ + d;
    let t = b + "-"@ + e;
    lemma_decimal_is_plain(x);
    lemma_decimal_is_plain(y);
    assert(s.len() == a.len() + 1 + d.len());
    assert(t.len() == b.len() + 1 + e.len());
    assert(s[a.len() as int] == '-');
    assert(t[b.len() as int] == '-');
    if d.len() < e.len() {
        assert(t[a.len() as int] == e[a.len() - b.len() - 1]);
    }
    if e.len() < d.len() {
        assert(s[b.len() as int] == d[b.len() - a.len() - 1]);
    }
    assert(a =~= s.take(a.len() as int));
    assert(b =~= t.take(b.len() as int));
    assert(d =~= s.skip((a.len() + 1) as int));
    assert(e =~= t.skip((b.len() + 1) as int));
    lemma_decimal_injective(x, y);
}

/// The number between the first two hyphens of what names start with.
proof fn lemma_first_number(x: nat, a: Seq<char>, y: nat, b: Seq<char>)
    requires
        "jit-"@ + text::decimal(x) + "-"@ + a == "jit-"@ + text::decimal(y) + "-"@ + b,
    ensures
        x == y,
        a == b,
{
    reveal_strlit("jit-");
    reveal_strlit("-");
    let d = text::decimal(x);
    let e = text::decimal(y);
    let s = "jit-"@ + d + "-"@ + a;
    let t = "jit-"@ + e + "-"@ + b;
    lemma_decimal_is_plain(x);
    lemma_decimal_is_plain(y);
    assert(s[4 + d.len() as int] == '-');
    assert(t[4 + e.len() as int] == '-');
    if d.len() < e.len() {
        assert(t[4 + d.len() as int] == e[d.len() as int]);
    }
    if e.len() < d.len() {
        assert(s[4 + e.len() as int] == d[e.len() as int]);
    }
    assert(d =~= s.subrange(4, 4 + d.len() as int));
    assert(e =~= t.subrange(4, 4 + e.len() as int));
    assert(a =~= s.skip(5 + d.len() as int));
    assert(b =~= t.skip(5 + e.len() as int));
    lemma_decimal_injective(x, y);
}

/// A name that is that of two dumps says which process, which program and
/// which generation they are of.
proof fn lemma_stem_parts(
    pid: u32,
    id: Seq<char>,
    generation: u64,
    other_pid: u32,
    other_id: Seq<char>,
    other_generation: u64,
)
    requires
        dump_stem(pid, id, generation) == dump_stem(other_pid, other_id, other_generation),
    ensures
        pid == other_pid,
        id == other_id,
        generation == other_generation,
{
    let head = "jit-"@ + text::decimal(pid as nat) + "-"@ + id;
    let other_head = "jit-"@ + text::decimal(other_pid as nat) + "-"@ + other_id;
    lemma_last_number(head, generation as nat, other_head, other_generation as nat);
    lemma_first_number(pid as nat, id, other_pid as nat, other_id);
}

/// Dumps share a file only where they are one dump: a name of a dump file, or
/// of a source file, says which process, which program and which generation it
/// is of. The source files of one dump are apart too, and no source file is a
/// dump file.
pub proof fn law_names_tell_files_apart(
    pid: u32,
    id: Seq<char>,
    generation: u64,
    index: nat,
    other_pid: u32,
    other_id: Seq<char>,
    other_generation: u64,
    other_index: nat,
)
    ensures
        dump_file_name(dump_stem(pid, id, generation)) == dump_file_name(
            dump_stem(other_pid, other_id, other_generation),
        ) ==> pid == other_pid && id == other_id && generation == other_generation,
        source_file_name(dump_stem(pid, id, generation), index) == source_file_name(
            dump_stem(other_pid, other_id, other_generation),
            other_index,
        ) ==> pid == other_pid && id == other_id && generation == other_generation && index
            == other_index,
        dump_file_name(dump_stem(pid, id, generation)) != source_file_name(
            dump_stem(other_pid, other_id, other_generation),
            other_index,
        ),
{
    reveal_strlit(".dump");
    reveal_strlit(".sbpf");
    let stem = dump_stem(pid, id, generation);
    let other = dump_stem(other_pid, other_id, other_generation);
    let dump = dump_file_name(stem);
    let other_dump = dump_file_name(other);
    if dump == other_dump {
        assert(stem =~= dump.take(dump.len() - 5));
        assert(other =~= other_dump.take(other_dump.len() - 5));
        lemma_stem_parts(pid, id, generation, other_pid, other_id, other_generation);
    }
    let source = source_file_name(stem, index);
    let other_source = source_file_name(other, other_index);
    if source == other_source {
        assert(stem + "-"@ + text::decimal(index) =~= source.take(source.len() - 5));
        assert(other + "-"@ + text::decimal(other_index) =~= other_source.take(
            other_source.len() - 5,
        ));
        lemma_last_number(stem, index, other, other_index);
        lemma_stem_parts(pid, id, generation, other_pid, other_id, other_generation);
    }
    assert(dump.last() == 'p');
    assert(other_source.last() == 'f');
}

/// The files of a dump stay in its directory: their names have only letters,
/// digits, underscores, hyphens and dots, whatever the program is called.
pub proof fn law_file_names_are_plain(
    pid: u32,
    name: Seq<char>,
    generation: u64,
    index: nat,
    i: int,
)
    ensures
        ({
            let stem = dump_stem(pid, text::sanitized(name), generation);
            &&& 0 <= i < dump_file_name(stem).len() ==> is_file_name_char(dump_file_name(stem)[i])
            &&& 0 <= i < source_file_name(stem, index).len() ==> is_file_name_char(
                source_file_name(stem, index)[i],
            )
        }),
{
    reveal_strlit("jit-");
    reveal_strlit("-");
    reveal_strlit(".dump");
    reveal_strlit(".sbpf");
    text::law_sanitized_is_plain(name);
    lemma_decimal_is_plain(pid as nat);
    lemma_decimal_is_plain(generation as nat);
    lemma_decimal_is_plain(index);
}

/// A dump file is no source file.
pub proof fn lemma_dump_name_is_no_source_name(stem: Seq<char>, index: nat)
    ensures
        dump_file_name(stem) != source_file_name(stem, index),
{
    reveal_strlit(".dump");
    reveal_strlit(".sbpf");
    assert(dump_file_name(stem).last() == 'p');
    assert(source_file_name(stem, index).last() == 'f');
}

/// The name of a file in a directory is found again in its path.
proof fn lemma_file_name_of_path(prefix: Seq<char>, name: Seq<char>)
    requires
        prefix.len() == 0 || prefix.last() == '/',
        !name.contains('/'),
    ensures
        file_name(prefix + name) == name,
    decreases name.len(),
{
    let path = prefix + name;
    if name.len() == 0 {
        assert(path =~= prefix);
        assert(file_name(path) =~= name);
    } else {
        let shorter = name.drop_last();
        assert(name.contains(name.last()));
        assert(!shorter.contains('/')) by {
            if shorter.contains('/') {
                assert(name[shorter.index_of('/')] == '/');
            }
        }
        lemma_file_name_of_path(prefix, shorter);
        assert(path.drop_last() =~= prefix + shorter);
        assert(file_name(path) =~= name);
    }
}

/// The path of a source file names that file, in whatever directory: what
/// follows its last slash is the name, which starts with what all names of the
/// dump start with.
pub proof fn law_source_path_names_file(
    dir: Seq<char>,
    pid: u32,
    name: Seq<char>,
    generation: u64,
    index: nat,
)
    ensures
        ({
            let stem = dump_stem(pid, text::sanitized(name), generation);
            &&& file_name(source_path(dir, stem, index)) == source_file_name(stem, index)
            &&& (stem + "-"@).is_prefix_of(file_name(source_path(dir, stem, index)))
        }),
{
    let stem = dump_stem(pid, text::sanitized(name), generation);
    let file = source_file_name(stem, index);
    assert(!file.contains('/')) by {
        if file.contains('/') {
            law_file_names_are_plain(pid, name, generation, index, file.index_of('/'));
        }
    }
    lemma_file_name_of_path(dir_prefix(dir), file);
}

/// Source files of one dump have one path only where they are the same.
pub proof fn law_source_paths_are_apart(
    dir: Seq<char>,
    stem: Seq<char>,
    index: nat,
    other_index: nat,
)
    ensures
        source_path(dir, stem, index) == source_path(dir, stem, other_index) ==> index
            == other_index,
        source_file_name(stem, index) == source_file_name(stem, other_index) ==> index
            == other_index,
{
    reveal_strlit(".sbpf");
    let prefix = dir_prefix(dir);
    let name = source_file_name(stem, index);
    let other = source_file_name(stem, other_index);
    if prefix + name == prefix + other {
        assert(name =~= (prefix + name).skip(prefix.len() as int));
        assert(other =~= (prefix + other).skip(prefix.len() as int));
    }
    if name == other {
        assert(stem + "-"@ + text::decimal(index) =~= name.take(name.len() - 5));
        assert(stem + "-"@ + text::decimal(other_index) =~= other.take(other.len() - 5));
        lemma_last_number(stem, index, stem, other_index);
    }
}

/// Dumps of different processes, and dumps of different generations, have no
/// file in common, whatever programs they are of.
pub proof fn law_dumps_share_no_file(
    writer: WriterView,
    id: Seq<char>,
    generation: u64,
    other: WriterView,
    other_id: Seq<char>,
    other_generation: u64,
)
    requires
        writer.wf(),
        other.wf(),
        writer.file_stem == dump_stem(writer.pid, id, generation),
        other.file_stem == dump_stem(other.pid, other_id, other_generation),
        writer.pid != other.pid || generation != other_generation,
    ensures
        forall|i: int, j: int|
            0 <= i < writer.file_names().len() && 0 <= j < other.file_names().len() ==> (
            #[trigger] writer.file_names()[i]) != (#[trigger] other.file_names()[j]),
{
    assert forall|i: int, j: int|
        0 <= i < writer.file_names().len() && 0 <= j < other.file_names().len() implies (
    #[trigger] writer.file_names()[i]) != (#[trigger] other.file_names()[j]) by {
        let index = if i > 0 {
            assert(is_source_name(writer.file_stem, writer.source_names[i - 1]));
            choose|n: nat| writer.source_names[i - 1] == source_file_name(writer.file_stem, n)
        } else {
            0
        };
        let other_index = if j > 0 {
            assert(is_source_name(other.file_stem, other.source_names[j - 1]));
            choose|n: nat| other.source_names[j - 1] == source_file_name(other.file_stem, n)
        } else {
            0
        };
        law_names_tell_files_apart(
            writer.pid,
            id,
            generation,
            index,
            other.pid,
            other_id,
            other_generation,
            other_index,
        );
        law_names_tell_files_apart(
            other.pid,
            other_id,
            other_generation,
            other_index,
            writer.pid,
            id,
            generation,
            index,
        );
    }
}

/// The number after a number is one more, up to the largest one, which is its
/// own successor.
pub proof fn law_next_index_is_one_more(index: u64)
    ensures
        index < 0xffff_ffff_ffff_ffff ==> next_index(index) == index + 1,
        index == 0xffff_ffff_ffff_ffff ==> next_index(index) == index,
{
}

/// How the names of the files read: `jit-`, the process, a hyphen, all of what
/// the program goes by, a hyphen, the generation; then `.dump` for the dump
/// file, and a hyphen, the number of the range and `.sbpf` for a source file.
pub proof fn law_file_names_read(pid: u32, id: Seq<char>, generation: u64, index: nat)
    ensures
        ({
            let stem = dump_stem(pid, id, generation);
            let from = 5 + text::decimal(pid as nat).len() as int;
            let to = from + id.len();
            let dump = dump_file_name(stem);
            let source = source_file_name(stem, index);
            let size = stem.len() as int;
            &&& stem.take(4) == seq!['j', 'i', 't', '-']
            &&& text::number_value(stem.subrange(4, from - 1), 10) == pid
            &&& stem[from - 1] == '-'
            &&& stem.subrange(from, to) == id
            &&& stem[to] == '-'
            &&& text::number_value(stem.skip(to + 1), 10) == generation
            &&& dump == stem + seq!['.', 'd', 'u', 'm', 'p']
            &&& source.take(size) == stem
            &&& source[size] == '-'
            &&& text::number_value(source.subrange(size + 1, source.len() - 5), 10) == index
            &&& source.skip(source.len() - 5) == seq!['.', 's', 'b', 'p', 'f']
        }),
{
    reveal_strlit("jit-");
    reveal_strlit("-");
    reveal_strlit(".dump");
    reveal_strlit(".sbpf");
    let stem = dump_stem(pid, id, generation);
    let process = text::decimal(pid as nat);
    let from = 5 + process.len() as int;
    let to = from + id.len();
    let source = source_file_name(stem, index);
    let size = stem.len() as int;
    text::law_decimal_read_back(pid as nat);
    text::law_decimal_read_back(generation as nat);
    text::law_decimal_read_back(index);
    assert(stem.take(4) =~= seq!['j', 'i', 't', '-']);
    assert(stem.subrange(4, from - 1) =~= process);
    assert(stem.subrange(from, to) =~= id);
    assert(stem.skip(to + 1) =~= text::decimal(generation as nat));
    assert(dump_file_name(stem) =~= stem + seq!['.', 'd', 'u', 'm', 'p']);
    assert(source.take(size) =~= stem);
    assert(source.subrange(size + 1, source.len() - 5) =~= text::decimal(index));
    assert(source.skip(source.len() - 5) =~= seq!['.', 's', 'b', 'p', 'f']);
}

/// A path is the directory, a slash and the name of the file; no slash is put
/// behind a directory that ends in one, nor where there is no directory.
pub proof fn law_path_is_directory_and_name(dir: Seq<char>, stem: Seq<char>, index: nat)
    ensures
        dir.len() > 0 && dir.last() != '/' ==> source_path(dir, stem, index) == dir + seq!['/']
            + source_file_name(stem, index),
        dir.len() == 0 || dir.last() == '/' ==> source_path(dir, stem, index) == dir
            + source_file_name(stem, index),
{
    assert(dir.push('/') =~= dir + seq!['/']);
}

/// What is taken for the name of a file is what stands in its path behind the
/// last slash.
pub proof fn law_file_name_follows_last_slash(path: Seq<char>)
    ensures
        ({
            let name = file_name(path);
            let at = path.len() - name.len();
            &&& 0 <= at
            &&& path.skip(at) == name
            &&& !name.contains('/')
            &&& at > 0 ==> path[at - 1] == '/'
        }),
    decreases path.len(),
{
    let name = file_name(path);
    if path.len() > 0 && path.last() != '/' {
        let shorter = path.drop_last();
        let before = file_name(shorter);
        law_file_name_follows_last_slash(shorter);
        let at = shorter.len() - before.len();
        assert(name == before.push(path.last()));
        assert(path.skip(at) =~= shorter.skip(at).push(path.last()));
        if name.contains('/') {
            let i = name.index_of('/');
            assert(before[i] == '/');
            assert(before.contains('/'));
        }
    } else {
        assert(path.skip(path.len() as int) =~= Seq::<char>::empty());
    }
}

/// Ending a dump removes the dump file and every source file that was created,
/// in that order, and nothing else. A dump whose header was written ends with a
/// record of sixteen bytes, number three, that states its size and the time;
/// one whose header was not written gets no record.
pub proof fn law_closing_ends_the_dump(closing: DumpClosing, writer: WriterView, timestamp: u64)
    requires
        is_closing(closing, writer, timestamp),
    ensures
        closing.record is Some <==> writer.open,
        closing.record matches Some(record) ==> {
            &&& record@.len() == 16
            &&& bytes::field(record@, 0, 4) == 3
            &&& bytes::field(record@, 4, 4) == 16
            &&& bytes::field(record@, 8, 8) == timestamp
        },
        closing.file_names@.len() == writer.source_names.len() + 1,
        closing.file_names@[0]@ == writer.file_stem + seq!['.', 'd', 'u', 'm', 'p'],
        forall|i: int|
            0 <= i < writer.source_names.len() ==> #[trigger] closing.file_names@[i + 1]@
                == writer.source_names[i],
{
    reveal_strlit(".dump");
    dump_reader::law_record_read_back(3, Seq::empty(), timestamp);
    let names = name_views(closing.file_names@);
    assert(names.len() == closing.file_names@.len());
    assert(names[0] == closing.file_names@[0]@);
    assert(dump_file_name(writer.file_stem) =~= writer.file_stem + seq!['.', 'd', 'u', 'm', 'p']);
    assert forall|i: int| 0 <= i < writer.source_names.len() implies #[trigger] closing.file_names@[
    i + 1]@ == writer.source_names[i] by {
        assert(names[i + 1] == closing.file_names@[i + 1]@);
    }
}

/// What the names of the files of a dump start with.
pub fn build_stem(pid: u32, id: &str, generation: u64) -> (stem: String)
    ensures
        stem@ == dump_stem(pid, id@, generation),
{
    let mut stem = String::from_str("jit-");
    push_decimal(&mut stem, pid as u64);
    stem.append("-");
    stem.append(id);
    stem.append("-");
    push_decimal(&mut stem, generation);
    stem
}

/// The name of the dump file to create.
pub fn build_dump_name(pid: u32, id: &str, generation: u64) -> (name: String)
    ensures
        name@ == dump_file_name(dump_stem(pid, id@, generation)),
{
    let mut name = build_stem(pid, id, generation);
    name.append(".dump");
    name
}

impl JitDumpWriter {
    /// The writer of a dump whose file was just created, by process `pid` for
    /// a program that goes by `id`.
    pub fn new(pid: u32, id: &str, generation: u64) -> (writer: JitDumpWriter)
        ensures
            writer@ == (WriterView {
                open: false,
                code_index: 0,
                pid,
                file_stem: dump_stem(pid, id@, generation),
                source_names: Seq::empty(),
            }),
            writer@.wf(),
    {
        let writer = JitDumpWriter {
            open: false,
            code_index: 0,
            pid,
            file_stem: build_stem(pid, id, generation),
            source_names: Vec::new(),
        };
        assert(writer@.source_names =~= Seq::<Seq<char>>::empty());
        writer
    }

    /// The header was written.
    pub fn header_written(&mut self)
        ensures
            final(self)@ == (WriterView { open: true, ..old(self)@ }),
    {
        self.open = true;
    }

    /// The record for the machine code of a function. Each one has the next
    /// number.
    pub fn write_code_load(
        &mut self,
        name: &str,
        code_addr: u64,
        code_bytes: &[u8],
        tid: u32,
        timestamp: u64,
    ) -> (record: Vec<u8>)
        requires
            old(self)@.open,
        ensures
            final(self)@ == (WriterView {
                code_index: next_index(old(self)@.code_index),
                ..old(self)@
            }),
            record@ == dump_format::record(
                CODE_LOAD_ID,
                dump_format::code_load(
                    old(self)@.pid,
                    tid,
                    code_addr,
                    old(self)@.code_index,
                    name@,
                    code_bytes@,
                ),
                timestamp,
            ),
    {
        let code_index = self.code_index;
        self.code_index = code_index.saturating_add(1);
        let payload = build_code_load(self.pid, tid, code_addr, code_index, name, code_bytes);
        write_record(CODE_LOAD_ID, payload.as_slice(), timestamp)
    }

    /// The record for the lines of a function.
    pub fn write_debug_info_range(
        &self,
        code_addr: u64,
        function_host_start: u64,
        filename: &str,
        pc_start: usize,
        pc_end: usize,
        pc_offsets: &[u32],
        timestamp: u64,
    ) -> (record: Vec<u8>)
        requires
            self@.open,
            pc_start < pc_end ==> pc_end <= pc_offsets@.len(),
        ensures
            record@ == dump_format::record(
                CODE_DEBUG_INFO_ID,
                dump_format::debug_info(
                    code_addr,
                    dump_format::line_entries(
                        code_addr,
                        function_host_start,
                        pc_offsets@,
                        pc_start as int,
                        pc_end as int,
                    ),
                    filename@,
                ),
                timestamp,
            ),
    {
        let entries = build_line_entries(
            code_addr,
            function_host_start,
            pc_offsets,
            pc_start,
            pc_end,
        );
        let payload = build_debug_info(code_addr, &entries, filename);
        write_record(CODE_DEBUG_INFO_ID, payload.as_slice(), timestamp)
    }

    /// The name of the dump file.
    pub fn dump_name(&self) -> (name: String)
        ensures
            name@ == dump_file_name(self@.file_stem),
    {
        let mut name = self.file_stem.clone();
        name.append(".dump");
        name
    }

    /// The name of a source file.
    pub fn source_name(&self, range_index: usize) -> (name: String)
        ensures
            name@ == source_file_name(self@.file_stem, range_index as nat),
    {
        let mut name = self.file_stem.clone();
        name.append("-");
        push_decimal(&mut name, range_index as u64);
        name.append(".sbpf");
        name
    }

    /// The path of a source file in a directory.
    pub fn source_path(&self, dir: &str, range_index: usize) -> (path: String)
        ensures
            path@ == source_path(dir@, self@.file_stem, range_index as nat),
    {
        let mut path = String::from_str(dir);
        let count: usize = dir.unicode_len();
        if count > 0 && dir.get_char(count - 1) != '/' {
            path.push('/');
        }
        path.append(self.source_name(range_index).as_str());
        path
    }

    /// A source file was created; from here on it belongs to the dump, whether
    /// or not it is ever finished.
    pub fn source_created(&mut self, range_index: usize)
        ensures
            final(self)@ == (WriterView {
                source_names: old(self)@.source_names.push(
                    source_file_name(old(self)@.file_stem, range_index as nat),
                ),
                ..old(self)@
            }),
            old(self)@.wf() ==> final(self)@.wf(),
    {
        let ghost before = self@;
        let name = self.source_name(range_index);
        self.source_names.push(name);
        assert(self@.source_names =~= before.source_names.push(name@));
    }

    /// Ends the dump: what is still to be written to it, and the files that
    /// are then removed, the dump file before the source files.
    pub fn close(self, timestamp: u64) -> (closing: DumpClosing)
        ensures
            is_closing(closing, self@, timestamp),
    {
        let record = if self.open {
            let record = write_record(CODE_CLOSE_ID, &[], timestamp);
            assert(record@ == dump_format::record(CODE_CLOSE_ID, Seq::empty(), timestamp));
            Some(record)
        } else {
            None
        };
        let mut file_names: Vec<String> = Vec::new();
        file_names.push(self.dump_name());
        let mut source_names = self.source_names;
        file_names.append(&mut source_names);
        assert(name_views(file_names@) =~= self@.file_names());
        DumpClosing { record, file_names }
    }
}

/// The name that is built for a dump file is `jit-`, the process, a hyphen, all
/// of what the program goes by, a hyphen, the generation and `.dump`.
pub proof fn law_built_dump_name_reads(pid: u32, id: &str, generation: u64, name: String)
    requires
        call_ensures(build_dump_name, (pid, id, generation), name),
    ensures
        ({
            let from = 5 + text::decimal(pid as nat).len() as int;
            let to = from + id@.len();
            let end = name@.len() - 5;
            &&& name@.take(4) == seq!['j', 'i', 't', '-']
            &&& text::number_value(name@.subrange(4, from - 1), 10) == pid
            &&& name@[from - 1] == '-'
            &&& name@.subrange(from, to) == id@
            &&& name@[to] == '-'
            &&& text::number_value(name@.subrange(to + 1, end), 10) == generation
            &&& name@.skip(end) == seq!['.', 'd', 'u', 'm', 'p']
        }),
{
    let stem = dump_stem(pid, id@, generation);
    let from = 5 + text::decimal(pid as nat).len() as int;
    let to = from + id@.len();
    let end = name@.len() - 5;
    law_file_names_read(pid, id@, generation, 0);
    text::law_decimal_read_back(pid as nat);
    text::law_decimal_read_back(generation as nat);
    reveal_strlit("jit-");
    reveal_strlit("-");
    assert(stem.len() == to + 1 + text::decimal(generation as nat).len());
    assert(name@.take(4) =~= stem.take(4));
    assert(name@.subrange(4, from - 1) =~= stem.subrange(4, from - 1));
    assert(name@.subrange(from, to) =~= stem.subrange(from, to));
    assert(name@.subrange(to + 1, end) =~= stem.skip(to + 1));
    assert(name@.skip(end) =~= seq!['.', 'd', 'u', 'm', 'p']);
}

/// The path of a source file is the directory, a slash where one is needed, and
/// the name of the file, which is what the names of the dump start with, a
/// hyphen, the number of the range and `.sbpf`.
pub proof fn law_built_paths_read(
    writer: &JitDumpWriter,
    dir: &str,
    range_index: usize,
    name: String,
    path: String,
)
    requires
        call_ensures(JitDumpWriter::source_name, (writer, range_index), name),
        call_ensures(JitDumpWriter::source_path, (writer, dir, range_index), path),
    ensures
        ({
            let size = writer@.file_stem.len() as int;
            &&& name@.take(size) == writer@.file_stem
            &&& name@[size] == '-'
            &&& text::number_value(name@.subrange(size + 1, name@.len() - 5), 10) == range_index
            &&& name@.skip(name@.len() - 5) == seq!['.', 's', 'b', 'p', 'f']
            &&& dir@.len() > 0 && dir@.last() != '/' ==> path@ == dir@ + seq!['/'] + name@
            &&& dir@.len() == 0 || dir@.last() == '/' ==> path@ == dir@ + name@
        }),
{
    let stem = writer@.file_stem;
    let size = stem.len() as int;
    let index = range_index as nat;
    reveal_strlit("-");
    reveal_strlit(".sbpf");
    text::law_decimal_read_back(index);
    law_path_is_directory_and_name(dir@, stem, index);
    assert(name@.take(size) =~= stem);
    assert(name@.subrange(size + 1, name@.len() - 5) =~= text::decimal(index));
    assert(name@.skip(name@.len() - 5) =~= seq!['.', 's', 'b', 'p', 'f']);
}

/// Ending a dump gives the record that ends it, if its header was written, and
/// the names of the dump file and of all its source files.
pub proof fn law_closing_a_writer_ends_its_dump(
    writer: JitDumpWriter,
    timestamp: u64,
    closing: DumpClosing,
)
    requires
        call_ensures(JitDumpWriter::close, (writer, timestamp), closing),
    ensures
        closing.record is Some <==> writer@.open,
        closing.record matches Some(record) ==> record@.len() == 16 && bytes::field(record@, 0, 4)
            == 3 && bytes::field(record@, 4, 4) == 16 && bytes::field(record@, 8, 8) == timestamp,
        closing.file_names@.len() == writer@.source_names.len() + 1,
        closing.file_names@[0]@ == writer@.file_stem + seq!['.', 'd', 'u', 'm', 'p'],
        forall|i: int|
            0 <= i < writer@.source_names.len() ==> #[trigger] closing.file_names@[i + 1]@
                == writer@.source_names[i],
{
    law_closing_ends_the_dump(closing, writer@, timestamp);
}

} // verus!
