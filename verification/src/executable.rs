//! What a loaded program says of itself, and what the debug output makes of
//! it.

use crate::bytes;
use crate::bytes::truncate_u32;
use crate::hash;
use crate::hash::{hash_symbol_name, murmur3_hash};
use crate::meta::{JitCodeMeta, JitHostSymbol, JitSymbol, JitSyscallSymbol, SBPFVersion, SymbolView};
use crate::registry;
use crate::registry::{EntryView, FunctionRegistry};
use crate::text;
use crate::text::{from_utf8_lossy, push_hex};
use vstd::prelude::*;
use vstd::string::StringExecFns;
use vstd::utf8;

verus! {

/// A loaded program.
pub struct Executable {
    /// The name that the program was given, if any.
    pub program_id: Option<String>,
    /// The program counter at which it starts.
    pub entry_pc: usize,
    pub sbpf_version: SBPFVersion,
    pub function_registry: FunctionRegistry<usize>,
    /// The syscalls that it was loaded with.
    pub syscall_registry: FunctionRegistry<()>,
}

/// What symbols say.
pub open spec fn symbol_views(symbols: Seq<JitSymbol>) -> Seq<SymbolView> {
    symbols.map_values(|symbol: JitSymbol| symbol@)
}

/// What a function goes by: where the program starts there, by the name of
/// the program if it was given one, else by its registered name.
pub open spec fn name_bytes(executable: Executable, entry: EntryView<usize>) -> Seq<u8> {
    match executable.program_id {
        Some(id) => if entry.value == executable.entry_pc {
            utf8::encode_utf8(id@)
        } else {
            entry.name
        },
        None => entry.name,
    }
}

/// The symbols of registered functions, without those that have no name.
pub open spec fn named_symbols(
    executable: Executable,
    entries: Seq<EntryView<usize>>,
) -> Seq<SymbolView>
    decreases entries.len(),
{
    if entries.len() == 0 {
        Seq::empty()
    } else {
        let before = named_symbols(executable, entries.drop_last());
        let name = name_bytes(executable, entries.last());
        if name.len() == 0 {
            before
        } else {
            before.push(
                SymbolView {
                    key: entries.last().key,
                    name: text::lossy_text(name),
                    pc: entries.last().value,
                },
            )
        }
    }
}

/// Whether some symbol stands at `pc`.
pub open spec fn has_symbol_at(symbols: Seq<SymbolView>, pc: usize) -> bool {
    exists|i: int| 0 <= i < symbols.len() && (#[trigger] symbols[i]).pc == pc
}

/// The symbol for the start of a program whose functions do not name it;
/// `name_key` is the key that the name `entrypoint` stands for.
pub open spec fn start_symbol(executable: Executable, id: Seq<char>, name_key: u32) -> SymbolView {
    SymbolView {
        key: if executable.sbpf_version.static_syscalls {
            bytes::low32(executable.entry_pc as nat)
        } else {
            name_key
        },
        name: id,
        pc: executable.entry_pc,
    }
}

/// The symbols of a program: those of its functions, and one for its start
/// where they have none.
pub open spec fn program_symbols(
    executable: Executable,
    id: Seq<char>,
    name_key: u32,
) -> Seq<SymbolView> {
    let named = named_symbols(executable, executable.function_registry@);
    if has_symbol_at(named, executable.entry_pc) {
        named
    } else {
        named.push(start_symbol(executable, id, name_key))
    }
}

/// The key that the name `entrypoint` stands for.
pub open spec fn entrypoint_key() -> u32 {
    hash::murmur3(utf8::encode_utf8("entrypoint"@))
}

/// The names of syscalls, without those that have none.
pub open spec fn named_syscalls(entries: Seq<EntryView<()>>) -> Seq<Seq<char>>
    decreases entries.len(),
{
    if entries.len() == 0 {
        Seq::empty()
    } else {
        let before = named_syscalls(entries.drop_last());
        if entries.last().name.len() == 0 {
            before
        } else {
            before.push(text::lossy_text(entries.last().name))
        }
    }
}

/// What a program goes by: its own name, or else the hash of its code.
pub open spec fn program_name(executable: Executable, hash: u32) -> Seq<char> {
    match executable.program_id {
        Some(id) => id@,
        None => "sbpf_"@ + text::hex(hash as nat, 8),
    }
}

/// The start of a program always has a symbol.
pub proof fn law_start_has_a_symbol(executable: Executable, id: Seq<char>, name_key: u32)
    ensures
        has_symbol_at(program_symbols(executable, id, name_key), executable.entry_pc),
{
    let named = named_symbols(executable, executable.function_registry@);
    if !has_symbol_at(named, executable.entry_pc) {
        let all = program_symbols(executable, id, name_key);
        assert(all[named.len() as int].pc == executable.entry_pc);
    }
}

/// Where a program was given a name, every symbol at its start has that name.
pub proof fn law_program_id_names_start(executable: Executable, hash: u32, name_key: u32, i: int)
    requires
        executable.program_id is Some,
        ({
            let symbols = program_symbols(executable, program_name(executable, hash), name_key);
            0 <= i < symbols.len() && symbols[i].pc == executable.entry_pc
        }),
    ensures
        program_symbols(executable, program_name(executable, hash), name_key)[i].name
            == executable.program_id.unwrap()@,
{
    let entries = executable.function_registry@;
    if i < named_symbols(executable, entries).len() {
        lemma_named_start(executable, entries, i);
    }
}

/// The symbols of the functions are in the order of their keys, each of which
/// they have from one function.
pub proof fn law_named_symbols_follow_registry(
    executable: Executable,
    entries: Seq<EntryView<usize>>,
)
    requires
        registry::key_ordered(entries),
    ensures
        named_symbols(executable, entries).len() <= entries.len(),
        forall|i: int|
            0 <= i < named_symbols(executable, entries).len() ==> registry::has_key(
                entries,
                (#[trigger] named_symbols(executable, entries)[i]).key,
            ),
        forall|i: int, j: int|
            0 <= i < j < named_symbols(executable, entries).len() ==> (
            #[trigger] named_symbols(executable, entries)[i]).key < (#[trigger] named_symbols(
                executable,
                entries,
            )[j]).key,
    decreases entries.len(),
{
    if entries.len() > 0 {
        let fewer = entries.drop_last();
        let before = named_symbols(executable, fewer);
        law_named_symbols_follow_registry(executable, fewer);
        assert forall|i: int| 0 <= i < before.len() implies registry::has_key(
            entries,
            (#[trigger] before[i]).key,
        ) && before[i].key < entries.last().key by {
            let j = choose|j: int|
                0 <= j < fewer.len() && (#[trigger] fewer[j]).key == before[i].key;
            assert(entries[j].key == before[i].key);
        }
        assert(entries[entries.len() - 1].key == entries.last().key);
    }
}

/// What is named at the start of a program is named by its name.
proof fn lemma_named_start(executable: Executable, entries: Seq<EntryView<usize>>, i: int)
    requires
        executable.program_id is Some,
        0 <= i < named_symbols(executable, entries).len(),
        named_symbols(executable, entries)[i].pc == executable.entry_pc,
    ensures
        named_symbols(executable, entries)[i].name == executable.program_id.unwrap()@,
    decreases entries.len(),
{
    let before = named_symbols(executable, entries.drop_last());
    if i < before.len() {
        lemma_named_start(executable, entries.drop_last(), i);
    } else {
        text::law_encoded_text_is_kept(executable.program_id.unwrap()@);
    }
}

/// The symbols of a program are, in the order of the registry, those of the
/// functions that have a name, and behind them one for the start of the program
/// where none of those stands there. Each has the key and the program counter
/// of its function and exactly the text that the whole registered name encodes,
/// but where the program starts the name that the program was given.
pub proof fn law_registered_functions_have_symbols(
    executable: Executable,
    id: Seq<char>,
    name_key: u32,
    symbols: Seq<JitSymbol>,
)
    requires
        symbol_views(symbols) == program_symbols(executable, id, name_key),
    ensures
        ({
            let named = executable.function_registry@.filter(
                |entry: EntryView<usize>|
                    if executable.program_id is Some && entry.value == executable.entry_pc {
                        executable.program_id.unwrap()@.len() > 0
                    } else {
                        entry.name.len() > 0
                    },
            );
            let starts = exists|k: int|
                0 <= k < named.len() && (#[trigger] named[k]).value == executable.entry_pc;
            let count = named.len() as int;
            &&& symbols.len() == count + if starts {
                0int
            } else {
                1
            }
            &&& forall|k: int|
                0 <= k < count ==> {
                    let at_start = executable.program_id is Some && named[k].value
                        == executable.entry_pc;
                    &&& (#[trigger] symbols[k]).key == named[k].key
                    &&& symbols[k].pc == named[k].value
                    &&& at_start ==> symbols[k].name@ == executable.program_id.unwrap()@
                    &&& !at_start && utf8::valid_utf8(named[k].name) ==> utf8::encode_utf8(
                        symbols[k].name@,
                    ) == named[k].name
                    &&& !at_start && !utf8::valid_utf8(named[k].name) ==> symbols[k].name@
                        == text::utf8_lossy(named[k].name)
                }
            &&& !starts ==> {
                &&& symbols[count].pc == executable.entry_pc
                &&& symbols[count].name@ == id
                &&& executable.sbpf_version.static_syscalls ==> symbols[count].key
                    == executable.entry_pc as int % 0x1_0000_0000
                &&& !executable.sbpf_version.static_syscalls ==> symbols[count].key == name_key
            }
        }),
{
    let entries = executable.function_registry@;
    let listed = named_symbols(executable, entries);
    let has_name = |entry: EntryView<usize>|
        if executable.program_id is Some && entry.value == executable.entry_pc {
            executable.program_id.unwrap()@.len() > 0
        } else {
            entry.name.len() > 0
        };
    let named = entries.filter(has_name);
    lemma_named_entries(executable, entries);
    assert(symbol_views(symbols).len() == symbols.len());
    assert forall|k: int| 0 <= k < symbols.len() implies #[trigger] symbols[k]@ == program_symbols(
        executable,
        id,
        name_key,
    )[k] by {
        assert(symbol_views(symbols)[k] == symbols[k]@);
    }
    if has_symbol_at(listed, executable.entry_pc) {
        let k = choose|k: int| 0 <= k < listed.len() && (#[trigger] listed[k]).pc
            == executable.entry_pc;
        assert(named[k].value == executable.entry_pc);
    } else {
        assert forall|k: int| 0 <= k < named.len() implies (#[trigger] named[k]).value
            != executable.entry_pc by {
            assert(listed[k].pc == named[k].value);
        }
        assert(symbols[listed.len() as int]@ == start_symbol(executable, id, name_key));
    }
    assert forall|k: int| 0 <= k < named.len() implies (#[trigger] symbols[k])@ == listed[k] by {
        assert(symbol_views(symbols)[k] == symbols[k]@);
    }
}

/// What the symbols of the named functions say.
proof fn lemma_named_entries(executable: Executable, entries: Seq<EntryView<usize>>)
    ensures
        ({
            let named = entries.filter(
                |entry: EntryView<usize>|
                    if executable.program_id is Some && entry.value == executable.entry_pc {
                        executable.program_id.unwrap()@.len() > 0
                    } else {
                        entry.name.len() > 0
                    },
            );
            let listed = named_symbols(executable, entries);
            &&& listed.len() == named.len()
            &&& forall|k: int|
                0 <= k < named.len() ==> {
                    let at_start = executable.program_id is Some && named[k].value
                        == executable.entry_pc;
                    &&& (#[trigger] listed[k]).key == named[k].key
                    &&& listed[k].pc == named[k].value
                    &&& at_start ==> listed[k].name == executable.program_id.unwrap()@
                    &&& !at_start && utf8::valid_utf8(named[k].name) ==> utf8::encode_utf8(
                        listed[k].name,
                    ) == named[k].name
                    &&& !at_start && !utf8::valid_utf8(named[k].name) ==> listed[k].name
                        == text::utf8_lossy(named[k].name)
                }
        }),
    decreases entries.len(),
{
    reveal(Seq::filter);
    if entries.len() > 0 {
        let last = entries.last();
        lemma_named_entries(executable, entries.drop_last());
        if let Some(id) = executable.program_id {
            lemma_encoded_emptiness(id@);
            text::law_encoded_text_is_kept(id@);
        }
        if utf8::valid_utf8(last.name) {
            text::law_valid_bytes_are_kept(last.name);
        }
    }
}

/// A text has bytes where it has characters.
proof fn lemma_encoded_emptiness(chars: Seq<char>)
    ensures
        utf8::encode_utf8(chars).len() == 0 <==> chars.len() == 0,
{
    utf8::encode_utf8_decode_utf8(chars);
    if utf8::encode_utf8(chars).len() == 0 {
        assert(utf8::encode_utf8(chars) =~= Seq::<u8>::empty());
        assert(utf8::decode_utf8(Seq::<u8>::empty()) =~= Seq::<char>::empty());
    }
    if chars.len() == 0 {
        assert(chars =~= Seq::<char>::empty());
        assert(utf8::encode_utf8(Seq::<char>::empty()) =~= Seq::<u8>::empty());
    }
}

/// Every registered function that does not stand at the start of a program with
/// a name of its own, and whose own name is not empty and is UTF-8, has a symbol
/// with its key, its program counter and all of its name.
pub proof fn law_registered_names_are_kept(
    executable: Executable,
    id: Seq<char>,
    name_key: u32,
    symbols: Seq<JitSymbol>,
    i: int,
)
    requires
        symbol_views(symbols) == program_symbols(executable, id, name_key),
        0 <= i < executable.function_registry@.len(),
        ({
            let entry = executable.function_registry@[i];
            &&& executable.program_id is None || entry.value != executable.entry_pc
            &&& entry.name.len() > 0
            &&& utf8::valid_utf8(entry.name)
        }),
    ensures
        ({
            let entry = executable.function_registry@[i];
            exists|k: int|
                {
                    &&& 0 <= k < symbols.len()
                    &&& (#[trigger] symbols[k]).key == entry.key
                    &&& symbols[k].pc == entry.value
                    &&& utf8::encode_utf8(symbols[k].name@) == entry.name
                }
        }),
{
    let entries = executable.function_registry@;
    let has_name = |entry: EntryView<usize>|
        if executable.program_id is Some && entry.value == executable.entry_pc {
            executable.program_id.unwrap()@.len() > 0
        } else {
            entry.name.len() > 0
        };
    law_registered_functions_have_symbols(executable, id, name_key, symbols);
    let named = entries.filter(has_name);
    lemma_filter_keeps(entries, has_name, i);
    let k = named.index_of(entries[i]);
    assert(symbols[k].key == entries[i].key);
}

/// What a filter asks for is kept.
proof fn lemma_filter_keeps<T>(entries: Seq<T>, wanted: spec_fn(T) -> bool, i: int)
    requires
        0 <= i < entries.len(),
        wanted(entries[i]),
    ensures
        entries.filter(wanted).contains(entries[i]),
    decreases entries.len(),
{
    reveal(Seq::filter);
    let before = entries.drop_last().filter(wanted);
    let all = entries.filter(wanted);
    if i == entries.len() - 1 {
        assert(all[before.len() as int] == entries[i]);
    } else {
        lemma_filter_keeps(entries.drop_last(), wanted, i);
        let k = before.index_of(entries[i]);
        assert(all[k] == entries[i]);
    }
}

/// The syscalls are those that have a name, in the order of the registry, each
/// with exactly the text that its whole name encodes.
pub proof fn law_registered_syscalls_are_kept(
    entries: Seq<EntryView<()>>,
    syscalls: Seq<JitSyscallSymbol>,
)
    requires
        syscall_names(syscalls) == named_syscalls(entries),
    ensures
        ({
            let named = entries.filter(|entry: EntryView<()>| entry.name.len() > 0);
            &&& syscalls.len() == named.len()
            &&& forall|k: int|
                0 <= k < named.len() ==> {
                    let name = (#[trigger] syscalls[k]).name@;
                    &&& utf8::valid_utf8(named[k].name) ==> utf8::encode_utf8(name)
                        == named[k].name
                    &&& !utf8::valid_utf8(named[k].name) ==> name == text::utf8_lossy(
                        named[k].name,
                    )
                }
        }),
{
    lemma_named_syscalls(entries);
    let named = entries.filter(|entry: EntryView<()>| entry.name.len() > 0);
    assert(syscall_names(syscalls).len() == syscalls.len());
    assert forall|k: int| 0 <= k < named.len() implies (#[trigger] syscalls[k]).name@
        == named_syscalls(entries)[k] by {
        assert(syscall_names(syscalls)[k] == syscalls[k].name@);
    }
}

proof fn lemma_named_syscalls(entries: Seq<EntryView<()>>)
    ensures
        ({
            let named = entries.filter(|entry: EntryView<()>| entry.name.len() > 0);
            &&& named_syscalls(entries).len() == named.len()
            &&& forall|k: int|
                0 <= k < named.len() ==> {
                    let name = #[trigger] named_syscalls(entries)[k];
                    &&& utf8::valid_utf8(named[k].name) ==> utf8::encode_utf8(name)
                        == named[k].name
                    &&& !utf8::valid_utf8(named[k].name) ==> name == text::utf8_lossy(
                        named[k].name,
                    )
                }
        }),
    decreases entries.len(),
{
    reveal(Seq::filter);
    if entries.len() > 0 {
        lemma_named_syscalls(entries.drop_last());
        if utf8::valid_utf8(entries.last().name) {
            text::law_valid_bytes_are_kept(entries.last().name);
        }
    }
}

/// A program goes by the name that it was given, all of it; one that was given
/// none goes by `sbpf_` and eight digits of base sixteen that are the hash of
/// its code.
pub proof fn law_program_goes_by_name_or_hash(executable: Executable, hash: u32)
    ensures
        executable.program_id matches Some(id) ==> program_name(executable, hash) == id@,
        executable.program_id is None ==> {
            let name = program_name(executable, hash);
            &&& name.len() == 13
            &&& name.take(5) == seq!['s', 'b', 'p', 'f', '_']
            &&& text::number_value(name.skip(5), 16) == hash
        },
{
    reveal_strlit("sbpf_");
    text::law_hex_read_back(hash as nat, 8);
    assert(vstd::arithmetic::power::pow(16, 8) == 0x1_0000_0000) by {
        reveal_with_fuel(vstd::arithmetic::power::pow, 9);
    }
    if executable.program_id is None {
        let name = program_name(executable, hash);
        assert(name.take(5) =~= seq!['s', 'b', 'p', 'f', '_']);
        assert(name.skip(5) =~= text::hex(hash as nat, 8));
    }
}

/// The start of a program whose functions do not name it has the hash of the
/// ten letters of `entrypoint` as its key.
pub proof fn law_entrypoint_key_is_the_hash_of_its_name()
    ensures
        entrypoint_key() == hash::murmur3(
            seq![0x65u8, 0x6e, 0x74, 0x72, 0x79, 0x70, 0x6f, 0x69, 0x6e, 0x74],
        ),
{
    reveal_strlit("entrypoint");
    let name = "entrypoint"@;
    assert(utf8::is_ascii_chars(name));
    utf8::is_ascii_chars_encode_utf8(name);
    assert(utf8::encode_utf8(name) =~= seq![
        0x65u8, 0x6e, 0x74, 0x72, 0x79, 0x70, 0x6f, 0x69, 0x6e, 0x74,
    ]);
}

/// Collects the symbols of the functions that have a name.
fn collect_named_symbols(executable: &Executable) -> (symbols: Vec<JitSymbol>)
    ensures
        symbol_views(symbols@) == named_symbols(*executable, executable.function_registry@),
{
    let mut symbols: Vec<JitSymbol> = Vec::new();
    let ghost entries = executable.function_registry@;
    let count: usize = executable.function_registry.len();
    assert(symbol_views(symbols@) =~= named_symbols(*executable, entries.take(0)));
    for i in 0..count
        invariant
            entries == executable.function_registry@,
            count == entries.len(),
            symbol_views(symbols@) == named_symbols(*executable, entries.take(i as int)),
    {
        let entry = executable.function_registry.entry(i);
        let ghost before = symbols@;
        proof {
            assert(entries.take(i + 1).drop_last() =~= entries.take(i as int));
        }
        let mut name = entry.name.as_slice();
        if let Some(id) = &executable.program_id {
            if entry.value == executable.entry_pc {
                name = id.as_str().as_bytes();
            }
        }
        assert(name@ == name_bytes(*executable, entries[i as int]));
        if name.len() > 0 {
            let symbol = JitSymbol { key: entry.key, name: from_utf8_lossy(name), pc: entry.value };
            symbols.push(symbol);
            assert(symbol_views(symbols@) =~= symbol_views(before).push(symbol@));
        }
    }
    assert(entries.take(count as int) =~= entries);
    symbols
}

/// Collects the symbols of a program that goes by `id`; `name_key` is the key
/// that the name `entrypoint` stands for.
pub fn collect_symbols_with_key(executable: &Executable, id: &str, name_key: u32) -> (symbols: Vec<
    JitSymbol,
>)
    ensures
        symbol_views(symbols@) == program_symbols(*executable, id@, name_key),
{
    let mut symbols = collect_named_symbols(executable);
    let ghost named = symbol_views(symbols@);
    let mut found = false;
    for i in 0..symbols.len()
        invariant
            named == symbol_views(symbols@),
            found == exists|j: int|
                0 <= j < i && (#[trigger] named[j]).pc == executable.entry_pc,
    {
        if symbols[i].pc == executable.entry_pc {
            assert(named[i as int].pc == executable.entry_pc);
            found = true;
        }
    }
    if !found {
        let key: u32 = if executable.sbpf_version.static_syscalls {
            truncate_u32(executable.entry_pc)
        } else {
            name_key
        };
        let symbol = JitSymbol { key, name: String::from_str(id), pc: executable.entry_pc };
        symbols.push(symbol);
        assert(symbol_views(symbols@) =~= named.push(symbol@));
    }
    symbols
}

/// Collects the symbols of a program that goes by `id`.
pub fn collect_symbols(executable: &Executable, id: &str) -> (symbols: Vec<JitSymbol>)
    ensures
        symbol_views(symbols@) == program_symbols(*executable, id@, entrypoint_key()),
{
    collect_symbols_with_key(executable, id, hash_symbol_name("entrypoint".as_bytes()))
}

/// The names of syscalls.
pub open spec fn syscall_names(syscalls: Seq<JitSyscallSymbol>) -> Seq<Seq<char>> {
    syscalls.map_values(|syscall: JitSyscallSymbol| syscall.name@)
}

/// Collects the syscalls that have a name.
pub fn collect_syscalls(registry: &FunctionRegistry<()>) -> (syscalls: Vec<JitSyscallSymbol>)
    ensures
        syscall_names(syscalls@) == named_syscalls(registry@),
{
    let mut syscalls: Vec<JitSyscallSymbol> = Vec::new();
    let count: usize = registry.len();
    assert(syscall_names(syscalls@) =~= named_syscalls(registry@.take(0)));
    for i in 0..count
        invariant
            count == registry@.len(),
            syscall_names(syscalls@) == named_syscalls(registry@.take(i as int)),
    {
        let entry = registry.entry(i);
        let ghost before = syscalls@;
        assert(registry@.take(i + 1).drop_last() =~= registry@.take(i as int));
        if entry.name.len() > 0 {
            let syscall = JitSyscallSymbol { name: from_utf8_lossy(entry.name.as_slice()) };
            syscalls.push(syscall);
            assert(syscall_names(syscalls@) =~= syscall_names(before).push(syscall.name@));
        }
    }
    assert(registry@.take(count as int) =~= registry@);
    syscalls
}

/// What a program goes by; `hash` is the hash of its code.
pub fn code_id(executable: &Executable, hash: u32) -> (id: String)
    ensures
        id@ == program_name(*executable, hash),
{
    match &executable.program_id {
        Some(id) => id.clone(),
        None => {
            let mut id = String::from_str("sbpf_");
            push_hex(&mut id, hash, 8);
            id
        },
    }
}

/// Gathers what the debug output says of a compiled program. `program` is its
/// code; `code_ptr` and `code_len` tell where its machine code is.
pub fn build_jit_code_meta(
    executable: &Executable,
    program: &[u8],
    code_ptr: u64,
    code_len: usize,
    host_symbols: Vec<JitHostSymbol>,
    function_entry_offsets: Vec<u32>,
) -> (meta: JitCodeMeta)
    ensures
        meta.id@ == program_name(*executable, hash::murmur3(program@)),
        symbol_views(meta.symbols@) == program_symbols(*executable, meta.id@, entrypoint_key()),
        syscall_names(meta.syscalls@) == named_syscalls(executable.syscall_registry@),
        meta.code_ptr == code_ptr,
        meta.code_len == code_len,
        meta.sbpf_version == executable.sbpf_version,
        meta.host_symbols == host_symbols,
        meta.function_entry_offsets == function_entry_offsets,
{
    let id = code_id(executable, murmur3_hash(program));
    let symbols = collect_symbols(executable, id.as_str());
    let syscalls = collect_syscalls(&executable.syscall_registry);
    JitCodeMeta {
        id,
        code_ptr,
        code_len,
        sbpf_version: executable.sbpf_version,
        symbols,
        syscalls,
        host_symbols,
        function_entry_offsets,
    }
}

/// What is gathered of a compiled program goes by the name that the program was
/// given, or else by `sbpf_` and the hash of all of its code in eight digits of
/// base sixteen; where its machine code is, the host ranges and the recorded
/// entries are those given, and the symbols and the syscalls are those of its
/// registries.
pub proof fn law_meta_is_that_of_the_program(
    executable: &Executable,
    program: &[u8],
    code_ptr: u64,
    code_len: usize,
    host_symbols: Vec<JitHostSymbol>,
    function_entry_offsets: Vec<u32>,
    meta: JitCodeMeta,
)
    requires
        call_ensures(
            build_jit_code_meta,
            (executable, program, code_ptr, code_len, host_symbols, function_entry_offsets),
            meta,
        ),
    ensures
        executable.program_id matches Some(id) ==> meta.id@ == id@,
        executable.program_id is None ==> {
            &&& meta.id@.len() == 13
            &&& meta.id@.take(5) == seq!['s', 'b', 'p', 'f', '_']
            &&& text::number_value(meta.id@.skip(5), 16) == hash::murmur3(program@)
        },
        meta.code_ptr == code_ptr,
        meta.code_len == code_len,
        meta.sbpf_version == executable.sbpf_version,
        meta.host_symbols@ == host_symbols@,
        meta.function_entry_offsets@ == function_entry_offsets@,
        forall|i: int|
            #![trigger executable.function_registry@[i]]
            0 <= i < executable.function_registry@.len() && {
                let entry = executable.function_registry@[i];
                &&& executable.program_id is None || entry.value != executable.entry_pc
                &&& entry.name.len() > 0
                &&& utf8::valid_utf8(entry.name)
            } ==> exists|k: int|
                {
                    let entry = executable.function_registry@[i];
                    &&& 0 <= k < meta.symbols@.len()
                    &&& (#[trigger] meta.symbols@[k]).key == entry.key
                    &&& meta.symbols@[k].pc == entry.value
                    &&& utf8::encode_utf8(meta.symbols@[k].name@) == entry.name
                },
        ({
            let named = executable.syscall_registry@.filter(
                |entry: EntryView<()>| entry.name.len() > 0,
            );
            &&& meta.syscalls@.len() == named.len()
            &&& forall|k: int|
                0 <= k < named.len() && utf8::valid_utf8(named[k].name) ==> utf8::encode_utf8(
                    (#[trigger] meta.syscalls@[k]).name@,
                ) == named[k].name
        }),
{
    law_program_goes_by_name_or_hash(*executable, hash::murmur3(program@));
    law_registered_syscalls_are_kept(executable.syscall_registry@, meta.syscalls@);
    assert forall|i: int|
        #![trigger executable.function_registry@[i]]
        0 <= i < executable.function_registry@.len() && {
            let entry = executable.function_registry@[i];
            &&& executable.program_id is None || entry.value != executable.entry_pc
            &&& entry.name.len() > 0
            &&& utf8::valid_utf8(entry.name)
        } implies exists|k: int|
        {
            let entry = executable.function_registry@[i];
            &&& 0 <= k < meta.symbols@.len()
            &&& (#[trigger] meta.symbols@[k]).key == entry.key
            &&& meta.symbols@[k].pc == entry.value
            &&& utf8::encode_utf8(meta.symbols@[k].name@) == entry.name
        } by {
        law_registered_names_are_kept(
            *executable,
            meta.id@,
            entrypoint_key(),
            meta.symbols@,
            i,
        );
    }
}

} // verus!
