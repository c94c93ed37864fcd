//! The symbol file that a debugger gets for a compiled program.

use crate::bytes;
use crate::code_map;
use crate::debug_line;
use crate::elf_format;
use crate::elf_format::{ElfSymbol, Section, SectionView};
use crate::elf_reader;
use crate::meta::{JitCodeMeta, JitHostSymbol, JitSymbol};
use crate::symbol_set;
use crate::symbol_set::SymbolSet;
use vstd::prelude::*;
use vstd::utf8;

verus! {

/// A section of program data.
pub const SHT_PROGBITS: u32 = 1;

/// A symbol table.
pub const SHT_SYMTAB: u32 = 2;

/// A string table.
pub const SHT_STRTAB: u32 = 3;

/// The section is in memory when the program runs.
pub const SHF_ALLOC: u64 = 0x2;

/// The section holds machine code.
pub const SHF_EXECINSTR: u64 = 0x4;

/// A symbol that is visible everywhere.
pub const STB_GLOBAL: u8 = 1;

/// A symbol that is a function.
pub const STT_FUNC: u8 = 2;

/// The address of the code at `offset`, modulo the address space.
pub open spec fn code_address(code_ptr: u64, offset: int) -> u64 {
    ((code_ptr + offset) % 0x1_0000_0000_0000_0000) as u64
}

/// Whether two symbols name the same program counter the same way.
pub open spec fn same_symbol(a: JitSymbol, b: JitSymbol) -> bool {
    a.pc == b.pc && a.name@ == b.name@
}

/// Whether the symbol number `i` is in the code and is the first of its name
/// and program counter.
pub open spec fn is_first(symbols: Seq<JitSymbol>, code_len: nat, i: int) -> bool {
    &&& symbols[i].pc < code_len
    &&& forall|j: int| 0 <= j < i ==> !same_symbol(#[trigger] symbols[j], symbols[i])
}

/// The symbol file's entry for a function of the program.
pub open spec fn function_symbol(
    meta: JitCodeMeta,
    text: Seq<u8>,
    pc_offsets: Seq<u32>,
    symbol: JitSymbol,
) -> ElfSymbol {
    ElfSymbol {
        name: utf8::encode_utf8(symbol.name@),
        value: code_address(
            meta.code_ptr,
            code_map::entry_offset(
                meta.function_entry_offsets@,
                text,
                pc_offsets,
                symbol.pc as int,
            )->0,
        ),
        size: 0,
    }
}

/// The entries for the first `count` functions, each named program counter
/// once.
pub open spec fn function_symbols(
    meta: JitCodeMeta,
    text: Seq<u8>,
    pc_offsets: Seq<u32>,
    count: nat,
) -> Seq<ElfSymbol>
    decreases count,
{
    if count == 0 {
        Seq::empty()
    } else {
        let before = function_symbols(meta, text, pc_offsets, (count - 1) as nat);
        if is_first(meta.symbols@, pc_offsets.len(), count - 1) {
            before.push(function_symbol(meta, text, pc_offsets, meta.symbols@[count - 1]))
        } else {
            before
        }
    }
}

/// The entries for the first `count` host symbols, without the empty ones.
pub open spec fn host_symbols(
    symbols: Seq<JitHostSymbol>,
    code_ptr: u64,
    count: nat,
) -> Seq<ElfSymbol>
    decreases count,
{
    if count == 0 {
        Seq::empty()
    } else {
        let before = host_symbols(symbols, code_ptr, (count - 1) as nat);
        let symbol = symbols[count - 1];
        if symbol.host_start < symbol.host_end {
            before.push(
                ElfSymbol {
                    name: utf8::encode_utf8(symbol.name@),
                    value: code_address(code_ptr, symbol.host_start as int),
                    size: (symbol.host_end - symbol.host_start) as u64,
                },
            )
        } else {
            before
        }
    }
}

/// All entries of the symbol table.
pub open spec fn image_symbols(
    meta: JitCodeMeta,
    text: Seq<u8>,
    pc_offsets: Seq<u32>,
) -> Seq<ElfSymbol> {
    function_symbols(meta, text, pc_offsets, meta.symbols@.len()) + host_symbols(
        meta.host_symbols@,
        meta.code_ptr,
        meta.host_symbols@.len(),
    )
}

/// The section of the machine code.
pub open spec fn text_section(code_ptr: u64, text: Seq<u8>) -> SectionView {
    SectionView {
        name: utf8::encode_utf8(".text"@),
        sh_type: SHT_PROGBITS,
        sh_flags: 6,
        sh_addr: code_ptr,
        sh_addralign: 16,
        sh_entsize: 0,
        link: 0,
        info: 0,
        data: text,
    }
}

/// The section of the symbols, whose names are in section three.
pub open spec fn symtab_section(symbols: Seq<ElfSymbol>) -> SectionView {
    SectionView {
        name: utf8::encode_utf8(".symtab"@),
        sh_type: SHT_SYMTAB,
        sh_flags: 0,
        sh_addr: 0,
        sh_addralign: 8,
        sh_entsize: 24,
        link: 3,
        info: 1,
        data: elf_format::symbol_table(symbols),
    }
}

/// A section that is neither loaded nor aligned.
pub open spec fn plain_section(name: Seq<char>, sh_type: u32, data: Seq<u8>) -> SectionView {
    SectionView {
        name: utf8::encode_utf8(name),
        sh_type,
        sh_flags: 0,
        sh_addr: 0,
        sh_addralign: 1,
        sh_entsize: 0,
        link: 0,
        info: 0,
        data,
    }
}

/// The names of the sections of a symbol file.
pub open spec fn image_names() -> Seq<Seq<u8>> {
    seq![
        utf8::encode_utf8(".text"@),
        utf8::encode_utf8(".symtab"@),
        utf8::encode_utf8(".strtab"@),
        utf8::encode_utf8(".debug_line"@),
        utf8::encode_utf8(".shstrtab"@),
    ]
}

/// The sections of a symbol file.
pub open spec fn image_sections(
    meta: JitCodeMeta,
    text: Seq<u8>,
    pc_offsets: Seq<u32>,
) -> Seq<SectionView> {
    let symbols = image_symbols(meta, text, pc_offsets);
    seq![
        text_section(meta.code_ptr, text),
        symtab_section(symbols),
        plain_section(
            ".strtab"@,
            SHT_STRTAB,
            elf_format::string_table(elf_format::symbol_names(symbols)),
        ),
        plain_section(
            ".debug_line"@,
            SHT_PROGBITS,
            debug_line::debug_line(meta.id@, meta.code_ptr, pc_offsets),
        ),
        plain_section(".shstrtab"@, SHT_STRTAB, elf_format::string_table(image_names())),
    ]
}

/// The symbol file of a compiled program.
pub open spec fn elf_image(meta: JitCodeMeta, text: Seq<u8>, pc_offsets: Seq<u32>) -> Seq<u8> {
    elf_format::elf_file(image_sections(meta, text, pc_offsets))
}

/// Whether the symbol file can be built: the addresses fit in 64 bits and the
/// file in memory.
pub open spec fn image_fits(meta: JitCodeMeta, text: Seq<u8>, pc_offsets: Seq<u32>) -> bool {
    &&& debug_line::addresses_fit(meta.code_ptr, pc_offsets)
    &&& elf_image(meta, text, pc_offsets).len() <= usize::MAX
}

/// Adds code offsets modulo the address space.
fn wrapped_address(code_ptr: u64, offset: u64) -> (addr: u64)
    ensures
        addr == code_address(code_ptr, offset as int),
{
    code_ptr.wrapping_add(offset)
}

/// Builds the symbol and string tables of the functions.
fn build_function_symbols(meta: &JitCodeMeta, text: &[u8], pc_offsets: &[u32]) -> (tables: (
    Vec<u8>,
    Vec<u8>,
))
    ensures
        tables.0@ == elf_format::symbol_table(
            function_symbols(*meta, text@, pc_offsets@, meta.symbols@.len()),
        ),
        tables.1@ == elf_format::string_table(
            elf_format::symbol_names(
                function_symbols(*meta, text@, pc_offsets@, meta.symbols@.len()),
            ),
        ),
{
    let mut strtab: Vec<u8> = Vec::new();
    strtab.push(0);
    let mut symtab: Vec<u8> = Vec::new();
    bytes::pad_to(&mut symtab, elf_format::SYMBOL_SIZE);
    let mut emitted = SymbolSet::new();
    let mut i: usize = 0;
    assert(strtab@ =~= seq![0u8]);
    assert(symtab@ =~= bytes::zeros(24));
    while i < meta.symbols.len()
        invariant
            i <= meta.symbols@.len(),
            emitted.wf(),
            forall|pc: usize, name: Seq<char>| #[trigger]
                emitted@.contains((pc, name)) <==> exists|j: int|
                    0 <= j < i && (#[trigger] meta.symbols@[j]).pc == pc
                        && meta.symbols@[j].name@ == name && pc < pc_offsets@.len(),
            symtab@ == elf_format::symbol_table(
                function_symbols(*meta, text@, pc_offsets@, i as nat),
            ),
            strtab@ == elf_format::string_table(
                elf_format::symbol_names(function_symbols(*meta, text@, pc_offsets@, i as nat)),
            ),
        decreases meta.symbols@.len() - i,
    {
        let symbol = &meta.symbols[i];
        let ghost before = function_symbols(*meta, text@, pc_offsets@, i as nat);
        let ghost known = emitted@;
        let ghost key = (symbol.pc, symbol.name@);
        if symbol.pc < pc_offsets.len() {
            let is_new = emitted.insert(symbol.pc, symbol.name.as_str());
            proof {
                assert(is_new == is_first(meta.symbols@, pc_offsets@.len(), i as int)) by {
                    if is_new {
                        assert forall|j: int| 0 <= j < i implies !same_symbol(
                            #[trigger] meta.symbols@[j],
                            meta.symbols@[i as int],
                        ) by {
                            if same_symbol(meta.symbols@[j], meta.symbols@[i as int]) {
                                assert(known.contains((symbol.pc, symbol.name@)));
                            }
                        }
                    } else {
                        assert(known.contains((symbol.pc, symbol.name@)));
                        let j = choose|j: int|
                            0 <= j < i && (#[trigger] meta.symbols@[j]).pc == symbol.pc
                                && meta.symbols@[j].name@ == symbol.name@;
                        assert(same_symbol(meta.symbols@[j], meta.symbols@[i as int]));
                    }
                }
                symbol_set::lemma_members_after_insert(known, emitted@, key, is_new);
                assert forall|pc: usize, name: Seq<char>| #[trigger]
                    emitted@.contains((pc, name)) <==> exists|j: int|
                        0 <= j < i + 1 && (#[trigger] meta.symbols@[j]).pc == pc
                            && meta.symbols@[j].name@ == name && pc < pc_offsets@.len() by {
                    if emitted@.contains((pc, name)) {
                        if (pc, name) == key {
                            assert(meta.symbols@[i as int].pc == pc);
                        } else {
                            assert(known.contains((pc, name)));
                        }
                    }
                    if exists|j: int|
                        0 <= j < i + 1 && (#[trigger] meta.symbols@[j]).pc == pc
                            && meta.symbols@[j].name@ == name && pc < pc_offsets@.len() {
                        let j = choose|j: int|
                            0 <= j < i + 1 && (#[trigger] meta.symbols@[j]).pc == pc
                                && meta.symbols@[j].name@ == name && pc < pc_offsets@.len();
                        if j < i {
                            assert(known.contains((pc, name)));
                        }
                    }
                }
            }
            if is_new {
                if let Some(host_offset) = code_map::function_entry_offset(
                    meta,
                    text,
                    pc_offsets,
                    symbol.pc,
                ) {
                    let addr: u64 = wrapped_address(meta.code_ptr, host_offset as u64);
                    let name_offset = elf_format::add_str(
                        &mut strtab,
                        symbol.name.as_str().as_bytes(),
                    );
                    elf_format::write_sym(
                        &mut symtab,
                        name_offset,
                        STB_GLOBAL,
                        STT_FUNC,
                        1,
                        addr,
                        0,
                    );
                    proof {
                        lemma_tables_grow(
                            before,
                            function_symbol(*meta, text@, pc_offsets@, *symbol),
                        );
                    }
                }
            }
        } else {
            assert(!is_first(meta.symbols@, pc_offsets@.len(), i as int));
            assert forall|pc: usize, name: Seq<char>| #[trigger]
                emitted@.contains((pc, name)) <==> exists|j: int|
                    0 <= j < i + 1 && (#[trigger] meta.symbols@[j]).pc == pc
                        && meta.symbols@[j].name@ == name && pc < pc_offsets@.len() by {
                if exists|j: int|
                    0 <= j < i + 1 && (#[trigger] meta.symbols@[j]).pc == pc
                        && meta.symbols@[j].name@ == name && pc < pc_offsets@.len() {
                    let j = choose|j: int|
                        0 <= j < i + 1 && (#[trigger] meta.symbols@[j]).pc == pc
                            && meta.symbols@[j].name@ == name && pc < pc_offsets@.len();
                    assert(j < i);
                }
            }
        }
        i = i + 1;
    }
    (symtab, strtab)
}

proof fn lemma_tables_grow(before: Seq<ElfSymbol>, symbol: ElfSymbol)
    ensures
        elf_format::string_table(elf_format::symbol_names(before.push(symbol)))
            == elf_format::string_table(elf_format::symbol_names(before)) + symbol.name
            + seq![0u8],
        elf_format::symbol_table(before.push(symbol)) == elf_format::symbol_table(before)
            + elf_format::symbol_entry(
            bytes::low32(elf_format::string_table(elf_format::symbol_names(before)).len()),
            STB_GLOBAL,
            STT_FUNC,
            1,
            symbol.value,
            symbol.size,
        ),
{
    let after = before.push(symbol);
    assert(after.drop_last() =~= before);
    assert(elf_format::symbol_names(after).drop_last() =~= elf_format::symbol_names(before));
    assert(elf_format::symbol_names(after).last() == symbol.name);
}

/// Adds the host symbols to the tables of the functions.
fn add_host_symbols(
    meta: &JitCodeMeta,
    symtab: &mut Vec<u8>,
    strtab: &mut Vec<u8>,
    Ghost(functions): Ghost<Seq<ElfSymbol>>,
)
    requires
        old(symtab)@ == elf_format::symbol_table(functions),
        old(strtab)@ == elf_format::string_table(elf_format::symbol_names(functions)),
    ensures
        final(symtab)@ == elf_format::symbol_table(
            functions + host_symbols(
                meta.host_symbols@,
                meta.code_ptr,
                meta.host_symbols@.len(),
            ),
        ),
        final(strtab)@ == elf_format::string_table(
            elf_format::symbol_names(
                functions + host_symbols(
                    meta.host_symbols@,
                    meta.code_ptr,
                    meta.host_symbols@.len(),
                ),
            ),
        ),
{
    let mut i: usize = 0;
    assert(functions + host_symbols(meta.host_symbols@, meta.code_ptr, 0) =~= functions);
    while i < meta.host_symbols.len()
        invariant
            i <= meta.host_symbols@.len(),
            symtab@ == elf_format::symbol_table(
                functions + host_symbols(meta.host_symbols@, meta.code_ptr, i as nat),
            ),
            strtab@ == elf_format::string_table(
                elf_format::symbol_names(
                    functions + host_symbols(meta.host_symbols@, meta.code_ptr, i as nat),
                ),
            ),
        decreases meta.host_symbols@.len() - i,
    {
        let symbol = &meta.host_symbols[i];
        let ghost before = functions + host_symbols(meta.host_symbols@, meta.code_ptr, i as nat);
        if symbol.host_end > symbol.host_start {
            let addr: u64 = wrapped_address(meta.code_ptr, symbol.host_start);
            let size: u64 = symbol.host_end.saturating_sub(symbol.host_start);
            let name_offset = elf_format::add_str(strtab, symbol.name.as_str().as_bytes());
            elf_format::write_sym(symtab, name_offset, STB_GLOBAL, STT_FUNC, 1, addr, size);
            proof {
                let entry = ElfSymbol {
                    name: utf8::encode_utf8(symbol.name@),
                    value: addr,
                    size,
                };
                lemma_tables_grow(before, entry);
                assert(before.push(entry) =~= functions + host_symbols(
                    meta.host_symbols@,
                    meta.code_ptr,
                    (i + 1) as nat,
                ));
            }
        }
        i = i + 1;
    }
}

/// Builds the symbol file of a compiled program: its machine code, its
/// functions and host symbols, and its line table.
#[verifier::rlimit(30)]
pub fn build_elf(meta: &JitCodeMeta, text: &[u8], pc_offsets: &[u32]) -> (elf: Vec<u8>)
    requires
        image_fits(*meta, text@, pc_offsets@),
    ensures
        elf@ == elf_image(*meta, text@, pc_offsets@),
{
    let (mut symtab, mut strtab) = build_function_symbols(meta, text, pc_offsets);
    add_host_symbols(
        meta,
        &mut symtab,
        &mut strtab,
        Ghost(function_symbols(*meta, text@, pc_offsets@, meta.symbols@.len())),
    );
    let debug_line = debug_line::build_debug_line(meta, pc_offsets);
    assert(SHF_ALLOC | SHF_EXECINSTR == 6) by (bit_vector);
    let mut sections: Vec<Section> = vec![
        Section {
            name: ".text",
            sh_type: SHT_PROGBITS,
            sh_flags: SHF_ALLOC | SHF_EXECINSTR,
            sh_addr: meta.code_ptr,
            sh_addralign: 16,
            sh_entsize: 0,
            link: 0,
            info: 0,
            data: vstd::slice::slice_to_vec(text),
        },
        Section {
            name: ".symtab",
            sh_type: SHT_SYMTAB,
            sh_flags: 0,
            sh_addr: 0,
            sh_addralign: 8,
            sh_entsize: 24,
            link: 3,
            info: 1,
            data: symtab,
        },
        Section {
            name: ".strtab",
            sh_type: SHT_STRTAB,
            sh_flags: 0,
            sh_addr: 0,
            sh_addralign: 1,
            sh_entsize: 0,
            link: 0,
            info: 0,
            data: strtab,
        },
        Section {
            name: ".debug_line",
            sh_type: SHT_PROGBITS,
            sh_flags: 0,
            sh_addr: 0,
            sh_addralign: 1,
            sh_entsize: 0,
            link: 0,
            info: 0,
            data: debug_line,
        },
        Section {
            name: ".shstrtab",
            sh_type: SHT_STRTAB,
            sh_flags: 0,
            sh_addr: 0,
            sh_addralign: 1,
            sh_entsize: 0,
            link: 0,
            info: 0,
            data: Vec::new(),
        },
    ];
    let (shstrtab, name_offsets) = elf_format::build_section_names(&sections);
    assert(elf_format::section_names(elf_format::section_views(sections@)) =~= image_names());
    sections[4].data = shstrtab;
    let ghost wanted = image_sections(*meta, text@, pc_offsets@);
    assert(elf_format::section_views(sections@) =~= wanted);
    assert(elf_format::section_names(wanted) =~= image_names());
    elf_format::write_elf(&sections, &name_offsets)
}

proof fn lemma_ascii_name(name: Seq<char>)
    requires
        forall|i: int| 0 <= i < name.len() ==> '\0' < #[trigger] name[i] <= '\u{7f}',
    ensures
        utf8::encode_utf8(name).len() == name.len(),
        forall|i: int| 0 <= i < name.len() ==> utf8::encode_utf8(name)[i] != 0,
{
    assert(utf8::is_ascii_chars(name));
    utf8::is_ascii_chars_encode_utf8(name);
    assert forall|i: int| 0 <= i < name.len() implies utf8::encode_utf8(name)[i] != 0 by {
        assert('\0' < name[i]);
        assert(name[i] as u8 == utf8::encode_utf8(name)[i]);
    }
}

proof fn lemma_image_names()
    ensures
        image_names().len() == 5,
        image_names()[0].len() == 5,
        image_names()[1].len() == 7,
        image_names()[2].len() == 7,
        image_names()[3].len() == 11,
        image_names()[4].len() == 9,
        forall|i: int, n: int|
            0 <= i < 5 && 0 <= n < image_names()[i].len() ==> #[trigger] image_names()[i][n] != 0,
{
    reveal_strlit(".text");
    reveal_strlit(".symtab");
    reveal_strlit(".strtab");
    reveal_strlit(".debug_line");
    reveal_strlit(".shstrtab");
    lemma_ascii_name(".text"@);
    lemma_ascii_name(".symtab"@);
    lemma_ascii_name(".strtab"@);
    lemma_ascii_name(".debug_line"@);
    lemma_ascii_name(".shstrtab"@);
}

proof fn lemma_image_names_table()
    ensures
        elf_format::string_table(image_names()).len() == 45,
        forall|i: int| 0 <= i <= 5 ==> #[trigger] elf_format::string_offset(image_names(), i) <= 45,
{
    lemma_image_names();
    let names = image_names();
    assert(names.take(0) =~= Seq::<Seq<u8>>::empty());
    assert(names.take(1).drop_last() =~= names.take(0));
    assert(names.take(2).drop_last() =~= names.take(1));
    assert(names.take(3).drop_last() =~= names.take(2));
    assert(names.take(4).drop_last() =~= names.take(3));
    assert(names.take(5).drop_last() =~= names.take(4));
    assert(names.take(5) =~= names);
    assert(elf_format::string_offset(names, 0) == 1);
    assert(elf_format::string_offset(names, 1) == 7);
    assert(elf_format::string_offset(names, 2) == 15);
    assert(elf_format::string_offset(names, 3) == 23);
    assert(elf_format::string_offset(names, 4) == 35);
    assert(elf_format::string_offset(names, 5) == 45);
}

proof fn lemma_image_name_read_back(i: int)
    requires
        0 <= i < 5,
    ensures
        elf_format::string_offset(image_names(), i) <= 45,
        bytes::c_string(
            elf_format::string_table(image_names()),
            elf_format::string_offset(image_names(), i) as int,
        ) == image_names()[i],
{
    lemma_image_names();
    lemma_image_names_table();
    elf_reader::law_string_read_back(image_names(), i);
}

/// The header of a section says where its name stands.
proof fn lemma_section_name(sections: Seq<SectionView>, i: int)
    requires
        0 <= i < 5,
        elf_format::section_names(sections) == image_names(),
    ensures
        bytes::c_string(
            elf_format::string_table(image_names()),
            elf_format::header_of(sections, i).name as int,
        ) == image_names()[i],
{
    lemma_image_name_read_back(i);
    assert(elf_format::header_of(sections, i).name == elf_format::string_offset(image_names(), i));
}

/// What is read of a section.
proof fn lemma_named_section(sections: Seq<SectionView>, i: int)
    requires
        elf_format::elf_file(sections).len() <= u64::MAX,
        0 <= i < sections.len(),
        sections.len() == 5,
        elf_format::section_names(sections) == image_names(),
    ensures
        ({
            let file = elf_format::elf_file(sections);
            let header = elf_reader::read_header(file, i + 1);
            &&& elf_reader::read_section_count(file) == 6
            &&& elf_reader::read_names_index(file) == 5
            &&& elf_reader::read_data(file, i + 1) == sections[i].data
            &&& header == elf_format::header_of(sections, i)
            &&& bytes::c_string(
                elf_format::string_table(image_names()),
                header.name as int,
            ) == image_names()[i]
        }),
{
    lemma_section_name(sections, i);
    elf_format::lemma_elf_file_len(sections);
    elf_reader::law_file_header_read_back(sections);
    elf_reader::law_section_read_back(sections, i);
}

/// A debugger that reads the symbol file finds five sections behind the null
/// section, each under its name: the machine code at its address, the symbols,
/// their names, the line table, and the section names.
pub proof fn law_symbol_file_read_back(meta: JitCodeMeta, text: Seq<u8>, pc_offsets: Seq<u32>)
    requires
        elf_image(meta, text, pc_offsets).len() <= u64::MAX,
    ensures
        ({
            let file = elf_image(meta, text, pc_offsets);
            let symbols = image_symbols(meta, text, pc_offsets);
            let names = elf_reader::read_data(file, elf_reader::read_names_index(file) as int);
            &&& elf_reader::read_section_count(file) == 6
            &&& forall|i: int|
                0 <= i < 5 ==> #[trigger] bytes::c_string(
                    names,
                    elf_reader::read_header(file, i + 1).name as int,
                ) == image_names()[i]
            &&& elf_reader::read_header(file, 1).sh_addr == meta.code_ptr
            &&& elf_reader::read_data(file, 1) == text
            &&& elf_reader::read_data(file, 2) == elf_format::symbol_table(symbols)
            &&& elf_reader::read_header(file, 2).sh_link == 3
            &&& elf_reader::read_data(file, 3) == elf_format::string_table(
                elf_format::symbol_names(symbols),
            )
            &&& elf_reader::read_data(file, 4) == debug_line::debug_line(
                meta.id@,
                meta.code_ptr,
                pc_offsets,
            )
        }),
{
    let file = elf_image(meta, text, pc_offsets);
    let names = elf_format::string_table(image_names());
    let sections = image_sections(meta, text, pc_offsets);
    assert(elf_format::section_names(sections) =~= image_names());
    lemma_named_section(sections, 0);
    lemma_named_section(sections, 1);
    lemma_named_section(sections, 2);
    lemma_named_section(sections, 3);
    lemma_named_section(sections, 4);
    assert forall|i: int| 0 <= i < 5 implies #[trigger] bytes::c_string(
        names,
        elf_reader::read_header(file, i + 1).name as int,
    ) == image_names()[i] by {
        lemma_named_section(sections, i);
    }
}

/// A debugger that reads the symbols of the symbol file finds each with its
/// name, address and size, where no name has a zero byte and all of them have
/// less than four gigabytes.
pub proof fn law_symbols_read_back(
    meta: JitCodeMeta,
    text: Seq<u8>,
    pc_offsets: Seq<u32>,
    i: int,
)
    requires
        elf_image(meta, text, pc_offsets).len() <= u64::MAX,
        0 <= i < image_symbols(meta, text, pc_offsets).len(),
        elf_format::string_table(
            elf_format::symbol_names(image_symbols(meta, text, pc_offsets)),
        ).len() < 0x1_0000_0000,
        forall|n: int|
            0 <= n < image_symbols(meta, text, pc_offsets)[i].name.len()
                ==> image_symbols(meta, text, pc_offsets)[i].name[n] != 0,
    ensures
        ({
            let file = elf_image(meta, text, pc_offsets);
            elf_reader::read_symbol(
                elf_reader::read_data(file, 2),
                elf_reader::read_data(file, elf_reader::read_header(file, 2).sh_link as int),
                i + 1,
            ) == image_symbols(meta, text, pc_offsets)[i]
        }),
{
    law_symbol_file_read_back(meta, text, pc_offsets);
    elf_reader::law_symbol_read_back(image_symbols(meta, text, pc_offsets), i);
}

/// Each function in the code is in the symbol table: one of its name stands
/// there with its address.
pub proof fn law_every_function_has_a_symbol(
    meta: JitCodeMeta,
    text: Seq<u8>,
    pc_offsets: Seq<u32>,
    i: int,
)
    requires
        0 <= i < meta.symbols@.len(),
        meta.symbols@[i].pc < pc_offsets.len(),
    ensures
        image_symbols(meta, text, pc_offsets).contains(
            function_symbol(meta, text, pc_offsets, meta.symbols@[i]),
        ),
{
    let first = lemma_first_of(meta.symbols@, pc_offsets.len(), i);
    let entry = function_symbol(meta, text, pc_offsets, meta.symbols@[i]);
    assert(entry == function_symbol(meta, text, pc_offsets, meta.symbols@[first]));
    lemma_first_is_listed(meta, text, pc_offsets, meta.symbols@.len(), first);
    let functions = function_symbols(meta, text, pc_offsets, meta.symbols@.len());
    let k = choose|k: int| 0 <= k < functions.len() && functions[k] == entry;
    assert(image_symbols(meta, text, pc_offsets)[k] == entry);
}

proof fn lemma_first_of(symbols: Seq<JitSymbol>, code_len: nat, i: int) -> (first: int)
    requires
        0 <= i < symbols.len(),
        symbols[i].pc < code_len,
    ensures
        0 <= first <= i,
        is_first(symbols, code_len, first),
        same_symbol(symbols[first], symbols[i]),
    decreases i,
{
    if is_first(symbols, code_len, i) {
        i
    } else {
        let j = choose|j: int| 0 <= j < i && same_symbol(#[trigger] symbols[j], symbols[i]);
        lemma_first_of(symbols, code_len, j)
    }
}

proof fn lemma_first_is_listed(
    meta: JitCodeMeta,
    text: Seq<u8>,
    pc_offsets: Seq<u32>,
    count: nat,
    i: int,
)
    requires
        0 <= i < count <= meta.symbols@.len(),
        is_first(meta.symbols@, pc_offsets.len(), i),
    ensures
        function_symbols(meta, text, pc_offsets, count).contains(
            function_symbol(meta, text, pc_offsets, meta.symbols@[i]),
        ),
    decreases count,
{
    let entry = function_symbol(meta, text, pc_offsets, meta.symbols@[i]);
    let all = function_symbols(meta, text, pc_offsets, count);
    let before = function_symbols(meta, text, pc_offsets, (count - 1) as nat);
    if i == count - 1 {
        assert(all[before.len() as int] == entry);
    } else {
        lemma_first_is_listed(meta, text, pc_offsets, (count - 1) as nat, i);
        let k = choose|k: int| 0 <= k < before.len() && before[k] == entry;
        assert(all[k] == entry);
    }
}

/// How many of the first `count` symbols are in the code and the first of
/// their name and program counter.
pub open spec fn distinct_functions(symbols: Seq<JitSymbol>, code_len: nat, count: nat) -> nat
    decreases count,
{
    if count == 0 {
        0
    } else {
        distinct_functions(symbols, code_len, (count - 1) as nat) + if is_first(
            symbols,
            code_len,
            count - 1,
        ) {
            1nat
        } else {
            0
        }
    }
}

/// Aliases of one name at one program counter share one symbol: there are as
/// many function symbols as different named program counters.
pub proof fn law_aliases_share_a_symbol(
    meta: JitCodeMeta,
    text: Seq<u8>,
    pc_offsets: Seq<u32>,
    count: nat,
)
    ensures
        function_symbols(meta, text, pc_offsets, count).len() == distinct_functions(
            meta.symbols@,
            pc_offsets.len(),
            count,
        ),
    decreases count,
{
    if count > 0 {
        law_aliases_share_a_symbol(meta, text, pc_offsets, (count - 1) as nat);
    }
}

/// The five sections of the symbol file have the kinds that their names stand
/// for. The machine code is program data that is loaded and executed, at its
/// address and aligned to sixteen bytes; the symbols are a symbol table of
/// entries of 24 bytes, the first of which is local, with their names in
/// section three; the two tables of names are string tables, and the line
/// table is program data.
pub proof fn law_sections_have_their_kinds(meta: JitCodeMeta, text: Seq<u8>, pc_offsets: Seq<u32>)
    requires
        elf_image(meta, text, pc_offsets).len() <= u64::MAX,
    ensures
        ({
            let file = elf_image(meta, text, pc_offsets);
            let names = elf_reader::read_data(file, 5);
            let code = elf_reader::read_header(file, 1);
            let symbols = elf_reader::read_header(file, 2);
            let strings = elf_reader::read_header(file, 3);
            let lines = elf_reader::read_header(file, 4);
            let sections = elf_reader::read_header(file, 5);
            &&& bytes::field(file, 60, 2) == 6
            &&& bytes::field(file, 62, 2) == 5
            &&& bytes::c_string(names, code.name as int) == utf8::encode_utf8(".text"@)
            &&& bytes::c_string(names, symbols.name as int) == utf8::encode_utf8(".symtab"@)
            &&& bytes::c_string(names, strings.name as int) == utf8::encode_utf8(".strtab"@)
            &&& bytes::c_string(names, lines.name as int) == utf8::encode_utf8(".debug_line"@)
            &&& bytes::c_string(names, sections.name as int) == utf8::encode_utf8(".shstrtab"@)
            &&& code.sh_type == 1 && code.sh_flags == 6 && code.sh_addr == meta.code_ptr
            &&& code.sh_addralign == 16 && code.sh_entsize == 0
            &&& code.sh_link == 0 && code.sh_info == 0
            &&& symbols.sh_type == 2 && symbols.sh_flags == 0 && symbols.sh_addr == 0
            &&& symbols.sh_addralign == 8 && symbols.sh_entsize == 24
            &&& symbols.sh_link == 3 && symbols.sh_info == 1
            &&& strings.sh_type == 3 && strings.sh_flags == 0 && strings.sh_addr == 0
            &&& strings.sh_addralign == 1 && strings.sh_entsize == 0
            &&& strings.sh_link == 0 && strings.sh_info == 0
            &&& lines.sh_type == 1 && lines.sh_flags == 0 && lines.sh_addr == 0
            &&& lines.sh_addralign == 1 && lines.sh_entsize == 0
            &&& lines.sh_link == 0 && lines.sh_info == 0
            &&& sections.sh_type == 3 && sections.sh_flags == 0 && sections.sh_addr == 0
            &&& sections.sh_addralign == 1 && sections.sh_entsize == 0
            &&& sections.sh_link == 0 && sections.sh_info == 0
        }),
{
    let sections = image_sections(meta, text, pc_offsets);
    assert(elf_format::section_names(sections) =~= image_names());
    lemma_named_section(sections, 0);
    lemma_named_section(sections, 1);
    lemma_named_section(sections, 2);
    lemma_named_section(sections, 3);
    lemma_named_section(sections, 4);
}

/// A reader of the symbol file finds each symbol as a global function in the
/// section of the machine code. It follows the file header to the section
/// table, the second header there to the symbol table, and reads one entry of
/// 24 bytes for each symbol behind an entry of zeros.
pub proof fn law_file_lists_global_functions(
    meta: JitCodeMeta,
    text: Seq<u8>,
    pc_offsets: Seq<u32>,
    i: int,
)
    requires
        elf_image(meta, text, pc_offsets).len() <= u64::MAX,
        0 <= i < image_symbols(meta, text, pc_offsets).len(),
    ensures
        ({
            let file = elf_image(meta, text, pc_offsets);
            let header = bytes::field(file, 40, 8) + 128;
            let symtab = bytes::field(file, header as int + 24, 8);
            let entry = symtab + 24 * (i + 1);
            &&& bytes::field(file, header as int + 32, 8) == 24 * (1 + image_symbols(
                meta,
                text,
                pc_offsets,
            ).len())
            &&& file[entry + 4] / 16 == 1
            &&& file[entry + 4] % 16 == 2
            &&& file[entry + 5] == 0
            &&& bytes::field(file, entry + 6, 2) == 1
            &&& forall|n: int| 0 <= n < 24 ==> #[trigger] file[symtab + n] == 0
        }),
{
    let sections = image_sections(meta, text, pc_offsets);
    assert(elf_format::section_names(sections) =~= image_names());
    lemma_symbols_in_file(sections, image_symbols(meta, text, pc_offsets), i);
}

/// Where the symbol table of a file stands and what its entries say.
proof fn lemma_symbols_in_file(sections: Seq<SectionView>, symbols: Seq<ElfSymbol>, i: int)
    requires
        elf_format::elf_file(sections).len() <= u64::MAX,
        sections.len() == 5,
        elf_format::section_names(sections) == image_names(),
        sections[1].sh_addralign == 8,
        sections[1].data == elf_format::symbol_table(symbols),
        0 <= i < symbols.len(),
    ensures
        ({
            let file = elf_format::elf_file(sections);
            let header = bytes::field(file, 40, 8) + 128;
            let symtab = bytes::field(file, header as int + 24, 8);
            let entry = symtab + 24 * (i + 1);
            &&& bytes::field(file, header as int + 32, 8) == 24 * (1 + symbols.len())
            &&& file[entry + 4] / 16 == 1
            &&& file[entry + 4] % 16 == 2
            &&& file[entry + 5] == 0
            &&& bytes::field(file, entry + 6, 2) == 1
            &&& forall|n: int| 0 <= n < 24 ==> #[trigger] file[symtab + n] == 0
        }),
{
    let file = elf_format::elf_file(sections);
    let table = elf_format::symbol_table(symbols);
    let at = elf_reader::read_header(file, 2).sh_offset as int;
    lemma_named_section(sections, 1);
    elf_reader::law_section_read_back(sections, 1);
    elf_reader::law_symbols_are_global_functions(symbols, i);
    elf_reader::law_sections_are_laid_out_in_order(sections, 1);
    lemma_header_numbers(file, 2);
    lemma_entry_in_file(file, at, table, i);
}

/// What stands in a part of a file stands in the file.
proof fn lemma_entry_in_file(file: Seq<u8>, at: int, table: Seq<u8>, i: int)
    requires
        0 <= at,
        at + table.len() <= file.len(),
        file.subrange(at, at + table.len()) == table,
        0 <= i,
        24 * (i + 2) <= table.len(),
    ensures
        file[at + 24 * (i + 1) + 4] == table[24 * (i + 1) + 4],
        file[at + 24 * (i + 1) + 5] == table[24 * (i + 1) + 5],
        bytes::field(file, at + 24 * (i + 1) + 6, 2) == bytes::field(table, 24 * (i + 1) + 6, 2),
        forall|n: int| 0 <= n < 24 ==> #[trigger] file[at + n] == table[n],
{
    let read = file.subrange(at, at + table.len());
    assert forall|n: int| 0 <= n < table.len() implies #[trigger] file[at + n] == table[n] by {
        assert(read[n] == file[at + n]);
    }
    assert(file[at + (24 * (i + 1) + 4)] == table[24 * (i + 1) + 4]);
    assert(file[at + (24 * (i + 1) + 5)] == table[24 * (i + 1) + 5]);
    bytes::lemma_field_of_part(file, at, at + table.len(), 24 * (i + 1) + 6, 2);
}

/// The offset and the size in a header, as they are read from the file.
proof fn lemma_header_numbers(file: Seq<u8>, index: int)
    requires
        0 <= index,
        bytes::field(file, 40, 8) + 64 * (index + 1) <= file.len(),
    ensures
        ({
            let at = bytes::field(file, 40, 8) + 64 * index;
            &&& bytes::field(file, at + 24, 8) == elf_reader::read_header(file, index).sh_offset
            &&& bytes::field(file, at + 32, 8) == elf_reader::read_header(file, index).sh_size
        }),
{
    let at = bytes::field(file, 40, 8) + 64 * index;
    lemma_field_bound(file.subrange(at + 24, at + 32));
    lemma_field_bound(file.subrange(at + 32, at + 40));
}

/// Eight bytes hold no more than 64 bits.
proof fn lemma_field_bound(s: Seq<u8>)
    requires
        s.len() == 8,
    ensures
        bytes::le_value(s) <= u64::MAX,
{
    bytes::law_field_bytes(s, 0);
    bytes::law_field_bytes(s, 4);
    assert(s.subrange(0, 8) =~= s);
}

/// Every function whose program counter has code is in the symbol table, under
/// its whole name, at the place where it starts above the start of the code.
pub proof fn law_functions_are_in_the_table(
    meta: JitCodeMeta,
    text: Seq<u8>,
    pc_offsets: Seq<u32>,
    i: int,
)
    requires
        0 <= i < meta.symbols@.len(),
        meta.symbols@[i].pc < pc_offsets.len(),
    ensures
        ({
            let symbols = image_symbols(meta, text, pc_offsets);
            let start = code_map::entry_offset(
                meta.function_entry_offsets@,
                text,
                pc_offsets,
                meta.symbols@[i].pc as int,
            );
            exists|k: int|
                {
                    &&& 0 <= k < symbols.len()
                    &&& (#[trigger] symbols[k]).name == utf8::encode_utf8(meta.symbols@[i].name@)
                    &&& start is Some
                    &&& symbols[k].value == (meta.code_ptr + start.unwrap())
                        % 0x1_0000_0000_0000_0000
                    &&& symbols[k].size == 0
                }
        }),
{
    law_every_function_has_a_symbol(meta, text, pc_offsets, i);
    let symbols = image_symbols(meta, text, pc_offsets);
    let entry = function_symbol(meta, text, pc_offsets, meta.symbols@[i]);
    let k = choose|k: int| 0 <= k < symbols.len() && symbols[k] == entry;
    code_map::law_functions_start_at_their_frames(
        meta.function_entry_offsets@,
        text,
        pc_offsets,
        meta.symbols@[i].pc as int,
    );
    assert(symbols[k].size == 0);
}

/// The named program counters that have code.
pub open spec fn named_counters(symbols: Seq<JitSymbol>, code_len: nat, count: nat) -> Set<
    (usize, Seq<char>),
> {
    Set::new(
        |key: (usize, Seq<char>)|
            key.0 < code_len && exists|i: int|
                0 <= i < count && (#[trigger] symbols[i]).pc == key.0 && symbols[i].name@ == key.1,
    )
}

/// The symbol table holds one symbol for each named program counter that has
/// code, however often it is named, and one for each host range that is not
/// empty.
pub proof fn law_one_symbol_for_each_named_counter(
    meta: JitCodeMeta,
    text: Seq<u8>,
    pc_offsets: Seq<u32>,
)
    ensures
        ({
            let named = named_counters(meta.symbols@, pc_offsets.len(), meta.symbols@.len());
            let hosts = meta.host_symbols@.filter(
                |host: JitHostSymbol| host.host_start < host.host_end,
            );
            &&& named.finite()
            &&& image_symbols(meta, text, pc_offsets).len() == named.len() + hosts.len()
        }),
{
    lemma_named_counters(meta, text, pc_offsets, meta.symbols@.len());
    lemma_host_symbols(meta.host_symbols@, meta.code_ptr, meta.host_symbols@.len());
    assert(meta.host_symbols@.take(meta.host_symbols@.len() as int) =~= meta.host_symbols@);
}

proof fn lemma_named_counters(
    meta: JitCodeMeta,
    text: Seq<u8>,
    pc_offsets: Seq<u32>,
    count: nat,
)
    requires
        count <= meta.symbols@.len(),
    ensures
        named_counters(meta.symbols@, pc_offsets.len(), count).finite(),
        named_counters(meta.symbols@, pc_offsets.len(), count).len() == function_symbols(
            meta,
            text,
            pc_offsets,
            count,
        ).len(),
    decreases count,
{
    let symbols = meta.symbols@;
    let named = named_counters(symbols, pc_offsets.len(), count);
    if count == 0 {
        assert(named =~= Set::empty());
    } else {
        let fewer = (count - 1) as nat;
        let before = named_counters(symbols, pc_offsets.len(), fewer);
        let last = symbols[count - 1];
        let key = (last.pc, last.name@);
        lemma_named_counters(meta, text, pc_offsets, fewer);
        if is_first(symbols, pc_offsets.len(), count - 1) {
            assert(!before.contains(key)) by {
                if before.contains(key) {
                    let i = choose|i: int|
                        0 <= i < fewer && (#[trigger] symbols[i]).pc == key.0 && symbols[i].name@
                            == key.1;
                    assert(same_symbol(symbols[i], last));
                }
            }
            assert(named =~= before.insert(key)) by {
                assert(symbols[count - 1].pc == key.0);
            }
        } else {
            assert(named =~= before) by {
                if last.pc < pc_offsets.len() {
                    let i = choose|i: int| 0 <= i < fewer && same_symbol(#[trigger] symbols[i], last);
                    assert(before.contains(key));
                }
            }
        }
    }
}

/// The host symbols are those of the ranges that are not empty, in their
/// order: each has the whole name of its range, starts where the range does
/// above the start of the code, and is as large as the range.
pub proof fn law_host_ranges_are_in_the_table(
    meta: JitCodeMeta,
    text: Seq<u8>,
    pc_offsets: Seq<u32>,
    k: int,
)
    requires
        ({
            let hosts = meta.host_symbols@.filter(
                |host: JitHostSymbol| host.host_start < host.host_end,
            );
            0 <= k < hosts.len()
        }),
    ensures
        ({
            let hosts = meta.host_symbols@.filter(
                |host: JitHostSymbol| host.host_start < host.host_end,
            );
            let symbols = image_symbols(meta, text, pc_offsets);
            let symbol = symbols[symbols.len() - hosts.len() + k];
            &&& hosts.len() <= symbols.len()
            &&& symbol.name == utf8::encode_utf8(hosts[k].name@)
            &&& symbol.value == (meta.code_ptr + hosts[k].host_start) % 0x1_0000_0000_0000_0000
            &&& symbol.size == hosts[k].host_end - hosts[k].host_start
        }),
{
    lemma_host_symbols(meta.host_symbols@, meta.code_ptr, meta.host_symbols@.len());
    assert(meta.host_symbols@.take(meta.host_symbols@.len() as int) =~= meta.host_symbols@);
}

proof fn lemma_host_symbols(symbols: Seq<JitHostSymbol>, code_ptr: u64, count: nat)
    requires
        count <= symbols.len(),
    ensures
        ({
            let hosts = symbols.take(count as int).filter(
                |host: JitHostSymbol| host.host_start < host.host_end,
            );
            let listed = host_symbols(symbols, code_ptr, count);
            &&& listed.len() == hosts.len()
            &&& forall|k: int|
                0 <= k < hosts.len() ==> {
                    &&& (#[trigger] listed[k]).name == utf8::encode_utf8(hosts[k].name@)
                    &&& listed[k].value == (code_ptr + hosts[k].host_start)
                        % 0x1_0000_0000_0000_0000
                    &&& listed[k].size == hosts[k].host_end - hosts[k].host_start
                    &&& hosts[k].host_start < hosts[k].host_end
                }
        }),
    decreases count,
{
    reveal(Seq::filter);
    if count > 0 {
        lemma_host_symbols(symbols, code_ptr, (count - 1) as nat);
        assert(symbols.take(count as int).drop_last() =~= symbols.take(count - 1));
    }
}

/// Where no two functions have the same name and program counter and all of
/// them have code, the symbol table lists them all, in their order.
pub proof fn law_distinct_functions_keep_their_order(
    meta: JitCodeMeta,
    text: Seq<u8>,
    pc_offsets: Seq<u32>,
    i: int,
)
    requires
        0 <= i < meta.symbols@.len(),
        forall|a: int|
            0 <= a < meta.symbols@.len() ==> (#[trigger] meta.symbols@[a]).pc < pc_offsets.len(),
        forall|a: int, b: int|
            0 <= a < b < meta.symbols@.len() ==> (#[trigger] meta.symbols@[a]).pc != (
            #[trigger] meta.symbols@[b]).pc || meta.symbols@[a].name@ != meta.symbols@[b].name@,
    ensures
        ({
            let symbols = image_symbols(meta, text, pc_offsets);
            let start = code_map::entry_offset(
                meta.function_entry_offsets@,
                text,
                pc_offsets,
                meta.symbols@[i].pc as int,
            );
            &&& i < symbols.len()
            &&& symbols[i].name == utf8::encode_utf8(meta.symbols@[i].name@)
            &&& symbols[i].value == (meta.code_ptr + start.unwrap()) % 0x1_0000_0000_0000_0000
            &&& symbols[i].size == 0
        }),
{
    lemma_distinct_functions(meta, text, pc_offsets, meta.symbols@.len(), i);
    code_map::law_functions_start_at_their_frames(
        meta.function_entry_offsets@,
        text,
        pc_offsets,
        meta.symbols@[i].pc as int,
    );
}

proof fn lemma_distinct_functions(
    meta: JitCodeMeta,
    text: Seq<u8>,
    pc_offsets: Seq<u32>,
    count: nat,
    i: int,
)
    requires
        count <= meta.symbols@.len(),
        forall|a: int|
            0 <= a < count ==> (#[trigger] meta.symbols@[a]).pc < pc_offsets.len(),
        forall|a: int, b: int|
            0 <= a < b < count ==> (#[trigger] meta.symbols@[a]).pc != (
            #[trigger] meta.symbols@[b]).pc || meta.symbols@[a].name@ != meta.symbols@[b].name@,
    ensures
        function_symbols(meta, text, pc_offsets, count).len() == count,
        0 <= i < count ==> function_symbols(meta, text, pc_offsets, count)[i] == function_symbol(
            meta,
            text,
            pc_offsets,
            meta.symbols@[i],
        ),
    decreases count,
{
    if count > 0 {
        lemma_distinct_functions(meta, text, pc_offsets, (count - 1) as nat, i);
        assert(is_first(meta.symbols@, pc_offsets.len(), count - 1));
    }
}

/// A symbol file can be built of every program whose addresses are below two to
/// the power of 64 and whose file fits in memory; nothing else is asked.
pub proof fn law_symbol_file_can_be_built(meta: JitCodeMeta, text: Seq<u8>, pc_offsets: Seq<u32>)
    ensures
        image_fits(meta, text, pc_offsets) <==> {
            &&& elf_image(meta, text, pc_offsets).len() <= usize::MAX
            &&& forall|pc: int|
                0 <= pc < pc_offsets.len() ==> meta.code_ptr + (#[trigger] pc_offsets[pc]
                    & 0x7fff_ffff) < 0x1_0000_0000_0000_0000
        },
{
    debug_line::law_addresses_fit_in_64_bits(meta.code_ptr, pc_offsets);
}

/// The bytes of the names of the first `count` functions.
pub open spec fn function_name_bytes(symbols: Seq<JitSymbol>, count: nat) -> nat
    decreases count,
{
    if count == 0 {
        0
    } else {
        function_name_bytes(symbols, (count - 1) as nat) + utf8::encode_utf8(
            symbols[count - 1].name@,
        ).len()
    }
}

/// The bytes of the names of the first `count` host symbols.
pub open spec fn host_name_bytes(symbols: Seq<JitHostSymbol>, count: nat) -> nat
    decreases count,
{
    if count == 0 {
        0
    } else {
        host_name_bytes(symbols, (count - 1) as nat) + utf8::encode_utf8(
            symbols[count - 1].name@,
        ).len()
    }
}

proof fn lemma_function_tables_bound(
    meta: JitCodeMeta,
    text: Seq<u8>,
    pc_offsets: Seq<u32>,
    count: nat,
)
    ensures
        ({
            let functions = function_symbols(meta, text, pc_offsets, count);
            &&& functions.len() <= count
            &&& elf_format::string_table(elf_format::symbol_names(functions)).len() <= 1 + count
                + function_name_bytes(meta.symbols@, count)
        }),
    decreases count,
{
    if count > 0 {
        lemma_function_tables_bound(meta, text, pc_offsets, (count - 1) as nat);
        lemma_tables_grow(
            function_symbols(meta, text, pc_offsets, (count - 1) as nat),
            function_symbol(meta, text, pc_offsets, meta.symbols@[count - 1]),
        );
    } else {
        assert(elf_format::symbol_names(Seq::<ElfSymbol>::empty()) =~= Seq::<Seq<u8>>::empty());
    }
}

proof fn lemma_host_tables_bound(
    functions: Seq<ElfSymbol>,
    symbols: Seq<JitHostSymbol>,
    code_ptr: u64,
    count: nat,
)
    ensures
        ({
            let hosts = host_symbols(symbols, code_ptr, count);
            &&& hosts.len() <= count
            &&& elf_format::string_table(elf_format::symbol_names(functions + hosts)).len()
                <= elf_format::string_table(elf_format::symbol_names(functions)).len() + count
                + host_name_bytes(symbols, count)
        }),
    decreases count,
{
    if count > 0 {
        let before = host_symbols(symbols, code_ptr, (count - 1) as nat);
        let hosts = host_symbols(symbols, code_ptr, count);
        lemma_host_tables_bound(functions, symbols, code_ptr, (count - 1) as nat);
        if hosts != before {
            lemma_tables_grow(functions + before, hosts.last());
            assert((functions + before).push(hosts.last()) =~= functions + hosts);
        }
    } else {
        assert(functions + host_symbols(symbols, code_ptr, 0) =~= functions);
    }
}

proof fn lemma_rows_len(code_ptr: u64, pc_offsets: Seq<u32>)
    ensures
        debug_line::line_rows(code_ptr, pc_offsets).len() == 14 * pc_offsets.len(),
    decreases pc_offsets.len(),
{
    if pc_offsets.len() > 0 {
        lemma_rows_len(code_ptr, pc_offsets.drop_last());
        bytes::lemma_le_bytes_len(debug_line::row_address(code_ptr, pc_offsets.last()), 8);
    }
}

proof fn lemma_line_len(id: Seq<char>, code_ptr: u64, pc_offsets: Seq<u32>)
    ensures
        debug_line::debug_line(id, code_ptr, pc_offsets).len() == 37 + utf8::encode_utf8(id).len()
            + 14 * pc_offsets.len(),
{
    let header = debug_line::line_header(utf8::encode_utf8(id));
    let program = debug_line::line_program(code_ptr, pc_offsets);
    lemma_rows_len(code_ptr, pc_offsets);
    bytes::lemma_le_bytes_len(bytes::low32(6 + header.len() + program.len()) as nat, 4);
    bytes::lemma_le_bytes_len(4, 2);
    bytes::lemma_le_bytes_len(bytes::low32(header.len()) as nat, 4);
}

proof fn lemma_five_sections_end(sections: Seq<SectionView>)
    requires
        sections.len() == 5,
        sections[0].sh_addralign == 16,
        sections[1].sh_addralign == 8,
        sections[2].sh_addralign == 1,
        sections[3].sh_addralign == 1,
        sections[4].sh_addralign == 1,
    ensures
        elf_format::sections_end(sections) <= 71 + sections[0].data.len() + sections[1].data.len()
            + sections[2].data.len() + sections[3].data.len() + sections[4].data.len(),
{
    let s1 = sections.take(1);
    let s2 = sections.take(2);
    let s3 = sections.take(3);
    let s4 = sections.take(4);
    assert(s1.drop_last() =~= Seq::<SectionView>::empty());
    assert(s2.drop_last() =~= s1);
    assert(s3.drop_last() =~= s2);
    assert(s4.drop_last() =~= s3);
    assert(sections.drop_last() =~= s4);
    assert(elf_format::sections_end(s1.drop_last()) == 64);
    assert(code_map::aligned(64, 16) == 64);
    assert(elf_format::sections_end(s1) == 64 + sections[0].data.len());
    code_map::law_aligned(elf_format::sections_end(s1), 8);
    code_map::law_aligned(elf_format::sections_end(s2), 1);
    code_map::law_aligned(elf_format::sections_end(s3), 1);
    code_map::law_aligned(elf_format::sections_end(s4), 1);
}

/// How large a symbol file can be. A caller that keeps this bound in memory
/// knows that the file can be built.
#[verifier::rlimit(30)]
pub proof fn law_symbol_file_size(meta: JitCodeMeta, text: Seq<u8>, pc_offsets: Seq<u32>)
    ensures
        elf_image(meta, text, pc_offsets).len() <= 569 + text.len() + 14 * pc_offsets.len()
            + utf8::encode_utf8(meta.id@).len() + 25 * (meta.symbols@.len()
            + meta.host_symbols@.len()) + function_name_bytes(
            meta.symbols@,
            meta.symbols@.len(),
        ) + host_name_bytes(meta.host_symbols@, meta.host_symbols@.len()),
{
    let sections = image_sections(meta, text, pc_offsets);
    let symbols = image_symbols(meta, text, pc_offsets);
    let functions = function_symbols(meta, text, pc_offsets, meta.symbols@.len());
    lemma_function_tables_bound(meta, text, pc_offsets, meta.symbols@.len());
    lemma_host_tables_bound(
        functions,
        meta.host_symbols@,
        meta.code_ptr,
        meta.host_symbols@.len(),
    );
    elf_reader::law_symbol_table_size(symbols);
    lemma_line_len(meta.id@, meta.code_ptr, pc_offsets);
    lemma_image_names_table();
    elf_format::lemma_elf_file_len(sections);
    lemma_five_sections_end(sections);
    code_map::law_aligned(elf_format::sections_end(sections), 8);
}

/// A reader of the symbol file that is built for a program finds the machine
/// code at its address, and in the symbol table, behind an entry of zeros, only
/// global functions in the section of the machine code: the byte behind the
/// place of the name is one in its high half and two in its low half.
pub proof fn law_built_file_lists_global_functions(
    meta: &JitCodeMeta,
    text: &[u8],
    pc_offsets: &[u32],
    elf: Vec<u8>,
    i: int,
)
    requires
        call_ensures(build_elf, (meta, text, pc_offsets), elf),
        elf@.len() <= u64::MAX,
        ({
            let headers = bytes::field(elf@, 40, 8) as int;
            24 <= 24 * i < bytes::field(elf@, headers + 160, 8)
        }),
    ensures
        ({
            let headers = bytes::field(elf@, 40, 8) as int;
            let symtab = bytes::field(elf@, headers + 152, 8) as int;
            let code = bytes::field(elf@, headers + 88, 8) as int;
            let entry = symtab + 24 * i;
            &&& elf@.subrange(0, 8) == seq![0x7fu8, 0x45, 0x4c, 0x46, 2, 1, 1, 0]
            &&& bytes::field(elf@, 16, 2) == 2
            &&& bytes::field(elf@, 18, 2) == 62
            &&& elf@[entry + 4] / 16 == 1
            &&& elf@[entry + 4] % 16 == 2
            &&& elf@[entry + 5] == 0
            &&& bytes::field(elf@, entry + 6, 2) == 1
            &&& elf@.subrange(code, code + text@.len()) == text@
            &&& elf_reader::read_header(elf@, 1).sh_addr == meta.code_ptr
        }),
{
    let sections = image_sections(*meta, text@, pc_offsets@);
    let symbols = image_symbols(*meta, text@, pc_offsets@);
    assert(elf_format::section_names(sections) =~= image_names());
    lemma_parts_of_file(sections, symbols);
    lemma_symbols_in_file(sections, symbols, i - 1);
}

/// How a file starts, where its machine code stands, and how large its symbol
/// table is.
proof fn lemma_parts_of_file(sections: Seq<SectionView>, symbols: Seq<ElfSymbol>)
    requires
        elf_format::elf_file(sections).len() <= u64::MAX,
        sections.len() == 5,
        elf_format::section_names(sections) == image_names(),
        sections[0].sh_addralign == 16,
        sections[1].data == elf_format::symbol_table(symbols),
    ensures
        ({
            let file = elf_format::elf_file(sections);
            let headers = bytes::field(file, 40, 8) as int;
            let code = bytes::field(file, headers + 88, 8) as int;
            &&& file.subrange(0, 8) == seq![0x7fu8, 0x45, 0x4c, 0x46, 2, 1, 1, 0]
            &&& bytes::field(file, 16, 2) == 2
            &&& bytes::field(file, 18, 2) == 62
            &&& file.subrange(code, code + sections[0].data.len()) == sections[0].data
            &&& elf_reader::read_header(file, 1).sh_addr == sections[0].sh_addr
            &&& bytes::field(file, headers + 160, 8) == 24 * (symbols.len() + 1)
        }),
{
    let file = elf_format::elf_file(sections);
    lemma_named_section(sections, 0);
    lemma_named_section(sections, 1);
    elf_reader::law_section_read_back(sections, 0);
    elf_reader::law_section_read_back(sections, 1);
    elf_reader::law_sections_are_laid_out_in_order(sections, 0);
    lemma_header_numbers(file, 1);
    lemma_header_numbers(file, 2);
    elf_reader::law_symbol_table_size(symbols);
    elf_format::lemma_elf_file_len(sections);
    elf_reader::law_file_starts_with_its_header(sections);
}

/// A debugger that reads the symbol file that is built for a program finds each
/// function whose program counter has code under its whole name, at the place
/// where it starts above the start of the code.
pub proof fn law_built_file_names_every_function(
    meta: &JitCodeMeta,
    text: &[u8],
    pc_offsets: &[u32],
    elf: Vec<u8>,
    n: int,
)
    requires
        call_ensures(build_elf, (meta, text, pc_offsets), elf),
        elf@.len() <= u64::MAX,
        elf_reader::read_data(elf@, 3).len() < 0x1_0000_0000,
        0 <= n < meta.symbols@.len(),
        meta.symbols@[n].pc < pc_offsets@.len(),
        !utf8::encode_utf8(meta.symbols@[n].name@).contains(0),
    ensures
        exists|i: int|
            {
                let symbol = #[trigger] elf_reader::read_symbol(
                    elf_reader::read_data(elf@, 2),
                    elf_reader::read_data(elf@, 3),
                    i,
                );
                &&& 24 <= 24 * i < elf_reader::read_data(elf@, 2).len()
                &&& symbol.name == utf8::encode_utf8(meta.symbols@[n].name@)
                &&& symbol.value == (meta.code_ptr + code_map::entry_offset(
                    meta.function_entry_offsets@,
                    text@,
                    pc_offsets@,
                    meta.symbols@[n].pc as int,
                ).unwrap()) % 0x1_0000_0000_0000_0000
                &&& symbol.size == 0
            },
{
    let symbols = image_symbols(*meta, text@, pc_offsets@);
    let name = utf8::encode_utf8(meta.symbols@[n].name@);
    law_symbol_file_read_back(*meta, text@, pc_offsets@);
    law_functions_are_in_the_table(*meta, text@, pc_offsets@, n);
    let start = code_map::entry_offset(
        meta.function_entry_offsets@,
        text@,
        pc_offsets@,
        meta.symbols@[n].pc as int,
    );
    let k = choose|k: int|
        {
            &&& 0 <= k < symbols.len()
            &&& (#[trigger] symbols[k]).name == name
            &&& start is Some
            &&& symbols[k].value == (meta.code_ptr + start.unwrap()) % 0x1_0000_0000_0000_0000
            &&& symbols[k].size == 0
        };
    assert forall|c: int| 0 <= c < symbols[k].name.len() implies symbols[k].name[c] != 0 by {
        assert(name.contains(name[c]));
    }
    law_symbols_read_back(*meta, text@, pc_offsets@, k);
    elf_reader::law_symbol_table_size(symbols);
    let symbol = elf_reader::read_symbol(
        elf_reader::read_data(elf@, 2),
        elf_reader::read_data(elf@, 3),
        k + 1,
    );
    assert(symbol == symbols[k]);
}

} // verus!
