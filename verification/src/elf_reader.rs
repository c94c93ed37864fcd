//! What a reader finds in the ELF files of [`crate::elf_format`].

use crate::bytes;
use crate::code_map;
use crate::elf_format;
use crate::elf_format::{ElfSymbol, SectionHeader, SectionView};
use vstd::prelude::*;

verus! {

/// Where the file header says that the section table is.
pub open spec fn read_table_offset(file: Seq<u8>) -> nat {
    bytes::field(file, 40, 8)
}

/// How many headers the file header says that the section table has.
pub open spec fn read_section_count(file: Seq<u8>) -> nat {
    bytes::field(file, 60, 2)
}

/// Which section the file header says that the section names are in.
pub open spec fn read_names_index(file: Seq<u8>) -> nat {
    bytes::field(file, 62, 2)
}

/// The header at `at`.
pub open spec fn read_header_at(file: Seq<u8>, at: int) -> SectionHeader {
    SectionHeader {
        name: bytes::field(file, at, 4) as u32,
        sh_type: bytes::field(file, at + 4, 4) as u32,
        sh_flags: bytes::field(file, at + 8, 8) as u64,
        sh_addr: bytes::field(file, at + 16, 8) as u64,
        sh_offset: bytes::field(file, at + 24, 8) as u64,
        sh_size: bytes::field(file, at + 32, 8) as u64,
        sh_link: bytes::field(file, at + 40, 4) as u32,
        sh_info: bytes::field(file, at + 44, 4) as u32,
        sh_addralign: bytes::field(file, at + 48, 8) as u64,
        sh_entsize: bytes::field(file, at + 56, 8) as u64,
    }
}

/// The header number `index` of the section table.
pub open spec fn read_header(file: Seq<u8>, index: int) -> SectionHeader {
    read_header_at(file, read_table_offset(file) + 64 * index)
}

/// What the section of the header number `index` holds.
pub open spec fn read_data(file: Seq<u8>, index: int) -> Seq<u8> {
    let header = read_header(file, index);
    file.subrange(header.sh_offset as int, header.sh_offset + header.sh_size)
}

/// The symbol that the entry number `index` of a symbol table describes.
pub open spec fn read_symbol(symtab: Seq<u8>, strtab: Seq<u8>, index: int) -> ElfSymbol {
    ElfSymbol {
        name: bytes::c_string(strtab, bytes::field(symtab, 24 * index, 4) as int),
        value: bytes::field(symtab, 24 * index + 8, 8) as u64,
        size: bytes::field(symtab, 24 * index + 16, 8) as u64,
    }
}

/// The fields of a section header stand in the order of the format: its name,
/// type, flags, address, offset, size, link, info, alignment and entry size.
pub proof fn law_section_header_fields(h: SectionHeader)
    ensures
        ({
            let whole = elf_format::section_header(h);
            &&& whole.len() == 64
            &&& bytes::field(whole, 0, 4) == h.name
            &&& bytes::field(whole, 4, 4) == h.sh_type
            &&& bytes::field(whole, 8, 8) == h.sh_flags
            &&& bytes::field(whole, 16, 8) == h.sh_addr
            &&& bytes::field(whole, 24, 8) == h.sh_offset
            &&& bytes::field(whole, 32, 8) == h.sh_size
            &&& bytes::field(whole, 40, 4) == h.sh_link
            &&& bytes::field(whole, 44, 4) == h.sh_info
            &&& bytes::field(whole, 48, 8) == h.sh_addralign
            &&& bytes::field(whole, 56, 8) == h.sh_entsize
        }),
{
    bytes::lemma_le_len();
    bytes::lemma_byte_ranges();
    let whole = elf_format::section_header(h);
    let a = bytes::le_bytes(h.name as nat, 4);
    let b = bytes::le_bytes(h.sh_type as nat, 4);
    let c = bytes::le_bytes(h.sh_flags as nat, 8);
    let d = bytes::le_bytes(h.sh_addr as nat, 8);
    let e = bytes::le_bytes(h.sh_offset as nat, 8);
    let f = bytes::le_bytes(h.sh_size as nat, 8);
    let g = bytes::le_bytes(h.sh_link as nat, 4);
    let i = bytes::le_bytes(h.sh_info as nat, 4);
    let j = bytes::le_bytes(h.sh_addralign as nat, 8);
    let k = bytes::le_bytes(h.sh_entsize as nat, 8);
    assert(whole.subrange(0, 4) =~= a);
    assert(whole.subrange(4, 8) =~= b);
    assert(whole.subrange(8, 16) =~= c);
    assert(whole.subrange(16, 24) =~= d);
    assert(whole.subrange(24, 32) =~= e);
    assert(whole.subrange(32, 40) =~= f);
    assert(whole.subrange(40, 44) =~= g);
    assert(whole.subrange(44, 48) =~= i);
    assert(whole.subrange(48, 56) =~= j);
    assert(whole.subrange(56, 64) =~= k);
    bytes::law_le_round_trip(h.name as nat, 4);
    bytes::law_le_round_trip(h.sh_type as nat, 4);
    bytes::law_le_round_trip(h.sh_flags as nat, 8);
    bytes::law_le_round_trip(h.sh_addr as nat, 8);
    bytes::law_le_round_trip(h.sh_offset as nat, 8);
    bytes::law_le_round_trip(h.sh_size as nat, 8);
    bytes::law_le_round_trip(h.sh_link as nat, 4);
    bytes::law_le_round_trip(h.sh_info as nat, 4);
    bytes::law_le_round_trip(h.sh_addralign as nat, 8);
    bytes::law_le_round_trip(h.sh_entsize as nat, 8);
}

proof fn lemma_header_bytes(h: SectionHeader)
    ensures
        elf_format::section_header(h).len() == 64,
        read_header_at(elf_format::section_header(h), 0) == h,
{
    law_section_header_fields(h);
}

/// A file starts with the magic number, class, byte order and version of a
/// 64-bit little-endian object; it is an executable for x86-64 without program
/// headers, whose own header and whose section headers have 64 bytes each.
pub proof fn law_file_header_fields(shoff: u64, shnum: u16, shstrndx: u16)
    ensures
        ({
            let head = elf_format::elf_header(shoff as nat, shnum as nat, shstrndx as nat);
            &&& head.len() == 64
            &&& head.subrange(0, 8) == seq![0x7fu8, 0x45, 0x4c, 0x46, 2, 1, 1, 0]
            &&& bytes::field(head, 8, 8) == 0
            &&& bytes::field(head, 16, 2) == 2
            &&& bytes::field(head, 18, 2) == 62
            &&& bytes::field(head, 20, 4) == 1
            &&& bytes::field(head, 24, 8) == 0
            &&& bytes::field(head, 32, 8) == 0
            &&& bytes::field(head, 40, 8) == shoff
            &&& bytes::field(head, 48, 4) == 0
            &&& bytes::field(head, 52, 2) == 64
            &&& bytes::field(head, 54, 2) == 0
            &&& bytes::field(head, 56, 2) == 0
            &&& bytes::field(head, 58, 2) == 64
            &&& bytes::field(head, 60, 2) == shnum
            &&& bytes::field(head, 62, 2) == shstrndx
        }),
{
    bytes::lemma_le_len();
    bytes::lemma_byte_ranges();
    let head = elf_format::elf_header(shoff as nat, shnum as nat, shstrndx as nat);
    assert(head.subrange(0, 8) =~= seq![0x7fu8, 0x45, 0x4c, 0x46, 2, 1, 1, 0]);
    assert(head.subrange(8, 16) =~= bytes::zeros(8));
    lemma_value_of_zeros(8);
    assert(head.subrange(16, 18) =~= bytes::le_bytes(2, 2));
    assert(head.subrange(18, 20) =~= bytes::le_bytes(62, 2));
    assert(head.subrange(20, 24) =~= bytes::le_bytes(1, 4));
    assert(head.subrange(24, 32) =~= bytes::le_bytes(0, 8));
    assert(head.subrange(32, 40) =~= bytes::le_bytes(0, 8));
    assert(head.subrange(40, 48) =~= bytes::le_bytes(shoff as nat, 8));
    assert(head.subrange(48, 52) =~= bytes::le_bytes(0, 4));
    assert(head.subrange(52, 54) =~= bytes::le_bytes(64, 2));
    assert(head.subrange(54, 56) =~= bytes::le_bytes(0, 2));
    assert(head.subrange(56, 58) =~= bytes::le_bytes(0, 2));
    assert(head.subrange(58, 60) =~= bytes::le_bytes(64, 2));
    assert(head.subrange(60, 62) =~= bytes::le_bytes(shnum as nat, 2));
    assert(head.subrange(62, 64) =~= bytes::le_bytes(shstrndx as nat, 2));
    bytes::law_le_round_trip(0, 2);
    bytes::law_le_round_trip(0, 4);
    bytes::law_le_round_trip(0, 8);
    bytes::law_le_round_trip(1, 4);
    bytes::law_le_round_trip(2, 2);
    bytes::law_le_round_trip(62, 2);
    bytes::law_le_round_trip(64, 2);
    bytes::law_le_round_trip(shoff as nat, 8);
    bytes::law_le_round_trip(shnum as nat, 2);
    bytes::law_le_round_trip(shstrndx as nat, 2);
}

/// Zero bytes are read as zero.
proof fn lemma_value_of_zeros(count: nat)
    ensures
        bytes::le_value(bytes::zeros(count)) == 0,
    decreases count,
{
    if count > 0 {
        lemma_value_of_zeros((count - 1) as nat);
        assert(bytes::zeros(count).drop_first() =~= bytes::zeros((count - 1) as nat));
    }
}

/// A symbol table entry holds the place of the name, the binding in the high
/// and the type in the low half of a byte, the default visibility, the section,
/// the value and the size.
pub proof fn law_symbol_entry_fields(
    name_offset: u32,
    binding: u8,
    ty: u8,
    shndx: u16,
    value: u64,
    size: u64,
)
    ensures
        ({
            let entry = elf_format::symbol_entry(name_offset, binding, ty, shndx, value, size);
            &&& entry.len() == 24
            &&& bytes::field(entry, 0, 4) == name_offset
            &&& binding < 16 ==> entry[4] / 16 == binding
            &&& ty < 16 ==> entry[4] % 16 == ty
            &&& entry[5] == 0
            &&& bytes::field(entry, 6, 2) == shndx
            &&& bytes::field(entry, 8, 8) == value
            &&& bytes::field(entry, 16, 8) == size
        }),
{
    bytes::lemma_le_len();
    bytes::lemma_byte_ranges();
    let entry = elf_format::symbol_entry(name_offset, binding, ty, shndx, value, size);
    assert(entry.subrange(0, 4) =~= bytes::le_bytes(name_offset as nat, 4));
    assert(entry.subrange(6, 8) =~= bytes::le_bytes(shndx as nat, 2));
    assert(entry.subrange(8, 16) =~= bytes::le_bytes(value as nat, 8));
    assert(entry.subrange(16, 24) =~= bytes::le_bytes(size as nat, 8));
    bytes::law_le_round_trip(name_offset as nat, 4);
    bytes::law_le_round_trip(shndx as nat, 2);
    bytes::law_le_round_trip(value as nat, 8);
    bytes::law_le_round_trip(size as nat, 8);
}

/// The file header says where the section table is, how many headers it has,
/// and that the last section holds the names.
pub proof fn law_file_header_read_back(sections: Seq<SectionView>)
    requires
        elf_format::table_offset(sections) <= u64::MAX,
        sections.len() < u16::MAX,
    ensures
        read_table_offset(elf_format::elf_file(sections)) == elf_format::table_offset(sections),
        read_section_count(elf_format::elf_file(sections)) == sections.len() + 1,
        read_names_index(elf_format::elf_file(sections)) == sections.len(),
{
    bytes::lemma_le_len();
    bytes::lemma_byte_ranges();
    let file = elf_format::elf_file(sections);
    let shoff = elf_format::table_offset(sections);
    let head = elf_format::elf_header(shoff, sections.len() + 1, sections.len());
    assert(head.len() == 64);
    assert(file.subrange(0, 64) =~= head);
    assert(head.subrange(40, 48) =~= bytes::le_bytes(shoff, 8));
    assert(head.subrange(60, 62) =~= bytes::le_bytes(sections.len() + 1, 2));
    assert(head.subrange(62, 64) =~= bytes::le_bytes(sections.len(), 2));
    bytes::law_le_round_trip(shoff, 8);
    bytes::law_le_round_trip(sections.len() + 1, 2);
    bytes::law_le_round_trip(sections.len(), 2);
    bytes::lemma_field_of_part(file, 0, 64, 40, 8);
    bytes::lemma_field_of_part(file, 0, 64, 60, 2);
    bytes::lemma_field_of_part(file, 0, 64, 62, 2);
}

/// A file starts with its header, which says that it is a 64-bit little-endian
/// executable for x86-64.
pub proof fn law_file_starts_with_its_header(sections: Seq<SectionView>)
    requires
        elf_format::table_offset(sections) <= u64::MAX,
        sections.len() < u16::MAX,
    ensures
        ({
            let file = elf_format::elf_file(sections);
            &&& file.len() >= 64
            &&& file.subrange(0, 8) == seq![0x7fu8, 0x45, 0x4c, 0x46, 2, 1, 1, 0]
            &&& bytes::field(file, 16, 2) == 2
            &&& bytes::field(file, 18, 2) == 62
            &&& bytes::field(file, 52, 2) == 64
            &&& bytes::field(file, 58, 2) == 64
        }),
{
    let file = elf_format::elf_file(sections);
    let shoff = elf_format::table_offset(sections);
    let shnum = sections.len() + 1;
    let shstrndx = sections.len();
    let head = elf_format::elf_header(shoff, shnum, shstrndx);
    law_file_header_fields(shoff as u64, shnum as u16, shstrndx as u16);
    assert(head.len() == 64);
    elf_format::lemma_elf_file_len(sections);
    let start = file.subrange(0, 64);
    assert(start =~= head);
    assert(file.subrange(0, 8) =~= start.subrange(0, 8));
    bytes::lemma_field_of_part(file, 0, 64, 16, 2);
    bytes::lemma_field_of_part(file, 0, 64, 18, 2);
    bytes::lemma_field_of_part(file, 0, 64, 52, 2);
    bytes::lemma_field_of_part(file, 0, 64, 58, 2);
}

proof fn lemma_table_part(sections: Seq<SectionView>, count: nat, i: int)
    requires
        0 <= i < count,
    ensures
        elf_format::section_table(sections, count).len() == 64 * (count + 1),
        elf_format::section_table(sections, count).subrange(64 * (i + 1), 64 * (i + 2))
            == elf_format::section_header(elf_format::header_of(sections, i)),
    decreases count,
{
    let before = (count - 1) as nat;
    let shorter = elf_format::section_table(sections, before);
    let whole = elf_format::section_table(sections, count);
    lemma_header_bytes(elf_format::header_of(sections, count - 1));
    if before == 0 {
        lemma_header_bytes(elf_format::null_section_header());
    } else {
        lemma_table_part(sections, before, 0);
    }
    if i == count - 1 {
        assert(whole.subrange(64 * (i + 1), 64 * (i + 2)) =~= elf_format::section_header(
            elf_format::header_of(sections, i),
        ));
    } else {
        lemma_table_part(sections, before, i);
        assert(whole.subrange(64 * (i + 1), 64 * (i + 2)) =~= shorter.subrange(
            64 * (i + 1),
            64 * (i + 2),
        ));
    }
}

proof fn lemma_body_part(sections: Seq<SectionView>, i: int)
    requires
        0 <= i < sections.len(),
    ensures
        64 + elf_format::section_bodies(sections).len() == elf_format::sections_end(sections),
        64 <= elf_format::section_offset(sections, i),
        elf_format::section_offset(sections, i) + sections[i].data.len()
            <= elf_format::sections_end(sections),
        elf_format::section_bodies(sections).subrange(
            elf_format::section_offset(sections, i) - 64,
            elf_format::section_offset(sections, i) - 64 + sections[i].data.len(),
        ) == sections[i].data,
    decreases sections.len(),
{
    let before = sections.drop_last();
    let last = sections.last();
    let end = elf_format::sections_end(before);
    code_map::law_aligned(end, last.sh_addralign as nat);
    if before.len() > 0 {
        lemma_body_part(before, 0);
    }
    let whole = elf_format::section_bodies(sections);
    let shorter = elf_format::section_bodies(before);
    let offset = elf_format::section_offset(sections, i);
    if i == sections.len() - 1 {
        assert(sections.take(i) =~= before);
        assert(whole.subrange(offset - 64, offset - 64 + last.data.len()) =~= last.data);
    } else {
        lemma_body_part(before, i);
        assert(before.take(i) =~= sections.take(i));
        assert(offset == elf_format::section_offset(before, i));
        assert(whole.subrange(offset - 64, offset - 64 + sections[i].data.len())
            =~= shorter.subrange(offset - 64, offset - 64 + sections[i].data.len()));
    }
}

/// A reader that follows the section table finds each section as it was
/// written: its header behind the null header, and its data where the header
/// says.
pub proof fn law_section_read_back(sections: Seq<SectionView>, i: int)
    requires
        0 <= i < sections.len() < u16::MAX,
        elf_format::elf_file(sections).len() <= u64::MAX,
    ensures
        read_header(elf_format::elf_file(sections), i + 1) == elf_format::header_of(sections, i),
        read_data(elf_format::elf_file(sections), i + 1) == sections[i].data,
        elf_format::header_of(sections, i).sh_offset == elf_format::section_offset(sections, i),
        elf_format::header_of(sections, i).sh_size == sections[i].data.len(),
{
    let file = elf_format::elf_file(sections);
    let shoff = elf_format::table_offset(sections);
    let h = elf_format::header_of(sections, i);
    elf_format::lemma_elf_file_len(sections);
    law_file_header_read_back(sections);
    lemma_table_part(sections, sections.len(), i);
    lemma_body_part(sections, i);
    lemma_header_bytes(h);
    bytes::lemma_le_len();
    let head = elf_format::elf_header(shoff, sections.len() + 1, sections.len());
    let bodies = elf_format::section_bodies(sections);
    let table = elf_format::section_table(sections, sections.len());
    assert(head.len() == 64);
    assert(file.subrange(shoff as int, file.len() as int) =~= table);
    let at = shoff + 64 * (i + 1);
    assert(file.subrange(at, at + 64) =~= table.subrange(64 * (i + 1), 64 * (i + 2)));
    let part = file.subrange(at, at + 64);
    assert(part == elf_format::section_header(h));
    bytes::lemma_field_of_part(file, at, at + 64, 0, 4);
    bytes::lemma_field_of_part(file, at, at + 64, 4, 4);
    bytes::lemma_field_of_part(file, at, at + 64, 8, 8);
    bytes::lemma_field_of_part(file, at, at + 64, 16, 8);
    bytes::lemma_field_of_part(file, at, at + 64, 24, 8);
    bytes::lemma_field_of_part(file, at, at + 64, 32, 8);
    bytes::lemma_field_of_part(file, at, at + 64, 40, 4);
    bytes::lemma_field_of_part(file, at, at + 64, 44, 4);
    bytes::lemma_field_of_part(file, at, at + 64, 48, 8);
    bytes::lemma_field_of_part(file, at, at + 64, 56, 8);
    assert(read_header_at(file, at) == read_header_at(part, 0));
    let offset = elf_format::section_offset(sections, i);
    let size = sections[i].data.len();
    assert(file.subrange(offset as int, (offset + size) as int) =~= bodies.subrange(
        offset - 64,
        offset - 64 + size,
    ));
}

proof fn lemma_string_table_part(names: Seq<Seq<u8>>, i: int)
    requires
        0 <= i < names.len(),
    ensures
        ({
            let table = elf_format::string_table(names);
            let at = elf_format::string_offset(names, i) as int;
            &&& 0 < at
            &&& at + names[i].len() < table.len()
            &&& table.subrange(at, at + names[i].len()) == names[i]
            &&& table[at + names[i].len()] == 0
        }),
    decreases names.len(),
{
    let before = names.drop_last();
    let table = elf_format::string_table(names);
    let shorter = elf_format::string_table(before);
    let at = elf_format::string_offset(names, i) as int;
    if i == names.len() - 1 {
        assert(names.take(i) =~= before);
        assert(table.subrange(at, at + names[i].len()) =~= names[i]);
        lemma_string_table_nonempty(before);
    } else {
        lemma_string_table_part(before, i);
        assert(before.take(i) =~= names.take(i));
        assert(table.subrange(at, at + names[i].len()) =~= shorter.subrange(
            at,
            at + names[i].len(),
        ));
    }
}

proof fn lemma_string_table_nonempty(names: Seq<Seq<u8>>)
    ensures
        elf_format::string_table(names).len() > 0,
    decreases names.len(),
{
    if names.len() > 0 {
        lemma_string_table_nonempty(names.drop_last());
    }
}

/// A name without zero bytes is read back from its place in a string table.
pub proof fn law_string_read_back(names: Seq<Seq<u8>>, i: int)
    requires
        0 <= i < names.len(),
        forall|n: int| 0 <= n < names[i].len() ==> names[i][n] != 0,
    ensures
        elf_format::string_offset(names, i) < elf_format::string_table(names).len(),
        bytes::c_string(
            elf_format::string_table(names),
            elf_format::string_offset(names, i) as int,
        ) == names[i],
{
    lemma_string_table_part(names, i);
    bytes::lemma_c_string_at(
        elf_format::string_table(names),
        elf_format::string_offset(names, i) as int,
        names[i],
    );
}

proof fn lemma_symbol_table_part(symbols: Seq<ElfSymbol>, i: int)
    requires
        0 <= i < symbols.len(),
    ensures
        elf_format::symbol_table(symbols).len() == 24 * (symbols.len() + 1),
        elf_format::symbol_table(symbols).subrange(24 * (i + 1), 24 * (i + 2))
            == elf_format::symbol_entry(
            bytes::low32(elf_format::string_offset(elf_format::symbol_names(symbols), i)),
            1,
            2,
            1,
            symbols[i].value,
            symbols[i].size,
        ),
    decreases symbols.len(),
{
    bytes::lemma_le_len();
    let before = symbols.drop_last();
    let whole = elf_format::symbol_table(symbols);
    let shorter = elf_format::symbol_table(before);
    let names = elf_format::symbol_names(symbols);
    if before.len() > 0 {
        lemma_symbol_table_part(before, 0);
    }
    assert(shorter.len() == 24 * symbols.len());
    if i == symbols.len() - 1 {
        assert(names.take(i) =~= elf_format::symbol_names(before));
        assert(whole.subrange(24 * (i + 1), 24 * (i + 2)) =~= elf_format::symbol_entry(
            bytes::low32(elf_format::string_offset(names, i)),
            1,
            2,
            1,
            symbols[i].value,
            symbols[i].size,
        ));
    } else {
        lemma_symbol_table_part(before, i);
        assert(elf_format::symbol_names(before).take(i) =~= names.take(i));
        assert(whole.subrange(24 * (i + 1), 24 * (i + 2)) =~= shorter.subrange(
            24 * (i + 1),
            24 * (i + 2),
        ));
    }
}

/// A symbol table has one entry of zeros and one for each symbol.
pub proof fn law_symbol_table_size(symbols: Seq<ElfSymbol>)
    ensures
        elf_format::symbol_table(symbols).len() == 24 * (symbols.len() + 1),
{
    if symbols.len() > 0 {
        lemma_symbol_table_part(symbols, 0);
    }
}

/// A reader finds each symbol as it was written, behind the entry of zeros,
/// where its name has no zero byte and the names have less than four
/// gigabytes.
pub proof fn law_symbol_read_back(symbols: Seq<ElfSymbol>, i: int)
    requires
        0 <= i < symbols.len(),
        elf_format::string_table(elf_format::symbol_names(symbols)).len() < 0x1_0000_0000,
        forall|n: int| 0 <= n < symbols[i].name.len() ==> symbols[i].name[n] != 0,
    ensures
        read_symbol(
            elf_format::symbol_table(symbols),
            elf_format::string_table(elf_format::symbol_names(symbols)),
            i + 1,
        ) == symbols[i],
{
    bytes::lemma_le_len();
    bytes::lemma_byte_ranges();
    let names = elf_format::symbol_names(symbols);
    let table = elf_format::symbol_table(symbols);
    let offset = elf_format::string_offset(names, i);
    assert(names[i] == symbols[i].name);
    law_string_read_back(names, i);
    lemma_symbol_table_part(symbols, i);
    let at = 24 * (i + 1);
    let entry = table.subrange(at, at + 24);
    let value = symbols[i].value;
    let size = symbols[i].size;
    assert(entry == elf_format::symbol_entry(bytes::low32(offset), 1, 2, 1, value, size));
    assert(entry.subrange(0, 4) =~= bytes::le_bytes(offset, 4));
    assert(entry.subrange(8, 16) =~= bytes::le_bytes(value as nat, 8));
    assert(entry.subrange(16, 24) =~= bytes::le_bytes(size as nat, 8));
    bytes::law_le_round_trip(offset, 4);
    bytes::law_le_round_trip(value as nat, 8);
    bytes::law_le_round_trip(size as nat, 8);
    bytes::lemma_field_of_part(table, at, at + 24, 0, 4);
    bytes::lemma_field_of_part(table, at, at + 24, 8, 8);
    bytes::lemma_field_of_part(table, at, at + 24, 16, 8);
}

/// Behind an entry of zeros, every entry of a symbol table is a global function
/// in section one: its high half byte is one and its low half byte is two.
pub proof fn law_symbols_are_global_functions(symbols: Seq<ElfSymbol>, i: int)
    requires
        0 <= i < symbols.len(),
    ensures
        ({
            let table = elf_format::symbol_table(symbols);
            let at = 24 * (i + 1);
            &&& table.len() == 24 * (symbols.len() + 1)
            &&& table[at + 4] / 16 == 1
            &&& table[at + 4] % 16 == 2
            &&& table[at + 5] == 0
            &&& bytes::field(table, at + 6, 2) == 1
            &&& forall|n: int| 0 <= n < 24 ==> #[trigger] table[n] == 0
        }),
{
    let table = elf_format::symbol_table(symbols);
    let names = elf_format::symbol_names(symbols);
    let name_offset = bytes::low32(elf_format::string_offset(names, i));
    let at = 24 * (i + 1);
    lemma_symbol_table_part(symbols, i);
    lemma_null_symbol(symbols);
    law_symbol_entry_fields(name_offset, 1, 2, 1, symbols[i].value, symbols[i].size);
    let entry = table.subrange(at, at + 24);
    assert(entry[4] == table[at + 4] && entry[5] == table[at + 5]);
    bytes::lemma_field_of_part(table, at, at + 24, 6, 2);
}

/// A symbol table starts with zeros.
proof fn lemma_null_symbol(symbols: Seq<ElfSymbol>)
    ensures
        elf_format::symbol_table(symbols).len() >= 24,
        forall|n: int| 0 <= n < 24 ==> #[trigger] elf_format::symbol_table(symbols)[n] == 0,
    decreases symbols.len(),
{
    if symbols.len() > 0 {
        lemma_null_symbol(symbols.drop_last());
        assert forall|n: int| 0 <= n < 24 implies #[trigger] elf_format::symbol_table(symbols)[n]
            == 0 by {
            assert(elf_format::symbol_table(symbols.drop_last())[n] == 0);
        }
    }
}

/// The sections stand behind the file header in their order, each at a
/// multiple of its alignment and as near to what is before it as that allows.
/// The section table stands behind them at a multiple of eight, ends the file
/// and starts with a header of zeros.
pub proof fn law_sections_are_laid_out_in_order(sections: Seq<SectionView>, i: int)
    requires
        0 <= i < sections.len() < u16::MAX,
        elf_format::elf_file(sections).len() <= u64::MAX,
        sections[i].sh_addralign > 0,
    ensures
        ({
            let file = elf_format::elf_file(sections);
            let table = bytes::field(file, 40, 8);
            let header = read_header(file, i + 1);
            let before: int = if i == 0 {
                64
            } else {
                read_header(file, i).sh_offset + read_header(file, i).sh_size
            };
            &&& header.sh_offset % sections[i].sh_addralign == 0
            &&& before <= header.sh_offset < before + sections[i].sh_addralign
            &&& header.sh_size == sections[i].data.len()
            &&& header.sh_offset + header.sh_size <= table
            &&& i + 1 == sections.len() ==> table < header.sh_offset + header.sh_size + 8
            &&& table % 8 == 0
            &&& file.len() == table + 64 * (sections.len() + 1)
            &&& read_header_at(file, table as int) == (SectionHeader {
                name: 0,
                sh_type: 0,
                sh_flags: 0,
                sh_addr: 0,
                sh_offset: 0,
                sh_size: 0,
                sh_link: 0,
                sh_info: 0,
                sh_addralign: 0,
                sh_entsize: 0,
            })
        }),
{
    let file = elf_format::elf_file(sections);
    let shoff = elf_format::table_offset(sections);
    let align = sections[i].sh_addralign as nat;
    elf_format::lemma_elf_file_len(sections);
    law_file_header_read_back(sections);
    law_section_read_back(sections, i);
    elf_format::lemma_ends_grow(sections, i);
    code_map::law_aligned(elf_format::sections_end(sections.take(i)), align);
    code_map::law_aligned(elf_format::sections_end(sections), 8);
    if i > 0 {
        law_section_read_back(sections, i - 1);
        elf_format::lemma_ends_grow(sections, i - 1);
    } else {
        assert(sections.take(0) =~= Seq::<SectionView>::empty());
    }
    if i + 1 == sections.len() {
        assert(sections.take(i + 1) =~= sections);
    }
    lemma_body_part(sections, i);
    lemma_null_header_read(sections);
}

/// The first header of a section table is read as zeros.
proof fn lemma_null_header_read(sections: Seq<SectionView>)
    requires
        0 < sections.len() < u16::MAX,
        elf_format::elf_file(sections).len() <= u64::MAX,
    ensures
        read_header_at(elf_format::elf_file(sections), elf_format::table_offset(sections) as int)
            == elf_format::null_section_header(),
{
    let file = elf_format::elf_file(sections);
    let at = elf_format::table_offset(sections) as int;
    let table = elf_format::section_table(sections, sections.len());
    elf_format::lemma_elf_file_len(sections);
    lemma_body_part(sections, 0);
    lemma_table_part(sections, sections.len(), 0);
    lemma_null_header_part(sections, sections.len());
    law_section_header_fields(elf_format::null_section_header());
    bytes::lemma_le_len();
    assert(file.subrange(at, file.len() as int) =~= table);
    assert(file.subrange(at, at + 64) =~= file.subrange(at, file.len() as int).subrange(0, 64));
    bytes::lemma_field_of_part(file, at, at + 64, 0, 4);
    bytes::lemma_field_of_part(file, at, at + 64, 4, 4);
    bytes::lemma_field_of_part(file, at, at + 64, 8, 8);
    bytes::lemma_field_of_part(file, at, at + 64, 16, 8);
    bytes::lemma_field_of_part(file, at, at + 64, 24, 8);
    bytes::lemma_field_of_part(file, at, at + 64, 32, 8);
    bytes::lemma_field_of_part(file, at, at + 64, 40, 4);
    bytes::lemma_field_of_part(file, at, at + 64, 44, 4);
    bytes::lemma_field_of_part(file, at, at + 64, 48, 8);
    bytes::lemma_field_of_part(file, at, at + 64, 56, 8);
}

/// A section table starts with the null header.
proof fn lemma_null_header_part(sections: Seq<SectionView>, count: nat)
    ensures
        elf_format::section_table(sections, count).len() >= 64,
        elf_format::section_table(sections, count).subrange(0, 64) == elf_format::section_header(
            elf_format::null_section_header(),
        ),
    decreases count,
{
    let whole = elf_format::section_table(sections, count);
    law_section_header_fields(elf_format::null_section_header());
    if count > 0 {
        lemma_null_header_part(sections, (count - 1) as nat);
        assert(whole.subrange(0, 64) =~= elf_format::section_table(
            sections,
            (count - 1) as nat,
        ).subrange(0, 64));
    } else {
        assert(whole.subrange(0, 64) =~= whole);
    }
}

/// Every byte of the name of a symbol stands in the table of names where its
/// entry says, and a zero byte behind it, whatever the name holds, where the
/// names have less than four gigabytes.
pub proof fn law_symbol_names_are_kept_whole(symbols: Seq<ElfSymbol>, i: int)
    requires
        0 <= i < symbols.len(),
        elf_format::string_table(elf_format::symbol_names(symbols)).len() < 0x1_0000_0000,
    ensures
        ({
            let table = elf_format::symbol_table(symbols);
            let names = elf_format::string_table(elf_format::symbol_names(symbols));
            let at = bytes::field(table, 24 * (i + 1), 4) as int;
            let end = at + symbols[i].name.len();
            &&& 0 < at
            &&& end < names.len()
            &&& names.subrange(at, end) == symbols[i].name
            &&& names[end] == 0
            &&& names[0] == 0
            &&& bytes::field(table, 24 * (i + 1) + 8, 8) == symbols[i].value
            &&& bytes::field(table, 24 * (i + 1) + 16, 8) == symbols[i].size
        }),
{
    let table = elf_format::symbol_table(symbols);
    let names = elf_format::symbol_names(symbols);
    let offset = elf_format::string_offset(names, i);
    let at = 24 * (i + 1);
    assert(names[i] == symbols[i].name);
    lemma_string_table_part(names, i);
    lemma_string_table_start(names);
    lemma_symbol_table_part(symbols, i);
    law_symbol_entry_fields(
        bytes::low32(offset),
        1,
        2,
        1,
        symbols[i].value,
        symbols[i].size,
    );
    bytes::lemma_field_of_part(table, at, at + 24, 0, 4);
    bytes::lemma_field_of_part(table, at, at + 24, 8, 8);
    bytes::lemma_field_of_part(table, at, at + 24, 16, 8);
}

/// A string table starts with an empty string.
proof fn lemma_string_table_start(names: Seq<Seq<u8>>)
    ensures
        elf_format::string_table(names).len() > 0,
        elf_format::string_table(names)[0] == 0,
    decreases names.len(),
{
    if names.len() > 0 {
        lemma_string_table_start(names.drop_last());
    }
}

} // verus!
