//! The ELF file format, as far as symbol files of compiled code need it.

use crate::bytes;
use crate::code_map;
use vstd::prelude::*;
use vstd::utf8;

verus! {

/// Sixty-four bit objects.
pub const ELF_CLASS_64: u8 = 2;

/// Little-endian data.
pub const ELF_DATA_2LSB: u8 = 1;

/// The version of the format.
pub const ELF_VERSION: u32 = 1;

/// The System V interface.
pub const ELF_OSABI_SYSV: u8 = 0;

/// An executable file.
pub const ET_EXEC: u16 = 2;

/// The x86-64 machine.
pub const EM_X86_64: u16 = 62;

/// The size of the file header and of a section header.
pub const HEADER_SIZE: usize = 64;

/// The size of a symbol table entry.
pub const SYMBOL_SIZE: usize = 24;

/// The fields of a section header.
pub struct SectionHeader {
    pub name: u32,
    pub sh_type: u32,
    pub sh_flags: u64,
    pub sh_addr: u64,
    pub sh_offset: u64,
    pub sh_size: u64,
    pub sh_link: u32,
    pub sh_info: u32,
    pub sh_addralign: u64,
    pub sh_entsize: u64,
}

/// A section before its place in the file is known.
pub struct Section {
    pub name: &'static str,
    pub sh_type: u32,
    pub sh_flags: u64,
    pub sh_addr: u64,
    pub sh_addralign: u64,
    pub sh_entsize: u64,
    pub link: u32,
    pub info: u32,
    pub data: Vec<u8>,
}

/// What a [`Section`] says.
pub struct SectionView {
    pub name: Seq<u8>,
    pub sh_type: u32,
    pub sh_flags: u64,
    pub sh_addr: u64,
    pub sh_addralign: u64,
    pub sh_entsize: u64,
    pub link: u32,
    pub info: u32,
    pub data: Seq<u8>,
}

impl View for Section {
    type V = SectionView;

    open spec fn view(&self) -> SectionView {
        SectionView {
            name: utf8::encode_utf8(self.name@),
            sh_type: self.sh_type,
            sh_flags: self.sh_flags,
            sh_addr: self.sh_addr,
            sh_addralign: self.sh_addralign,
            sh_entsize: self.sh_entsize,
            link: self.link,
            info: self.info,
            data: self.data@,
        }
    }
}

/// A function symbol.
pub struct ElfSymbol {
    pub name: Seq<u8>,
    pub value: u64,
    pub size: u64,
}

/// The file header.
pub open spec fn elf_header(shoff: nat, shnum: nat, shstrndx: nat) -> Seq<u8> {
    seq![
        0x7fu8,
        0x45,
        0x4c,
        0x46,
        ELF_CLASS_64,
        ELF_DATA_2LSB,
        1,
        ELF_OSABI_SYSV,
        0,
        0,
        0,
        0,
        0,
        0,
        0,
        0,
    ] + bytes::le_bytes(ET_EXEC as nat, 2) + bytes::le_bytes(EM_X86_64 as nat, 2)
        + bytes::le_bytes(ELF_VERSION as nat, 4) + bytes::le_bytes(0, 8) + bytes::le_bytes(0, 8)
        + bytes::le_bytes(shoff, 8) + bytes::le_bytes(0, 4) + bytes::le_bytes(64, 2)
        + bytes::le_bytes(0, 2) + bytes::le_bytes(0, 2) + bytes::le_bytes(64, 2)
        + bytes::le_bytes(shnum, 2) + bytes::le_bytes(shstrndx, 2)
}

/// A section header.
pub open spec fn section_header(header: SectionHeader) -> Seq<u8> {
    bytes::le_bytes(header.name as nat, 4) + bytes::le_bytes(header.sh_type as nat, 4)
        + bytes::le_bytes(header.sh_flags as nat, 8) + bytes::le_bytes(header.sh_addr as nat, 8)
        + bytes::le_bytes(header.sh_offset as nat, 8) + bytes::le_bytes(header.sh_size as nat, 8)
        + bytes::le_bytes(header.sh_link as nat, 4) + bytes::le_bytes(header.sh_info as nat, 4)
        + bytes::le_bytes(header.sh_addralign as nat, 8) + bytes::le_bytes(
        header.sh_entsize as nat,
        8,
    )
}

/// The header that stands first in a section table.
pub open spec fn null_section_header() -> SectionHeader {
    SectionHeader {
        name: 0,
        sh_type: 0,
        sh_flags: 0,
        sh_addr: 0,
        sh_offset: 0,
        sh_size: 0,
        sh_link: 0,
        sh_info: 0,
        sh_addralign: 0,
        sh_entsize: 0,
    }
}

/// A symbol table entry.
pub open spec fn symbol_entry(
    name_offset: u32,
    binding: u8,
    ty: u8,
    shndx: u16,
    value: u64,
    size: u64,
) -> Seq<u8> {
    bytes::le_bytes(name_offset as nat, 4) + seq![(binding % 16 * 16 + ty % 16) as u8, 0u8]
        + bytes::le_bytes(shndx as nat, 2) + bytes::le_bytes(value as nat, 8) + bytes::le_bytes(
        size as nat,
        8,
    )
}

/// A string table: an empty string, then each name with a zero byte after it.
pub open spec fn string_table(names: Seq<Seq<u8>>) -> Seq<u8>
    decreases names.len(),
{
    if names.len() == 0 {
        seq![0u8]
    } else {
        string_table(names.drop_last()) + names.last() + seq![0u8]
    }
}

/// Where the name number `i` stands in the string table.
pub open spec fn string_offset(names: Seq<Seq<u8>>, i: int) -> nat {
    string_table(names.take(i)).len()
}

/// The names of symbols.
pub open spec fn symbol_names(symbols: Seq<ElfSymbol>) -> Seq<Seq<u8>> {
    symbols.map_values(|s: ElfSymbol| s.name)
}

/// The symbol table of global functions in section one: an entry of zeros,
/// then one for each symbol.
pub open spec fn symbol_table(symbols: Seq<ElfSymbol>) -> Seq<u8>
    decreases symbols.len(),
{
    if symbols.len() == 0 {
        bytes::zeros(24)
    } else {
        let last = symbols.last();
        symbol_table(symbols.drop_last()) + symbol_entry(
            bytes::low32(string_table(symbol_names(symbols.drop_last())).len()),
            1,
            2,
            1,
            last.value,
            last.size,
        )
    }
}

/// The names of sections.
pub open spec fn section_names(sections: Seq<SectionView>) -> Seq<Seq<u8>> {
    sections.map_values(|s: SectionView| s.name)
}

/// How far the file reaches once `sections` stand behind its header.
pub open spec fn sections_end(sections: Seq<SectionView>) -> nat
    decreases sections.len(),
{
    if sections.len() == 0 {
        64
    } else {
        code_map::aligned(
            sections_end(sections.drop_last()),
            sections.last().sh_addralign as nat,
        ) + sections.last().data.len()
    }
}

/// Where section number `i` starts: behind those before it, at its alignment.
pub open spec fn section_offset(sections: Seq<SectionView>, i: int) -> nat {
    code_map::aligned(sections_end(sections.take(i)), sections[i].sh_addralign as nat)
}

/// The sections with the padding before each of them.
pub open spec fn section_bodies(sections: Seq<SectionView>) -> Seq<u8>
    decreases sections.len(),
{
    if sections.len() == 0 {
        Seq::empty()
    } else {
        let before = sections.drop_last();
        let last = sections.last();
        section_bodies(before) + bytes::zeros(
            (code_map::aligned(sections_end(before), last.sh_addralign as nat) - sections_end(
                before,
            )) as nat,
        ) + last.data
    }
}

/// Where the section table starts.
pub open spec fn table_offset(sections: Seq<SectionView>) -> nat {
    code_map::aligned(sections_end(sections), 8)
}

/// The header of section number `i`.
pub open spec fn header_of(sections: Seq<SectionView>, i: int) -> SectionHeader {
    SectionHeader {
        name: bytes::low32(string_offset(section_names(sections), i)),
        sh_type: sections[i].sh_type,
        sh_flags: sections[i].sh_flags,
        sh_addr: sections[i].sh_addr,
        sh_offset: section_offset(sections, i) as u64,
        sh_size: sections[i].data.len() as u64,
        sh_link: sections[i].link,
        sh_info: sections[i].info,
        sh_addralign: sections[i].sh_addralign,
        sh_entsize: sections[i].sh_entsize,
    }
}

/// The null header and the headers of the first `count` sections.
pub open spec fn section_table(sections: Seq<SectionView>, count: nat) -> Seq<u8>
    decreases count,
{
    if count == 0 {
        section_header(null_section_header())
    } else {
        section_table(sections, (count - 1) as nat) + section_header(
            header_of(sections, count - 1),
        )
    }
}

/// A file that holds `sections`, the last of which is the table of their
/// names.
pub open spec fn elf_file(sections: Seq<SectionView>) -> Seq<u8> {
    elf_header(table_offset(sections), sections.len() + 1, sections.len()) + section_bodies(
        sections,
    ) + bytes::zeros((table_offset(sections) - sections_end(sections)) as nat) + section_table(
        sections,
        sections.len(),
    )
}

proof fn lemma_header_sizes(
    shoff: nat,
    shnum: nat,
    shstrndx: nat,
    header: SectionHeader,
    name_offset: u32,
    binding: u8,
    ty: u8,
    shndx: u16,
    value: u64,
    size: u64,
)
    ensures
        elf_header(shoff, shnum, shstrndx).len() == 64,
        section_header(header).len() == 64,
        symbol_entry(name_offset, binding, ty, shndx, value, size).len() == 24,
{
    assert forall|v: nat, w: nat| (#[trigger] bytes::le_bytes(v, w)).len() == w by {
        bytes::lemma_le_bytes_len(v, w);
    }
}

/// Appends the file header.
pub fn write_elf_header(buf: &mut Vec<u8>, shoff: u64, shnum: u16, shstrndx: u16)
    ensures
        final(buf)@ == old(buf)@ + elf_header(shoff as nat, shnum as nat, shstrndx as nat),
{
    let ghost before = buf@;
    bytes::append(
        buf,
        &[
            0x7f,
            0x45,
            0x4c,
            0x46,
            ELF_CLASS_64,
            ELF_DATA_2LSB,
            1,
            ELF_OSABI_SYSV,
            0,
            0,
            0,
            0,
            0,
            0,
            0,
            0,
        ],
    );
    bytes::write_u16(buf, ET_EXEC);
    bytes::write_u16(buf, EM_X86_64);
    bytes::write_u32(buf, ELF_VERSION);
    bytes::write_u64(buf, 0);
    bytes::write_u64(buf, 0);
    bytes::write_u64(buf, shoff);
    bytes::write_u32(buf, 0);
    bytes::write_u16(buf, 64);
    bytes::write_u16(buf, 0);
    bytes::write_u16(buf, 0);
    bytes::write_u16(buf, 64);
    bytes::write_u16(buf, shnum);
    bytes::write_u16(buf, shstrndx);
    assert(buf@ =~= before + elf_header(shoff as nat, shnum as nat, shstrndx as nat));
}

/// Appends a section header.
pub fn write_shdr(buf: &mut Vec<u8>, shdr: &SectionHeader)
    ensures
        final(buf)@ == old(buf)@ + section_header(*shdr),
{
    let ghost before = buf@;
    bytes::write_u32(buf, shdr.name);
    bytes::write_u32(buf, shdr.sh_type);
    bytes::write_u64(buf, shdr.sh_flags);
    bytes::write_u64(buf, shdr.sh_addr);
    bytes::write_u64(buf, shdr.sh_offset);
    bytes::write_u64(buf, shdr.sh_size);
    bytes::write_u32(buf, shdr.sh_link);
    bytes::write_u32(buf, shdr.sh_info);
    bytes::write_u64(buf, shdr.sh_addralign);
    bytes::write_u64(buf, shdr.sh_entsize);
    assert(buf@ =~= before + section_header(*shdr));
}

/// Appends a symbol table entry.
pub fn write_sym(
    symtab: &mut Vec<u8>,
    name_offset: u32,
    binding: u8,
    ty: u8,
    shndx: u16,
    value: u64,
    size: u64,
)
    ensures
        final(symtab)@ == old(symtab)@ + symbol_entry(name_offset, binding, ty, shndx, value, size),
{
    let ghost before = symtab@;
    assert((binding << 4) | (ty & 0xf) == binding % 16 * 16 + ty % 16) by (bit_vector);
    bytes::write_u32(symtab, name_offset);
    bytes::write_u8(symtab, (binding << 4) | (ty & 0xf));
    bytes::write_u8(symtab, 0);
    bytes::write_u16(symtab, shndx);
    bytes::write_u64(symtab, value);
    bytes::write_u64(symtab, size);
    assert(symtab@ =~= before + symbol_entry(name_offset, binding, ty, shndx, value, size));
}

/// Appends a name to a string table and returns where it stands.
pub fn add_str(strtab: &mut Vec<u8>, name: &[u8]) -> (offset: u32)
    ensures
        final(strtab)@ == old(strtab)@ + name@ + seq![0u8],
        offset == bytes::low32(old(strtab)@.len()),
{
    let ghost before = strtab@;
    let offset: usize = strtab.len();
    bytes::append(strtab, name);
    strtab.push(0);
    assert(strtab@ =~= before + name@ + seq![0u8]);
    bytes::truncate_u32(offset)
}

/// What a list of sections says.
pub open spec fn section_views(sections: Seq<Section>) -> Seq<SectionView> {
    sections.map_values(|s: Section| s@)
}

/// Puts the names of the sections into a string table and returns it with
/// the places of the names.
pub(crate) fn build_section_names(sections: &Vec<Section>) -> (built: (Vec<u8>, Vec<u32>))
    ensures
        built.0@ == string_table(section_names(section_views(sections@))),
        built.1@.len() == sections@.len(),
        forall|i: int|
            0 <= i < sections@.len() ==> #[trigger] built.1@[i] == bytes::low32(
                string_offset(section_names(section_views(sections@)), i),
            ),
{
    let ghost names = section_names(section_views(sections@));
    let mut table: Vec<u8> = Vec::new();
    table.push(0);
    let mut offsets: Vec<u32> = Vec::new();
    let mut i: usize = 0;
    assert(names.take(0) =~= Seq::<Seq<u8>>::empty());
    assert(table@ =~= seq![0u8]);
    while i < sections.len()
        invariant
            i <= sections@.len(),
            names == section_names(section_views(sections@)),
            names.len() == sections@.len(),
            table@ == string_table(names.take(i as int)),
            offsets@.len() == i,
            forall|j: int|
                0 <= j < i ==> #[trigger] offsets@[j] == bytes::low32(string_offset(names, j)),
        decreases sections@.len() - i,
    {
        let offset = add_str(&mut table, sections[i].name.as_bytes());
        offsets.push(offset);
        assert(names.take(i + 1).drop_last() =~= names.take(i as int));
        assert(names.take(i + 1).last() == names[i as int]);
        i = i + 1;
    }
    assert(names.take(i as int) =~= names);
    (table, offsets)
}

proof fn lemma_section_bodies_len(sections: Seq<SectionView>)
    ensures
        64 + section_bodies(sections).len() == sections_end(sections),
    decreases sections.len(),
{
    if sections.len() > 0 {
        lemma_section_bodies_len(sections.drop_last());
        code_map::law_aligned(
            sections_end(sections.drop_last()),
            sections.last().sh_addralign as nat,
        );
    }
}

proof fn lemma_section_table_len(sections: Seq<SectionView>, count: nat)
    ensures
        section_table(sections, count).len() == 64 * (count + 1),
    decreases count,
{
    if count > 0 {
        lemma_section_table_len(sections, (count - 1) as nat);
        lemma_header_sizes(0, 0, 0, header_of(sections, count - 1), 0, 0, 0, 0, 0, 0);
    } else {
        lemma_header_sizes(0, 0, 0, null_section_header(), 0, 0, 0, 0, 0, 0);
    }
}

/// The size of a file: the table stands at its end.
pub proof fn lemma_elf_file_len(sections: Seq<SectionView>)
    ensures
        elf_file(sections).len() == table_offset(sections) + 64 * (sections.len() + 1),
        sections_end(sections) <= table_offset(sections),
{
    lemma_header_sizes(
        table_offset(sections),
        sections.len() + 1,
        sections.len(),
        null_section_header(),
        0,
        0,
        0,
        0,
        0,
        0,
    );
    lemma_section_bodies_len(sections);
    lemma_section_table_len(sections, sections.len());
    code_map::law_aligned(sections_end(sections), 8);
}

/// Sections stand one behind the other.
pub proof fn lemma_ends_grow(sections: Seq<SectionView>, i: int)
    requires
        0 <= i < sections.len(),
    ensures
        sections_end(sections.take(i)) <= section_offset(sections, i),
        section_offset(sections, i) + sections[i].data.len() == sections_end(sections.take(i + 1)),
        sections_end(sections.take(i + 1)) <= sections_end(sections),
    decreases sections.len() - i,
{
    assert(sections.take(i + 1).drop_last() =~= sections.take(i));
    assert(sections.take(i + 1).last() == sections[i]);
    code_map::law_aligned(sections_end(sections.take(i)), sections[i].sh_addralign as nat);
    if i + 1 < sections.len() {
        lemma_ends_grow(sections, i + 1);
    } else {
        assert(sections.take(i + 1) =~= sections);
    }
}

/// Lays the sections out in a file, in their order.
pub(crate) fn write_elf(sections: &Vec<Section>, name_offsets: &Vec<u32>) -> (elf: Vec<u8>)
    requires
        sections@.len() < u16::MAX,
        elf_file(section_views(sections@)).len() <= usize::MAX,
        forall|i: int| 0 <= i < sections@.len() ==> 0 < #[trigger] sections@[i].sh_addralign <= 64,
        name_offsets@.len() == sections@.len(),
        forall|i: int|
            0 <= i < sections@.len() ==> #[trigger] name_offsets@[i] == bytes::low32(
                string_offset(section_names(section_views(sections@)), i),
            ),
    ensures
        elf@ == elf_file(section_views(sections@)),
{
    let ghost views = section_views(sections@);
    proof {
        lemma_elf_file_len(views);
    }
    let mut offsets: Vec<usize> = Vec::new();
    let mut offset: usize = HEADER_SIZE;
    let mut i: usize = 0;
    assert(views.take(0) =~= Seq::<SectionView>::empty());
    while i < sections.len()
        invariant
            views == section_views(sections@),
            views.len() == sections@.len(),
            elf_file(views).len() <= usize::MAX,
            elf_file(views).len() == table_offset(views) + 64 * (views.len() + 1),
            sections_end(views) <= table_offset(views),
            forall|j: int|
                0 <= j < sections@.len() ==> 0 < #[trigger] sections@[j].sh_addralign <= 64,
            i <= sections@.len(),
            offset == sections_end(views.take(i as int)),
            offsets@.len() == i,
            forall|j: int|
                0 <= j < i ==> #[trigger] offsets@[j] == section_offset(views, j),
        decreases sections@.len() - i,
    {
        proof {
            lemma_ends_grow(views, i as int);
        }
        let section = &sections[i];
        assert(views[i as int] == sections@[i as int]@);
        offset = code_map::align_up(offset, section.sh_addralign as usize);
        offsets.push(offset);
        offset = offset.saturating_add(section.data.len());
        i = i + 1;
    }
    assert(views.take(i as int) =~= views);
    let shoff: usize = code_map::align_up(offset, 8);
    let count: u16 = sections.len() as u16;
    let mut elf: Vec<u8> = Vec::with_capacity(shoff + (sections.len() + 1) * HEADER_SIZE);
    write_elf_header(&mut elf, shoff as u64, count + 1, count);
    let ghost head = elf@;
    assert(head =~= elf_header(table_offset(views), views.len() + 1, views.len()));
    proof {
        lemma_header_sizes(
            table_offset(views),
            views.len() + 1,
            views.len(),
            null_section_header(),
            0,
            0,
            0,
            0,
            0,
            0,
        );
    }
    let mut k: usize = 0;
    assert(views.take(0) =~= Seq::<SectionView>::empty());
    assert(elf@ =~= head + section_bodies(views.take(0)));
    while k < sections.len()
        invariant
            views == section_views(sections@),
            views.len() == sections@.len(),
            k <= sections@.len(),
            head.len() == 64,
            elf@ == head + section_bodies(views.take(k as int)),
            offsets@.len() == sections@.len(),
            forall|j: int|
                0 <= j < sections@.len() ==> #[trigger] offsets@[j] == section_offset(views, j),
        decreases sections@.len() - k,
    {
        let ghost before = elf@;
        proof {
            lemma_section_bodies_len(views.take(k as int));
            lemma_ends_grow(views, k as int);
        }
        let section = &sections[k];
        assert(views[k as int] == sections@[k as int]@);
        bytes::pad_to(&mut elf, offsets[k]);
        bytes::append(&mut elf, section.data.as_slice());
        assert(views.take(k + 1).drop_last() =~= views.take(k as int));
        assert(views.take(k + 1).last() == views[k as int]);
        assert(elf@ =~= head + section_bodies(views.take(k + 1)));
        k = k + 1;
    }
    assert(views.take(k as int) =~= views);
    proof {
        lemma_section_bodies_len(views);
    }
    bytes::pad_to(&mut elf, shoff);
    write_shdr(
        &mut elf,
        &SectionHeader {
            name: 0,
            sh_type: 0,
            sh_flags: 0,
            sh_addr: 0,
            sh_offset: 0,
            sh_size: 0,
            sh_link: 0,
            sh_info: 0,
            sh_addralign: 0,
            sh_entsize: 0,
        },
    );
    let ghost body = head + section_bodies(views) + bytes::zeros(
        (table_offset(views) - sections_end(views)) as nat,
    );
    assert(elf@ =~= body + section_table(views, 0));
    let mut n: usize = 0;
    while n < sections.len()
        invariant
            views == section_views(sections@),
            views.len() == sections@.len(),
            n <= sections@.len(),
            elf@ == body + section_table(views, n as nat),
            offsets@.len() == sections@.len(),
            name_offsets@.len() == sections@.len(),
            forall|j: int|
                0 <= j < sections@.len() ==> #[trigger] offsets@[j] == section_offset(views, j),
            forall|j: int|
                0 <= j < sections@.len() ==> #[trigger] name_offsets@[j] == bytes::low32(
                    string_offset(section_names(views), j),
                ),
        decreases sections@.len() - n,
    {
        let section = &sections[n];
        assert(views[n as int] == sections@[n as int]@);
        let header = SectionHeader {
            name: name_offsets[n],
            sh_type: section.sh_type,
            sh_flags: section.sh_flags,
            sh_addr: section.sh_addr,
            sh_offset: offsets[n] as u64,
            sh_size: section.data.len() as u64,
            sh_link: section.link,
            sh_info: section.info,
            sh_addralign: section.sh_addralign,
            sh_entsize: section.sh_entsize,
        };
        assert(header == header_of(views, n as int));
        write_shdr(&mut elf, &header);
        n = n + 1;
        assert(elf@ =~= body + section_table(views, n as nat));
    }
    elf
}

} // verus!
