use crate::error::LinkError;
use crate::linker::{ElfHeader, ElfSymbol, SectionHeader, SectionType};
use crate::utils::read_struct::{le_u16, le_u64, read_struct, FixedRecord};
use crate::utils::str_table::StrTable;
use vstd::prelude::*;
use vstd::slice::{slice_subrange, slice_to_vec};

verus! {

/// A decoded object before its sections are read: the file header, the
/// section-header table and the raw symbol table.
pub struct ElfData {
    pub name: String,
    pub elf_header: ElfHeader,
    pub elf_sections: Vec<SectionHeader>,
    pub symbol_info: Option<SymbolInfo>,
    pub is_alive: bool,
    pub sec_str_tab: StrTable,
}

/// The symbol table of an object as it stands in the file.
pub struct SymbolInfo {
    pub elf_symbols: Vec<ElfSymbol>,
    pub first_global: usize,
    pub str_tab: StrTable,
}

/// Whether the identification bytes are the ELF magic, class ELF64 and
/// little-endian.
pub open spec fn ident_supported(b: Seq<u8>) -> bool {
    &&& b[0] == 0x7f
    &&& b[1] == 0x45
    &&& b[2] == 0x4c
    &&& b[3] == 0x46
    &&& b[4] == 2
    &&& b[5] == 1
}

/// Where the section-header table starts.
pub open spec fn section_table_offset(b: Seq<u8>) -> int {
    le_u64(b, 40)
}

/// How many section headers the object has: the count in the file header,
/// or, where that is zero, the `size` field of the first section header.
/// The first header is always there.
pub open spec fn section_count(b: Seq<u8>) -> int {
    if le_u16(b, 60) != 0 {
        le_u16(b, 60)
    } else if le_u64(b, section_table_offset(b) + 32) == 0 {
        1
    } else {
        le_u64(b, section_table_offset(b) + 32)
    }
}

/// An object whose file header gives the section count as zero has as
/// many sections as the `size` field of its first section header says.
pub proof fn lemma_extended_section_count(b: Seq<u8>)
    requires
        le_u16(b, 60) == 0,
        le_u64(b, section_table_offset(b) + 32) > 0,
    ensures
        section_headers(b).len() == le_u64(b, section_table_offset(b) + 32),
{
}

/// The section-header table, in file order.
pub open spec fn section_headers(b: Seq<u8>) -> Seq<SectionHeader> {
    Seq::new(
        section_count(b) as nat,
        |i: int| SectionHeader::parse(b, section_table_offset(b) + 64 * i),
    )
}

/// The index of the first header at or after `from` that has type `typ`.
pub open spec fn first_of_type(hs: Seq<SectionHeader>, typ: SectionType, from: int) -> Option<int>
    decreases hs.len() - from,
{
    if from < 0 || from >= hs.len() {
        None
    } else if hs[from]._type == typ {
        Some(from)
    } else {
        first_of_type(hs, typ, from + 1)
    }
}

/// What `first_of_type` finds is the first header of the type at or after
/// `from`, and it finds nothing only where there is none.
pub proof fn lemma_first_of_type(hs: Seq<SectionHeader>, typ: SectionType, from: int)
    requires
        0 <= from,
    ensures
        match first_of_type(hs, typ, from) {
            Some(k) => from <= k < hs.len() && hs[k]._type == typ && forall|i: int|
                from <= i < k ==> hs[i]._type != typ,
            None => forall|i: int| from <= i < hs.len() ==> hs[i]._type != typ,
        },
    decreases hs.len() - from,
{
    if from < hs.len() && hs[from]._type != typ {
        lemma_first_of_type(hs, typ, from + 1);
    }
}

/// Whether the bytes that the header claims lie inside the file.
pub open spec fn section_fits(b: Seq<u8>, h: SectionHeader) -> bool {
    h.offset + h.size <= b.len()
}

/// The bytes of the section that the header describes.
pub open spec fn section_bytes(b: Seq<u8>, h: SectionHeader) -> Seq<u8> {
    b.subrange(h.offset as int, h.offset + h.size)
}

/// How many symbol records a symbol-table section of this header holds:
/// one for every 24 bytes begun.
pub open spec fn symbol_count(h: SectionHeader) -> int {
    (h.size + 23) / 24
}

/// The symbol records of the symbol-table section `h`, in file order.
pub open spec fn symbol_records(b: Seq<u8>, h: SectionHeader) -> Seq<ElfSymbol> {
    Seq::new(symbol_count(h) as nat, |i: int| ElfSymbol::parse(b, h.offset + 24 * i))
}

/// Why the section-header table cannot be decoded, if it cannot.
pub open spec fn table_failure(b: Seq<u8>) -> Option<LinkError> {
    if b.len() < 64 {
        Some(LinkError::TruncatedObject)
    } else if !ident_supported(b) {
        Some(LinkError::UnsupportedElf)
    } else if section_table_offset(b) + 64 > b.len() {
        Some(LinkError::TruncatedObject)
    } else if section_table_offset(b) + 64 * section_count(b) > b.len() {
        Some(LinkError::TruncatedObject)
    } else {
        None
    }
}

/// Why the section `index` of the table `hs` cannot be read, if it cannot.
pub open spec fn section_failure(b: Seq<u8>, hs: Seq<SectionHeader>, index: int) -> Option<
    LinkError,
> {
    if index < 0 || index >= hs.len() {
        Some(LinkError::BadSectionIndex)
    } else if !section_fits(b, hs[index]) {
        Some(LinkError::TruncatedObject)
    } else {
        None
    }
}

/// Why the symbol table in section `t` cannot be decoded, if it cannot.
pub open spec fn symbols_failure(b: Seq<u8>, hs: Seq<SectionHeader>, t: int) -> Option<LinkError> {
    if section_failure(b, hs, hs[t].link as int) is Some {
        section_failure(b, hs, hs[t].link as int)
    } else if hs[t].offset + 24 * symbol_count(hs[t]) > b.len() {
        Some(LinkError::TruncatedObject)
    } else if hs[t].info > symbol_count(hs[t]) {
        Some(LinkError::BadSymbolEncoding)
    } else {
        None
    }
}

/// Why the bytes `b` cannot be decoded up to the symbol table, if they
/// cannot. The checks come in the order of decoding, and the first that
/// fails decides.
pub open spec fn decode_failure(b: Seq<u8>) -> Option<LinkError> {
    if table_failure(b) is Some {
        table_failure(b)
    } else if section_failure(b, section_headers(b), le_u16(b, 62)) is Some {
        section_failure(b, section_headers(b), le_u16(b, 62))
    } else {
        match first_of_type(section_headers(b), SectionType::SYMTAB, 0) {
            None => None,
            Some(t) => symbols_failure(b, section_headers(b), t),
        }
    }
}

impl SymbolInfo {
    /// Whether this is the symbol table in section `t` of the file `b`.
    pub open spec fn describes(&self, b: Seq<u8>, hs: Seq<SectionHeader>, t: int) -> bool {
        &&& self.elf_symbols@ == symbol_records(b, hs[t])
        &&& self.first_global == hs[t].info
        &&& self.str_tab.bytes() == section_bytes(b, hs[hs[t].link as int])
        &&& self.str_tab.limit() == hs[hs[t].link as int].size
    }
}

impl ElfData {
    /// Whether this is the decoding of the file `b` under the name `name`.
    pub open spec fn describes(&self, b: Seq<u8>, name: Seq<char>) -> bool {
        &&& self.name@ == name
        &&& !self.is_alive
        &&& ElfHeader::decodes(b, 0, self.elf_header)
        &&& self.elf_sections@ == section_headers(b)
        &&& self.sec_str_tab.bytes() == section_bytes(b, section_headers(b)[le_u16(b, 62)])
        &&& self.sec_str_tab.limit() == section_headers(b)[le_u16(b, 62)].size
        &&& match first_of_type(section_headers(b), SectionType::SYMTAB, 0) {
            None => self.symbol_info is None,
            Some(t) => self.symbol_info matches Some(info) && info.describes(
                b,
                section_headers(b),
                t,
            ),
        }
    }

    /// Decodes an object from the bytes of its file.
    pub fn new_from_buf(data: &[u8], name: String) -> (r: Result<ElfData, LinkError>)
        ensures
            decode_failure(data@) matches Some(e) ==> r == Err::<ElfData, LinkError>(e),
            decode_failure(data@) is None ==> (r matches Ok(d) && d.describes(data@, name@)),
    {
        let (elf_header, elf_sections) = decode_section_table(data)?;
        let buf = read_section_data(data, &elf_sections, elf_header.sh_strndx as usize)?;
        let size: usize = buf.len();
        let sec_str_tab = StrTable::new(buf, size);
        let symbol_info = match find_header(&elf_sections, SectionType::SYMTAB) {
            None => None,
            Some(t) => Some(decode_symbols(data, &elf_sections, t)?),
        };
        Ok(ElfData { name, elf_header, elf_sections, symbol_info, is_alive: false, sec_str_tab })
    }

    /// The first section header of type `typ`, if the object has one.
    pub fn find_section(&self, typ: SectionType) -> (r: Option<SectionHeader>)
        ensures
            match first_of_type(self.elf_sections@, typ, 0) {
                Some(k) => r == Some(self.elf_sections@[k]),
                None => r is None,
            },
    {
        match find_header(&self.elf_sections, typ) {
            Some(k) => Some(self.elf_sections[k]),
            None => None,
        }
    }
}

/// The index of the first header of type `typ`.
pub fn find_header(hs: &Vec<SectionHeader>, typ: SectionType) -> (r: Option<usize>)
    ensures
        match r {
            Some(i) => first_of_type(hs@, typ, 0) == Some(i as int) && i < hs@.len()
                && hs@[i as int]._type == typ && forall|k: int|
                0 <= k < i ==> hs@[k]._type != typ,
            None => first_of_type(hs@, typ, 0) is None && forall|k: int|
                0 <= k < hs@.len() ==> hs@[k]._type != typ,
        },
{
    let mut i: usize = 0;
    while i < hs.len()
        invariant
            i <= hs@.len(),
            first_of_type(hs@, typ, i as int) == first_of_type(hs@, typ, 0),
        decreases hs@.len() - i,
    {
        if hs[i]._type == typ {
            proof {
                lemma_first_of_type(hs@, typ, 0);
            }
            return Some(i);
        }
        i += 1;
    }
    proof {
        lemma_first_of_type(hs@, typ, 0);
    }
    None
}

/// Checks the identification bytes and decodes the file header and the
/// section-header table.
pub fn decode_section_table(data: &[u8]) -> (r: Result<(ElfHeader, Vec<SectionHeader>), LinkError>)
    ensures
        table_failure(data@) matches Some(e) ==> r == Err::<(ElfHeader, Vec<SectionHeader>), LinkError>(e),
        table_failure(data@) is None ==> (r matches Ok(p) && ElfHeader::decodes(data@, 0, p.0)
            && p.1@ == section_headers(data@)),
{
    let mut cursor: usize = 0;
    let elf_header: ElfHeader = match read_struct::<ElfHeader>(data, &mut cursor) {
        Ok(h) => h,
        Err(_) => { return Err(LinkError::TruncatedObject); },
    };
    if !(data[0] == 0x7f && data[1] == 0x45 && data[2] == 0x4c && data[3] == 0x46 && data[4] == 2
        && data[5] == 1) {
        return Err(LinkError::UnsupportedElf);
    }
    let total: u64 = data.len() as u64;
    if elf_header.sh_off > total || total - elf_header.sh_off < 64 {
        return Err(LinkError::TruncatedObject);
    }
    cursor = elf_header.sh_off as usize;
    let first: SectionHeader = match read_struct::<SectionHeader>(data, &mut cursor) {
        Ok(h) => h,
        Err(_) => { return Err(LinkError::TruncatedObject); },
    };
    let section_num: u64 = if elf_header.sh_num != 0 {
        elf_header.sh_num as u64
    } else if first.size == 0 {
        1
    } else {
        first.size
    };
    assert(section_num == section_count(data@));
    if (total - elf_header.sh_off) / 64 < section_num {
        return Err(LinkError::TruncatedObject);
    }
    let mut sections: Vec<SectionHeader> = Vec::new();
    sections.push(first);
    let mut i: u64 = 1;
    while i < section_num
        invariant
            1 <= i <= section_num,
            section_num == section_count(data@),
            elf_header.sh_off == section_table_offset(data@),
            elf_header.sh_off + 64 * section_num <= data.len(),
            cursor == elf_header.sh_off + 64 * i,
            sections@.len() == i,
            forall|k: int| 0 <= k < i ==> sections@[k] == section_headers(data@)[k],
        decreases section_num - i,
    {
        let sec: SectionHeader = match read_struct::<SectionHeader>(data, &mut cursor) {
            Ok(h) => h,
            Err(_) => { return Err(LinkError::TruncatedObject); },
        };
        sections.push(sec);
        i += 1;
    }
    assert(sections@ =~= section_headers(data@));
    Ok((elf_header, sections))
}

/// The bytes of the section `index`, copied out of the file.
pub fn read_section_data(data: &[u8], hs: &Vec<SectionHeader>, index: usize) -> (r: Result<
    Vec<u8>,
    LinkError,
>)
    ensures
        section_failure(data@, hs@, index as int) matches Some(e) ==> r == Err::<
            Vec<u8>,
            LinkError,
        >(e),
        section_failure(data@, hs@, index as int) is None ==> (r matches Ok(v) && v@
            == section_bytes(data@, hs@[index as int])),
{
    if index >= hs.len() {
        return Err(LinkError::BadSectionIndex);
    }
    let h: SectionHeader = hs[index];
    let total: u64 = data.len() as u64;
    if h.offset > total || total - h.offset < h.size {
        return Err(LinkError::TruncatedObject);
    }
    let from: usize = h.offset as usize;
    let to: usize = (h.offset + h.size) as usize;
    Ok(slice_to_vec(slice_subrange(data, from, to)))
}

/// Decodes the symbol table that section `t` holds, with the string table
/// that its `link` field names.
pub fn decode_symbols(data: &[u8], hs: &Vec<SectionHeader>, t: usize) -> (r: Result<
    SymbolInfo,
    LinkError,
>)
    requires
        t < hs@.len(),
    ensures
        symbols_failure(data@, hs@, t as int) matches Some(e) ==> r == Err::<SymbolInfo, LinkError>(
            e,
        ),
        symbols_failure(data@, hs@, t as int) is None ==> (r matches Ok(info) && info.describes(
            data@,
            hs@,
            t as int,
        )),
{
    let table: SectionHeader = hs[t];
    let buf = read_section_data(data, hs, table.link as usize)?;
    let size: usize = buf.len();
    let str_tab = StrTable::new(buf, size);
    let total: u64 = data.len() as u64;
    if table.offset > total {
        return Err(LinkError::TruncatedObject);
    }
    let room: u64 = (total - table.offset) / 24;
    let count: u64 = table.size / 24 + (if table.size % 24 == 0 {
        0
    } else {
        1
    });
    assert(count == symbol_count(table));
    if room < count {
        return Err(LinkError::TruncatedObject);
    }
    if table.info as u64 > count {
        return Err(LinkError::BadSymbolEncoding);
    }
    let mut elf_symbols: Vec<ElfSymbol> = Vec::new();
    let mut cursor: usize = table.offset as usize;
    let mut i: u64 = 0;
    while i < count
        invariant
            i <= count,
            count == symbol_count(table),
            table.offset + 24 * count <= data.len(),
            cursor == table.offset + 24 * i,
            elf_symbols@.len() == i,
            forall|k: int| 0 <= k < i ==> elf_symbols@[k] == symbol_records(data@, table)[k],
        decreases count - i,
    {
        let symbol: ElfSymbol = match read_struct::<ElfSymbol>(data, &mut cursor) {
            Ok(s) => s,
            Err(_) => { return Err(LinkError::TruncatedObject); },
        };
        elf_symbols.push(symbol);
        i += 1;
    }
    assert(elf_symbols@ =~= symbol_records(data@, table));
    Ok(SymbolInfo { elf_symbols, first_global: table.info as usize, str_tab })
}

} // verus!
