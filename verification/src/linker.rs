use crate::utils::read_struct::{get_u16, get_u32, get_u64, le_u16, le_u32, le_u64, FixedRecord};
use crate::e_header::ident::Ident;
use crate::utils::str_table::StrTable;
use crate::utils::text::latin1;
use vstd::prelude::*;

verus! {

/// The file header of an ELF64 object, as laid out on disk.
#[derive(Debug)]
pub struct ElfHeader {
    pub ident: [u8; 16],
    pub _type: u16,
    pub machine: u16,
    pub version: u32,
    pub entry: u64,
    pub ph_off: u64,
    pub sh_off: u64,
    pub flags: u32,
    pub eh_size: u16,
    pub ph_ent_size: u16,
    pub ph_num: u16,
    pub sh_ent_size: u16,
    pub sh_num: u16,
    pub sh_strndx: u16,
}

/// One entry of the section-header table.
#[derive(Debug, Clone, Copy)]
pub struct SectionHeader {
    pub name: u32,
    pub _type: SectionType,
    pub flags: u64,
    pub addr: u64,
    pub offset: u64,
    pub size: u64,
    pub link: u32,
    pub info: u32,
    pub add_align: u64,
    pub ent_size: u64,
}

/// One record of the symbol table.
#[derive(Debug, Clone, Copy)]
pub struct ElfSymbol {
    pub name: u32,
    /// Type in the low four bits, binding in the high four.
    pub info: u8,
    pub other: u8,
    pub shndx: u16,
    pub val: u64,
    pub size: u64,
}

/// What a section holds. A value that has no name of its own is carried
/// through as `Other`.
#[derive(Debug, PartialEq, Eq, Clone, Copy, Structural)]
#[allow(non_camel_case_types)]
pub enum SectionType {
    DYNAMIC,
    DYNSYM,
    FINI_ARRAY,
    HASH,
    HIPROC,
    HIUSER,
    INIT_ARRAY,
    LOPROC,
    LOUSER,
    NOBITS,
    NOTE,
    NULL,
    PREINIT_ARRAY,
    PROGBITS,
    REL,
    RELA,
    SHLIB,
    STRTAB,
    SYMTAB,
    Other(u32),
}

/// The bits of a section header's `flags` word.
#[derive(Debug, PartialEq, Eq, Clone, Copy, Structural)]
#[allow(non_camel_case_types)]
pub enum SectionFlag {
    WRITE,
    ALLOC,
    EXECINSTR,
    MERGE,
    STRINGS,
    INFO_LINK,
    LINK_ORDER,
    OS_NONCONFORMING,
    GROUP,
    TLS,
    COMPRESSED,
    MASKOS,
    MASKPROC,
    ORDERED,
    EXCLUDE,
}

/// Where a symbol is defined: a reserved index, or the number of a section.
#[derive(Debug, PartialEq, Eq, Clone, Copy, Structural)]
#[allow(non_camel_case_types)]
pub enum SectionIndex {
    UNDEF,
    LOPROC,
    HIPROC,
    ABS,
    COMMON,
    HIRESERVE,
    Other(u16),
}

/// How far a symbol can be seen, from the high four bits of its `info`.
#[derive(Debug, PartialEq, Eq, Clone, Copy, Structural)]
#[allow(non_camel_case_types)]
pub enum SymbolBinding {
    LOCAL,
    GLOBAL,
    WEAK,
    LOPROC,
    HIPROC,
}

/// What a symbol names, from the low four bits of its `info`.
#[derive(Debug, PartialEq, Eq, Clone, Copy, Structural)]
#[allow(non_camel_case_types)]
pub enum SymbolType {
    NOTYPE,
    OBJECT,
    FUNC,
    SECTION,
    FILE,
    LOPROC,
    HIPROC,
}

impl SectionType {
    /// The section type that the number `v` stands for.
    pub open spec fn of(v: u32) -> SectionType {
        if v == 0x0 {
            SectionType::NULL
        } else if v == 0x1 {
            SectionType::PROGBITS
        } else if v == 0x2 {
            SectionType::SYMTAB
        } else if v == 0x3 {
            SectionType::STRTAB
        } else if v == 0x4 {
            SectionType::RELA
        } else if v == 0x5 {
            SectionType::HASH
        } else if v == 0x6 {
            SectionType::DYNAMIC
        } else if v == 0x7 {
            SectionType::NOTE
        } else if v == 0x8 {
            SectionType::NOBITS
        } else if v == 0x9 {
            SectionType::REL
        } else if v == 0xa {
            SectionType::SHLIB
        } else if v == 0xb {
            SectionType::DYNSYM
        } else if v == 0xe {
            SectionType::INIT_ARRAY
        } else if v == 0xf {
            SectionType::FINI_ARRAY
        } else if v == 0x10 {
            SectionType::PREINIT_ARRAY
        } else if v == 0x7000_0000 {
            SectionType::LOPROC
        } else if v == 0x7fff_ffff {
            SectionType::HIPROC
        } else if v == 0x8000_0000 {
            SectionType::LOUSER
        } else if v == 0xffff_ffff {
            SectionType::HIUSER
        } else {
            SectionType::Other(v)
        }
    }

    /// The number that stands for this section type on disk.
    pub open spec fn spec_raw(self) -> u32 {
        match self {
            SectionType::NULL => 0x0,
            SectionType::PROGBITS => 0x1,
            SectionType::SYMTAB => 0x2,
            SectionType::STRTAB => 0x3,
            SectionType::RELA => 0x4,
            SectionType::HASH => 0x5,
            SectionType::DYNAMIC => 0x6,
            SectionType::NOTE => 0x7,
            SectionType::NOBITS => 0x8,
            SectionType::REL => 0x9,
            SectionType::SHLIB => 0xa,
            SectionType::DYNSYM => 0xb,
            SectionType::INIT_ARRAY => 0xe,
            SectionType::FINI_ARRAY => 0xf,
            SectionType::PREINIT_ARRAY => 0x10,
            SectionType::LOPROC => 0x7000_0000,
            SectionType::HIPROC => 0x7fff_ffff,
            SectionType::LOUSER => 0x8000_0000,
            SectionType::HIUSER => 0xffff_ffff,
            SectionType::Other(v) => v,
        }
    }

    /// Whether a section of this type has no bytes of its own to keep:
    /// the null section, relocations, string tables and the symbol table.
    pub open spec fn is_bookkeeping(self) -> bool {
        self == SectionType::NULL || self == SectionType::REL || self == SectionType::RELA
            || self == SectionType::STRTAB || self == SectionType::SYMTAB
    }

    /// The section type with the number `v`.
    pub fn from_u32(v: u32) -> (t: SectionType)
        ensures
            t == SectionType::of(v),
            t.spec_raw() == v,
    {
        if v == 0x0 {
            SectionType::NULL
        } else if v == 0x1 {
            SectionType::PROGBITS
        } else if v == 0x2 {
            SectionType::SYMTAB
        } else if v == 0x3 {
            SectionType::STRTAB
        } else if v == 0x4 {
            SectionType::RELA
        } else if v == 0x5 {
            SectionType::HASH
        } else if v == 0x6 {
            SectionType::DYNAMIC
        } else if v == 0x7 {
            SectionType::NOTE
        } else if v == 0x8 {
            SectionType::NOBITS
        } else if v == 0x9 {
            SectionType::REL
        } else if v == 0xa {
            SectionType::SHLIB
        } else if v == 0xb {
            SectionType::DYNSYM
        } else if v == 0xe {
            SectionType::INIT_ARRAY
        } else if v == 0xf {
            SectionType::FINI_ARRAY
        } else if v == 0x10 {
            SectionType::PREINIT_ARRAY
        } else if v == 0x7000_0000 {
            SectionType::LOPROC
        } else if v == 0x7fff_ffff {
            SectionType::HIPROC
        } else if v == 0x8000_0000 {
            SectionType::LOUSER
        } else if v == 0xffff_ffff {
            SectionType::HIUSER
        } else {
            SectionType::Other(v)
        }
    }

    /// The number of the section type.
    pub fn to_u32(&self) -> (v: u32)
        ensures
            v == self.spec_raw(),
    {
        match self {
            SectionType::NULL => 0x0,
            SectionType::PROGBITS => 0x1,
            SectionType::SYMTAB => 0x2,
            SectionType::STRTAB => 0x3,
            SectionType::RELA => 0x4,
            SectionType::HASH => 0x5,
            SectionType::DYNAMIC => 0x6,
            SectionType::NOTE => 0x7,
            SectionType::NOBITS => 0x8,
            SectionType::REL => 0x9,
            SectionType::SHLIB => 0xa,
            SectionType::DYNSYM => 0xb,
            SectionType::INIT_ARRAY => 0xe,
            SectionType::FINI_ARRAY => 0xf,
            SectionType::PREINIT_ARRAY => 0x10,
            SectionType::LOPROC => 0x7000_0000,
            SectionType::HIPROC => 0x7fff_ffff,
            SectionType::LOUSER => 0x8000_0000,
            SectionType::HIUSER => 0xffff_ffff,
            SectionType::Other(v) => *v,
        }
    }

    /// Whether the section slot of a header of this type is left absent.
    pub fn has_no_section(&self) -> (b: bool)
        ensures
            b == self.is_bookkeeping(),
    {
        match self {
            SectionType::NULL => true,
            SectionType::REL => true,
            SectionType::RELA => true,
            SectionType::STRTAB => true,
            SectionType::SYMTAB => true,
            _ => false,
        }
    }
}

impl Default for SectionType {
    fn default() -> (t: Self)
        ensures
            t == SectionType::NULL,
    {
        SectionType::NULL
    }
}

impl Default for SectionHeader {
    fn default() -> (h: Self)
        ensures
            h == (SectionHeader {
                name: 0,
                _type: SectionType::NULL,
                flags: 0,
                addr: 0,
                offset: 0,
                size: 0,
                link: 0,
                info: 0,
                add_align: 0,
                ent_size: 0,
            }),
    {
        SectionHeader {
            name: 0,
            _type: SectionType::NULL,
            flags: 0,
            addr: 0,
            offset: 0,
            size: 0,
            link: 0,
            info: 0,
            add_align: 0,
            ent_size: 0,
        }
    }
}

impl SectionFlag {
    /// The bit, or for the two masks the bits, that the flag stands for.
    pub open spec fn spec_mask(self) -> u64 {
        match self {
            SectionFlag::WRITE => 0x1,
            SectionFlag::ALLOC => 0x2,
            SectionFlag::EXECINSTR => 0x4,
            SectionFlag::MERGE => 0x10,
            SectionFlag::STRINGS => 0x20,
            SectionFlag::INFO_LINK => 0x40,
            SectionFlag::LINK_ORDER => 0x80,
            SectionFlag::OS_NONCONFORMING => 0x100,
            SectionFlag::GROUP => 0x200,
            SectionFlag::TLS => 0x400,
            SectionFlag::COMPRESSED => 0x800,
            SectionFlag::MASKOS => 0x0ff0_0000,
            SectionFlag::MASKPROC => 0xf000_0000,
            SectionFlag::ORDERED => 0x4000_0000,
            SectionFlag::EXCLUDE => 0x8000_0000,
        }
    }

    /// Whether the flags word `flags` has a bit of this flag set.
    pub open spec fn spec_is_set(self, flags: u64) -> bool {
        flags & self.spec_mask() != 0
    }

    /// The bit, or for the two masks the bits, of the flag.
    pub fn mask(&self) -> (m: u64)
        ensures
            m == self.spec_mask(),
    {
        match self {
            SectionFlag::WRITE => 0x1,
            SectionFlag::ALLOC => 0x2,
            SectionFlag::EXECINSTR => 0x4,
            SectionFlag::MERGE => 0x10,
            SectionFlag::STRINGS => 0x20,
            SectionFlag::INFO_LINK => 0x40,
            SectionFlag::LINK_ORDER => 0x80,
            SectionFlag::OS_NONCONFORMING => 0x100,
            SectionFlag::GROUP => 0x200,
            SectionFlag::TLS => 0x400,
            SectionFlag::COMPRESSED => 0x800,
            SectionFlag::MASKOS => 0x0ff0_0000,
            SectionFlag::MASKPROC => 0xf000_0000,
            SectionFlag::ORDERED => 0x4000_0000,
            SectionFlag::EXCLUDE => 0x8000_0000,
        }
    }

    /// Whether the flags word `flags` has a bit of this flag set.
    pub fn is_set(&self, flags: u64) -> (b: bool)
        ensures
            b == self.spec_is_set(flags),
    {
        flags & self.mask() != 0
    }
}

impl SectionIndex {
    /// The section index that the number `v` stands for.
    pub open spec fn of(v: u16) -> SectionIndex {
        if v == 0 {
            SectionIndex::UNDEF
        } else if v == 0xff00 {
            SectionIndex::LOPROC
        } else if v == 0xff1f {
            SectionIndex::HIPROC
        } else if v == 0xfff1 {
            SectionIndex::ABS
        } else if v == 0xfff2 {
            SectionIndex::COMMON
        } else if v == 0xffff {
            SectionIndex::HIRESERVE
        } else {
            SectionIndex::Other(v)
        }
    }
}

impl From<u16> for SectionIndex {
    fn from(value: u16) -> (r: Self) {
        if value == 0 {
            SectionIndex::UNDEF
        } else if value == 0xff00 {
            SectionIndex::LOPROC
        } else if value == 0xff1f {
            SectionIndex::HIPROC
        } else if value == 0xfff1 {
            SectionIndex::ABS
        } else if value == 0xfff2 {
            SectionIndex::COMMON
        } else if value == 0xffff {
            SectionIndex::HIRESERVE
        } else {
            SectionIndex::Other(value)
        }
    }
}

impl vstd::std_specs::convert::FromSpecImpl<u16> for SectionIndex {
    open spec fn obeys_from_spec() -> bool {
        true
    }

    open spec fn from_spec(v: u16) -> Self {
        SectionIndex::of(v)
    }
}

impl SymbolType {
    /// Whether `v` is the number of a symbol type.
    pub open spec fn known(v: u8) -> bool {
        v == 0 || v == 1 || v == 2 || v == 3 || v == 4 || v == 13 || v == 15
    }

    /// The symbol type that the number `v` stands for.
    pub open spec fn of(v: u8) -> SymbolType
        recommends
            SymbolType::known(v),
    {
        if v == 0 {
            SymbolType::NOTYPE
        } else if v == 1 {
            SymbolType::OBJECT
        } else if v == 2 {
            SymbolType::FUNC
        } else if v == 3 {
            SymbolType::SECTION
        } else if v == 4 {
            SymbolType::FILE
        } else if v == 13 {
            SymbolType::LOPROC
        } else {
            SymbolType::HIPROC
        }
    }

    /// The symbol type with the number `value`.
    pub fn from(value: u8) -> (t: SymbolType)
        requires
            SymbolType::known(value),
        ensures
            t == SymbolType::of(value),
    {
        if value == 0 {
            SymbolType::NOTYPE
        } else if value == 1 {
            SymbolType::OBJECT
        } else if value == 2 {
            SymbolType::FUNC
        } else if value == 3 {
            SymbolType::SECTION
        } else if value == 4 {
            SymbolType::FILE
        } else if value == 13 {
            SymbolType::LOPROC
        } else {
            SymbolType::HIPROC
        }
    }
}

impl SymbolBinding {
    /// Whether `v` is the number of a symbol binding.
    pub open spec fn known(v: u8) -> bool {
        v == 0 || v == 1 || v == 2 || v == 13 || v == 15
    }

    /// The binding that the number `v` stands for.
    pub open spec fn of(v: u8) -> SymbolBinding
        recommends
            SymbolBinding::known(v),
    {
        if v == 0 {
            SymbolBinding::LOCAL
        } else if v == 1 {
            SymbolBinding::GLOBAL
        } else if v == 2 {
            SymbolBinding::WEAK
        } else if v == 13 {
            SymbolBinding::LOPROC
        } else {
            SymbolBinding::HIPROC
        }
    }

    /// The binding with the number `value`.
    pub fn from(value: u8) -> (t: SymbolBinding)
        requires
            SymbolBinding::known(value),
        ensures
            t == SymbolBinding::of(value),
    {
        if value == 0 {
            SymbolBinding::LOCAL
        } else if value == 1 {
            SymbolBinding::GLOBAL
        } else if value == 2 {
            SymbolBinding::WEAK
        } else if value == 13 {
            SymbolBinding::LOPROC
        } else {
            SymbolBinding::HIPROC
        }
    }
}

impl ElfHeader {
    /// The identification bytes of the header.
    pub fn parse_ident(&self) -> (i: Ident)
        ensures
            i.ident == self.ident,
    {
        Ident::new(self.ident)
    }
}

impl FixedRecord for ElfHeader {
    open spec fn spec_size() -> nat {
        64
    }

    open spec fn decodes(b: Seq<u8>, at: int, r: Self) -> bool {
        &&& forall|i: int| 0 <= i < 16 ==> r.ident@[i] == b[at + i]
        &&& r._type == le_u16(b, at + 16)
        &&& r.machine == le_u16(b, at + 18)
        &&& r.version == le_u32(b, at + 20)
        &&& r.entry == le_u64(b, at + 24)
        &&& r.ph_off == le_u64(b, at + 32)
        &&& r.sh_off == le_u64(b, at + 40)
        &&& r.flags == le_u32(b, at + 48)
        &&& r.eh_size == le_u16(b, at + 52)
        &&& r.ph_ent_size == le_u16(b, at + 54)
        &&& r.ph_num == le_u16(b, at + 56)
        &&& r.sh_ent_size == le_u16(b, at + 58)
        &&& r.sh_num == le_u16(b, at + 60)
        &&& r.sh_strndx == le_u16(b, at + 62)
    }

    fn size() -> (n: usize) {
        64
    }

    fn decode(data: &[u8], at: usize) -> (r: Self) {
        let mut ident: [u8; 16] = [0u8; 16];
        let mut i: usize = 0;
        while i < 16
            invariant
                i <= 16,
                at + 64 <= data.len(),
                forall|k: int| 0 <= k < i ==> ident@[k] == data@[at + k],
            decreases 16 - i,
        {
            ident[i] = data[at + i];
            i += 1;
        }
        ElfHeader {
            ident,
            _type: get_u16(data, at + 16),
            machine: get_u16(data, at + 18),
            version: get_u32(data, at + 20),
            entry: get_u64(data, at + 24),
            ph_off: get_u64(data, at + 32),
            sh_off: get_u64(data, at + 40),
            flags: get_u32(data, at + 48),
            eh_size: get_u16(data, at + 52),
            ph_ent_size: get_u16(data, at + 54),
            ph_num: get_u16(data, at + 56),
            sh_ent_size: get_u16(data, at + 58),
            sh_num: get_u16(data, at + 60),
            sh_strndx: get_u16(data, at + 62),
        }
    }
}

impl SectionHeader {
    /// The section header that the 64 bytes at `at` hold.
    pub open spec fn parse(b: Seq<u8>, at: int) -> SectionHeader {
        SectionHeader {
            name: le_u32(b, at) as u32,
            _type: SectionType::of(le_u32(b, at + 4) as u32),
            flags: le_u64(b, at + 8) as u64,
            addr: le_u64(b, at + 16) as u64,
            offset: le_u64(b, at + 24) as u64,
            size: le_u64(b, at + 32) as u64,
            link: le_u32(b, at + 40) as u32,
            info: le_u32(b, at + 44) as u32,
            add_align: le_u64(b, at + 48) as u64,
            ent_size: le_u64(b, at + 56) as u64,
        }
    }
}

impl FixedRecord for SectionHeader {
    open spec fn spec_size() -> nat {
        64
    }

    open spec fn decodes(b: Seq<u8>, at: int, r: Self) -> bool {
        r == SectionHeader::parse(b, at)
    }

    fn size() -> (n: usize) {
        64
    }

    fn decode(data: &[u8], at: usize) -> (r: Self) {
        SectionHeader {
            name: get_u32(data, at),
            _type: SectionType::from_u32(get_u32(data, at + 4)),
            flags: get_u64(data, at + 8),
            addr: get_u64(data, at + 16),
            offset: get_u64(data, at + 24),
            size: get_u64(data, at + 32),
            link: get_u32(data, at + 40),
            info: get_u32(data, at + 44),
            add_align: get_u64(data, at + 48),
            ent_size: get_u64(data, at + 56),
        }
    }
}

impl FixedRecord for ElfSymbol {
    open spec fn spec_size() -> nat {
        24
    }

    open spec fn decodes(b: Seq<u8>, at: int, r: Self) -> bool {
        r == ElfSymbol::parse(b, at)
    }

    fn size() -> (n: usize) {
        24
    }

    fn decode(data: &[u8], at: usize) -> (r: Self) {
        ElfSymbol {
            name: get_u32(data, at),
            info: data[at + 4],
            other: data[at + 5],
            shndx: get_u16(data, at + 6),
            val: get_u64(data, at + 8),
            size: get_u64(data, at + 16),
        }
    }
}

impl ElfSymbol {
    /// The symbol record that the 24 bytes at `at` hold.
    pub open spec fn parse(b: Seq<u8>, at: int) -> ElfSymbol {
        ElfSymbol {
            name: le_u32(b, at) as u32,
            info: b[at + 4],
            other: b[at + 5],
            shndx: le_u16(b, at + 6) as u16,
            val: le_u64(b, at + 8) as u64,
            size: le_u64(b, at + 16) as u64,
        }
    }

    /// Whether the record names a section of its object as the place of
    /// definition, rather than one of the reserved indices.
    pub open spec fn is_concrete(&self) -> bool {
        SectionIndex::of(self.shndx) is Other
    }

    /// The name of the symbol, looked up in the string table of its
    /// symbol table.
    pub fn name(&self, str_table: &StrTable) -> (s: String)
        ensures
            s@ == latin1(str_table.spec_get(self.name as int)),
    {
        str_table.get(self.name as usize)
    }

    /// Where the symbol is defined.
    pub fn index(&self) -> (r: SectionIndex)
        ensures
            r == SectionIndex::of(self.shndx),
    {
        SectionIndex::from(self.shndx)
    }

    /// What the symbol names.
    pub fn typ(&self) -> (r: SymbolType)
        requires
            SymbolType::known(self.info & 0xf),
        ensures
            r == SymbolType::of(self.info & 0xf),
    {
        let typ: u8 = self.info & 0xf;
        SymbolType::from(typ)
    }

    /// How far the symbol can be seen.
    pub fn bind(&self) -> (r: SymbolBinding)
        requires
            SymbolBinding::known(self.info >> 4),
        ensures
            r == SymbolBinding::of(self.info >> 4),
    {
        let bind: u8 = self.info >> 4;
        SymbolBinding::from(bind)
    }

    /// Whether the value of the symbol is absolute.
    pub fn is_abs(&self) -> (b: bool)
        ensures
            b == (SectionIndex::of(self.shndx) == SectionIndex::ABS),
    {
        self.shndx == 0xfff1
    }

    /// Whether the symbol is a common block that is not allocated yet.
    pub fn is_common(&self) -> (b: bool)
        ensures
            b == (SectionIndex::of(self.shndx) == SectionIndex::COMMON),
    {
        self.shndx == 0xfff2
    }

    /// Whether the record is an undefined reference.
    pub fn is_undef(&self) -> (b: bool)
        ensures
            b == (SectionIndex::of(self.shndx) == SectionIndex::UNDEF),
    {
        self.shndx == 0
    }

    /// Whether the record names a section of its object.
    pub fn has_section(&self) -> (b: bool)
        ensures
            b == self.is_concrete(),
    {
        let v: u16 = self.shndx;
        !(v == 0 || v == 0xff00 || v == 0xff1f || v == 0xfff1 || v == 0xfff2 || v == 0xffff)
    }
}

} // verus!
