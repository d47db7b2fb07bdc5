use elf_linker::argument_parser::Args;
use elf_linker::e_header::e_type::EType;
use elf_linker::e_header::ident::{Class, Endian, Ident, Version, OS};
use elf_linker::e_header::isa::ISA;
use elf_linker::error::LinkError;
use elf_linker::linker::{
    ElfHeader, ElfSymbol, SectionFlag, SectionHeader, SectionIndex, SectionType, SymbolBinding,
    SymbolType,
};
use elf_linker::section_header::s_type::SType;
use elf_linker::utils::fragments::split_fragments;
use elf_linker::output_section::merged_section::FragmentData;
use elf_linker::utils::read_struct::{get_u16, get_u32, get_u64, read_struct};
use elf_linker::utils::str_table::StrTable;
use elf_linker::utils::text::{bytes_to_text, latin1_string, parse_decimal, trim_range};

#[test]
fn integers_are_read_least_significant_byte_first() {
    let data = [0x01, 0x02, 0x03, 0x04, 0x05, 0x06, 0x07, 0x08, 0xff];
    assert_eq!(get_u16(&data, 0), 0x0201);
    assert_eq!(get_u16(&data, 7), 0xff08);
    assert_eq!(get_u32(&data, 1), 0x05040302);
    assert_eq!(get_u64(&data, 0), 0x0807060504030201);
    assert_eq!(get_u64(&data, 1), 0xff08070605040302);
    assert_eq!(get_u64(&[0xff; 8], 0), u64::MAX);
}

#[test]
fn a_record_is_read_at_the_cursor() {
    let mut data = vec![0u8; 3];
    let mut symbol = Vec::new();
    symbol.extend_from_slice(&7u32.to_le_bytes());
    symbol.push(0x12);
    symbol.push(3);
    symbol.extend_from_slice(&0xfff2u16.to_le_bytes());
    symbol.extend_from_slice(&0x1122334455667788u64.to_le_bytes());
    symbol.extend_from_slice(&24u64.to_le_bytes());
    data.extend_from_slice(&symbol);
    let mut cursor = 3;
    let s: ElfSymbol = read_struct(&data, &mut cursor).unwrap();
    assert_eq!(cursor, 27);
    assert_eq!((s.name, s.info, s.other, s.shndx), (7, 0x12, 3, 0xfff2));
    assert_eq!((s.val, s.size), (0x1122334455667788, 24));
    assert_eq!(s.typ(), SymbolType::FUNC);
    assert_eq!(s.bind(), SymbolBinding::GLOBAL);
    assert_eq!(s.index(), SectionIndex::COMMON);
    assert!(s.is_common() && !s.is_abs() && !s.is_undef() && !s.has_section());
}

#[test]
fn a_short_read_leaves_the_cursor_where_it_was() {
    let data = vec![0u8; 26];
    let mut cursor = 3;
    let r: Result<ElfSymbol, LinkError> = read_struct(&data, &mut cursor);
    assert_eq!(r.err(), Some(LinkError::ShortRead));
    assert_eq!(cursor, 3);
    let mut cursor = 2;
    assert!(read_struct::<ElfSymbol>(&data, &mut cursor).is_ok());
    assert_eq!(cursor, 26);
    let mut cursor = 30;
    assert_eq!(read_struct::<ElfSymbol>(&data, &mut cursor).err(), Some(LinkError::ShortRead));
    assert_eq!(cursor, 30);
    let mut cursor = 0;
    assert_eq!(read_struct::<ElfHeader>(&data, &mut cursor).err(), Some(LinkError::ShortRead));
}

#[test]
fn the_file_header_is_decoded_field_by_field() {
    let mut data: Vec<u8> = (0u8..16).collect();
    data.extend_from_slice(&1u16.to_le_bytes());
    data.extend_from_slice(&0x3eu16.to_le_bytes());
    data.extend_from_slice(&1u32.to_le_bytes());
    data.extend_from_slice(&0x401000u64.to_le_bytes());
    data.extend_from_slice(&64u64.to_le_bytes());
    data.extend_from_slice(&0x2000u64.to_le_bytes());
    data.extend_from_slice(&5u32.to_le_bytes());
    for v in [64u16, 56, 2, 64, 9, 8] {
        data.extend_from_slice(&v.to_le_bytes());
    }
    let mut cursor = 0;
    let h: ElfHeader = read_struct(&data, &mut cursor).unwrap();
    assert_eq!(cursor, 64);
    assert_eq!(h.ident.to_vec(), (0u8..16).collect::<Vec<u8>>());
    assert_eq!((h._type, h.machine, h.version), (1, 0x3e, 1));
    assert_eq!((h.entry, h.ph_off, h.sh_off, h.flags), (0x401000, 64, 0x2000, 5));
    assert_eq!((h.eh_size, h.ph_ent_size, h.ph_num), (64, 56, 2));
    assert_eq!((h.sh_ent_size, h.sh_num, h.sh_strndx), (64, 9, 8));
    assert_eq!(h.parse_ident().ident, h.ident);
}

#[test]
fn a_section_header_is_decoded_field_by_field() {
    let mut data = Vec::new();
    data.extend_from_slice(&11u32.to_le_bytes());
    data.extend_from_slice(&0x6fff_fff6u32.to_le_bytes());
    for v in [0x32u64, 0x1000, 0x40, 0x123] {
        data.extend_from_slice(&v.to_le_bytes());
    }
    data.extend_from_slice(&3u32.to_le_bytes());
    data.extend_from_slice(&4u32.to_le_bytes());
    data.extend_from_slice(&16u64.to_le_bytes());
    data.extend_from_slice(&8u64.to_le_bytes());
    let mut cursor = 0;
    let h: SectionHeader = read_struct(&data, &mut cursor).unwrap();
    assert_eq!(h.name, 11);
    assert_eq!(h._type, SectionType::Other(0x6fff_fff6));
    assert_eq!((h.flags, h.addr, h.offset, h.size), (0x32, 0x1000, 0x40, 0x123));
    assert_eq!((h.link, h.info, h.add_align, h.ent_size), (3, 4, 16, 8));
    assert_eq!(SectionHeader::default()._type, SectionType::NULL);
    assert_eq!(SectionHeader::default().ent_size, 0);
}

#[test]
fn section_types_keep_their_numbers() {
    let named: [(u32, SectionType); 19] = [
        (0x0, SectionType::NULL),
        (0x1, SectionType::PROGBITS),
        (0x2, SectionType::SYMTAB),
        (0x3, SectionType::STRTAB),
        (0x4, SectionType::RELA),
        (0x5, SectionType::HASH),
        (0x6, SectionType::DYNAMIC),
        (0x7, SectionType::NOTE),
        (0x8, SectionType::NOBITS),
        (0x9, SectionType::REL),
        (0xa, SectionType::SHLIB),
        (0xb, SectionType::DYNSYM),
        (0xe, SectionType::INIT_ARRAY),
        (0xf, SectionType::FINI_ARRAY),
        (0x10, SectionType::PREINIT_ARRAY),
        (0x7000_0000, SectionType::LOPROC),
        (0x7fff_ffff, SectionType::HIPROC),
        (0x8000_0000, SectionType::LOUSER),
        (0xffff_ffff, SectionType::HIUSER),
    ];
    for (number, typ) in named {
        assert_eq!(SectionType::from_u32(number), typ);
        assert_eq!(typ.to_u32(), number);
    }
    for number in [0xcu32, 0xd, 0x11, 0x6000_0000, 0x7000_0001] {
        assert_eq!(SectionType::from_u32(number), SectionType::Other(number));
        assert_eq!(SectionType::Other(number).to_u32(), number);
        assert!(!SectionType::Other(number).has_no_section());
    }
    assert!(SectionType::NULL.has_no_section() && SectionType::REL.has_no_section());
    assert!(SectionType::RELA.has_no_section() && SectionType::STRTAB.has_no_section());
    assert!(SectionType::SYMTAB.has_no_section());
    assert!(!SectionType::PROGBITS.has_no_section() && !SectionType::NOBITS.has_no_section());
    assert_eq!(SectionType::default(), SectionType::NULL);
}

#[test]
fn section_flags_are_single_bits_and_two_masks() {
    assert_eq!(SectionFlag::WRITE.mask(), 1 << 0);
    assert_eq!(SectionFlag::ALLOC.mask(), 1 << 1);
    assert_eq!(SectionFlag::EXECINSTR.mask(), 1 << 2);
    assert_eq!(SectionFlag::MERGE.mask(), 1 << 4);
    assert_eq!(SectionFlag::STRINGS.mask(), 1 << 5);
    assert_eq!(SectionFlag::INFO_LINK.mask(), 1 << 6);
    assert_eq!(SectionFlag::LINK_ORDER.mask(), 1 << 7);
    assert_eq!(SectionFlag::OS_NONCONFORMING.mask(), 1 << 8);
    assert_eq!(SectionFlag::GROUP.mask(), 1 << 9);
    assert_eq!(SectionFlag::TLS.mask(), 1 << 10);
    assert_eq!(SectionFlag::COMPRESSED.mask(), 1 << 11);
    assert_eq!(SectionFlag::MASKOS.mask(), 0x0ff0_0000);
    assert_eq!(SectionFlag::MASKPROC.mask(), 0xf000_0000);
    assert_eq!(SectionFlag::ORDERED.mask(), 1 << 30);
    assert_eq!(SectionFlag::EXCLUDE.mask(), 1 << 31);
    assert!(SectionFlag::MERGE.is_set(0x32) && SectionFlag::STRINGS.is_set(0x32));
    assert!(SectionFlag::ALLOC.is_set(0x32) && !SectionFlag::WRITE.is_set(0x32));
    assert!(!SectionFlag::MERGE.is_set(0));
}

#[test]
fn symbol_indices_and_kinds_are_told_by_their_numbers() {
    assert_eq!(SectionIndex::from(0), SectionIndex::UNDEF);
    assert_eq!(SectionIndex::from(0xff00), SectionIndex::LOPROC);
    assert_eq!(SectionIndex::from(0xff1f), SectionIndex::HIPROC);
    assert_eq!(SectionIndex::from(0xfff1), SectionIndex::ABS);
    assert_eq!(SectionIndex::from(0xfff2), SectionIndex::COMMON);
    assert_eq!(SectionIndex::from(0xffff), SectionIndex::HIRESERVE);
    assert_eq!(SectionIndex::from(1), SectionIndex::Other(1));
    assert_eq!(SectionIndex::from(0xfeff), SectionIndex::Other(0xfeff));
    let types = [
        (0u8, SymbolType::NOTYPE),
        (1, SymbolType::OBJECT),
        (2, SymbolType::FUNC),
        (3, SymbolType::SECTION),
        (4, SymbolType::FILE),
        (13, SymbolType::LOPROC),
        (15, SymbolType::HIPROC),
    ];
    for (number, typ) in types {
        assert_eq!(SymbolType::from(number), typ);
    }
    let bindings = [
        (0u8, SymbolBinding::LOCAL),
        (1, SymbolBinding::GLOBAL),
        (2, SymbolBinding::WEAK),
        (13, SymbolBinding::LOPROC),
        (15, SymbolBinding::HIPROC),
    ];
    for (number, binding) in bindings {
        assert_eq!(SymbolBinding::from(number), binding);
    }
    let s = ElfSymbol { name: 1, info: 0x21, other: 0, shndx: 0xfff1, val: 0, size: 0 };
    assert_eq!(s.typ(), SymbolType::OBJECT);
    assert_eq!(s.bind(), SymbolBinding::WEAK);
    assert!(s.is_abs() && !s.is_common() && !s.has_section());
    let s = ElfSymbol { name: 1, info: 0, other: 0, shndx: 7, val: 0, size: 0 };
    assert!(s.has_section() && !s.is_undef());
    assert_eq!(s.index(), SectionIndex::Other(7));
    assert_eq!(s.name(&StrTable::new(b"\0abc\0".to_vec(), 5)), "abc");
}

#[test]
fn header_fields_have_names() {
    assert_eq!(EType::from(0), EType::NONE);
    assert_eq!(EType::from(1), EType::REL);
    assert_eq!(EType::from(2), EType::EXEC);
    assert_eq!(EType::from(3), EType::DYN);
    assert_eq!(EType::from(4), EType::CORE);
    assert_eq!(ISA::from(0x03), ISA::X86);
    assert_eq!(ISA::from(0x07), ISA::Intel80860);
    assert_eq!(ISA::from(0x32), ISA::IA64);
    assert_eq!(ISA::from(0x3e), ISA::AMDx86_64);
    assert_eq!(ISA::from(0xb7), ISA::AArch64);
    assert_eq!(ISA::from(0xf3), ISA::RiscV);
    let systems = [
        OS::SystemV,
        OS::HPUX,
        OS::NetBSD,
        OS::Linux,
        OS::GNUHurd,
        OS::Solaris,
        OS::Solaris,
        OS::AIX,
        OS::IRIX,
        OS::FreeBSD,
        OS::Tru64,
        OS::NovellModesto,
        OS::OpenBSD,
        OS::OpenVMS,
    ];
    for number in 0u8..14 {
        if number != 5 {
            assert_eq!(OS::from(number), systems[number as usize]);
        }
    }
    let kinds = [
        SType::NULL,
        SType::PROG,
        SType::SYMTAB,
        SType::STRTAB,
        SType::RELA,
        SType::HASH,
        SType::DYNAMIC,
        SType::NOTE,
        SType::NOBITS,
        SType::REL,
        SType::SHLIB,
        SType::DNYSYM,
    ];
    for number in 0u32..12 {
        assert_eq!(SType::from(number), kinds[number as usize]);
    }
}

#[test]
fn the_identification_bytes_say_what_the_file_is() {
    let mut bytes = [0u8; 16];
    bytes[..8].copy_from_slice(&[0x7f, 0x45, 0x4c, 0x46, 2, 1, 1, 3]);
    let ident = Ident::new(bytes);
    assert_eq!(ident.check(), Ok(()));
    assert_eq!(ident.class(), Class::ELF64);
    assert_eq!(ident.endian(), Endian::LittleEndian);
    assert_eq!(ident.version(), Version::Version1);
    assert_eq!(ident.os(), OS::Linux);
    for (at, value) in [(0usize, 0x7eu8), (1, 0), (2, b'l'), (3, 0), (4, 1), (5, 2), (4, 0), (5, 0)] {
        let mut bad = bytes;
        bad[at] = value;
        assert_eq!(Ident::new(bad).check(), Err(LinkError::UnsupportedElf));
    }
    bytes[4] = 1;
    bytes[5] = 2;
    assert_eq!(Ident::new(bytes).class(), Class::ELF32);
    assert_eq!(Ident::new(bytes).endian(), Endian::BigEndian);
}

#[test]
fn strings_of_a_table_end_at_a_zero_byte_or_at_the_end() {
    let t = StrTable::new(b"one\0two\0three".to_vec(), 13);
    assert_eq!(t.get(0), "one");
    assert_eq!(t.get(2), "e");
    assert_eq!(t.get(3), "");
    assert_eq!(t.get(4), "two");
    assert_eq!(t.get(8), "three");
    assert_eq!(t.get(13), "");
    assert_eq!(t.get(1000), "");
    assert_eq!(t.span(4), (4, 7));
    assert_eq!(t.data(), &b"one\0two\0three".to_vec());
    // the stated length cuts the table short
    let t = StrTable::new(b"one\0two\0three".to_vec(), 10);
    assert_eq!(t.get(8), "th");
    assert_eq!(t.get(10), "");
    // and a length beyond the buffer is the end of the buffer
    let t = StrTable::new(b"abc".to_vec(), 100);
    assert_eq!(t.get(1), "bc");
    // bytes above 127 are shown as the characters with the same numbers
    let t = StrTable::new(vec![0xe9, 0x41, 0], 3);
    assert_eq!(t.get(0), "\u{e9}A");
}

#[test]
fn text_is_utf8_where_it_can_be() {
    assert_eq!(bytes_to_text(b"plain"), "plain");
    assert_eq!(bytes_to_text(&[0xc3, 0xa9, 0x21]), "\u{e9}!");
    assert_eq!(bytes_to_text("\u{65e5}\u{672c}".as_bytes()), "\u{65e5}\u{672c}");
    // not well-formed: one character per byte
    assert_eq!(bytes_to_text(&[0xc3, 0x28]), "\u{c3}(");
    assert_eq!(bytes_to_text(&[0xff]), "\u{ff}");
    assert_eq!(bytes_to_text(&[]), "");
    assert_eq!(latin1_string(&[0x61, 0xc3, 0xa9, 0x62], 1, 3), "\u{c3}\u{a9}");
}

#[test]
fn decimal_fields_hold_digits_between_white_space() {
    let parse = |s: &str| parse_decimal(s.as_bytes(), 0, s.len());
    assert_eq!(parse("0"), Some(0));
    assert_eq!(parse("42"), Some(42));
    assert_eq!(parse("0042"), Some(42));
    assert_eq!(parse("  42  "), Some(42));
    assert_eq!(parse("\t42\n"), Some(42));
    assert_eq!(parse("1234567890"), Some(1234567890));
    assert_eq!(parse(&format!("{}", usize::MAX)), Some(usize::MAX));
    assert_eq!(parse(&format!("{}0", usize::MAX)), None);
    assert_eq!(parse("18446744073709551616"), None);
    assert_eq!(parse(""), None);
    assert_eq!(parse("    "), None);
    assert_eq!(parse("4 2"), None);
    assert_eq!(parse("42x"), None);
    assert_eq!(parse("-42"), None);
    assert_eq!(parse("+42"), None);
    assert_eq!(parse("0x10"), None);
    assert_eq!(parse_decimal(b"ab12cd", 2, 4), Some(12));
    assert_eq!(trim_range(b"  ab c \n", 0, 8), (2, 6));
    assert_eq!(trim_range(b"  ab c \n", 3, 5), (3, 4));
    assert_eq!(trim_range(b"    ", 0, 4), (4, 4));
    assert_eq!(trim_range(b"", 0, 0), (0, 0));
}

#[test]
fn fragments_are_split_as_strings_or_as_constants() {
    let strs = |keys: &[&str]| -> Vec<FragmentData> {
        keys.iter().map(|k| FragmentData::Str(k.to_string())).collect()
    };
    assert_eq!(split_fragments(b"hi\0hello\0", 1, true), (strs(&["hi", "hello"]), vec![0, 3]));
    // empty strings between zero bytes are no fragments
    assert_eq!(split_fragments(b"\0\0hi\0\0\0yo\0", 1, true), (strs(&["hi", "yo"]), vec![2, 7]));
    assert_eq!(split_fragments(b"hi\0hel", 1, true), (strs(&["hi"]), vec![0]));
    assert_eq!(split_fragments(b"hel", 1, true), (strs(&[]), vec![]));
    assert_eq!(split_fragments(&[0; 5], 1, true), (strs(&[]), vec![]));
    assert_eq!(split_fragments(&[0; 5], 2, true), (strs(&[]), vec![]));
    assert_eq!(split_fragments(b"", 1, true), (strs(&[]), vec![]));
    assert_eq!(split_fragments(b"hi\0", 0, true), (strs(&[]), vec![]));
    // bytes that are not UTF-8 are kept, one character each
    assert_eq!(split_fragments(&[0xff, 0x41, 0], 1, true), (strs(&["\u{ff}A"]), vec![0]));
    assert_eq!(split_fragments(&[0xc3, 0xa9, 0], 1, true), (strs(&["\u{e9}"]), vec![0]));
    // a short chunk at the end that is all zero ends a string
    assert_eq!(split_fragments(&[1, 2, 3, 4, 0], 4, true), (strs(&["\u{1}\u{2}\u{3}\u{4}"]), vec![0]));
    let consts = |keys: &[&[u8]]| -> Vec<FragmentData> {
        keys.iter().map(|k| FragmentData::Constant(k.to_vec())).collect()
    };
    assert_eq!(
        split_fragments(&[1, 2, 3, 4, 5, 6, 7, 8], 4, false),
        (consts(&[&[1, 2, 3, 4], &[5, 6, 7, 8]]), vec![0, 4])
    );
    assert_eq!(
        split_fragments(&[1, 2, 3, 4, 5], 4, false),
        (consts(&[&[1, 2, 3, 4], &[5]]), vec![0, 4])
    );
    assert_eq!(split_fragments(&[1, 2, 3], 8, false), (consts(&[&[1, 2, 3]]), vec![0]));
    assert_eq!(split_fragments(&[0, 0], 1, false), (consts(&[&[0], &[0]]), vec![0, 1]));
    assert_eq!(split_fragments(&[1, 2, 3], 0, false), (consts(&[]), vec![]));
    assert_eq!(split_fragments(&[1, 2, 3], u64::MAX, false), (consts(&[&[1, 2, 3]]), vec![0]));
}

#[test]
fn an_object_named_twice_on_the_command_line_is_refused() {
    let args = |objects: &[&str]| Args {
        objects: objects.iter().map(|o| o.to_string()).collect(),
        library_path: None,
        library: None,
        emulation: None,
        output: "a.out".to_string(),
        plugin: None,
        plugin_opt: None,
        hash_style: None,
        keyword: None,
        static_: None,
        as_needed: false,
        build_id: false,
        start_group: false,
        end_group: false,
    };
    assert_eq!(args(&[]).check_objects(), Ok(()));
    assert_eq!(args(&["a.o", "b.o", "c.o"]).check_objects(), Ok(()));
    assert_eq!(args(&["a.o", "b.o", "a.o"]).check_objects(), Err(LinkError::DuplicateCommandLine));
    assert_eq!(args(&["a.o", "a.o"]).check_objects(), Err(LinkError::DuplicateCommandLine));
    assert_eq!(args(&["a.o", "./a.o"]).check_objects(), Ok(()));
}
