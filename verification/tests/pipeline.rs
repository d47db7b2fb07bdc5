use elf_linker::archive_parser::Parser;
use elf_linker::context::Context;
use elf_linker::error::LinkError;
use elf_linker::linker::{SectionFlag, SectionType};
use elf_linker::output_section::merged_section::{FragmentData, FragmentRef};
use elf_linker::output_section::output_section::OutputSection;
use elf_linker::utils::input_elf::InputElf;
use elf_linker::utils::input_file::ElfData;

const SHT_PROGBITS: u32 = 1;
const SHF_MERGE: u64 = 0x10;
const SHF_STRINGS: u64 = 0x20;
const SHF_ALLOC: u64 = 0x2;
const SHF_WRITE: u64 = 0x1;

struct Sec {
    name: &'static str,
    typ: u32,
    flags: u64,
    ent_size: u64,
    data: Vec<u8>,
}

struct Sym {
    name: &'static str,
    shndx: u16,
    value: u64,
    global: bool,
}

fn put16(out: &mut Vec<u8>, v: u16) {
    out.extend_from_slice(&v.to_le_bytes());
}

fn put32(out: &mut Vec<u8>, v: u32) {
    out.extend_from_slice(&v.to_le_bytes());
}

fn put64(out: &mut Vec<u8>, v: u64) {
    out.extend_from_slice(&v.to_le_bytes());
}

fn add_name(table: &mut Vec<u8>, name: &str) -> u32 {
    let at = table.len() as u32;
    table.extend_from_slice(name.as_bytes());
    table.push(0);
    at
}

fn section_header(
    out: &mut Vec<u8>,
    name: u32,
    typ: u32,
    flags: u64,
    offset: u64,
    size: u64,
    link: u32,
    info: u32,
    ent_size: u64,
) {
    put32(out, name);
    put32(out, typ);
    put64(out, flags);
    put64(out, 0);
    put64(out, offset);
    put64(out, size);
    put32(out, link);
    put32(out, info);
    put64(out, 1);
    put64(out, ent_size);
}

// The first user section has the index 4: before it stand the null
// section, the section-name table, the symbol-name table and the symbol
// table. `zero_count` writes the section count as zero in the file header,
// and as the size of the first section header instead.
fn build_object_with(secs: &[Sec], syms: &[Sym], zero_count: bool) -> Vec<u8> {
    let mut shstrtab: Vec<u8> = vec![0];
    let n_shstrtab = add_name(&mut shstrtab, ".shstrtab");
    let n_strtab = add_name(&mut shstrtab, ".strtab");
    let n_symtab = add_name(&mut shstrtab, ".symtab");
    let mut sec_names = Vec::new();
    for s in secs {
        sec_names.push(add_name(&mut shstrtab, s.name));
    }
    let mut strtab: Vec<u8> = vec![0];
    let mut symtab: Vec<u8> = vec![0; 24];
    let mut locals: u32 = 1;
    for pass in 0..2 {
        for s in syms {
            if s.global == (pass == 1) {
                let name = add_name(&mut strtab, s.name);
                put32(&mut symtab, name);
                symtab.push(if s.global { 0x10 } else { 0x00 });
                symtab.push(0);
                put16(&mut symtab, s.shndx);
                put64(&mut symtab, s.value);
                put64(&mut symtab, 0);
                if !s.global {
                    locals += 1;
                }
            }
        }
    }
    let mut body: Vec<u8> = Vec::new();
    let base: u64 = 64;
    let off_shstrtab = base + body.len() as u64;
    body.extend_from_slice(&shstrtab);
    let off_strtab = base + body.len() as u64;
    body.extend_from_slice(&strtab);
    let off_symtab = base + body.len() as u64;
    body.extend_from_slice(&symtab);
    let mut offs = Vec::new();
    for s in secs {
        offs.push(base + body.len() as u64);
        body.extend_from_slice(&s.data);
    }
    let sh_off = base + body.len() as u64;
    let count = 4 + secs.len();
    let mut out: Vec<u8> = Vec::new();
    out.extend_from_slice(&[0x7f, 0x45, 0x4c, 0x46, 2, 1, 1, 0, 0, 0, 0, 0, 0, 0, 0, 0]);
    put16(&mut out, 1);
    put16(&mut out, 0x3e);
    put32(&mut out, 1);
    put64(&mut out, 0);
    put64(&mut out, 0);
    put64(&mut out, sh_off);
    put32(&mut out, 0);
    put16(&mut out, 64);
    put16(&mut out, 0);
    put16(&mut out, 0);
    put16(&mut out, 64);
    put16(&mut out, if zero_count { 0 } else { count as u16 });
    put16(&mut out, 1);
    out.extend_from_slice(&body);
    section_header(&mut out, 0, 0, 0, 0, if zero_count { count as u64 } else { 0 }, 0, 0, 0);
    section_header(&mut out, n_shstrtab, 3, 0, off_shstrtab, shstrtab.len() as u64, 0, 0, 0);
    section_header(&mut out, n_strtab, 3, 0, off_strtab, strtab.len() as u64, 0, 0, 0);
    section_header(&mut out, n_symtab, 2, 0, off_symtab, symtab.len() as u64, 2, locals, 24);
    for (i, s) in secs.iter().enumerate() {
        section_header(
            &mut out,
            sec_names[i],
            s.typ,
            s.flags,
            offs[i],
            s.data.len() as u64,
            0,
            0,
            s.ent_size,
        );
    }
    out
}

fn build_object(secs: &[Sec], syms: &[Sym]) -> Vec<u8> {
    build_object_with(secs, syms, false)
}

fn text() -> Sec {
    Sec { name: ".text", typ: SHT_PROGBITS, flags: SHF_ALLOC | 0x4, ent_size: 0, data: vec![0x90; 8] }
}

fn strings(data: &[u8]) -> Sec {
    Sec {
        name: ".rodata.str1.1",
        typ: SHT_PROGBITS,
        flags: SHF_ALLOC | SHF_MERGE | SHF_STRINGS,
        ent_size: 1,
        data: data.to_vec(),
    }
}

fn defines(name: &'static str) -> Sym {
    Sym { name, shndx: 4, value: 0, global: true }
}

fn undefined(name: &'static str) -> Sym {
    Sym { name, shndx: 0, value: 0, global: true }
}

fn decode(bytes: &[u8], name: &str, alive: bool) -> InputElf {
    let mut elf = InputElf::new_from_buf(bytes, name.to_string()).unwrap();
    elf.is_alive = alive;
    elf
}

fn archive_header(out: &mut Vec<u8>, name: &str, size: usize) {
    let mut field = name.as_bytes().to_vec();
    field.resize(16, b' ');
    out.extend_from_slice(&field);
    out.extend_from_slice(b"0           ");
    out.extend_from_slice(b"0     ");
    out.extend_from_slice(b"0     ");
    out.extend_from_slice(b"644     ");
    let mut size_field = format!("{}", size).into_bytes();
    size_field.resize(10, b' ');
    out.extend_from_slice(&size_field);
    out.extend_from_slice(&[0x60, 0x0a]);
}

fn build_archive(members: &[(&str, Vec<u8>)]) -> Vec<u8> {
    let mut out = b"!<arch>\n".to_vec();
    for (name, data) in members {
        archive_header(&mut out, name, data.len());
        out.extend_from_slice(data);
        if out.len() % 2 != 0 {
            out.push(b'\n');
        }
    }
    out
}

fn handle_of(ctx: &mut Context, name: &str) -> usize {
    let before = ctx.symbol_table().len();
    let h = ctx.find_symbol_by_name(name.to_string());
    assert_eq!(ctx.symbol_table().len(), before, "{} was not interned", name);
    h
}

fn names(ctx: &Context) -> Vec<String> {
    ctx.object_iter().iter().map(|o| o.name.clone()).collect()
}

#[test]
fn single_object_without_references() {
    let mut ctx = Context::new();
    ctx.push(decode(&build_object(&[text()], &[defines("main")]), "hello.o", true));
    assert_eq!(ctx.run_passes(), Ok(()));
    assert_eq!(ctx.obj_size(), 1);
    assert!(ctx.object_iter()[0].is_alive);
    assert_eq!(ctx.object_iter()[0].id, 1);
    let main = handle_of(&mut ctx, "main");
    assert_eq!(ctx.symbol_table()[main].elf, Some(1));
    assert_eq!(ctx.merged_sections().len(), 0);
}

#[test]
fn library_member_is_pulled_in_and_unused_member_reclaimed() {
    let archive = build_archive(&[
        ("puts.o/", build_object(&[text()], &[defines("puts")])),
        ("unused.o/", build_object(&[text()], &[defines("unused")])),
    ]);
    let mut ctx = Context::new();
    for member in Parser::parse_inner(&archive).unwrap() {
        ctx.push(decode(&member.data, &member.name, false));
    }
    ctx.push(decode(&build_object(&[text()], &[undefined("puts")]), "a.o", true));
    assert_eq!(ctx.obj_size(), 3);
    assert_eq!(ctx.run_passes(), Ok(()));
    assert_eq!(names(&ctx), vec!["puts.o/".to_string(), "a.o".to_string()]);
    assert!(ctx.object_iter().iter().all(|o| o.is_alive));
    let puts_id = ctx.object_iter()[0].id;
    assert_eq!(puts_id, 1);
    assert_eq!(ctx.object_iter()[1].id, 3);
    let puts = handle_of(&mut ctx, "puts");
    assert_eq!(ctx.symbol_table()[puts].elf, Some(puts_id));
    assert!(ctx.symbol_table()[puts].is_alive);
    assert!(ctx.get_object(2).is_none());
    // the symbol of the reclaimed member is dead, and its name is free again
    let before = ctx.symbol_table().len();
    let unused = ctx.find_symbol_by_name("unused".to_string());
    assert_eq!(unused, before);
    assert_eq!(ctx.symbol_table()[unused].elf, None);
}

#[test]
fn first_definition_wins() {
    let mut ctx = Context::new();
    ctx.push(decode(&build_object(&[text()], &[defines("f")]), "x.o", true));
    ctx.push(decode(
        &build_object(&[text()], &[Sym { name: "f", shndx: 4, value: 7, global: true }]),
        "y.o",
        true,
    ));
    assert_eq!(ctx.run_passes(), Ok(()));
    assert_eq!(names(&ctx), vec!["x.o".to_string(), "y.o".to_string()]);
    let f = handle_of(&mut ctx, "f");
    let x_id = ctx.object_iter()[0].id;
    assert_eq!(ctx.symbol_table()[f].elf, Some(x_id));
    assert_eq!(ctx.symbol_table()[f].value, 0);
    // the one global record follows the null record
    assert_eq!(ctx.symbol_table()[f].index, 1);
}

#[test]
fn a_later_explicit_object_does_not_take_a_definition_from_an_archive_member() {
    let mut ctx = Context::new();
    ctx.push(decode(&build_object(&[text()], &[defines("f")]), "lib.o", false));
    ctx.push(decode(&build_object(&[text()], &[defines("f")]), "main.o", true));
    ctx.resolve_symbol();
    let f = handle_of(&mut ctx, "f");
    assert_eq!(ctx.symbol_table()[f].elf, Some(1));
    // main.o defines f itself, so it does not pull lib.o in
    assert_eq!(ctx.mark_live_objects(), Ok(()));
    ctx.reclaim_objects();
    assert_eq!(names(&ctx), vec!["main.o".to_string()]);
    assert!(!ctx.symbol_table()[f].is_alive);
}

#[test]
fn strings_are_merged_across_objects() {
    let mut ctx = Context::new();
    ctx.push(decode(&build_object(&[strings(b"hi\0hello\0")], &[]), "a.o", true));
    ctx.push(decode(&build_object(&[strings(b"hi\0hello\0")], &[]), "b.o", true));
    assert_eq!(ctx.merged_sections().len(), 1);
    let merged = &ctx.merged_sections()[0];
    assert_eq!(merged.id(), 1);
    assert_eq!(merged.name(), ".rodata.str1.1");
    assert_eq!(merged.typ(), SectionType::PROGBITS);
    assert_eq!(merged.flags(), SHF_ALLOC | SHF_MERGE | SHF_STRINGS);
    assert!(merged.is_mergeable());
    assert_eq!(
        merged.keys,
        vec![FragmentData::Str("hi".to_string()), FragmentData::Str("hello".to_string())]
    );
    assert_eq!(merged.frags.len(), 2);
    assert_eq!(merged.frags[0].section_id, 1);
    assert_eq!(merged.frags[0].align, 1);
    for object in ctx.object_iter() {
        let view = object.section_info.mergeable_sections[4].as_ref().unwrap();
        assert_eq!(view.parent, 1);
        assert_eq!(view.fragments, vec![0, 1]);
        assert_eq!(view.offset, vec![0, 3]);
        assert_eq!(
            view.data,
            vec![FragmentData::Str("hi".to_string()), FragmentData::Str("hello".to_string())]
        );
        for i in 0..4 {
            assert!(object.section_info.mergeable_sections[i].is_none());
        }
    }
}

#[test]
fn sections_with_different_flags_are_not_merged_together() {
    let mut ctx = Context::new();
    let mut other = strings(b"hi\0");
    other.flags = SHF_MERGE | SHF_STRINGS;
    ctx.push(decode(&build_object(&[strings(b"hi\0")], &[]), "a.o", true));
    ctx.push(decode(&build_object(&[other], &[]), "b.o", true));
    assert_eq!(ctx.merged_sections().len(), 2);
    assert_eq!(ctx.merged_sections()[1].id(), 2);
    assert_eq!(ctx.object_iter()[1].section_info.mergeable_sections[4].as_ref().unwrap().parent, 2);
}

#[test]
fn constants_are_split_by_entry_size_and_merged() {
    let mut ctx = Context::new();
    let constants = Sec {
        name: ".rodata.cst4",
        typ: SHT_PROGBITS,
        flags: SHF_ALLOC | SHF_MERGE,
        ent_size: 4,
        data: vec![1, 0, 0, 0, 2, 0, 0, 0, 1, 0, 0, 0, 9, 9],
    };
    ctx.push(decode(&build_object(&[constants], &[]), "a.o", true));
    let merged = &ctx.merged_sections()[0];
    assert_eq!(
        merged.keys,
        vec![
            FragmentData::Constant(vec![1, 0, 0, 0]),
            FragmentData::Constant(vec![2, 0, 0, 0]),
            FragmentData::Constant(vec![9, 9]),
        ]
    );
    assert!(merged.frags.iter().all(|f| f.align == 4 && f.section_id == 1));
    let view = ctx.object_iter()[0].section_info.mergeable_sections[4].as_ref().unwrap();
    assert_eq!(view.fragments, vec![0, 1, 0, 2]);
    assert_eq!(view.offset, vec![0, 4, 8, 12]);
}

#[test]
fn a_strings_section_without_a_final_zero_drops_its_tail() {
    let mut ctx = Context::new();
    ctx.push(decode(&build_object(&[strings(b"hi\0hel")], &[]), "a.o", true));
    assert_eq!(ctx.merged_sections()[0].keys, vec![FragmentData::Str("hi".to_string())]);
    let view = ctx.object_iter()[0].section_info.mergeable_sections[4].as_ref().unwrap();
    assert_eq!(view.offset, vec![0]);
}

#[test]
fn an_all_zero_strings_section_has_no_fragment() {
    let mut ctx = Context::new();
    ctx.push(decode(&build_object(&[strings(&[0, 0, 0, 0])], &[]), "a.o", true));
    assert_eq!(ctx.merged_sections().len(), 1);
    assert_eq!(ctx.merged_sections()[0].keys.len(), 0);
    let view = ctx.object_iter()[0].section_info.mergeable_sections[4].as_ref().unwrap();
    assert!(view.data.is_empty() && view.offset.is_empty() && view.fragments.is_empty());
}

#[test]
fn strings_of_wide_characters_end_at_an_all_zero_chunk() {
    let mut ctx = Context::new();
    let mut wide = strings(&[b'a', 0, b'b', 0, 0, 0, b'c', 0, 0, 0]);
    wide.ent_size = 2;
    ctx.push(decode(&build_object(&[wide], &[]), "a.o", true));
    assert_eq!(
        ctx.merged_sections()[0].keys,
        vec![FragmentData::Str("a\0b\0".to_string()), FragmentData::Str("c\0".to_string())]
    );
    let view = ctx.object_iter()[0].section_info.mergeable_sections[4].as_ref().unwrap();
    assert_eq!(view.offset, vec![0, 6]);
    assert!(ctx.merged_sections()[0].frags.iter().all(|f| f.align == 2));
}

#[test]
fn a_mergeable_section_with_entry_size_zero_has_no_fragment() {
    let mut ctx = Context::new();
    let mut s = strings(b"hi\0");
    s.ent_size = 0;
    ctx.push(decode(&build_object(&[s], &[]), "a.o", true));
    assert_eq!(ctx.merged_sections()[0].keys.len(), 0);
}

#[test]
fn symbols_in_mergeable_sections_are_bound_to_fragments() {
    let mut ctx = Context::new();
    let syms = [
        Sym { name: "local_hi", shndx: 4, value: 0, global: false },
        Sym { name: "hello", shndx: 4, value: 3, global: true },
        Sym { name: "past_the_end", shndx: 4, value: 100, global: true },
        Sym { name: "elsewhere", shndx: 5, value: 3, global: true },
        Sym { name: "absolute", shndx: 0xfff1, value: 3, global: true },
    ];
    ctx.push(decode(&build_object(&[strings(b"hi\0hello\0"), text()], &syms), "a.o", true));
    let info = ctx.object_iter()[0].symbol_info.as_ref().unwrap();
    assert_eq!(info.first_global, 2);
    assert_eq!(info.local_symbols.len(), 2);
    assert_eq!(info.local_symbols[1].name, "local_hi");
    assert_eq!(info.local_symbols[1].index, 1);
    assert_eq!(info.local_symbols[1].frag, Some(FragmentRef { section_id: 1, index: 0 }));
    assert_eq!(info.local_symbols[0].frag, None);
    assert_eq!(info.global_symbols.len(), 4);
    let hello = handle_of(&mut ctx, "hello");
    assert_eq!(ctx.symbol_table()[hello].frag, Some(FragmentRef { section_id: 1, index: 1 }));
    // no fragment starts at or after 100: the first one is taken
    let past = handle_of(&mut ctx, "past_the_end");
    assert_eq!(ctx.symbol_table()[past].frag, Some(FragmentRef { section_id: 1, index: 0 }));
    let elsewhere = handle_of(&mut ctx, "elsewhere");
    assert_eq!(ctx.symbol_table()[elsewhere].frag, None);
    let absolute = handle_of(&mut ctx, "absolute");
    assert_eq!(ctx.symbol_table()[absolute].frag, None);
}

#[test]
fn section_lists_are_parallel() {
    let mut ctx = Context::new();
    ctx.push(decode(&build_object(&[text(), strings(b"a\0")], &[defines("f")]), "a.o", true));
    ctx.push(decode(&build_object(&[], &[]), "b.o", true));
    for object in ctx.object_iter() {
        let info = &object.section_info;
        assert_eq!(info.sections.len(), info.elf_sections.len());
        assert_eq!(info.mergeable_sections.len(), info.elf_sections.len());
        for (i, slot) in info.sections.iter().enumerate() {
            if let Some(section) = slot {
                assert_eq!(section.index, i);
                assert_eq!(section.elf, object.id);
            }
            let merge = SectionFlag::MERGE.is_set(info.elf_sections[i].flags);
            assert_eq!(info.mergeable_sections[i].is_some(), merge && slot.is_some());
        }
    }
    let a = &ctx.object_iter()[0].section_info;
    assert!(a.sections[0].is_none() && a.sections[1].is_none());
    assert!(a.sections[2].is_none() && a.sections[3].is_none());
    assert_eq!(a.sections[4].as_ref().unwrap().name, ".text");
    assert_eq!(a.sections[4].as_ref().unwrap().data, vec![0x90; 8]);
    assert_eq!(a.sections[5].as_ref().unwrap().name, ".rodata.str1.1");
}

#[test]
fn objects_that_name_a_symbol_share_it() {
    let mut ctx = Context::new();
    ctx.push(decode(&build_object(&[text()], &[defines("f"), undefined("g")]), "a.o", true));
    ctx.push(decode(&build_object(&[text()], &[undefined("f"), defines("g")]), "b.o", true));
    let a = ctx.object_iter()[0].symbol_info.as_ref().unwrap().global_symbols.clone();
    let b = ctx.object_iter()[1].symbol_info.as_ref().unwrap().global_symbols.clone();
    assert_eq!(a, b);
    assert_ne!(a[0], a[1]);
    assert_eq!(ctx.symbol_table().len(), 2);
    assert_eq!(ctx.symbol_table()[a[0]].name, "f");
    assert_eq!(ctx.symbol_table()[a[1]].name, "g");
}

#[test]
fn interning_twice_gives_the_same_handle() {
    let mut ctx = Context::new();
    let first = ctx.find_symbol_by_name("puts".to_string());
    let second = ctx.find_symbol_by_name("puts".to_string());
    let other = ctx.find_symbol_by_name("main".to_string());
    assert_eq!(first, second);
    assert_ne!(first, other);
    assert_eq!(ctx.symbol_table().len(), 2);
    let s = &ctx.symbol_table()[first];
    assert_eq!(s.name, "puts");
    assert_eq!(s.elf, None);
    assert_eq!(s.index, 0xffff);
    assert_eq!(s.value, 0);
    assert!(s.is_alive);
}

#[test]
fn running_the_passes_twice_is_running_them_once() {
    let mut ctx = Context::new();
    ctx.push(decode(&build_object(&[text()], &[defines("puts")]), "puts.o", false));
    ctx.push(decode(&build_object(&[text()], &[defines("unused")]), "unused.o", false));
    ctx.push(decode(
        &build_object(&[text()], &[undefined("puts"), undefined("nowhere"), defines("main")]),
        "a.o",
        true,
    ));
    assert_eq!(ctx.run_passes(), Ok(()));
    let snapshot = |ctx: &Context| {
        let objects: Vec<(usize, String, bool)> =
            ctx.object_iter().iter().map(|o| (o.id, o.name.clone(), o.is_alive)).collect();
        let symbols: Vec<(String, Option<usize>, usize, usize, bool)> = ctx
            .symbol_table()
            .iter()
            .map(|s| (s.name.clone(), s.elf, s.index, s.value, s.is_alive))
            .collect();
        (objects, symbols)
    };
    let once = snapshot(&ctx);
    assert_eq!(ctx.run_passes(), Ok(()));
    assert_eq!(snapshot(&ctx), once);
    assert_eq!(once.0.len(), 2);
    assert_eq!(
        once.1,
        vec![
            ("puts".to_string(), Some(1), 1, 0, true),
            ("unused".to_string(), Some(2), 1, 0, false),
            ("nowhere".to_string(), None, 0xffff, 0, true),
            ("main".to_string(), Some(3), 3, 0, true),
        ]
    );
}

#[test]
fn liveness_spreads_along_chains_of_references() {
    let mut ctx = Context::new();
    ctx.push(decode(&build_object(&[text()], &[defines("c")]), "c.o", false));
    ctx.push(decode(&build_object(&[text()], &[defines("b"), undefined("c")]), "b.o", false));
    ctx.push(decode(&build_object(&[text()], &[defines("d"), undefined("a")]), "d.o", false));
    ctx.push(decode(&build_object(&[text()], &[defines("a"), undefined("b")]), "a.o", true));
    ctx.resolve_symbol();
    assert_eq!(ctx.mark_live_objects(), Ok(()));
    let alive: Vec<bool> = ctx.object_iter().iter().map(|o| o.is_alive).collect();
    assert_eq!(alive, vec![true, true, false, true]);
    ctx.reclaim_objects();
    assert_eq!(names(&ctx), vec!["c.o".to_string(), "b.o".to_string(), "a.o".to_string()]);
}

#[test]
fn marking_without_a_live_object_fails() {
    let mut ctx = Context::new();
    assert_eq!(ctx.mark_live_objects(), Err(LinkError::EmptyRootSet));
    ctx.push(decode(&build_object(&[text()], &[defines("f")]), "lib.o", false));
    assert_eq!(ctx.mark_live_objects(), Err(LinkError::EmptyRootSet));
    assert_eq!(ctx.run_passes(), Err(LinkError::EmptyRootSet));
    assert_eq!(ctx.obj_size(), 1);
    assert!(!ctx.object_iter()[0].is_alive);
}

#[test]
fn ids_are_not_given_twice() {
    let mut ctx = Context::new();
    ctx.push(decode(&build_object(&[], &[]), "gone.o", false));
    ctx.push(decode(&build_object(&[], &[]), "kept.o", true));
    assert_eq!(ctx.run_passes(), Ok(()));
    ctx.push(decode(&build_object(&[], &[]), "late.o", true));
    let ids: Vec<usize> = ctx.object_iter().iter().map(|o| o.id).collect();
    assert_eq!(ids, vec![2, 3]);
    assert_eq!(ctx.get_object(3).unwrap().name, "late.o");
    assert!(ctx.get_object(1).is_none());
}

#[test]
fn section_flags_are_read_from_the_owner() {
    let mut ctx = Context::new();
    let data = Sec { name: ".data", typ: SHT_PROGBITS, flags: SHF_ALLOC | SHF_WRITE, ent_size: 0, data: vec![1] };
    ctx.push(decode(&build_object(&[data, strings(b"a\0")], &[]), "a.o", true));
    let sections = &ctx.object_iter()[0].section_info.sections;
    let data = sections[4].as_ref().unwrap();
    let strs = sections[5].as_ref().unwrap();
    assert!(data.is_write(&ctx) && data.is_alloc(&ctx));
    assert!(!data.is_merge(&ctx) && !data.is_string(&ctx));
    assert!(!strs.is_write(&ctx) && strs.is_alloc(&ctx));
    assert!(strs.is_merge(&ctx) && strs.is_string(&ctx));
    let stray = elf_linker::section::Section { elf: 9, name: String::new(), index: 4, data: vec![] };
    assert!(!stray.is_write(&ctx));
    let beyond = elf_linker::section::Section { elf: 1, name: String::new(), index: 40, data: vec![] };
    assert!(!beyond.is_alloc(&ctx));
}

#[test]
fn a_section_count_of_zero_is_read_from_the_first_section_header() {
    let plain = build_object(&[text(), strings(b"a\0")], &[defines("f")]);
    let extended = build_object_with(&[text(), strings(b"a\0")], &[defines("f")], true);
    let a = InputElf::new_from_buf(&plain, "a.o".to_string()).unwrap();
    let b = InputElf::new_from_buf(&extended, "a.o".to_string()).unwrap();
    assert_eq!(a.elf_header.sh_num, 6);
    assert_eq!(b.elf_header.sh_num, 0);
    assert_eq!(b.section_info.elf_sections.len(), 6);
    assert_eq!(b.section_info.elf_sections[0].size, 6);
    for i in 1..6 {
        assert_eq!(a.section_info.elf_sections[i].offset, b.section_info.elf_sections[i].offset);
        assert_eq!(a.section_info.elf_sections[i]._type, b.section_info.elf_sections[i]._type);
    }
    assert_eq!(b.section_info.sections[4].as_ref().unwrap().name, ".text");
    assert_eq!(b.symbol_info.as_ref().unwrap().elf_symbols.len(), 2);
}

#[test]
fn decoding_reads_the_tables_of_an_object() {
    let bytes = build_object(&[text()], &[
        Sym { name: "here", shndx: 4, value: 5, global: false },
        undefined("puts"),
    ]);
    let elf = InputElf::new_from_buf(&bytes, "a.o".to_string()).unwrap();
    assert_eq!(elf.name, "a.o");
    assert_eq!(elf.id, 0);
    assert!(!elf.is_alive);
    assert_eq!(elf.elf_header.machine, 0x3e);
    assert_eq!(elf.elf_header.sh_strndx, 1);
    let info = elf.symbol_info.as_ref().unwrap();
    assert_eq!(info.first_global, 2);
    assert_eq!(info.elf_symbols.len(), 3);
    assert_eq!(info.elf_symbols[1].name(&info.str_tab), "here");
    assert_eq!(info.elf_symbols[1].val, 5);
    assert_eq!(info.elf_symbols[2].name(&info.str_tab), "puts");
    assert!(info.elf_symbols[2].is_undef());
    assert!(info.local_symbols.is_empty() && info.global_symbols.is_empty());
    assert!(elf.is_decoded());
    let mut moved = InputElf::new_from_buf(&bytes, "a.o".to_string()).unwrap();
    moved.section_info.sections[4].as_mut().unwrap().index = 3;
    assert!(!moved.is_decoded());
    let mut short = InputElf::new_from_buf(&bytes, "a.o".to_string()).unwrap();
    short.section_info.sections.pop();
    assert!(!short.is_decoded());
    let mut many = InputElf::new_from_buf(&bytes, "a.o".to_string()).unwrap();
    many.symbol_info.as_mut().unwrap().first_global = 4;
    assert!(!many.is_decoded());
    assert_eq!(elf.find_section(SectionType::SYMTAB).unwrap().link, 2);
    assert_eq!(elf.find_section(SectionType::PROGBITS).unwrap().size, 8);
    assert!(elf.find_section(SectionType::NOBITS).is_none());
    let raw = ElfData::new_from_buf(&bytes, "a.o".to_string()).unwrap();
    assert_eq!(raw.elf_sections.len(), 5);
    assert_eq!(raw.symbol_info.as_ref().unwrap().elf_symbols.len(), 3);
    assert_eq!(raw.find_section(SectionType::STRTAB).unwrap().offset, 64);
    assert_eq!(raw.sec_str_tab.get(1), ".shstrtab");
}

#[test]
fn an_object_without_a_symbol_table_has_no_symbols() {
    let mut bytes = build_object(&[], &[]);
    // turn the symbol table into a section of another type
    let sh_off = u64::from_le_bytes(bytes[40..48].try_into().unwrap()) as usize;
    bytes[sh_off + 3 * 64 + 4] = 1;
    let elf = InputElf::new_from_buf(&bytes, "a.o".to_string()).unwrap();
    assert!(elf.symbol_info.is_none());
    assert!(elf.section_info.sections[3].is_some());
    let mut ctx = Context::new();
    ctx.push(decode(&bytes, "a.o", true));
    assert_eq!(ctx.run_passes(), Ok(()));
    assert_eq!(ctx.symbol_table().len(), 0);
}

fn error_of(bytes: &[u8]) -> LinkError {
    let full = InputElf::new_from_buf(bytes, "a.o".to_string()).err().unwrap();
    if let Err(e) = ElfData::new_from_buf(bytes, "a.o".to_string()) {
        assert_eq!(e, full);
    }
    full
}

#[test]
fn truncated_objects_are_refused() {
    let bytes = build_object(&[text()], &[defines("f")]);
    assert_eq!(error_of(&bytes[..63]), LinkError::TruncatedObject);
    assert_eq!(error_of(&[]), LinkError::TruncatedObject);
    // the section-header table is cut short
    assert_eq!(error_of(&bytes[..bytes.len() - 1]), LinkError::TruncatedObject);
    // a section reaches past the end of the file
    let sh_off = u64::from_le_bytes(bytes[40..48].try_into().unwrap()) as usize;
    let mut long = bytes.clone();
    long[sh_off + 4 * 64 + 32..sh_off + 4 * 64 + 40].copy_from_slice(&100000u64.to_le_bytes());
    assert_eq!(error_of(&long), LinkError::TruncatedObject);
    // so does the symbol table
    let mut long = bytes.clone();
    long[sh_off + 3 * 64 + 32..sh_off + 3 * 64 + 40].copy_from_slice(&100000u64.to_le_bytes());
    assert_eq!(error_of(&long), LinkError::TruncatedObject);
}

#[test]
fn files_that_are_not_elf64_little_endian_are_refused() {
    let bytes = build_object(&[], &[]);
    for (at, value) in [(0usize, 0u8), (3, b'G'), (4, 1), (5, 2)] {
        let mut bad = bytes.clone();
        bad[at] = value;
        assert_eq!(error_of(&bad), LinkError::UnsupportedElf);
    }
}

#[test]
fn section_indices_out_of_range_are_refused() {
    let bytes = build_object(&[], &[]);
    let mut bad = bytes.clone();
    bad[62..64].copy_from_slice(&4u16.to_le_bytes());
    assert_eq!(error_of(&bad), LinkError::BadSectionIndex);
    let sh_off = u64::from_le_bytes(bytes[40..48].try_into().unwrap()) as usize;
    let mut bad = bytes.clone();
    bad[sh_off + 3 * 64 + 40..sh_off + 3 * 64 + 44].copy_from_slice(&9u32.to_le_bytes());
    assert_eq!(error_of(&bad), LinkError::BadSectionIndex);
}

#[test]
fn more_local_symbols_than_records_are_refused() {
    let bytes = build_object(&[], &[defines("f")]);
    let sh_off = u64::from_le_bytes(bytes[40..48].try_into().unwrap()) as usize;
    let mut bad = bytes.clone();
    bad[sh_off + 3 * 64 + 44..sh_off + 3 * 64 + 48].copy_from_slice(&3u32.to_le_bytes());
    assert_eq!(error_of(&bad), LinkError::BadSymbolEncoding);
    let mut edge = bytes.clone();
    edge[sh_off + 3 * 64 + 44..sh_off + 3 * 64 + 48].copy_from_slice(&2u32.to_le_bytes());
    assert!(InputElf::new_from_buf(&edge, "a.o".to_string()).is_ok());
}
