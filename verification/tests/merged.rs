use elf_linker::linker::{SectionHeader, SectionType};
use elf_linker::output_section::merged_section::{FragmentData, MergedSection, SectionFragment};
use elf_linker::output_section::output_section::{OutputSection, SectionWrapper};
use elf_linker::symbol::Symbol;
use elf_linker::output_section::merged_section::FragmentRef;
use elf_linker::section::Section;
use elf_linker::utils::input_elf::InputMergeableSection;

fn constant(bytes: &[u8]) -> FragmentData {
    FragmentData::Constant(bytes.to_vec())
}

fn string(s: &str) -> FragmentData {
    FragmentData::Str(s.to_string())
}

#[test]
fn a_constant_asked_for_twice_has_one_fragment_with_the_larger_alignment() {
    let mut merged = MergedSection::new(SectionWrapper::new(3));
    let key = constant(&[1, 2, 3, 4, 5, 6, 7, 8]);
    let first = merged.insert(&key, 4);
    let second = merged.insert(&key, 8);
    assert_eq!(first, second);
    assert_eq!(merged.keys.len(), 1);
    assert_eq!(merged.frags, vec![SectionFragment { section_id: 3, align: 8 }]);
}

#[test]
fn the_alignment_of_a_fragment_is_the_largest_asked_for() {
    let mut merged = MergedSection::new(SectionWrapper::new(1));
    let requests: [(&str, usize); 7] =
        [("a", 2), ("b", 16), ("a", 8), ("c", 1), ("b", 4), ("a", 4), ("c", 1)];
    let mut positions = Vec::new();
    for (key, align) in requests {
        positions.push(merged.insert(&string(key), align));
    }
    assert_eq!(positions, vec![0, 1, 0, 2, 1, 0, 2]);
    assert_eq!(merged.keys, vec![string("a"), string("b"), string("c")]);
    let aligns: Vec<usize> = merged.frags.iter().map(|f| f.align).collect();
    assert_eq!(aligns, vec![8, 16, 1]);
    assert!(merged.frags.iter().all(|f| f.section_id == 1));
}

#[test]
fn a_string_and_a_constant_of_the_same_bytes_are_different_fragments() {
    let mut merged = MergedSection::new(SectionWrapper::new(1));
    assert_eq!(merged.insert(&string("ab"), 1), 0);
    assert_eq!(merged.insert(&constant(b"ab"), 1), 1);
    assert_eq!(merged.insert(&constant(b"a"), 1), 2);
    assert_eq!(merged.insert(&constant(b"ab"), 1), 1);
    assert_eq!(merged.find(&constant(b"ab")), Some(1));
    assert_eq!(merged.find(&string("a")), None);
    assert!(string("ab").same(&string("ab")));
    assert!(!string("ab").same(&constant(b"ab")));
    assert!(!constant(b"ab").same(&constant(b"ac")));
    assert!(!constant(b"ab").same(&constant(b"abc")));
    assert_eq!(constant(b"xyz").clone(), constant(b"xyz"));
    assert_eq!(string("xyz").clone(), string("xyz"));
}

#[test]
fn a_new_merged_section_is_empty() {
    let wrapper = SectionWrapper::new(7);
    assert_eq!(wrapper.id, 7);
    assert_eq!(wrapper.name, "");
    assert_eq!(wrapper.elf_header._type, SectionType::NULL);
    assert_eq!(wrapper.elf_header.flags, 0);
    let merged = MergedSection::new(wrapper);
    assert_eq!(merged.id(), 7);
    assert!(merged.is_mergeable());
    assert_eq!(merged.to_mergeable().unwrap().id(), 7);
    assert_eq!(merged.name(), "");
    assert_eq!(merged.typ(), SectionType::NULL);
    assert_eq!(merged.flags(), 0);
    assert_eq!(merged.section_header().size, SectionHeader::default().size);
    assert!(merged.keys.is_empty() && merged.frags.is_empty());
    assert_eq!(SectionFragment::new(2, 16), SectionFragment { section_id: 2, align: 16 });
}

#[test]
fn a_symbol_is_bound_to_a_section_or_to_a_fragment() {
    let mut s = Symbol::new("f".to_string(), 3, 40);
    assert_eq!(s.name, "f");
    assert_eq!((s.index, s.value, s.elf, s.is_alive), (3, 40, None, true));
    assert!(s.input_section.is_none() && s.frag.is_none());
    s.set_frag(FragmentRef { section_id: 1, index: 2 });
    assert_eq!(s.frag, Some(FragmentRef { section_id: 1, index: 2 }));
    assert!(s.input_section.is_none());
    s.set_section(Section { elf: 1, name: ".text".to_string(), index: 4, data: vec![1] });
    assert!(s.frag.is_none());
    assert_eq!(s.input_section.as_ref().unwrap().name, ".text");
    s.set_frag(FragmentRef { section_id: 2, index: 0 });
    assert!(s.input_section.is_none() && s.frag.is_some());
    assert_eq!((s.index, s.value, s.elf, s.is_alive), (3, 40, None, true));
}

#[test]
fn a_symbol_gets_the_first_fragment_that_starts_at_or_after_its_value() {
    let mut view = InputMergeableSection::new(5);
    assert_eq!(view.parent, 5);
    assert_eq!(view.get_fragment(0), None);
    view.data = vec![string("hi"), string("hello"), string("hi")];
    view.offset = vec![0, 3, 9];
    view.fragments = vec![4, 7, 4];
    let frag = |index| Some(FragmentRef { section_id: 5, index });
    assert_eq!(view.get_fragment(0), frag(4));
    assert_eq!(view.get_fragment(1), frag(7));
    assert_eq!(view.get_fragment(3), frag(7));
    assert_eq!(view.get_fragment(4), frag(4));
    assert_eq!(view.get_fragment(9), frag(4));
    assert_eq!(view.get_fragment(10), frag(4));
    view.fragments = vec![1, 2, 3];
    assert_eq!(view.get_fragment(10), frag(1));
    assert_eq!(view.get_fragment(9), frag(3));
}
