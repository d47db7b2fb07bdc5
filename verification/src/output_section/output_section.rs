use crate::linker::{SectionHeader, SectionType};
use crate::output_section::merged_section::MergedSection;
use vstd::prelude::*;

verus! {

/// What every section of the output can say of itself.
pub trait OutputSection {
    /// The header that the section will have in the output.
    spec fn spec_section_header(&self) -> SectionHeader;

    /// The name of the section.
    spec fn spec_name(&self) -> Seq<char>;

    /// Whether the section deduplicates its content fragment by fragment.
    spec fn spec_is_mergeable(&self) -> bool;

    fn is_mergeable(&self) -> (b: bool)
        ensures
            b == self.spec_is_mergeable(),
    ;

    /// The section as a merged section, if it is one.
    fn to_mergeable(&self) -> (m: Option<&MergedSection>)
        ensures
            m is Some == self.spec_is_mergeable(),
    ;

    fn section_header(&self) -> (h: &SectionHeader)
        ensures
            *h == self.spec_section_header(),
    ;

    fn name(&self) -> (s: String)
        ensures
            s@ == self.spec_name(),
    ;

    fn typ(&self) -> (t: SectionType)
        ensures
            t == self.spec_section_header()._type,
    ;

    fn flags(&self) -> (f: u64)
        ensures
            f == self.spec_section_header().flags,
    ;
}

/// The identity of an output section: its name, its id, and its header.
#[derive(Debug)]
pub struct SectionWrapper {
    pub name: String,
    pub id: usize,
    pub elf_header: SectionHeader,
}

impl SectionWrapper {
    /// A section with the given id, no name yet, and an all-zero header.
    pub fn new(id: usize) -> (w: Self)
        ensures
            w.id == id,
            w.name@ == Seq::<char>::empty(),
            w.elf_header == (SectionHeader {
                name: 0,
                _type: SectionType::NULL,
                flags: 0,
                addr: 0,
                offset: 0,
                size: 0,
                link: 0,
                info: 0,
                add_align: 0,
                ent_size: 0,
            }),
    {
        Self { id, name: String::new(), elf_header: SectionHeader::default() }
    }
}

} // verus!
