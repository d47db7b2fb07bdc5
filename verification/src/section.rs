use crate::context::Context;
use crate::linker::SectionFlag;
use vstd::prelude::*;

verus! {

/// One section of an object: who owns it, where it stands in the owner's
/// section-header table, its name and its bytes.
#[derive(Debug)]
pub struct Section {
    /// The id of the owning object.
    pub elf: usize,
    pub name: String,
    /// The index of the section's header in the owner's table.
    pub index: usize,
    pub data: Vec<u8>,
}

impl Section {
    /// Whether the header of this section has the flag `flag`: the owner
    /// is an object of `ctx`, it has a section header at the section's index,
    /// and the flags of that header have a bit of `flag` set.
    pub open spec fn has_flag(&self, ctx: Context, flag: SectionFlag) -> bool {
        match ctx.spec_get_object(self.elf) {
            Some(o) => self.index < o.section_info.elf_sections@.len() && flag.spec_is_set(
                o.section_info.elf_sections@[self.index as int].flags,
            ),
            None => false,
        }
    }

    /// Looks the flag up in the owner's section header.
    pub fn test_flag(&self, ctx: &Context, flag: SectionFlag) -> (b: bool)
        requires
            ctx.wf(),
        ensures
            b == self.has_flag(*ctx, flag),
    {
        match ctx.get_object(self.elf) {
            Some(elf) => {
                if self.index < elf.section_info.elf_sections.len() {
                    flag.is_set(elf.section_info.elf_sections[self.index].flags)
                } else {
                    false
                }
            },
            None => false,
        }
    }

    /// Whether the section can be written to at run time.
    pub fn is_write(&self, ctx: &Context) -> (b: bool)
        requires
            ctx.wf(),
        ensures
            b == self.has_flag(*ctx, SectionFlag::WRITE),
    {
        self.test_flag(ctx, SectionFlag::WRITE)
    }

    /// Whether the section takes up memory at run time.
    pub fn is_alloc(&self, ctx: &Context) -> (b: bool)
        requires
            ctx.wf(),
        ensures
            b == self.has_flag(*ctx, SectionFlag::ALLOC),
    {
        self.test_flag(ctx, SectionFlag::ALLOC)
    }

    /// Whether the content of the section may be merged.
    pub fn is_merge(&self, ctx: &Context) -> (b: bool)
        requires
            ctx.wf(),
        ensures
            b == self.has_flag(*ctx, SectionFlag::MERGE),
    {
        self.test_flag(ctx, SectionFlag::MERGE)
    }

    /// Whether the section holds zero-terminated strings.
    pub fn is_string(&self, ctx: &Context) -> (b: bool)
        requires
            ctx.wf(),
        ensures
            b == self.has_flag(*ctx, SectionFlag::STRINGS),
    {
        self.test_flag(ctx, SectionFlag::STRINGS)
    }
}

} // verus!
