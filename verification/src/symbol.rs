use crate::output_section::merged_section::FragmentRef;
use crate::section::Section;
use vstd::prelude::*;

verus! {

/// A symbol: a local one of its object, or a global one that all objects
/// which name it share.
#[derive(Debug)]
pub struct Symbol {
    /// The id of the object that defines the symbol, once one has claimed it.
    pub elf: Option<usize>,
    pub name: String,
    /// The index in the symbol table of the defining object.
    pub index: usize,
    pub value: usize,
    pub input_section: Option<Section>,
    pub frag: Option<FragmentRef>,
    pub is_alive: bool,
}

impl Symbol {
    /// A symbol is bound to an input section or to a fragment, never to both.
    pub open spec fn wf(&self) -> bool {
        !(self.input_section is Some && self.frag is Some)
    }

    /// Whether the symbol is as interning makes it: nothing defines it,
    /// it is bound to nothing, and it is alive.
    pub open spec fn fresh(&self) -> bool {
        &&& self.elf is None
        &&& self.index == 0xffff
        &&& self.value == 0
        &&& self.frag is None
        &&& self.input_section is None
        &&& self.is_alive
    }

    /// A symbol that nothing defines yet and that is bound to nothing.
    pub fn new(name: String, index: usize, value: usize) -> (s: Self)
        ensures
            s.name == name,
            s.index == index,
            s.value == value,
            s.elf is None,
            s.input_section is None,
            s.frag is None,
            s.is_alive,
            s.wf(),
    {
        Self { name, index, value, elf: None, input_section: None, frag: None, is_alive: true }
    }

    /// Binds the symbol to a fragment, and to no input section.
    pub fn set_frag(&mut self, frag: FragmentRef)
        ensures
            final(self).frag == Some(frag),
            final(self).input_section is None,
            final(self).elf == old(self).elf,
            final(self).name == old(self).name,
            final(self).index == old(self).index,
            final(self).value == old(self).value,
            final(self).is_alive == old(self).is_alive,
            final(self).wf(),
    {
        self.input_section = None;
        self.frag = Some(frag);
    }

    /// Binds the symbol to an input section, and to no fragment.
    pub fn set_section(&mut self, section: Section)
        ensures
            final(self).input_section == Some(section),
            final(self).frag is None,
            final(self).elf == old(self).elf,
            final(self).name == old(self).name,
            final(self).index == old(self).index,
            final(self).value == old(self).value,
            final(self).is_alive == old(self).is_alive,
            final(self).wf(),
    {
        self.input_section = Some(section);
        self.frag = None;
    }
}

} // verus!
