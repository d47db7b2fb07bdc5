use crate::error::LinkError;
use crate::linker::{ElfHeader, ElfSymbol, SectionHeader, SectionType};
use crate::output_section::merged_section::{FragmentData, FragmentRef};
use crate::passes::{
    defines_at, gives_up, global_count, killed, lemma_holds_step, referenced, resolved_by,
};
use crate::section::Section;
use crate::symbol::Symbol;
use crate::utils::input_file::{
    decode_failure, first_of_type, find_header, section_bytes, section_fits, section_headers,
    ElfData,
};
use crate::utils::read_struct::{le_u16, FixedRecord};
use crate::utils::str_table::StrTable;
use crate::utils::text::latin1;
use vstd::prelude::*;
use vstd::slice::{slice_subrange, slice_to_vec};

verus! {

/// One relocatable object of the link.
pub struct InputElf {
    pub name: String,
    pub elf_header: ElfHeader,
    pub section_info: SectionInfo,
    pub symbol_info: Option<SymbolInfo>,
    pub is_alive: bool,
    /// The id that the context gave the object; 0 before it is ingested.
    pub id: usize,
}

/// The sections of an object: three lists with one entry per section
/// header, and the string table of the section names.
pub struct SectionInfo {
    pub elf_sections: Vec<SectionHeader>,
    pub str_tab: StrTable,
    pub sections: Vec<Option<Section>>,
    pub mergeable_sections: Vec<Option<InputMergeableSection>>,
}

/// What an object contributes to one merged section.
pub struct InputMergeableSection {
    /// The id of the merged section.
    pub parent: usize,
    /// For each fragment of this object, the position of the one fragment
    /// with that content among the fragments of the merged section.
    pub fragments: Vec<usize>,
    /// The content of each fragment, in the order of the section's bytes.
    pub data: Vec<FragmentData>,
    /// Where each fragment starts in the section's bytes.
    pub offset: Vec<usize>,
}

/// The symbols of an object. The first `first_global` records are local;
/// the rest are global and shared by name with the other objects.
pub struct SymbolInfo {
    pub elf_symbols: Vec<ElfSymbol>,
    pub first_global: usize,
    pub str_tab: StrTable,
    /// The local symbol of each of the first `first_global` records.
    pub local_symbols: Vec<Symbol>,
    /// The handle of the shared symbol of each later record.
    pub global_symbols: Vec<usize>,
}

/// The first position at or after `from` whose offset is at least `v`, or
/// the length of `offsets` where there is none.
pub open spec fn first_reaching(offsets: Seq<usize>, v: usize, from: int) -> int
    decreases offsets.len() - from,
{
    if from < 0 || from >= offsets.len() {
        offsets.len() as int
    } else if offsets[from] >= v {
        from
    } else {
        first_reaching(offsets, v, from + 1)
    }
}

/// `first_reaching` gives the first offset from `from` on that is at least
/// `v`.
pub proof fn lemma_first_reaching(offsets: Seq<usize>, v: usize, from: int)
    requires
        0 <= from <= offsets.len(),
    ensures
        from <= first_reaching(offsets, v, from) <= offsets.len(),
        forall|i: int| from <= i < first_reaching(offsets, v, from) ==> offsets[i] < v,
        first_reaching(offsets, v, from) < offsets.len() ==> offsets[first_reaching(
            offsets,
            v,
            from,
        )] >= v,
    decreases offsets.len() - from,
{
    if from < offsets.len() && offsets[from] < v {
        lemma_first_reaching(offsets, v, from + 1);
    }
}

impl InputMergeableSection {
    /// The three lists have one entry per fragment.
    pub open spec fn wf(&self) -> bool {
        self.fragments@.len() == self.data@.len() && self.data@.len() == self.offset@.len()
    }

    /// Which of this object's fragments a symbol with value `v` belongs to:
    /// the first whose start is at or after `v`, and the first of all where
    /// none is.
    pub open spec fn pick(&self, v: usize) -> int {
        if first_reaching(self.offset@, v, 0) < self.offset@.len() {
            first_reaching(self.offset@, v, 0)
        } else {
            0
        }
    }

    /// A view with no fragment yet, for the merged section `parent`.
    pub fn new(parent: usize) -> (m: Self)
        ensures
            m.parent == parent,
            m.fragments@.len() == 0,
            m.data@.len() == 0,
            m.offset@.len() == 0,
    {
        Self { parent, fragments: Vec::new(), data: Vec::new(), offset: Vec::new() }
    }

    /// The fragment that a symbol with value `offset` is bound to, if the
    /// section has any fragment.
    pub fn get_fragment(&self, offset: usize) -> (r: Option<FragmentRef>)
        requires
            self.wf(),
        ensures
            self.fragments@.len() == 0 ==> r is None,
            self.fragments@.len() > 0 ==> r == Some(
                FragmentRef { section_id: self.parent, index: self.fragments@[self.pick(offset)] },
            ),
            0 <= self.pick(offset) <= self.offset@.len(),
            forall|i: int| 0 <= i < self.pick(offset) ==> self.offset@[i] < offset,
            self.pick(offset) == 0 || self.offset@[self.pick(offset)] >= offset,
    {
        proof {
            lemma_first_reaching(self.offset@, offset, 0);
        }
        if self.fragments.len() == 0 {
            return None;
        }
        let mut ind: usize = 0;
        let mut i: usize = 0;
        while i < self.offset.len()
            invariant
                self.wf(),
                i <= self.offset@.len(),
                ind == 0,
                first_reaching(self.offset@, offset, i as int) == first_reaching(
                    self.offset@,
                    offset,
                    0,
                ),
            decreases self.offset@.len() - i,
        {
            if self.offset[i] >= offset {
                proof {
                    lemma_first_reaching(self.offset@, offset, 0);
                }
                return Some(FragmentRef { section_id: self.parent, index: self.fragments[i] });
            }
            i += 1;
        }
        Some(FragmentRef { section_id: self.parent, index: self.fragments[ind] })
    }
}

/// Why the bytes `b` cannot be decoded as an object, if they cannot: what
/// stops the decoding of the tables, or a section whose bytes do not lie
/// inside the file.
pub open spec fn object_failure(b: Seq<u8>) -> Option<LinkError> {
    if decode_failure(b) is Some {
        decode_failure(b)
    } else if exists|i: int|
        0 <= i < section_headers(b).len() && !section_headers(b)[i]._type.is_bookkeeping()
            && !section_fits(b, #[trigger] section_headers(b)[i]) {
        Some(LinkError::TruncatedObject)
    } else {
        None
    }
}

impl SymbolInfo {
    /// The name of the symbol record `i`.
    pub open spec fn name_of(&self, i: int) -> Seq<char> {
        latin1(self.str_tab.spec_get(self.elf_symbols@[i].name as int))
    }
}

/// Whether `slot` is what the file `b` holds for the header `h`, which
/// stands at `i` in the table: nothing for a bookkeeping section, else the
/// name and bytes of the section, with no owner yet.
pub open spec fn slot_of(
    b: Seq<u8>,
    names: StrTable,
    h: SectionHeader,
    i: int,
    slot: Option<Section>,
) -> bool {
    match slot {
        None => h._type.is_bookkeeping(),
        Some(s) => !h._type.is_bookkeeping() && s.elf == 0 && s.index == i && s.name@ == latin1(
            names.spec_get(h.name as int),
        ) && s.data@ == section_bytes(b, h),
    }
}

/// Reads the section of the header `h`, which stands at `i` in the table.
pub fn read_slot(data: &[u8], names: &StrTable, h: &SectionHeader, i: usize) -> (r: Result<
    Option<Section>,
    LinkError,
>)
    ensures
        !h._type.is_bookkeeping() && !section_fits(data@, *h) ==> r == Err::<
            Option<Section>,
            LinkError,
        >(LinkError::TruncatedObject),
        h._type.is_bookkeeping() || section_fits(data@, *h) ==> (r matches Ok(slot) && slot_of(
            data@,
            *names,
            *h,
            i as int,
            slot,
        )),
{
    if h._type.has_no_section() {
        return Ok(None);
    }
    let total: u64 = data.len() as u64;
    if h.offset > total || total - h.offset < h.size {
        return Err(LinkError::TruncatedObject);
    }
    let from: usize = h.offset as usize;
    let to: usize = (h.offset + h.size) as usize;
    let bytes = slice_to_vec(slice_subrange(data, from, to));
    let name = names.get(h.name as usize);
    Ok(Some(Section { elf: 0, name, index: i, data: bytes }))
}

impl InputElf {
    /// Whether this is the decoding of the file `b` under the name `name`.
    pub open spec fn describes(&self, b: Seq<u8>, name: Seq<char>) -> bool {
        let hs = section_headers(b);
        &&& self.name@ == name
        &&& !self.is_alive
        &&& self.id == 0
        &&& ElfHeader::decodes(b, 0, self.elf_header)
        &&& self.section_info.elf_sections@ == hs
        &&& self.section_info.str_tab.bytes() == section_bytes(b, hs[le_u16(b, 62)])
        &&& self.section_info.str_tab.limit() == hs[le_u16(b, 62)].size
        &&& self.section_info.sections@.len() == hs.len()
        &&& forall|i: int|
            0 <= i < hs.len() ==> slot_of(
                b,
                self.section_info.str_tab,
                hs[i],
                i,
                #[trigger] self.section_info.sections@[i],
            )
        &&& self.section_info.mergeable_sections@.len() == 0
        &&& match first_of_type(hs, SectionType::SYMTAB, 0) {
            None => self.symbol_info is None,
            Some(t) => self.symbol_info matches Some(info) && info.elf_symbols@
                == crate::utils::input_file::symbol_records(b, hs[t]) && info.first_global
                == hs[t].info && info.str_tab.bytes() == section_bytes(b, hs[hs[t].link as int])
                && info.str_tab.limit() == hs[hs[t].link as int].size
                && info.local_symbols@.len() == 0 && info.global_symbols@.len() == 0,
        }
    }

    /// The state of an object that has been decoded and not yet ingested:
    /// one section slot per header, each section at its own index, no more
    /// local symbols announced than there are records, and no symbol or
    /// mergeable view made yet.
    pub open spec fn decoded(&self) -> bool {
        &&& self.section_info.sections@.len() == self.section_info.elf_sections@.len()
        &&& forall|i: int|
            0 <= i < self.section_info.sections@.len() ==> (
            #[trigger] self.section_info.sections@[i] matches Some(s) ==> s.index == i)
        &&& self.section_info.mergeable_sections@.len() == 0
        &&& self.symbol_info matches Some(info) ==> info.first_global <= info.elf_symbols@.len()
            && info.local_symbols@.len() == 0 && info.global_symbols@.len() == 0
    }

    /// Whether the object is in the state in which decoding leaves it, and
    /// in which a context takes it in.
    pub fn is_decoded(&self) -> (b: bool)
        ensures
            b == self.decoded(),
    {
        let info = &self.section_info;
        if info.sections.len() != info.elf_sections.len() || info.mergeable_sections.len() != 0 {
            return false;
        }
        match &self.symbol_info {
            Some(symbols) => {
                if symbols.first_global > symbols.elf_symbols.len() || symbols.local_symbols.len()
                    != 0 || symbols.global_symbols.len() != 0 {
                    return false;
                }
            },
            None => {},
        }
        let mut i: usize = 0;
        while i < info.sections.len()
            invariant
                *info == self.section_info,
                i <= info.sections@.len(),
                forall|k: int|
                    0 <= k < i ==> (#[trigger] info.sections@[k] matches Some(s) ==> s.index == k),
            decreases info.sections@.len() - i,
        {
            match &info.sections[i] {
                Some(s) => {
                    if s.index != i {
                        return false;
                    }
                },
                None => {},
            }
            i += 1;
        }
        true
    }

    /// Decodes an object from the bytes of its file. The object comes out
    /// not alive and without an id.
    pub fn new_from_buf(data: &[u8], name: String) -> (r: Result<InputElf, LinkError>)
        ensures
            object_failure(data@) matches Some(e) ==> r == Err::<InputElf, LinkError>(e),
            object_failure(data@) is None ==> (r matches Ok(o) && o.describes(data@, name@)
                && o.decoded()),
    {
        let d = ElfData::new_from_buf(data, name)?;
        let ElfData { name, elf_header, elf_sections, symbol_info, is_alive: _, sec_str_tab } = d;
        let mut sections: Vec<Option<Section>> = Vec::new();
        let mut i: usize = 0;
        while i < elf_sections.len()
            invariant
                i <= elf_sections@.len(),
                elf_sections@ == section_headers(data@),
                decode_failure(data@) is None,
                sections@.len() == i,
                forall|k: int|
                    0 <= k < i ==> (section_headers(data@)[k]._type.is_bookkeeping()
                        || section_fits(data@, #[trigger] section_headers(data@)[k])),
                forall|k: int|
                    0 <= k < i ==> slot_of(
                        data@,
                        sec_str_tab,
                        elf_sections@[k],
                        k,
                        #[trigger] sections@[k],
                    ),
            decreases elf_sections@.len() - i,
        {
            let slot = match read_slot(data, &sec_str_tab, &elf_sections[i], i) {
                Ok(slot) => slot,
                Err(e) => {
                    assert(!section_fits(data@, section_headers(data@)[i as int]));
                    return Err(e);
                },
            };
            sections.push(slot);
            i += 1;
        }
        let symbol_info = match symbol_info {
            None => None,
            Some(info) => Some(
                SymbolInfo {
                    elf_symbols: info.elf_symbols,
                    first_global: info.first_global,
                    str_tab: info.str_tab,
                    local_symbols: Vec::new(),
                    global_symbols: Vec::new(),
                },
            ),
        };
        let section_info = SectionInfo {
            elf_sections,
            str_tab: sec_str_tab,
            sections,
            mergeable_sections: Vec::new(),
        };
        Ok(InputElf { name, elf_header, is_alive: false, symbol_info, section_info, id: 0 })
    }

    /// The first section header of type `typ`, if the object has one.
    pub fn find_section(&self, typ: SectionType) -> (r: Option<SectionHeader>)
        ensures
            match first_of_type(self.section_info.elf_sections@, typ, 0) {
                Some(k) => 0 <= k < self.section_info.elf_sections@.len() && r == Some(
                    self.section_info.elf_sections@[k],
                ),
                None => r is None,
            },
    {
        match find_header(&self.section_info.elf_sections, typ) {
            Some(k) => Some(self.section_info.elf_sections[k]),
            None => None,
        }
    }
}

impl InputElf {
    /// Claims every symbol that this object defines and that has no
    /// defining object yet: the symbol then names this object, the index of
    /// the record that defines it, and the record's value.
    pub fn resolve_symbol(&self, symbols: &mut Vec<Symbol>)
        requires
            self.symbols_ingested(old(symbols)@),
        ensures
            final(symbols)@.len() == old(symbols)@.len(),
            forall|h: int|
                0 <= h < old(symbols)@.len() ==> #[trigger] final(symbols)@[h] == resolved_by(
                    *self,
                    old(symbols)@[h],
                    h,
                    global_count(*self),
                ),
    {
        match &self.symbol_info {
            Some(info) => {
                let start: usize = info.first_global;
                let count: usize = info.global_symbols.len();
                let total: usize = info.elf_symbols.len();
                let mut i: usize = 0;
                while i < count
                    invariant
                        i <= count,
                        total == info.elf_symbols@.len(),
                        self.symbol_info == Some(*info),
                        count == info.global_symbols@.len(),
                        start == info.first_global,
                        info.global_symbols@.len() == info.elf_symbols@.len() - start,
                        start <= info.elf_symbols@.len(),
                        symbols@.len() == old(symbols)@.len(),
                        forall|j: int|
                            0 <= j < count ==>
                                (#[trigger] info.global_symbols@[j]) < symbols@.len(),
                        forall|h: int|
                            0 <= h < symbols@.len() ==> #[trigger] symbols@[h] == resolved_by(
                                *self,
                                old(symbols)@[h],
                                h,
                                i as int,
                            ),
                    decreases count - i,
                {
                    let handle: usize = info.global_symbols[i];
                    let elf_sym: ElfSymbol = info.elf_symbols[start + i];
                    let ghost before = symbols@;
                    if elf_sym.has_section() {
                        if symbols[handle].elf.is_none() {
                            symbols[handle].elf = Some(self.id);
                            symbols[handle].index = i + start;
                            symbols[handle].value = #[verifier::truncate] (elf_sym.val as usize);
                        }
                    }
                    proof {
                        assert forall|h: int| 0 <= h < symbols@.len() implies #[trigger] symbols@[h]
                            == resolved_by(*self, old(symbols)@[h], h, i + 1) by {
                            assert(before[h] == resolved_by(*self, old(symbols)@[h], h, i as int));
                            assert(defines_at(*self, h, i as int) == (h == handle
                                && elf_sym.is_concrete()));
                        }
                    }
                    i += 1;
                }
            },
            None => {},
        }
    }
}

impl InputElf {
    /// The ids of the objects that this object refers to: for each global
    /// record that is an undefined reference to a symbol that another object
    /// defines, the id of that object, in the order of the records.
    pub fn mark_live_objects(&self, symbols: &Vec<Symbol>) -> (r: Vec<usize>)
        requires
            self.is_alive,
            self.symbols_ingested(symbols@),
        ensures
            r@ == referenced(*self, symbols@, global_count(*self)),
    {
        let mut r: Vec<usize> = Vec::new();
        match &self.symbol_info {
            Some(info) => {
                let start: usize = info.first_global;
                let count: usize = info.global_symbols.len();
                let total: usize = info.elf_symbols.len();
                let mut i: usize = 0;
                while i < count
                    invariant
                        i <= count,
                        total == info.elf_symbols@.len(),
                        self.symbol_info == Some(*info),
                        count == info.global_symbols@.len(),
                        start == info.first_global,
                        info.global_symbols@.len() == info.elf_symbols@.len() - start,
                        start <= info.elf_symbols@.len(),
                        forall|j: int|
                            0 <= j < count ==>
                                (#[trigger] info.global_symbols@[j]) < symbols@.len(),
                        r@ == referenced(*self, symbols@, i as int),
                    decreases count - i,
                {
                    let handle: usize = info.global_symbols[i];
                    let elf_sym: ElfSymbol = info.elf_symbols[start + i];
                    match symbols[handle].elf {
                        Some(id) => {
                            if id != self.id && elf_sym.shndx == 0 {
                                r.push(id);
                            }
                        },
                        None => {},
                    }
                    i += 1;
                }
            },
            None => {},
        }
        r
    }
}

impl InputElf {
    /// Marks dead every symbol that this object holds among its global
    /// records and that it is the defining object of.
    pub fn clear_symbol(&self, symbols: &mut Vec<Symbol>)
        requires
            self.symbols_ingested(old(symbols)@),
        ensures
            final(symbols)@.len() == old(symbols)@.len(),
            forall|h: int|
                0 <= h < old(symbols)@.len() ==> #[trigger] final(symbols)@[h] == killed(
                    old(symbols)@[h],
                    gives_up(*self, old(symbols)@[h], h, global_count(*self)),
                ),
    {
        match &self.symbol_info {
            Some(info) => {
                let count: usize = info.global_symbols.len();
                let mut i: usize = 0;
                while i < count
                    invariant
                        i <= count,
                        self.symbol_info == Some(*info),
                        count == info.global_symbols@.len(),
                        symbols@.len() == old(symbols)@.len(),
                        forall|j: int|
                            0 <= j < count ==>
                                (#[trigger] info.global_symbols@[j]) < symbols@.len(),
                        forall|h: int|
                            0 <= h < symbols@.len() ==> #[trigger] symbols@[h] == killed(
                                old(symbols)@[h],
                                gives_up(*self, old(symbols)@[h], h, i as int),
                            ),
                    decreases count - i,
                {
                    let handle: usize = info.global_symbols[i];
                    let ghost before = symbols@;
                    match symbols[handle].elf {
                        Some(id) => {
                            if id == self.id {
                                symbols[handle].is_alive = false;
                            }
                        },
                        None => {},
                    }
                    proof {
                        assert forall|h: int| 0 <= h < symbols@.len() implies #[trigger] symbols@[h]
                            == killed(
                            old(symbols)@[h],
                            gives_up(*self, old(symbols)@[h], h, i + 1),
                        ) by {
                            let s0 = old(symbols)@[h];
                            assert(before[h] == killed(s0, gives_up(*self, s0, h, i as int)));
                            lemma_holds_step(*self, h, i as int);
                        }
                    }
                    i += 1;
                }
            },
            None => {
                proof {
                    assert forall|h: int| 0 <= h < symbols@.len() implies #[trigger] symbols@[h]
                        == killed(
                        old(symbols)@[h],
                        gives_up(*self, old(symbols)@[h], h, global_count(*self)),
                    ) by {}
                }
            },
        }
    }
}

} // verus!
