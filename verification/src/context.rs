use crate::error::LinkError;
use crate::linker::{SectionHeader, SectionType};
use crate::output_section::merged_section::{
    position, FragmentData, FragmentRef, MergedModel, MergedSection,
};
use crate::output_section::output_section::SectionWrapper;
use crate::passes::{
    alive_among, alive_at, all_named, clear_dead, dies, drop_dead, find_position, handle_in,
    ids_rise, keep_live, killed, lemma_alive_positions, lemma_live_handles,
    lemma_live_handles_differ, lemma_survivors, lemma_survivors_rise, live_among,
    live_positions, marking, names_differ, pending, position_of, reclaiming, resolution,
    resolved, spread,
};
use crate::symbol::Symbol;
use crate::utils::ingest::{
    entered, last_binding, lemma_ingested_extends, merged_extend, models, new_handles,
    rebound, symbols_extend,
};
use crate::utils::input_elf::InputElf;
use vstd::prelude::*;

verus! {

/// The state of one link: the objects in the order in which they came, the
/// global symbols, and the merged sections of the output.
pub struct Context {
    objects: Vec<InputElf>,
    /// Every global symbol ever made; a handle is a position in this list.
    symbols: Vec<Symbol>,
    /// The handles of the interned symbols, in order of interning.
    symbol_map: Vec<usize>,
    sections: Vec<MergedSection>,
    obj_id: usize,
}

/// Whether the ids of the objects are at least 1, below `next`, and rise
/// along the list.
pub open spec fn ids_ordered(objects: Seq<InputElf>, next: usize) -> bool {
    &&& forall|p: int| 0 <= p < objects.len() ==> 1 <= (#[trigger] objects[p]).id < next
    &&& forall|p: int, q: int|
        0 <= p < q < objects.len() ==> (#[trigger] objects[p]).id < (#[trigger] objects[q]).id
}

/// The handle under which the name `name` is interned, if it is.
pub open spec fn lookup(symbols: Seq<Symbol>, interned: Seq<usize>, name: Seq<char>) -> Option<
    usize,
> {
    if exists|k: int|
        0 <= k < interned.len() && symbols[(#[trigger] interned[k]) as int].name@ == name {
        Some(
            interned[choose|k: int|
                0 <= k < interned.len() && symbols[(#[trigger] interned[k]) as int].name@ == name],
        )
    } else {
        None
    }
}

/// Whether the symbols `s1` and interned handles `i1` are `s0` and `i0`
/// after `name` was asked for, with the handle `r` as the answer: a name
/// that is interned has its handle given, and nothing changes; a name that is
/// not gets a new symbol, which is interned under the next handle. Either
/// way the name is interned under `r` afterwards.
pub open spec fn interning(
    s0: Seq<Symbol>,
    i0: Seq<usize>,
    name: Seq<char>,
    s1: Seq<Symbol>,
    i1: Seq<usize>,
    r: usize,
) -> bool {
    &&& lookup(s1, i1, name) == Some(r)
    &&& match lookup(s0, i0, name) {
        Some(h) => r == h && s1 == s0 && i1 == i0,
        None => {
            &&& r == s0.len()
            &&& s1.len() == s0.len() + 1
            &&& forall|h: int| 0 <= h < s0.len() ==> s1[h] == s0[h]
            &&& i1 == i0.push(r)
            &&& s1[r as int].name@ == name
            &&& s1[r as int].fresh()
        },
    }
}

/// Interning is idempotent: asking for the same name twice gives the same
/// handle, and the second time nothing changes.
pub proof fn lemma_intern_twice(
    s0: Seq<Symbol>,
    i0: Seq<usize>,
    name: Seq<char>,
    s1: Seq<Symbol>,
    i1: Seq<usize>,
    r1: usize,
    s2: Seq<Symbol>,
    i2: Seq<usize>,
    r2: usize,
)
    requires
        interning(s0, i0, name, s1, i1, r1),
        interning(s1, i1, name, s2, i2, r2),
    ensures
        r2 == r1,
        s2 == s1,
        i2 == i1,
{
}

/// Whether the interned symbols are in order: each handle names a live
/// symbol, no two interned symbols bear the same name, and every live
/// symbol is interned.
pub open spec fn intern_wf(symbols: Seq<Symbol>, interned: Seq<usize>) -> bool {
    &&& forall|k: int|
        0 <= k < interned.len() ==> (#[trigger] interned[k]) < symbols.len()
            && symbols[interned[k] as int].is_alive
    &&& forall|k: int, l: int|
        0 <= k < l < interned.len() ==> symbols[(#[trigger] interned[k]) as int].name@
            != symbols[(#[trigger] interned[l]) as int].name@
    &&& forall|h: int|
        0 <= h < symbols.len() && (#[trigger] symbols[h]).is_alive ==> exists|k: int|
            0 <= k < interned.len() && #[trigger] interned[k] == h
}

/// Whether the merged section `m` is the one for this name, type and flags.
pub open spec fn has_triple(m: MergedSection, name: Seq<char>, typ: SectionType, flags: u64) -> bool {
    m.section.name@ == name && m.section.elf_header._type == typ && m.section.elf_header.flags
        == flags
}

/// The position of the merged section for this name, type and flags, if
/// the registry has one.
pub open spec fn find_triple(
    merged: Seq<MergedSection>,
    name: Seq<char>,
    typ: SectionType,
    flags: u64,
) -> Option<int> {
    if exists|k: int| 0 <= k < merged.len() && has_triple(#[trigger] merged[k], name, typ, flags) {
        Some(
            choose|k: int| 0 <= k < merged.len() && has_triple(#[trigger] merged[k], name, typ, flags),
        )
    } else {
        None
    }
}

/// Whether the registry is in order: the merged section at position `k`
/// has the id `k + 1` and is well-formed, and no two merged sections have
/// the same name, type and flags.
pub open spec fn registry_wf(merged: Seq<MergedSection>) -> bool {
    &&& forall|k: int|
        0 <= k < merged.len() ==> (#[trigger] merged[k]).wf() && merged[k].section.id == k + 1
    &&& forall|k: int, l: int|
        0 <= k < l < merged.len() ==> !has_triple(
            #[trigger] merged[k],
            (#[trigger] merged[l]).section.name@,
            merged[l].section.elf_header._type,
            merged[l].section.elf_header.flags,
        )
}

impl Context {
    /// The objects, in the order in which they were ingested.
    pub closed spec fn objects(&self) -> Seq<InputElf> {
        self.objects@
    }

    /// Every global symbol ever made, by handle.
    pub closed spec fn symbols(&self) -> Seq<Symbol> {
        self.symbols@
    }

    /// The handles of the interned symbols.
    pub closed spec fn interned(&self) -> Seq<usize> {
        self.symbol_map@
    }

    /// The merged sections; the one with id `k + 1` stands at position `k`.
    pub closed spec fn merged(&self) -> Seq<MergedSection> {
        self.sections@
    }

    /// The id that the next object will get.
    pub closed spec fn next_object_id(&self) -> usize {
        self.obj_id
    }

    /// The id that the next merged section will get. Merged sections are
    /// never removed, so it is one more than their number.
    pub open spec fn next_section_id(&self) -> nat {
        self.merged().len() + 1
    }

    /// The invariant of the context.
    pub open spec fn wf(&self) -> bool {
        &&& ids_ordered(self.objects(), self.next_object_id())
        &&& self.next_object_id() >= 1
        &&& forall|p: int|
            0 <= p < self.objects().len() ==> (#[trigger] self.objects()[p]).ingested(
                self.symbols(),
                self.merged(),
            )
        &&& intern_wf(self.symbols(), self.interned())
        &&& registry_wf(self.merged())
    }

    /// The handle under which `name` is interned, if it is.
    pub open spec fn spec_lookup(&self, name: Seq<char>) -> Option<usize> {
        lookup(self.symbols(), self.interned(), name)
    }

    /// The object with the id `id`, if the context holds one.
    pub open spec fn spec_get_object(&self, id: usize) -> Option<InputElf> {
        match position_of(self.objects(), id) {
            Some(p) => Some(self.objects()[p]),
            None => None,
        }
    }

    /// A context with no object, no symbol and no merged section. The
    /// first object will get the id 1, and so will the first merged section.
    pub fn new() -> (c: Self)
        ensures
            c.wf(),
            c.objects().len() == 0,
            c.symbols().len() == 0,
            c.interned().len() == 0,
            c.merged().len() == 0,
            c.next_object_id() == 1,
    {
        Self {
            objects: Vec::new(),
            symbols: Vec::new(),
            symbol_map: Vec::new(),
            sections: Vec::new(),
            obj_id: 1,
        }
    }

    /// The id that the next object will get.
    pub fn next_id(&self) -> (id: usize)
        ensures
            id == self.next_object_id(),
    {
        self.obj_id
    }

    /// The number of objects.
    pub fn obj_size(&self) -> (n: usize)
        ensures
            n == self.objects().len(),
    {
        self.objects.len()
    }

    /// The objects, in the order in which they were ingested.
    pub fn object_iter(&self) -> (v: &Vec<InputElf>)
        ensures
            v@ == self.objects(),
    {
        &self.objects
    }

    /// The global symbols, by handle.
    pub fn symbol_table(&self) -> (v: &Vec<Symbol>)
        ensures
            v@ == self.symbols(),
    {
        &self.symbols
    }

    /// The merged sections; the one with id `k + 1` stands at position `k`.
    pub fn merged_sections(&self) -> (v: &Vec<MergedSection>)
        ensures
            v@ == self.merged(),
    {
        &self.sections
    }

    /// The position of the object with the id `id`.
    pub fn find_object(&self, id: usize) -> (r: Option<usize>)
        requires
            self.wf(),
        ensures
            match r {
                Some(p) => position_of(self.objects(), id) == Some(p as int) && p
                    < self.objects().len() && self.objects()[p as int].id == id,
                None => position_of(self.objects(), id) is None,
            },
    {
        assert(ids_rise(self.objects@));
        find_position(&self.objects, id)
    }

    /// The object with the id `id`.
    pub fn get_object(&self, id: usize) -> (r: Option<&InputElf>)
        requires
            self.wf(),
        ensures
            match r {
                Some(o) => self.spec_get_object(id) == Some(*o),
                None => self.spec_get_object(id) is None,
            },
    {
        match self.find_object(id) {
            Some(p) => Some(&self.objects[p]),
            None => None,
        }
    }

    /// The handle of the symbol interned under `name`. A name that is not
    /// interned yet gets a new symbol, which nothing defines.
    pub fn find_symbol_by_name(&mut self, name: String) -> (r: usize)
        requires
            old(self).wf(),
        ensures
            final(self).wf(),
            final(self).objects() == old(self).objects(),
            final(self).merged() == old(self).merged(),
            final(self).next_object_id() == old(self).next_object_id(),
            final(self).spec_lookup(name@) == Some(r),
            r < final(self).symbols().len(),
            final(self).symbols()[r as int].name@ == name@,
            interning(
                old(self).symbols(),
                old(self).interned(),
                name@,
                final(self).symbols(),
                final(self).interned(),
                r,
            ),
    {
        let mut k: usize = 0;
        while k < self.symbol_map.len()
            invariant
                self.wf(),
                *self == *old(self),
                k <= self.symbol_map@.len(),
                forall|l: int|
                    0 <= l < k ==> self.symbols@[(#[trigger] self.symbol_map@[l]) as int].name@
                        != name@,
            decreases self.symbol_map@.len() - k,
        {
            let h: usize = self.symbol_map[k];
            if self.symbols[h].name == name {
                proof {
                    lemma_lookup(self.symbols@, self.symbol_map@, k as int);
                }
                return h;
            }
            k += 1;
        }
        let r: usize = self.symbols.len();
        let sym = Symbol::new(name, 0xffff, 0);
        self.symbols.push(sym);
        self.symbol_map.push(r);
        proof {
            let s0 = old(self).symbols();
            let s1 = self.symbols();
            assert(symbols_extend(s0, s1));
            assert(merged_extend(self.merged(), self.merged()));
            assert forall|p: int| 0 <= p < self.objects().len() implies (
            #[trigger] self.objects()[p]).ingested(s1, self.merged()) by {
                lemma_ingested_extends(self.objects()[p], s0, self.merged(), s1, self.merged());
            }
            let n = old(self).interned().len() as int;
            assert(self.interned()[n] == r);
            assert forall|h: int| 0 <= h < s1.len() && (#[trigger] s1[h]).is_alive implies exists|
                k: int,
            |
                0 <= k < self.interned().len() && #[trigger] self.interned()[k] == h by {
                if h < s0.len() {
                    assert(s0[h].is_alive);
                    let k0 = choose|k: int|
                        0 <= k < old(self).interned().len() && #[trigger] old(self).interned()[k]
                            == h;
                    assert(self.interned()[k0] == h);
                } else {
                    assert(self.interned()[n] == h);
                }
            }
            assert(intern_wf(s1, self.interned()));
            lemma_lookup(s1, self.interned(), n);
        }
        r
    }
}

impl Context {
    /// The id of the merged section for this name, type and flags. Where
    /// the registry has none yet, a new one is made, with the next id and no
    /// fragment.
    pub fn find_mergeable_section(&mut self, name: String, typ: SectionType, flags: u64) -> (r:
        usize)
        requires
            old(self).wf(),
        ensures
            final(self).wf(),
            final(self).objects() == old(self).objects(),
            final(self).symbols() == old(self).symbols(),
            final(self).interned() == old(self).interned(),
            final(self).next_object_id() == old(self).next_object_id(),
            merged_extend(old(self).merged(), final(self).merged()),
            1 <= r <= final(self).merged().len(),
            has_triple(final(self).merged()[r - 1], name@, typ, flags),
            match find_triple(old(self).merged(), name@, typ, flags) {
                Some(k) => r == k + 1 && final(self).merged() == old(self).merged(),
                None => {
                    &&& r == old(self).next_section_id()
                    &&& final(self).merged().len() == old(self).merged().len() + 1
                    &&& forall|k: int|
                        0 <= k < old(self).merged().len() ==> final(self).merged()[k]
                            == old(self).merged()[k]
                    &&& final(self).merged()[r - 1].model() == MergedModel::empty()
                    &&& final(self).merged()[r - 1].section.elf_header == (SectionHeader {
                        name: 0,
                        _type: typ,
                        flags,
                        addr: 0,
                        offset: 0,
                        size: 0,
                        link: 0,
                        info: 0,
                        add_align: 0,
                        ent_size: 0,
                    })
                },
            },
    {
        let mut k: usize = 0;
        while k < self.sections.len()
            invariant
                self.wf(),
                *self == *old(self),
                k <= self.sections@.len(),
                forall|l: int|
                    0 <= l < k ==> !has_triple(#[trigger] self.sections@[l], name@, typ, flags),
            decreases self.sections@.len() - k,
        {
            let sec = &self.sections[k];
            if sec.section.name == name && sec.section.elf_header._type == typ
                && sec.section.elf_header.flags == flags {
                proof {
                    lemma_find_triple(self.sections@, k as int);
                }
                return k + 1;
            }
            k += 1;
        }
        let mut wrapper = SectionWrapper::new(0);
        wrapper.name = name;
        wrapper.elf_header._type = typ;
        wrapper.elf_header.flags = flags;
        self.sections.push(MergedSection::new(wrapper));
        let id: usize = self.sections.len();
        self.sections[id - 1].section.id = id;
        proof {
            let m0 = old(self).merged();
            let m1 = self.merged();
            assert(merged_extend(m0, m1));
            assert(symbols_extend(self.symbols(), self.symbols()));
            assert forall|p: int| 0 <= p < self.objects().len() implies (
            #[trigger] self.objects()[p]).ingested(self.symbols(), m1) by {
                lemma_ingested_extends(self.objects()[p], self.symbols(), m0, self.symbols(), m1);
            }
            assert(m1[id - 1].model().keys =~= MergedModel::empty().keys);
            assert(m1[id - 1].model().aligns =~= MergedModel::empty().aligns);
            assert(m1[id - 1].wf());
            assert(registry_wf(m1));
        }
        id
    }

    /// Asks the merged section with the id `section_id` for a fragment
    /// with the content of `frag` and the alignment `align`, and returns the
    /// fragment's position in that section.
    pub fn insert_fragment(&mut self, section_id: usize, frag: &FragmentData, align: usize) -> (r:
        usize)
        requires
            old(self).wf(),
            1 <= section_id <= old(self).merged().len(),
        ensures
            final(self).wf(),
            final(self).objects() == old(self).objects(),
            final(self).symbols() == old(self).symbols(),
            final(self).interned() == old(self).interned(),
            final(self).next_object_id() == old(self).next_object_id(),
            merged_extend(old(self).merged(), final(self).merged()),
            final(self).merged().len() == old(self).merged().len(),
            forall|k: int|
                0 <= k < old(self).merged().len() && k != section_id - 1 ==>
                    final(self).merged()[k] == old(self).merged()[k],
            final(self).merged()[section_id - 1].model() == old(self).merged()[section_id
                - 1].model().insert(frag@, align),
            position(final(self).merged()[section_id - 1].key_views(), frag@) == Some(r as int),
            r < final(self).merged()[section_id - 1].keys@.len(),
            final(self).merged()[section_id - 1].keys@[r as int]@ == frag@,
    {
        let r = self.sections[section_id - 1].insert(frag, align);
        proof {
            let m0 = old(self).merged();
            let m1 = self.merged();
            assert(m1[section_id - 1].key_views()[r as int] == frag@);
            assert(merged_extend(m0, m1));
            assert(symbols_extend(self.symbols(), self.symbols()));
            assert forall|p: int| 0 <= p < self.objects().len() implies (
            #[trigger] self.objects()[p]).ingested(self.symbols(), m1) by {
                lemma_ingested_extends(self.objects()[p], self.symbols(), m0, self.symbols(), m1);
            }
            assert(registry_wf(m1));
        }
        r
    }

    /// Binds the symbol with the handle `handle` to the fragment `frag`.
    pub fn bind_fragment(&mut self, handle: usize, frag: FragmentRef)
        requires
            old(self).wf(),
            handle < old(self).symbols().len(),
        ensures
            final(self).wf(),
            final(self).objects() == old(self).objects(),
            final(self).merged() == old(self).merged(),
            final(self).interned() == old(self).interned(),
            final(self).next_object_id() == old(self).next_object_id(),
            final(self).symbols().len() == old(self).symbols().len(),
            forall|h: int|
                0 <= h < old(self).symbols().len() && h != handle ==> final(self).symbols()[h]
                    == old(self).symbols()[h],
            final(self).symbols()[handle as int].frag == Some(frag),
            final(self).symbols()[handle as int].input_section is None,
            final(self).symbols()[handle as int].elf == old(self).symbols()[handle as int].elf,
            final(self).symbols()[handle as int].name == old(self).symbols()[handle as int].name,
            final(self).symbols()[handle as int].index == old(self).symbols()[handle as int].index,
            final(self).symbols()[handle as int].value == old(self).symbols()[handle as int].value,
            final(self).symbols()[handle as int].is_alive
                == old(self).symbols()[handle as int].is_alive,
    {
        self.symbols[handle].set_frag(frag);
        proof {
            let s0 = old(self).symbols();
            let s1 = self.symbols();
            assert(symbols_extend(s0, s1));
            assert(merged_extend(self.merged(), self.merged()));
            assert forall|p: int| 0 <= p < self.objects().len() implies (
            #[trigger] self.objects()[p]).ingested(s1, self.merged()) by {
                lemma_ingested_extends(self.objects()[p], s0, self.merged(), s1, self.merged());
            }
            lemma_intern_kept(s0, s1, self.interned());
        }
    }
}

/// The interned list stays in order when symbols change in what they are
/// bound to or defined by, and keep their names and their liveness.
pub proof fn lemma_intern_kept(s0: Seq<Symbol>, s1: Seq<Symbol>, interned: Seq<usize>)
    requires
        intern_wf(s0, interned),
        s0.len() == s1.len(),
        forall|h: int|
            0 <= h < s0.len() ==> (#[trigger] s1[h]).name@ == s0[h].name@ && s1[h].is_alive
                == s0[h].is_alive,
    ensures
        intern_wf(s1, interned),
{
    assert forall|k: int, l: int| 0 <= k < l < interned.len() implies s1[(
    #[trigger] interned[k]) as int].name@ != s1[(#[trigger] interned[l]) as int].name@ by {
        assert(s1[interned[k] as int].name@ == s0[interned[k] as int].name@);
        assert(s1[interned[l] as int].name@ == s0[interned[l] as int].name@);
    }
    assert forall|h: int| 0 <= h < s1.len() && (#[trigger] s1[h]).is_alive implies exists|k: int|
        0 <= k < interned.len() && #[trigger] interned[k] == h by {
        assert(s0[h].is_alive);
    }
    assert forall|k: int| 0 <= k < interned.len() implies (#[trigger] interned[k]) < s1.len()
        && s1[interned[k] as int].is_alive by {
        assert(s1[interned[k] as int].is_alive == s0[interned[k] as int].is_alive);
    }
}

/// Where no two merged sections have the same name, type and flags, the
/// merged section at position `k` is the one found under its own.
pub proof fn lemma_find_triple(merged: Seq<MergedSection>, k: int)
    requires
        0 <= k < merged.len(),
        registry_wf(merged),
    ensures
        find_triple(
            merged,
            merged[k].section.name@,
            merged[k].section.elf_header._type,
            merged[k].section.elf_header.flags,
        ) == Some(k),
{
    let name = merged[k].section.name@;
    let typ = merged[k].section.elf_header._type;
    let flags = merged[k].section.elf_header.flags;
    assert(has_triple(merged[k], name, typ, flags));
    let l = choose|l: int| 0 <= l < merged.len() && has_triple(#[trigger] merged[l], name, typ, flags);
    if l < k {
        assert(!has_triple(
            merged[l],
            merged[k].section.name@,
            merged[k].section.elf_header._type,
            merged[k].section.elf_header.flags,
        ));
    }
    if k < l {
        assert(!has_triple(
            merged[k],
            merged[l].section.name@,
            merged[l].section.elf_header._type,
            merged[l].section.elf_header.flags,
        ));
    }
}

/// A name that is interned stays interned under the same handle when
/// more symbols are made and interned.
pub proof fn lemma_lookup_kept(
    s0: Seq<Symbol>,
    i0: Seq<usize>,
    s1: Seq<Symbol>,
    i1: Seq<usize>,
    name: Seq<char>,
)
    requires
        intern_wf(s0, i0),
        intern_wf(s1, i1),
        symbols_extend(s0, s1),
        i0.len() <= i1.len(),
        forall|k: int| 0 <= k < i0.len() ==> #[trigger] i1[k] == i0[k],
        lookup(s0, i0, name) is Some,
    ensures
        lookup(s1, i1, name) == lookup(s0, i0, name),
{
    let k = choose|k: int| 0 <= k < i0.len() && s0[(#[trigger] i0[k]) as int].name@ == name;
    assert(i1[k] == i0[k]);
    assert(s1[i0[k] as int].name@ == s0[i0[k] as int].name@);
    lemma_lookup(s1, i1, k);
}

impl Context {
    /// Takes an object in: gives it the next id, makes its local symbols
    /// and interns its global ones, gives its sections their owner, splits
    /// its mergeable sections into fragments and interns those in the merged
    /// sections, and binds its symbols to their fragments. The object comes
    /// last in the order of ingest.
    pub fn push(&mut self, object: InputElf)
        requires
            old(self).wf(),
            object.decoded(),
            old(self).next_object_id() < usize::MAX,
        ensures
            final(self).wf(),
            final(self).next_object_id() == old(self).next_object_id() + 1,
            final(self).objects().len() == old(self).objects().len() + 1,
            forall|p: int|
                0 <= p < old(self).objects().len() ==>
                    #[trigger] final(self).objects()[p] == old(self).objects()[p],
            final(self).objects().last().ingest_of(object, old(self).next_object_id()),
            final(self).objects().last().taken_in(old(self).symbols(), final(self).symbols()),
            final(self).objects().last().symbol_info matches Some(info) ==> forall|j: int|
                0 <= j < info.global_symbols@.len() ==> final(self).spec_lookup(
                    info.name_of(info.first_global + j),
                ) == Some(#[trigger] info.global_symbols@[j]),
            final(self).interned() == old(self).interned() + new_handles(
                old(self).symbols().len() as int,
                final(self).symbols().len() as int,
            ),
            merged_extend(old(self).merged(), final(self).merged()),
            forall|k: int|
                old(self).merged().len() <= k < final(self).merged().len() ==>
                    #[trigger] final(self).objects().last().has_view_of(k),
            final(self).objects().last().named_in_order(old(self).merged().len() as int),
            models(final(self).merged()) == final(self).objects().last().section_info.registered(
                models(old(self).merged()) + Seq::new(
                    (final(self).merged().len() - old(self).merged().len()) as nat,
                    |k: int| MergedModel::empty(),
                ),
                final(self).objects().last().section_info.mergeable_sections@.len() as int,
            ),
    {
        let mut object = object;
        let ghost given = object;
        let id: usize = self.obj_id;
        object.id = id;
        let ghost s0 = self.symbols();
        object.initialize_symbol(self);
        let ghost s1 = self.symbols();
        let ghost i1 = self.interned();
        let ghost named = object;
        object.initialize_section(self);
        let ghost s2 = self.symbols();
        proof {
            assert(symbols_extend(s1, s2)) by {
                if object.symbol_info is Some {
                    assert forall|h: int| 0 <= h < s1.len() implies (#[trigger] s2[h]).name@
                        == s1[h].name@ by {
                        assert(s2[h].name == s1[h].name);
                    }
                }
            }
            assert(object.taken_in(s0, s2)) by {
                if object.symbol_info is Some {
                    let info = object.symbol_info->Some_0;
                    assert forall|h: int| 0 <= h < s2.len() implies {
                        let b = last_binding(
                            info.global_symbols@,
                            info.elf_symbols@,
                            info.first_global as int,
                            object.section_info,
                            h,
                            info.global_symbols@.len() as int,
                        );
                        if h < s0.len() {
                            rebound(s0[h], #[trigger] s2[h], b)
                        } else {
                            entered(s2[h], b) && handle_in(info.global_symbols@, h as usize)
                        }
                    } by {
                        if h < s0.len() {
                            assert(s1[h] == s0[h]);
                        } else {
                            assert(s1[h].fresh());
                            assert(handle_in(named.symbol_info->Some_0.global_symbols@, h as usize));
                        }
                    }
                } else {
                    assert(s1 =~= s0);
                }
            }
            if object.symbol_info is Some {
                let info = object.symbol_info->Some_0;
                let before = named.symbol_info->Some_0;
                assert forall|j: int| 0 <= j < info.global_symbols@.len() implies lookup(
                    s2,
                    self.interned(),
                    info.name_of(info.first_global + j),
                ) == Some(#[trigger] info.global_symbols@[j]) by {
                    assert(before.global_symbols@[j] == info.global_symbols@[j]);
                    assert(before.name_of(before.first_global + j) == info.name_of(
                        info.first_global + j,
                    ));
                    lemma_lookup_kept(
                        s1,
                        i1,
                        s2,
                        self.interned(),
                        info.name_of(info.first_global + j),
                    );
                }
                assert forall|i: int| 0 <= i < info.first_global implies
                    #[trigger] info.local_bound(
                    object.section_info,
                    i,
                ) by {
                    assert(before.local_made(i));
                    assert(rebound(
                        before.local_symbols@[i],
                        info.local_symbols@[i],
                        object.section_info.binding(info.elf_symbols@[i]),
                    ));
                }
            }
        }
        let ghost stored = object;
        let ghost before_push = self.objects();
        self.objects.push(object);
        self.obj_id = id + 1;
        proof {
            assert(self.objects().last() == stored);
            assert forall|p: int| 0 <= p < self.objects().len() implies (
            #[trigger] self.objects()[p]).ingested(self.symbols(), self.merged()) by {
                if p < before_push.len() {
                    assert(self.objects()[p] == before_push[p]);
                }
            }
            assert(ids_ordered(self.objects(), self.next_object_id())) by {
                assert forall|p: int| 0 <= p < self.objects().len() implies 1 <= (
                #[trigger] self.objects()[p]).id < self.next_object_id() by {
                    if p < before_push.len() {
                        assert(self.objects()[p] == before_push[p]);
                    }
                }
                assert forall|p: int, q: int| 0 <= p < q < self.objects().len() implies (
                #[trigger] self.objects()[p]).id < (#[trigger] self.objects()[q]).id by {
                    assert(self.objects()[p] == before_push[p]);
                    if q < before_push.len() {
                        assert(self.objects()[q] == before_push[q]);
                    }
                }
            }
        }
    }
}

impl Context {
    /// Gives every symbol that has no defining object its first definer:
    /// the objects are looked at in the order of ingest, and each claims the
    /// symbols that it defines and that nothing has claimed before. A symbol
    /// that no object defines stays without a defining object.
    pub fn resolve_symbol(&mut self)
        requires
            old(self).wf(),
        ensures
            final(self).wf(),
            final(self).objects() == old(self).objects(),
            final(self).merged() == old(self).merged(),
            final(self).interned() == old(self).interned(),
            final(self).next_object_id() == old(self).next_object_id(),
            resolution(old(self).objects(), old(self).symbols(), final(self).symbols()),
    {
        let n: usize = self.objects.len();
        let mut p: usize = 0;
        while p < n
            invariant
                p <= n,
                n == self.objects@.len(),
                old(self).wf(),
                self.objects == old(self).objects,
                self.sections == old(self).sections,
                self.symbol_map == old(self).symbol_map,
                self.obj_id == old(self).obj_id,
                self.symbols@.len() == old(self).symbols@.len(),
                forall|h: int|
                    0 <= h < self.symbols@.len() ==> #[trigger] self.symbols@[h] == resolved(
                        self.objects@,
                        old(self).symbols@[h],
                        h,
                        p as int,
                    ),
            decreases n - p,
        {
            let ghost before = self.symbols@;
            proof {
                assert(old(self).objects()[p as int].ingested(
                    old(self).symbols(),
                    old(self).merged(),
                ));
                assert(symbols_extend(old(self).symbols@, before)) by {
                    assert forall|h: int| 0 <= h < old(self).symbols@.len() implies (
                    #[trigger] before[h]).name@ == old(self).symbols@[h].name@ by {
                        assert(before[h] == resolved(
                            self.objects@,
                            old(self).symbols@[h],
                            h,
                            p as int,
                        ));
                    }
                }
                assert(merged_extend(self.sections@, self.sections@));
                lemma_ingested_extends(
                    self.objects@[p as int],
                    old(self).symbols@,
                    self.sections@,
                    before,
                    self.sections@,
                );
            }
            self.objects[p].resolve_symbol(&mut self.symbols);
            proof {
                assert forall|h: int| 0 <= h < self.symbols@.len() implies
                    #[trigger] self.symbols@[h]
                    == resolved(self.objects@, old(self).symbols@[h], h, p + 1) by {
                    assert(before[h] == resolved(self.objects@, old(self).symbols@[h], h, p as int));
                }
            }
            p += 1;
        }
        proof {
            let s0 = old(self).symbols();
            let s1 = self.symbols();
            assert forall|h: int| 0 <= h < s0.len() implies (#[trigger] s1[h]).name@ == s0[h].name@
                && s1[h].is_alive == s0[h].is_alive by {
                assert(s1[h] == resolved(self.objects@, s0[h], h, n as int));
            }
            assert(symbols_extend(s0, s1));
            assert(merged_extend(self.merged(), self.merged()));
            assert forall|q: int| 0 <= q < self.objects().len() implies (
            #[trigger] self.objects()[q]).ingested(s1, self.merged()) by {
                lemma_ingested_extends(self.objects()[q], s0, self.merged(), s1, self.merged());
            }
            lemma_intern_kept(s0, s1, self.interned());
        }
    }
}

/// An object that is in place stays in place when only its liveness
/// changes.
pub proof fn lemma_ingested_alive(
    o: InputElf,
    p: InputElf,
    symbols: Seq<Symbol>,
    merged: Seq<MergedSection>,
)
    requires
        o.ingested(symbols, merged),
        p == (InputElf { is_alive: p.is_alive, ..o }),
    ensures
        p.ingested(symbols, merged),
{
    assert forall|i: int|
        0 <= i < p.section_info.elf_sections@.len() implies #[trigger] p.view_ingested(
        i,
        merged,
    ) by {
        assert(o.view_ingested(i, merged));
    }
}

impl Context {
    /// Marks alive every object that can be reached from an object that is
    /// alive, along undefined references to symbols that other objects
    /// define. Fails, and changes nothing, where no object is alive.
    pub fn mark_live_objects(&mut self) -> (r: Result<(), LinkError>)
        requires
            old(self).wf(),
        ensures
            final(self).wf(),
            final(self).symbols() == old(self).symbols(),
            final(self).merged() == old(self).merged(),
            final(self).interned() == old(self).interned(),
            final(self).next_object_id() == old(self).next_object_id(),
            match r {
                Ok(_) => (exists|p: int|
                    0 <= p < old(self).objects().len() && (#[trigger] old(self).objects()[p]).is_alive) && marking(
                    old(self).objects(),
                    old(self).symbols(),
                    final(self).objects(),
                ),
                Err(e) => e == LinkError::EmptyRootSet && (forall|p: int|
                    0 <= p < old(self).objects().len() ==>
                        !(#[trigger] old(self).objects()[p]).is_alive) && final(self).objects()
                            == old(self).objects(),
            },
    {
        let queue = live_positions(&self.objects);
        proof {
            lemma_alive_positions(self.objects@, self.objects@.len() as int);
        }
        if queue.len() == 0 {
            proof {
                assert forall|q: int| 0 <= q < self.objects@.len() implies !(
                #[trigger] self.objects@[q]).is_alive by {
                    if self.objects@[q].is_alive {
                        assert(pending(queue@, 0, q));
                    }
                }
            }
            return Err(LinkError::EmptyRootSet);
        }
        let ghost before = self.objects@;
        proof {
            assert(before[queue@[0] as int].is_alive);
            assert(all_named(before, self.symbols@)) by {
                assert forall|p: int| 0 <= p < before.len() implies (
                #[trigger] before[p]).symbols_ingested(self.symbols@) by {
                    assert(self.objects()[p].ingested(self.symbols(), self.merged()));
                }
            }
        }
        let mut objects: Vec<InputElf> = Vec::new();
        core::mem::swap(&mut self.objects, &mut objects);
        spread(&mut objects, &self.symbols, queue);
        core::mem::swap(&mut self.objects, &mut objects);
        proof {
            let now = self.objects@;
            assert forall|p: int| 0 <= p < now.len() implies
                (#[trigger] self.objects()[p]).ingested(
                self.symbols(),
                self.merged(),
            ) by {
                assert(old(self).objects()[p].ingested(self.symbols(), self.merged()));
                lemma_ingested_alive(before[p], now[p], self.symbols(), self.merged());
            }
            assert(ids_ordered(now, self.obj_id)) by {
                assert forall|p: int| 0 <= p < now.len() implies 1 <= (#[trigger] now[p]).id
                    < self.obj_id by {
                    assert(now[p].id == before[p].id);
                }
                assert forall|p: int, r: int| 0 <= p < r < now.len() implies (#[trigger] now[p]).id
                    < (#[trigger] now[r]).id by {
                    assert(now[p].id == before[p].id);
                    assert(now[r].id == before[r].id);
                }
            }
        }
        Ok(())
    }
}

impl Context {
    /// Drops every object that is not alive. The symbols that such an
    /// object defines die with it, and the handles of dead symbols leave the
    /// interned list, so that their names can be interned anew.
    pub fn reclaim_objects(&mut self)
        requires
            old(self).wf(),
        ensures
            final(self).wf(),
            final(self).merged() == old(self).merged(),
            final(self).next_object_id() == old(self).next_object_id(),
            reclaiming(
                old(self).objects(),
                old(self).symbols(),
                old(self).interned(),
                final(self).objects(),
                final(self).symbols(),
                final(self).interned(),
            ),
    {
        let ghost o1 = self.objects@;
        let ghost s1 = self.symbols@;
        let ghost i1 = self.symbol_map@;
        proof {
            assert(all_named(o1, s1)) by {
                assert forall|p: int| 0 <= p < o1.len() implies (#[trigger] o1[p]).symbols_ingested(
                    s1,
                ) by {
                    assert(self.objects()[p].ingested(self.symbols(), self.merged()));
                }
            }
        }
        clear_dead(&self.objects, &mut self.symbols);
        drop_dead(&mut self.objects);
        let ghost s2 = self.symbols@;
        proof {
            assert forall|k: int| 0 <= k < i1.len() implies (#[trigger] i1[k]) < s2.len() by {}
        }
        keep_live(&mut self.symbol_map, &self.symbols);
        proof {
            let o2 = self.objects@;
            let i2 = self.symbol_map@;
            let merged = self.merged();
            assert forall|h: int| 0 <= h < s1.len() implies (#[trigger] s2[h]).name@ == s1[h].name@
                && (s2[h].is_alive ==> s1[h].is_alive) by {
                assert(s2[h] == killed(s1[h], dies(o1, s1[h], h, o1.len() as int)));
            }
            assert(symbols_extend(s1, s2));
            assert(merged_extend(merged, merged));
            lemma_survivors(o1, o1.len() as int);
            lemma_survivors_rise(o1, o1.len() as int);
            assert forall|p: int| 0 <= p < o2.len() implies (#[trigger] o2[p]).ingested(s2, merged)
                && 1 <= o2[p].id < self.obj_id by {
                assert(alive_among(o1, o1.len() as int, o2[p]));
                let w = choose|w: int| w < o1.len() && #[trigger] alive_at(o1, w, o2[p]);
                assert(old(self).objects()[w].ingested(s1, merged));
                lemma_ingested_extends(o1[w], s1, merged, s2, merged);
            }
            lemma_live_handles(i1, s2, i1.len() as int);
            assert(names_differ(s2, i1)) by {
                assert forall|k: int, l: int| 0 <= k < l < i1.len() implies s2[(
                #[trigger] i1[k]) as int].name@ != s2[(#[trigger] i1[l]) as int].name@ by {
                    assert(s2[i1[k] as int].name@ == s1[i1[k] as int].name@);
                    assert(s2[i1[l] as int].name@ == s1[i1[l] as int].name@);
                }
            }
            lemma_live_handles_differ(i1, s2, i1.len() as int);
            assert(intern_wf(s2, i2)) by {
                assert forall|k: int| 0 <= k < i2.len() implies (#[trigger] i2[k]) < s2.len()
                    && s2[i2[k] as int].is_alive by {
                    assert(live_among(i1, s2, i1.len() as int, i2[k]));
                }
                assert forall|h: int| 0 <= h < s2.len() && (#[trigger] s2[h]).is_alive implies
                    exists|
                    k: int,
                | 0 <= k < i2.len() && #[trigger] i2[k] == h by {
                    assert(s1[h].is_alive);
                    let k1 = choose|k: int| 0 <= k < i1.len() && #[trigger] i1[k] == h;
                    assert(s2[i1[k1] as int].is_alive);
                    assert(handle_in(i2, i1[k1]));
                    let k2 = choose|i: int| 0 <= i < i2.len() && #[trigger] i2[i] == i1[k1];
                    assert(i2[k2] == h);
                }
            }
        }
    }

    /// Runs the three passes in order: resolution, liveness marking,
    /// reclamation. Where no object is alive, marking fails, and nothing is
    /// reclaimed.
    pub fn run_passes(&mut self) -> (r: Result<(), LinkError>)
        requires
            old(self).wf(),
        ensures
            final(self).wf(),
            final(self).merged() == old(self).merged(),
            final(self).next_object_id() == old(self).next_object_id(),
            match r {
                Ok(_) => (exists|p: int|
                    0 <= p < old(self).objects().len() && (#[trigger] old(
                        self
                    ).objects()[p]).is_alive) && exists|s1: Seq<Symbol>, o2: Seq<InputElf>|
                    #![trigger marking(old(self).objects(), s1, o2)]
                    resolution(old(self).objects(), old(self).symbols(), s1) && marking(
                        old(self).objects(),
                        s1,
                        o2,
                    ) && reclaiming(
                        o2,
                        s1,
                        old(self).interned(),
                        final(self).objects(),
                        final(self).symbols(),
                        final(self).interned(),
                    ),
                Err(e) => e == LinkError::EmptyRootSet && (forall|p: int|
                    0 <= p < old(self).objects().len() ==>
                        !(#[trigger] old(self).objects()[p]).is_alive) && final(self).objects()
                            == old(self).objects()
                    && final(self).interned() == old(self).interned() && resolution(
                    old(self).objects(),
                    old(self).symbols(),
                    final(self).symbols(),
                ),
            },
    {
        self.resolve_symbol();
        let ghost s1 = self.symbols();
        match self.mark_live_objects() {
            Ok(_) => {},
            Err(e) => {
                return Err(e);
            },
        }
        let ghost o2 = self.objects();
        self.reclaim_objects();
        proof {
            assert(marking(old(self).objects(), s1, o2));
        }
        Ok(())
    }
}

/// The three lists of sections of every object in the context have one
/// entry per section header, and the entries at one index belong together:
/// the section there knows that index and its owner, and there is a
/// mergeable view exactly where the header has the merge flag and the
/// section has bytes.
pub proof fn lemma_section_lists_parallel(ctx: Context, p: int, i: int)
    requires
        ctx.wf(),
        0 <= p < ctx.objects().len(),
        0 <= i < ctx.objects()[p].section_info.elf_sections@.len(),
    ensures
        ctx.objects()[p].section_info.sections@.len()
            == ctx.objects()[p].section_info.elf_sections@.len(),
        ctx.objects()[p].section_info.mergeable_sections@.len()
            == ctx.objects()[p].section_info.elf_sections@.len(),
        ctx.objects()[p].section_info.sections@[i] matches Some(s) ==> s.index == i && s.elf
            == ctx.objects()[p].id,
        ctx.objects()[p].section_info.mergeable_sections@[i] is Some <==> (
        crate::linker::SectionFlag::MERGE.spec_is_set(
            ctx.objects()[p].section_info.elf_sections@[i].flags,
        ) && ctx.objects()[p].section_info.sections@[i] is Some),
{
    let o = ctx.objects()[p];
    assert(o.ingested(ctx.symbols(), ctx.merged()));
    assert(o.view_ingested(i, ctx.merged()));
    let _ = o.section_info.sections@[i];
}

/// A name has at most one interned symbol, and every object that refers
/// to the name by a global record holds the handle of a symbol with that
/// name; of two such handles whose symbols are alive, each is the handle
/// under which the name is interned.
pub proof fn lemma_one_symbol_per_name(ctx: Context, p: int, j: int, q: int, k: int)
    requires
        ctx.wf(),
        0 <= p < ctx.objects().len(),
        0 <= q < ctx.objects().len(),
        ctx.objects()[p].symbol_info is Some,
        ctx.objects()[q].symbol_info is Some,
        0 <= j < ctx.objects()[p].symbol_info->Some_0.global_symbols@.len(),
        0 <= k < ctx.objects()[q].symbol_info->Some_0.global_symbols@.len(),
        ctx.objects()[p].symbol_info->Some_0.name_of(
            ctx.objects()[p].symbol_info->Some_0.first_global + j,
        ) == ctx.objects()[q].symbol_info->Some_0.name_of(
            ctx.objects()[q].symbol_info->Some_0.first_global + k,
        ),
        ctx.symbols()[ctx.objects()[p].symbol_info->Some_0.global_symbols@[j] as int].is_alive,
        ctx.symbols()[ctx.objects()[q].symbol_info->Some_0.global_symbols@[k] as int].is_alive,
    ensures
        ctx.objects()[p].symbol_info->Some_0.global_symbols@[j]
            == ctx.objects()[q].symbol_info->Some_0.global_symbols@[k],
        ctx.spec_lookup(
            ctx.objects()[p].symbol_info->Some_0.name_of(
                ctx.objects()[p].symbol_info->Some_0.first_global + j,
            ),
        ) == Some(ctx.objects()[p].symbol_info->Some_0.global_symbols@[j]),
{
    let a = ctx.objects()[p].symbol_info->Some_0;
    let b = ctx.objects()[q].symbol_info->Some_0;
    let symbols = ctx.symbols();
    let interned = ctx.interned();
    assert(ctx.objects()[p].ingested(symbols, ctx.merged()));
    assert(ctx.objects()[q].ingested(symbols, ctx.merged()));
    let h1 = a.global_symbols@[j];
    let h2 = b.global_symbols@[k];
    assert(symbols[h1 as int].is_alive);
    assert(symbols[h2 as int].is_alive);
    let k1 = choose|x: int| 0 <= x < interned.len() && #[trigger] interned[x] == h1 as int;
    let k2 = choose|x: int| 0 <= x < interned.len() && #[trigger] interned[x] == h2 as int;
    assert(interned[k1] == h1);
    assert(interned[k2] == h2);
    if k1 < k2 {
        assert(symbols[interned[k1] as int].name@ != symbols[interned[k2] as int].name@);
    }
    if k2 < k1 {
        assert(symbols[interned[k2] as int].name@ != symbols[interned[k1] as int].name@);
    }
    lemma_lookup(symbols, interned, k1);
}

/// Where no two interned symbols bear the same name, the symbol at
/// position `k` of the interned list is the one found under its name.
pub proof fn lemma_lookup(symbols: Seq<Symbol>, interned: Seq<usize>, k: int)
    requires
        0 <= k < interned.len(),
        forall|k: int, l: int|
            0 <= k < l < interned.len() ==> symbols[(#[trigger] interned[k]) as int].name@
                != symbols[(#[trigger] interned[l]) as int].name@,
    ensures
        lookup(symbols, interned, symbols[interned[k] as int].name@) == Some(interned[k]),
{
    let name = symbols[interned[k] as int].name@;
    let l = choose|l: int|
        0 <= l < interned.len() && symbols[(#[trigger] interned[l]) as int].name@ == name;
    if l < k {
        assert(symbols[interned[l] as int].name@ != symbols[interned[k] as int].name@);
    }
    if k < l {
        assert(symbols[interned[k] as int].name@ != symbols[interned[l] as int].name@);
    }
}

} // verus!
