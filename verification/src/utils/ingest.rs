use crate::context::{lemma_lookup_kept, Context};
use crate::linker::{ElfSymbol, SectionFlag, SectionHeader, SectionIndex};
use crate::output_section::merged_section::{
    FragmentData, FragmentRef, MergedModel, MergedSection,
};
use crate::passes::handle_in;
use crate::section::Section;
use crate::symbol::Symbol;
use crate::utils::fragments::{holds_pieces, pieces_of, split_fragments};
use crate::utils::input_elf::{InputElf, InputMergeableSection, SectionInfo, SymbolInfo};
use vstd::prelude::*;

verus! {

/// The handles from `from` up to, and without, `to`, in order.
pub open spec fn new_handles(from: int, to: int) -> Seq<usize> {
    Seq::new((to - from) as nat, |i: int| (from + i) as usize)
}

/// Whether the symbol table `symbols` has grown out of `before`: every
/// handle of `before` is still a handle, of a symbol with the same name.
pub open spec fn symbols_extend(before: Seq<Symbol>, symbols: Seq<Symbol>) -> bool {
    &&& before.len() <= symbols.len()
    &&& forall|h: int| 0 <= h < before.len() ==> (#[trigger] symbols[h]).name@ == before[h].name@
}

/// Whether the registry `merged` has grown out of `before`: every merged
/// section of `before` is still there under its id, name, type and flags,
/// and every fragment of it is still the fragment of the same content.
pub open spec fn merged_extend(before: Seq<MergedSection>, merged: Seq<MergedSection>) -> bool {
    &&& before.len() <= merged.len()
    &&& forall|k: int|
        0 <= k < before.len() ==> {
            &&& (#[trigger] merged[k]).section == before[k].section
            &&& before[k].keys@.len() <= merged[k].keys@.len()
            &&& forall|i: int|
                0 <= i < before[k].keys@.len() ==> (#[trigger] merged[k].keys@[i])@
                    == before[k].keys@[i]@
        }
}

impl InputMergeableSection {
    /// Whether the view is tied to its merged section in `merged`: the
    /// parent is there, and each fragment of the view names the parent's
    /// fragment of the same content.
    pub open spec fn linked(&self, merged: Seq<MergedSection>) -> bool {
        &&& 1 <= self.parent <= merged.len()
        &&& self.wf()
        &&& forall|x: int|
            0 <= x < self.fragments@.len() ==> {
                let f = #[trigger] self.fragments@[x];
                f < merged[self.parent - 1].keys@.len() && merged[self.parent
                    - 1].keys@[f as int]@ == self.data@[x]@
            }
    }
}

impl SymbolInfo {
    /// Whether the symbols are in place: one local symbol for each of the
    /// first `first_global` records, and for each later record a handle of a
    /// symbol of `symbols` that bears the record's name.
    pub open spec fn ingested(&self, symbols: Seq<Symbol>) -> bool {
        &&& self.first_global <= self.elf_symbols@.len()
        &&& self.local_symbols@.len() == self.first_global
        &&& self.global_symbols@.len() == self.elf_symbols@.len() - self.first_global
        &&& forall|i: int|
            0 <= i < self.local_symbols@.len() ==> (#[trigger] self.local_symbols@[i]).name@
                == self.name_of(i)
        &&& forall|j: int|
            0 <= j < self.global_symbols@.len() ==> {
                let h = #[trigger] self.global_symbols@[j];
                h < symbols.len() && symbols[h as int].name@ == self.name_of(
                    self.first_global + j,
                )
            }
    }

    /// Whether the two hold the same records, with the same string table.
    pub open spec fn same_records(&self, other: SymbolInfo) -> bool {
        self.elf_symbols == other.elf_symbols && self.first_global == other.first_global
            && self.str_tab == other.str_tab
    }
}

impl InputElf {
    /// Whether the symbols of the object are in place.
    pub open spec fn symbols_ingested(&self, symbols: Seq<Symbol>) -> bool {
        self.symbol_info matches Some(info) ==> info.ingested(symbols)
    }

    /// Whether the section `i` has been split: it has a mergeable view
    /// exactly where the header has the merge flag and the section has
    /// bytes; the view holds the fragments of those bytes, and its parent is
    /// the merged section with the section's name, type and flags.
    pub open spec fn view_split(&self, i: int, merged: Seq<MergedSection>) -> bool {
        let h = self.section_info.elf_sections@[i];
        match self.section_info.mergeable_sections@[i] {
            None => !(SectionFlag::MERGE.spec_is_set(h.flags)
                && self.section_info.sections@[i] is Some),
            Some(m) => {
                &&& SectionFlag::MERGE.spec_is_set(h.flags)
                &&& self.section_info.sections@[i] matches Some(s) && holds_pieces(
                    m.data@,
                    m.offset@,
                    pieces_of(
                        s.data@,
                        h.ent_size as int,
                        SectionFlag::STRINGS.spec_is_set(h.flags),
                    ),
                ) && 1 <= m.parent <= merged.len() && merged[m.parent - 1].section.name@
                    == s.name@
                &&& merged[m.parent - 1].section.elf_header._type == h._type
                &&& merged[m.parent - 1].section.elf_header.flags == h.flags
            },
        }
    }

    /// Whether the mergeable view of the section `i` is in place: the
    /// section has been split, and each fragment of the view is tied to the
    /// one fragment of its content in the merged section.
    pub open spec fn view_ingested(&self, i: int, merged: Seq<MergedSection>) -> bool {
        &&& self.view_split(i, merged)
        &&& self.section_info.mergeable_sections@[i] matches Some(m) ==> m.linked(merged)
    }

    /// The state of an object that a context holds: the three section
    /// lists have one entry per header, each section knows its owner and its
    /// index, and the symbols and mergeable views are in place.
    pub open spec fn ingested(&self, symbols: Seq<Symbol>, merged: Seq<MergedSection>) -> bool {
        &&& self.section_info.sections@.len() == self.section_info.elf_sections@.len()
        &&& self.section_info.mergeable_sections@.len() == self.section_info.elf_sections@.len()
        &&& forall|i: int|
            0 <= i < self.section_info.sections@.len() ==> (
            #[trigger] self.section_info.sections@[i] matches Some(s) ==> s.index == i && s.elf
                == self.id)
        &&& forall|i: int|
            0 <= i < self.section_info.elf_sections@.len() ==> #[trigger] self.view_ingested(
                i,
                merged,
            )
        &&& self.symbols_ingested(symbols)
    }
}

/// A symbol table that is in place stays in place when the table of
/// global symbols grows.
pub proof fn lemma_symbols_extend(info: SymbolInfo, s0: Seq<Symbol>, s1: Seq<Symbol>)
    requires
        info.ingested(s0),
        symbols_extend(s0, s1),
    ensures
        info.ingested(s1),
{
    assert forall|j: int| 0 <= j < info.global_symbols@.len() implies {
        let h = #[trigger] info.global_symbols@[j];
        h < s1.len() && s1[h as int].name@ == info.name_of(info.first_global + j)
    } by {
        let h = info.global_symbols@[j];
        assert(s1[h as int].name@ == s0[h as int].name@);
    }
}

/// A section that has been split stays so when the registry grows, and so
/// does a view that is in place.
pub proof fn lemma_view_extends(
    o: InputElf,
    i: int,
    m0: Seq<MergedSection>,
    m1: Seq<MergedSection>,
)
    requires
        0 <= i < o.section_info.elf_sections@.len(),
        o.view_split(i, m0),
        merged_extend(m0, m1),
    ensures
        o.view_split(i, m1),
        o.view_ingested(i, m0) ==> o.view_ingested(i, m1),
{
    if o.section_info.mergeable_sections@[i] is Some {
        let m = o.section_info.mergeable_sections@[i]->Some_0;
        let k = m.parent - 1;
        assert(m1[k].section == m0[k].section);
        if o.view_ingested(i, m0) {
            assert forall|x: int| 0 <= x < m.fragments@.len() implies {
                let f = #[trigger] m.fragments@[x];
                f < m1[k].keys@.len() && m1[k].keys@[f as int]@ == m.data@[x]@
            } by {
                let f = m.fragments@[x];
                assert(m1[k].keys@[f as int]@ == m0[k].keys@[f as int]@);
            }
        }
    }
}

/// An object that is in place stays in place when the symbol table and the
/// registry of merged sections grow.
pub proof fn lemma_ingested_extends(
    o: InputElf,
    s0: Seq<Symbol>,
    m0: Seq<MergedSection>,
    s1: Seq<Symbol>,
    m1: Seq<MergedSection>,
)
    requires
        o.ingested(s0, m0),
        symbols_extend(s0, s1),
        merged_extend(m0, m1),
    ensures
        o.ingested(s1, m1),
{
    if o.symbol_info is Some {
        lemma_symbols_extend(o.symbol_info->Some_0, s0, s1);
    }
    assert forall|i: int|
        0 <= i < o.section_info.elf_sections@.len() implies #[trigger] o.view_ingested(i, m1) by {
        assert(o.view_ingested(i, m0));
        lemma_view_extends(o, i, m0, m1);
    }
}


impl SymbolInfo {
    /// Whether the local symbol `i` is as it is made from its record: it
    /// bears the record's name, index and value, nothing defines it, and it
    /// is bound to nothing.
    pub open spec fn local_made(&self, i: int) -> bool {
        let s = self.local_symbols@[i];
        &&& s.name@ == self.name_of(i)
        &&& s.index == i
        &&& s.value == self.elf_symbols@[i].val as usize
        &&& s.elf is None
        &&& s.frag is None
        &&& s.input_section is None
        &&& s.is_alive
    }

    /// Makes the local symbols, and interns the global ones in `ctx`.
    pub fn initialize(&mut self, ctx: &mut Context)
        requires
            old(ctx).wf(),
            old(self).first_global <= old(self).elf_symbols@.len(),
            old(self).local_symbols@.len() == 0,
            old(self).global_symbols@.len() == 0,
        ensures
            final(ctx).wf(),
            final(self).same_records(*old(self)),
            final(self).ingested(final(ctx).symbols()),
            forall|i: int| 0 <= i < final(self).first_global ==>
                #[trigger] final(self).local_made(i),
            forall|j: int|
                0 <= j < final(self).global_symbols@.len() ==> final(ctx).spec_lookup(
                    final(self).name_of(final(self).first_global + j),
                ) == Some(#[trigger] final(self).global_symbols@[j]),
            final(ctx).objects() == old(ctx).objects(),
            final(ctx).merged() == old(ctx).merged(),
            final(ctx).next_object_id() == old(ctx).next_object_id(),
            old(ctx).symbols().len() <= final(ctx).symbols().len(),
            forall|h: int|
                0 <= h < old(ctx).symbols().len() ==>
                    #[trigger] final(ctx).symbols()[h] == old(ctx).symbols()[h],
            forall|h: int|
                old(ctx).symbols().len() <= h < final(ctx).symbols().len() ==>
                    (#[trigger] final(ctx).symbols()[h]).fresh(),
            forall|h: int|
                old(ctx).symbols().len() <= h < final(ctx).symbols().len() ==> #[trigger] handle_in(
                    final(self).global_symbols@,
                    h as usize,
                ),
            final(ctx).interned() == old(ctx).interned() + new_handles(
                old(ctx).symbols().len() as int,
                final(ctx).symbols().len() as int,
            ),
    {
        let global_index: usize = self.first_global;
        let total: usize = self.elf_symbols.len();
        let mut i: usize = 0;
        while i < global_index
            invariant
                i <= global_index <= total,
                self.same_records(*old(self)),
                total == self.elf_symbols@.len(),
                global_index == self.first_global,
                self.global_symbols@.len() == 0,
                self.local_symbols@.len() == i,
                forall|k: int| 0 <= k < i ==> #[trigger] self.local_made(k),
            decreases global_index - i,
        {
            let elf_sym: ElfSymbol = self.elf_symbols[i];
            let name = elf_sym.name(&self.str_tab);
            let value: usize = #[verifier::truncate] (elf_sym.val as usize);
            let ghost prev = *self;
            self.local_symbols.push(Symbol::new(name, i, value));
            proof {
                assert(self.local_made(i as int));
                assert forall|k: int| 0 <= k < i implies #[trigger] self.local_made(k) by {
                    assert(prev.local_made(k));
                }
            }
            i += 1;
        }
        let ghost locals = self.local_symbols;
        proof {
            assert(ctx.interned() =~= ctx.interned() + new_handles(
                ctx.symbols().len() as int,
                ctx.symbols().len() as int,
            ));
        }
        let mut i: usize = global_index;
        while i < total
            invariant
                global_index <= i <= total,
                ctx.wf(),
                self.same_records(*old(self)),
                total == self.elf_symbols@.len(),
                global_index == self.first_global,
                self.local_symbols == locals,
                self.local_symbols@.len() == global_index,
                forall|k: int| 0 <= k < global_index ==> #[trigger] self.local_made(k),
                self.global_symbols@.len() == i - global_index,
                forall|j: int|
                    0 <= j < self.global_symbols@.len() ==> (#[trigger] self.global_symbols@[j])
                        < ctx.symbols().len() && ctx.spec_lookup(
                        self.name_of(global_index + j),
                    ) == Some(self.global_symbols@[j]) && ctx.symbols()[self.global_symbols@[j] as int].name@
                        == self.name_of(global_index + j),
                ctx.objects() == old(ctx).objects(),
                ctx.merged() == old(ctx).merged(),
                ctx.next_object_id() == old(ctx).next_object_id(),
                old(ctx).symbols().len() <= ctx.symbols().len(),
                forall|h: int|
                    0 <= h < old(ctx).symbols().len() ==>
                        #[trigger] ctx.symbols()[h] == old(ctx).symbols()[h],
                forall|h: int|
                    old(ctx).symbols().len() <= h < ctx.symbols().len() ==> (
                    #[trigger] ctx.symbols()[h]).fresh(),
                forall|h: int|
                    old(ctx).symbols().len() <= h < ctx.symbols().len() ==> #[trigger] handle_in(
                        self.global_symbols@,
                        h as usize,
                    ),
                ctx.interned() == old(ctx).interned() + new_handles(
                    old(ctx).symbols().len() as int,
                    ctx.symbols().len() as int,
                ),
            decreases total - i,
        {
            let elf_sym: ElfSymbol = self.elf_symbols[i];
            let name = elf_sym.name(&self.str_tab);
            let ghost before = *ctx;
            let ghost held = self.global_symbols@;
            let ghost prev = *self;
            let handle = ctx.find_symbol_by_name(name);
            self.global_symbols.push(handle);
            proof {
                let base = old(ctx).symbols().len() as int;
                assert(ctx.interned() =~= old(ctx).interned() + new_handles(
                    base,
                    ctx.symbols().len() as int,
                )) by {
                    if ctx.symbols().len() != before.symbols().len() {
                        assert(new_handles(base, ctx.symbols().len() as int) =~= new_handles(
                            base,
                            before.symbols().len() as int,
                        ).push(handle));
                    }
                }
                assert forall|k: int| 0 <= k < global_index implies #[trigger] self.local_made(
                    k,
                ) by {
                    assert(prev.local_made(k));
                }
                assert forall|h: int|
                    old(ctx).symbols().len() <= h < ctx.symbols().len() implies
                        #[trigger] handle_in(
                    self.global_symbols@,
                    h as usize,
                ) by {
                    if h < before.symbols().len() {
                        assert(handle_in(held, h as usize));
                        let x = choose|x: int| 0 <= x < held.len() && #[trigger] held[x] == h as usize;
                        assert(self.global_symbols@[x] == h as usize);
                    } else {
                        assert(self.global_symbols@[held.len() as int] == handle);
                    }
                }
                assert forall|j: int| 0 <= j < self.global_symbols@.len() implies (
                #[trigger] self.global_symbols@[j]) < ctx.symbols().len() && ctx.spec_lookup(
                    self.name_of(global_index + j),
                ) == Some(self.global_symbols@[j]) && ctx.symbols()[self.global_symbols@[j] as int].name@
                    == self.name_of(global_index + j) by {
                    if j < held.len() {
                        assert(self.global_symbols@[j] == held[j]);
                        lemma_lookup_kept(
                            before.symbols(),
                            before.interned(),
                            ctx.symbols(),
                            ctx.interned(),
                            self.name_of(global_index + j),
                        );
                    }
                }
            }
            i += 1;
        }
        proof {
            assert forall|k: int| 0 <= k < self.local_symbols@.len() implies (
            #[trigger] self.local_symbols@[k]).name@ == self.name_of(k) by {
                assert(self.local_made(k));
            }
        }
    }
}

impl InputElf {
    /// Makes the symbols of the object: a local symbol for each local
    /// record, and for each global record the handle of the symbol that
    /// `ctx` has interned under the record's name.
    pub fn initialize_symbol(&mut self, ctx: &mut Context)
        requires
            old(ctx).wf(),
            old(self).symbol_info matches Some(info) ==> info.first_global
                <= info.elf_symbols@.len() && info.local_symbols@.len() == 0
                && info.global_symbols@.len() == 0,
        ensures
            final(ctx).wf(),
            final(self).name == old(self).name,
            final(self).elf_header == old(self).elf_header,
            final(self).section_info == old(self).section_info,
            final(self).is_alive == old(self).is_alive,
            final(self).id == old(self).id,
            final(self).symbol_info is Some == old(self).symbol_info is Some,
            final(self).symbols_ingested(final(ctx).symbols()),
            old(self).symbol_info is None ==> final(ctx).symbols() == old(ctx).symbols()
                && final(ctx).interned() == old(ctx).interned(),
            final(self).symbol_info matches Some(info) ==> {
                &&& info.same_records(old(self).symbol_info->Some_0)
                &&& forall|i: int| 0 <= i < info.first_global ==> #[trigger] info.local_made(i)
                &&& forall|j: int|
                    0 <= j < info.global_symbols@.len() ==> final(ctx).spec_lookup(
                        info.name_of(info.first_global + j),
                    ) == Some(#[trigger] info.global_symbols@[j])
            },
            final(ctx).objects() == old(ctx).objects(),
            final(ctx).merged() == old(ctx).merged(),
            final(ctx).next_object_id() == old(ctx).next_object_id(),
            old(ctx).symbols().len() <= final(ctx).symbols().len(),
            forall|h: int|
                0 <= h < old(ctx).symbols().len() ==>
                    #[trigger] final(ctx).symbols()[h] == old(ctx).symbols()[h],
            forall|h: int|
                old(ctx).symbols().len() <= h < final(ctx).symbols().len() ==>
                    (#[trigger] final(ctx).symbols()[h]).fresh(),
            forall|h: int|
                old(ctx).symbols().len() <= h < final(ctx).symbols().len() ==> #[trigger] handle_in(
                    final(self).symbol_info->Some_0.global_symbols@,
                    h as usize,
                ),
            final(ctx).interned() == old(ctx).interned() + new_handles(
                old(ctx).symbols().len() as int,
                final(ctx).symbols().len() as int,
            ),
    {
        match &mut self.symbol_info {
            Some(info) => {
                info.initialize(ctx);
            },
            None => {
                proof {
                    assert(ctx.interned() =~= ctx.interned() + new_handles(
                        ctx.symbols().len() as int,
                        ctx.symbols().len() as int,
                    ));
                }
            },
        }
    }
}


/// The fragments of every merged section, as mathematical values.
pub open spec fn models(merged: Seq<MergedSection>) -> Seq<MergedModel> {
    Seq::new(merged.len(), |k: int| merged[k].model())
}

/// The merged section `m` after requests for the first `n` of `keys`, in
/// order, each with the alignment `align`.
pub open spec fn insert_keys(m: MergedModel, keys: Seq<FragmentData>, align: usize, n: int) -> MergedModel
    decreases n,
{
    if n <= 0 {
        m
    } else {
        insert_keys(m, keys, align, n - 1).insert(keys[n - 1]@, align)
    }
}

impl SectionInfo {
    /// The merged sections `before` after the mergeable views of the first
    /// `n` sections have asked for their fragments, section by section and
    /// fragment by fragment, each with its section's entry size as alignment.
    pub open spec fn registered(&self, before: Seq<MergedModel>, n: int) -> Seq<MergedModel>
        decreases n,
    {
        if n <= 0 {
            before
        } else {
            let prev = self.registered(before, n - 1);
            match self.mergeable_sections@[n - 1] {
                Some(m) => if 1 <= m.parent <= prev.len() {
                    prev.update(
                        m.parent - 1,
                        insert_keys(
                            prev[m.parent - 1],
                            m.data@,
                            self.elf_sections@[n - 1].ent_size as usize,
                            m.data@.len() as int,
                        ),
                    )
                } else {
                    prev
                },
                None => prev,
            }
        }
    }

    /// The fragment that this object binds a symbol with the record `raw`
    /// to: where the record names a section with a mergeable view that has
    /// fragments, the fragment that the view picks for the record's value.
    pub open spec fn binding(&self, raw: ElfSymbol) -> Option<FragmentRef> {
        match SectionIndex::of(raw.shndx) {
            SectionIndex::Other(a) => if (a as int) < self.mergeable_sections@.len() {
                match self.mergeable_sections@[a as int] {
                    Some(m) => if m.fragments@.len() > 0 {
                        Some(
                            FragmentRef {
                                section_id: m.parent,
                                index: m.fragments@[m.pick(raw.val as usize)],
                            },
                        )
                    } else {
                        None
                    },
                    None => None,
                }
            } else {
                None
            },
            _ => None,
        }
    }

    /// Whether every mergeable view has one entry per fragment in each of
    /// its lists.
    pub open spec fn views_wf(&self) -> bool {
        forall|i: int|
            0 <= i < self.mergeable_sections@.len() ==> (
            #[trigger] self.mergeable_sections@[i] matches Some(m) ==> m.wf())
    }

    /// The fragment that a symbol with the record `raw` is bound to.
    pub fn fragment_for(&self, raw: &ElfSymbol) -> (r: Option<FragmentRef>)
        requires
            self.views_wf(),
        ensures
            r == self.binding(*raw),
    {
        match raw.index() {
            SectionIndex::Other(a) => {
                let a: usize = a as usize;
                if a < self.mergeable_sections.len() {
                    match &self.mergeable_sections[a] {
                        Some(m) => m.get_fragment(#[verifier::truncate] (raw.val as usize)),
                        None => None,
                    }
                } else {
                    None
                }
            },
            _ => None,
        }
    }
}

/// Whether `t` is the symbol `s` after it was bound to `b`, if `b` is a
/// fragment, and `s` itself if not.
pub open spec fn rebound(s: Symbol, t: Symbol, b: Option<FragmentRef>) -> bool {
    &&& t.elf == s.elf
    &&& t.name == s.name
    &&& t.index == s.index
    &&& t.value == s.value
    &&& t.is_alive == s.is_alive
    &&& match b {
        Some(f) => t.frag == Some(f) && t.input_section is None,
        None => t.frag == s.frag && t.input_section == s.input_section,
    }
}

/// The fragment that the last of the first `n` global records with the
/// handle `h` binds the symbol to, if any of them binds it. The global
/// record `j` has the handle `globals[j]` and stands at `first_global + j`
/// in `records`.
pub open spec fn last_binding(
    globals: Seq<usize>,
    records: Seq<ElfSymbol>,
    first_global: int,
    sec: SectionInfo,
    h: int,
    n: int,
) -> Option<FragmentRef>
    decreases n,
{
    if n <= 0 {
        None
    } else if globals[n - 1] == h && sec.binding(records[first_global + n - 1]) is Some {
        sec.binding(records[first_global + n - 1])
    } else {
        last_binding(globals, records, first_global, sec, h, n - 1)
    }
}

/// Asks the merged section `parent` for the fragments of `keys`, in
/// order, and returns the position of each.
pub fn link_view(ctx: &mut Context, parent: usize, keys: &Vec<FragmentData>, align: usize) -> (frags:
    Vec<usize>)
    requires
        old(ctx).wf(),
        1 <= parent <= old(ctx).merged().len(),
    ensures
        final(ctx).wf(),
        final(ctx).objects() == old(ctx).objects(),
        final(ctx).symbols() == old(ctx).symbols(),
        final(ctx).interned() == old(ctx).interned(),
        final(ctx).next_object_id() == old(ctx).next_object_id(),
        merged_extend(old(ctx).merged(), final(ctx).merged()),
        final(ctx).merged().len() == old(ctx).merged().len(),
        frags@.len() == keys@.len(),
        forall|x: int|
            0 <= x < frags@.len() ==> (#[trigger] frags@[x]) < final(ctx).merged()[parent
                - 1].keys@.len() && final(ctx).merged()[parent - 1].keys@[frags@[x] as int]@
                == keys@[x]@,
        models(final(ctx).merged()) == models(old(ctx).merged()).update(
            parent - 1,
            insert_keys(models(old(ctx).merged())[parent - 1], keys@, align, keys@.len() as int),
        ),
{
    let mut frags: Vec<usize> = Vec::new();
    let ghost base = models(ctx.merged());
    let mut x: usize = 0;
    proof {
        assert(models(ctx.merged()) =~= base.update(
            parent - 1,
            insert_keys(base[parent - 1], keys@, align, 0),
        ));
    }
    while x < keys.len()
        invariant
            x <= keys@.len(),
            ctx.wf(),
            1 <= parent <= ctx.merged().len(),
            ctx.objects() == old(ctx).objects(),
            ctx.symbols() == old(ctx).symbols(),
            ctx.interned() == old(ctx).interned(),
            ctx.next_object_id() == old(ctx).next_object_id(),
            merged_extend(old(ctx).merged(), ctx.merged()),
            ctx.merged().len() == old(ctx).merged().len(),
            base == models(old(ctx).merged()),
            frags@.len() == x,
            forall|y: int|
                0 <= y < frags@.len() ==> (#[trigger] frags@[y]) < ctx.merged()[parent
                    - 1].keys@.len() && ctx.merged()[parent - 1].keys@[frags@[y] as int]@
                    == keys@[y]@,
            models(ctx.merged()) == base.update(
                parent - 1,
                insert_keys(base[parent - 1], keys@, align, x as int),
            ),
        decreases keys@.len() - x,
    {
        let ghost before = ctx.merged();
        let ghost held = frags@;
        let r = ctx.insert_fragment(parent, &keys[x], align);
        frags.push(r);
        proof {
            let after = ctx.merged();
            assert forall|y: int| 0 <= y < frags@.len() implies (#[trigger] frags@[y])
                < after[parent - 1].keys@.len() && after[parent - 1].keys@[frags@[y] as int]@
                == keys@[y]@ by {
                if y < held.len() {
                    assert(frags@[y] == held[y]);
                    assert(after[parent - 1].keys@[held[y] as int]@ == before[parent
                        - 1].keys@[held[y] as int]@);
                }
            }
            assert(models(after) =~= base.update(
                parent - 1,
                insert_keys(base[parent - 1], keys@, align, x + 1),
            )) by {
                assert forall|k: int| 0 <= k < after.len() implies models(after)[k] == base.update(
                    parent - 1,
                    insert_keys(base[parent - 1], keys@, align, x + 1),
                )[k] by {
                    if k != parent - 1 {
                        assert(after[k] == before[k]);
                        assert(models(before)[k] == base[k]);
                    } else {
                        assert(models(before)[k] == insert_keys(
                            base[parent - 1],
                            keys@,
                            align,
                            x as int,
                        ));
                    }
                }
            }
            lemma_merged_extend_trans(old(ctx).merged(), before, after);
        }
        x += 1;
    }
    frags
}

/// A registry that has grown twice has grown.
pub proof fn lemma_merged_extend_trans(
    a: Seq<MergedSection>,
    b: Seq<MergedSection>,
    c: Seq<MergedSection>,
)
    requires
        merged_extend(a, b),
        merged_extend(b, c),
    ensures
        merged_extend(a, c),
{
    assert forall|k: int| 0 <= k < a.len() implies {
        &&& (#[trigger] c[k]).section == a[k].section
        &&& a[k].keys@.len() <= c[k].keys@.len()
        &&& forall|i: int|
            0 <= i < a[k].keys@.len() ==> (#[trigger] c[k].keys@[i])@ == a[k].keys@[i]@
    } by {
        assert(b[k].section == a[k].section);
        assert forall|i: int| 0 <= i < a[k].keys@.len() implies (#[trigger] c[k].keys@[i])@
            == a[k].keys@[i]@ by {
            assert(b[k].keys@[i]@ == a[k].keys@[i]@);
        }
    }
}


/// Whether the view `b` is the view `a` with its fragments tied to the
/// merged sections `merged`.
pub open spec fn view_linked(
    a: Option<InputMergeableSection>,
    b: Option<InputMergeableSection>,
    merged: Seq<MergedSection>,
) -> bool {
    match a {
        None => b is None,
        Some(x) => b matches Some(y) && y.parent == x.parent && y.data == x.data && y.offset
            == x.offset && y.linked(merged),
    }
}

/// What the views of the first `n` sections ask for depends only on their
/// parents, their contents and the entry sizes.
pub proof fn lemma_registered_same(a: SectionInfo, b: SectionInfo, before: Seq<MergedModel>, n: int)
    requires
        n <= a.mergeable_sections@.len(),
        n <= b.mergeable_sections@.len(),
        a.elf_sections == b.elf_sections,
        forall|k: int|
            0 <= k < n ==> match (#[trigger] a.mergeable_sections@[k]) {
                None => b.mergeable_sections@[k] is None,
                Some(x) => b.mergeable_sections@[k] matches Some(y) && y.parent == x.parent
                    && y.data == x.data,
            },
    ensures
        a.registered(before, n) == b.registered(before, n),
    decreases n,
{
    if n > 0 {
        lemma_registered_same(a, b, before, n - 1);
        let _ = a.mergeable_sections@[n - 1];
    }
}

impl SectionInfo {
    /// Ties every mergeable view to its merged section: each fragment of
    /// each view is asked for, in order, with the entry size of the view's
    /// section as alignment.
    pub fn register(&mut self, ctx: &mut Context)
        requires
            old(ctx).wf(),
            old(self).mergeable_sections@.len() == old(self).elf_sections@.len(),
            forall|i: int|
                0 <= i < old(self).mergeable_sections@.len() ==> (
                #[trigger] old(self).mergeable_sections@[i] matches Some(m) ==> 1 <= m.parent
                    <= old(ctx).merged().len() && m.fragments@.len() == 0 && m.data@.len()
                    == m.offset@.len()),
        ensures
            final(ctx).wf(),
            final(ctx).objects() == old(ctx).objects(),
            final(ctx).symbols() == old(ctx).symbols(),
            final(ctx).interned() == old(ctx).interned(),
            final(ctx).next_object_id() == old(ctx).next_object_id(),
            merged_extend(old(ctx).merged(), final(ctx).merged()),
            final(ctx).merged().len() == old(ctx).merged().len(),
            final(self).elf_sections == old(self).elf_sections,
            final(self).str_tab == old(self).str_tab,
            final(self).sections == old(self).sections,
            final(self).mergeable_sections@.len() == old(self).mergeable_sections@.len(),
            forall|i: int|
                0 <= i < final(self).mergeable_sections@.len() ==> view_linked(
                    old(self).mergeable_sections@[i],
                    #[trigger] final(self).mergeable_sections@[i],
                    final(ctx).merged(),
                ),
            models(final(ctx).merged()) == final(self).registered(
                models(old(ctx).merged()),
                final(self).mergeable_sections@.len() as int,
            ),
    {
        let n: usize = self.elf_sections.len();
        let ghost base = models(ctx.merged());
        let mut i: usize = 0;
        while i < n
            invariant
                i <= n,
                n == self.elf_sections@.len(),
                ctx.wf(),
                ctx.objects() == old(ctx).objects(),
                ctx.symbols() == old(ctx).symbols(),
                ctx.interned() == old(ctx).interned(),
                ctx.next_object_id() == old(ctx).next_object_id(),
                merged_extend(old(ctx).merged(), ctx.merged()),
                ctx.merged().len() == old(ctx).merged().len(),
                base == models(old(ctx).merged()),
                self.elf_sections == old(self).elf_sections,
                self.str_tab == old(self).str_tab,
                self.sections == old(self).sections,
                self.mergeable_sections@.len() == n,
                forall|k: int|
                    0 <= k < i ==> view_linked(
                        old(self).mergeable_sections@[k],
                        #[trigger] self.mergeable_sections@[k],
                        ctx.merged(),
                    ),
                forall|k: int|
                    i <= k < n ==>
                        #[trigger] self.mergeable_sections@[k] == old(self).mergeable_sections@[k],
                old(self).mergeable_sections@.len() == n,
                forall|k: int|
                    0 <= k < n ==> (#[trigger] old(self).mergeable_sections@[k] matches Some(m)
                        ==> 1 <= m.parent <= old(ctx).merged().len() && m.fragments@.len() == 0
                        && m.data@.len() == m.offset@.len()),
                models(ctx.merged()) == self.registered(base, i as int),
            decreases n - i,
        {
            let align: usize = #[verifier::truncate] (self.elf_sections[i].ent_size as usize);
            let ghost prev = *self;
            let ghost before = ctx.merged();
            let linked: Option<Vec<usize>> = match &self.mergeable_sections[i] {
                Some(m) => Some(link_view(ctx, m.parent, &m.data, align)),
                None => None,
            };
            match &mut self.mergeable_sections[i] {
                Some(m) => {
                    match linked {
                        Some(frags) => {
                            m.fragments = frags;
                        },
                        None => {},
                    }
                },
                None => {},
            }
            proof {
                let after = ctx.merged();
                lemma_merged_extend_trans(old(ctx).merged(), before, after);
                assert forall|k: int| 0 <= k < i + 1 implies view_linked(
                    old(self).mergeable_sections@[k],
                    #[trigger] self.mergeable_sections@[k],
                    after,
                ) by {
                    if k < i {
                        assert(self.mergeable_sections@[k] == prev.mergeable_sections@[k]);
                        assert(view_linked(
                            old(self).mergeable_sections@[k],
                            prev.mergeable_sections@[k],
                            before,
                        ));
                        if prev.mergeable_sections@[k] is Some {
                            let y = prev.mergeable_sections@[k]->Some_0;
                            let p = y.parent - 1;
                            assert forall|x: int| 0 <= x < y.fragments@.len() implies {
                                let f = #[trigger] y.fragments@[x];
                                f < after[p].keys@.len() && after[p].keys@[f as int]@ == y.data@[x]@
                            } by {
                                let f = y.fragments@[x];
                                assert(after[p].keys@[f as int]@ == before[p].keys@[f as int]@);
                            }
                        }
                    } else {
                        assert(prev.mergeable_sections@[k] == old(self).mergeable_sections@[k]);
                        if prev.mergeable_sections@[k] is Some {
                            let x = prev.mergeable_sections@[k]->Some_0;
                            let y = self.mergeable_sections@[k]->Some_0;
                            assert(y.parent == x.parent && y.data == x.data && y.offset == x.offset);
                            assert(y.fragments@ == linked->Some_0@);
                            assert(y.wf());
                            assert(y.linked(after));
                        }
                    }
                }
                lemma_registered_same(prev, *self, base, i as int);
                assert(models(after) == self.registered(base, i + 1));
            }
            i += 1;
        }
    }
}

impl SymbolInfo {
    /// Binds every symbol whose record names a section with a mergeable
    /// view to the fragment that the view picks for the record's value: the
    /// local symbols first, then the global ones, in the order of the
    /// records.
    pub fn bind(&mut self, sec: &SectionInfo, ctx: &mut Context)
        requires
            old(ctx).wf(),
            old(self).ingested(old(ctx).symbols()),
            sec.views_wf(),
        ensures
            final(ctx).wf(),
            final(ctx).objects() == old(ctx).objects(),
            final(ctx).merged() == old(ctx).merged(),
            final(ctx).interned() == old(ctx).interned(),
            final(ctx).next_object_id() == old(ctx).next_object_id(),
            final(ctx).symbols().len() == old(ctx).symbols().len(),
            forall|h: int|
                0 <= h < old(ctx).symbols().len() ==> rebound(
                    old(ctx).symbols()[h],
                    #[trigger] final(ctx).symbols()[h],
                    last_binding(
                        final(self).global_symbols@,
                        final(self).elf_symbols@,
                        final(self).first_global as int,
                        *sec,
                        h,
                        final(self).global_symbols@.len() as int,
                    ),
                ),
            final(self).same_records(*old(self)),
            final(self).global_symbols == old(self).global_symbols,
            final(self).local_symbols@.len() == old(self).local_symbols@.len(),
            forall|i: int|
                0 <= i < final(self).local_symbols@.len() ==> rebound(
                    old(self).local_symbols@[i],
                    #[trigger] final(self).local_symbols@[i],
                    sec.binding(final(self).elf_symbols@[i]),
                ),
            final(self).ingested(final(ctx).symbols()),
    {
        let first: usize = self.first_global;
        let total: usize = self.elf_symbols.len();
        let mut i: usize = 0;
        while i < first
            invariant
                i <= first <= total,
                first == self.first_global,
                total == self.elf_symbols@.len(),
                sec.views_wf(),
                self.same_records(*old(self)),
                self.global_symbols == old(self).global_symbols,
                self.local_symbols@.len() == old(self).local_symbols@.len(),
                self.local_symbols@.len() == first,
                forall|k: int|
                    0 <= k < i ==> rebound(
                        old(self).local_symbols@[k],
                        #[trigger] self.local_symbols@[k],
                        sec.binding(self.elf_symbols@[k]),
                    ),
                forall|k: int|
                    i <= k < first ==>
                        #[trigger] self.local_symbols@[k] == old(self).local_symbols@[k],
            decreases first - i,
        {
            let raw: ElfSymbol = self.elf_symbols[i];
            match sec.fragment_for(&raw) {
                Some(f) => {
                    self.local_symbols[i].set_frag(f);
                },
                None => {},
            }
            i += 1;
        }
        let ghost locals = self.local_symbols;
        let mut j: usize = 0;
        let count: usize = total - first;
        while j < count
            invariant
                j <= count,
                count == total - first,
                first == self.first_global,
                total == self.elf_symbols@.len(),
                sec.views_wf(),
                ctx.wf(),
                self.same_records(*old(self)),
                self.global_symbols == old(self).global_symbols,
                self.global_symbols@.len() == count,
                self.local_symbols == locals,
                forall|k: int|
                    0 <= k < count ==> (#[trigger] self.global_symbols@[k]) < ctx.symbols().len(),
                ctx.objects() == old(ctx).objects(),
                ctx.merged() == old(ctx).merged(),
                ctx.interned() == old(ctx).interned(),
                ctx.next_object_id() == old(ctx).next_object_id(),
                ctx.symbols().len() == old(ctx).symbols().len(),
                forall|h: int|
                0 <= h < old(ctx).symbols().len() ==> rebound(
                        old(ctx).symbols()[h],
                        #[trigger] ctx.symbols()[h],
                        last_binding(
                            self.global_symbols@,
                            self.elf_symbols@,
                            first as int,
                            *sec,
                            h,
                            j as int,
                        ),
                    ),
            decreases count - j,
        {
            let raw: ElfSymbol = self.elf_symbols[first + j];
            let handle: usize = self.global_symbols[j];
            let ghost before = ctx.symbols();
            match sec.fragment_for(&raw) {
                Some(f) => {
                    ctx.bind_fragment(handle, f);
                },
                None => {},
            }
            proof {
                assert forall|h: int| 0 <= h < old(ctx).symbols().len() implies rebound(
                    old(ctx).symbols()[h],
                    #[trigger] ctx.symbols()[h],
                    last_binding(
                        self.global_symbols@,
                        self.elf_symbols@,
                        first as int,
                        *sec,
                        h,
                        j + 1,
                    ),
                ) by {
                    assert(rebound(
                        old(ctx).symbols()[h],
                        before[h],
                        last_binding(
                            self.global_symbols@,
                            self.elf_symbols@,
                            first as int,
                            *sec,
                            h,
                            j as int,
                        ),
                    ));
                    assert(self.global_symbols@[j as int] == handle);
                    assert(self.elf_symbols@[first + j] == raw);
                    if h != handle {
                        assert(ctx.symbols()[h] == before[h]);
                    }
                }
            }
            j += 1;
        }
        proof {
            assert forall|k: int| 0 <= k < self.local_symbols@.len() implies (
            #[trigger] self.local_symbols@[k]).name@ == self.name_of(k) by {
                assert(rebound(
                    old(self).local_symbols@[k],
                    self.local_symbols@[k],
                    sec.binding(self.elf_symbols@[k]),
                ));
                assert(old(self).local_symbols@[k].name@ == old(self).name_of(k));
            }
            assert forall|k: int| 0 <= k < self.global_symbols@.len() implies {
                let h = #[trigger] self.global_symbols@[k];
                h < ctx.symbols().len() && ctx.symbols()[h as int].name@ == self.name_of(
                    self.first_global + k,
                )
            } by {
                let h = self.global_symbols@[k];
                assert(old(self).global_symbols@[k] == h);
                assert(ctx.symbols()[h as int].name == old(ctx).symbols()[h as int].name);
            }
        }
    }
}


/// Whether the section slot `b` is the slot `a` with `id` as the owner.
pub open spec fn slot_owned(a: Option<Section>, b: Option<Section>, id: usize) -> bool {
    match a {
        None => b is None,
        Some(s) => b matches Some(t) && t.elf == id && t.name == s.name && t.index == s.index
            && t.data == s.data,
    }
}

impl InputElf {
    /// Whether every section has been split and no mergeable view is tied
    /// to its merged section yet.
    pub open spec fn sections_split(&self, merged: Seq<MergedSection>) -> bool {
        &&& self.section_info.sections@.len() == self.section_info.elf_sections@.len()
        &&& self.section_info.mergeable_sections@.len() == self.section_info.elf_sections@.len()
        &&& forall|i: int|
            0 <= i < self.section_info.elf_sections@.len() ==> #[trigger] self.view_split(
                i,
                merged,
            )
        &&& forall|i: int|
            0 <= i < self.section_info.mergeable_sections@.len() ==> (
            #[trigger] self.section_info.mergeable_sections@[i] matches Some(m)
                ==> m.fragments@.len() == 0 && m.data@.len() == m.offset@.len())
    }

    /// Whether the merged section at position `k` is the parent of one of
    /// the object's mergeable views.
    pub open spec fn has_view_of(&self, k: int) -> bool {
        exists|i: int|
            0 <= i < self.section_info.mergeable_sections@.len() && (
            #[trigger] self.section_info.mergeable_sections@[i] matches Some(m) && m.parent == k
                + 1)
    }

    /// Whether a section before the section `j` has a mergeable view
    /// whose parent has the id `q`.
    pub open spec fn named_before(&self, q: int, j: int) -> bool {
        exists|i: int|
            0 <= i < j && i < self.section_info.mergeable_sections@.len() && (
            #[trigger] self.section_info.mergeable_sections@[i] matches Some(m) && m.parent == q)
    }

    /// Whether the merged sections with ids above `base` got their ids in
    /// the order in which the sections of this object first name them: a
    /// section whose parent has such an id comes after a section for every
    /// smaller such id.
    pub open spec fn named_in_order(&self, base: int) -> bool {
        forall|j: int, q: int|
            0 <= j < self.section_info.mergeable_sections@.len() && (
            self.section_info.mergeable_sections@[j] matches Some(m) && base < q < m.parent)
                ==> #[trigger] self.named_before(q, j)
    }

    /// Makes the mergeable view of every section that has the merge flag
    /// and bytes: finds or makes the merged section with the section's name,
    /// type and flags, and splits the bytes into fragments.
    pub fn initialize_mergeable_section(&mut self, ctx: &mut Context)
        requires
            old(ctx).wf(),
            old(self).section_info.sections@.len() == old(self).section_info.elf_sections@.len(),
            old(self).section_info.mergeable_sections@.len() == 0,
        ensures
            final(ctx).wf(),
            final(ctx).objects() == old(ctx).objects(),
            final(ctx).symbols() == old(ctx).symbols(),
            final(ctx).interned() == old(ctx).interned(),
            final(ctx).next_object_id() == old(ctx).next_object_id(),
            merged_extend(old(ctx).merged(), final(ctx).merged()),
            forall|k: int|
                0 <= k < old(ctx).merged().len() ==>
                    #[trigger] final(ctx).merged()[k] == old(ctx).merged()[k],
            forall|k: int|
                old(ctx).merged().len() <= k < final(ctx).merged().len() ==>
                    (#[trigger] final(ctx).merged()[k]).model() == MergedModel::empty(),
            forall|k: int|
                old(ctx).merged().len() <= k < final(ctx).merged().len() ==>
                    #[trigger] final(self).has_view_of(k),
            final(self).named_in_order(old(ctx).merged().len() as int),
            final(self).name == old(self).name,
            final(self).elf_header == old(self).elf_header,
            final(self).symbol_info == old(self).symbol_info,
            final(self).is_alive == old(self).is_alive,
            final(self).id == old(self).id,
            final(self).section_info.elf_sections == old(self).section_info.elf_sections,
            final(self).section_info.str_tab == old(self).section_info.str_tab,
            final(self).section_info.sections == old(self).section_info.sections,
            final(self).sections_split(final(ctx).merged()),
    {
        let total: usize = self.section_info.elf_sections.len();
        let mut i: usize = 0;
        while i < total
            invariant
                i <= total,
                total == self.section_info.elf_sections@.len(),
                ctx.wf(),
                ctx.objects() == old(ctx).objects(),
                ctx.symbols() == old(ctx).symbols(),
                ctx.interned() == old(ctx).interned(),
                ctx.next_object_id() == old(ctx).next_object_id(),
                merged_extend(old(ctx).merged(), ctx.merged()),
                forall|k: int|
                    0 <= k < old(ctx).merged().len() ==>
                        #[trigger] ctx.merged()[k] == old(ctx).merged()[k],
                forall|k: int|
                    old(ctx).merged().len() <= k < ctx.merged().len() ==> (
                    #[trigger] ctx.merged()[k]).model() == MergedModel::empty(),
                forall|k: int|
                    old(ctx).merged().len() <= k < ctx.merged().len() ==>
                        #[trigger] self.has_view_of(
                        k,
                    ),
                self.named_in_order(old(ctx).merged().len() as int),
                forall|k: int|
                    0 <= k < i ==>
                        (#[trigger] self.section_info.mergeable_sections@[k] matches Some(
                        m,
                    ) ==> m.parent <= ctx.merged().len()),
                self.name == old(self).name,
                self.elf_header == old(self).elf_header,
                self.symbol_info == old(self).symbol_info,
                self.is_alive == old(self).is_alive,
                self.id == old(self).id,
                self.section_info.elf_sections == old(self).section_info.elf_sections,
                self.section_info.str_tab == old(self).section_info.str_tab,
                self.section_info.sections == old(self).section_info.sections,
                self.section_info.sections@.len() == total,
                self.section_info.mergeable_sections@.len() == i,
                forall|k: int| 0 <= k < i ==> #[trigger] self.view_split(k, ctx.merged()),
                forall|k: int|
                    0 <= k < i ==>
                        (#[trigger] self.section_info.mergeable_sections@[k] matches Some(
                        m,
                    ) ==> m.fragments@.len() == 0 && m.data@.len() == m.offset@.len()),
            decreases total - i,
        {
            let h: SectionHeader = self.section_info.elf_sections[i];
            let ghost prev = *self;
            let ghost before = ctx.merged();
            let mut slot: Option<InputMergeableSection> = None;
            if SectionFlag::MERGE.is_set(h.flags) {
                match &self.section_info.sections[i] {
                    Some(sec) => {
                        let parent = ctx.find_mergeable_section(sec.name.clone(), h._type, h.flags);
                        let (keys, offs) = split_fragments(
                            sec.data.as_slice(),
                            h.ent_size,
                            SectionFlag::STRINGS.is_set(h.flags),
                        );
                        slot = Some(
                            InputMergeableSection {
                                parent,
                                fragments: Vec::new(),
                                data: keys,
                                offset: offs,
                            },
                        );
                    },
                    None => {},
                }
            }
            self.section_info.mergeable_sections.push(slot);
            proof {
                let after = ctx.merged();
                lemma_merged_extend_trans(old(ctx).merged(), before, after);
                assert forall|k: int| 0 <= k < i + 1 implies #[trigger] self.view_split(
                    k,
                    after,
                ) by {
                    if k < i {
                        assert(prev.view_split(k, before));
                        lemma_view_extends(prev, k, before, after);
                        assert(self.section_info.mergeable_sections@[k]
                            == prev.section_info.mergeable_sections@[k]);
                    }
                }
                assert forall|k: int| 0 <= k < i + 1 implies (
                #[trigger] self.section_info.mergeable_sections@[k] matches Some(m)
                    ==> m.fragments@.len() == 0 && m.data@.len() == m.offset@.len()) by {
                    if k < i {
                        assert(self.section_info.mergeable_sections@[k]
                            == prev.section_info.mergeable_sections@[k]);
                    }
                }
                assert forall|k: int| old(ctx).merged().len() <= k < after.len() implies (
                #[trigger] after[k]).model() == MergedModel::empty() by {
                    if k < before.len() {
                        assert(before[k].model() == MergedModel::empty());
                    }
                }
                assert forall|k: int|
                    old(ctx).merged().len() <= k < after.len() implies #[trigger] self.has_view_of(
                    k,
                ) by {
                    if k < before.len() {
                        assert(prev.has_view_of(k));
                        let w = choose|w: int|
                            0 <= w < prev.section_info.mergeable_sections@.len() && (
                            #[trigger] prev.section_info.mergeable_sections@[w] matches Some(m)
                                && m.parent == k + 1);
                        assert(self.section_info.mergeable_sections@[w]
                            == prev.section_info.mergeable_sections@[w]);
                    } else {
                        assert(self.section_info.mergeable_sections@[i as int] matches Some(m)
                            && m.parent == k + 1);
                    }
                }
                let base = old(ctx).merged().len() as int;
                assert forall|k: int| 0 <= k < i + 1 implies (
                #[trigger] self.section_info.mergeable_sections@[k] matches Some(m) ==> m.parent
                    <= after.len()) by {
                    if k < i {
                        assert(self.section_info.mergeable_sections@[k]
                            == prev.section_info.mergeable_sections@[k]);
                    }
                }
                assert forall|j: int, q: int|
                    0 <= j < self.section_info.mergeable_sections@.len() && (
                    self.section_info.mergeable_sections@[j] matches Some(m) && base < q
                        < m.parent) implies #[trigger] self.named_before(q, j) by {
                    if j < i {
                        assert(self.section_info.mergeable_sections@[j]
                            == prev.section_info.mergeable_sections@[j]);
                        assert(prev.named_before(q, j));
                        let w = choose|w: int|
                            0 <= w < j && w < prev.section_info.mergeable_sections@.len() && (
                            #[trigger] prev.section_info.mergeable_sections@[w] matches Some(m)
                                && m.parent == q);
                        assert(self.section_info.mergeable_sections@[w]
                            == prev.section_info.mergeable_sections@[w]);
                    } else {
                        // every id below the parent of the new view was there before
                        assert(q - 1 < before.len());
                        assert(prev.has_view_of(q - 1));
                        let w = choose|w: int|
                            0 <= w < prev.section_info.mergeable_sections@.len() && (
                            #[trigger] prev.section_info.mergeable_sections@[w] matches Some(m)
                                && m.parent == q - 1 + 1);
                        assert(self.section_info.mergeable_sections@[w]
                            == prev.section_info.mergeable_sections@[w]);
                    }
                }
            }
            i += 1;
        }
    }

    /// Ties the mergeable views to their merged sections, and then binds
    /// every symbol that lies in a mergeable section to its fragment.
    pub fn register_mergeable_section(&mut self, ctx: &mut Context)
        requires
            old(ctx).wf(),
            old(self).sections_split(old(ctx).merged()),
            old(self).symbols_ingested(old(ctx).symbols()),
        ensures
            final(ctx).wf(),
            final(ctx).objects() == old(ctx).objects(),
            final(ctx).interned() == old(ctx).interned(),
            final(ctx).next_object_id() == old(ctx).next_object_id(),
            merged_extend(old(ctx).merged(), final(ctx).merged()),
            final(ctx).merged().len() == old(ctx).merged().len(),
            models(final(ctx).merged()) == final(self).section_info.registered(
                models(old(ctx).merged()),
                final(self).section_info.mergeable_sections@.len() as int,
            ),
            final(ctx).symbols().len() == old(ctx).symbols().len(),
            final(self).bound_in(old(ctx).symbols(), final(ctx).symbols()),
            final(self).name == old(self).name,
            final(self).elf_header == old(self).elf_header,
            final(self).is_alive == old(self).is_alive,
            final(self).id == old(self).id,
            final(self).section_info.elf_sections == old(self).section_info.elf_sections,
            final(self).section_info.str_tab == old(self).section_info.str_tab,
            final(self).section_info.sections == old(self).section_info.sections,
            final(self).section_info.mergeable_sections@.len()
                == old(self).section_info.mergeable_sections@.len(),
            forall|i: int|
                0 <= i < final(self).section_info.mergeable_sections@.len() ==> view_linked(
                    old(self).section_info.mergeable_sections@[i],
                    #[trigger] final(self).section_info.mergeable_sections@[i],
                    final(ctx).merged(),
                ),
            forall|i: int|
                0 <= i < final(self).section_info.elf_sections@.len() ==>
                    #[trigger] final(self).view_ingested(i, final(ctx).merged()),
            final(self).symbol_info is Some == old(self).symbol_info is Some,
            final(self).symbol_info matches Some(info) ==> {
                &&& info.same_records(old(self).symbol_info->Some_0)
                &&& info.global_symbols == old(self).symbol_info->Some_0.global_symbols
                &&& info.local_symbols@.len() == old(self).symbol_info->Some_0.local_symbols@.len()
                &&& forall|i: int|
                    0 <= i < info.local_symbols@.len() ==> rebound(
                        old(self).symbol_info->Some_0.local_symbols@[i],
                        #[trigger] info.local_symbols@[i],
                        final(self).section_info.binding(info.elf_symbols@[i]),
                    )
            },
            final(self).symbols_ingested(final(ctx).symbols()),
    {
        let ghost start = *self;
        let ghost merged0 = ctx.merged();
        proof {
            assert forall|i: int|
                0 <= i < self.section_info.mergeable_sections@.len() implies (
            #[trigger] self.section_info.mergeable_sections@[i] matches Some(m) ==> 1 <= m.parent
                <= merged0.len() && m.fragments@.len() == 0 && m.data@.len()
                == m.offset@.len()) by {
                assert(self.view_split(i, merged0));
            }
        }
        self.section_info.register(ctx);
        proof {
            let merged1 = ctx.merged();
            assert forall|i: int|
                0 <= i < self.section_info.elf_sections@.len() implies
                    #[trigger] self.view_ingested(
                i,
                merged1,
            ) by {
                assert(start.view_split(i, merged0));
                lemma_view_extends(start, i, merged0, merged1);
                assert(view_linked(
                    start.section_info.mergeable_sections@[i],
                    self.section_info.mergeable_sections@[i],
                    merged1,
                ));
            }
            assert(self.section_info.views_wf()) by {
                assert forall|i: int|
                    0 <= i < self.section_info.mergeable_sections@.len() implies (
                #[trigger] self.section_info.mergeable_sections@[i] matches Some(m) ==> m.wf()) by {
                    assert(view_linked(
                        start.section_info.mergeable_sections@[i],
                        self.section_info.mergeable_sections@[i],
                        merged1,
                    ));
                }
            }
        }
        let ghost linked = *self;
        match &mut self.symbol_info {
            Some(info) => {
                info.bind(&self.section_info, ctx);
            },
            None => {},
        }
        proof {
            assert forall|i: int|
                0 <= i < self.section_info.elf_sections@.len() implies
                    #[trigger] self.view_ingested(
                i,
                ctx.merged(),
            ) by {
                assert(linked.view_ingested(i, ctx.merged()));
            }
        }
    }

    /// How this object's bindings took the global symbols from `before`
    /// to `after`: every symbol is as it was, but bound to the fragment that
    /// the last of this object's global records with its handle binds it to.
    pub open spec fn bound_in(&self, before: Seq<Symbol>, after: Seq<Symbol>) -> bool {
        match self.symbol_info {
            Some(info) => forall|h: int|
                0 <= h < before.len() ==> rebound(
                    before[h],
                    #[trigger] after[h],
                    last_binding(
                        info.global_symbols@,
                        info.elf_symbols@,
                        info.first_global as int,
                        self.section_info,
                        h,
                        info.global_symbols@.len() as int,
                    ),
                ),
            None => after == before,
        }
    }

    /// Gives every section its owner, makes the mergeable views, ties them
    /// to their merged sections, and binds the symbols to their fragments.
    pub fn initialize_section(&mut self, ctx: &mut Context)
        requires
            old(ctx).wf(),
            old(self).section_info.sections@.len() == old(self).section_info.elf_sections@.len(),
            old(self).section_info.mergeable_sections@.len() == 0,
            forall|i: int|
                0 <= i < old(self).section_info.sections@.len() ==> (
                #[trigger] old(self).section_info.sections@[i] matches Some(s) ==> s.index == i),
            old(self).symbols_ingested(old(ctx).symbols()),
        ensures
            final(ctx).wf(),
            final(ctx).objects() == old(ctx).objects(),
            final(ctx).interned() == old(ctx).interned(),
            final(ctx).next_object_id() == old(ctx).next_object_id(),
            merged_extend(old(ctx).merged(), final(ctx).merged()),
            forall|k: int|
                old(ctx).merged().len() <= k < final(ctx).merged().len() ==> #[trigger] final(
                    self
                ).has_view_of(k),
            final(self).named_in_order(old(ctx).merged().len() as int),
            models(final(ctx).merged()) == final(self).section_info.registered(
                models(old(ctx).merged()) + Seq::new(
                    (final(ctx).merged().len() - old(ctx).merged().len()) as nat,
                    |k: int| MergedModel::empty(),
                ),
                final(self).section_info.mergeable_sections@.len() as int,
            ),
            final(ctx).symbols().len() == old(ctx).symbols().len(),
            final(self).bound_in(old(ctx).symbols(), final(ctx).symbols()),
            final(self).name == old(self).name,
            final(self).elf_header == old(self).elf_header,
            final(self).is_alive == old(self).is_alive,
            final(self).id == old(self).id,
            final(self).section_info.elf_sections == old(self).section_info.elf_sections,
            final(self).section_info.str_tab == old(self).section_info.str_tab,
            final(self).section_info.sections@.len() == old(self).section_info.sections@.len(),
            forall|i: int|
                0 <= i < final(self).section_info.sections@.len() ==> slot_owned(
                    old(self).section_info.sections@[i],
                    #[trigger] final(self).section_info.sections@[i],
                    final(self).id,
                ),
            final(self).symbol_info is Some == old(self).symbol_info is Some,
            final(self).symbol_info matches Some(info) ==> {
                &&& info.same_records(old(self).symbol_info->Some_0)
                &&& info.global_symbols == old(self).symbol_info->Some_0.global_symbols
                &&& info.local_symbols@.len() == old(self).symbol_info->Some_0.local_symbols@.len()
                &&& forall|i: int|
                    0 <= i < info.local_symbols@.len() ==> rebound(
                        old(self).symbol_info->Some_0.local_symbols@[i],
                        #[trigger] info.local_symbols@[i],
                        final(self).section_info.binding(info.elf_symbols@[i]),
                    )
            },
            final(self).ingested(final(ctx).symbols(), final(ctx).merged()),
    {
        let id: usize = self.id;
        let n: usize = self.section_info.sections.len();
        let mut i: usize = 0;
        while i < n
            invariant
                i <= n,
                n == self.section_info.sections@.len(),
                n == old(self).section_info.sections@.len(),
                id == self.id,
                self.name == old(self).name,
                self.elf_header == old(self).elf_header,
                self.symbol_info == old(self).symbol_info,
                self.is_alive == old(self).is_alive,
                self.id == old(self).id,
                self.section_info.elf_sections == old(self).section_info.elf_sections,
                self.section_info.str_tab == old(self).section_info.str_tab,
                self.section_info.mergeable_sections == old(self).section_info.mergeable_sections,
                forall|k: int|
                    0 <= k < i ==> slot_owned(
                        old(self).section_info.sections@[k],
                        #[trigger] self.section_info.sections@[k],
                        id,
                    ),
                forall|k: int|
                    i <= k < n ==>
                        #[trigger] self.section_info.sections@[k]
                            == old(self).section_info.sections@[k],
            decreases n - i,
        {
            match &mut self.section_info.sections[i] {
                Some(s) => {
                    s.elf = id;
                },
                None => {},
            }
            i += 1;
        }
        let ghost owned = self.section_info.sections;
        let ghost merged0 = ctx.merged();
        self.initialize_mergeable_section(ctx);
        let ghost merged1 = ctx.merged();
        let ghost mid = *self;
        self.register_mergeable_section(ctx);
        proof {
            let merged2 = ctx.merged();
            lemma_merged_extend_trans(merged0, merged1, merged2);
            assert(models(merged1) =~= models(merged0) + Seq::new(
                (merged2.len() - merged0.len()) as nat,
                |k: int| MergedModel::empty(),
            ));
            assert forall|i: int| 0 <= i < self.section_info.sections@.len() implies (
            #[trigger] self.section_info.sections@[i] matches Some(s) ==> s.index == i && s.elf
                == self.id) by {
                assert(slot_owned(
                    old(self).section_info.sections@[i],
                    owned@[i],
                    id,
                ));
            }
            assert forall|k: int|
                merged0.len() <= k < merged2.len() implies #[trigger] self.has_view_of(k) by {
                assert(merged1[k].model() == MergedModel::empty());
                assert(mid.has_view_of(k));
                let w = choose|w: int|
                    0 <= w < mid.section_info.mergeable_sections@.len() && (
                    #[trigger] mid.section_info.mergeable_sections@[w] matches Some(m) && m.parent
                        == k + 1);
                assert(view_linked(
                    mid.section_info.mergeable_sections@[w],
                    self.section_info.mergeable_sections@[w],
                    merged2,
                ));
            }
            assert forall|j: int, q: int|
                0 <= j < self.section_info.mergeable_sections@.len() && (
                self.section_info.mergeable_sections@[j] matches Some(m) && merged0.len() < q
                    < m.parent) implies #[trigger] self.named_before(q, j) by {
                assert(view_linked(
                    mid.section_info.mergeable_sections@[j],
                    self.section_info.mergeable_sections@[j],
                    merged2,
                ));
                assert(mid.named_before(q, j));
                let w = choose|w: int|
                    0 <= w < j && w < mid.section_info.mergeable_sections@.len() && (
                    #[trigger] mid.section_info.mergeable_sections@[w] matches Some(m) && m.parent
                        == q);
                assert(view_linked(
                    mid.section_info.mergeable_sections@[w],
                    self.section_info.mergeable_sections@[w],
                    merged2,
                ));
            }
        }
    }
}

/// Whether `t` is a symbol that interning has just made and that was then
/// bound to `b`, if `b` is a fragment.
pub open spec fn entered(t: Symbol, b: Option<FragmentRef>) -> bool {
    &&& t.elf is None
    &&& t.index == 0xffff
    &&& t.value == 0
    &&& t.is_alive
    &&& t.input_section is None
    &&& t.frag == b
}

impl SymbolInfo {
    /// Whether the local symbol `i` is as ingesting leaves it: made from
    /// its record, and bound to the fragment that the record's section and
    /// value pick in `sec`, if they pick one.
    pub open spec fn local_bound(&self, sec: SectionInfo, i: int) -> bool {
        let s = self.local_symbols@[i];
        &&& s.name@ == self.name_of(i)
        &&& s.index == i
        &&& s.value == self.elf_symbols@[i].val as usize
        &&& s.elf is None
        &&& s.is_alive
        &&& s.input_section is None
        &&& s.frag == sec.binding(self.elf_symbols@[i])
    }
}

impl InputElf {
    /// How ingesting this object took the global symbols from `before` to
    /// `after`: the symbols of `before` are there under their handles, new
    /// ones may follow them, and each is bound to the fragment that the last
    /// of this object's global records with its handle binds it to.
    pub open spec fn taken_in(&self, before: Seq<Symbol>, after: Seq<Symbol>) -> bool {
        match self.symbol_info {
            Some(info) => before.len() <= after.len() && forall|h: int|
                0 <= h < after.len() ==> {
                    let b = last_binding(
                        info.global_symbols@,
                        info.elf_symbols@,
                        info.first_global as int,
                        self.section_info,
                        h,
                        info.global_symbols@.len() as int,
                    );
                    if h < before.len() {
                        rebound(before[h], #[trigger] after[h], b)
                    } else {
                        entered(after[h], b) && handle_in(info.global_symbols@, h as usize)
                    }
                },
            None => after == before,
        }
    }

    /// Whether this object is `given` as a context stores it under `id`:
    /// the same name, headers, records and liveness, every section owned by
    /// `id`, and the local symbols made and bound.
    pub open spec fn ingest_of(&self, given: InputElf, id: usize) -> bool {
        &&& self.id == id
        &&& self.name == given.name
        &&& self.elf_header == given.elf_header
        &&& self.is_alive == given.is_alive
        &&& self.section_info.elf_sections == given.section_info.elf_sections
        &&& self.section_info.str_tab == given.section_info.str_tab
        &&& self.section_info.sections@.len() == given.section_info.sections@.len()
        &&& forall|i: int|
            0 <= i < self.section_info.sections@.len() ==> slot_owned(
                given.section_info.sections@[i],
                #[trigger] self.section_info.sections@[i],
                id,
            )
        &&& match given.symbol_info {
            None => self.symbol_info is None,
            Some(g) => self.symbol_info matches Some(info) && info.same_records(g) && forall|
                i: int,
            |
                0 <= i < info.first_global ==> #[trigger] info.local_bound(self.section_info, i),
        }
    }
}

} // verus!
