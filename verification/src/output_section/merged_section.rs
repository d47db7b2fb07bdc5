use crate::linker::SectionHeader;
use crate::linker::SectionType;
use crate::output_section::output_section::{OutputSection, SectionWrapper};
use vstd::prelude::*;

verus! {

/// The content of one fragment of a mergeable section: a string, or the
/// bytes of a constant.
#[derive(PartialEq, Eq, Hash, Debug)]
pub enum FragmentData {
    Str(String),
    Constant(Vec<u8>),
}

/// What a fragment's content is, as a mathematical value. Two fragments
/// are the same fragment exactly when their keys are equal.
pub enum FragmentKey {
    Str(Seq<char>),
    Constant(Seq<u8>),
}

impl View for FragmentData {
    type V = FragmentKey;

    open spec fn view(&self) -> FragmentKey {
        match self {
            FragmentData::Str(s) => FragmentKey::Str(s@),
            FragmentData::Constant(c) => FragmentKey::Constant(c@),
        }
    }
}

/// A handle of a fragment: the id of the merged section that owns it, and
/// its position among that section's fragments.
#[derive(Clone, Copy, Debug, PartialEq, Eq, Structural)]
pub struct FragmentRef {
    pub section_id: usize,
    pub index: usize,
}

/// One deduplicated fragment of a merged section.
#[derive(Clone, Copy, Debug, PartialEq, Eq, Structural)]
pub struct SectionFragment {
    pub section_id: usize,
    pub align: usize,
}

/// An output section that holds each distinct fragment once.
#[derive(Debug)]
pub struct MergedSection {
    pub section: SectionWrapper,
    /// The distinct fragment contents, in order of first insertion.
    pub keys: Vec<FragmentData>,
    /// The fragment of each key, at the same position.
    pub frags: Vec<SectionFragment>,
}

/// The position of the key `k` in `keys`, if it is there.
pub open spec fn position(keys: Seq<FragmentKey>, k: FragmentKey) -> Option<int> {
    if exists|i: int| 0 <= i < keys.len() && keys[i] == k {
        Some(choose|i: int| 0 <= i < keys.len() && keys[i] == k)
    } else {
        None
    }
}

/// Whether no key occurs twice.
pub open spec fn distinct(keys: Seq<FragmentKey>) -> bool {
    forall|i: int, j: int| 0 <= i < j < keys.len() ==> keys[i] != keys[j]
}

/// The fragments of a merged section as mathematical values: the keys in
/// order of first insertion, and the alignment of each.
pub struct MergedModel {
    pub keys: Seq<FragmentKey>,
    pub aligns: Seq<usize>,
}

impl MergedModel {
    /// Every key has an alignment, and no key occurs twice.
    pub open spec fn wf(self) -> bool {
        self.keys.len() == self.aligns.len() && distinct(self.keys)
    }

    /// The section with no fragment.
    pub open spec fn empty() -> MergedModel {
        MergedModel { keys: Seq::empty(), aligns: Seq::empty() }
    }

    /// The section after a request for the key `k` with alignment `a`: a
    /// key that is there keeps its place and has its alignment raised to
    /// `a` if that is more; a new key goes to the end with alignment `a`.
    pub open spec fn insert(self, k: FragmentKey, a: usize) -> MergedModel {
        match position(self.keys, k) {
            Some(i) => MergedModel {
                keys: self.keys,
                aligns: self.aligns.update(
                    i,
                    if self.aligns[i] < a {
                        a
                    } else {
                        self.aligns[i]
                    },
                ),
            },
            None => MergedModel { keys: self.keys.push(k), aligns: self.aligns.push(a) },
        }
    }

    /// The section after the requests `reqs`, made in order.
    pub open spec fn insert_all(self, reqs: Seq<(FragmentKey, usize)>) -> MergedModel
        decreases reqs.len(),
    {
        if reqs.len() == 0 {
            self
        } else {
            self.insert_all(reqs.drop_last()).insert(reqs.last().0, reqs.last().1)
        }
    }

    /// The alignment of the fragment for `k`, or 0 where there is none.
    pub open spec fn align_of(self, k: FragmentKey) -> int {
        match position(self.keys, k) {
            Some(i) => self.aligns[i] as int,
            None => 0,
        }
    }
}

/// The largest alignment that `reqs` asks for the key `k`, or 0 where no
/// request names `k`.
pub open spec fn max_requested(reqs: Seq<(FragmentKey, usize)>, k: FragmentKey) -> int
    decreases reqs.len(),
{
    if reqs.len() == 0 {
        0
    } else {
        let rest = max_requested(reqs.drop_last(), k);
        if reqs.last().0 == k && reqs.last().1 > rest {
            reqs.last().1 as int
        } else {
            rest
        }
    }
}

/// Whether some request of `reqs` names the key `k`.
pub open spec fn requested(reqs: Seq<(FragmentKey, usize)>, k: FragmentKey) -> bool {
    exists|i: int| 0 <= i < reqs.len() && reqs[i].0 == k
}

/// In a section where no key occurs twice, a key that stands at `i` is
/// found at `i`.
pub proof fn lemma_position(keys: Seq<FragmentKey>, i: int)
    requires
        distinct(keys),
        0 <= i < keys.len(),
    ensures
        position(keys, keys[i]) == Some(i),
{
    let j = choose|j: int| 0 <= j < keys.len() && keys[j] == keys[i];
    assert(j == i);
}

/// One request keeps the section well-formed: every key still has exactly
/// one fragment. The key asked for is there afterwards, with the larger of
/// its earlier alignment and the one asked for; every other key keeps its
/// place and alignment.
pub proof fn lemma_insert(m: MergedModel, k: FragmentKey, a: usize)
    requires
        m.wf(),
    ensures
        m.insert(k, a).wf(),
        position(m.insert(k, a).keys, k) is Some,
        m.insert(k, a).align_of(k) == if m.align_of(k) < a {
            a as int
        } else {
            m.align_of(k)
        },
        forall|o: FragmentKey|
            #![trigger position(m.keys, o)]
            o != k ==> position(m.insert(k, a).keys, o) == position(m.keys, o) && m.insert(
                k,
                a,
            ).align_of(o) == m.align_of(o),
{
    let r = m.insert(k, a);
    match position(m.keys, k) {
        Some(i) => {
            assert(r.keys == m.keys);
            assert forall|o: FragmentKey| #![trigger position(m.keys, o)] o != k implies position(
                r.keys,
                o,
            ) == position(m.keys, o) && r.align_of(o) == m.align_of(o) by {
                if position(m.keys, o) is Some {
                    let j = position(m.keys, o)->Some_0;
                    assert(m.keys[j] == o);
                    assert(j != i);
                }
            }
        },
        None => {
            let n = m.keys.len() as int;
            assert(r.keys[n] == k);
            assert(distinct(r.keys));
            lemma_position(r.keys, n);
            assert forall|o: FragmentKey| #![trigger position(m.keys, o)] o != k implies position(
                r.keys,
                o,
            ) == position(m.keys, o) && r.align_of(o) == m.align_of(o) by {
                match position(m.keys, o) {
                    Some(j) => {
                        assert(r.keys[j] == o);
                        lemma_position(r.keys, j);
                    },
                    None => {
                        if position(r.keys, o) is Some {
                            let j = position(r.keys, o)->Some_0;
                            assert(j < n);
                            assert(m.keys[j] == o);
                        }
                    },
                }
            }
        },
    }
}

/// However many requests are made, in whatever order, the section holds
/// at most one fragment for each key: one for each key that was there or
/// was asked for. Its alignment is the largest that was ever asked for that
/// key, the alignment it had at the start included.
pub proof fn lemma_alignment_is_maximum(
    m: MergedModel,
    reqs: Seq<(FragmentKey, usize)>,
    k: FragmentKey,
)
    requires
        m.wf(),
    ensures
        m.insert_all(reqs).wf(),
        position(m.insert_all(reqs).keys, k) is Some <==> (position(m.keys, k) is Some
            || requested(reqs, k)),
        m.insert_all(reqs).align_of(k) == if m.align_of(k) < max_requested(reqs, k) {
            max_requested(reqs, k)
        } else {
            m.align_of(k)
        },
    decreases reqs.len(),
{
    if reqs.len() > 0 {
        let rest = reqs.drop_last();
        lemma_alignment_is_maximum(m, rest, k);
        lemma_insert(m.insert_all(rest), reqs.last().0, reqs.last().1);
        if requested(reqs, k) {
            let i = choose|i: int| 0 <= i < reqs.len() && reqs[i].0 == k;
            if i < rest.len() {
                assert(rest[i].0 == k);
            }
        }
        if requested(rest, k) {
            let i = choose|i: int| 0 <= i < rest.len() && rest[i].0 == k;
            assert(reqs[i].0 == k);
        }
        if reqs.last().0 == k {
            assert(reqs[reqs.len() - 1].0 == k);
        }
    }
}

/// Whether the two vectors hold the same bytes.
pub fn same_bytes(a: &Vec<u8>, b: &Vec<u8>) -> (r: bool)
    ensures
        r == (a@ == b@),
{
    if a.len() != b.len() {
        return false;
    }
    let mut i: usize = 0;
    while i < a.len()
        invariant
            i <= a@.len(),
            a@.len() == b@.len(),
            forall|k: int| 0 <= k < i ==> a@[k] == b@[k],
        decreases a@.len() - i,
    {
        if a[i] != b[i] {
            return false;
        }
        i += 1;
    }
    assert(a@ =~= b@);
    true
}

impl FragmentData {
    /// Whether the two fragments have the same content.
    pub fn same(&self, other: &FragmentData) -> (b: bool)
        ensures
            b == (self@ == other@),
    {
        match self {
            FragmentData::Str(a) => match other {
                FragmentData::Str(b) => *a == *b,
                FragmentData::Constant(_) => false,
            },
            FragmentData::Constant(a) => match other {
                FragmentData::Str(_) => false,
                FragmentData::Constant(b) => same_bytes(a, b),
            },
        }
    }
}

impl Clone for FragmentData {
    /// A fragment with the same content.
    fn clone(&self) -> (r: Self)
        ensures
            r@ == self@,
    {
        match self {
            FragmentData::Str(s) => FragmentData::Str(s.clone()),
            FragmentData::Constant(c) => {
                let mut v: Vec<u8> = Vec::new();
                let mut i: usize = 0;
                while i < c.len()
                    invariant
                        i <= c@.len(),
                        v@ == c@.subrange(0, i as int),
                    decreases c@.len() - i,
                {
                    v.push(c[i]);
                    i += 1;
                    assert(v@ =~= c@.subrange(0, i as int));
                }
                assert(v@ =~= c@);
                FragmentData::Constant(v)
            },
        }
    }
}

impl SectionFragment {
    /// A fragment of the merged section `id` with the alignment `align`.
    pub fn new(id: usize, align: usize) -> (f: Self)
        ensures
            f == (SectionFragment { section_id: id, align }),
    {
        Self { section_id: id, align }
    }
}

impl OutputSection for MergedSection {
    open spec fn spec_section_header(&self) -> SectionHeader {
        self.section.elf_header
    }

    open spec fn spec_name(&self) -> Seq<char> {
        self.section.name@
    }

    open spec fn spec_is_mergeable(&self) -> bool {
        true
    }

    fn is_mergeable(&self) -> (b: bool) {
        true
    }

    fn to_mergeable(&self) -> (m: Option<&MergedSection>)
        ensures
            m == Some(self),
    {
        Some(self)
    }

    fn section_header(&self) -> (h: &SectionHeader) {
        &self.section.elf_header
    }

    fn name(&self) -> (s: String) {
        self.section.name.clone()
    }

    fn typ(&self) -> (t: SectionType) {
        self.section.elf_header._type
    }

    fn flags(&self) -> (f: u64) {
        self.section.elf_header.flags
    }
}

impl MergedSection {
    /// The keys of the section as mathematical values, in order.
    pub open spec fn key_views(&self) -> Seq<FragmentKey> {
        Seq::new(self.keys@.len(), |i: int| self.keys@[i]@)
    }

    /// The alignments of the fragments, in order.
    pub open spec fn aligns(&self) -> Seq<usize> {
        Seq::new(self.frags@.len(), |i: int| self.frags@[i].align)
    }

    /// The fragments of the section as mathematical values.
    pub open spec fn model(&self) -> MergedModel {
        MergedModel { keys: self.key_views(), aligns: self.aligns() }
    }

    /// Every key has one fragment, no key occurs twice, and every fragment
    /// belongs to this section.
    pub open spec fn wf(&self) -> bool {
        &&& self.keys@.len() == self.frags@.len()
        &&& distinct(self.key_views())
        &&& forall|i: int| 0 <= i < self.frags@.len() ==> self.frags@[i].section_id == self.section.id
    }

    /// A merged section with no fragment yet.
    pub fn new(section: SectionWrapper) -> (m: Self)
        ensures
            m.section == section,
            m.wf(),
            m.model() == MergedModel::empty(),
    {
        let m = MergedSection { section, keys: Vec::new(), frags: Vec::new() };
        assert(m.model().keys =~= Seq::<FragmentKey>::empty());
        assert(m.model().aligns =~= Seq::<usize>::empty());
        m
    }

    /// The id of the section.
    pub fn id(&self) -> (id: usize)
        ensures
            id == self.section.id,
    {
        self.section.id
    }

    /// The position of the fragment with the content of `frag`.
    pub fn find(&self, frag: &FragmentData) -> (r: Option<usize>)
        requires
            self.wf(),
        ensures
            r is Some <==> position(self.key_views(), frag@) is Some,
            r matches Some(i) ==> position(self.key_views(), frag@) == Some(i as int) && i
                < self.keys@.len(),
    {
        let mut i: usize = 0;
        while i < self.keys.len()
            invariant
                self.wf(),
                i <= self.keys@.len(),
                forall|k: int| 0 <= k < i ==> self.key_views()[k] != frag@,
            decreases self.keys@.len() - i,
        {
            if self.keys[i].same(frag) {
                proof {
                    assert(self.key_views()[i as int] == frag@);
                    lemma_position(self.key_views(), i as int);
                }
                return Some(i);
            }
            i += 1;
        }
        None
    }

    /// Asks for a fragment with the content of `frag` and the alignment
    /// `align`, and returns its position. Content that the section holds
    /// already keeps its one fragment, whose alignment becomes the larger of
    /// the two; new content gets a new fragment at the end.
    pub fn insert(&mut self, frag: &FragmentData, align: usize) -> (r: usize)
        requires
            old(self).wf(),
        ensures
            final(self).wf(),
            final(self).section == old(self).section,
            final(self).model() == old(self).model().insert(frag@, align),
            position(final(self).key_views(), frag@) == Some(r as int),
            r < final(self).frags@.len(),
            final(self).frags@.len() >= old(self).frags@.len(),
            forall|i: int|
                0 <= i < old(self).keys@.len() ==> final(self).keys@[i]@ == old(self).keys@[i]@,
    {
        proof {
            lemma_insert(self.model(), frag@, align);
        }
        match self.find(frag) {
            Some(i) => {
                let cur: SectionFragment = self.frags[i];
                if cur.align < align {
                    self.frags[i] = SectionFragment { section_id: cur.section_id, align };
                }
                assert(self.key_views() =~= old(self).key_views());
                assert(self.model().aligns =~= old(self).model().insert(frag@, align).aligns);
                i
            },
            None => {
                let r: usize = self.keys.len();
                self.keys.push(frag.clone());
                self.frags.push(SectionFragment::new(self.section.id, align));
                assert(self.model().keys =~= old(self).model().insert(frag@, align).keys);
                assert(self.model().aligns =~= old(self).model().insert(frag@, align).aligns);
                r
            },
        }
    }
}

} // verus!
