use crate::error::LinkError;
use crate::utils::read_struct::{get_u16, le_u16, read_struct, FixedRecord};
use crate::utils::str_table::{run_end, StrTable};
use crate::utils::text::{
    decimal_field, latin1, latin1_string, lemma_trim_bounds, parse_decimal, trim_range, trimmed,
};
use vstd::prelude::*;
use vstd::slice::{slice_subrange, slice_to_vec};
use vstd::string::StringExecFns;

verus! {

/// Finds archives in the library directories and takes them apart.
pub struct Parser {
    pub libraries: Option<Vec<String>>,
}

/// The 60-byte header that stands before every member of an archive.
#[derive(Debug)]
pub struct ArchiveEntry {
    pub file_name: [u8; 16],
    pub timestamp: [u8; 12],
    pub owner_id: [u8; 6],
    pub group_id: [u8; 6],
    pub file_mode: [u8; 8],
    pub file_size: [u8; 10],
    pub end_marker: u16,
}

/// One member of an archive: its name and its bytes.
#[derive(Debug)]
pub struct ArchiveMember {
    pub name: String,
    pub data: Vec<u8>,
}

/// A member of an archive as a mathematical value.
pub struct MemberView {
    pub name: Seq<char>,
    pub data: Seq<u8>,
}

impl View for ArchiveMember {
    type V = MemberView;

    open spec fn view(&self) -> MemberView {
        MemberView { name: self.name@, data: self.data@ }
    }
}

/// The eight bytes that every archive begins with: `!<arch>` and a line feed.
pub open spec fn signature() -> Seq<u8> {
    seq![0x21u8, 0x3c, 0x61, 0x72, 0x63, 0x68, 0x3e, 0x0a]
}

/// Whether the name field is that of the archive's symbol table: a slash
/// and a blank.
pub open spec fn is_symbol_table_name(name: Seq<u8>) -> bool {
    name[0] == 0x2f && name[1] == 0x20
}

/// Whether the name field is that of the archive's string table: two
/// slashes and a blank.
pub open spec fn is_string_table_name(name: Seq<u8>) -> bool {
    name[0] == 0x2f && name[1] == 0x2f && name[2] == 0x20
}

/// The bytes of the string that starts at `off` in the string table `t`:
/// up to, and without, the first zero byte or the end of the table.
pub open spec fn text_at(t: Seq<u8>, off: int) -> Seq<u8> {
    if 0 <= off < t.len() {
        t.subrange(off, run_end(t, off, t.len() as int))
    } else {
        Seq::empty()
    }
}

/// The name of the member with the name field `name`, where `table` is
/// the string table that was last seen. A field that begins with a slash
/// holds the offset of the name in the string table; any other field holds
/// the name itself. White space at the two ends is no part of the name.
pub open spec fn member_name(name: Seq<u8>, table: Option<Seq<u8>>) -> Result<Seq<char>, LinkError> {
    if name[0] == 0x2f && !is_symbol_table_name(name) && !is_string_table_name(name) {
        match table {
            None => Err(LinkError::MissingStringTable),
            Some(t) => match decimal_field(name, 1, 16) {
                None => Err(LinkError::TruncatedArchive),
                Some(off) => Ok(
                    latin1(trimmed(text_at(t, off as int), 0, text_at(t, off as int).len() as int)),
                ),
            },
        }
    } else {
        Ok(latin1(trimmed(name, 0, 16)))
    }
}

/// Where the member after one that ends at `end` begins, in a file of
/// `len` bytes: at the next even position, the end of the file at most.
pub open spec fn next_member(end: int, len: int) -> int {
    if end % 2 == 0 || end >= len {
        end
    } else {
        end + 1
    }
}

/// The members of the archive `b` from the header at `at` on, where
/// `table` is the string table that was last seen. The symbol table is left
/// out, and a string table is no member but the table for the names after it.
pub open spec fn members_from(b: Seq<u8>, at: int, table: Option<Seq<u8>>) -> Result<
    Seq<MemberView>,
    LinkError,
>
    decreases b.len() - at,
{
    if at < 0 || at >= b.len() {
        Ok(Seq::empty())
    } else if at + 60 > b.len() {
        Err(LinkError::TruncatedArchive)
    } else {
        match decimal_field(b.subrange(at + 48, at + 58), 0, 10) {
            None => Err(LinkError::TruncatedArchive),
            Some(size) => if at + 60 + size > b.len() {
                Err(LinkError::TruncatedArchive)
            } else {
                let name = b.subrange(at, at + 16);
                let payload = b.subrange(at + 60, at + 60 + size);
                let next = next_member(at + 60 + size, b.len() as int);
                if is_symbol_table_name(name) {
                    members_from(b, next, table)
                } else if is_string_table_name(name) {
                    members_from(b, next, Some(payload))
                } else {
                    match member_name(name, table) {
                        Err(e) => Err(e),
                        Ok(n) => match members_from(b, next, table) {
                            Err(e) => Err(e),
                            Ok(rest) => Ok(seq![MemberView { name: n, data: payload }] + rest),
                        },
                    }
                }
            },
        }
    }
}

/// Where the headers of the members of `members_from` stand in the file.
pub open spec fn member_offsets(b: Seq<u8>, at: int, table: Option<Seq<u8>>) -> Seq<int>
    decreases b.len() - at,
{
    if at < 0 || at >= b.len() || at + 60 > b.len() {
        Seq::empty()
    } else {
        match decimal_field(b.subrange(at + 48, at + 58), 0, 10) {
            None => Seq::empty(),
            Some(size) => if at + 60 + size > b.len() {
                Seq::empty()
            } else {
                let name = b.subrange(at, at + 16);
                let payload = b.subrange(at + 60, at + 60 + size);
                let next = next_member(at + 60 + size, b.len() as int);
                if is_symbol_table_name(name) {
                    member_offsets(b, next, table)
                } else if is_string_table_name(name) {
                    member_offsets(b, next, Some(payload))
                } else {
                    seq![at] + member_offsets(b, next, table)
                }
            },
        }
    }
}

/// The members of the archive `b`, or why it cannot be taken apart.
pub open spec fn archive_members(b: Seq<u8>) -> Result<Seq<MemberView>, LinkError> {
    if b.len() < 8 || b.subrange(0, 8) != signature() {
        Err(LinkError::BadArchiveSignature)
    } else {
        members_from(b, 8, None)
    }
}

/// The members come out in the order in which they stand in the file:
/// each is the payload behind its header, the headers stand at rising
/// positions, and none of them is the symbol table.
pub proof fn lemma_members_in_file_order(b: Seq<u8>, at: int, table: Option<Seq<u8>>)
    requires
        0 <= at,
        members_from(b, at, table) is Ok,
    ensures
        member_offsets(b, at, table).len() == members_from(b, at, table)->Ok_0.len(),
        forall|i: int|
            0 <= i < member_offsets(b, at, table).len() ==> {
                let off = #[trigger] member_offsets(b, at, table)[i];
                let m = members_from(b, at, table)->Ok_0[i];
                &&& at <= off
                &&& off + 60 + m.data.len() <= b.len()
                &&& m.data == b.subrange(off + 60, off + 60 + m.data.len())
                &&& !is_symbol_table_name(b.subrange(off, off + 16))
            },
        forall|i: int, j: int|
            0 <= i < j < member_offsets(b, at, table).len() ==> member_offsets(b, at, table)[i]
                < member_offsets(b, at, table)[j],
    decreases b.len() - at,
{
    if at >= b.len() {
    } else {
        let size = decimal_field(b.subrange(at + 48, at + 58), 0, 10)->Some_0;
        let name = b.subrange(at, at + 16);
        let payload = b.subrange(at + 60, at + 60 + size);
        let next = next_member(at + 60 + size, b.len() as int);
        let offs = member_offsets(b, at, table);
        let ms = members_from(b, at, table)->Ok_0;
        if is_symbol_table_name(name) {
            lemma_members_in_file_order(b, next, table);
        } else if is_string_table_name(name) {
            lemma_members_in_file_order(b, next, Some(payload));
        } else {
            lemma_members_in_file_order(b, next, table);
            let rest_offs = member_offsets(b, next, table);
            let rest = members_from(b, next, table)->Ok_0;
            assert(offs == seq![at] + rest_offs);
            assert forall|i: int| 0 <= i < offs.len() implies {
                let off = #[trigger] offs[i];
                let m = ms[i];
                &&& at <= off
                &&& off + 60 + m.data.len() <= b.len()
                &&& m.data == b.subrange(off + 60, off + 60 + m.data.len())
                &&& !is_symbol_table_name(b.subrange(off, off + 16))
            } by {
                if i > 0 {
                    assert(offs[i] == rest_offs[i - 1]);
                    assert(ms[i] == rest[i - 1]);
                }
            }
            assert forall|i: int, j: int| 0 <= i < j < offs.len() implies offs[i] < offs[j] by {
                assert(offs[j] == rest_offs[j - 1]);
                if i > 0 {
                    assert(offs[i] == rest_offs[i - 1]);
                }
            }
        }
    }
}

/// The bytes of the table that names can be looked up in: the buffer up
/// to the table's stated length.
pub open spec fn table_view(t: Option<StrTable>) -> Option<Seq<u8>> {
    match t {
        Some(t) => Some(t.bytes().take(t.limit())),
        None => None,
    }
}

/// A string of a table ends where it does whether or not the bytes past
/// the limit are looked at.
pub proof fn lemma_run_end_take(b: Seq<u8>, from: int, limit: int)
    requires
        0 <= from <= limit <= b.len(),
    ensures
        run_end(b.take(limit), from, limit) == run_end(b, from, limit),
        from <= run_end(b, from, limit) <= limit,
    decreases limit - from,
{
    if from < limit && b[from] != 0 {
        lemma_run_end_take(b, from + 1, limit);
    }
}

/// Copies `N` bytes out of `data`, from `at` on.
pub fn take_array<const N: usize>(data: &[u8], at: usize) -> (r: [u8; N])
    requires
        at + N <= data.len(),
    ensures
        r@ == data@.subrange(at as int, at + N),
{
    let mut r: [u8; N] = [0u8; N];
    let mut i: usize = 0;
    while i < N
        invariant
            i <= N,
            at + N <= data.len(),
            forall|k: int| 0 <= k < i ==> r@[k] == data@[at + k],
        decreases N - i,
    {
        r[i] = data[at + i];
        i += 1;
    }
    assert(r@ =~= data@.subrange(at as int, at + N));
    r
}

impl FixedRecord for ArchiveEntry {
    open spec fn spec_size() -> nat {
        60
    }

    open spec fn decodes(b: Seq<u8>, at: int, r: Self) -> bool {
        &&& r.file_name@ == b.subrange(at, at + 16)
        &&& r.timestamp@ == b.subrange(at + 16, at + 28)
        &&& r.owner_id@ == b.subrange(at + 28, at + 34)
        &&& r.group_id@ == b.subrange(at + 34, at + 40)
        &&& r.file_mode@ == b.subrange(at + 40, at + 48)
        &&& r.file_size@ == b.subrange(at + 48, at + 58)
        &&& r.end_marker == le_u16(b, at + 58)
    }

    fn size() -> (n: usize) {
        60
    }

    fn decode(data: &[u8], at: usize) -> (r: Self) {
        ArchiveEntry {
            file_name: take_array::<16>(data, at),
            timestamp: take_array::<12>(data, at + 16),
            owner_id: take_array::<6>(data, at + 28),
            group_id: take_array::<6>(data, at + 34),
            file_mode: take_array::<8>(data, at + 40),
            file_size: take_array::<10>(data, at + 48),
            end_marker: get_u16(data, at + 58),
        }
    }
}

impl ArchiveEntry {
    /// The size of the member's payload, if the size field holds a number.
    pub fn get_size(&self) -> (r: Result<usize, LinkError>)
        ensures
            match decimal_field(self.file_size@, 0, 10) {
                Some(n) => r == Ok::<usize, LinkError>(n),
                None => r == Err::<usize, LinkError>(LinkError::TruncatedArchive),
            },
    {
        match parse_decimal(self.file_size.as_slice(), 0, 10) {
            Some(n) => Ok(n),
            None => Err(LinkError::TruncatedArchive),
        }
    }

    /// The name of the member, looked up in `string_table` where the name
    /// field holds an offset.
    pub fn get_name(&self, string_table: &Option<StrTable>) -> (r: Result<String, LinkError>)
        ensures
            match member_name(self.file_name@, table_view(*string_table)) {
                Ok(n) => r matches Ok(s) && s@ == n,
                Err(e) => r == Err::<String, LinkError>(e),
            },
    {
        if !self.is_string_table() && !self.is_symbol_table() && self.file_name[0] == 0x2f {
            match string_table {
                Some(table) => {
                    match parse_decimal(self.file_name.as_slice(), 1, 16) {
                        Some(offset) => {
                            let (from, to) = table.span(offset);
                            let bytes = table.data();
                            let (lo, hi) = trim_range(bytes.as_slice(), from, to);
                            proof {
                                let t = table.bytes().take(table.limit());
                                let run = text_at(t, offset as int);
                                if offset < table.limit() {
                                    lemma_run_end_take(
                                        table.bytes(),
                                        offset as int,
                                        table.limit(),
                                    );
                                    assert(run =~= table.bytes().subrange(from as int, to as int));
                                } else {
                                    assert(run =~= table.bytes().subrange(from as int, to as int));
                                }
                                lemma_trimmed_of_subrange(bytes@, from as int, to as int);
                            }
                            Ok(latin1_string(bytes.as_slice(), lo, hi))
                        },
                        None => Err(LinkError::TruncatedArchive),
                    }
                },
                None => Err(LinkError::MissingStringTable),
            }
        } else {
            let (lo, hi) = trim_range(self.file_name.as_slice(), 0, 16);
            Ok(latin1_string(self.file_name.as_slice(), lo, hi))
        }
    }

    /// Whether the name field begins with the bytes of `s`.
    pub fn has_prefix(&self, s: &[u8]) -> (b: bool)
        requires
            s@.len() <= 16,
        ensures
            b == (forall|i: int| 0 <= i < s@.len() ==> self.file_name@[i] == s@[i]),
    {
        let mut i: usize = 0;
        while i < s.len()
            invariant
                i <= s@.len() <= 16,
                forall|k: int| 0 <= k < i ==> self.file_name@[k] == s@[k],
            decreases s@.len() - i,
        {
            if self.file_name[i] != s[i] {
                return false;
            }
            i += 1;
        }
        true
    }

    /// Whether this is the header of the archive's symbol table.
    pub fn is_symbol_table(&self) -> (b: bool)
        ensures
            b == is_symbol_table_name(self.file_name@),
    {
        let prefix: [u8; 2] = [0x2f, 0x20];
        self.has_prefix(prefix.as_slice())
    }

    /// Whether this is the header of the archive's string table.
    pub fn is_string_table(&self) -> (b: bool)
        ensures
            b == is_string_table_name(self.file_name@),
    {
        let prefix: [u8; 3] = [0x2f, 0x2f, 0x20];
        self.has_prefix(prefix.as_slice())
    }
}

/// Trimming a range of bytes is trimming the bytes of that range.
pub proof fn lemma_trimmed_of_subrange(b: Seq<u8>, from: int, to: int)
    requires
        0 <= from <= to <= b.len(),
    ensures
        trimmed(b.subrange(from, to), 0, to - from) == trimmed(b, from, to),
{
    let s = b.subrange(from, to);
    lemma_first_shift(b, from, to, from);
    lemma_trim_bounds(b, from, to);
    let lo = crate::utils::text::first_non_space(b, from, to);
    lemma_last_shift(b, from, to, lo, to);
    assert(s.subrange(lo - from, crate::utils::text::last_non_space_end(b, lo, to) - from)
        =~= b.subrange(lo, crate::utils::text::last_non_space_end(b, lo, to)));
}

/// Where the leading white space of a range ends does not depend on where
/// the range lies in a longer run of bytes.
pub proof fn lemma_first_shift(b: Seq<u8>, base: int, to: int, at: int)
    requires
        0 <= base <= at <= to <= b.len(),
    ensures
        crate::utils::text::first_non_space(b.subrange(base, to), at - base, to - base)
            == crate::utils::text::first_non_space(b, at, to) - base,
    decreases to - at,
{
    if at < to {
        assert(b.subrange(base, to)[at - base] == b[at]);
        if crate::utils::text::is_space(b[at]) {
            lemma_first_shift(b, base, to, at + 1);
        }
    }
}

/// Where the trailing white space of a range begins does not depend on
/// where the range lies in a longer run of bytes.
pub proof fn lemma_last_shift(b: Seq<u8>, base: int, end: int, lo: int, to: int)
    requires
        0 <= base <= lo <= to <= end <= b.len(),
    ensures
        crate::utils::text::last_non_space_end(b.subrange(base, end), lo - base, to - base)
            == crate::utils::text::last_non_space_end(b, lo, to) - base,
    decreases to - lo,
{
    if lo < to {
        assert(b.subrange(base, end)[to - 1 - base] == b[to - 1]);
        if crate::utils::text::is_space(b[to - 1]) {
            lemma_last_shift(b, base, end, lo, to - 1);
        }
    }
}

/// The members `done`, followed by what `rest` gives, or the error of
/// `rest`.
pub open spec fn followed_by(done: Seq<MemberView>, rest: Result<Seq<MemberView>, LinkError>) -> Result<
    Seq<MemberView>,
    LinkError,
> {
    match rest {
        Ok(more) => Ok(done + more),
        Err(e) => Err(e),
    }
}

/// The members of a list as mathematical values.
pub open spec fn member_views(v: Seq<ArchiveMember>) -> Seq<MemberView> {
    Seq::new(v.len(), |i: int| v[i]@)
}

/// The index of the first `true` in `found`, from `from` on.
pub open spec fn first_true(found: Seq<bool>, from: int) -> Option<int>
    decreases found.len() - from,
{
    if from < 0 || from >= found.len() {
        None
    } else if found[from] {
        Some(from)
    } else {
        first_true(found, from + 1)
    }
}

impl Parser {
    /// A parser that looks for archives in the directories `libraries`, in
    /// order.
    pub fn new(libraries: Option<Vec<String>>) -> (p: Self)
        ensures
            p.libraries == libraries,
    {
        Self { libraries }
    }

    /// The name of the file that holds the library `archive`: `lib`, the
    /// name, and `.a`.
    pub fn file_name(archive: &str) -> (s: String)
        ensures
            s@ == "lib"@ + archive@ + ".a"@,
    {
        let mut s = String::from_str("lib");
        s.append(archive);
        s.append(".a");
        s
    }

    /// Which library directory an archive is taken from, where `found`
    /// says of each directory, in order, whether it holds the archive's file:
    /// the first that does. Fails where no directory does, or none is given.
    pub fn select(&self, found: &Vec<bool>) -> (r: Result<usize, LinkError>)
        ensures
            match r {
                Ok(i) => self.libraries is Some && first_true(found@, 0) == Some(i as int) && i
                    < found@.len(),
                Err(e) => e == LinkError::ArchiveNotFound && (self.libraries is None || first_true(
                    found@,
                    0,
                ) is None),
            },
    {
        if self.libraries.is_none() {
            return Err(LinkError::ArchiveNotFound);
        }
        let mut i: usize = 0;
        while i < found.len()
            invariant
                self.libraries is Some,
                i <= found@.len(),
                first_true(found@, i as int) == first_true(found@, 0),
            decreases found@.len() - i,
        {
            if found[i] {
                return Ok(i);
            }
            i += 1;
        }
        Err(LinkError::ArchiveNotFound)
    }

    /// Takes an archive apart: checks the signature, then reads member
    /// after member. The symbol table is left out, a string table serves the
    /// names after it, and every other member is given with its name and
    /// bytes, in the order of the file.
    pub fn parse_inner(data: &[u8]) -> (r: Result<Vec<ArchiveMember>, LinkError>)
        ensures
            match archive_members(data@) {
                Ok(ms) => r matches Ok(v) && member_views(v@) == ms,
                Err(e) => r == Err::<Vec<ArchiveMember>, LinkError>(e),
            },
    {
        let total: usize = data.len();
        if total < 8 {
            return Err(LinkError::BadArchiveSignature);
        }
        if !(data[0] == 0x21 && data[1] == 0x3c && data[2] == 0x61 && data[3] == 0x72 && data[4]
            == 0x63 && data[5] == 0x68 && data[6] == 0x3e && data[7] == 0x0a) {
            proof {
                let head = data@.subrange(0, 8);
                assert(head[0] == data@[0] && head[1] == data@[1] && head[2] == data@[2] && head[3]
                    == data@[3] && head[4] == data@[4] && head[5] == data@[5] && head[6]
                    == data@[6] && head[7] == data@[7]);
            }
            return Err(LinkError::BadArchiveSignature);
        }
        assert(data@.subrange(0, 8) =~= signature());
        let mut string_table: Option<StrTable> = None;
        let mut members: Vec<ArchiveMember> = Vec::new();
        let mut pos: usize = 8;
        proof {
            assert(member_views(members@) =~= Seq::<MemberView>::empty());
            assert(followed_by(member_views(members@), members_from(data@, 8, None))
                == members_from(data@, 8, None)) by {
                if members_from(data@, 8, None) is Ok {
                    assert(Seq::<MemberView>::empty() + members_from(data@, 8, None)->Ok_0
                        =~= members_from(data@, 8, None)->Ok_0);
                }
            }
        }
        while pos < total
            invariant
                8 <= pos <= total,
                total == data.len(),
                archive_members(data@) == followed_by(
                    member_views(members@),
                    members_from(data@, pos as int, table_view(string_table)),
                ),
            decreases total - pos,
        {
            let ghost at = pos as int;
            let ghost done = member_views(members@);
            let ghost table = table_view(string_table);
            let archive_entry: ArchiveEntry = match read_struct::<ArchiveEntry>(data, &mut pos) {
                Ok(e) => e,
                Err(_) => {
                    return Err(LinkError::TruncatedArchive);
                },
            };
            let size: usize = match archive_entry.get_size() {
                Ok(n) => n,
                Err(e) => {
                    return Err(e);
                },
            };
            if size > total - pos {
                return Err(LinkError::TruncatedArchive);
            }
            let payload = slice_to_vec(slice_subrange(data, pos, pos + size));
            pos = pos + size;
            if pos % 2 != 0 && pos < total {
                pos += 1;
            }
            assert(pos == next_member(at + 60 + size, total as int));
            if archive_entry.is_symbol_table() {
                // the symbol table of the archive is not a member
            } else if archive_entry.is_string_table() {
                let len: usize = payload.len();
                string_table = Some(StrTable::new(payload, len));
                proof {
                    let t = string_table->Some_0;
                    assert(t.bytes().take(t.limit()) =~= t.bytes());
                }
            } else {
                let name = match archive_entry.get_name(&string_table) {
                    Ok(n) => n,
                    Err(e) => {
                        return Err(e);
                    },
                };
                let ghost view = MemberView { name: name@, data: payload@ };
                members.push(ArchiveMember { name, data: payload });
                proof {
                    assert(member_views(members@) =~= done.push(view));
                    let rest = members_from(data@, pos as int, table);
                    if rest is Ok {
                        assert(done + (seq![view] + rest->Ok_0) =~= done.push(view) + rest->Ok_0);
                    }
                }
            }
        }
        proof {
            assert(member_views(members@) + Seq::<MemberView>::empty() =~= member_views(members@));
        }
        Ok(members)
    }
}

} // verus!
