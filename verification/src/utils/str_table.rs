use crate::utils::text::{latin1, latin1_string};
use vstd::prelude::*;

verus! {

/// A table of zero-terminated strings, addressed by byte offset.
pub struct StrTable {
    data: Vec<u8>,
    len: usize,
}

/// The first position at or after `from` and before `limit` that holds a
/// zero byte, or `limit` if there is none.
pub open spec fn run_end(b: Seq<u8>, from: int, limit: int) -> int
    decreases limit - from,
{
    if from >= limit || b[from] == 0 {
        from
    } else {
        run_end(b, from + 1, limit)
    }
}

/// `run_end` stops at the first zero byte, or at the limit.
pub proof fn lemma_run_end(b: Seq<u8>, from: int, limit: int)
    requires
        0 <= from <= limit <= b.len(),
    ensures
        from <= run_end(b, from, limit) <= limit,
        forall|i: int| from <= i < run_end(b, from, limit) ==> b[i] != 0,
        run_end(b, from, limit) < limit ==> b[run_end(b, from, limit)] == 0,
    decreases limit - from,
{
    if from < limit && b[from] != 0 {
        lemma_run_end(b, from + 1, limit);
    }
}

impl StrTable {
    /// The bytes of the table.
    pub closed spec fn bytes(&self) -> Seq<u8> {
        self.data@
    }

    /// Where the table ends: the stated length, or the end of the buffer if
    /// that comes first.
    pub closed spec fn limit(&self) -> int {
        if self.len <= self.data@.len() {
            self.len as int
        } else {
            self.data@.len() as int
        }
    }

    /// The bytes of the string that starts at `offset`: up to, and without,
    /// the first zero byte or the end of the table. Past the end it is empty.
    pub open spec fn spec_get(&self, offset: int) -> Seq<u8> {
        if 0 <= offset < self.limit() {
            self.bytes().subrange(offset, run_end(self.bytes(), offset, self.limit()))
        } else {
            Seq::empty()
        }
    }

    /// A table of the first `len` bytes of `data`.
    pub fn new(data: Vec<u8>, len: usize) -> (t: Self)
        ensures
            t.bytes() == data@,
            t.limit() == if len <= data@.len() {
                len as int
            } else {
                data@.len() as int
            },
    {
        Self { data, len }
    }

    /// The bytes of the table.
    pub fn data(&self) -> (d: &Vec<u8>)
        ensures
            d@ == self.bytes(),
    {
        &self.data
    }

    /// Where the string that starts at `offset` lies in the bytes of the
    /// table.
    pub fn span(&self, offset: usize) -> (r: (usize, usize))
        ensures
            r.0 <= r.1 <= self.bytes().len(),
            0 <= self.limit() <= self.bytes().len(),
            self.bytes().subrange(r.0 as int, r.1 as int) == self.spec_get(offset as int),
            forall|i: int| r.0 <= i < r.1 ==> self.bytes()[i] != 0,
            offset < self.limit() ==> r.0 == offset && (r.1 == self.limit() || self.bytes()[r.1 as int]
                == 0),
    {
        proof {
            if offset < self.limit() {
                lemma_run_end(self.data@, offset as int, self.limit());
            }
        }
        let limit: usize = if self.len <= self.data.len() {
            self.len
        } else {
            self.data.len()
        };
        if offset >= limit {
            assert(self.data@.subrange(0, 0) =~= Seq::<u8>::empty());
            return (0, 0);
        }
        let mut idx: usize = offset;
        while idx < limit && self.data[idx] != 0
            invariant
                offset <= idx <= limit <= self.data@.len(),
                run_end(self.data@, idx as int, limit as int) == run_end(
                    self.data@,
                    offset as int,
                    limit as int,
                ),
            decreases limit - idx,
        {
            idx += 1;
        }
        (offset, idx)
    }

    /// The string that starts at `offset`, one character per byte.
    pub fn get(&self, offset: usize) -> (s: String)
        ensures
            s@ == latin1(self.spec_get(offset as int)),
    {
        let limit: usize = if self.len <= self.data.len() {
            self.len
        } else {
            self.data.len()
        };
        if offset >= limit {
            let s = String::new();
            assert(s@ =~= latin1(Seq::<u8>::empty()));
            return s;
        }
        let mut idx: usize = offset;
        while idx < limit && self.data[idx] != 0
            invariant
                offset <= idx <= limit <= self.data@.len(),
                run_end(self.data@, idx as int, limit as int) == run_end(
                    self.data@,
                    offset as int,
                    limit as int,
                ),
            decreases limit - idx,
        {
            idx += 1;
        }
        latin1_string(self.data.as_slice(), offset, idx)
    }
}

} // verus!
