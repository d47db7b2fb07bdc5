use crate::output_section::merged_section::{FragmentData, FragmentKey};
use crate::utils::text::{bytes_to_text, text_of};
use vstd::prelude::*;
use vstd::slice::{slice_subrange, slice_to_vec};

verus! {

/// One fragment of a mergeable section before it is interned: its content
/// and where it starts in the section's bytes.
pub struct Piece {
    pub key: FragmentKey,
    pub start: int,
}

/// Whether every byte of `bytes` is zero.
pub open spec fn all_zero(bytes: Seq<u8>) -> bool {
    forall|i: int| 0 <= i < bytes.len() ==> bytes[i] == 0
}

/// Where the chunk that starts at `at` ends: `size` bytes on, or at the
/// end of the data if that comes first.
pub open spec fn chunk_end(len: int, size: int, at: int) -> int {
    if at + size <= len {
        at + size
    } else {
        len
    }
}

/// The fragments of a section of constants from `at` on: every chunk of
/// `size` bytes is one fragment, and so is a shorter chunk at the end.
pub open spec fn constant_pieces(data: Seq<u8>, size: int, at: int) -> Seq<Piece>
    decreases data.len() - at,
{
    if size <= 0 || at < 0 || at >= data.len() {
        Seq::empty()
    } else {
        let end = chunk_end(data.len() as int, size, at);
        seq![Piece { key: FragmentKey::Constant(data.subrange(at, end)), start: at }]
            + constant_pieces(data, size, end)
    }
}

/// The fragments of a section of strings from `at` on, where the chunks
/// from `start` to `at` have been read and none of them is all zero. A
/// string is the run of chunks up to the next all-zero chunk, which ends it
/// and is not part of it; an empty run is no string, and a run that no
/// all-zero chunk ends is dropped.
pub open spec fn string_pieces(data: Seq<u8>, size: int, at: int, start: int) -> Seq<Piece>
    decreases data.len() - at,
{
    if size <= 0 || at < 0 || at >= data.len() {
        Seq::empty()
    } else {
        let end = chunk_end(data.len() as int, size, at);
        if all_zero(data.subrange(at, end)) {
            if start < at {
                seq![Piece { key: FragmentKey::Str(text_of(data.subrange(start, at))), start }]
                    + string_pieces(data, size, end, end)
            } else {
                string_pieces(data, size, end, end)
            }
        } else {
            string_pieces(data, size, end, start)
        }
    }
}

/// The fragments of a mergeable section with the bytes `data` and the
/// entry size `size`, as strings or as constants. With entry size zero
/// there is none.
pub open spec fn pieces_of(data: Seq<u8>, size: int, strings: bool) -> Seq<Piece> {
    if strings {
        string_pieces(data, size, 0, 0)
    } else {
        constant_pieces(data, size, 0)
    }
}

/// Whether the two lists hold the fragments `pieces`, in order.
pub open spec fn holds_pieces(
    keys: Seq<FragmentData>,
    offsets: Seq<usize>,
    pieces: Seq<Piece>,
) -> bool {
    &&& keys.len() == pieces.len()
    &&& offsets.len() == pieces.len()
    &&& forall|i: int|
        0 <= i < pieces.len() ==> (#[trigger] keys[i])@ == pieces[i].key && offsets[i]
            == pieces[i].start
}

/// Whether the string fragment `p` is a run of bytes of `data` that an
/// all-zero chunk inside the data ends.
pub open spec fn ended_by_zero_chunk(data: Seq<u8>, size: int, p: Piece) -> bool {
    exists|z: int|
        0 <= p.start < z < data.len() && #[trigger] all_zero(
            data.subrange(z, chunk_end(data.len() as int, size, z)),
        ) && p.key == FragmentKey::Str(text_of(data.subrange(p.start, z)))
}

/// Every string fragment is ended by an all-zero chunk that lies inside
/// the data: bytes after the last such chunk make no fragment.
pub proof fn lemma_strings_end_at_zero_chunk(data: Seq<u8>, size: int, at: int, start: int)
    requires
        0 <= start <= at,
    ensures
        forall|i: int|
            0 <= i < string_pieces(data, size, at, start).len() ==> ended_by_zero_chunk(
                data,
                size,
                #[trigger] string_pieces(data, size, at, start)[i],
            ),
    decreases data.len() - at,
{
    if size <= 0 || at >= data.len() {
    } else {
        let end = chunk_end(data.len() as int, size, at);
        let all = string_pieces(data, size, at, start);
        if all_zero(data.subrange(at, end)) {
            lemma_strings_end_at_zero_chunk(data, size, end, end);
            let rest = string_pieces(data, size, end, end);
            if start < at {
                assert forall|i: int| 0 <= i < all.len() implies ended_by_zero_chunk(
                    data,
                    size,
                    #[trigger] all[i],
                ) by {
                    if i == 0 {
                        assert(all_zero(data.subrange(at, chunk_end(data.len() as int, size, at))));
                        assert(all[0].start == start);
                        assert(ended_by_zero_chunk(data, size, all[0]));
                    } else {
                        assert(all[i] == rest[i - 1]);
                        assert(ended_by_zero_chunk(data, size, rest[i - 1]));
                    }
                }
            } else {
                assert(all == rest);
            }
        } else {
            lemma_strings_end_at_zero_chunk(data, size, end, start);
            assert(all == string_pieces(data, size, end, start));
        }
    }
}

/// A section of strings whose bytes from `at` on are all zero has no
/// fragment from there on, if no string has been begun.
pub proof fn lemma_all_zero_has_no_string(data: Seq<u8>, size: int, at: int)
    requires
        0 <= at,
        forall|i: int| at <= i < data.len() ==> data[i] == 0,
    ensures
        string_pieces(data, size, at, at).len() == 0,
    decreases data.len() - at,
{
    if size <= 0 || at >= data.len() {
    } else {
        let end = chunk_end(data.len() as int, size, at);
        assert(all_zero(data.subrange(at, end)));
        lemma_all_zero_has_no_string(data, size, end);
    }
}

/// Whether the bytes `data[from..to]` are all zero.
pub fn is_all_zero(data: &[u8], from: usize, to: usize) -> (b: bool)
    requires
        from <= to <= data.len(),
    ensures
        b == all_zero(data@.subrange(from as int, to as int)),
{
    let mut i: usize = from;
    while i < to
        invariant
            from <= i <= to <= data.len(),
            forall|k: int| from <= k < i ==> data@[k] == 0,
        decreases to - i,
    {
        if data[i] != 0 {
            assert(data@.subrange(from as int, to as int)[i - from] != 0);
            return false;
        }
        i += 1;
    }
    true
}

/// Splits the bytes of a mergeable section into its fragments, and gives
/// the content and the start of each.
pub fn split_fragments(data: &[u8], ent_size: u64, strings: bool) -> (r: (
    Vec<FragmentData>,
    Vec<usize>,
))
    ensures
        holds_pieces(r.0@, r.1@, pieces_of(data@, ent_size as int, strings)),
{
    let mut keys: Vec<FragmentData> = Vec::new();
    let mut offsets: Vec<usize> = Vec::new();
    let len: usize = data.len();
    if ent_size == 0 || len == 0 {
        return (keys, offsets);
    }
    let size: usize = if ent_size >= len as u64 {
        len
    } else {
        ent_size as usize
    };
    let ghost all = pieces_of(data@, ent_size as int, strings);
    let ghost mut done: Seq<Piece> = Seq::empty();
    let mut at: usize = 0;
    let mut start: usize = 0;
    while at < len
        invariant
            len == data.len(),
            0 < size <= len,
            ent_size > 0,
            size == ent_size || (size == len && ent_size >= len),
            start <= at <= len,
            all == pieces_of(data@, ent_size as int, strings),
            holds_pieces(keys@, offsets@, done),
            strings ==> all == done + string_pieces(
                data@,
                ent_size as int,
                at as int,
                start as int,
            ),
            !strings ==> all == done + constant_pieces(data@, ent_size as int, at as int),
        decreases len - at,
    {
        let end: usize = if len - at < size {
            len
        } else {
            at + size
        };
        assert(end == chunk_end(len as int, ent_size as int, at as int));
        if strings {
            if is_all_zero(data, at, end) {
                if start < at {
                    let text = bytes_to_text(slice_subrange(data, start, at));
                    let ghost piece = Piece {
                        key: FragmentKey::Str(text@),
                        start: start as int,
                    };
                    keys.push(FragmentData::Str(text));
                    offsets.push(start);
                    proof {
                        assert(all =~= done.push(piece) + string_pieces(
                            data@,
                            ent_size as int,
                            end as int,
                            end as int,
                        ));
                        done = done.push(piece);
                    }
                }
                start = end;
            }
        } else {
            let bytes = slice_to_vec(slice_subrange(data, at, end));
            let ghost piece = Piece {
                key: FragmentKey::Constant(bytes@),
                start: at as int,
            };
            keys.push(FragmentData::Constant(bytes));
            offsets.push(at);
            proof {
                assert(all =~= done.push(piece) + constant_pieces(
                    data@,
                    ent_size as int,
                    end as int,
                ));
                done = done.push(piece);
            }
        }
        at = end;
    }
    assert(all =~= done);
    (keys, offsets)
}

} // verus!
