use crate::error::LinkError;
use vstd::prelude::*;

verus! {

/// The value of the two bytes at `at`, least significant first.
pub open spec fn le_u16(b: Seq<u8>, at: int) -> int {
    b[at] + b[at + 1] * 0x100
}

/// The value of the four bytes at `at`, least significant first.
pub open spec fn le_u32(b: Seq<u8>, at: int) -> int {
    le_u16(b, at) + le_u16(b, at + 2) * 0x1_0000
}

/// The value of the eight bytes at `at`, least significant first.
pub open spec fn le_u64(b: Seq<u8>, at: int) -> int {
    le_u32(b, at) + le_u32(b, at + 4) * 0x1_0000_0000
}

/// A record with a fixed on-disk layout.
pub trait FixedRecord: Sized {
    /// The number of bytes the record takes on disk.
    spec fn spec_size() -> nat;

    /// Whether `r` is what the bytes at `at` in `b` say, field by field.
    spec fn decodes(b: Seq<u8>, at: int, r: Self) -> bool;

    fn size() -> (n: usize)
        ensures
            n == Self::spec_size(),
    ;

    fn decode(data: &[u8], at: usize) -> (r: Self)
        requires
            at + Self::spec_size() <= data.len(),
        ensures
            Self::decodes(data@, at as int, r),
    ;
}

/// Reads the two bytes at `at` as a number.
pub fn get_u16(data: &[u8], at: usize) -> (r: u16)
    requires
        at + 2 <= data.len(),
    ensures
        r == le_u16(data@, at as int),
{
    let lo: u16 = data[at] as u16;
    let hi: u16 = data[at + 1] as u16;
    lo + hi * 0x100
}

/// Reads the four bytes at `at` as a number.
pub fn get_u32(data: &[u8], at: usize) -> (r: u32)
    requires
        at + 4 <= data.len(),
    ensures
        r == le_u32(data@, at as int),
{
    let lo: u32 = get_u16(data, at) as u32;
    let hi: u32 = get_u16(data, at + 2) as u32;
    lo + hi * 0x1_0000
}

/// Reads the eight bytes at `at` as a number.
pub fn get_u64(data: &[u8], at: usize) -> (r: u64)
    requires
        at + 8 <= data.len(),
    ensures
        r == le_u64(data@, at as int),
{
    let lo: u64 = get_u32(data, at) as u64;
    let hi: u64 = get_u32(data, at + 4) as u64;
    lo + hi * 0x1_0000_0000
}

/// Reads one record at the cursor and moves the cursor past it. When fewer
/// bytes remain than the record takes, nothing is read and the cursor stays.
pub fn read_struct<T: FixedRecord>(data: &[u8], cursor: &mut usize) -> (r: Result<T, LinkError>)
    ensures
        old(cursor) + T::spec_size() <= data@.len() ==> r is Ok && T::decodes(
            data@,
            *old(cursor) as int,
            r->Ok_0,
        ) && *final(cursor) == *old(cursor) + T::spec_size(),
        old(cursor) + T::spec_size() > data@.len() ==> r == Err::<T, LinkError>(
            LinkError::ShortRead,
        ) && *final(cursor) == *old(cursor),
{
    let n: usize = T::size();
    let at: usize = *cursor;
    if at > data.len() || n > data.len() - at {
        return Err(LinkError::ShortRead);
    }
    let r = T::decode(data, at);
    *cursor = at + n;
    Ok(r)
}

} // verus!
