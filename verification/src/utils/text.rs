use vstd::prelude::*;

verus! {

/// The text that shows each byte as the character with the same number.
pub open spec fn latin1(bytes: Seq<u8>) -> Seq<char> {
    Seq::new(bytes.len(), |i: int| bytes[i] as char)
}

/// `String::push` of the standard library: the string grows by the one
/// character at its end, and nothing else in it changes.
#[verifier::external_body]
fn push_char(s: &mut String, c: char)
    ensures
        final(s)@ == old(s)@.push(c),
{
    s.push(c)
}

/// `std::str::from_utf8`: succeeds exactly on well-formed UTF-8, and the
/// text it gives is the decoding of those bytes.
#[verifier::external_body]
fn utf8_text(bytes: &[u8]) -> (r: Option<String>)
    ensures
        r is Some <==> vstd::utf8::valid_utf8(bytes@),
        r matches Some(s) ==> s@ == vstd::utf8::decode_utf8(bytes@),
{
    match std::str::from_utf8(bytes) {
        Ok(s) => Some(s.to_string()),
        Err(_) => None,
    }
}

/// The bytes `data[from..to]` as text, one character per byte.
pub fn latin1_string(data: &[u8], from: usize, to: usize) -> (s: String)
    requires
        from <= to <= data.len(),
    ensures
        s@ == latin1(data@.subrange(from as int, to as int)),
{
    let mut s = String::new();
    let mut i: usize = from;
    while i < to
        invariant
            from <= i <= to <= data.len(),
            s@ == latin1(data@.subrange(from as int, i as int)),
        decreases to - i,
    {
        push_char(&mut s, data[i] as char);
        i += 1;
        assert(s@ =~= latin1(data@.subrange(from as int, i as int)));
    }
    s
}

/// What a run of bytes reads as: its UTF-8 decoding where it is well-formed
/// UTF-8, and one character per byte where it is not.
pub open spec fn text_of(bytes: Seq<u8>) -> Seq<char> {
    if vstd::utf8::valid_utf8(bytes) {
        vstd::utf8::decode_utf8(bytes)
    } else {
        latin1(bytes)
    }
}

/// Reads a run of bytes as text. No byte is lost: bytes that are not
/// well-formed UTF-8 are shown one character per byte.
pub fn bytes_to_text(bytes: &[u8]) -> (s: String)
    ensures
        s@ == text_of(bytes@),
{
    match utf8_text(bytes) {
        Some(s) => s,
        None => {
            let s = latin1_string(bytes, 0, bytes.len());
            assert(bytes@.subrange(0, bytes.len() as int) =~= bytes@);
            s
        },
    }
}

} // verus!

verus! {

/// Whether the byte is ASCII white space: a blank, or one of the control
/// characters from tab to carriage return.
pub open spec fn is_space(b: u8) -> bool {
    b == 0x20 || (0x09 <= b <= 0x0d)
}

/// The first position from `from` on, and before `to`, that holds no white
/// space, or `to` where there is none.
pub open spec fn first_non_space(b: Seq<u8>, from: int, to: int) -> int
    decreases to - from,
{
    if from >= to || !is_space(b[from]) {
        from
    } else {
        first_non_space(b, from + 1, to)
    }
}

/// The end of the last run that ends before `to`, begins at or after
/// `from`, and does not end in white space.
pub open spec fn last_non_space_end(b: Seq<u8>, from: int, to: int) -> int
    decreases to - from,
{
    if to <= from || !is_space(b[to - 1]) {
        to
    } else {
        last_non_space_end(b, from, to - 1)
    }
}

/// The bytes `b[from..to]` without the white space at their two ends.
pub open spec fn trimmed(b: Seq<u8>, from: int, to: int) -> Seq<u8> {
    b.subrange(
        first_non_space(b, from, to),
        last_non_space_end(b, first_non_space(b, from, to), to),
    )
}

/// Whether every byte is a decimal digit.
pub open spec fn all_digits(d: Seq<u8>) -> bool {
    forall|i: int| 0 <= i < d.len() ==> 0x30 <= #[trigger] d[i] <= 0x39
}

/// The number that the decimal digits `d` write.
pub open spec fn decimal_value(d: Seq<u8>) -> int
    decreases d.len(),
{
    if d.len() == 0 {
        0
    } else {
        10 * decimal_value(d.drop_last()) + (d.last() - 0x30)
    }
}

/// The number that the field `b[from..to]` holds: decimal digits, with
/// white space before and after them and nowhere else. There is none where
/// the field holds no digit or anything else, or a number too large for a
/// machine word.
pub open spec fn decimal_field(b: Seq<u8>, from: int, to: int) -> Option<usize> {
    let d = trimmed(b, from, to);
    if d.len() > 0 && all_digits(d) && decimal_value(d) <= usize::MAX {
        Some(decimal_value(d) as usize)
    } else {
        None
    }
}

/// Where the white space at the two ends of `b[from..to]` ends and begins.
pub proof fn lemma_trim_bounds(b: Seq<u8>, from: int, to: int)
    requires
        from <= to,
    ensures
        from <= first_non_space(b, from, to) <= to,
        first_non_space(b, from, to) <= last_non_space_end(
            b,
            first_non_space(b, from, to),
            to,
        ) <= to,
    decreases to - from,
{
    lemma_first_non_space(b, from, to);
    lemma_last_non_space_end(b, first_non_space(b, from, to), to);
}

/// The leading white space ends inside the range.
pub proof fn lemma_first_non_space(b: Seq<u8>, from: int, to: int)
    requires
        from <= to,
    ensures
        from <= first_non_space(b, from, to) <= to,
    decreases to - from,
{
    if from < to && is_space(b[from]) {
        lemma_first_non_space(b, from + 1, to);
    }
}

/// The trailing white space begins inside the range.
pub proof fn lemma_last_non_space_end(b: Seq<u8>, from: int, to: int)
    requires
        from <= to,
    ensures
        from <= last_non_space_end(b, from, to) <= to,
    decreases to - from,
{
    if from < to && is_space(b[to - 1]) {
        lemma_last_non_space_end(b, from, to - 1);
    }
}

/// A number does not get smaller when digits are written after it.
pub proof fn lemma_decimal_grows(d: Seq<u8>, n: int)
    requires
        all_digits(d),
        0 <= n <= d.len(),
    ensures
        0 <= decimal_value(d.take(n)) <= decimal_value(d),
    decreases d.len() - n,
{
    if n == d.len() {
        assert(d.take(n) =~= d);
        lemma_decimal_nonneg(d);
    } else {
        lemma_decimal_grows(d, n + 1);
        let longer = d.take(n + 1);
        assert(longer.drop_last() =~= d.take(n));
        assert(0x30 <= longer.last() <= 0x39) by {
            assert(longer.last() == d[n]);
        }
        assert(all_digits(d.take(n))) by {
            assert forall|i: int| 0 <= i < d.take(n).len() implies 0x30 <= #[trigger] d.take(n)[i]
                <= 0x39 by {
                assert(d.take(n)[i] == d[i]);
            }
        }
        lemma_decimal_nonneg(d.take(n));
    }
}

/// Digits write a number that is not negative.
pub proof fn lemma_decimal_nonneg(d: Seq<u8>)
    requires
        all_digits(d),
    ensures
        decimal_value(d) >= 0,
    decreases d.len(),
{
    if d.len() > 0 {
        assert(all_digits(d.drop_last())) by {
            assert forall|i: int| 0 <= i < d.drop_last().len() implies 0x30
                <= #[trigger] d.drop_last()[i] <= 0x39 by {
                assert(d.drop_last()[i] == d[i]);
            }
        }
        lemma_decimal_nonneg(d.drop_last());
        assert(0x30 <= d.last() <= 0x39) by {
            assert(d.last() == d[d.len() - 1]);
        }
    }
}

/// Where `data[from..to]` begins and ends once the white space at its two
/// ends is left out.
pub fn trim_range(data: &[u8], from: usize, to: usize) -> (r: (usize, usize))
    requires
        from <= to <= data.len(),
    ensures
        from <= r.0 <= r.1 <= to,
        r.0 == first_non_space(data@, from as int, to as int),
        r.1 == last_non_space_end(data@, r.0 as int, to as int),
        data@.subrange(r.0 as int, r.1 as int) == trimmed(data@, from as int, to as int),
{
    let mut lo: usize = from;
    while lo < to && (data[lo] == 0x20 || (0x09 <= data[lo] && data[lo] <= 0x0d))
        invariant
            from <= lo <= to <= data.len(),
            first_non_space(data@, lo as int, to as int) == first_non_space(
                data@,
                from as int,
                to as int,
            ),
        decreases to - lo,
    {
        lo += 1;
    }
    let mut hi: usize = to;
    while hi > lo && (data[hi - 1] == 0x20 || (0x09 <= data[hi - 1] && data[hi - 1] <= 0x0d))
        invariant
            lo <= hi <= to <= data.len(),
            last_non_space_end(data@, lo as int, hi as int) == last_non_space_end(
                data@,
                lo as int,
                to as int,
            ),
        decreases hi - lo,
    {
        hi -= 1;
    }
    (lo, hi)
}

/// The number that the field `data[from..to]` holds.
pub fn parse_decimal(data: &[u8], from: usize, to: usize) -> (r: Option<usize>)
    requires
        from <= to <= data.len(),
    ensures
        r == decimal_field(data@, from as int, to as int),
{
    let (lo, hi) = trim_range(data, from, to);
    if lo == hi {
        return None;
    }
    let ghost d = data@.subrange(lo as int, hi as int);
    let mut acc: usize = 0;
    let mut i: usize = lo;
    while i < hi
        invariant
            lo <= i <= hi <= data.len(),
            d == data@.subrange(lo as int, hi as int),
            d == trimmed(data@, from as int, to as int),
            all_digits(d.take(i - lo)),
            acc == decimal_value(d.take(i - lo)),
        decreases hi - i,
    {
        let b: u8 = data[i];
        if b < 0x30 || b > 0x39 {
            assert(d[i - lo] == b);
            return None;
        }
        let digit: usize = (b - 0x30) as usize;
        proof {
            let longer = d.take(i - lo + 1);
            assert(longer.drop_last() =~= d.take(i - lo));
            assert(longer.last() == b);
            assert(all_digits(longer)) by {
                assert forall|k: int| 0 <= k < longer.len() implies 0x30 <= #[trigger] longer[k]
                    <= 0x39 by {
                    if k < i - lo {
                        assert(longer[k] == d.take(i - lo)[k]);
                    }
                }
            }
        }
        if acc > (usize::MAX - digit) / 10 {
            proof {
                if all_digits(d) {
                    lemma_decimal_grows(d, i - lo + 1);
                }
            }
            return None;
        }
        acc = acc * 10 + digit;
        i += 1;
    }
    assert(d.take(hi - lo) =~= d);
    Some(acc)
}

} // verus!
