//! Byte-level search in UTF-8 text. Searching the bytes of valid UTF-8 text
//! for the bytes of a text finds exactly the occurrences of that text.
use vstd::prelude::*;
use vstd::utf8::{
    is_char_boundary_iff_not_is_continuation_byte, is_leading_byte_width_1,
    partial_valid_partial_invalid_utf8, partial_valid_utf8, partial_valid_utf8_extend_ascii_block,
    valid_utf8, valid_utf8_concat, valid_utf8_split,
};

verus! {

/// `needle` occurs in `hay` at byte position `i`.
pub open spec fn bytes_at(hay: Seq<u8>, needle: Seq<u8>, i: int) -> bool {
    &&& 0 <= i
    &&& i + needle.len() <= hay.len()
    &&& hay.subrange(i, i + needle.len()) == needle
}

pub open spec fn bytes_contain(hay: Seq<u8>, needle: Seq<u8>) -> bool {
    exists|i: int| bytes_at(hay, needle, i)
}

/// Number of non-overlapping occurrences of a non-empty `needle`, found from left to right.
pub open spec fn count_occurrences(hay: Seq<u8>, needle: Seq<u8>) -> nat
    decreases hay.len(),
{
    if needle.len() == 0 || hay.len() < needle.len() {
        0
    } else if hay.subrange(0, needle.len() as int) == needle {
        1 + count_occurrences(hay.skip(needle.len() as int), needle)
    } else {
        count_occurrences(hay.skip(1), needle)
    }
}

/// Whether `needle` occurs in `hay` at position `i`.
pub fn bytes_at_exec(hay: &[u8], needle: &[u8], i: usize) -> (r: bool)
    ensures
        r == bytes_at(hay@, needle@, i as int),
{
    if i > hay.len() || needle.len() > hay.len() - i {
        return false;
    }
    let mut k: usize = 0;
    while k < needle.len()
        invariant
            i + needle@.len() <= hay@.len(),
            hay@.len() == hay.len(),
            0 <= k <= needle@.len(),
            forall|j: int| 0 <= j < k ==> hay@[i + j] == needle@[j],
        decreases needle.len() - k,
    {
        assert(i + k < hay@.len());
        if hay[i + k] != needle[k] {
            proof {
                assert(hay@.subrange(i as int, i + needle@.len())[k as int] != needle@[k as int]);
            }
            return false;
        }
        k = k + 1;
    }
    assert(hay@.subrange(i as int, i + needle@.len()) =~= needle@);
    true
}

/// The first position at which `needle` occurs in `haystack`.
pub fn find_subslice(haystack: &[u8], needle: &[u8]) -> (r: Option<usize>)
    requires
        needle@.len() > 0,
    ensures
        r matches Some(i) ==> bytes_at(haystack@, needle@, i as int) && forall|j: int|
            0 <= j < i ==> !bytes_at(haystack@, needle@, j),
        r is None ==> !bytes_contain(haystack@, needle@),
{
    if needle.len() > haystack.len() {
        return None;
    }
    let last = haystack.len() - needle.len();
    let mut i: usize = 0;
    while i <= last
        invariant
            last == haystack@.len() - needle@.len(),
            needle@.len() > 0,
            haystack@.len() == haystack.len(),
            0 <= i <= last + 1,
            forall|j: int| 0 <= j < i ==> !bytes_at(haystack@, needle@, j),
        decreases last + 1 - i,
    {
        if bytes_at_exec(haystack, needle, i) {
            return Some(i);
        }
        i = i + 1;
    }
    None
}

/// Whether `needle` occurs anywhere in `hay`.
pub fn contains_bytes(hay: &[u8], needle: &[u8]) -> (r: bool)
    ensures
        r == bytes_contain(hay@, needle@),
{
    if needle.len() == 0 {
        assert(bytes_at(hay@, needle@, 0)) by {
            assert(hay@.subrange(0, 0) =~= needle@);
        }
        return true;
    }
    find_subslice(hay, needle).is_some()
}

/// Counts the non-overlapping occurrences of a non-empty `needle`, left to right.
pub fn count_matches(hay: &[u8], needle: &[u8]) -> (r: usize)
    requires
        needle@.len() > 0,
    ensures
        r == count_occurrences(hay@, needle@),
{
    let mut count: usize = 0;
    let mut i: usize = 0;
    proof {
        assert(hay@.skip(0) =~= hay@);
    }
    while i < hay.len()
        invariant
            0 <= i <= hay@.len(),
            needle@.len() > 0,
            count <= i,
            count + count_occurrences(hay@.skip(i as int), needle@) == count_occurrences(hay@, needle@),
        decreases hay.len() - i,
    {
        let ghost rest = hay@.skip(i as int);
        if needle.len() > hay.len() - i {
            proof {
                assert(count_occurrences(rest, needle@) == 0);
            }
            return count;
        }
        if bytes_at_exec(hay, needle, i) {
            proof {
                assert(rest.subrange(0, needle@.len() as int) =~= hay@.subrange(i as int, i + needle@.len()));
                assert(rest.skip(needle@.len() as int) =~= hay@.skip(i + needle@.len()));
            }
            count = count + 1;
            i = i + needle.len();
        } else {
            proof {
                assert(rest.subrange(0, needle@.len() as int) =~= hay@.subrange(i as int, i + needle@.len()));
                assert(rest.skip(1) =~= hay@.skip(i + 1));
            }
            i = i + 1;
        }
    }
    proof {
        assert(count_occurrences(hay@.skip(i as int), needle@) == 0);
    }
    count
}

/// Copies `bytes[from..to]` onto the end of `out`.
pub fn extend_range(out: &mut Vec<u8>, bytes: &[u8], from: usize, to: usize)
    requires
        from <= to <= bytes@.len(),
    ensures
        final(out)@ == old(out)@ + bytes@.subrange(from as int, to as int),
{
    let part = vstd::slice::slice_subrange(bytes, from, to);
    out.extend_from_slice(part);
}

/// Whether two byte strings are equal.
pub fn bytes_equal(a: &[u8], b: &[u8]) -> (r: bool)
    ensures
        r == (a@ == b@),
{
    if a.len() != b.len() {
        return false;
    }
    let same = bytes_at_exec(a, b, 0);
    proof {
        if same {
            assert(a@.subrange(0, b@.len() as int) =~= a@);
        } else {
            assert(a@.subrange(0, b@.len() as int) =~= a@);
        }
    }
    same
}

/// Every byte of `s` in `[from, to)` is ASCII.
pub open spec fn ascii_range(s: Seq<u8>, from: int, to: int) -> bool {
    forall|k: int| from <= k < to ==> #[trigger] s[k] < 128
}

/// ASCII bytes are valid UTF-8.
pub proof fn lemma_ascii_valid_utf8(s: Seq<u8>)
    requires
        ascii_range(s, 0, s.len() as int),
    ensures
        valid_utf8(s),
{
    assert(s.subrange(0, 0) =~= Seq::<u8>::empty());
    assert(partial_valid_utf8(s, 0));
    assert forall|i: int| 0 <= 0 <= i < s.len() <= s.len() implies #[trigger] is_leading_byte_width_1(
        s[i],
    ) by {
        assert(s[i] < 128);
    }
    partial_valid_utf8_extend_ascii_block(s, 0, s.len() as int);
    assert(s.subrange(0, s.len() as int) =~= s);
}

/// Text split before an ASCII byte falls apart into two UTF-8 texts.
pub proof fn lemma_split_before_ascii(s: Seq<u8>, i: int)
    requires
        valid_utf8(s),
        0 <= i < s.len(),
        s[i] < 128,
    ensures
        valid_utf8(s.subrange(0, i)),
        valid_utf8(s.subrange(i, s.len() as int)),
{
    is_char_boundary_iff_not_is_continuation_byte(s, i);
    valid_utf8_split(s, i);
}

/// Text split after a run of ASCII bytes falls apart into two UTF-8 texts.
pub proof fn lemma_split_after_ascii(s: Seq<u8>, from: int, to: int)
    requires
        valid_utf8(s),
        0 <= from < to <= s.len(),
        ascii_range(s, from, to),
    ensures
        valid_utf8(s.subrange(0, to)),
        valid_utf8(s.subrange(to, s.len() as int)),
{
    lemma_split_before_ascii(s, from);
    assert forall|i: int| 0 <= from <= i < to <= s.len() implies #[trigger] is_leading_byte_width_1(
        s[i],
    ) by {
        assert(s[i] < 128);
    }
    partial_valid_utf8_extend_ascii_block(s, from, to);
    if !valid_utf8(s.subrange(to, s.len() as int)) {
        partial_valid_partial_invalid_utf8(s, to);
    }
}

/// The UTF-8 text of `s` with the ASCII bytes `[from, to)` replaced by the
/// UTF-8 text `middle` is UTF-8 text.
pub proof fn lemma_splice_ascii(s: Seq<u8>, from: int, to: int, middle: Seq<u8>)
    requires
        valid_utf8(s),
        0 <= from < to <= s.len(),
        ascii_range(s, from, to),
        valid_utf8(middle),
    ensures
        valid_utf8(s.subrange(0, from) + middle + s.subrange(to, s.len() as int)),
{
    lemma_split_before_ascii(s, from);
    lemma_split_after_ascii(s, from, to);
    valid_utf8_concat(s.subrange(0, from), middle);
    valid_utf8_concat(s.subrange(0, from) + middle, s.subrange(to, s.len() as int));
}

/// The first `n` pieces, one after the other.
pub open spec fn concat_all(pieces: Seq<Seq<u8>>, n: int) -> Seq<u8>
    decreases n,
{
    if n <= 0 {
        Seq::empty()
    } else {
        concat_all(pieces, n - 1) + pieces[n - 1]
    }
}

/// Pieces of UTF-8 text, one after the other, are UTF-8 text.
pub proof fn lemma_concat_all_utf8(pieces: Seq<Seq<u8>>, n: int)
    requires
        0 <= n <= pieces.len(),
        forall|i: int| 0 <= i < pieces.len() ==> valid_utf8(#[trigger] pieces[i]),
    ensures
        valid_utf8(concat_all(pieces, n)),
    decreases n,
{
    if n > 0 {
        lemma_concat_all_utf8(pieces, n - 1);
        valid_utf8_concat(concat_all(pieces, n - 1), pieces[n - 1]);
    } else {
        assert(valid_utf8(Seq::<u8>::empty()));
    }
}

} // verus!
