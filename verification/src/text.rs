//! Byte-level text primitives: equality of strings and occurrences of one
//! byte sequence inside another.

use vstd::prelude::*;
use vstd::utf8::*;

verus! {

/// `needle` stands in `hay` at byte offset `at`.
pub open spec fn occurs_at(hay: Seq<u8>, needle: Seq<u8>, at: int) -> bool {
    &&& 0 <= at
    &&& at + needle.len() <= hay.len()
    &&& hay.subrange(at, at + needle.len()) == needle
}

/// `at` is the least byte offset at which `needle` stands in `hay`.
pub open spec fn first_occurrence(hay: Seq<u8>, needle: Seq<u8>, at: int) -> bool {
    &&& occurs_at(hay, needle, at)
    &&& forall|j: int| 0 <= j < at ==> !occurs_at(hay, needle, j)
}

/// `needle` stands somewhere in `hay`.
pub open spec fn contains(hay: Seq<u8>, needle: Seq<u8>) -> bool {
    exists|at: int| occurs_at(hay, needle, at)
}

/// Tests whether `needle` stands in `hay` at byte offset `at`.
pub fn matches_at(hay: &[u8], needle: &[u8], at: usize) -> (found: bool)
    ensures
        found == occurs_at(hay@, needle@, at as int),
{
    let n: usize = hay.len();
    let m: usize = needle.len();
    if at > n || m > n - at {
        return false;
    }
    let mut k: usize = 0;
    while k < m
        invariant
            n == hay@.len(),
            m == needle@.len(),
            at + m <= n,
            k <= m,
            forall|j: int| 0 <= j < k ==> hay@[at + j] == needle@[j],
        decreases m - k,
    {
        if hay[at + k] != needle[k] {
            proof {
                let window = hay@.subrange(at as int, at + m);
                assert(window[k as int] == hay@[at + k]);
            }
            return false;
        }
        k += 1;
    }
    proof {
        assert(hay@.subrange(at as int, at + m) =~= needle@);
    }
    true
}

/// Finds the least byte offset at which `needle` stands in `hay`.
pub fn find_first(hay: &[u8], needle: &[u8]) -> (r: Option<usize>)
    ensures
        match r {
            Some(at) => first_occurrence(hay@, needle@, at as int),
            None => !contains(hay@, needle@),
        },
{
    let n: usize = hay.len();
    let m: usize = needle.len();
    if m > n {
        return None;
    }
    if m == 0 {
        proof {
            assert(hay@.subrange(0, 0) =~= needle@);
        }
        return Some(0);
    }
    let last: usize = n - m;
    let mut i: usize = 0;
    while i <= last
        invariant
            n == hay@.len(),
            m == needle@.len(),
            0 < m <= n,
            last == n - m,
            i <= last + 1,
            forall|j: int| 0 <= j < i ==> !occurs_at(hay@, needle@, j),
        decreases last + 1 - i,
    {
        if matches_at(hay, needle, i) {
            return Some(i);
        }
        i += 1;
    }
    None
}

/// Tests two strings for equality, byte by byte.
pub fn str_eq(a: &str, b: &str) -> (same: bool)
    ensures
        same == (a@ == b@),
{
    let x = a.as_bytes();
    let y = b.as_bytes();
    let same = x.len() == y.len() && matches_at(x, y, 0);
    proof {
        if same {
            assert(x@.subrange(0, x@.len() as int) =~= x@);
            lemma_encoding_injective(a@, b@);
        }
        if a@ == b@ {
            assert(x@.subrange(0, x@.len() as int) =~= x@);
        }
    }
    same
}

/// The bytes of an occurrence are the bytes of the needle.
pub proof fn lemma_occurrence_byte(hay: Seq<u8>, needle: Seq<u8>, at: int, k: int)
    requires
        occurs_at(hay, needle, at),
        0 <= k < needle.len(),
    ensures
        hay[at + k] == needle[k],
{
    assert(hay.subrange(at, at + needle.len())[k] == hay[at + k]);
}

/// An occurrence that lies inside the middle one of three parts is an
/// occurrence in that part.
pub proof fn lemma_occurrence_in_part(
    before: Seq<u8>,
    part: Seq<u8>,
    after: Seq<u8>,
    needle: Seq<u8>,
    at: int,
)
    requires
        occurs_at(before + part + after, needle, at),
        before.len() <= at,
        at + needle.len() <= before.len() + part.len(),
    ensures
        occurs_at(part, needle, at - before.len()),
{
    let whole = before + part + after;
    let shifted = at - before.len();
    assert(part.subrange(shifted, shifted + needle.len()) =~= whole.subrange(
        at,
        at + needle.len(),
    ));
}

/// Two character sequences with the same UTF-8 encoding are the same
/// sequence.
pub proof fn lemma_encoding_injective(a: Seq<char>, b: Seq<char>)
    requires
        encode_utf8(a) == encode_utf8(b),
    ensures
        a == b,
{
    encode_utf8_decode_utf8(a);
    encode_utf8_decode_utf8(b);
}

/// The encoding of a concatenation is the concatenation of the encodings.
pub proof fn lemma_encoding_concat(a: Seq<char>, b: Seq<char>)
    ensures
        encode_utf8(a + b) == encode_utf8(a) + encode_utf8(b),
    decreases a.len(),
{
    if a.len() == 0 {
        assert(a + b =~= b);
        assert(encode_utf8(a) + encode_utf8(b) =~= encode_utf8(b));
    } else {
        assert((a + b).drop_first() =~= a.drop_first() + b);
        lemma_encoding_concat(a.drop_first(), b);
        assert(encode_utf8(a + b) =~= encode_utf8(a) + encode_utf8(b));
    }
}

/// In well-formed text, a window that begins and ends with an ASCII byte
/// begins and ends on a character boundary.
pub proof fn lemma_window_on_boundaries(text: Seq<u8>, needle: Seq<u8>, at: int)
    requires
        valid_utf8(text),
        occurs_at(text, needle, at),
        needle.len() > 0,
        needle.first() < 0x80,
        needle.last() < 0x80,
    ensures
        is_char_boundary(text, at),
        is_char_boundary(text, at + needle.len()),
{
    let end = at + needle.len();
    let window = text.subrange(at, end);
    assert(window[0] == text[at]);
    assert(window[needle.len() - 1] == text[end - 1]);
    is_char_boundary_iff_not_is_continuation_byte(text, at);
    if end == text.len() {
        is_char_boundary_start_end_of_seq(text);
    } else {
        is_char_boundary_iff_not_is_continuation_byte(text, end - 1);
        valid_utf8_split(text, end - 1);
        let tail = text.subrange(end - 1, text.len() as int);
        assert(tail[0] == text[end - 1]);
        assert(tail[1] == text[end]);
        assert(length_of_first_scalar(tail) == 1);
        assert(valid_utf8(pop_first_scalar(tail)));
        assert(is_char_boundary(pop_first_scalar(tail), 0));
        assert(is_char_boundary(tail, 1));
        is_char_boundary_iff_not_is_continuation_byte(tail, 1);
        is_char_boundary_iff_not_is_continuation_byte(text, end);
    }
}

} // verus!
