//! Byte-scanning primitives the tokenizer is built on.
//!
//! Every search returns the leftmost match. The definitions that callers
//! reason with are declarative (`is_first`, `is_first_of3`) and, for scanning on from a
//! cursor, recursive (`find_from`, `find3_from`); lemmas below connect them.

use vstd::prelude::*;
use crate::util::{lower_byte, to_lower};

pub mod fallback;
pub mod wide;

verus! {

/// `r` is the answer of a leftmost search of `s` for a byte equal to one of
/// `b0`, `b1`, `b2`: the offset of the first such byte, or `None` when there
/// is none.
pub open spec fn is_first_of3(s: Seq<u8>, b0: u8, b1: u8, b2: u8, r: Option<usize>) -> bool {
    match r {
        Some(i) => {
            &&& i < s.len()
            &&& (s[i as int] == b0 || s[i as int] == b1 || s[i as int] == b2)
            &&& forall|j: int| 0 <= j < i ==> !(#[trigger] s[j] == b0 || s[j] == b1 || s[j] == b2)
        },
        None => forall|j: int| 0 <= j < s.len() ==> !(#[trigger] s[j] == b0 || s[j] == b1 || s[j] == b2),
    }
}

/// `r` is the answer of a leftmost search of `s` for the byte `b`.
pub open spec fn is_first(s: Seq<u8>, b: u8, r: Option<usize>) -> bool {
    is_first_of3(s, b, b, b, r)
}

/// The offset of the first byte at or after `from` that equals `b0`, `b1` or
/// `b2`, or `s.len()` when there is none.
pub open spec fn find3_from(s: Seq<u8>, b0: u8, b1: u8, b2: u8, from: int) -> int
    decreases s.len() - from,
{
    if from < 0 || from >= s.len() {
        s.len() as int
    } else if s[from] == b0 || s[from] == b1 || s[from] == b2 {
        from
    } else {
        find3_from(s, b0, b1, b2, from + 1)
    }
}

/// The offset of the first byte at or after `from` that equals `b`, or
/// `s.len()` when there is none.
pub open spec fn find_from(s: Seq<u8>, b: u8, from: int) -> int {
    find3_from(s, b, b, b, from)
}

/// Where a scan from `from` stops: inside the sequence and not before
/// `from`, at a wanted byte unless it ran to the end, past unwanted bytes only.
pub proof fn lemma_find3_from(s: Seq<u8>, b0: u8, b1: u8, b2: u8, from: int)
    requires
        0 <= from <= s.len(),
    ensures
        from <= find3_from(s, b0, b1, b2, from) <= s.len(),
        find3_from(s, b0, b1, b2, from) < s.len() ==> {
            let e = find3_from(s, b0, b1, b2, from);
            s[e] == b0 || s[e] == b1 || s[e] == b2
        },
        forall|j: int|
            from <= j < find3_from(s, b0, b1, b2, from) ==> !(#[trigger] s[j] == b0 || s[j] == b1
                || s[j] == b2),
    decreases s.len() - from,
{
    if from < s.len() && !(s[from] == b0 || s[from] == b1 || s[from] == b2) {
        lemma_find3_from(s, b0, b1, b2, from + 1);
    }
}

/// A leftmost search of the tail that starts at `from` tells where a scan
/// from `from` stops.
pub proof fn lemma_first_is_find3_from(
    s: Seq<u8>,
    b0: u8,
    b1: u8,
    b2: u8,
    from: int,
    r: Option<usize>,
)
    requires
        0 <= from <= s.len(),
        is_first_of3(s.subrange(from, s.len() as int), b0, b1, b2, r),
    ensures
        find3_from(s, b0, b1, b2, from) == match r {
            Some(i) => from + i,
            None => s.len() as int,
        },
{
    let t = s.subrange(from, s.len() as int);
    let e = find3_from(s, b0, b1, b2, from);
    lemma_find3_from(s, b0, b1, b2, from);
    match r {
        Some(i) => {
            assert(t[i as int] == s[from + i]);
            if e < from + i {
                assert(t[e - from] == s[e]);
            }
        },
        None => {
            if e < s.len() {
                assert(t[e - from] == s[e]);
            }
        },
    }
}

/// `memchr::memchr`: the offset of the first byte of `haystack` equal to
/// `needle`, or `None` when no byte is.
#[verifier::external_body]
fn memchr_first(needle: u8, haystack: &[u8]) -> (r: Option<usize>)
    ensures
        is_first(haystack@, needle, r),
{
    memchr::memchr(needle, haystack)
}

/// `memchr::memchr3`: the offset of the first byte of `haystack` equal to
/// one of the three needles, or `None` when no byte is.
#[verifier::external_body]
fn memchr3_first(n0: u8, n1: u8, n2: u8, haystack: &[u8]) -> (r: Option<usize>)
    ensures
        is_first_of3(haystack@, n0, n1, n2, r),
{
    memchr::memchr3(n0, n1, n2, haystack)
}

/// Whether `needle` ends a start tag: `/` or `>`.
#[inline]
pub fn is_closing(needle: u8) -> (r: bool)
    ensures
        r == (needle == 0x2f || needle == 0x3e),
{
    needle == 0x2f || needle == 0x3e
}

/// Searches for the first non-identifier byte in `haystack`.
#[inline]
pub fn search_non_ident(haystack: &[u8]) -> (r: Option<usize>)
    ensures
        r == fallback::first_non_ident(haystack@),
{
    wide::search_non_ident_wide(haystack)
}

/// Searches for the first occurrence of any of 3 bytes in `haystack`.
#[inline]
pub fn find3(haystack: &[u8], needle: [u8; 3]) -> (r: Option<usize>)
    ensures
        is_first_of3(haystack@, needle[0], needle[1], needle[2], r),
{
    memchr3_first(needle[0], needle[1], needle[2], haystack)
}

/// Searches for the first occurrence of `needle` in `haystack`.
#[inline]
pub fn find(haystack: &[u8], needle: u8) -> (r: Option<usize>)
    ensures
        is_first(haystack@, needle, r),
{
    memchr_first(needle, haystack)
}

/// `haystack` and `needle` have the same length and, place by place, the
/// same bytes once ASCII upper-case letters are folded to lower case on both
/// sides. Nothing is cut off: sequences of different lengths never match.
pub open spec fn eq_ignoring_case(haystack: Seq<u8>, needle: Seq<u8>) -> bool {
    &&& haystack.len() == needle.len()
    &&& forall|i: int|
        0 <= i < haystack.len() ==> lower_byte(#[trigger] haystack[i]) == lower_byte(needle[i])
}

/// Checks if `haystack` and `needle` are the same but for the case of
/// their ASCII letters.
pub fn matches_case_insensitive<const N: usize>(haystack: &[u8], needle: [u8; N]) -> (r: bool)
    ensures
        r == eq_ignoring_case(haystack@, needle@),
{
    if haystack.len() != N {
        return false;
    }
    let mut mask = true;
    let mut i: usize = 0;
    while i < N
        invariant
            i <= N,
            haystack.len() == N,
            needle@.len() == N,
            mask == (forall|j: int|
                0 <= j < i ==> lower_byte(#[trigger] haystack@[j]) == lower_byte(needle@[j])),
        decreases N - i,
    {
        mask = mask && to_lower(haystack[i]) == to_lower(needle[i]);
        i += 1;
    }
    mask
}

} // verus!
