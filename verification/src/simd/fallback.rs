//! Byte-at-a-time scanning, and the definitions every scanner is held to.

use vstd::prelude::*;
use crate::util::{is_ident, is_ident_byte};

verus! {

/// The offset of the first byte of `s` at or after `from` that is no
/// identifier byte, or `s.len()` when every byte from there on is one.
pub open spec fn ident_run_end(s: Seq<u8>, from: int) -> int
    decreases s.len() - from,
{
    if from < 0 || from >= s.len() {
        s.len() as int
    } else if !is_ident_byte(s[from]) {
        from
    } else {
        ident_run_end(s, from + 1)
    }
}

/// What a search for the first non-identifier byte of `s` returns.
pub open spec fn first_non_ident(s: Seq<u8>) -> Option<usize> {
    if ident_run_end(s, 0) < s.len() {
        Some(ident_run_end(s, 0) as usize)
    } else {
        None
    }
}

/// The run that starts at `from` ends inside the sequence, at a byte that is
/// no identifier byte, and holds identifier bytes only.
pub proof fn lemma_ident_run_end(s: Seq<u8>, from: int)
    requires
        0 <= from <= s.len(),
    ensures
        from <= ident_run_end(s, from) <= s.len(),
        ident_run_end(s, from) < s.len() ==> !is_ident_byte(s[ident_run_end(s, from)]),
        forall|j: int| from <= j < ident_run_end(s, from) ==> is_ident_byte(#[trigger] s[j]),
    decreases s.len() - from,
{
    if from < s.len() && is_ident_byte(s[from]) {
        lemma_ident_run_end(s, from + 1);
    }
}

/// What a search for the first non-identifier byte answers, however it is
/// carried out: the offset of a byte that is no identifier byte and has
/// identifier bytes only before it, or `None` when every byte is one. So no
/// identifier byte is ever reported, and the first other byte always is, at
/// its own offset.
pub proof fn lemma_first_non_ident(s: Seq<u8>)
    requires
        s.len() <= usize::MAX,
    ensures
        match first_non_ident(s) {
            Some(i) => {
                &&& i < s.len()
                &&& !is_ident_byte(s[i as int])
                &&& forall|j: int| 0 <= j < i ==> is_ident_byte(#[trigger] s[j])
            },
            None => forall|j: int| 0 <= j < s.len() ==> is_ident_byte(#[trigger] s[j]),
        },
{
    lemma_ident_run_end(s, 0);
}

/// A stretch of identifier bytes can be skipped without changing where the
/// run ends.
pub proof fn lemma_ident_run_skip(s: Seq<u8>, from: int, to: int)
    requires
        0 <= from <= to <= s.len(),
        forall|j: int| from <= j < to ==> is_ident_byte(#[trigger] s[j]),
    ensures
        ident_run_end(s, from) == ident_run_end(s, to),
    decreases to - from,
{
    if from < to {
        lemma_ident_run_skip(s, from + 1, to);
    }
}

/// Searching the tail of a sequence finds the same byte as searching the
/// whole sequence from where the tail starts.
pub proof fn lemma_ident_run_tail(s: Seq<u8>, offset: int, from: int)
    requires
        0 <= offset <= from <= s.len(),
    ensures
        ident_run_end(s.subrange(offset, s.len() as int), from - offset) + offset == ident_run_end(
            s,
            from,
        ),
    decreases s.len() - from,
{
    let t = s.subrange(offset, s.len() as int);
    if from < s.len() {
        assert(t[from - offset] == s[from]);
        if is_ident_byte(s[from]) {
            lemma_ident_run_tail(s, offset, from + 1);
        }
    }
}

/// Searches for the first non-identifier byte, one byte at a time.
#[inline(never)]
pub fn search_non_ident(haystack: &[u8]) -> (r: Option<usize>)
    ensures
        r == first_non_ident(haystack@),
{
    let mut i: usize = 0;
    while i < haystack.len()
        invariant
            0 <= i <= haystack.len(),
            ident_run_end(haystack@, 0) == ident_run_end(haystack@, i as int),
        decreases haystack.len() - i,
    {
        if !is_ident(haystack[i]) {
            return Some(i);
        }
        i += 1;
    }
    None
}

} // verus!
