//! Reading the input at a cursor.
//!
//! Each function here computes one of the functions of the grammar, on the
//! input as a slice and with offsets that are known to lie in it.

use vstd::prelude::*;
use crate::bytes::Bytes;
use crate::parser::attributes::Attributes;
use crate::parser::constants::{DASH, DOUBLE_QUOTE, EQUALS, GT, LINE_FEED, SINGLE_QUOTE, SPACE};
use crate::parser::grammar::{
    after, attr_value, class_list_has, class_tokens, comment_end, is_space, lemma_attr_value,
    lemma_contains_one, lemma_find_token, lemma_skip_spaces, scan_attrs, skip_spaces, span,
};
use crate::simd::fallback::{ident_run_end, lemma_ident_run_end, lemma_ident_run_tail};
use crate::simd::{
    find, find3, find3_from, find_from, is_closing, lemma_find3_from, lemma_first_is_find3_from,
    search_non_ident,
};
use crate::util::is_ident;

verus! {

/// The bytes of `input` from `start` up to `end`, or nothing when that is
/// no range of it.
pub fn slice_span<'a>(input: &'a [u8], start: usize, end: usize) -> (r: &'a [u8])
    ensures
        r@ == span(input@, start as int, end as int),
{
    if start <= end && end <= input.len() {
        vstd::slice::slice_subrange(input, start, end)
    } else {
        let r = vstd::slice::slice_subrange(input, 0, 0);
        assert(r@ =~= Seq::<u8>::empty());
        r
    }
}

/// The offset just after the byte at `at`, or the end of the input.
pub fn after_at(input: &[u8], at: usize) -> (r: usize)
    requires
        at <= input.len(),
    ensures
        r == after(input@, at as int),
        at <= r <= input.len(),
{
    if at < input.len() {
        at + 1
    } else {
        at
    }
}

/// The offset of the first byte at or after `from` that is neither a space
/// nor a line feed.
pub fn skip_spaces_at(input: &[u8], from: usize) -> (r: usize)
    requires
        from <= input.len(),
    ensures
        r == skip_spaces(input@, from as int),
        from <= r <= input.len(),
        r < input.len() ==> !is_space(input@[r as int]),
{
    proof {
        lemma_skip_spaces(input@, from as int);
    }
    let mut i = from;
    while i < input.len() && (input[i] == SPACE || input[i] == LINE_FEED)
        invariant
            from <= i <= input.len(),
            skip_spaces(input@, from as int) == skip_spaces(input@, i as int),
        decreases input.len() - i,
    {
        i += 1;
    }
    i
}

/// The offset at which the run of identifier bytes that starts at `from`
/// ends.
pub fn ident_end_at(input: &[u8], from: usize) -> (r: usize)
    requires
        from <= input.len(),
    ensures
        r == ident_run_end(input@, from as int),
        from <= r <= input.len(),
{
    let rest = vstd::slice::slice_subrange(input, from, input.len());
    proof {
        lemma_ident_run_tail(input@, from as int, from as int);
        lemma_ident_run_end(input@, from as int);
        lemma_ident_run_end(rest@, 0);
    }
    match search_non_ident(rest) {
        Some(i) => from + i,
        None => input.len(),
    }
}

/// The offset of the first `needle` at or after `from`, or the end of the
/// input.
pub fn find_at(input: &[u8], needle: u8, from: usize) -> (r: usize)
    requires
        from <= input.len(),
    ensures
        r == find_from(input@, needle, from as int),
        from <= r <= input.len(),
{
    let rest = vstd::slice::slice_subrange(input, from, input.len());
    let found = find(rest, needle);
    proof {
        lemma_first_is_find3_from(input@, needle, needle, needle, from as int, found);
        lemma_find3_from(input@, needle, needle, needle, from as int);
    }
    match found {
        Some(i) => from + i,
        None => input.len(),
    }
}

/// The offset of the first byte at or after `from` that is one of the three
/// needles, or the end of the input.
pub fn find3_at(input: &[u8], needle: [u8; 3], from: usize) -> (r: usize)
    requires
        from <= input.len(),
    ensures
        r == find3_from(input@, needle[0], needle[1], needle[2], from as int),
        from <= r <= input.len(),
{
    let rest = vstd::slice::slice_subrange(input, from, input.len());
    let found = find3(rest, needle);
    proof {
        lemma_first_is_find3_from(input@, needle[0], needle[1], needle[2], from as int, found);
        lemma_find3_from(input@, needle[0], needle[1], needle[2], from as int);
    }
    match found {
        Some(i) => from + i,
        None => input.len(),
    }
}

/// The offset just after the first `-->` at or after `from`, or the end of
/// the input.
pub fn comment_end_at(input: &[u8], from: usize) -> (r: usize)
    requires
        from <= input.len(),
    ensures
        r == comment_end(input@, from as int),
        from <= r <= input.len(),
{
    let len = input.len();
    let mut i = from;
    while len - i >= 3
        invariant
            len == input.len(),
            from <= i <= len,
            comment_end(input@, from as int) == comment_end(input@, i as int),
        decreases len - i,
    {
        if input[i] == DASH && input[i + 1] == DASH && input[i + 2] == GT {
            return i + 3;
        }
        i += 1;
    }
    len
}

/// Reads the attribute value that starts at `at`, just after a `=`.
/// Returns the value and the offset at which scanning goes on.
pub fn attr_value_at<'a>(input: &'a [u8], at: usize) -> (r: (&'a [u8], usize))
    requires
        at <= input.len(),
    ensures
        r.0@ == attr_value(input@, at as int).value,
        r.1 == attr_value(input@, at as int).next,
        at <= r.1 <= input.len(),
{
    proof {
        lemma_attr_value(input@, at as int);
    }
    if at >= input.len() {
        (slice_span(input, at, at), input.len())
    } else if input[at] == DOUBLE_QUOTE || input[at] == SINGLE_QUOTE {
        let close = find_at(input, input[at], at + 1);
        (slice_span(input, at + 1, close), after_at(input, close))
    } else {
        let needles: [u8; 3] = [SPACE, LINE_FEED, GT];
        let end = find3_at(input, needles, at);
        (slice_span(input, at, end), end)
    }
}

/// Reads the rest of a start tag from `pos` on: its attributes, the offset
/// after the tag, and whether the tag closed itself.
pub fn parse_attributes<'a>(input: &'a [u8], pos: usize) -> (r: (Attributes<'a>, usize, bool))
    requires
        pos <= input.len(),
    ensures
        r.0@ == scan_attrs(input@, pos as int, Seq::empty()).attributes,
        r.1 == scan_attrs(input@, pos as int, Seq::empty()).end,
        r.2 == scan_attrs(input@, pos as int, Seq::empty()).self_closing,
        pos <= r.1 <= input.len(),
        r.0.wf(),
        r.0.all_borrowed(),
{
    let len = input.len();
    let mut attributes = Attributes::new();
    let mut cur = pos;
    while cur < len
        invariant
            len == input.len(),
            pos <= cur <= len,
            attributes.wf(),
            attributes.all_borrowed(),
            scan_attrs(input@, pos as int, Seq::empty()) == scan_attrs(
                input@,
                cur as int,
                attributes@,
            ),
        decreases len - cur,
    {
        let p = skip_spaces_at(input, cur);
        if p >= len {
            return (attributes, len, false);
        }
        let byte = input[p];
        if is_closing(byte) {
            if byte == GT {
                return (attributes, p + 1, false);
            }
            let gt = find_at(input, GT, p + 1);
            return (attributes, after_at(input, gt), true);
        } else if is_ident(byte) {
            let name_end = ident_end_at(input, p);
            proof {
                lemma_ident_run_end(input@, p as int);
            }
            let name = vstd::slice::slice_subrange(input, p, name_end);
            let known = attributes.contains(name);
            if name_end < len && input[name_end] == EQUALS {
                let (value, next) = attr_value_at(input, name_end + 1);
                if !known {
                    attributes.insert(Bytes::Borrowed(name), Some(Bytes::Borrowed(value)));
                }
                cur = next;
            } else {
                if !known {
                    attributes.insert(Bytes::Borrowed(name), None);
                }
                cur = name_end;
            }
        } else {
            cur = p + 1;
        }
    }
    (attributes, len, false)
}

/// Whether `name` is one of the class names in the value `value` of a
/// `class` attribute.
pub fn class_list_contains(value: &[u8], name: &[u8]) -> (r: bool)
    ensures
        r == class_list_has(value@, name@),
{
    let len = value.len();
    let mut cur: usize = 0;
    while cur < len
        invariant
            len == value.len(),
            cur <= len,
            class_list_has(value@, name@) == class_tokens(value@, cur as int).contains(name@),
        decreases len - cur,
    {
        let p = skip_spaces_at(value, cur);
        if p >= len {
            return false;
        }
        let needles: [u8; 3] = [SPACE, LINE_FEED, LINE_FEED];
        let e = find3_at(value, needles, p);
        proof {
            lemma_find_token(value@, p as int);
            lemma_contains_one(
                value@.subrange(p as int, e as int),
                class_tokens(value@, e as int),
                name@,
            );
        }
        if crate::bytes::bytes_eq(vstd::slice::slice_subrange(value, p, e), name) {
            return true;
        }
        cur = e;
    }
    false
}

} // verus!
