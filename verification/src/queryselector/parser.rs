//! How selectors are written.
//!
//! A selector is one or more compound selectors, separated by white space
//! (the element lies below) or by `>` (the element is a child). A compound
//! selector is an optional element name followed by any number of `#id`,
//! `.class`, `[name]`, `[name=value]` and `*`, with at least one part in
//! all. A value may stand in single or double quotes, which are left out;
//! nothing in it is unescaped.

use vstd::prelude::*;
use crate::parser::grammar::{lemma_skip_spaces, skip_spaces, span};
use crate::parser::scan::{find_at, ident_end_at, skip_spaces_at, slice_span};
use crate::queryselector::selector::{
    Combinator, Compound, CompoundModel, Selector, Simple, SimpleModel,
};
use crate::simd::fallback::{ident_run_end, lemma_ident_run_end};
use crate::simd::{find_from, lemma_find3_from};
use crate::util::{is_ident, is_ident_byte};

verus! {

/// `#`
pub const HASH: u8 = 0x23;

/// `.`
pub const DOT: u8 = 0x2e;

/// `*`
pub const STAR: u8 = 0x2a;

/// `[`
pub const BRACKET_OPEN: u8 = 0x5b;

/// `]`
pub const BRACKET_CLOSE: u8 = 0x5d;

/// A test and the offset after it.
pub struct SimpleScan {
    /// The test.
    pub test: SimpleModel,
    /// The offset just after what was read.
    pub next: int,
}

/// Tests and the offset after them.
pub struct CompoundScan {
    /// The tests, in order.
    pub tests: Seq<SimpleModel>,
    /// The offset just after what was read.
    pub next: int,
}

/// Whether `b` starts a test other than an element name.
pub open spec fn starts_simple(b: u8) -> bool {
    b == HASH || b == DOT || b == STAR || b == BRACKET_OPEN
}

/// The attribute test whose name starts at `pos`, just after a `[`, or
/// `None` when what stands there is none: the name is empty, the bracket or
/// a quote is never closed, or something else than `]` follows a quoted
/// value.
pub open spec fn attribute_at(s: Seq<u8>, pos: int) -> Option<SimpleScan> {
    let name_end = ident_run_end(s, pos);
    let name = span(s, pos, name_end);
    if name_end == pos || name_end >= s.len() {
        None
    } else if s[name_end] == BRACKET_CLOSE {
        Some(SimpleScan { test: SimpleModel::Attribute(name), next: name_end + 1 })
    } else if s[name_end] == crate::parser::constants::EQUALS {
        let v = name_end + 1;
        if v < s.len() && (s[v] == crate::parser::constants::DOUBLE_QUOTE || s[v]
            == crate::parser::constants::SINGLE_QUOTE) {
            let close = find_from(s, s[v], v + 1);
            if close + 1 < s.len() && s[close + 1] == BRACKET_CLOSE {
                Some(
                    SimpleScan {
                        test: SimpleModel::AttributeValue(name, span(s, v + 1, close)),
                        next: close + 2,
                    },
                )
            } else {
                None
            }
        } else {
            let close = find_from(s, BRACKET_CLOSE, v);
            if close < s.len() {
                Some(
                    SimpleScan {
                        test: SimpleModel::AttributeValue(name, span(s, v, close)),
                        next: close + 1,
                    },
                )
            } else {
                None
            }
        }
    } else {
        None
    }
}

/// The test at `pos`, where a byte that starts one stands, or `None` when
/// what follows that byte is no test: a `#` or `.` without a name, or a
/// malformed attribute test.
pub open spec fn simple_at(s: Seq<u8>, pos: int) -> Option<SimpleScan> {
    let name_end = ident_run_end(s, pos + 1);
    let name = span(s, pos + 1, name_end);
    if s[pos] == STAR {
        Some(SimpleScan { test: SimpleModel::All, next: pos + 1 })
    } else if s[pos] == BRACKET_OPEN {
        attribute_at(s, pos + 1)
    } else if name_end == pos + 1 {
        None
    } else if s[pos] == HASH {
        Some(SimpleScan { test: SimpleModel::Id(name), next: name_end })
    } else {
        Some(SimpleScan { test: SimpleModel::Class(name), next: name_end })
    }
}

/// A test ends after where it starts, inside the selector.
pub proof fn lemma_simple_at(s: Seq<u8>, pos: int)
    requires
        0 <= pos < s.len(),
        starts_simple(s[pos]),
    ensures
        simple_at(s, pos).is_some() ==> pos < simple_at(s, pos).unwrap().next <= s.len(),
{
    lemma_ident_run_end(s, pos + 1);
    if s[pos] == BRACKET_OPEN {
        let name_end = ident_run_end(s, pos + 1);
        if name_end < s.len() && s[name_end] == crate::parser::constants::EQUALS {
            let v = name_end + 1;
            if v < s.len() {
                lemma_find3_from(s, s[v], s[v], s[v], v + 1);
            }
            lemma_find3_from(s, BRACKET_CLOSE, BRACKET_CLOSE, BRACKET_CLOSE, v);
        }
    }
}

/// The tests from `pos` on, after those in `tests`, as far as tests
/// follow each other, or `None` when one of them is malformed.
pub open spec fn simples_at(s: Seq<u8>, pos: int, tests: Seq<SimpleModel>) -> Option<CompoundScan>
    decreases s.len() - pos,
{
    if 0 <= pos < s.len() && starts_simple(s[pos]) {
        proof {
            lemma_simple_at(s, pos);
        }
        match simple_at(s, pos) {
            Some(scan) => simples_at(s, scan.next, tests.push(scan.test)),
            None => None,
        }
    } else {
        Some(CompoundScan { tests, next: pos })
    }
}

/// The compound selector at `pos`: an element name, if an identifier byte
/// stands there, and the tests that follow.
pub open spec fn compound_at(s: Seq<u8>, pos: int) -> Option<CompoundScan> {
    if 0 <= pos < s.len() && is_ident_byte(s[pos]) {
        simples_at(
            s,
            ident_run_end(s, pos),
            seq![SimpleModel::Tag(span(s, pos, ident_run_end(s, pos)))],
        )
    } else {
        simples_at(s, pos, Seq::empty())
    }
}

/// Tests end at or after where they start, inside the selector, and none
/// is lost.
pub proof fn lemma_simples_at(s: Seq<u8>, pos: int, tests: Seq<SimpleModel>)
    requires
        0 <= pos <= s.len(),
    ensures
        simples_at(s, pos, tests).is_some() ==> {
            let scan = simples_at(s, pos, tests).unwrap();
            &&& pos <= scan.next <= s.len()
            &&& scan.tests.len() >= tests.len()
            &&& scan.tests.len() > tests.len() ==> scan.next > pos
        },
    decreases s.len() - pos,
{
    if pos < s.len() && starts_simple(s[pos]) {
        lemma_simple_at(s, pos);
        match simple_at(s, pos) {
            Some(scan) => {
                lemma_simples_at(s, scan.next, tests.push(scan.test));
            },
            None => {},
        }
    }
}

/// A compound selector that has a part ends after where it starts.
pub proof fn lemma_compound_at(s: Seq<u8>, pos: int)
    requires
        0 <= pos <= s.len(),
    ensures
        compound_at(s, pos).is_some() ==> {
            let scan = compound_at(s, pos).unwrap();
            &&& pos <= scan.next <= s.len()
            &&& scan.tests.len() > 0 ==> scan.next > pos
        },
{
    if pos < s.len() && is_ident_byte(s[pos]) {
        lemma_ident_run_end(s, pos);
        lemma_simples_at(
            s,
            ident_run_end(s, pos),
            seq![SimpleModel::Tag(span(s, pos, ident_run_end(s, pos)))],
        );
    } else {
        lemma_simples_at(s, pos, Seq::empty());
    }
}

/// The selector whose next compound selector starts at `pos` and relates
/// to those in `acc` by `combinator`, or `None` when the rest is no
/// selector.
pub open spec fn chain_at(
    s: Seq<u8>,
    pos: int,
    acc: Seq<CompoundModel>,
    combinator: Combinator,
) -> Option<Seq<CompoundModel>>
    decreases s.len() - pos,
{
    if pos < 0 || pos > s.len() {
        None
    } else {
        proof {
            lemma_compound_at(s, pos);
        }
        match compound_at(s, pos) {
            Some(scan) if scan.tests.len() > 0 => {
                let found = acc.push(CompoundModel { tests: scan.tests, combinator });
                let q = skip_spaces(s, scan.next);
                proof {
                    lemma_skip_spaces(s, scan.next);
                    if q < s.len() {
                        lemma_skip_spaces(s, q + 1);
                    }
                }
                if q >= s.len() {
                    Some(found)
                } else if s[q] == crate::parser::constants::GT {
                    chain_at(s, skip_spaces(s, q + 1), found, Combinator::Child)
                } else if q > scan.next {
                    chain_at(s, q, found, Combinator::Descendant)
                } else {
                    None
                }
            },
            _ => None,
        }
    }
}

/// The selector that `s` writes down, or `None` when `s` is no selector:
/// a compound selector is empty or malformed, or something follows one
/// that is neither white space nor `>`.
pub open spec fn selector_model(s: Seq<u8>) -> Option<Seq<CompoundModel>> {
    chain_at(s, skip_spaces(s, 0), Seq::empty(), Combinator::Descendant)
}

/// Reads the attribute test whose name starts at `pos`.
fn read_attribute<'s>(s: &'s [u8], pos: usize) -> (r: Option<(Simple<'s>, usize)>)
    requires
        pos <= s.len(),
    ensures
        match r {
            Some((test, next)) => attribute_at(s@, pos as int) == Some(
                SimpleScan { test: test@, next: next as int },
            ),
            None => attribute_at(s@, pos as int).is_none(),
        },
{
    let len = s.len();
    let name_end = ident_end_at(s, pos);
    let name = slice_span(s, pos, name_end);
    if name_end == pos || name_end >= len {
        None
    } else if s[name_end] == BRACKET_CLOSE {
        Some((Simple::Attribute(name), name_end + 1))
    } else if s[name_end] == crate::parser::constants::EQUALS {
        let v = name_end + 1;
        if v < len && (s[v] == crate::parser::constants::DOUBLE_QUOTE || s[v]
            == crate::parser::constants::SINGLE_QUOTE) {
            let close = find_at(s, s[v], v + 1);
            if close < len && len - close > 1 && s[close + 1] == BRACKET_CLOSE {
                Some((Simple::AttributeValue(name, slice_span(s, v + 1, close)), close + 2))
            } else {
                None
            }
        } else {
            let close = find_at(s, BRACKET_CLOSE, v);
            if close < len {
                Some((Simple::AttributeValue(name, slice_span(s, v, close)), close + 1))
            } else {
                None
            }
        }
    } else {
        None
    }
}

/// Reads the test at `pos`.
fn read_simple<'s>(s: &'s [u8], pos: usize) -> (r: Option<(Simple<'s>, usize)>)
    requires
        pos < s.len(),
        starts_simple(s@[pos as int]),
    ensures
        match r {
            Some((test, next)) => simple_at(s@, pos as int) == Some(
                SimpleScan { test: test@, next: next as int },
            ) && pos < next <= s.len(),
            None => simple_at(s@, pos as int).is_none(),
        },
{
    proof {
        lemma_simple_at(s@, pos as int);
    }
    if s[pos] == STAR {
        Some((Simple::All, pos + 1))
    } else if s[pos] == BRACKET_OPEN {
        read_attribute(s, pos + 1)
    } else {
        let name_end = ident_end_at(s, pos + 1);
        let name = slice_span(s, pos + 1, name_end);
        if name_end == pos + 1 {
            None
        } else if s[pos] == HASH {
            Some((Simple::Id(name), name_end))
        } else {
            Some((Simple::Class(name), name_end))
        }
    }
}

/// What a list of tests says, test by test.
pub open spec fn tests_view<'s>(tests: Seq<Simple<'s>>) -> Seq<SimpleModel> {
    Seq::new(tests.len(), |i: int| tests[i]@)
}

/// Reads the compound selector at `pos`.
fn read_compound<'s>(s: &'s [u8], pos: usize) -> (r: Option<(Vec<Simple<'s>>, usize)>)
    requires
        pos <= s.len(),
    ensures
        match r {
            Some((tests, next)) => compound_at(s@, pos as int) == Some(
                CompoundScan { tests: tests_view(tests@), next: next as int },
            ) && pos <= next <= s.len(),
            None => compound_at(s@, pos as int).is_none(),
        },
{
    let len = s.len();
    let mut tests: Vec<Simple<'s>> = Vec::new();
    let mut cur = pos;
    if pos < len && is_ident(s[pos]) {
        cur = ident_end_at(s, pos);
        tests.push(Simple::Tag(slice_span(s, pos, cur)));
        assert(tests_view(tests@) =~= seq![SimpleModel::Tag(span(s@, pos as int, cur as int))]);
    } else {
        assert(tests_view(tests@) =~= Seq::<SimpleModel>::empty());
    }
    while cur < len && (s[cur] == HASH || s[cur] == DOT || s[cur] == STAR || s[cur] == BRACKET_OPEN)
        invariant
            len == s.len(),
            pos <= cur <= len,
            compound_at(s@, pos as int) == simples_at(s@, cur as int, tests_view(tests@)),
        decreases len - cur,
    {
        let ghost before = tests_view(tests@);
        match read_simple(s, cur) {
            Some((test, next)) => {
                tests.push(test);
                assert(tests_view(tests@) =~= before.push(test@));
                cur = next;
            },
            None => {
                return None;
            },
        }
    }
    Some((tests, cur))
}

impl<'s> Selector<'s> {
    /// Reads the selector that `s` writes down. Returns `None` when `s` is
    /// no selector.
    pub fn parse(s: &'s [u8]) -> (r: Option<Selector<'s>>)
        ensures
            match r {
                Some(selector) => selector_model(s@) == Some(selector@),
                None => selector_model(s@).is_none(),
            },
    {
        let len = s.len();
        let mut compounds: Vec<Compound<'s>> = Vec::new();
        let ghost mut acc: Seq<CompoundModel> = Seq::empty();
        let mut combinator = Combinator::Descendant;
        let mut pos = skip_spaces_at(s, 0);
        loop
            invariant
                len == s.len(),
                pos <= len,
                acc == (Selector { compounds })@,
                selector_model(s@) == chain_at(s@, pos as int, acc, combinator),
            decreases len - pos,
        {
            proof {
                lemma_compound_at(s@, pos as int);
            }
            match read_compound(s, pos) {
                Some((tests, next)) => {
                    if tests.len() == 0 {
                        return None;
                    }
                    let compound = Compound { tests, combinator };
                    proof {
                        assert(compound@.tests =~= tests_view(tests@));
                        acc = acc.push(compound@);
                    }
                    compounds.push(compound);
                    assert((Selector { compounds })@ =~= acc);
                    let q = skip_spaces_at(s, next);
                    if q >= len {
                        return Some(Selector { compounds });
                    } else if s[q] == crate::parser::constants::GT {
                        pos = skip_spaces_at(s, q + 1);
                        combinator = Combinator::Child;
                    } else if q > next {
                        pos = q;
                        combinator = Combinator::Descendant;
                    } else {
                        return None;
                    }
                },
                None => {
                    return None;
                },
            }
        }
    }
}

} // verus!
