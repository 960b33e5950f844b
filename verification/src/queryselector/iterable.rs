//! The matches of a selector, one at a time.

use vstd::prelude::*;
use vstd::string::StringSliceAdditionalSpecFns;
use crate::parser::base::Parser;
use crate::parser::children::{descendant_span, descendant_span_of};
use crate::parser::handle::NodeHandle;
use crate::parser::tag::{nodes_view, HTMLTag, NodeModel};
use crate::queryselector::parser::selector_model;
use crate::queryselector::selector::{selector_matches, CompoundModel, Selector};
use crate::vdom::VDom;

verus! {

/// The index of the first node at or after `from` and before `end` that
/// `sel` matches.
pub open spec fn next_match(
    nodes: Seq<NodeModel>,
    parents: Seq<Option<NodeHandle>>,
    sel: Seq<CompoundModel>,
    from: int,
    end: int,
) -> Option<int>
    decreases end - from,
{
    if from < 0 || from >= end || from >= nodes.len() || from > u32::MAX {
        None
    } else if selector_matches(nodes, parents, sel, from) {
        Some(from)
    } else {
        next_match(nodes, parents, sel, from + 1, end)
    }
}

/// The number of nodes at or after `from` and before `end` that `sel`
/// matches.
pub open spec fn count_matches(
    nodes: Seq<NodeModel>,
    parents: Seq<Option<NodeHandle>>,
    sel: Seq<CompoundModel>,
    from: int,
    end: int,
) -> nat
    decreases end - from,
{
    if from < 0 || from >= end || from >= nodes.len() || from > u32::MAX {
        0
    } else {
        (if selector_matches(nodes, parents, sel, from) {
            1nat
        } else {
            0nat
        }) + count_matches(nodes, parents, sel, from + 1, end)
    }
}

/// The next match lies in the range that is searched, is matched by the
/// selector, and has no match before it in that range.
pub proof fn lemma_next_match(
    nodes: Seq<NodeModel>,
    parents: Seq<Option<NodeHandle>>,
    sel: Seq<CompoundModel>,
    from: int,
    end: int,
)
    ensures
        match next_match(nodes, parents, sel, from, end) {
            Some(m) => {
                &&& 0 <= from <= m < end
                &&& m < nodes.len()
                &&& selector_matches(nodes, parents, sel, m)
                &&& forall|j: int| from <= j < m ==> !selector_matches(nodes, parents, sel, j)
            },
            None => forall|j: int|
                0 <= from <= j < end && j <= u32::MAX ==> !selector_matches(nodes, parents, sel, j),
        },
    decreases end - from,
{
    if !(from < 0 || from >= end || from >= nodes.len() || from > u32::MAX) {
        if !selector_matches(nodes, parents, sel, from) {
            lemma_next_match(nodes, parents, sel, from + 1, end);
        }
    }
}

/// No more nodes match than there are.
pub proof fn lemma_count_matches_bound(
    nodes: Seq<NodeModel>,
    parents: Seq<Option<NodeHandle>>,
    sel: Seq<CompoundModel>,
    from: int,
    end: int,
)
    requires
        0 <= from <= end,
    ensures
        count_matches(nodes, parents, sel, from, end) <= end - from,
    decreases end - from,
{
    if !(from >= end || from >= nodes.len() || from > u32::MAX) {
        lemma_count_matches_bound(nodes, parents, sel, from + 1, end);
    }
}

/// Where there is no next match, no match is left to count.
pub proof fn lemma_no_next_match(
    nodes: Seq<NodeModel>,
    parents: Seq<Option<NodeHandle>>,
    sel: Seq<CompoundModel>,
    from: int,
    end: int,
)
    requires
        next_match(nodes, parents, sel, from, end).is_none(),
    ensures
        count_matches(nodes, parents, sel, from, end) == 0,
    decreases end - from,
{
    if !(from < 0 || from >= end || from >= nodes.len() || from > u32::MAX) {
        lemma_no_next_match(nodes, parents, sel, from + 1, end);
    }
}

/// The matches of a selector among the nodes of a range, in document
/// order, found one at a time as they are asked for.
///
/// A copy made by `clone` goes on from where this one stands and is
/// advanced on its own.
#[derive(Debug)]
pub struct QuerySelectorIterator<'a, 'b, 's> {
    /// The selector.
    pub selector: Selector<'s>,
    /// The store whose nodes are searched.
    pub parser: &'b Parser<'a>,
    /// The index of the next node to test.
    pub cursor: usize,
    /// The index at which the search ends.
    pub end: usize,
}

impl<'a, 'b, 's> QuerySelectorIterator<'a, 'b, 's> {
    /// The index of the node that `next` gives, if there is one.
    pub open spec fn pending(&self) -> Option<int> {
        next_match(
            nodes_view(self.parser.tags@),
            self.parser.parents@,
            self.selector@,
            self.cursor as int,
            self.end as int,
        )
    }

    /// The number of matches that are left.
    pub open spec fn remaining(&self) -> nat {
        count_matches(
            nodes_view(self.parser.tags@),
            self.parser.parents@,
            self.selector@,
            self.cursor as int,
            self.end as int,
        )
    }

    /// Whether `other` searches the same nodes for the same selector.
    pub open spec fn same_search(&self, other: &Self) -> bool {
        &&& self.selector@ == other.selector@
        &&& self.parser == other.parser
        &&& self.end == other.end
    }

    /// The matches of `selector` among the nodes of `parser` from index
    /// `start` up to index `end`.
    pub fn new(selector: Selector<'s>, parser: &'b Parser<'a>, start: usize, end: usize) -> (r:
        Self)
        ensures
            r.selector == selector,
            r.parser == parser,
            r.cursor == start,
            r.end == end,
    {
        QuerySelectorIterator { selector, parser, cursor: start, end }
    }

    /// The next match: the first node from the cursor on that the selector
    /// matches. The cursor moves past it. `None` when no match is left, and
    /// then on every later call.
    pub fn next(&mut self) -> (r: Option<NodeHandle>)
        ensures
            final(self).same_search(old(self)),
            match r {
                Some(h) => old(self).pending() == Some(h.index()) && final(self).cursor == h.index()
                    + 1,
                None => old(self).pending().is_none() && final(self).pending().is_none(),
            },
            final(self).remaining() + (if r.is_some() {
                1nat
            } else {
                0nat
            }) == old(self).remaining(),
    {
        let ghost nodes = nodes_view(self.parser.tags@);
        let ghost parents = self.parser.parents@;
        let ghost sel = self.selector@;
        while self.cursor < self.end && self.cursor < self.parser.tags.len() && self.cursor
            <= 0xffff_ffff
            invariant
                self.same_search(old(self)),
                nodes == nodes_view(self.parser.tags@),
                parents == self.parser.parents@,
                sel == self.selector@,
                old(self).cursor <= self.cursor,
                old(self).pending() == self.pending(),
                old(self).remaining() == self.remaining(),
            decreases self.end - self.cursor,
        {
            let i = self.cursor;
            self.cursor = i + 1;
            if self.selector.matches(self.parser, i) {
                return Some(NodeHandle(i as u32));
            }
        }
        proof {
            lemma_no_next_match(nodes, parents, sel, self.cursor as int, self.end as int);
        }
        None
    }

    /// The number of matches that are left.
    pub fn count(self) -> (r: usize)
        ensures
            r == self.remaining(),
    {
        let ghost nodes = nodes_view(self.parser.tags@);
        let ghost parents = self.parser.parents@;
        let ghost sel = self.selector@;
        let mut found: usize = 0;
        let mut i = self.cursor;
        while i < self.end && i < self.parser.tags.len() && i <= 0xffff_ffff
            invariant
                self.cursor <= i,
                found <= i - self.cursor,
                nodes == nodes_view(self.parser.tags@),
                parents == self.parser.parents@,
                sel == self.selector@,
                self.remaining() == found + count_matches(nodes, parents, sel, i as int, self.end as int),
            decreases self.end - i,
        {
            if self.selector.matches(self.parser, i) {
                found += 1;
            }
            i += 1;
        }
        found
    }
}

impl<'a, 'b, 's> Clone for QuerySelectorIterator<'a, 'b, 's> {
    fn clone(&self) -> (r: Self)
        ensures
            r.same_search(self),
            r.cursor == self.cursor,
    {
        QuerySelectorIterator {
            selector: self.selector.clone(),
            parser: self.parser,
            cursor: self.cursor,
            end: self.end,
        }
    }
}

impl<'a> VDom<'a> {
    /// The matches of the selector that `selector` writes down, among all
    /// nodes of the document, in document order. `None` when `selector` is
    /// no selector.
    pub fn query_selector<'b, 's>(&'b self, selector: &'s str) -> (r: Option<
        QuerySelectorIterator<'a, 'b, 's>,
    >)
        ensures
            match r {
                Some(matches) => {
                    &&& selector_model(selector.spec_bytes()) == Some(matches.selector@)
                    &&& *matches.parser == self.parser
                    &&& matches.cursor == 0
                    &&& matches.end == self.parser.tags.len()
                },
                None => selector_model(selector.spec_bytes()).is_none(),
            },
    {
        match Selector::parse(selector.as_bytes()) {
            Some(sel) => Some(
                QuerySelectorIterator::new(sel, &self.parser, 0, self.parser.tags.len()),
            ),
            None => None,
        }
    }
}

impl<'a> HTMLTag<'a> {
    /// The matches of the selector that `selector` writes down, among the
    /// nodes below this element, in document order. `None` when `selector`
    /// is no selector.
    ///
    /// Only what lies below the element can match. The elements above a
    /// match, which the combinators ask about, may lie anywhere.
    pub fn query_selector<'b, 's>(&self, parser: &'b Parser<'a>, selector: &'s str) -> (r: Option<
        QuerySelectorIterator<'a, 'b, 's>,
    >)
        ensures
            match r {
                Some(matches) => {
                    &&& selector_model(selector.spec_bytes()) == Some(matches.selector@)
                    &&& matches.parser == parser
                    &&& (matches.cursor as int, matches.end as int) == descendant_span(
                        nodes_view(parser.tags@),
                        self@,
                    )
                },
                None => selector_model(selector.spec_bytes()).is_none(),
            },
    {
        match Selector::parse(selector.as_bytes()) {
            Some(sel) => {
                let (start, end) = descendant_span_of(parser, self);
                Some(QuerySelectorIterator::new(sel, parser, start, end))
            },
            None => None,
        }
    }
}

} // verus!
