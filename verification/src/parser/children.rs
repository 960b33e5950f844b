//! The children of an element, and all that lies below it.

use vstd::prelude::*;
use crate::parser::base::Parser;
use crate::parser::handle::NodeHandle;
use crate::parser::tag::{nodes_view, HTMLTag, Node, NodeModel, TagModel};

verus! {

/// The index of the last node of the subtree that starts at `i`: the last
/// child of the last child, and so on, of the node at `i`.
pub open spec fn subtree_last(nodes: Seq<NodeModel>, i: int) -> int
    decreases nodes.len() - i,
{
    if i < 0 || i >= nodes.len() {
        i
    } else {
        match nodes[i] {
            NodeModel::Tag(t) => if t.children.len() > 0 && i < t.children.last().index()
                < nodes.len() {
                subtree_last(nodes, t.children.last().index())
            } else {
                i
            },
            _ => i,
        }
    }
}

/// A subtree ends at or after its root, inside the store.
pub proof fn lemma_subtree_last(nodes: Seq<NodeModel>, i: int)
    requires
        0 <= i < nodes.len(),
    ensures
        i <= subtree_last(nodes, i) < nodes.len(),
    decreases nodes.len() - i,
{
    match nodes[i] {
        NodeModel::Tag(t) => {
            if t.children.len() > 0 && i < t.children.last().index() < nodes.len() {
                lemma_subtree_last(nodes, t.children.last().index());
            }
        },
        _ => {},
    }
}

/// The handles of all that lies below the element `t`, as a range of
/// indices: from its first child up to, not including, the index after the
/// last node of its last child's subtree. Empty for an element without
/// children.
///
/// The parser stores nodes in document order, so that this range holds the
/// descendants of an element and nothing else.
pub open spec fn descendant_span(nodes: Seq<NodeModel>, t: TagModel) -> (int, int) {
    if t.children.len() == 0 {
        (0, 0)
    } else if t.children[0].index() <= t.children.last().index() < nodes.len() {
        (t.children[0].index(), subtree_last(nodes, t.children.last().index()) + 1)
    } else {
        (0, 0)
    }
}

/// The index of the last node of the subtree that starts at `i`.
pub fn subtree_last_of<'a>(parser: &Parser<'a>, i: usize) -> (r: usize)
    requires
        i < parser.tags.len(),
    ensures
        r == subtree_last(nodes_view(parser.tags@), i as int),
        i <= r < parser.tags.len(),
{
    let ghost nodes = nodes_view(parser.tags@);
    let mut cur = i;
    loop
        invariant
            nodes == nodes_view(parser.tags@),
            i <= cur < parser.tags.len(),
            subtree_last(nodes, i as int) == subtree_last(nodes, cur as int),
        decreases parser.tags.len() - cur,
    {
        match &parser.tags[cur] {
            Node::Tag(t) => {
                let n = t._children.len();
                if n == 0 {
                    return cur;
                }
                let c = t._children[n - 1].0 as usize;
                if cur < c && c < parser.tags.len() {
                    cur = c;
                } else {
                    return cur;
                }
            },
            _ => {
                return cur;
            },
        }
    }
}

/// The range of indices of all that lies below `tag`.
pub fn descendant_span_of<'a>(parser: &Parser<'a>, tag: &HTMLTag<'a>) -> (r: (usize, usize))
    ensures
        (r.0 as int, r.1 as int) == descendant_span(nodes_view(parser.tags@), tag@),
        r.0 <= r.1 <= parser.tags.len(),
{
    let n = tag._children.len();
    if n == 0 {
        return (0, 0);
    }
    let first = tag._children[0].0 as usize;
    let last = tag._children[n - 1].0 as usize;
    if first <= last && last < parser.tags.len() {
        (first, subtree_last_of(parser, last) + 1)
    } else {
        (0, 0)
    }
}

/// The children of an element.
#[derive(Debug, Clone, Copy)]
pub struct Children<'a, 'b> {
    /// The element whose children these are.
    pub tag: &'b HTMLTag<'a>,
}

impl<'a, 'b> Children<'a, 'b> {
    /// The children themselves, in document order.
    pub fn top(&self) -> (r: &'b Vec<NodeHandle>)
        ensures
            *r == self.tag._children,
    {
        &self.tag._children
    }

    /// The handle of the first child.
    pub fn start(&self) -> (r: Option<NodeHandle>)
        ensures
            r == if self.tag._children@.len() > 0 {
                Some(self.tag._children@[0])
            } else {
                None
            },
    {
        if self.tag._children.len() > 0 {
            Some(self.tag._children[0])
        } else {
            None
        }
    }

    /// The indices of the first and of the last node below the element, or
    /// `None` when nothing lies below it.
    pub fn boundaries(&self, parser: &Parser<'a>) -> (r: Option<(usize, usize)>)
        ensures
            ({
                let span = descendant_span(nodes_view(parser.tags@), self.tag@);
                match r {
                    Some((first, last)) => span.0 < span.1 && first == span.0 && last == span.1 - 1,
                    None => span.0 == span.1,
                }
            }),
    {
        let (start, end) = descendant_span_of(parser, self.tag);
        if start < end {
            Some((start, end - 1))
        } else {
            None
        }
    }

    /// All the nodes below the element, in document order: children,
    /// their children, and so on.
    pub fn all<'p>(&self, parser: &'p Parser<'a>) -> (r: &'p [Node<'a>])
        ensures
            ({
                let span = descendant_span(nodes_view(parser.tags@), self.tag@);
                r@ == parser.tags@.subrange(span.0, span.1)
            }),
    {
        let (start, end) = descendant_span_of(parser, self.tag);
        vstd::slice::slice_subrange(parser.tags.as_slice(), start, end)
    }
}

} // verus!
