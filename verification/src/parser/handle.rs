//! Handles: stable references to the nodes of one tree.

use vstd::prelude::*;
use crate::parser::base::Parser;
use crate::parser::tag::{nodes_view, Node};
use crate::render::{node_html, write_node};

verus! {

/// A reference to a node: its index in the tree's node store.
///
/// A handle borrows nothing. It is resolved by presenting the tree it came
/// from, and stays valid for as long as that tree lives, because nodes are
/// never removed, only replaced in place.
#[derive(Debug, Clone, Copy, PartialEq, Eq, Hash, Structural)]
pub struct NodeHandle(pub u32);

impl NodeHandle {
    /// The handle of the node at index `node`.
    pub fn new(node: u32) -> (r: Self)
        ensures
            r == NodeHandle(node),
    {
        NodeHandle(node)
    }

    /// The index this handle stands for.
    pub fn get_inner(&self) -> (r: u32)
        ensures
            r == self.0,
    {
        self.0
    }

    /// The index this handle stands for, as a mathematical integer.
    pub open spec fn index(&self) -> int {
        self.0 as int
    }

    /// The node that this handle refers to in `parser`, or `None` when
    /// `parser` holds no node at that index: the handle came from another,
    /// larger tree.
    pub fn get<'p, 'a>(&self, parser: &'p Parser<'a>) -> (r: Option<&'p Node<'a>>)
        ensures
            match r {
                Some(node) => self.index() < parser.tags.len() && *node == parser.tags@[self.index()],
                None => self.index() >= parser.tags.len(),
            },
    {
        parser.resolve_node_id(self.0)
    }

    /// The markup of the node that this handle refers to in `parser`, and
    /// nothing for a handle that refers to no node. A subtree in which no
    /// node was handed out for change is the bytes that it spans in the input;
    /// any other is written out anew, down to such subtrees.
    pub fn outer_html<'a>(&self, parser: &Parser<'a>) -> (r: Vec<u8>)
        ensures
            r@ == node_html(nodes_view(parser.tags@), parser.touched@, self.index()),
    {
        let mut out: Vec<u8> = Vec::new();
        let i = self.0 as usize;
        if i < parser.tags.len() {
            write_node(parser, i, &mut out);
        }
        assert(out@ =~= node_html(nodes_view(parser.tags@), parser.touched@, self.index()));
        out
    }

    /// Mutable access to the node that this handle refers to in `parser`,
    /// or `None` when `parser` holds no node at that index.
    ///
    /// The node keeps its handle and its place whatever is written to it.
    /// Handing out the access marks the node: from then on it, and every
    /// element that it lies below, is written out anew when it is rendered.
    pub fn get_mut<'p, 'a>(&self, parser: &'p mut Parser<'a>) -> (r: Option<&'p mut Node<'a>>)
        ensures
            match r {
                Some(node) => {
                    &&& self.index() < old(parser).tags.len()
                    &&& *node == old(parser).tags@[self.index()]
                    &&& final(parser).tags@ == old(parser).tags@.update(self.index(), *final(node))
                    &&& final(parser).modified
                    &&& final(parser).touched@ == old(parser).marks_with(self.index())
                    &&& final(parser).same_but_nodes(old(parser))
                },
                None => self.index() >= old(parser).tags.len() && *final(parser) == *old(parser),
            },
    {
        parser.resolve_node_id_mut(self.0)
    }
}

} // verus!
