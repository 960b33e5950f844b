//! Nodes: elements, text and comments.

use vstd::prelude::*;
use crate::bytes::Bytes;
use crate::parser::attributes::{Attr, Attributes};
use crate::parser::base::Parser;
use crate::parser::children::Children;
use crate::parser::handle::NodeHandle;
use crate::render::{
    tag_inner_html, tag_outer_html, tag_text, write_children, write_children_text,
    write_children_verbatim, write_tag,
};

verus! {

/// What an element says.
pub struct TagModel {
    /// The element's name.
    pub name: Seq<u8>,
    /// Its attributes, in order.
    pub attributes: Seq<Attr>,
    /// Its children, in document order.
    pub children: Seq<NodeHandle>,
    /// The offset in the input at which the element starts.
    pub start: nat,
    /// The bytes of the input that the element spans.
    pub raw: Seq<u8>,
}

/// What a node says.
pub enum NodeModel {
    /// An element.
    Tag(TagModel),
    /// A run of text.
    Raw(Seq<u8>),
    /// A comment, delimiters included.
    Comment(Seq<u8>),
}

/// An element.
#[derive(Debug)]
pub struct HTMLTag<'a> {
    /// The name, as written in the start tag.
    pub _name: Bytes<'a>,
    /// The attributes.
    pub _attributes: Attributes<'a>,
    /// The children, in document order.
    pub _children: Vec<NodeHandle>,
    /// The bytes of the input that the element spans.
    pub _raw: Bytes<'a>,
    /// The offset in the input at which the element starts.
    pub _start: usize,
}

impl<'a> View for HTMLTag<'a> {
    type V = TagModel;

    open spec fn view(&self) -> TagModel {
        TagModel {
            name: self._name@,
            attributes: self._attributes@,
            children: self._children@,
            start: self._start as nat,
            raw: self._raw@,
        }
    }
}

/// A node of the tree.
#[derive(Debug)]
pub enum Node<'a> {
    /// An element.
    Tag(HTMLTag<'a>),
    /// A run of text.
    Raw(Bytes<'a>),
    /// A comment, delimiters included.
    Comment(Bytes<'a>),
}

impl<'a> View for Node<'a> {
    type V = NodeModel;

    open spec fn view(&self) -> NodeModel {
        match self {
            Node::Tag(t) => NodeModel::Tag(t@),
            Node::Raw(b) => NodeModel::Raw(b@),
            Node::Comment(b) => NodeModel::Comment(b@),
        }
    }
}

/// What a store of nodes says, node by node.
pub open spec fn nodes_view<'a>(nodes: Seq<Node<'a>>) -> Seq<NodeModel> {
    Seq::new(nodes.len(), |i: int| nodes[i]@)
}

impl<'a> HTMLTag<'a> {
    /// Name, attributes and span are views of a buffer that lives
    /// elsewhere: nothing was copied to hold them.
    pub open spec fn is_borrowed(&self) -> bool {
        &&& self._name.is_borrowed()
        &&& self._raw.is_borrowed()
        &&& self._attributes.all_borrowed()
    }

    /// An element called `name` that starts at offset `start` of the input
    /// and spans the bytes `raw`.
    pub fn new(
        name: Bytes<'a>,
        attributes: Attributes<'a>,
        children: Vec<NodeHandle>,
        raw: Bytes<'a>,
        start: usize,
    ) -> (r: Self)
        ensures
            r == (HTMLTag {
                _name: name,
                _attributes: attributes,
                _children: children,
                _raw: raw,
                _start: start,
            }),
    {
        HTMLTag { _name: name, _attributes: attributes, _children: children, _raw: raw, _start: start }
    }

    /// The element's name.
    pub fn name(&self) -> (r: &Bytes<'a>)
        ensures
            *r == self._name,
    {
        &self._name
    }

    /// Mutable access to the element's name.
    pub fn name_mut(&mut self) -> (r: &mut Bytes<'a>)
        ensures
            *r == old(self)._name,
            *final(self) == (HTMLTag { _name: *final(r), ..*old(self) }),
    {
        &mut self._name
    }

    /// The element's attributes.
    pub fn attributes(&self) -> (r: &Attributes<'a>)
        ensures
            *r == self._attributes,
    {
        &self._attributes
    }

    /// Mutable access to the element's attributes.
    pub fn attributes_mut(&mut self) -> (r: &mut Attributes<'a>)
        ensures
            *r == old(self)._attributes,
            *final(self) == (HTMLTag { _attributes: *final(r), ..*old(self) }),
    {
        &mut self._attributes
    }

    /// The bytes of the input that the element spans, from the `<` of its
    /// start tag through the `>` of its end tag.
    pub fn raw(&self) -> (r: &Bytes<'a>)
        ensures
            *r == self._raw,
    {
        &self._raw
    }

    /// The element's children.
    pub fn children<'b>(&'b self) -> (r: Children<'a, 'b>)
        ensures
            *r.tag == *self,
    {
        Children { tag: self }
    }

    /// Mutable access to the handles of the element's children.
    pub fn children_mut(&mut self) -> (r: &mut Vec<NodeHandle>)
        ensures
            *r == old(self)._children,
            *final(self) == (HTMLTag { _children: *final(r), ..*old(self) }),
    {
        &mut self._children
    }

    /// The offsets in the input of the first and of the last byte that the
    /// element spans. For an element that spans nothing, both are the
    /// offset at which it starts.
    pub fn boundaries(&self, parser: &Parser<'a>) -> (r: (usize, usize))
        requires
            self._start + self._raw@.len() <= usize::MAX,
        ensures
            r.0 == self._start,
            r.1 == if self._raw@.len() == 0 {
                self._start as int
            } else {
                self._start + self._raw@.len() - 1
            },
    {
        let len = self._raw.len();
        if len == 0 {
            (self._start, self._start)
        } else {
            (self._start, self._start + len - 1)
        }
    }

    /// The markup of the element, tags and content.
    ///
    /// While no node of the store was handed out for change, these are the
    /// bytes that the element spans in the input. After that the element is
    /// written out anew: attributes in order, each value in double quotes,
    /// and an end tag unless the element is void. What is as parsed below it
    /// stays as it stands in the input. An element does not know its handle;
    /// `NodeHandle::outer_html` also leaves the element itself as it stands
    /// when nothing in its subtree was handed out.
    pub fn outer_html(&self, parser: &Parser<'a>) -> (r: Vec<u8>)
        ensures
            r@ == tag_outer_html(
                nodes_view(parser.tags@),
                parser.touched@,
                parser.modified,
                self@,
            ),
    {
        let mut out: Vec<u8> = Vec::new();
        if parser.modified {
            write_tag(parser, self, 0, &mut out);
        } else {
            out.extend_from_slice(self._raw.as_bytes());
        }
        assert(Seq::<u8>::empty() + out@ =~= out@);
        out
    }

    /// The markup of the element's children, one after the other.
    pub fn inner_html(&self, parser: &Parser<'a>) -> (r: Vec<u8>)
        ensures
            r@ == tag_inner_html(
                nodes_view(parser.tags@),
                parser.touched@,
                parser.modified,
                self@,
            ),
    {
        let mut out: Vec<u8> = Vec::new();
        if parser.modified {
            write_children(parser, &self._children, 0, &mut out);
        } else {
            write_children_verbatim(parser, &self._children, &mut out);
        }
        assert(Seq::<u8>::empty() + out@ =~= out@);
        out
    }

    /// The text in the element: every run of text below it, in document
    /// order.
    pub fn inner_text(&self, parser: &Parser<'a>) -> (r: Vec<u8>)
        ensures
            r@ == tag_text(nodes_view(parser.tags@), self@, 0),
    {
        let mut out: Vec<u8> = Vec::new();
        write_children_text(parser, &self._children, 0, &mut out);
        assert(Seq::<u8>::empty() + tag_text(nodes_view(parser.tags@), self@, 0) =~= tag_text(
            nodes_view(parser.tags@),
            self@,
            0,
        ));
        out
    }
}

/// The markup of a node: an element's markup, a run of text or a comment
/// as it is held.
pub open spec fn node_outer_html(
    nodes: Seq<NodeModel>,
    marks: Seq<bool>,
    modified: bool,
    node: NodeModel,
) -> Seq<u8> {
    match node {
        NodeModel::Tag(t) => tag_outer_html(nodes, marks, modified, t),
        NodeModel::Raw(b) => b,
        NodeModel::Comment(b) => b,
    }
}

/// The text of a node: the text in an element, a run of text itself,
/// nothing for a comment.
pub open spec fn node_inner_text(nodes: Seq<NodeModel>, node: NodeModel) -> Seq<u8> {
    match node {
        NodeModel::Tag(t) => tag_text(nodes, t, 0),
        NodeModel::Raw(b) => b,
        NodeModel::Comment(_) => Seq::empty(),
    }
}

impl<'a> Node<'a> {
    /// What the node holds are views of a buffer that lives elsewhere:
    /// nothing was copied to hold it.
    pub open spec fn is_borrowed(&self) -> bool {
        match self {
            Node::Tag(t) => t.is_borrowed(),
            Node::Raw(b) => b.is_borrowed(),
            Node::Comment(b) => b.is_borrowed(),
        }
    }

    /// The markup of the node.
    pub fn outer_html(&self, parser: &Parser<'a>) -> (r: Vec<u8>)
        ensures
            r@ == node_outer_html(
                nodes_view(parser.tags@),
                parser.touched@,
                parser.modified,
                self@,
            ),
    {
        match self {
            Node::Tag(t) => t.outer_html(parser),
            Node::Raw(b) => vstd::slice::slice_to_vec(b.as_bytes()),
            Node::Comment(b) => vstd::slice::slice_to_vec(b.as_bytes()),
        }
    }

    /// The text of the node.
    pub fn inner_text(&self, parser: &Parser<'a>) -> (r: Vec<u8>)
        ensures
            r@ == node_inner_text(nodes_view(parser.tags@), self@),
    {
        match self {
            Node::Tag(t) => t.inner_text(parser),
            Node::Raw(b) => vstd::slice::slice_to_vec(b.as_bytes()),
            Node::Comment(_) => Vec::new(),
        }
    }

    /// The children of the node, if it is an element.
    pub fn children<'b>(&'b self) -> (r: Option<Children<'a, 'b>>)
        ensures
            match r {
                Some(c) => *self == Node::Tag(*c.tag),
                None => !(self is Tag),
            },
    {
        match self {
            Node::Tag(t) => Some(t.children()),
            _ => None,
        }
    }

    /// The element, if this node is one.
    pub fn as_tag(&self) -> (r: Option<&HTMLTag<'a>>)
        ensures
            match r {
                Some(t) => *self == Node::Tag(*t),
                None => !(self is Tag),
            },
    {
        match self {
            Node::Tag(t) => Some(t),
            _ => None,
        }
    }

    /// Mutable access to the element, if this node is one.
    pub fn as_tag_mut(&mut self) -> (r: Option<&mut HTMLTag<'a>>)
        ensures
            match r {
                Some(t) => *old(self) == Node::Tag(*t) && *final(self) == Node::Tag(*final(t)),
                None => !(*old(self) is Tag) && *final(self) == *old(self),
            },
    {
        match self {
            Node::Tag(t) => Some(t),
            _ => None,
        }
    }

    /// The text, if this node is a run of text.
    pub fn as_raw(&self) -> (r: Option<&Bytes<'a>>)
        ensures
            match r {
                Some(b) => *self == Node::Raw(*b),
                None => !(self is Raw),
            },
    {
        match self {
            Node::Raw(b) => Some(b),
            _ => None,
        }
    }

    /// Mutable access to the text, if this node is a run of text.
    pub fn as_raw_mut(&mut self) -> (r: Option<&mut Bytes<'a>>)
        ensures
            match r {
                Some(b) => *old(self) == Node::Raw(*b) && *final(self) == Node::Raw(*final(b)),
                None => !(*old(self) is Raw) && *final(self) == *old(self),
            },
    {
        match self {
            Node::Raw(b) => Some(b),
            _ => None,
        }
    }

    /// The comment, if this node is one.
    pub fn as_comment(&self) -> (r: Option<&Bytes<'a>>)
        ensures
            match r {
                Some(b) => *self == Node::Comment(*b),
                None => !(self is Comment),
            },
    {
        match self {
            Node::Comment(b) => Some(b),
            _ => None,
        }
    }

    /// Mutable access to the comment, if this node is one.
    pub fn as_comment_mut(&mut self) -> (r: Option<&mut Bytes<'a>>)
        ensures
            match r {
                Some(b) => *old(self) == Node::Comment(*b) && *final(self) == Node::Comment(
                    *final(b),
                ),
                None => !(*old(self) is Comment) && *final(self) == *old(self),
            },
    {
        match self {
            Node::Comment(b) => Some(b),
            _ => None,
        }
    }
}

} // verus!
