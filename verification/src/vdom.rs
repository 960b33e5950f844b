//! A parsed document.

use vstd::prelude::*;
use vstd::string::StringSliceAdditionalSpecFns;
use crate::errors::ParseError;
use crate::parser::attributes::value_of;
use crate::parser::base::{entries_view, Parser};
use crate::parser::constants::{class_name, id_name};
use crate::parser::grammar::{class_list_has, parse_model, Entry, Tree};
use crate::parser::handle::NodeHandle;
use crate::parser::options::{HTMLVersion, ParserOptions};
use crate::parser::order::ordered;
use crate::parser::soundness::sound;
use crate::parser::scan::class_list_contains;
use crate::parser::tag::{nodes_view, Node, NodeModel};
use crate::render::{children_html, document_html, write_children};

verus! {

/// The element filed last under `key` among the entries up to the `k`-th.
pub open spec fn last_entry(entries: Seq<Entry>, key: Seq<u8>, k: int) -> Option<NodeHandle>
    decreases k + 1,
{
    if k < 0 || k >= entries.len() {
        None
    } else if entries[k].key == key {
        Some(entries[k].handle)
    } else {
        last_entry(entries, key, k - 1)
    }
}

/// The elements filed under `key` among the entries from the `from`-th on,
/// in the order in which they were filed.
pub open spec fn entries_for(entries: Seq<Entry>, key: Seq<u8>, from: int) -> Seq<NodeHandle>
    decreases entries.len() - from,
{
    if from < 0 || from >= entries.len() {
        Seq::empty()
    } else {
        (if entries[from].key == key {
            seq![entries[from].handle]
        } else {
            Seq::empty()
        }) + entries_for(entries, key, from + 1)
    }
}

/// Whether `node` is an element whose `id` attribute has the value `id`.
pub open spec fn has_id(node: NodeModel, id: Seq<u8>) -> bool {
    match node {
        NodeModel::Tag(t) => value_of(t.attributes, id_name()) == Some(Some(id)),
        _ => false,
    }
}

/// Whether `node` is an element that has the class `name`.
pub open spec fn has_class(node: NodeModel, name: Seq<u8>) -> bool {
    match node {
        NodeModel::Tag(t) => match value_of(t.attributes, class_name()) {
            Some(Some(v)) => class_list_has(v, name),
            _ => false,
        },
        _ => false,
    }
}

/// The handle of the first node at or after `from` whose `id` is `id`.
pub open spec fn first_with_id(nodes: Seq<NodeModel>, id: Seq<u8>, from: int) -> Option<NodeHandle>
    decreases nodes.len() - from,
{
    if from < 0 || from >= nodes.len() || from > u32::MAX {
        None
    } else if has_id(nodes[from], id) {
        Some(NodeHandle(from as u32))
    } else {
        first_with_id(nodes, id, from + 1)
    }
}

/// The handles of the nodes at or after `from` that have the class `name`,
/// in document order.
pub open spec fn with_class(nodes: Seq<NodeModel>, name: Seq<u8>, from: int) -> Seq<NodeHandle>
    decreases nodes.len() - from,
{
    if from < 0 || from >= nodes.len() || from > u32::MAX {
        Seq::empty()
    } else {
        (if has_class(nodes[from], name) {
            seq![NodeHandle(from as u32)]
        } else {
            Seq::empty()
        }) + with_class(nodes, name, from + 1)
    }
}

/// The element that a lookup of `id` gives.
///
/// With an index of ids, this is the element that was filed last under
/// `id`, so that of two elements with one id the later one is found.
/// Without an index the nodes are searched in document order, and the first
/// element whose `id` attribute now has that value is found.
pub open spec fn element_by_id(t: Tree, opts: ParserOptions, id: Seq<u8>) -> Option<NodeHandle> {
    if opts.track_ids {
        last_entry(t.ids, id, t.ids.len() - 1)
    } else {
        first_with_id(t.nodes, id, 0)
    }
}

/// The elements that a lookup of the class `name` gives: those filed under
/// it, with an index of classes, and those that have it now, in document
/// order, without one.
pub open spec fn elements_by_class(t: Tree, opts: ParserOptions, name: Seq<u8>) -> Seq<NodeHandle> {
    if opts.track_classes {
        entries_for(t.classes, name, 0)
    } else {
        with_class(t.nodes, name, 0)
    }
}

/// Whether `node` is an element whose `id` attribute has the value `id`.
pub fn node_has_id<'a>(node: &Node<'a>, id: &[u8]) -> (r: bool)
    ensures
        r == has_id(node@, id@),
{
    match node {
        Node::Tag(t) => {
            let key: [u8; 2] = [0x69, 0x64];
            assert(key@ =~= id_name());
            match t._attributes.get(&key) {
                Some(Some(v)) => v.eq_bytes(id),
                _ => false,
            }
        },
        _ => false,
    }
}

/// Whether `node` is an element that has the class `name`.
pub fn node_has_class<'a>(node: &Node<'a>, name: &[u8]) -> (r: bool)
    ensures
        r == has_class(node@, name@),
{
    match node {
        Node::Tag(t) => {
            let key: [u8; 5] = [0x63, 0x6c, 0x61, 0x73, 0x73];
            assert(key@ =~= class_name());
            match t._attributes.get(&key) {
                Some(Some(v)) => class_list_contains(v.as_bytes(), name),
                _ => false,
            }
        },
        _ => false,
    }
}

/// The elements that have a class, in the order of a lookup, found one at
/// a time as they are asked for. A copy goes on from where this one stands
/// and is advanced on its own.
#[derive(Debug, Clone, Copy)]
pub struct ClassNameIterator<'a, 'b, 'n> {
    /// The store that is searched.
    pub parser: &'b Parser<'a>,
    /// The class name.
    pub name: &'n [u8],
    /// Where the search goes on: an index into the index of classes, when
    /// there is one, and into the nodes when there is none.
    pub cursor: usize,
}

impl<'a, 'b, 'n> ClassNameIterator<'a, 'b, 'n> {
    /// The elements that are still to come.
    pub open spec fn remaining(&self) -> Seq<NodeHandle> {
        if self.parser.options.track_classes {
            entries_for(entries_view(self.parser.classes@), self.name@, self.cursor as int)
        } else {
            with_class(nodes_view(self.parser.tags@), self.name@, self.cursor as int)
        }
    }

    /// The next element that has the class, or `None` when none is left,
    /// and then on every later call.
    pub fn next(&mut self) -> (r: Option<NodeHandle>)
        ensures
            final(self).parser == old(self).parser,
            final(self).name == old(self).name,
            match r {
                Some(h) => old(self).remaining().len() > 0 && h == old(self).remaining()[0]
                    && final(self).remaining() == old(self).remaining().drop_first(),
                None => old(self).remaining().len() == 0 && final(self).remaining().len() == 0,
            },
    {
        let ghost entries = entries_view(self.parser.classes@);
        let ghost nodes = nodes_view(self.parser.tags@);
        if self.parser.options.track_classes {
            while self.cursor < self.parser.classes.len()
                invariant
                    self.parser == old(self).parser,
                    self.name == old(self).name,
                    self.parser.options.track_classes,
                    entries == entries_view(self.parser.classes@),
                    self.remaining() == old(self).remaining(),
                decreases self.parser.classes.len() - self.cursor,
            {
                let i = self.cursor;
                let ghost before = self.remaining();
                self.cursor = i + 1;
                assert(entries[i as int] == self.parser.classes@[i as int]@);
                if self.parser.classes[i].key.eq_bytes(self.name) {
                    assert(before =~= seq![entries[i as int].handle] + self.remaining());
                    assert(before.drop_first() =~= self.remaining());
                    return Some(self.parser.classes[i].handle);
                }
                assert(before =~= Seq::<NodeHandle>::empty() + self.remaining());
                assert(before =~= self.remaining());
            }
            None
        } else {
            while self.cursor < self.parser.tags.len() && self.cursor <= 0xffff_ffff
                invariant
                    self.parser == old(self).parser,
                    self.name == old(self).name,
                    !self.parser.options.track_classes,
                    nodes == nodes_view(self.parser.tags@),
                    self.remaining() == old(self).remaining(),
                decreases self.parser.tags.len() - self.cursor,
            {
                let i = self.cursor;
                let ghost before = self.remaining();
                self.cursor = i + 1;
                assert(nodes[i as int] == self.parser.tags@[i as int]@);
                if node_has_class(&self.parser.tags[i], self.name) {
                    assert(before =~= seq![NodeHandle(i as u32)] + self.remaining());
                    assert(before.drop_first() =~= self.remaining());
                    return Some(NodeHandle(i as u32));
                }
                assert(before =~= Seq::<NodeHandle>::empty() + self.remaining());
                assert(before =~= self.remaining());
            }
            None
        }
    }

    /// All the elements that are still to come, at once.
    pub fn collect(self) -> (r: Vec<NodeHandle>)
        ensures
            r@ == self.remaining(),
    {
        let mut out: Vec<NodeHandle> = Vec::new();
        let mut rest = self;
        proof {
            assert(out@ + rest.remaining() =~= self.remaining());
        }
        loop
            invariant
                out@ + rest.remaining() == self.remaining(),
            decreases rest.remaining().len(),
        {
            let ghost found = out@;
            let ghost before = rest.remaining();
            match rest.next() {
                Some(h) => {
                    out.push(h);
                    assert(found + before =~= found.push(h) + before.drop_first());
                },
                None => {
                    assert(found + before =~= found);
                    return out;
                },
            }
        }
    }
}

/// A parsed document: the nodes and the input that they were read from.
#[derive(Debug)]
pub struct VDom<'a> {
    /// The store of the nodes.
    pub parser: Parser<'a>,
}

impl<'a> VDom<'a> {
    /// The store of the document's nodes, which handles are resolved with.
    pub fn parser(&self) -> (r: &Parser<'a>)
        ensures
            *r == self.parser,
    {
        &self.parser
    }

    /// The store of the document's nodes, for changing nodes through
    /// their handles. From then on the document is rendered node by node and
    /// no longer as the input; each node that is handed out is marked when
    /// it is.
    pub fn parser_mut(&mut self) -> (r: &mut Parser<'a>)
        ensures
            *r == (Parser { modified: true, ..old(self).parser }),
            final(self).parser == *final(r),
    {
        self.parser.modified = true;
        &mut self.parser
    }

    /// The top-level nodes, in document order.
    pub fn children(&self) -> (r: &Vec<NodeHandle>)
        ensures
            *r == self.parser.ast,
    {
        &self.parser.ast
    }

    /// All nodes of the document, in document order. The node of the
    /// handle `h` stands at index `h.get_inner()`.
    pub fn nodes(&self) -> (r: &Vec<Node<'a>>)
        ensures
            *r == self.parser.tags,
    {
        &self.parser.tags
    }

    /// All nodes of the document, for changing them in place: none can be
    /// added or taken away. Handing them out marks every node: from then on
    /// the whole document is written out anew when it is rendered.
    pub fn nodes_mut(&mut self) -> (r: &mut [Node<'a>])
        ensures
            r@ == old(self).parser.tags@,
            final(self).parser.tags@ == final(r)@,
            final(self).parser.modified,
            final(self).parser.touched@.len() == 0,
            final(self).parser.same_but_nodes(&old(self).parser),
    {
        self.parser.modified = true;
        self.parser.touched = Vec::new();
        self.parser.tags.as_mut_slice()
    }

    /// The version of HTML that the document declares or, when it declares
    /// none, the one that the options of the parse gave.
    pub fn version(&self) -> (r: Option<HTMLVersion>)
        ensures
            r == self.parser.version,
    {
        self.parser.version
    }

    /// The element with the id `id`.
    ///
    /// With `track_ids` the index is asked, without it the nodes are
    /// searched one by one.
    pub fn get_element_by_id(&self, id: &[u8]) -> (r: Option<NodeHandle>)
        ensures
            r == element_by_id(self.parser.tree(), self.parser.options, id@),
    {
        if self.parser.options.track_ids {
            let ghost entries = entries_view(self.parser.ids@);
            let mut k = self.parser.ids.len();
            while k > 0
                invariant
                    self.parser.options.track_ids,
                    k <= self.parser.ids.len(),
                    entries == entries_view(self.parser.ids@),
                    last_entry(entries, id@, entries.len() - 1) == last_entry(entries, id@, k - 1),
                decreases k,
            {
                assert(entries[k - 1] == self.parser.ids@[k - 1]@);
                if self.parser.ids[k - 1].key.eq_bytes(id) {
                    return Some(self.parser.ids[k - 1].handle);
                }
                k -= 1;
            }
            None
        } else {
            let ghost nodes = nodes_view(self.parser.tags@);
            let n = self.parser.tags.len();
            let mut i: usize = 0;
            while i < n && i <= 0xffff_ffff
                invariant
                    !self.parser.options.track_ids,
                    n == self.parser.tags.len(),
                    i <= n,
                    nodes == nodes_view(self.parser.tags@),
                    first_with_id(nodes, id@, 0) == first_with_id(nodes, id@, i as int),
                decreases n - i,
            {
                assert(nodes[i as int] == self.parser.tags@[i as int]@);
                if node_has_id(&self.parser.tags[i], id) {
                    return Some(NodeHandle(i as u32));
                }
                i += 1;
            }
            None
        }
    }

    /// The elements that have the class `name`, found one at a time as
    /// they are asked for.
    ///
    /// With `track_classes` the index is asked, without it the nodes are
    /// searched one by one.
    pub fn get_elements_by_class_name<'b, 'n>(&'b self, name: &'n [u8]) -> (r: ClassNameIterator<
        'a,
        'b,
        'n,
    >)
        ensures
            r.remaining() == elements_by_class(self.parser.tree(), self.parser.options, name@),
            *r.parser == self.parser,
            r.name == name,
            r.cursor == 0,
    {
        ClassNameIterator { parser: &self.parser, name, cursor: 0 }
    }

    /// The markup of the whole document.
    ///
    /// While no mutable access was handed out, this is the input, byte for
    /// byte. After that the top-level nodes are rendered one after the other:
    /// a subtree in which no node was handed out for change as the bytes that
    /// it spans in the input, any other written out anew.
    pub fn outer_html(&self) -> (r: Vec<u8>)
        ensures
            r@ == document_html(
                self.parser.input@,
                nodes_view(self.parser.tags@),
                self.parser.ast@,
                self.parser.touched@,
                self.parser.modified,
            ),
    {
        if self.parser.modified {
            let mut out: Vec<u8> = Vec::new();
            write_children(&self.parser, &self.parser.ast, 0, &mut out);
            assert(out@ =~= children_html(
                nodes_view(self.parser.tags@),
                self.parser.touched@,
                self.parser.ast@,
                0,
                0,
            ));
            out
        } else {
            vstd::slice::slice_to_vec(self.parser.input)
        }
    }
}

/// A document that nobody was given mutable access to since it was parsed
/// is rendered as the input that it was parsed from, byte for byte,
/// whatever the input is.
pub proof fn lemma_round_trip(
    input: Seq<u8>,
    nodes: Seq<NodeModel>,
    top: Seq<NodeHandle>,
    marks: Seq<bool>,
)
    ensures
        document_html(input, nodes, top, marks, false) == input,
{
}

/// Parses the bytes `input` into a document.
///
/// Malformed markup is no error: the document holds what could be made of
/// it. The parse fails only when `input` is longer than `u32::MAX` bytes or
/// holds more nodes than `options` allows.
pub fn parse_bytes<'a>(input: &'a [u8], options: ParserOptions) -> (r: Result<VDom<'a>, ParseError>)
    ensures
        match r {
            Ok(dom) => {
                &&& parse_model(input@, options) == Ok::<Tree, ParseError>(dom.parser.tree())
                &&& dom.parser.input == input
                &&& dom.parser.options == options
                &&& dom.parser.unmarked()
                &&& dom.parser.all_borrowed()
                &&& sound(input@, dom.parser.tree(), input@.len() as int)
                &&& ordered(dom.parser.tree())
            },
            Err(e) => parse_model(input@, options) == Err::<Tree, ParseError>(e),
        },
{
    match Parser::parse(input, options) {
        Ok(parser) => Ok(VDom { parser }),
        Err(e) => Err(e),
    }
}

/// Parses the string `input` into a document. See `parse_bytes`.
pub fn parse<'a>(input: &'a str, options: ParserOptions) -> (r: Result<VDom<'a>, ParseError>)
    ensures
        match r {
            Ok(dom) => {
                &&& parse_model(input.spec_bytes(), options) == Ok::<Tree, ParseError>(
                    dom.parser.tree(),
                )
                &&& dom.parser.input@ == input.spec_bytes()
                &&& dom.parser.options == options
                &&& dom.parser.unmarked()
                &&& dom.parser.all_borrowed()
                &&& sound(input.spec_bytes(), dom.parser.tree(), input.spec_bytes().len() as int)
                &&& ordered(dom.parser.tree())
            },
            Err(e) => parse_model(input.spec_bytes(), options) == Err::<Tree, ParseError>(e),
        },
{
    parse_bytes(input.as_bytes(), options)
}

} // verus!
