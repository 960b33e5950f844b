//! Markup and text from a tree.
//!
//! A document that nobody was given mutable access to since the parse is
//! rendered as the input itself. After that, the store keeps a mark for
//! each node that was handed out for change. A subtree in which no node is
//! marked is still rendered from the input: an element is the bytes it spans
//! there. A subtree with a marked node is written out anew, from names,
//! attributes and children, down to the subtrees in it that hold no mark.
//!
//! Rendering follows child handles downwards only: a child is visited when
//! its index lies above its parent's, as it does for every child that the
//! parser added. So rendering ends on every store of nodes, whatever was
//! done to it.

use vstd::prelude::*;
use crate::parser::attributes::{Attr, Attributes};
use crate::parser::base::Parser;
use crate::parser::constants::{is_void, is_void_name, DOUBLE_QUOTE, EQUALS, GT, LT, SLASH, SPACE};
use crate::parser::grammar::Tree;
use crate::parser::handle::NodeHandle;
use crate::parser::soundness::{node_sound, sound};
use crate::parser::tag::{nodes_view, HTMLTag, Node, NodeModel, TagModel};

verus! {

/// One attribute as markup: a space, the name and, for an attribute with a
/// value, `="`, the value and `"`.
pub open spec fn attr_html(a: Attr) -> Seq<u8> {
    seq![SPACE] + a.name + match a.value {
        Some(v) => seq![EQUALS, DOUBLE_QUOTE] + v + seq![DOUBLE_QUOTE],
        None => Seq::empty(),
    }
}

/// The attributes from `from` on as markup, in order.
pub open spec fn attrs_html(attrs: Seq<Attr>, from: int) -> Seq<u8>
    decreases attrs.len() - from,
{
    if from < 0 || from >= attrs.len() {
        Seq::empty()
    } else {
        attr_html(attrs[from]) + attrs_html(attrs, from + 1)
    }
}

/// The start tag of `t` as markup.
pub open spec fn open_tag_html(t: TagModel) -> Seq<u8> {
    seq![LT] + t.name + attrs_html(t.attributes, 0) + seq![GT]
}

/// The end tag for `name` as markup.
pub open spec fn close_tag_html(name: Seq<u8>) -> Seq<u8> {
    seq![LT, SLASH] + name + seq![GT]
}

/// Whether `c` is rendered as a child of an element whose children must
/// have an index of at least `min_child`.
pub open spec fn is_rendered(nodes: Seq<NodeModel>, c: NodeHandle, min_child: int) -> bool {
    min_child <= c.index() < nodes.len()
}

/// Whether the node at `i` counts as changed: it was handed out for
/// change, or the marks do not reach as far as `i`.
pub open spec fn is_touched(marks: Seq<bool>, i: int) -> bool {
    !(0 <= i < marks.len()) || marks[i]
}

/// Whether the subtree of the node at `i` is as parsed: neither the node
/// nor anything below it counts as changed.
pub open spec fn clean(nodes: Seq<NodeModel>, marks: Seq<bool>, i: int) -> bool
    decreases nodes.len() - i - 1, 2nat, 0nat,
{
    if i < 0 || i >= nodes.len() || is_touched(marks, i) {
        false
    } else {
        match nodes[i] {
            NodeModel::Tag(t) => children_clean(nodes, marks, t.children, i + 1, 0),
            _ => true,
        }
    }
}

/// Whether the subtrees of the children from the `k`-th on are as parsed.
/// A child that does not stand after its parent in the store is no child
/// that the parser added.
pub open spec fn children_clean(
    nodes: Seq<NodeModel>,
    marks: Seq<bool>,
    children: Seq<NodeHandle>,
    min_child: int,
    k: int,
) -> bool
    decreases nodes.len() - min_child, 0nat, children.len() - k,
{
    if k < 0 || k >= children.len() {
        true
    } else if !is_rendered(nodes, children[k], min_child) {
        false
    } else if !clean(nodes, marks, children[k].index()) {
        false
    } else {
        children_clean(nodes, marks, children, min_child, k + 1)
    }
}

/// The element `t` written out anew: start tag, children, end tag. A void
/// element is its start tag alone. Each child is rendered as `node_html`
/// says, so that what is as parsed below the element stays as it was.
pub open spec fn tag_html(
    nodes: Seq<NodeModel>,
    marks: Seq<bool>,
    t: TagModel,
    min_child: int,
) -> Seq<u8>
    decreases nodes.len() - min_child, 1nat, 0nat,
{
    open_tag_html(t) + if is_void_name(t.name) {
        Seq::empty()
    } else {
        children_html(nodes, marks, t.children, min_child, 0) + close_tag_html(t.name)
    }
}

/// The children from the `k`-th on, rendered one after the other.
pub open spec fn children_html(
    nodes: Seq<NodeModel>,
    marks: Seq<bool>,
    children: Seq<NodeHandle>,
    min_child: int,
    k: int,
) -> Seq<u8>
    decreases nodes.len() - min_child, 0nat, children.len() - k,
{
    if k < 0 || k >= children.len() {
        Seq::empty()
    } else {
        (if is_rendered(nodes, children[k], min_child) {
            node_html(nodes, marks, children[k].index())
        } else {
            Seq::empty()
        }) + children_html(nodes, marks, children, min_child, k + 1)
    }
}

/// The markup of the node at `i`. A subtree that is as parsed is rendered
/// as it stands in the input. Otherwise an element is written out anew, and
/// text and comments are written as they are held.
pub open spec fn node_html(nodes: Seq<NodeModel>, marks: Seq<bool>, i: int) -> Seq<u8>
    decreases nodes.len() - i - 1, 2nat, 0nat,
{
    if i < 0 || i >= nodes.len() {
        Seq::empty()
    } else if clean(nodes, marks, i) {
        verbatim(nodes[i])
    } else {
        match nodes[i] {
            NodeModel::Tag(t) => tag_html(nodes, marks, t, i + 1),
            NodeModel::Raw(b) => b,
            NodeModel::Comment(b) => b,
        }
    }
}

/// The node as it stands in the input: an element is the bytes it spans.
pub open spec fn verbatim(node: NodeModel) -> Seq<u8> {
    match node {
        NodeModel::Tag(t) => t.raw,
        NodeModel::Raw(b) => b,
        NodeModel::Comment(b) => b,
    }
}

/// The children from the `k`-th on as they stand in the input, one after
/// the other.
pub open spec fn children_verbatim(nodes: Seq<NodeModel>, children: Seq<NodeHandle>, k: int) -> Seq<
    u8,
>
    decreases children.len() - k,
{
    if k < 0 || k >= children.len() {
        Seq::empty()
    } else {
        (if children[k].index() < nodes.len() {
            verbatim(nodes[children[k].index()])
        } else {
            Seq::empty()
        }) + children_verbatim(nodes, children, k + 1)
    }
}

/// The markup of the element `t`, content and tags, for an element that is
/// asked itself and not by its handle: the bytes it spans in the input while
/// no node of the store was handed out for change, and after that the
/// element written out anew, with each child rendered as `node_html` says.
pub open spec fn tag_outer_html(
    nodes: Seq<NodeModel>,
    marks: Seq<bool>,
    modified: bool,
    t: TagModel,
) -> Seq<u8> {
    if modified {
        tag_html(nodes, marks, t, 0)
    } else {
        t.raw
    }
}

/// The markup of the children of the element `t`, one after the other.
pub open spec fn tag_inner_html(
    nodes: Seq<NodeModel>,
    marks: Seq<bool>,
    modified: bool,
    t: TagModel,
) -> Seq<u8> {
    if modified {
        children_html(nodes, marks, t.children, 0, 0)
    } else {
        children_verbatim(nodes, t.children, 0)
    }
}

/// The markup of a whole document with the top-level nodes `top`: the
/// input byte for byte while no mutable access was handed out, and after
/// that the top-level nodes one after the other, each rendered as
/// `node_html` says.
pub open spec fn document_html(
    input: Seq<u8>,
    nodes: Seq<NodeModel>,
    top: Seq<NodeHandle>,
    marks: Seq<bool>,
    modified: bool,
) -> Seq<u8> {
    if modified {
        children_html(nodes, marks, top, 0, 0)
    } else {
        input
    }
}

/// The text in the element `t`: the text of its children, one after the
/// other.
pub open spec fn tag_text(nodes: Seq<NodeModel>, t: TagModel, min_child: int) -> Seq<u8>
    decreases nodes.len() - min_child, 1nat, 0nat,
{
    children_text(nodes, t.children, min_child, 0)
}

/// The text of the children from the `k`-th on, one after the other.
pub open spec fn children_text(
    nodes: Seq<NodeModel>,
    children: Seq<NodeHandle>,
    min_child: int,
    k: int,
) -> Seq<u8>
    decreases nodes.len() - min_child, 0nat, children.len() - k,
{
    if k < 0 || k >= children.len() {
        Seq::empty()
    } else {
        (if is_rendered(nodes, children[k], min_child) {
            node_text(nodes, children[k].index())
        } else {
            Seq::empty()
        }) + children_text(nodes, children, min_child, k + 1)
    }
}

/// The text of the node at `i`: a run of text is its own text, a comment
/// has none, an element has the text in it.
pub open spec fn node_text(nodes: Seq<NodeModel>, i: int) -> Seq<u8>
    decreases nodes.len() - i - 1, 2nat, 0nat,
{
    if i < 0 || i >= nodes.len() {
        Seq::empty()
    } else {
        match nodes[i] {
            NodeModel::Tag(t) => tag_text(nodes, t, i + 1),
            NodeModel::Raw(b) => b,
            NodeModel::Comment(_) => Seq::empty(),
        }
    }
}

/// Appends the attributes as markup.
pub fn write_attributes<'a>(attributes: &Attributes<'a>, out: &mut Vec<u8>)
    ensures
        final(out)@ == old(out)@ + attrs_html(attributes@, 0),
{
    let ghost start = out@;
    let n = attributes.raw.len();
    let mut i: usize = 0;
    proof {
        assert(start + attrs_html(attributes@, 0) =~= out@ + attrs_html(attributes@, 0));
    }
    while i < n
        invariant
            n == attributes.raw.len(),
            i <= n,
            start + attrs_html(attributes@, 0) == out@ + attrs_html(attributes@, i as int),
        decreases n - i,
    {
        let ghost written = out@;
        let ghost a = attributes@[i as int];
        out.push(SPACE);
        out.extend_from_slice(attributes.raw[i].name.as_bytes());
        match &attributes.raw[i].value {
            Some(v) => {
                out.push(EQUALS);
                out.push(DOUBLE_QUOTE);
                out.extend_from_slice(v.as_bytes());
                out.push(DOUBLE_QUOTE);
                assert(out@ =~= written + attr_html(a));
            },
            None => {
                assert(out@ =~= written + attr_html(a));
            },
        }
        proof {
            assert(written + (attr_html(a) + attrs_html(attributes@, i + 1)) =~= (written
                + attr_html(a)) + attrs_html(attributes@, i + 1));
        }
        i += 1;
    }
    proof {
        assert(out@ + attrs_html(attributes@, n as int) =~= out@);
    }
}

/// Whether the subtree of the node at `i` is as parsed.
pub fn subtree_clean<'a>(parser: &Parser<'a>, i: usize) -> (r: bool)
    requires
        i < parser.tags.len(),
    ensures
        r == clean(nodes_view(parser.tags@), parser.touched@, i as int),
    decreases parser.tags.len() - i - 1, 2nat, 0nat,
{
    if i >= parser.touched.len() || parser.touched[i] {
        return false;
    }
    match &parser.tags[i] {
        Node::Tag(t) => all_clean(parser, &t._children, i + 1),
        _ => true,
    }
}

/// Whether the subtrees of the children are as parsed.
pub fn all_clean<'a>(parser: &Parser<'a>, children: &Vec<NodeHandle>, min_child: usize) -> (r: bool)
    ensures
        r == children_clean(
            nodes_view(parser.tags@),
            parser.touched@,
            children@,
            min_child as int,
            0,
        ),
    decreases parser.tags.len() - min_child, 0nat, children.len(),
{
    let ghost nodes = nodes_view(parser.tags@);
    let ghost marks = parser.touched@;
    let n = children.len();
    let mut k: usize = 0;
    while k < n
        invariant
            n == children.len(),
            k <= n,
            nodes == nodes_view(parser.tags@),
            marks == parser.touched@,
            children_clean(nodes, marks, children@, min_child as int, 0) == children_clean(
                nodes,
                marks,
                children@,
                min_child as int,
                k as int,
            ),
        decreases n - k,
    {
        let c = children[k].0 as usize;
        if !(min_child <= c && c < parser.tags.len()) {
            return false;
        }
        if !subtree_clean(parser, c) {
            return false;
        }
        k += 1;
    }
    true
}

/// Appends the element `tag` written out anew.
pub fn write_tag<'a>(parser: &Parser<'a>, tag: &HTMLTag<'a>, min_child: usize, out: &mut Vec<u8>)
    ensures
        final(out)@ == old(out)@ + tag_html(
            nodes_view(parser.tags@),
            parser.touched@,
            tag@,
            min_child as int,
        ),
    decreases parser.tags.len() - min_child, 1nat, 0nat,
{
    let ghost start = out@;
    let ghost nodes = nodes_view(parser.tags@);
    let ghost marks = parser.touched@;
    out.push(LT);
    out.extend_from_slice(tag._name.as_bytes());
    write_attributes(&tag._attributes, out);
    out.push(GT);
    assert(out@ =~= start + open_tag_html(tag@));
    if is_void(tag._name.as_bytes()) {
        assert(out@ =~= start + tag_html(nodes, marks, tag@, min_child as int));
        return ;
    }
    write_children(parser, &tag._children, min_child, out);
    out.push(LT);
    out.push(SLASH);
    out.extend_from_slice(tag._name.as_bytes());
    out.push(GT);
    assert(out@ =~= start + tag_html(nodes, marks, tag@, min_child as int));
}

/// Appends the children, rendered one after the other.
pub fn write_children<'a>(
    parser: &Parser<'a>,
    children: &Vec<NodeHandle>,
    min_child: usize,
    out: &mut Vec<u8>,
)
    ensures
        final(out)@ == old(out)@ + children_html(
            nodes_view(parser.tags@),
            parser.touched@,
            children@,
            min_child as int,
            0,
        ),
    decreases parser.tags.len() - min_child, 0nat, children.len(),
{
    let ghost start = out@;
    let ghost nodes = nodes_view(parser.tags@);
    let ghost marks = parser.touched@;
    let n = children.len();
    let mut k: usize = 0;
    while k < n
        invariant
            n == children.len(),
            k <= n,
            nodes == nodes_view(parser.tags@),
            marks == parser.touched@,
            start + children_html(nodes, marks, children@, min_child as int, 0) == out@
                + children_html(nodes, marks, children@, min_child as int, k as int),
        decreases n - k,
    {
        let ghost written = out@;
        let c = children[k].0 as usize;
        if min_child <= c && c < parser.tags.len() {
            write_node(parser, c, out);
        }
        proof {
            let piece = if is_rendered(nodes, children@[k as int], min_child as int) {
                node_html(nodes, marks, c as int)
            } else {
                Seq::empty()
            };
            assert(out@ =~= written + piece);
            assert(written + (piece + children_html(
                nodes,
                marks,
                children@,
                min_child as int,
                k + 1,
            )) =~= (written + piece) + children_html(
                nodes,
                marks,
                children@,
                min_child as int,
                k + 1,
            ));
        }
        k += 1;
    }
    proof {
        assert(out@ + children_html(nodes, marks, children@, min_child as int, n as int) =~= out@);
    }
}

/// Appends the markup of the node at `i`.
pub fn write_node<'a>(parser: &Parser<'a>, i: usize, out: &mut Vec<u8>)
    requires
        i < parser.tags.len(),
    ensures
        final(out)@ == old(out)@ + node_html(
            nodes_view(parser.tags@),
            parser.touched@,
            i as int,
        ),
    decreases parser.tags.len() - i - 1, 2nat, 0nat,
{
    if subtree_clean(parser, i) {
        write_verbatim(&parser.tags[i], out);
        return ;
    }
    match &parser.tags[i] {
        Node::Tag(t) => write_tag(parser, t, i + 1, out),
        Node::Raw(b) => out.extend_from_slice(b.as_bytes()),
        Node::Comment(b) => out.extend_from_slice(b.as_bytes()),
    }
}

/// Appends the node as it stands in the input.
pub fn write_verbatim<'a>(node: &Node<'a>, out: &mut Vec<u8>)
    ensures
        final(out)@ == old(out)@ + verbatim(node@),
{
    match node {
        Node::Tag(t) => out.extend_from_slice(t._raw.as_bytes()),
        Node::Raw(b) => out.extend_from_slice(b.as_bytes()),
        Node::Comment(b) => out.extend_from_slice(b.as_bytes()),
    }
}

/// Appends the children as they stand in the input, one after the other.
pub fn write_children_verbatim<'a>(
    parser: &Parser<'a>,
    children: &Vec<NodeHandle>,
    out: &mut Vec<u8>,
)
    ensures
        final(out)@ == old(out)@ + children_verbatim(nodes_view(parser.tags@), children@, 0),
{
    let ghost start = out@;
    let ghost nodes = nodes_view(parser.tags@);
    let n = children.len();
    let mut k: usize = 0;
    while k < n
        invariant
            n == children.len(),
            k <= n,
            nodes == nodes_view(parser.tags@),
            start + children_verbatim(nodes, children@, 0) == out@ + children_verbatim(
                nodes,
                children@,
                k as int,
            ),
        decreases n - k,
    {
        let ghost written = out@;
        let c = children[k].0 as usize;
        if c < parser.tags.len() {
            write_verbatim(&parser.tags[c], out);
        }
        proof {
            let piece = if c < nodes.len() {
                verbatim(nodes[c as int])
            } else {
                Seq::empty()
            };
            assert(out@ =~= written + piece);
            assert(written + (piece + children_verbatim(nodes, children@, k + 1)) =~= (written
                + piece) + children_verbatim(nodes, children@, k + 1));
        }
        k += 1;
    }
    proof {
        assert(out@ + children_verbatim(nodes, children@, n as int) =~= out@);
    }
}

/// Appends the text of the children, one after the other.
pub fn write_children_text<'a>(
    parser: &Parser<'a>,
    children: &Vec<NodeHandle>,
    min_child: usize,
    out: &mut Vec<u8>,
)
    ensures
        final(out)@ == old(out)@ + children_text(
            nodes_view(parser.tags@),
            children@,
            min_child as int,
            0,
        ),
    decreases parser.tags.len() - min_child, 0nat, children.len(),
{
    let ghost start = out@;
    let ghost nodes = nodes_view(parser.tags@);
    let n = children.len();
    let mut k: usize = 0;
    while k < n
        invariant
            n == children.len(),
            k <= n,
            nodes == nodes_view(parser.tags@),
            start + children_text(nodes, children@, min_child as int, 0) == out@ + children_text(
                nodes,
                children@,
                min_child as int,
                k as int,
            ),
        decreases n - k,
    {
        let ghost written = out@;
        let c = children[k].0 as usize;
        if min_child <= c && c < parser.tags.len() {
            write_node_text(parser, c, out);
        }
        proof {
            let piece = if is_rendered(nodes, children@[k as int], min_child as int) {
                node_text(nodes, c as int)
            } else {
                Seq::empty()
            };
            assert(out@ =~= written + piece);
            assert(written + (piece + children_text(nodes, children@, min_child as int, k + 1))
                =~= (written + piece) + children_text(nodes, children@, min_child as int, k + 1));
        }
        k += 1;
    }
    proof {
        assert(out@ + children_text(nodes, children@, min_child as int, n as int) =~= out@);
    }
}

/// Appends the text of the node at `i`.
pub fn write_node_text<'a>(parser: &Parser<'a>, i: usize, out: &mut Vec<u8>)
    requires
        i < parser.tags.len(),
    ensures
        final(out)@ == old(out)@ + node_text(nodes_view(parser.tags@), i as int),
    decreases parser.tags.len() - i - 1, 2nat, 0nat,
{
    match &parser.tags[i] {
        Node::Tag(t) => {
            write_children_text(parser, &t._children, i + 1, out);
        },
        Node::Raw(b) => out.extend_from_slice(b.as_bytes()),
        Node::Comment(_) => {
            assert(out@ + Seq::<u8>::empty() =~= out@);
        },
    }
}

/// In a sound tree in which no node is marked, the subtree of every node
/// is as parsed: as long as no node was handed out for change, every node
/// is rendered as it stands in the input.
pub proof fn lemma_unmarked_is_clean(s: Seq<u8>, t: Tree, pos: int, marks: Seq<bool>, i: int)
    requires
        sound(s, t, pos),
        marks.len() == t.nodes.len(),
        forall|j: int| 0 <= j < marks.len() ==> !(#[trigger] marks[j]),
        0 <= i < t.nodes.len(),
    ensures
        clean(t.nodes, marks, i),
        node_html(t.nodes, marks, i) == verbatim(t.nodes[i]),
    decreases t.nodes.len() - i, 1nat, 0nat,
{
    match t.nodes[i] {
        NodeModel::Tag(tag) => {
            lemma_unmarked_children(s, t, pos, marks, i, 0);
        },
        _ => {},
    }
}

/// In a sound tree in which no node is marked, the subtrees of the
/// children of the element at `i`, from the `k`-th child on, are as parsed.
pub proof fn lemma_unmarked_children(
    s: Seq<u8>,
    t: Tree,
    pos: int,
    marks: Seq<bool>,
    i: int,
    k: int,
)
    requires
        sound(s, t, pos),
        marks.len() == t.nodes.len(),
        forall|j: int| 0 <= j < marks.len() ==> !(#[trigger] marks[j]),
        0 <= i < t.nodes.len(),
        t.nodes[i] is Tag,
        0 <= k <= t.nodes[i]->Tag_0.children.len(),
    ensures
        children_clean(t.nodes, marks, t.nodes[i]->Tag_0.children, i + 1, k),
    decreases t.nodes.len() - i, 0nat, t.nodes[i]->Tag_0.children.len() - k,
{
    let children = t.nodes[i]->Tag_0.children;
    if k < children.len() {
        assert(node_sound(s, t, i, pos));
        let c = children[k].index();
        assert(i < c < t.nodes.len());
        lemma_unmarked_is_clean(s, t, pos, marks, c);
        lemma_unmarked_children(s, t, pos, marks, i, k + 1);
    }
}

} // verus!
