//! Document order.
//!
//! The tokenizer adds a node to the store when it meets it in the input,
//! so the store holds the nodes in document order: an element, then all
//! that lies below it, then what follows it. What lies below an element is
//! therefore a range of indices, the one that `descendant_span` computes
//! from the element's children.

use vstd::prelude::*;
use crate::errors::ParseError;
use crate::parser::children::{descendant_span, lemma_subtree_last, subtree_last};
use crate::parser::constants::{BANG, DASH, LT, SLASH};
use crate::parser::grammar::{
    append, close_down_to, close_top, index_tag, lemma_step_advances, markup, open_index,
    parse_model, run, scan_attrs, span, start_tree, step, Tree,
};
use crate::parser::handle::NodeHandle;
use crate::parser::options::ParserOptions;
use crate::parser::soundness::{
    is_element, lemma_append_sound, lemma_close_down_sound, lemma_close_top_sound,
    lemma_parse_sound, lemma_scan_attrs_distinct, lemma_step_sound, node_sound, placed, sound,
};
use crate::parser::tag::{NodeModel, TagModel};
use crate::simd::fallback::{ident_run_end, lemma_ident_run_end};
use crate::util::is_ident_byte;

verus! {

/// The index of the element that the node at `i` was made a child of.
/// A parent always stands before its children.
pub open spec fn parent_of(parents: Seq<Option<NodeHandle>>, i: int) -> Option<int> {
    if 0 <= i < parents.len() {
        match parents[i] {
            Some(p) if p.index() < i => Some(p.index()),
            _ => None,
        }
    } else {
        None
    }
}

/// Whether the node at `i` lies below the element at `a`: `a` is its
/// parent, or the parent of its parent, and so on.
pub open spec fn above(parents: Seq<Option<NodeHandle>>, a: int, i: int) -> bool
    decreases i,
{
    match parent_of(parents, i) {
        Some(p) => p == a || above(parents, a, p),
        None => false,
    }
}

/// What lies below an element stands after it in the store.
pub proof fn lemma_above_bounds(parents: Seq<Option<NodeHandle>>, a: int, i: int)
    requires
        above(parents, a, i),
    ensures
        0 <= a < i < parents.len(),
    decreases i,
{
    let p = parent_of(parents, i).unwrap();
    if p != a {
        lemma_above_bounds(parents, a, p);
    }
}

/// What lies below an element lies below all that the element lies below.
pub proof fn lemma_above_trans(parents: Seq<Option<NodeHandle>>, a: int, b: int, c: int)
    requires
        above(parents, a, b),
        above(parents, b, c),
    ensures
        above(parents, a, c),
    decreases c,
{
    let p = parent_of(parents, c).unwrap();
    if p != b {
        lemma_above_trans(parents, a, b, p);
    }
}

/// A node that is added changes nothing about the nodes before it.
pub proof fn lemma_above_push(
    parents: Seq<Option<NodeHandle>>,
    more: Option<NodeHandle>,
    a: int,
    i: int,
)
    requires
        i < parents.len(),
    ensures
        above(parents.push(more), a, i) == above(parents, a, i),
    decreases i,
{
    if 0 <= i {
        assert(parents.push(more)[i] == parents[i]);
        match parent_of(parents, i) {
            Some(p) => {
                if p != a {
                    lemma_above_push(parents, more, a, p);
                }
            },
            None => {},
        }
    }
}

/// Whether the element at `a` is the node at `i` or has it below itself.
pub open spec fn holds(parents: Seq<Option<NodeHandle>>, a: int, i: int) -> bool {
    a == i || above(parents, a, i)
}

/// The store is in document order as far as the tokenizer has come: the
/// parent of every node is the node just before it or has that node below
/// itself; each open element is the parent of the next one; and the
/// innermost open element is the newest node or has it below itself.
pub open spec fn ordered(t: Tree) -> bool {
    &&& forall|j: int|
        0 < j < t.nodes.len() ==> match #[trigger] t.parents[j] {
            Some(p) => holds(t.parents, p.index(), j - 1),
            None => true,
        }
    &&& forall|k: int|
        0 < k < t.stack.len() ==> t.parents[(#[trigger] t.stack[k]).index()] == Some(t.stack[k - 1])
    &&& t.stack.len() > 0 ==> t.parents[t.stack[0].index()].is_none()
    &&& t.stack.len() > 0 ==> holds(t.parents, t.stack.last().index(), t.nodes.len() - 1)
}

/// Adding a node keeps the store in document order, and so does making
/// the new node the innermost open element.
pub proof fn lemma_append_ordered(s: Seq<u8>, t: Tree, node: NodeModel, pos: int, next: int)
    requires
        sound(s, t, pos),
        ordered(t),
        pos < next <= s.len(),
        crate::parser::soundness::fresh(s, node, next),
    ensures
        ordered(append(t, node)),
        node is Tag ==> ordered(
            Tree {
                stack: append(t, node).stack.push(NodeHandle(t.nodes.len() as u32)),
                ..append(t, node)
            },
        ),
{
    lemma_append_sound(s, t, node, pos, next);
    let n = t.nodes.len() as int;
    let h = NodeHandle(n as u32);
    assert(h.index() == n);
    let a = append(t, node);
    let more = a.parents[n];
    assert(a.parents == t.parents.push(more));
    assert forall|j: int| 0 < j < a.nodes.len() implies match #[trigger] a.parents[j] {
        Some(p) => holds(a.parents, p.index(), j - 1),
        None => true,
    } by {
        if j < n {
            match t.parents[j] {
                Some(p) => {
                    lemma_above_push(t.parents, more, p.index(), j - 1);
                },
                None => {},
            }
        } else if t.stack.len() > 0 {
            lemma_above_push(t.parents, more, t.stack.last().index(), n - 1);
        }
    }
    assert forall|k: int| 0 < k < a.stack.len() implies a.parents[(#[trigger] a.stack[k]).index()]
        == Some(a.stack[k - 1]) by {
        assert(is_element(t, t.stack[k]));
    }
    if t.stack.len() > 0 {
        assert(is_element(t, t.stack[0]));
        assert(is_element(t, t.stack[t.stack.len() - 1]));
        assert(parent_of(a.parents, n) == Some(t.stack.last().index()));
    }
    if node is Tag {
        let b = Tree { stack: a.stack.push(h), ..a };
        assert forall|k: int| 0 < k < b.stack.len() implies b.parents[(#[trigger] b.stack[k]).index()]
            == Some(b.stack[k - 1]) by {
            if k < a.stack.len() {
                assert(is_element(t, t.stack[k]));
            }
        }
        if t.stack.len() > 0 {
            assert(b.stack[0] == t.stack[0]);
        }
    }
}

/// Closing the innermost open element keeps the store in document order.
pub proof fn lemma_close_top_ordered(s: Seq<u8>, t: Tree, pos: int, end: int)
    requires
        sound(s, t, pos),
        ordered(t),
        pos <= end <= s.len(),
    ensures
        ordered(close_top(s, t, end)),
{
    let c = close_top(s, t, end);
    if t.stack.len() > 0 {
        assert(c.parents == t.parents);
        assert forall|k: int| 0 < k < c.stack.len() implies c.parents[(#[trigger] c.stack[k]).index()]
            == Some(c.stack[k - 1]) by {
            assert(t.stack[k] == c.stack[k]);
        }
        if c.stack.len() > 0 {
            let last = t.stack.last().index();
            let k = t.stack.len() - 1;
            assert(is_element(t, t.stack[k]));
            assert(is_element(t, t.stack[k - 1]));
            assert(t.parents[t.stack[k].index()] == Some(t.stack[k - 1]));
            assert(c.stack.last() == t.stack[k - 1]);
            let outer = c.stack.last().index();
            assert(placed(t, last));
            assert(parent_of(t.parents, last) == Some(outer));
            assert(above(t.parents, outer, last));
            if last != t.nodes.len() - 1 {
                lemma_above_trans(t.parents, outer, last, t.nodes.len() - 1);
            }
            assert(c.stack[0] == t.stack[0]);
        }
    }
}

/// Closing open elements keeps the store in document order.
pub proof fn lemma_close_down_ordered(s: Seq<u8>, t: Tree, keep: int, pos: int, end: int)
    requires
        sound(s, t, pos),
        ordered(t),
        pos <= end <= s.len(),
        0 <= keep,
    ensures
        ordered(close_down_to(s, t, keep, end)),
    decreases t.stack.len(),
{
    if !(t.stack.len() <= keep || t.stack.len() == 0) {
        lemma_close_top_ordered(s, t, pos, end);
        lemma_close_top_sound(s, t, pos, end);
        lemma_close_down_ordered(s, close_top(s, t, end), keep, end, end);
    }
}

/// Every round of the tokenizer keeps the store in document order.
pub proof fn lemma_step_ordered(s: Seq<u8>, opts: ParserOptions, t: Tree, pos: int)
    requires
        sound(s, t, pos),
        ordered(t),
        pos < s.len(),
    ensures
        ordered(step(s, opts, t, pos).tree),
{
    lemma_step_advances(s, opts, t, pos);
    let next = step(s, opts, t, pos).next;
    if s[pos] != LT {
        lemma_append_ordered(s, t, NodeModel::Raw(span(s, pos, next)), pos, next);
    } else if pos + 1 < s.len() && s[pos + 1] == SLASH {
        let name_end = ident_run_end(s, pos + 2);
        let name = span(s, pos + 2, name_end);
        let j = open_index(t, name, t.stack.len() - 1);
        if j >= 0 {
            lemma_close_down_sound(s, t, j + 1, pos, pos);
            lemma_close_down_ordered(s, t, j + 1, pos, pos);
            lemma_close_top_ordered(s, close_down_to(s, t, j + 1, pos), pos, next);
        }
    } else if pos + 1 < s.len() && s[pos + 1] == BANG {
        if pos + 3 < s.len() && s[pos + 2] == DASH && s[pos + 3] == DASH {
            lemma_append_ordered(s, t, NodeModel::Comment(span(s, pos, next)), pos, next);
        } else {
            let m = markup(s, t, pos).tree;
            assert(m.parents == t.parents && m.stack == t.stack && m.nodes == t.nodes);
        }
    } else if pos + 1 < s.len() && is_ident_byte(s[pos + 1]) {
        let name_end = ident_run_end(s, pos + 1);
        lemma_ident_run_end(s, pos + 1);
        let scan = scan_attrs(s, name_end, Seq::empty());
        crate::parser::grammar::lemma_scan_attrs(s, name_end, Seq::empty());
        lemma_scan_attrs_distinct(s, name_end, Seq::empty());
        let h = NodeHandle(t.nodes.len() as u32);
        let tag = TagModel {
            name: span(s, pos + 1, name_end),
            attributes: scan.attributes,
            children: Seq::empty(),
            start: pos as nat,
            raw: span(s, pos, scan.end),
        };
        let node = NodeModel::Tag(tag);
        lemma_append_ordered(s, t, node, pos, next);
        let a = append(t, node);
        let added = index_tag(opts, a, h, scan.attributes);
        assert(added.parents == a.parents && added.stack == a.stack && added.nodes == a.nodes);
        let r = step(s, opts, t, pos).tree;
        let pushed = Tree { stack: a.stack.push(h), ..a };
        assert(r.parents == a.parents && r.nodes == a.nodes);
        assert(r.stack == a.stack || r.stack == pushed.stack);
    } else {
        lemma_append_ordered(s, t, NodeModel::Raw(span(s, pos, next)), pos, next);
    }
}

/// The store that the tokenizer arrives at is in document order.
pub proof fn lemma_run_ordered(s: Seq<u8>, opts: ParserOptions, t: Tree, pos: int)
    requires
        sound(s, t, pos),
        ordered(t),
    ensures
        match run(s, opts, t, pos) {
            Ok(tree) => ordered(tree),
            Err(_) => true,
        },
    decreases s.len() - pos,
{
    if t.nodes.len() > opts.max_nodes {
    } else if pos >= s.len() {
        lemma_close_down_ordered(s, t, 0, pos, s.len() as int);
    } else {
        lemma_step_advances(s, opts, t, pos);
        lemma_step_sound(s, opts, t, pos);
        lemma_step_ordered(s, opts, t, pos);
        lemma_run_ordered(s, opts, step(s, opts, t, pos).tree, step(s, opts, t, pos).next);
    }
}

/// What lies below an element is a stretch of the store without gaps: with
/// a node, every node between the element and that node lies below it.
pub proof fn lemma_no_gaps(s: Seq<u8>, t: Tree, pos: int, a: int, m: int, j: int)
    requires
        sound(s, t, pos),
        ordered(t),
        above(t.parents, a, j),
        a < m <= j,
    ensures
        above(t.parents, a, m),
    decreases j - m,
{
    if m < j {
        lemma_above_bounds(t.parents, a, j);
        let p = parent_of(t.parents, j).unwrap();
        assert(t.parents[j] is Some);
        assert(holds(t.parents, p, j - 1));
        if p != a && p != j - 1 {
            lemma_above_trans(t.parents, a, p, j - 1);
        }
        lemma_no_gaps(s, t, pos, a, m, j - 1);
    }
}

/// Every child of an element lies below it.
pub proof fn lemma_child_is_below(s: Seq<u8>, t: Tree, pos: int, a: int, k: int)
    requires
        sound(s, t, pos),
        0 <= a < t.nodes.len(),
        t.nodes[a] is Tag,
        0 <= k < t.nodes[a]->Tag_0.children.len(),
    ensures
        parent_of(t.parents, t.nodes[a]->Tag_0.children[k].index()) == Some(a),
        above(t.parents, a, t.nodes[a]->Tag_0.children[k].index()),
        a < t.nodes[a]->Tag_0.children[k].index() < t.nodes.len(),
{
    assert(node_sound(s, t, a, pos));
    let c = t.nodes[a]->Tag_0.children[k];
    assert(a < c.index() < t.nodes.len());
    assert(NodeHandle(a as u32).index() == a);
}

/// The child of the element at `a` through which the node at `j` hangs
/// below it.
pub open spec fn toward(parents: Seq<Option<NodeHandle>>, a: int, j: int) -> int
    decreases j,
{
    match parent_of(parents, j) {
        Some(p) => if p == a {
            j
        } else {
            toward(parents, a, p)
        },
        None => j,
    }
}

/// A node below an element hangs below it through one of its children.
pub proof fn lemma_toward(parents: Seq<Option<NodeHandle>>, a: int, j: int)
    requires
        above(parents, a, j),
    ensures
        parent_of(parents, toward(parents, a, j)) == Some(a),
        holds(parents, toward(parents, a, j), j),
    decreases j,
{
    let p = parent_of(parents, j).unwrap();
    if p != a {
        lemma_toward(parents, a, p);
    }
}

/// A node whose parent is the element at `a` is among its children.
pub proof fn lemma_parent_has_child(s: Seq<u8>, t: Tree, pos: int, a: int, c: int)
    requires
        sound(s, t, pos),
        parent_of(t.parents, c) == Some(a),
    ensures
        0 <= a < c < t.nodes.len(),
        t.nodes[a] is Tag,
        exists|k: int|
            0 <= k < t.nodes[a]->Tag_0.children.len() && (
            #[trigger] t.nodes[a]->Tag_0.children[k]).index() == c,
{
    assert(placed(t, c));
    let children = t.nodes[a]->Tag_0.children;
    let k = choose|k: int| 0 <= k < children.len() && children[k] == NodeHandle(c as u32);
    assert(children[k].index() == c);
}

/// The first child of an element is the node just after it.
pub proof fn lemma_first_child(s: Seq<u8>, t: Tree, pos: int, a: int)
    requires
        sound(s, t, pos),
        ordered(t),
        0 <= a < t.nodes.len(),
        t.nodes[a] is Tag,
        t.nodes[a]->Tag_0.children.len() > 0,
    ensures
        t.nodes[a]->Tag_0.children[0].index() == a + 1,
{
    let children = t.nodes[a]->Tag_0.children;
    lemma_child_is_below(s, t, pos, a, 0);
    let first = children[0].index();
    lemma_no_gaps(s, t, pos, a, a + 1, first);
    let p = parent_of(t.parents, a + 1).unwrap();
    if p != a {
        lemma_above_bounds(t.parents, a, p);
    }
    lemma_parent_has_child(s, t, pos, a, a + 1);
    let k = choose|k: int| 0 <= k < children.len() && (#[trigger] children[k]).index() == a + 1;
    assert(node_sound(s, t, a, pos));
    if k > 0 {
        assert(children[0].index() < children[k].index());
    }
}

/// The last node of the subtree of the node at `x` is that node or lies
/// below it, and nothing after it lies below the node at `x`.
pub proof fn lemma_subtree_last_is_last(s: Seq<u8>, t: Tree, pos: int, x: int, j: int)
    requires
        sound(s, t, pos),
        ordered(t),
        0 <= x < t.nodes.len(),
    ensures
        holds(t.parents, x, subtree_last(t.nodes, x)),
        above(t.parents, x, j) ==> j <= subtree_last(t.nodes, x),
    decreases t.nodes.len() - x,
{
    lemma_subtree_last(t.nodes, x);
    let e = subtree_last(t.nodes, x);
    let childless = match t.nodes[x] {
        NodeModel::Tag(tag) => tag.children.len() == 0,
        _ => true,
    };
    if childless {
        if above(t.parents, x, j) {
            lemma_toward(t.parents, x, j);
            lemma_parent_has_child(s, t, pos, x, toward(t.parents, x, j));
        }
    } else {
        let children = t.nodes[x]->Tag_0.children;
        let last_k = children.len() - 1;
        lemma_child_is_below(s, t, pos, x, last_k);
        let last = children[last_k].index();
        assert(children.last() == children[last_k]);
        assert(e == subtree_last(t.nodes, last));
        lemma_subtree_last_is_last(s, t, pos, last, j);
        lemma_subtree_last(t.nodes, last);
        if e != last {
            lemma_above_trans(t.parents, x, last, e);
        }
        if above(t.parents, x, j) && j > e {
            lemma_toward(t.parents, x, j);
            let c = toward(t.parents, x, j);
            lemma_parent_has_child(s, t, pos, x, c);
            let k = choose|k: int| 0 <= k < children.len() && (#[trigger] children[k]).index() == c;
            assert(node_sound(s, t, x, pos));
            if k < last_k {
                assert(children[k].index() < children[last_k].index());
                lemma_above_bounds(t.parents, x, j);
                assert(c != j);
                lemma_no_gaps(s, t, pos, c, last, j);
                let q = parent_of(t.parents, last).unwrap();
                assert(q == x);
                lemma_above_bounds(t.parents, c, x);
            } else {
                assert(c == last);
            }
        }
    }
}

/// In a sound store in document order, the range of indices that
/// `descendant_span` gives for an element holds the nodes that lie below the
/// element, all of them and no others.
pub proof fn lemma_span_is_below(s: Seq<u8>, t: Tree, pos: int, a: int, j: int)
    requires
        sound(s, t, pos),
        ordered(t),
        0 <= a < t.nodes.len(),
        t.nodes[a] is Tag,
    ensures
        (descendant_span(t.nodes, t.nodes[a]->Tag_0).0 <= j < descendant_span(
            t.nodes,
            t.nodes[a]->Tag_0,
        ).1) <==> above(t.parents, a, j),
{
    let tag = t.nodes[a]->Tag_0;
    let children = tag.children;
    lemma_subtree_last_is_last(s, t, pos, a, j);
    lemma_subtree_last(t.nodes, a);
    if above(t.parents, a, j) {
        lemma_above_bounds(t.parents, a, j);
    }
    if children.len() == 0 {
        assert(descendant_span(t.nodes, tag) == (0int, 0int));
        assert(subtree_last(t.nodes, a) == a);
    } else {
        lemma_first_child(s, t, pos, a);
        let last_k = children.len() - 1;
        lemma_child_is_below(s, t, pos, a, last_k);
        lemma_child_is_below(s, t, pos, a, 0);
        assert(children.last() == children[last_k]);
        assert(node_sound(s, t, a, pos));
        if last_k > 0 {
            assert(children[0].index() < children[last_k].index());
        }
        let e = subtree_last(t.nodes, a);
        let last = children[last_k].index();
        assert(e == subtree_last(t.nodes, last));
        lemma_subtree_last(t.nodes, last);
        assert(descendant_span(t.nodes, tag) == (a + 1, e + 1));
        if a + 1 <= j <= e {
            assert(above(t.parents, a, e));
            lemma_no_gaps(s, t, pos, a, j, e);
        }
    }
}

/// Every tree that parsing gives is in document order.
pub proof fn lemma_parse_ordered(s: Seq<u8>, opts: ParserOptions, tree: Tree)
    requires
        parse_model(s, opts) == Ok::<Tree, ParseError>(tree),
    ensures
        ordered(tree),
{
    assert(sound(s, start_tree(opts), 0));
    assert(ordered(start_tree(opts)));
    lemma_run_ordered(s, opts, start_tree(opts), 0);
}

/// In every tree that parsing gives, what `descendant_span` gives for an
/// element is what lies below the element: a query of the element's subtree
/// visits those nodes, in document order, and no node beside them.
pub proof fn lemma_parsed_span_is_below(
    s: Seq<u8>,
    opts: ParserOptions,
    tree: Tree,
    a: int,
    j: int,
)
    requires
        parse_model(s, opts) == Ok::<Tree, ParseError>(tree),
        0 <= a < tree.nodes.len(),
        tree.nodes[a] is Tag,
    ensures
        (descendant_span(tree.nodes, tree.nodes[a]->Tag_0).0 <= j < descendant_span(
            tree.nodes,
            tree.nodes[a]->Tag_0,
        ).1) <==> above(tree.parents, a, j),
{
    lemma_parse_sound(s, opts, tree);
    lemma_parse_ordered(s, opts, tree);
    lemma_span_is_below(s, tree, s.len() as int, a, j);
}

} // verus!
