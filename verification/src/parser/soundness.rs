//! What holds of every tree that the tokenizer builds.
//!
//! Handles are indices into one store. Every child of an element is a node
//! of the same store that stands after the element; the children of an
//! element stand in document order; and a node is the child of one element
//! at most, the one that the store names as its parent. Every element spans
//! a part of the input that is not empty, and has no two attributes of one
//! name.

use vstd::prelude::*;
use crate::errors::ParseError;
use crate::parser::attributes::{distinct_names, has_name, lemma_name_index_from, Attr};
use crate::parser::constants::{BANG, DASH, EQUALS, GT, LT, SLASH};
use crate::parser::grammar::{
    add_attr, after, append, attr_value, close_down_to, close_top, index_tag, lemma_attr_value,
    lemma_scan_attrs, lemma_skip_spaces, lemma_step_advances, markup, open_index, parse_model, run,
    scan_attrs, skip_spaces, span, start_tree, step, Tree,
};
use crate::parser::handle::NodeHandle;
use crate::parser::options::ParserOptions;
use crate::parser::tag::{NodeModel, TagModel};
use crate::simd::fallback::{ident_run_end, lemma_ident_run_end};
use crate::util::is_ident_byte;

verus! {

/// The handles stand in rising order, so that none occurs twice.
pub open spec fn rising(handles: Seq<NodeHandle>) -> bool {
    forall|i: int, j: int|
        0 <= i < j < handles.len() ==> (#[trigger] handles[i]).index() < (
        #[trigger] handles[j]).index()
}

/// The element `tag`, which stands at index `i`, is sound: its children
/// stand after it in the store, in rising order, and the store names it as
/// the parent of each; its attributes have distinct names; and it spans the
/// bytes of the input from its start on as far as `raw` is long, at least
/// one and ending at or before `pos`.
pub open spec fn tag_sound(
    s: Seq<u8>,
    count: int,
    parents: Seq<Option<NodeHandle>>,
    tag: TagModel,
    i: int,
    pos: int,
) -> bool {
    &&& rising(tag.children)
    &&& forall|k: int|
        0 <= k < tag.children.len() ==> i < (#[trigger] tag.children[k]).index() < count
            && parents[tag.children[k].index()] == Some(NodeHandle(i as u32))
    &&& distinct_names(tag.attributes)
    &&& tag.raw.len() > 0
    &&& tag.start + tag.raw.len() <= pos
    &&& tag.raw == s.subrange(tag.start as int, (tag.start + tag.raw.len()) as int)
}

/// The node at index `i` is sound: an element is as `tag_sound` says.
pub open spec fn node_sound(s: Seq<u8>, t: Tree, i: int, pos: int) -> bool {
    match t.nodes[i] {
        NodeModel::Tag(tag) => tag_sound(s, t.nodes.len() as int, t.parents, tag, i, pos),
        _ => true,
    }
}

/// The node at index `i` is where the store says: among the children of
/// the element named as its parent, which stands before it, or among the
/// top-level nodes when no parent is named.
pub open spec fn placed(t: Tree, i: int) -> bool {
    match t.parents[i] {
        Some(p) => p.index() < i && match t.nodes[p.index()] {
            NodeModel::Tag(tag) => tag.children.contains(NodeHandle(i as u32)),
            _ => false,
        },
        None => t.top.contains(NodeHandle(i as u32)),
    }
}

/// The handle `h` refers to an element of the store.
pub open spec fn is_element(t: Tree, h: NodeHandle) -> bool {
    h.index() < t.nodes.len() && t.nodes[h.index()] is Tag
}

/// The tree `t`, built from the first `pos` bytes of `s`, is sound.
pub open spec fn sound(s: Seq<u8>, t: Tree, pos: int) -> bool {
    &&& 0 <= pos <= s.len() <= u32::MAX
    &&& t.nodes.len() <= pos
    &&& t.parents.len() == t.nodes.len()
    &&& forall|i: int| 0 <= i < t.nodes.len() ==> #[trigger] node_sound(s, t, i, pos)
    &&& forall|i: int| 0 <= i < t.nodes.len() ==> #[trigger] placed(t, i)
    &&& rising(t.top)
    &&& forall|k: int|
        0 <= k < t.top.len() ==> (#[trigger] t.top[k]).index() < t.nodes.len()
            && t.parents[t.top[k].index()].is_none()
    &&& rising(t.stack)
    &&& forall|k: int| 0 <= k < t.stack.len() ==> is_element(t, #[trigger] t.stack[k])
}

/// A sound tree stays sound as the cursor moves on.
pub proof fn lemma_sound_later(s: Seq<u8>, t: Tree, pos: int, later: int)
    requires
        sound(s, t, pos),
        pos <= later <= s.len(),
    ensures
        sound(s, t, later),
{
    assert forall|i: int| 0 <= i < t.nodes.len() implies #[trigger] node_sound(s, t, i, later) by {
        assert(node_sound(s, t, i, pos));
    }
}

/// The node `node` may be added to a tree of `count` nodes when the cursor
/// has reached `pos`: an element has no children yet, distinct attribute
/// names, and spans a part of the input that is not empty and ends at or
/// before `pos`.
pub open spec fn fresh(s: Seq<u8>, node: NodeModel, pos: int) -> bool {
    match node {
        NodeModel::Tag(tag) => {
            &&& tag.children.len() == 0
            &&& distinct_names(tag.attributes)
            &&& tag.raw.len() > 0
            &&& tag.start + tag.raw.len() <= pos
            &&& tag.raw == s.subrange(tag.start as int, (tag.start + tag.raw.len()) as int)
        },
        _ => true,
    }
}

/// Adding a node keeps a tree sound.
pub proof fn lemma_append_sound(s: Seq<u8>, t: Tree, node: NodeModel, pos: int, next: int)
    requires
        sound(s, t, pos),
        pos < next <= s.len(),
        fresh(s, node, next),
    ensures
        sound(s, append(t, node), next),
        append(t, node).stack == t.stack,
        append(t, node).nodes.len() == t.nodes.len() + 1,
        append(t, node).nodes[t.nodes.len() as int] == node,
{
    let n = t.nodes.len() as int;
    let h = NodeHandle(n as u32);
    let a = append(t, node);
    assert(h.index() == n);
    lemma_sound_later(s, t, pos, next);
    if t.stack.len() == 0 {
        assert forall|i: int| 0 <= i < a.nodes.len() implies #[trigger] node_sound(s, a, i, next) by {
            if i < n {
                assert(node_sound(s, t, i, next));
            }
        }
        assert forall|i: int| 0 <= i < a.nodes.len() implies #[trigger] placed(a, i) by {
            if i < n {
                assert(placed(t, i));
                match t.parents[i] {
                    Some(p) => {},
                    None => {
                        let k = choose|k: int| 0 <= k < t.top.len() && t.top[k] == NodeHandle(i as u32);
                        assert(a.top[k] == NodeHandle(i as u32));
                    },
                }
            } else {
                assert(a.top[t.top.len() as int] == h);
            }
        }
        assert forall|k: int| 0 <= k < a.top.len() implies (#[trigger] a.top[k]).index()
            < a.nodes.len() && a.parents[a.top[k].index()].is_none() by {
            if k < t.top.len() {
                assert(t.top[k].index() < n);
            }
        }
        assert(rising(a.top)) by {
            assert forall|i: int, j: int| 0 <= i < j < a.top.len() implies (#[trigger] a.top[i]).index()
                < (#[trigger] a.top[j]).index() by {
                assert(t.top[i].index() < n);
            }
        }
        assert forall|k: int| 0 <= k < a.stack.len() implies is_element(a, #[trigger] a.stack[k]) by {
            assert(is_element(t, t.stack[k]));
        }
    } else {
        let p = t.stack.last();
        let pi = p.index();
        assert(is_element(t, t.stack[t.stack.len() - 1]));
        assert(NodeHandle(pi as u32) == p);
        let old_tag = t.nodes[pi]->Tag_0;
        let new_tag = TagModel { children: old_tag.children.push(h), ..old_tag };
        assert(a.nodes[pi] == NodeModel::Tag(new_tag));
        assert(node_sound(s, t, pi, next));
        assert forall|i: int| 0 <= i < a.nodes.len() implies #[trigger] node_sound(s, a, i, next) by {
            if i == pi {
                assert(rising(new_tag.children)) by {
                    assert forall|x: int, y: int| 0 <= x < y < new_tag.children.len() implies (
                    #[trigger] new_tag.children[x]).index() < (#[trigger] new_tag.children[y]).index() by {
                        assert(old_tag.children[x].index() < n);
                    }
                }
                assert forall|k: int| 0 <= k < new_tag.children.len() implies i < (
                #[trigger] new_tag.children[k]).index() < a.nodes.len() && a.parents[new_tag.children[k].index()]
                    == Some(NodeHandle(i as u32)) by {
                    if k < old_tag.children.len() {
                        assert(old_tag.children[k].index() < n);
                    }
                }
            } else if i < n {
                assert(node_sound(s, t, i, next));
                assert(a.nodes[i] == t.nodes[i]);
                match t.nodes[i] {
                    NodeModel::Tag(tag) => {
                        assert forall|k: int| 0 <= k < tag.children.len() implies i < (
                        #[trigger] tag.children[k]).index() < a.nodes.len() && a.parents[tag.children[k].index()]
                            == Some(NodeHandle(i as u32)) by {
                            assert(tag.children[k].index() < n);
                        }
                    },
                    _ => {},
                }
            } else {
                assert(a.nodes[i] == node);
            }
        }
        assert forall|i: int| 0 <= i < a.nodes.len() implies #[trigger] placed(a, i) by {
            if i < n {
                assert(placed(t, i));
                match t.parents[i] {
                    Some(q) => {
                        if q.index() == pi {
                            let k = choose|k: int|
                                0 <= k < old_tag.children.len() && old_tag.children[k] == NodeHandle(
                                    i as u32,
                                );
                            assert(new_tag.children[k] == NodeHandle(i as u32));
                        } else {
                            assert(a.nodes[q.index()] == t.nodes[q.index()]);
                        }
                    },
                    None => {},
                }
            } else {
                assert(new_tag.children[old_tag.children.len() as int] == h);
            }
        }
        assert forall|k: int| 0 <= k < a.top.len() implies (#[trigger] a.top[k]).index()
            < a.nodes.len() && a.parents[a.top[k].index()].is_none() by {
            assert(t.top[k].index() < n);
        }
        assert forall|k: int| 0 <= k < a.stack.len() implies is_element(a, #[trigger] a.stack[k]) by {
            assert(is_element(t, t.stack[k]));
            if t.stack[k].index() != pi {
                assert(a.nodes[t.stack[k].index()] == t.nodes[t.stack[k].index()]);
            }
        }
    }
}

/// Closing the innermost open element at or after the cursor keeps a tree
/// sound.
pub proof fn lemma_close_top_sound(s: Seq<u8>, t: Tree, pos: int, end: int)
    requires
        sound(s, t, pos),
        pos <= end <= s.len(),
    ensures
        sound(s, close_top(s, t, end), end),
        close_top(s, t, end).nodes.len() == t.nodes.len(),
{
    lemma_sound_later(s, t, pos, end);
    let c = close_top(s, t, end);
    if t.stack.len() > 0 {
        let h = t.stack.last();
        let hi = h.index();
        assert(is_element(t, t.stack[t.stack.len() - 1]));
        let old_tag = t.nodes[hi]->Tag_0;
        assert(node_sound(s, t, hi, pos));
        let new_tag = TagModel { raw: span(s, old_tag.start as int, end), ..old_tag };
        assert(c.nodes[hi] == NodeModel::Tag(new_tag));
        assert(new_tag.raw.len() == end - old_tag.start);
        assert forall|i: int| 0 <= i < c.nodes.len() implies #[trigger] node_sound(s, c, i, end) by {
            assert(node_sound(s, t, i, end));
            if i != hi {
                assert(c.nodes[i] == t.nodes[i]);
            }
        }
        assert forall|i: int| 0 <= i < c.nodes.len() implies #[trigger] placed(c, i) by {
            assert(placed(t, i));
            match t.parents[i] {
                Some(q) => {
                    if q.index() != hi {
                        assert(c.nodes[q.index()] == t.nodes[q.index()]);
                    }
                },
                None => {},
            }
        }
        assert forall|k: int| 0 <= k < c.stack.len() implies is_element(c, #[trigger] c.stack[k]) by {
            assert(is_element(t, t.stack[k]));
            if t.stack[k].index() != hi {
                assert(c.nodes[t.stack[k].index()] == t.nodes[t.stack[k].index()]);
            }
        }
        assert(rising(c.stack)) by {
            assert forall|i: int, j: int| 0 <= i < j < c.stack.len() implies (
            #[trigger] c.stack[i]).index() < (#[trigger] c.stack[j]).index() by {
                assert(t.stack[i].index() < t.stack[j].index());
            }
        }
    }
}

/// Closing open elements at or after the cursor keeps a tree sound, and
/// leaves as many open as were asked to stay, if so many were open.
pub proof fn lemma_close_down_sound(s: Seq<u8>, t: Tree, keep: int, pos: int, end: int)
    requires
        sound(s, t, pos),
        pos <= end <= s.len(),
        0 <= keep,
    ensures
        sound(s, close_down_to(s, t, keep, end), end),
        close_down_to(s, t, keep, end).nodes.len() == t.nodes.len(),
        close_down_to(s, t, keep, end).stack.len() == if t.stack.len() <= keep {
            t.stack.len() as int
        } else {
            keep
        },
    decreases t.stack.len(),
{
    if t.stack.len() <= keep || t.stack.len() == 0 {
        lemma_sound_later(s, t, pos, end);
    } else {
        lemma_close_top_sound(s, t, pos, end);
        lemma_close_down_sound(s, close_top(s, t, end), keep, end, end);
    }
}

/// Taking up an attribute, unless its name is taken, keeps names distinct.
pub proof fn lemma_add_attr_distinct(acc: Seq<Attr>, name: Seq<u8>, value: Option<Seq<u8>>)
    requires
        distinct_names(acc),
    ensures
        distinct_names(add_attr(acc, name, value)),
{
    lemma_name_index_from(acc, name, 0);
    if !has_name(acc, name) {
        let grown = acc.push(Attr { name, value });
        assert forall|i: int, j: int| 0 <= i < j < grown.len() implies (#[trigger] grown[i]).name != (
        #[trigger] grown[j]).name by {
            if j == acc.len() {
                assert(acc[i].name != name);
            } else {
                assert(acc[i].name != acc[j].name);
            }
        }
    }
}

/// The attributes read from a start tag have distinct names.
pub proof fn lemma_scan_attrs_distinct(s: Seq<u8>, pos: int, acc: Seq<Attr>)
    requires
        distinct_names(acc),
    ensures
        distinct_names(scan_attrs(s, pos, acc).attributes),
    decreases s.len() - pos,
{
    if !(pos < 0 || pos >= s.len()) {
        let p = skip_spaces(s, pos);
        lemma_skip_spaces(s, pos);
        if p >= s.len() {
        } else if s[p] == GT {
        } else if s[p] == SLASH {
        } else if is_ident_byte(s[p]) {
            let name_end = ident_run_end(s, p);
            lemma_ident_run_end(s, p);
            let name = s.subrange(p, name_end);
            if name_end < s.len() && s[name_end] == EQUALS {
                let v = attr_value(s, name_end + 1);
                lemma_attr_value(s, name_end + 1);
                lemma_add_attr_distinct(acc, name, Some(v.value));
                lemma_scan_attrs_distinct(s, v.next, add_attr(acc, name, Some(v.value)));
            } else {
                lemma_add_attr_distinct(acc, name, None);
                lemma_scan_attrs_distinct(s, name_end, add_attr(acc, name, None));
            }
        } else {
            lemma_scan_attrs_distinct(s, p + 1, acc);
        }
    }
}

/// Every round of the tokenizer keeps the tree sound.
pub proof fn lemma_step_sound(s: Seq<u8>, opts: ParserOptions, t: Tree, pos: int)
    requires
        sound(s, t, pos),
        pos < s.len(),
    ensures
        sound(s, step(s, opts, t, pos).tree, step(s, opts, t, pos).next),
{
    lemma_step_advances(s, opts, t, pos);
    let next = step(s, opts, t, pos).next;
    if s[pos] != LT {
        lemma_append_sound(s, t, NodeModel::Raw(span(s, pos, next)), pos, next);
    } else if pos + 1 < s.len() && s[pos + 1] == SLASH {
        let name_end = ident_run_end(s, pos + 2);
        let name = span(s, pos + 2, name_end);
        let j = open_index(t, name, t.stack.len() - 1);
        if j < 0 {
            lemma_sound_later(s, t, pos, next);
        } else {
            lemma_close_down_sound(s, t, j + 1, pos, pos);
            lemma_close_top_sound(s, close_down_to(s, t, j + 1, pos), pos, next);
        }
    } else if pos + 1 < s.len() && s[pos + 1] == BANG {
        if pos + 3 < s.len() && s[pos + 2] == DASH && s[pos + 3] == DASH {
            lemma_append_sound(s, t, NodeModel::Comment(span(s, pos, next)), pos, next);
        } else {
            lemma_sound_later(s, t, pos, next);
            let m = markup(s, t, pos).tree;
            assert forall|i: int| 0 <= i < m.nodes.len() implies #[trigger] node_sound(s, m, i, next) by {
                assert(node_sound(s, t, i, next));
            }
            assert forall|i: int| 0 <= i < m.nodes.len() implies #[trigger] placed(m, i) by {
                assert(placed(t, i));
            }
            assert forall|k: int| 0 <= k < m.stack.len() implies is_element(m, #[trigger] m.stack[k]) by {
                assert(is_element(t, t.stack[k]));
            }
        }
    } else if pos + 1 < s.len() && is_ident_byte(s[pos + 1]) {
        let name_end = ident_run_end(s, pos + 1);
        lemma_ident_run_end(s, pos + 1);
        let name = span(s, pos + 1, name_end);
        let scan = scan_attrs(s, name_end, Seq::empty());
        lemma_scan_attrs(s, name_end, Seq::empty());
        lemma_scan_attrs_distinct(s, name_end, Seq::empty());
        let h = NodeHandle(t.nodes.len() as u32);
        let tag = TagModel {
            name,
            attributes: scan.attributes,
            children: Seq::empty(),
            start: pos as nat,
            raw: span(s, pos, scan.end),
        };
        let node = NodeModel::Tag(tag);
        lemma_append_sound(s, t, node, pos, next);
        let a = append(t, node);
        let added = index_tag(opts, a, h, scan.attributes);
        assert forall|i: int| 0 <= i < added.nodes.len() implies #[trigger] node_sound(
            s,
            added,
            i,
            next,
        ) by {
            assert(node_sound(s, a, i, next));
        }
        assert forall|i: int| 0 <= i < added.nodes.len() implies #[trigger] placed(added, i) by {
            assert(placed(a, i));
        }
        assert forall|k: int| 0 <= k < added.stack.len() implies is_element(
            added,
            #[trigger] added.stack[k],
        ) by {
            assert(is_element(a, a.stack[k]));
        }
        assert(sound(s, added, next));
        let r = step(s, opts, t, pos).tree;
        if r != added {
            assert(r.stack == added.stack.push(h));
            assert forall|i: int| 0 <= i < r.nodes.len() implies #[trigger] node_sound(s, r, i, next) by {
                assert(node_sound(s, added, i, next));
            }
            assert forall|i: int| 0 <= i < r.nodes.len() implies #[trigger] placed(r, i) by {
                assert(placed(added, i));
            }
            assert forall|k: int| 0 <= k < r.stack.len() implies is_element(r, #[trigger] r.stack[k]) by {
                if k < added.stack.len() {
                    assert(is_element(added, added.stack[k]));
                }
            }
            assert(rising(r.stack)) by {
                assert forall|i: int, j: int| 0 <= i < j < r.stack.len() implies (
                #[trigger] r.stack[i]).index() < (#[trigger] r.stack[j]).index() by {
                    assert(is_element(added, added.stack[i]));
                    if j < added.stack.len() {
                        assert(added.stack[i].index() < added.stack[j].index());
                    }
                }
            }
        }
    } else {
        lemma_append_sound(s, t, NodeModel::Raw(span(s, pos, next)), pos, next);
    }
}

/// The tree that the tokenizer arrives at from a sound tree is sound, and
/// no element in it is left open.
pub proof fn lemma_run_sound(s: Seq<u8>, opts: ParserOptions, t: Tree, pos: int)
    requires
        sound(s, t, pos),
    ensures
        match run(s, opts, t, pos) {
            Ok(tree) => sound(s, tree, s.len() as int) && tree.stack.len() == 0,
            Err(_) => true,
        },
    decreases s.len() - pos,
{
    if t.nodes.len() > opts.max_nodes {
    } else if pos >= s.len() {
        lemma_close_down_sound(s, t, 0, pos, s.len() as int);
    } else {
        lemma_step_advances(s, opts, t, pos);
        lemma_step_sound(s, opts, t, pos);
        lemma_run_sound(s, opts, step(s, opts, t, pos).tree, step(s, opts, t, pos).next);
    }
}

/// Every tree that parsing gives is sound, whatever the input, and no
/// element in it is left open.
pub proof fn lemma_parse_sound(s: Seq<u8>, opts: ParserOptions, tree: Tree)
    requires
        parse_model(s, opts) == Ok::<Tree, ParseError>(tree),
    ensures
        sound(s, tree, s.len() as int),
        tree.stack.len() == 0,
{
    assert(sound(s, start_tree(opts), 0));
    lemma_run_sound(s, opts, start_tree(opts), 0);
}

} // verus!
