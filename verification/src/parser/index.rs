//! The indexes and the tree.
//!
//! An index is filled while the input is read, an entry at a time, and
//! never corrected afterwards. What it holds in the end is what the nodes
//! themselves say: the entries for the first node, then those for the
//! second, and so on.

use vstd::prelude::*;
use crate::errors::ParseError;
use crate::parser::attributes::{value_of, Attr};
use crate::parser::constants::{class_name, id_name, BANG, DASH, LINE_FEED, LT, SLASH, SPACE};
use crate::parser::grammar::{
    append, class_entries, class_list_has, class_tokens, close_down_to, close_top, index_tag,
    is_space, lemma_contains_one, lemma_skip_spaces, lemma_step_advances, markup, open_index,
    parse_model, run, scan_attrs, skip_spaces, span, start_tree, step, Entry, Tree,
};
use crate::parser::handle::NodeHandle;
use crate::parser::options::ParserOptions;
use crate::parser::tag::{NodeModel, TagModel};
use crate::simd::fallback::ident_run_end;
use crate::simd::{find3_from, lemma_find3_from};
use crate::util::is_ident_byte;
use crate::vdom::{
    element_by_id, elements_by_class, entries_for, has_class, has_id, last_entry, with_class,
};

verus! {

/// The attributes of a node, if it is an element.
pub open spec fn attributes_of(node: NodeModel) -> Option<Seq<Attr>> {
    match node {
        NodeModel::Tag(t) => Some(t.attributes),
        _ => None,
    }
}

/// What a node with the attributes `attrs` and the handle `h` files under
/// its id: one entry, when its `id` attribute has a value.
pub open spec fn id_entry(attrs: Option<Seq<Attr>>, h: NodeHandle) -> Seq<Entry> {
    match attrs {
        Some(attrs) => match value_of(attrs, id_name()) {
            Some(Some(v)) => seq![Entry { key: v, handle: h }],
            _ => Seq::empty(),
        },
        None => Seq::empty(),
    }
}

/// What a node with the attributes `attrs` and the handle `h` files under
/// its classes: an entry for each class name, when its `class` attribute
/// has a value.
pub open spec fn class_entry(attrs: Option<Seq<Attr>>, h: NodeHandle) -> Seq<Entry> {
    match attrs {
        Some(attrs) => match value_of(attrs, class_name()) {
            Some(Some(v)) => class_entries(v, 0, h),
            _ => Seq::empty(),
        },
        None => Seq::empty(),
    }
}

/// What the first `n` nodes file under their ids, node after node.
pub open spec fn id_entries(nodes: Seq<NodeModel>, n: int) -> Seq<Entry>
    decreases n,
{
    if n <= 0 {
        Seq::empty()
    } else {
        id_entries(nodes, n - 1) + id_entry(
            attributes_of(nodes[n - 1]),
            NodeHandle((n - 1) as u32),
        )
    }
}

/// What the first `n` nodes file under their classes, node after node.
pub open spec fn all_class_entries(nodes: Seq<NodeModel>, n: int) -> Seq<Entry>
    decreases n,
{
    if n <= 0 {
        Seq::empty()
    } else {
        all_class_entries(nodes, n - 1) + class_entry(
            attributes_of(nodes[n - 1]),
            NodeHandle((n - 1) as u32),
        )
    }
}

/// Each index that the options ask for holds what the nodes file, and an
/// index that they do not ask for is empty.
pub open spec fn indexed(opts: ParserOptions, t: Tree) -> bool {
    &&& t.ids == if opts.track_ids {
        id_entries(t.nodes, t.nodes.len() as int)
    } else {
        Seq::empty()
    }
    &&& t.classes == if opts.track_classes {
        all_class_entries(t.nodes, t.nodes.len() as int)
    } else {
        Seq::empty()
    }
}

/// The first `n` nodes of `a` and of `b` have the same attributes.
pub open spec fn same_attributes(a: Seq<NodeModel>, b: Seq<NodeModel>, n: int) -> bool {
    &&& n <= a.len()
    &&& n <= b.len()
    &&& forall|i: int| 0 <= i < n ==> attributes_of(#[trigger] a[i]) == attributes_of(b[i])
}

/// Nodes with the same attributes file the same.
pub proof fn lemma_same_attributes(a: Seq<NodeModel>, b: Seq<NodeModel>, n: int)
    requires
        same_attributes(a, b, n),
    ensures
        id_entries(a, n) == id_entries(b, n),
        all_class_entries(a, n) == all_class_entries(b, n),
    decreases n,
{
    if n > 0 {
        assert(attributes_of(a[n - 1]) == attributes_of(b[n - 1]));
        lemma_same_attributes(a, b, n - 1);
    }
}

/// Closing elements changes no attribute and no index.
pub proof fn lemma_close_down_same_attributes(s: Seq<u8>, t: Tree, keep: int, end: int)
    ensures
        same_attributes(t.nodes, close_down_to(s, t, keep, end).nodes, t.nodes.len() as int),
        close_down_to(s, t, keep, end).nodes.len() == t.nodes.len(),
        close_down_to(s, t, keep, end).ids == t.ids,
        close_down_to(s, t, keep, end).classes == t.classes,
    decreases t.stack.len(),
{
    if !(t.stack.len() <= keep || t.stack.len() == 0) {
        let c = close_top(s, t, end);
        assert(same_attributes(t.nodes, c.nodes, t.nodes.len() as int));
        lemma_close_down_same_attributes(s, c, keep, end);
        let d = close_down_to(s, c, keep, end);
        assert forall|i: int| 0 <= i < t.nodes.len() implies attributes_of(#[trigger] t.nodes[i])
            == attributes_of(d.nodes[i]) by {
            assert(attributes_of(c.nodes[i]) == attributes_of(d.nodes[i]));
        }
    }
}

/// After a node was added, the nodes file what they filed before and then
/// what the new node files.
pub proof fn lemma_append_entries(t: Tree, node: NodeModel)
    ensures
        id_entries(append(t, node).nodes, (t.nodes.len() + 1) as int) == id_entries(
            t.nodes,
            t.nodes.len() as int,
        ) + id_entry(attributes_of(node), NodeHandle(t.nodes.len() as u32)),
        all_class_entries(append(t, node).nodes, (t.nodes.len() + 1) as int) == all_class_entries(
            t.nodes,
            t.nodes.len() as int,
        ) + class_entry(attributes_of(node), NodeHandle(t.nodes.len() as u32)),
        append(t, node).nodes.len() == t.nodes.len() + 1,
        append(t, node).ids == t.ids,
        append(t, node).classes == t.classes,
{
    let n = t.nodes.len() as int;
    let a = append(t, node);
    assert(a.nodes[n] == node);
    assert(same_attributes(t.nodes, a.nodes, n));
    lemma_same_attributes(t.nodes, a.nodes, n);
}

/// Every round of the tokenizer keeps the indexes in step with the nodes.
pub proof fn lemma_step_indexed(s: Seq<u8>, opts: ParserOptions, t: Tree, pos: int)
    requires
        indexed(opts, t),
        0 <= pos < s.len(),
    ensures
        indexed(opts, step(s, opts, t, pos).tree),
{
    let r = step(s, opts, t, pos);
    let n = t.nodes.len() as int;
    let ids = id_entries(t.nodes, n);
    let classes = all_class_entries(t.nodes, n);
    if s[pos] == LT && pos + 1 < s.len() && s[pos + 1] == SLASH {
        let name_end = ident_run_end(s, pos + 2);
        let name = span(s, pos + 2, name_end);
        let j = open_index(t, name, t.stack.len() - 1);
        if j >= 0 {
            lemma_close_down_same_attributes(s, t, j + 1, pos);
            let d = close_down_to(s, t, j + 1, pos);
            let c = close_top(s, d, r.next);
            assert(same_attributes(d.nodes, c.nodes, n));
            assert forall|i: int| 0 <= i < n implies attributes_of(#[trigger] t.nodes[i])
                == attributes_of(c.nodes[i]) by {
                assert(attributes_of(d.nodes[i]) == attributes_of(c.nodes[i]));
            }
            assert(same_attributes(t.nodes, c.nodes, n));
            lemma_same_attributes(t.nodes, c.nodes, n);
        }
    } else if s[pos] == LT && pos + 1 < s.len() && s[pos + 1] == BANG {
        if pos + 3 < s.len() && s[pos + 2] == DASH && s[pos + 3] == DASH {
            let node = NodeModel::Comment(span(s, pos, r.next));
            lemma_append_entries(t, node);
            assert(ids + Seq::<Entry>::empty() =~= ids);
            assert(classes + Seq::<Entry>::empty() =~= classes);
        } else {
            let m = markup(s, t, pos).tree;
            assert(m.nodes == t.nodes && m.ids == t.ids && m.classes == t.classes);
        }
    } else if s[pos] == LT && pos + 1 < s.len() && is_ident_byte(s[pos + 1]) {
        let name_end = ident_run_end(s, pos + 1);
        let scan = scan_attrs(s, name_end, Seq::empty());
        let h = NodeHandle(n as u32);
        let tag = TagModel {
            name: span(s, pos + 1, name_end),
            attributes: scan.attributes,
            children: Seq::empty(),
            start: pos as nat,
            raw: span(s, pos, scan.end),
        };
        let node = NodeModel::Tag(tag);
        lemma_append_entries(t, node);
        let a = append(t, node);
        let added = index_tag(opts, a, h, scan.attributes);
        assert(r.tree.nodes == a.nodes);
        assert(r.tree.ids == added.ids && r.tree.classes == added.classes);
        match value_of(scan.attributes, id_name()) {
            Some(Some(v)) => {
                assert(t.ids.push(Entry { key: v, handle: h }) =~= t.ids + seq![
                    Entry { key: v, handle: h },
                ]);
            },
            _ => {
                assert(ids + Seq::<Entry>::empty() =~= ids);
            },
        }
        match value_of(scan.attributes, class_name()) {
            Some(Some(v)) => {},
            _ => {
                assert(classes + Seq::<Entry>::empty() =~= classes);
            },
        }
        assert(Seq::<Entry>::empty() + Seq::<Entry>::empty() =~= Seq::<Entry>::empty());
    } else {
        let node = NodeModel::Raw(span(s, pos, r.next));
        lemma_append_entries(t, node);
        assert(ids + Seq::<Entry>::empty() =~= ids);
        assert(classes + Seq::<Entry>::empty() =~= classes);
    }
}

/// The indexes that the tokenizer arrives at are in step with the nodes.
pub proof fn lemma_run_indexed(s: Seq<u8>, opts: ParserOptions, t: Tree, pos: int)
    requires
        indexed(opts, t),
    ensures
        match run(s, opts, t, pos) {
            Ok(tree) => indexed(opts, tree),
            Err(_) => true,
        },
    decreases s.len() - pos,
{
    if t.nodes.len() > opts.max_nodes {
    } else if pos < 0 || pos >= s.len() {
        lemma_close_down_same_attributes(s, t, 0, s.len() as int);
        lemma_same_attributes(
            t.nodes,
            close_down_to(s, t, 0, s.len() as int).nodes,
            t.nodes.len() as int,
        );
    } else {
        lemma_step_advances(s, opts, t, pos);
        lemma_step_indexed(s, opts, t, pos);
        lemma_run_indexed(s, opts, step(s, opts, t, pos).tree, step(s, opts, t, pos).next);
    }
}

/// In every tree that parsing gives, each index that the options ask for
/// holds what the nodes file, in document order.
pub proof fn lemma_parse_indexed(s: Seq<u8>, opts: ParserOptions, tree: Tree)
    requires
        parse_model(s, opts) == Ok::<Tree, ParseError>(tree),
    ensures
        indexed(opts, tree),
{
    assert(indexed(opts, start_tree(opts)));
    lemma_run_indexed(s, opts, start_tree(opts), 0);
}

/// The handle of the last of the first `k + 1` nodes whose `id` is `id`.
pub open spec fn last_with_id(nodes: Seq<NodeModel>, id: Seq<u8>, k: int) -> Option<NodeHandle>
    decreases k + 1,
{
    if k < 0 || k >= nodes.len() {
        None
    } else if has_id(nodes[k], id) {
        Some(NodeHandle(k as u32))
    } else {
        last_with_id(nodes, id, k - 1)
    }
}

/// Looking an id up among what the first `n` nodes file finds the last of
/// those nodes that has the id.
pub proof fn lemma_last_entry(nodes: Seq<NodeModel>, id: Seq<u8>, n: int)
    requires
        0 <= n <= nodes.len(),
    ensures
        last_entry(id_entries(nodes, n), id, id_entries(nodes, n).len() - 1) == last_with_id(
            nodes,
            id,
            n - 1,
        ),
    decreases n,
{
    if n > 0 {
        let before = id_entries(nodes, n - 1);
        let here = id_entry(attributes_of(nodes[n - 1]), NodeHandle((n - 1) as u32));
        let all = id_entries(nodes, n);
        lemma_last_entry(nodes, id, n - 1);
        if here.len() == 0 {
            assert(all =~= before);
        } else {
            assert(all.len() == before.len() + 1);
            assert(all[all.len() - 1] == here[0]);
            if here[0].key != id {
                lemma_last_entry_prefix(before, all, id, before.len() - 1);
            }
        }
    }
}

/// A lookup among the first entries of an index does not see the later
/// ones.
pub proof fn lemma_last_entry_prefix(a: Seq<Entry>, b: Seq<Entry>, key: Seq<u8>, k: int)
    requires
        a.len() <= b.len(),
        forall|i: int| 0 <= i < a.len() ==> a[i] == b[i],
        k < a.len(),
    ensures
        last_entry(a, key, k) == last_entry(b, key, k),
    decreases k + 1,
{
    if k >= 0 && a[k].key != key {
        lemma_last_entry_prefix(a, b, key, k - 1);
    }
}

/// With an index of ids, a lookup in a tree as parsed finds the last
/// element, in document order, whose `id` attribute has the value asked for.
pub proof fn lemma_indexed_id_lookup(s: Seq<u8>, opts: ParserOptions, tree: Tree, id: Seq<u8>)
    requires
        parse_model(s, opts) == Ok::<Tree, ParseError>(tree),
        opts.track_ids,
    ensures
        element_by_id(tree, opts, id) == last_with_id(tree.nodes, id, tree.nodes.len() - 1),
{
    lemma_parse_indexed(s, opts, tree);
    lemma_last_entry(tree.nodes, id, tree.nodes.len() as int);
}

/// The first white space at or after `from`, or the end of `v`.
pub open spec fn token_end(v: Seq<u8>, from: int) -> int {
    find3_from(v, SPACE, LINE_FEED, LINE_FEED, from)
}

/// Skipping white space in the second of two joined sequences.
pub proof fn lemma_skip_second(a: Seq<u8>, b: Seq<u8>, j: int)
    requires
        0 <= j <= b.len(),
    ensures
        skip_spaces(a + b, a.len() + j) == a.len() + skip_spaces(b, j),
    decreases b.len() - j,
{
    if j < b.len() {
        assert((a + b)[a.len() + j] == b[j]);
        lemma_skip_second(a, b, j + 1);
    }
}

/// Skipping white space in the first of two joined sequences goes on into
/// the second when the first runs out.
pub proof fn lemma_skip_first(a: Seq<u8>, b: Seq<u8>, k: int)
    requires
        0 <= k <= a.len(),
    ensures
        skip_spaces(a + b, k) == if skip_spaces(a, k) < a.len() {
            skip_spaces(a, k)
        } else {
            a.len() + skip_spaces(b, 0)
        },
    decreases a.len() - k,
{
    if k < a.len() {
        assert((a + b)[k] == a[k]);
        lemma_skip_first(a, b, k + 1);
    } else {
        lemma_skip_second(a, b, 0);
    }
}

/// Looking for white space in the second of two joined sequences.
pub proof fn lemma_end_second(a: Seq<u8>, b: Seq<u8>, j: int)
    requires
        0 <= j <= b.len(),
    ensures
        token_end(a + b, a.len() + j) == a.len() + token_end(b, j),
    decreases b.len() - j,
{
    if j < b.len() {
        assert((a + b)[a.len() + j] == b[j]);
        lemma_end_second(a, b, j + 1);
    }
}

/// Looking for white space in the first of two joined sequences goes on
/// into the second when the first has none.
pub proof fn lemma_end_first(a: Seq<u8>, b: Seq<u8>, k: int)
    requires
        0 <= k <= a.len(),
    ensures
        token_end(a + b, k) == if token_end(a, k) < a.len() {
            token_end(a, k)
        } else {
            a.len() + token_end(b, 0)
        },
    decreases a.len() - k,
{
    if k < a.len() {
        assert((a + b)[k] == a[k]);
        lemma_end_first(a, b, k + 1);
    } else {
        lemma_end_second(a, b, 0);
    }
}

/// White space at the end of a value adds no class name.
pub proof fn lemma_tokens_then_spaces(a: Seq<u8>, sp: Seq<u8>, k: int)
    requires
        0 <= k <= a.len(),
        forall|j: int| 0 <= j < sp.len() ==> is_space(#[trigger] sp[j]),
    ensures
        class_tokens(a + sp, k) == class_tokens(a, k),
    decreases a.len() - k,
{
    let all = a + sp;
    lemma_skip_first(a, sp, k);
    lemma_skip_spaces(a, k);
    lemma_skip_spaces(sp, 0);
    let q = skip_spaces(a, k);
    if sp.len() > 0 && skip_spaces(sp, 0) < sp.len() {
        assert(is_space(sp[skip_spaces(sp, 0)]));
    }
    if k >= a.len() {
    } else if q >= a.len() {
    } else {
        lemma_end_first(a, sp, q);
        lemma_find3_from(a, SPACE, LINE_FEED, LINE_FEED, q);
        lemma_find3_from(sp, SPACE, LINE_FEED, LINE_FEED, 0);
        let e = token_end(a, q);
        if sp.len() > 0 {
            assert(is_space(sp[0]));
        }
        assert(token_end(all, q) == e);
        assert(all.subrange(q, e) =~= a.subrange(q, e));
        lemma_tokens_then_spaces(a, sp, e);
    }
}

/// A name that is joined to a value which ends in white space, or is
/// empty, is one more class name, the last.
pub proof fn lemma_tokens_then_name(a: Seq<u8>, name: Seq<u8>, k: int)
    requires
        0 <= k <= a.len(),
        a.len() == 0 || is_space(a[a.len() - 1]),
        name.len() > 0,
        forall|j: int| 0 <= j < name.len() ==> !is_space(#[trigger] name[j]),
    ensures
        class_tokens(a + name, k) == class_tokens(a, k).push(name),
    decreases a.len() - k,
{
    let all = a + name;
    lemma_skip_first(a, name, k);
    lemma_skip_spaces(a, k);
    lemma_skip_spaces(name, 0);
    assert(!is_space(name[0]));
    let q = skip_spaces(a, k);
    if q >= a.len() {
        lemma_end_second(a, name, 0);
        lemma_find3_from(name, SPACE, LINE_FEED, LINE_FEED, 0);
        let e = token_end(name, 0);
        if e < name.len() {
            assert(!is_space(name[e]));
        }
        assert(skip_spaces(all, k) == a.len());
        assert(token_end(all, a.len() as int) == all.len());
        assert(all.subrange(a.len() as int, all.len() as int) =~= name);
        assert(class_tokens(all, all.len() as int) =~= Seq::<Seq<u8>>::empty());
        assert(class_tokens(a, k) =~= Seq::<Seq<u8>>::empty());
        assert(class_tokens(all, k) =~= seq![name] + Seq::<Seq<u8>>::empty());
        assert(seq![name] + Seq::<Seq<u8>>::empty() =~= Seq::<Seq<u8>>::empty().push(name));
    } else {
        lemma_end_first(a, name, q);
        lemma_find3_from(a, SPACE, LINE_FEED, LINE_FEED, q);
        let e = token_end(a, q);
        if e >= a.len() {
            assert(!is_space(a[a.len() - 1]));
        }
        assert(token_end(all, q) == e);
        assert(all.subrange(q, e) =~= a.subrange(q, e));
        lemma_tokens_then_name(a, name, e);
        assert(seq![a.subrange(q, e)] + class_tokens(a, e).push(name) =~= (seq![a.subrange(q, e)]
            + class_tokens(a, e)).push(name));
    }
}

/// Entries that are looked up in the second of two joined indexes.
pub proof fn lemma_entries_second(a: Seq<Entry>, b: Seq<Entry>, key: Seq<u8>, j: int)
    requires
        0 <= j <= b.len(),
    ensures
        entries_for(a + b, key, a.len() + j) == entries_for(b, key, j),
    decreases b.len() - j,
{
    if j < b.len() {
        assert((a + b)[a.len() + j] == b[j]);
        lemma_entries_second(a, b, key, j + 1);
    }
}

/// A lookup in two joined indexes gives what a lookup in the first gives,
/// and then what a lookup in the second gives.
pub proof fn lemma_entries_joined(a: Seq<Entry>, b: Seq<Entry>, key: Seq<u8>, k: int)
    requires
        0 <= k <= a.len(),
    ensures
        entries_for(a + b, key, k) == entries_for(a, key, k) + entries_for(b, key, 0),
    decreases a.len() - k,
{
    if k < a.len() {
        assert((a + b)[k] == a[k]);
        lemma_entries_joined(a, b, key, k + 1);
        let piece = if a[k].key == key {
            seq![a[k].handle]
        } else {
            Seq::<NodeHandle>::empty()
        };
        assert(piece + (entries_for(a, key, k + 1) + entries_for(b, key, 0)) =~= (piece
            + entries_for(a, key, k + 1)) + entries_for(b, key, 0));
    } else {
        lemma_entries_second(a, b, key, 0);
        assert(Seq::<NodeHandle>::empty() + entries_for(b, key, 0) =~= entries_for(b, key, 0));
    }
}

/// Looking a class name up among what an element files from `from` on
/// finds the element once when the name stands in its class list from
/// there on and not before, and does not find it otherwise.
pub proof fn lemma_class_entries_lookup(v: Seq<u8>, from: int, h: NodeHandle, name: Seq<u8>)
    requires
        0 <= from <= v.len(),
        from == 0 || from == v.len() || is_space(v[from]),
    ensures
        entries_for(class_entries(v, from, h), name, 0) == if class_tokens(v, from).contains(name)
            && !class_list_has(v.subrange(0, from), name) {
            seq![h]
        } else {
            Seq::<NodeHandle>::empty()
        },
    decreases v.len() - from,
{
    if from < v.len() {
        let p = skip_spaces(v, from);
        lemma_skip_spaces(v, from);
        if p < v.len() {
            let e = token_end(v, p);
            lemma_find3_from(v, SPACE, LINE_FEED, LINE_FEED, p);
            let token = v.subrange(p, e);
            let before = v.subrange(0, from);
            let upto = v.subrange(0, p);
            let through = v.subrange(0, e);
            // White space between `from` and `p` adds no name.
            assert(upto =~= before + v.subrange(from, p));
            lemma_tokens_then_spaces(before, v.subrange(from, p), 0);
            // The name from `p` to `e` is the next one.
            assert(through =~= upto + token);
            if p > 0 {
                if p == from {
                    assert(!is_space(v[p]));
                } else {
                    assert(is_space(v[p - 1]));
                }
                assert(upto[upto.len() - 1] == v[p - 1]);
            }
            lemma_tokens_then_name(upto, token, 0);
            let seen = class_tokens(before, 0);
            assert(class_tokens(upto, 0) == seen);
            assert(class_tokens(through, 0) == seen.push(token));
            let rest = class_entries(v, e, h);
            let piece = if class_list_has(upto, token) {
                Seq::<Entry>::empty()
            } else {
                seq![Entry { key: token, handle: h }]
            };
            assert(class_entries(v, from, h) == piece + rest);
            lemma_entries_joined(piece, rest, name, 0);
            lemma_class_entries_lookup(v, e, h, name);
            lemma_contains_one(token, class_tokens(v, e), name);
            lemma_contains_one(token, seen, name);
            assert(class_tokens(v, from) == seq![token] + class_tokens(v, e));
            if piece.len() > 0 {
                assert(entries_for(piece, name, 1) =~= Seq::<NodeHandle>::empty());
                assert(entries_for(piece, name, 0) =~= if token == name {
                    seq![h]
                } else {
                    Seq::<NodeHandle>::empty()
                });
            }
            assert(Seq::<NodeHandle>::empty() + entries_for(rest, name, 0) =~= entries_for(
                rest,
                name,
                0,
            ));
            assert(seq![h] + Seq::<NodeHandle>::empty() =~= seq![h]);
        }
    }
}

/// The nodes that have a class, when one more node is added.
pub proof fn lemma_with_class_push(
    nodes: Seq<NodeModel>,
    node: NodeModel,
    name: Seq<u8>,
    from: int,
)
    requires
        0 <= from <= nodes.len() <= u32::MAX,
    ensures
        with_class(nodes.push(node), name, from) == with_class(nodes, name, from) + if has_class(
            node,
            name,
        ) {
            seq![NodeHandle(nodes.len() as u32)]
        } else {
            Seq::<NodeHandle>::empty()
        },
    decreases nodes.len() - from,
{
    let more = nodes.push(node);
    let last = if has_class(node, name) {
        seq![NodeHandle(nodes.len() as u32)]
    } else {
        Seq::<NodeHandle>::empty()
    };
    if from < nodes.len() {
        assert(more[from] == nodes[from]);
        lemma_with_class_push(nodes, node, name, from + 1);
        let piece = if has_class(nodes[from], name) {
            seq![NodeHandle(from as u32)]
        } else {
            Seq::<NodeHandle>::empty()
        };
        assert(piece + (with_class(nodes, name, from + 1) + last) =~= (piece + with_class(
            nodes,
            name,
            from + 1,
        )) + last);
    } else {
        assert(more[from] == node);
        assert(with_class(more, name, from + 1) =~= Seq::<NodeHandle>::empty());
        assert(last + Seq::<NodeHandle>::empty() =~= last);
        assert(Seq::<NodeHandle>::empty() + last =~= last);
    }
}

/// Looking a class name up among what the first `n` nodes file finds the
/// nodes among them that have the class, each once, in document order.
pub proof fn lemma_class_lookup(nodes: Seq<NodeModel>, name: Seq<u8>, n: int)
    requires
        0 <= n <= nodes.len(),
        n <= u32::MAX + 1,
    ensures
        entries_for(all_class_entries(nodes, n), name, 0) == with_class(nodes.take(n), name, 0),
    decreases n,
{
    if n > 0 {
        let h = NodeHandle((n - 1) as u32);
        let node = nodes[n - 1];
        let before = all_class_entries(nodes, n - 1);
        let here = class_entry(attributes_of(node), h);
        lemma_class_lookup(nodes, name, n - 1);
        lemma_entries_joined(before, here, name, 0);
        assert(nodes.take(n) =~= nodes.take(n - 1).push(node));
        lemma_with_class_push(nodes.take(n - 1), node, name, 0);
        match attributes_of(node) {
            Some(attrs) => match value_of(attrs, class_name()) {
                Some(Some(v)) => {
                    lemma_class_entries_lookup(v, 0, h, name);
                    assert(v.subrange(0, 0) =~= Seq::<u8>::empty());
                    assert(class_tokens(Seq::<u8>::empty(), 0) =~= Seq::<Seq<u8>>::empty());
                },
                _ => {},
            },
            None => {},
        }
    } else {
        assert(nodes.take(0) =~= Seq::<NodeModel>::empty());
    }
}

/// With an index of classes, a lookup in a tree as parsed finds the
/// elements that have the class, each once, in document order: what a
/// search of the nodes finds.
pub proof fn lemma_indexed_class_lookup(
    s: Seq<u8>,
    opts: ParserOptions,
    tree: Tree,
    name: Seq<u8>,
)
    requires
        parse_model(s, opts) == Ok::<Tree, ParseError>(tree),
    ensures
        elements_by_class(tree, opts, name) == with_class(tree.nodes, name, 0),
{
    lemma_parse_indexed(s, opts, tree);
    crate::parser::soundness::lemma_parse_sound(s, opts, tree);
    lemma_class_lookup(tree.nodes, name, tree.nodes.len() as int);
    assert(tree.nodes.take(tree.nodes.len() as int) =~= tree.nodes);
}

} // verus!
