//! What the tokenizer does, as functions of the input.
//!
//! The input is read once, left to right. `step` says what one round of the
//! tokenizer makes of the input at a cursor: the tree after it and where the
//! cursor then stands. `parse_model` runs it from the first byte to the last.

use vstd::prelude::*;
use crate::errors::ParseError;
use crate::parser::attributes::{has_name, value_of, Attr};
use crate::parser::constants::{
    class_name, doctype_keyword, html_keyword, id_name, is_void_name, BANG, DASH, DOUBLE_QUOTE,
    EQUALS, GT, LINE_FEED, LT, SINGLE_QUOTE, SLASH, SPACE,
};
use crate::parser::handle::NodeHandle;
use crate::parser::options::{HTMLVersion, ParserOptions};
use crate::parser::tag::{NodeModel, TagModel};
use crate::simd::fallback::{ident_run_end, lemma_ident_run_end};
use crate::simd::{eq_ignoring_case, find3_from, find_from, lemma_find3_from};
use crate::util::is_ident_byte;

verus! {

/// The white space that separates attributes and class names: a space or a
/// line feed.
pub open spec fn is_space(b: u8) -> bool {
    b == SPACE || b == LINE_FEED
}

/// The offset of the first byte at or after `from` that is no white space,
/// or `s.len()`.
pub open spec fn skip_spaces(s: Seq<u8>, from: int) -> int
    decreases s.len() - from,
{
    if from < 0 || from >= s.len() {
        s.len() as int
    } else if !is_space(s[from]) {
        from
    } else {
        skip_spaces(s, from + 1)
    }
}

/// Skipping white space stops inside the input and never moves back.
pub proof fn lemma_skip_spaces(s: Seq<u8>, from: int)
    requires
        0 <= from <= s.len(),
    ensures
        from <= skip_spaces(s, from) <= s.len(),
        skip_spaces(s, from) < s.len() ==> !is_space(s[skip_spaces(s, from)]),
        forall|j: int| from <= j < skip_spaces(s, from) ==> is_space(#[trigger] s[j]),
    decreases s.len() - from,
{
    if from < s.len() && is_space(s[from]) {
        lemma_skip_spaces(s, from + 1);
    }
}

/// The bytes from `start` up to `end`, or nothing when that is no range of
/// the input.
pub open spec fn span(s: Seq<u8>, start: int, end: int) -> Seq<u8> {
    if 0 <= start <= end <= s.len() {
        s.subrange(start, end)
    } else {
        Seq::empty()
    }
}

/// The offset just after the byte at `at`, or the end of the input when
/// `at` is the end already.
pub open spec fn after(s: Seq<u8>, at: int) -> int {
    if at < s.len() {
        at + 1
    } else {
        s.len() as int
    }
}

/// The offset just after the first `-->` that starts at or after `from`,
/// or `s.len()` when there is none.
pub open spec fn comment_end(s: Seq<u8>, from: int) -> int
    decreases s.len() - from,
{
    if from < 0 || from + 3 > s.len() {
        s.len() as int
    } else if s[from] == DASH && s[from + 1] == DASH && s[from + 2] == GT {
        from + 3
    } else {
        comment_end(s, from + 1)
    }
}

/// A comment ends inside the input, after where the search began.
pub proof fn lemma_comment_end(s: Seq<u8>, from: int)
    requires
        0 <= from <= s.len(),
    ensures
        from <= comment_end(s, from) <= s.len(),
    decreases s.len() - from,
{
    if from + 3 <= s.len() && !(s[from] == DASH && s[from + 1] == DASH && s[from + 2] == GT) {
        lemma_comment_end(s, from + 1);
    }
}

/// An attribute value and the offset at which scanning goes on.
pub struct ValueScan {
    /// The value.
    pub value: Seq<u8>,
    /// The offset at which reading goes on.
    pub next: int,
}

/// The attribute value that starts at `at`, just after a `=`.
///
/// A value that opens with `"` or `'` runs to the next such quote and
/// leaves both out. Any other value runs up to the first space, line feed or
/// `>`, so a `/` just before the `>` belongs to it.
pub open spec fn attr_value(s: Seq<u8>, at: int) -> ValueScan {
    if at < 0 || at >= s.len() {
        ValueScan { value: Seq::empty(), next: s.len() as int }
    } else if s[at] == DOUBLE_QUOTE || s[at] == SINGLE_QUOTE {
        let close = find_from(s, s[at], at + 1);
        ValueScan { value: span(s, at + 1, close), next: after(s, close) }
    } else {
        let end = find3_from(s, SPACE, LINE_FEED, GT, at);
        ValueScan { value: span(s, at, end), next: end }
    }
}

/// Scanning a value never moves back and stops inside the input.
pub proof fn lemma_attr_value(s: Seq<u8>, at: int)
    requires
        0 <= at <= s.len(),
    ensures
        at <= attr_value(s, at).next <= s.len(),
{
    if at < s.len() {
        if s[at] == DOUBLE_QUOTE || s[at] == SINGLE_QUOTE {
            lemma_find3_from(s, s[at], s[at], s[at], at + 1);
        } else {
            lemma_find3_from(s, SPACE, LINE_FEED, GT, at);
        }
    }
}

/// The attributes with one more, unless the name is taken: of two
/// attributes of one name in a tag, the first stands.
pub open spec fn add_attr(acc: Seq<Attr>, name: Seq<u8>, value: Option<Seq<u8>>) -> Seq<Attr> {
    if has_name(acc, name) {
        acc
    } else {
        acc.push(Attr { name, value })
    }
}

/// The rest of a start tag: its attributes, the offset after it, and
/// whether it closed itself with a `/`.
pub struct TagScan {
    /// The attributes, in order.
    pub attributes: Seq<Attr>,
    /// The offset just after the tag.
    pub end: int,
    /// Whether a `/` closed the tag.
    pub self_closing: bool,
}

/// Reads the attributes of a start tag from `pos` on, in addition to those
/// in `acc`.
///
/// Between attributes white space is skipped. `>` ends the tag. `/` ends
/// it as self-closing, and what stands between the `/` and the next `>` is
/// dropped. An identifier byte starts a name, which runs as far as
/// identifier bytes do; a `=` right after the name is followed by the
/// value, and anything else leaves the attribute without one. Any other
/// byte is skipped. The end of the input ends the tag.
pub open spec fn scan_attrs(s: Seq<u8>, pos: int, acc: Seq<Attr>) -> TagScan
    decreases s.len() - pos,
{
    if pos < 0 || pos >= s.len() {
        TagScan { attributes: acc, end: s.len() as int, self_closing: false }
    } else {
        let p = skip_spaces(s, pos);
        proof {
            lemma_skip_spaces(s, pos);
        }
        if p >= s.len() {
            TagScan { attributes: acc, end: s.len() as int, self_closing: false }
        } else if s[p] == GT {
            TagScan { attributes: acc, end: p + 1, self_closing: false }
        } else if s[p] == SLASH {
            TagScan { attributes: acc, end: after(s, find_from(s, GT, p + 1)), self_closing: true }
        } else if is_ident_byte(s[p]) {
            let name_end = ident_run_end(s, p);
            proof {
                lemma_ident_run_end(s, p);
            }
            let name = s.subrange(p, name_end);
            if name_end < s.len() && s[name_end] == EQUALS {
                let v = attr_value(s, name_end + 1);
                proof {
                    lemma_attr_value(s, name_end + 1);
                }
                scan_attrs(s, v.next, add_attr(acc, name, Some(v.value)))
            } else {
                scan_attrs(s, name_end, add_attr(acc, name, None))
            }
        } else {
            scan_attrs(s, p + 1, acc)
        }
    }
}

/// A start tag ends inside the input, after where its attributes began.
pub proof fn lemma_scan_attrs(s: Seq<u8>, pos: int, acc: Seq<Attr>)
    requires
        0 <= pos <= s.len(),
    ensures
        pos <= scan_attrs(s, pos, acc).end <= s.len(),
    decreases s.len() - pos,
{
    if pos < s.len() {
        let p = skip_spaces(s, pos);
        lemma_skip_spaces(s, pos);
        if p >= s.len() {
        } else if s[p] == GT {
        } else if s[p] == SLASH {
            lemma_find3_from(s, GT, GT, GT, p + 1);
        } else if is_ident_byte(s[p]) {
            let name_end = ident_run_end(s, p);
            lemma_ident_run_end(s, p);
            let name = s.subrange(p, name_end);
            if name_end < s.len() && s[name_end] == EQUALS {
                let v = attr_value(s, name_end + 1);
                lemma_attr_value(s, name_end + 1);
                lemma_scan_attrs(s, v.next, add_attr(acc, name, Some(v.value)));
            } else {
                lemma_scan_attrs(s, name_end, add_attr(acc, name, None));
            }
        } else {
            lemma_scan_attrs(s, p + 1, acc);
        }
    }
}

/// The class names in the value `v` of a `class` attribute, from `from`
/// on: the runs of bytes that white space separates.
pub open spec fn class_tokens(v: Seq<u8>, from: int) -> Seq<Seq<u8>>
    decreases v.len() - from,
{
    if from < 0 || from >= v.len() {
        Seq::empty()
    } else {
        let p = skip_spaces(v, from);
        proof {
            lemma_skip_spaces(v, from);
        }
        if p >= v.len() {
            Seq::empty()
        } else {
            let e = find3_from(v, SPACE, LINE_FEED, LINE_FEED, p);
            proof {
                lemma_find3_from(v, SPACE, LINE_FEED, LINE_FEED, p);
            }
            seq![v.subrange(p, e)] + class_tokens(v, e)
        }
    }
}

/// Whether `name` is one of the class names in the value `v` of a `class`
/// attribute.
pub open spec fn class_list_has(v: Seq<u8>, name: Seq<u8>) -> bool {
    class_tokens(v, 0).contains(name)
}

/// A list of names with one more, first or last, holds a name when the
/// one more is that name or the list held it.
pub proof fn lemma_contains_one(first: Seq<u8>, rest: Seq<Seq<u8>>, x: Seq<u8>)
    ensures
        (seq![first] + rest).contains(x) <==> (first == x || rest.contains(x)),
        rest.push(first).contains(x) <==> (first == x || rest.contains(x)),
{
    let all = seq![first] + rest;
    let back = rest.push(first);
    if first == x {
        assert(all[0] == x);
        assert(back[rest.len() as int] == x);
    }
    if rest.contains(x) {
        let i = choose|i: int| 0 <= i < rest.len() && rest[i] == x;
        assert(all[i + 1] == x);
        assert(back[i] == x);
    }
    if all.contains(x) {
        let i = choose|i: int| 0 <= i < all.len() && all[i] == x;
        if i > 0 {
            assert(rest[i - 1] == x);
        }
    }
    if back.contains(x) {
        let i = choose|i: int| 0 <= i < back.len() && back[i] == x;
        if i < rest.len() {
            assert(rest[i] == x);
        }
    }
}

/// A class name that starts at `p` ends after `p` and inside the value.
pub proof fn lemma_find_token(v: Seq<u8>, p: int)
    requires
        0 <= p < v.len(),
        !is_space(v[p]),
    ensures
        p < find3_from(v, SPACE, LINE_FEED, LINE_FEED, p) <= v.len(),
{
    lemma_find3_from(v, SPACE, LINE_FEED, LINE_FEED, p);
}

/// One entry of an index: a key and the element filed under it.
pub struct Entry {
    /// The id or class name that the element is filed under.
    pub key: Seq<u8>,
    /// The element.
    pub handle: NodeHandle,
}

/// An entry for each class name in `v` from `from` on, all for `handle`. A
/// name that stands in the value more than once is filed where it stands
/// first, and only there.
pub open spec fn class_entries(v: Seq<u8>, from: int, handle: NodeHandle) -> Seq<Entry>
    decreases v.len() - from,
{
    if from < 0 || from >= v.len() {
        Seq::empty()
    } else {
        let p = skip_spaces(v, from);
        proof {
            lemma_skip_spaces(v, from);
        }
        if p >= v.len() {
            Seq::empty()
        } else {
            let e = find3_from(v, SPACE, LINE_FEED, LINE_FEED, p);
            proof {
                lemma_find3_from(v, SPACE, LINE_FEED, LINE_FEED, p);
            }
            (if class_list_has(v.subrange(0, p), v.subrange(p, e)) {
                Seq::empty()
            } else {
                seq![Entry { key: v.subrange(p, e), handle }]
            }) + class_entries(v, e, handle)
        }
    }
}

/// A tree under construction.
pub struct Tree {
    /// The nodes, in the order in which the input gave them.
    pub nodes: Seq<NodeModel>,
    /// For each node, the element it is a child of, if any.
    pub parents: Seq<Option<NodeHandle>>,
    /// The nodes that are no element's child, in document order.
    pub top: Seq<NodeHandle>,
    /// The elements that are open, outermost first.
    pub stack: Seq<NodeHandle>,
    /// The version that the document declared or, as long as it declared
    /// none, the one that the options gave.
    pub version: Option<HTMLVersion>,
    /// Elements by `id`, in the order found.
    pub ids: Seq<Entry>,
    /// Elements by class name, in the order found.
    pub classes: Seq<Entry>,
}

/// The tree before anything was read, under the options `opts`: no node,
/// and the version that the options give.
pub open spec fn start_tree(opts: ParserOptions) -> Tree {
    Tree { version: opts.version, ..empty_tree() }
}

/// The tree without anything in it.
pub open spec fn empty_tree() -> Tree {
    Tree {
        nodes: Seq::empty(),
        parents: Seq::empty(),
        top: Seq::empty(),
        stack: Seq::empty(),
        version: None,
        ids: Seq::empty(),
        classes: Seq::empty(),
    }
}

/// The nodes after the element at `parent` got `child` as its last child.
pub open spec fn add_child(nodes: Seq<NodeModel>, parent: int, child: NodeHandle) -> Seq<
    NodeModel,
> {
    if 0 <= parent < nodes.len() {
        match nodes[parent] {
            NodeModel::Tag(t) => nodes.update(
                parent,
                NodeModel::Tag(TagModel { children: t.children.push(child), ..t }),
            ),
            _ => nodes,
        }
    } else {
        nodes
    }
}

/// The tree with one more node, which becomes the last child of the
/// innermost open element, or a top-level node when no element is open.
pub open spec fn append(t: Tree, node: NodeModel) -> Tree {
    let h = NodeHandle(t.nodes.len() as u32);
    if t.stack.len() == 0 {
        Tree {
            nodes: t.nodes.push(node),
            parents: t.parents.push(None),
            top: t.top.push(h),
            ..t
        }
    } else {
        Tree {
            nodes: add_child(t.nodes, t.stack.last().index(), h).push(node),
            parents: t.parents.push(Some(t.stack.last())),
            ..t
        }
    }
}

/// The nodes after the element at `i` was made to span the input from its
/// start up to `end`.
pub open spec fn set_raw_end(s: Seq<u8>, nodes: Seq<NodeModel>, i: int, end: int) -> Seq<
    NodeModel,
> {
    if 0 <= i < nodes.len() {
        match nodes[i] {
            NodeModel::Tag(t) => nodes.update(
                i,
                NodeModel::Tag(TagModel { raw: span(s, t.start as int, end), ..t }),
            ),
            _ => nodes,
        }
    } else {
        nodes
    }
}

/// The tree after the innermost open element was closed at `end`.
pub open spec fn close_top(s: Seq<u8>, t: Tree, end: int) -> Tree {
    if t.stack.len() == 0 {
        t
    } else {
        Tree {
            nodes: set_raw_end(s, t.nodes, t.stack.last().index(), end),
            stack: t.stack.drop_last(),
            ..t
        }
    }
}

/// The tree after open elements were closed at `end`, innermost first,
/// until only `keep` were open.
pub open spec fn close_down_to(s: Seq<u8>, t: Tree, keep: int, end: int) -> Tree
    decreases t.stack.len(),
{
    if t.stack.len() <= keep || t.stack.len() == 0 {
        t
    } else {
        close_down_to(s, close_top(s, t, end), keep, end)
    }
}

/// Whether the node at `i` is an element called `name`.
pub open spec fn is_tag_named(nodes: Seq<NodeModel>, i: int, name: Seq<u8>) -> bool {
    &&& 0 <= i < nodes.len()
    &&& match nodes[i] {
        NodeModel::Tag(t) => t.name == name,
        _ => false,
    }
}

/// The place in the stack, at or below `k`, of the innermost open element
/// called `name`, or `-1` when none is called so.
pub open spec fn open_index(t: Tree, name: Seq<u8>, k: int) -> int
    decreases k + 1,
{
    if k < 0 || k >= t.stack.len() {
        -1
    } else if is_tag_named(t.nodes, t.stack[k].index(), name) {
        k
    } else {
        open_index(t, name, k - 1)
    }
}

/// The tree after an end tag for `name` that starts at `tag_start` and ends
/// before `tag_end`.
///
/// The innermost open element of that name is closed, its span reaching
/// through the end tag; the elements open inside it are closed where the
/// end tag starts. When no open element has that name, nothing changes.
pub open spec fn close(s: Seq<u8>, t: Tree, name: Seq<u8>, tag_start: int, tag_end: int) -> Tree {
    let j = open_index(t, name, t.stack.len() - 1);
    if j < 0 {
        t
    } else {
        close_top(s, close_down_to(s, t, j + 1, tag_start), tag_end)
    }
}

/// The tree with the element `h`, which has the attributes `attrs`, filed
/// in the indexes that the options ask for.
pub open spec fn index_tag(opts: ParserOptions, t: Tree, h: NodeHandle, attrs: Seq<Attr>) -> Tree {
    Tree {
        ids: match value_of(attrs, id_name()) {
            Some(Some(v)) if opts.track_ids => t.ids.push(Entry { key: v, handle: h }),
            _ => t.ids,
        },
        classes: match value_of(attrs, class_name()) {
            Some(Some(v)) if opts.track_classes => t.classes + class_entries(v, 0, h),
            _ => t.classes,
        },
        ..t
    }
}

/// A tree and the offset at which reading goes on.
pub struct Step {
    /// The tree after the round.
    pub tree: Tree,
    /// The offset at which reading goes on.
    pub next: int,
}

/// Text: everything from `pos` up to the first `<` at or after `from`.
pub open spec fn text(s: Seq<u8>, t: Tree, pos: int, from: int) -> Step {
    let end = find_from(s, LT, from);
    Step { tree: append(t, NodeModel::Raw(span(s, pos, end))), next: end }
}

/// A start tag at `pos`.
///
/// The name runs from after the `<` as far as identifier bytes do. The
/// element becomes a child of the innermost open element and, unless it is
/// self-closing or void, the innermost open element itself.
pub open spec fn start_tag(s: Seq<u8>, opts: ParserOptions, t: Tree, pos: int) -> Step {
    let name_end = ident_run_end(s, pos + 1);
    let name = span(s, pos + 1, name_end);
    let scan = scan_attrs(s, name_end, Seq::empty());
    let h = NodeHandle(t.nodes.len() as u32);
    let tag = TagModel {
        name,
        attributes: scan.attributes,
        children: Seq::empty(),
        start: pos as nat,
        raw: span(s, pos, scan.end),
    };
    let added = index_tag(opts, append(t, NodeModel::Tag(tag)), h, scan.attributes);
    Step {
        tree: if scan.self_closing || is_void_name(name) {
            added
        } else {
            Tree { stack: added.stack.push(h), ..added }
        },
        next: scan.end,
    }
}

/// An end tag at `pos`: `</`, a name, and whatever follows up to and
/// including the next `>`.
pub open spec fn end_tag(s: Seq<u8>, t: Tree, pos: int) -> Step {
    let name_end = ident_run_end(s, pos + 2);
    let next = after(s, find_from(s, GT, name_end));
    Step { tree: close(s, t, span(s, pos + 2, name_end), pos, next), next }
}

/// The version after a declaration whose keyword ends at `keyword_end`:
/// `doctype`, in any case, followed by `html`, in any case, declares HTML5.
pub open spec fn declared_version(
    s: Seq<u8>,
    version: Option<HTMLVersion>,
    keyword_start: int,
    keyword_end: int,
) -> Option<HTMLVersion> {
    let name_start = skip_spaces(s, keyword_end);
    let name_end = ident_run_end(s, name_start);
    if eq_ignoring_case(span(s, keyword_start, keyword_end), doctype_keyword())
        && eq_ignoring_case(span(s, name_start, name_end), html_keyword()) {
        Some(HTMLVersion::HTML5)
    } else {
        version
    }
}

/// A comment or a declaration at `pos`, which holds `<!`.
///
/// `<!--` opens a comment, which runs through the next `-->`, or to the
/// end of the input, and becomes a node as it stands. Anything else is a
/// declaration, which runs through the next `>` and leaves no node.
pub open spec fn markup(s: Seq<u8>, t: Tree, pos: int) -> Step {
    if pos + 3 < s.len() && s[pos + 2] == DASH && s[pos + 3] == DASH {
        let end = comment_end(s, pos + 2);
        Step { tree: append(t, NodeModel::Comment(span(s, pos, end))), next: end }
    } else {
        let keyword_end = ident_run_end(s, pos + 2);
        Step {
            tree: Tree { version: declared_version(s, t.version, pos + 2, keyword_end), ..t },
            next: after(s, find_from(s, GT, keyword_end)),
        }
    }
}

/// One round of the tokenizer at `pos`.
///
/// Anything but `<` starts text, which runs up to the next `<`. After a
/// `<`, a `/` makes an end tag, a `!` a comment or declaration, and an
/// identifier byte a start tag; before anything else, and at the end of the
/// input, the `<` is text itself.
pub open spec fn step(s: Seq<u8>, opts: ParserOptions, t: Tree, pos: int) -> Step
    recommends
        0 <= pos < s.len(),
{
    if s[pos] != LT {
        text(s, t, pos, pos)
    } else if pos + 1 < s.len() && s[pos + 1] == SLASH {
        end_tag(s, t, pos)
    } else if pos + 1 < s.len() && s[pos + 1] == BANG {
        markup(s, t, pos)
    } else if pos + 1 < s.len() && is_ident_byte(s[pos + 1]) {
        start_tag(s, opts, t, pos)
    } else {
        text(s, t, pos, pos + 1)
    }
}

/// Every round moves the cursor on by at least one byte and never past the
/// end of the input, whatever the bytes are, and adds at most one node.
pub proof fn lemma_step_advances(s: Seq<u8>, opts: ParserOptions, t: Tree, pos: int)
    requires
        0 <= pos < s.len(),
    ensures
        pos < step(s, opts, t, pos).next <= s.len(),
        t.nodes.len() <= step(s, opts, t, pos).tree.nodes.len() <= t.nodes.len() + 1,
{
    if s[pos] != LT {
        lemma_find3_from(s, LT, LT, LT, pos);
    } else if pos + 1 < s.len() && s[pos + 1] == SLASH {
        let name_end = ident_run_end(s, pos + 2);
        lemma_ident_run_end(s, pos + 2);
        lemma_find3_from(s, GT, GT, GT, name_end);
        let next = after(s, find_from(s, GT, name_end));
        lemma_close_keeps_len(s, t, span(s, pos + 2, name_end), pos, next);
    } else if pos + 1 < s.len() && s[pos + 1] == BANG {
        if pos + 3 < s.len() && s[pos + 2] == DASH && s[pos + 3] == DASH {
            lemma_comment_end(s, pos + 2);
        } else {
            let keyword_end = ident_run_end(s, pos + 2);
            lemma_ident_run_end(s, pos + 2);
            lemma_find3_from(s, GT, GT, GT, keyword_end);
        }
    } else if pos + 1 < s.len() && is_ident_byte(s[pos + 1]) {
        let name_end = ident_run_end(s, pos + 1);
        lemma_ident_run_end(s, pos + 1);
        lemma_scan_attrs(s, name_end, Seq::empty());
    } else {
        lemma_find3_from(s, LT, LT, LT, pos + 1);
    }
}

/// Closing elements changes no node count.
pub proof fn lemma_close_down_keeps_len(s: Seq<u8>, t: Tree, keep: int, end: int)
    ensures
        close_down_to(s, t, keep, end).nodes.len() == t.nodes.len(),
    decreases t.stack.len(),
{
    if !(t.stack.len() <= keep || t.stack.len() == 0) {
        lemma_close_down_keeps_len(s, close_top(s, t, end), keep, end);
    }
}

/// An end tag changes no node count.
pub proof fn lemma_close_keeps_len(s: Seq<u8>, t: Tree, name: Seq<u8>, tag_start: int, tag_end: int)
    ensures
        close(s, t, name, tag_start, tag_end).nodes.len() == t.nodes.len(),
{
    let j = open_index(t, name, t.stack.len() - 1);
    if j >= 0 {
        lemma_close_down_keeps_len(s, t, j + 1, tag_start);
    }
}

/// The tree at the end of the input: every element still open is closed
/// there.
pub open spec fn finish(s: Seq<u8>, t: Tree) -> Tree {
    close_down_to(s, t, 0, s.len() as int)
}

/// The tokenizer from `pos` on: round after round to the end of the input,
/// unless the tree outgrows the limit that the options set.
pub open spec fn run(s: Seq<u8>, opts: ParserOptions, t: Tree, pos: int) -> Result<
    Tree,
    ParseError,
>
    decreases s.len() - pos,
{
    if t.nodes.len() > opts.max_nodes {
        Err(ParseError::NodeLimitExceeded)
    } else if pos < 0 || pos >= s.len() {
        Ok(finish(s, t))
    } else {
        proof {
            lemma_step_advances(s, opts, t, pos);
        }
        run(s, opts, step(s, opts, t, pos).tree, step(s, opts, t, pos).next)
    }
}

/// The tree that parsing `s` gives, or why it gives none.
pub open spec fn parse_model(s: Seq<u8>, opts: ParserOptions) -> Result<Tree, ParseError> {
    if s.len() > u32::MAX {
        Err(ParseError::InvalidLength)
    } else {
        run(s, opts, start_tree(opts), 0)
    }
}

} // verus!
