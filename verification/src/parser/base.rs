//! The tree builder: the node store and the tokenizer that fills it.

use vstd::prelude::*;
use crate::bytes::Bytes;
use crate::errors::ParseError;
use crate::parser::attributes::Attributes;
use crate::parser::constants::{is_void, BANG, DASH, GT, LINE_FEED, LT, SLASH, SPACE};
use crate::parser::grammar::{
    add_child, append, class_entries, close_down_to, close_top, end_tag, index_tag,
    lemma_find_token, lemma_step_advances, markup, open_index, parse_model, run, set_raw_end,
    start_tag, start_tree, step, text, Entry, Step, Tree,
};
use crate::parser::handle::NodeHandle;
use crate::parser::index::{indexed, lemma_parse_indexed};
use crate::parser::options::{HTMLVersion, ParserOptions};
use crate::parser::order::{lemma_parse_ordered, ordered};
use crate::parser::soundness::{lemma_parse_sound, sound};
use crate::parser::scan::{
    after_at, class_list_contains, comment_end_at, find3_at, find_at, ident_end_at,
    parse_attributes, skip_spaces_at, slice_span,
};
use crate::parser::tag::{nodes_view, HTMLTag, Node, NodeModel};
use crate::simd::matches_case_insensitive;
use crate::util::is_ident;

verus! {

/// One entry of an index: a key and the element filed under it.
#[derive(Debug)]
pub struct IndexEntry<'a> {
    /// The id or class name that the element is filed under.
    pub key: Bytes<'a>,
    /// The element.
    pub handle: NodeHandle,
}

impl<'a> View for IndexEntry<'a> {
    type V = Entry;

    open spec fn view(&self) -> Entry {
        Entry { key: self.key@, handle: self.handle }
    }
}

/// What an index says, entry by entry.
pub open spec fn entries_view<'a>(entries: Seq<IndexEntry<'a>>) -> Seq<Entry> {
    Seq::new(entries.len(), |i: int| entries[i]@)
}

/// The store of all nodes of one document, and what builds it.
///
/// Nodes are only ever added at the end, so a node's index, which is what
/// a handle holds, never changes.
#[derive(Debug)]
pub struct Parser<'a> {
    /// The bytes that were parsed.
    pub input: &'a [u8],
    /// The options of the parse.
    pub options: ParserOptions,
    /// The nodes, in the order in which the input gave them.
    pub tags: Vec<Node<'a>>,
    /// For each node, the element that it was made a child of, if any.
    pub parents: Vec<Option<NodeHandle>>,
    /// The top-level nodes.
    pub ast: Vec<NodeHandle>,
    /// The elements that are open, outermost first. Empty after a parse.
    pub stack: Vec<NodeHandle>,
    /// The version that the document declared or, when it declared none,
    /// the one that the options gave.
    pub version: Option<HTMLVersion>,
    /// Elements by `id`, when the options ask for that index.
    pub ids: Vec<IndexEntry<'a>>,
    /// Elements by class name, when the options ask for that index.
    pub classes: Vec<IndexEntry<'a>>,
    /// Whether mutable access to the nodes was handed out since the parse.
    pub modified: bool,
    /// For each node, whether it was handed out for change since the
    /// parse. A node that the marks do not reach counts as handed out.
    pub touched: Vec<bool>,
}

impl<'a> Parser<'a> {
    /// The tree that this store holds.
    pub open spec fn tree(&self) -> Tree {
        Tree {
            nodes: nodes_view(self.tags@),
            parents: self.parents@,
            top: self.ast@,
            stack: self.stack@,
            version: self.version,
            ids: entries_view(self.ids@),
            classes: entries_view(self.classes@),
        }
    }

    /// Everything in the store is a view of a buffer that lives elsewhere:
    /// nothing was copied to hold a name, a value, a text or a key. This holds
    /// of every store as parsed.
    pub open spec fn all_borrowed(&self) -> bool {
        &&& forall|i: int| 0 <= i < self.tags@.len() ==> (#[trigger] self.tags@[i]).is_borrowed()
        &&& forall|i: int| 0 <= i < self.ids@.len() ==> (#[trigger] self.ids@[i]).key.is_borrowed()
        &&& forall|i: int|
            0 <= i < self.classes@.len() ==> (#[trigger] self.classes@[i]).key.is_borrowed()
    }

    /// Nothing was handed out for change: the store is as parsed, and
    /// there is a mark for each node, none of them set.
    pub open spec fn unmarked(&self) -> bool {
        &&& !self.modified
        &&& self.touched@.len() == self.tags@.len()
        &&& forall|i: int| 0 <= i < self.touched@.len() ==> !(#[trigger] self.touched@[i])
    }

    /// Whether `other` was set up as this store was: for the same input and
    /// options, and as much modified.
    pub open spec fn same_setup(&self, other: &Self) -> bool {
        &&& self.input == other.input
        &&& self.options == other.options
        &&& self.modified == other.modified
    }

    /// Whether `other` differs from this store in its nodes only, and in
    /// what was handed out for change.
    pub open spec fn same_but_nodes(&self, other: &Self) -> bool {
        &&& self.input == other.input
        &&& self.options == other.options
        &&& self.parents == other.parents
        &&& self.ast == other.ast
        &&& self.stack == other.stack
        &&& self.version == other.version
        &&& self.ids == other.ids
        &&& self.classes == other.classes
    }

    /// The marks of this store after the node at `i` was handed out for
    /// change.
    pub open spec fn marks_with(&self, i: int) -> Seq<bool> {
        if 0 <= i < self.touched@.len() {
            self.touched@.update(i, true)
        } else {
            self.touched@
        }
    }

    /// An empty store for `input`.
    pub fn new(input: &'a [u8], options: ParserOptions) -> (r: Self)
        ensures
            r.tree() == start_tree(options),
            r.input == input,
            r.options == options,
            r.unmarked(),
            r.all_borrowed(),
    {
        let r = Parser {
            input,
            options,
            tags: Vec::new(),
            parents: Vec::new(),
            ast: Vec::new(),
            stack: Vec::new(),
            version: options.version,
            ids: Vec::new(),
            classes: Vec::new(),
            modified: false,
            touched: Vec::new(),
        };
        assert(r.tree().nodes =~= Seq::empty());
        assert(r.tree().ids =~= Seq::empty());
        assert(r.tree().classes =~= Seq::empty());
        r
    }

    /// The node at index `id`, or `None` when the store holds no node
    /// there.
    pub fn resolve_node_id(&self, id: u32) -> (r: Option<&Node<'a>>)
        ensures
            match r {
                Some(node) => id < self.tags.len() && *node == self.tags@[id as int],
                None => id >= self.tags.len(),
            },
    {
        let i = id as usize;
        if i < self.tags.len() {
            Some(&self.tags[i])
        } else {
            None
        }
    }

    /// Mutable access to the node at index `id`, or `None` when the store
    /// holds no node there. Handing out the access marks the node: from
    /// then on it, and every element that it lies below, is written out anew
    /// when it is rendered.
    pub fn resolve_node_id_mut(&mut self, id: u32) -> (r: Option<&mut Node<'a>>)
        ensures
            match r {
                Some(node) => {
                    &&& id < old(self).tags.len()
                    &&& *node == old(self).tags@[id as int]
                    &&& final(self).tags@ == old(self).tags@.update(id as int, *final(node))
                    &&& final(self).modified
                    &&& final(self).touched@ == old(self).marks_with(id as int)
                    &&& final(self).same_but_nodes(old(self))
                },
                None => id >= old(self).tags.len() && *final(self) == *old(self),
            },
    {
        let i = id as usize;
        if i < self.tags.len() {
            self.modified = true;
            if i < self.touched.len() {
                self.touched.set(i, true);
            }
            Some(&mut self.tags[i])
        } else {
            None
        }
    }

    /// The children of the element at `handle`, in document order, or
    /// `None` when `handle` refers to no element of this store.
    pub fn children_of(&self, handle: NodeHandle) -> (r: Option<&Vec<NodeHandle>>)
        ensures
            match r {
                Some(children) => handle.index() < self.tags.len() && match self.tags@[handle.index()] {
                    Node::Tag(t) => *children == t._children,
                    _ => false,
                },
                None => handle.index() >= self.tags.len() || !(self.tags@[handle.index()] is Tag),
            },
    {
        let i = handle.0 as usize;
        if i < self.tags.len() {
            match &self.tags[i] {
                Node::Tag(t) => Some(&t._children),
                _ => None,
            }
        } else {
            None
        }
    }

    /// The element that the node at `handle` was made a child of, or `None`
    /// for a top-level node and for a handle that refers to no node.
    pub fn parent_of(&self, handle: NodeHandle) -> (r: Option<NodeHandle>)
        ensures
            r == if handle.index() < self.parents.len() {
                self.parents@[handle.index()]
            } else {
                None
            },
    {
        let i = handle.0 as usize;
        if i < self.parents.len() {
            self.parents[i]
        } else {
            None
        }
    }

    /// Adds a node: as the last child of the innermost open element, or as
    /// a top-level node when no element is open.
    fn register_node(&mut self, node: Node<'a>) -> (h: NodeHandle)
        requires
            old(self).tags.len() < u32::MAX,
        ensures
            final(self).tree() == append(old(self).tree(), node@),
            h == NodeHandle(old(self).tags.len() as u32),
            final(self).tags.len() == old(self).tags.len() + 1,
            final(self).same_setup(old(self)),
            old(self).all_borrowed() && node.is_borrowed() ==> final(self).all_borrowed(),
            old(self).unmarked() ==> final(self).unmarked(),
    {
        let ghost before = self.tree();
        let h = NodeHandle(self.tags.len() as u32);
        let open = self.stack.len();
        if open == 0 {
            self.ast.push(h);
            self.parents.push(None);
        } else {
            let parent = self.stack[open - 1];
            let i = parent.0 as usize;
            if i < self.tags.len() {
                match &mut self.tags[i] {
                    Node::Tag(t) => {
                        t._children.push(h);
                    },
                    _ => {},
                }
            }
            assert(nodes_view(self.tags@) =~= add_child(before.nodes, parent.index(), h));
            self.parents.push(Some(parent));
        }
        self.tags.push(node);
        self.touched.push(false);
        assert(self.tree().nodes =~= append(before, node@).nodes);
        h
    }

    /// Closes the innermost open element at `end`.
    fn close_top(&mut self, end: usize)
        ensures
            final(self).tree() == close_top(old(self).input@, old(self).tree(), end as int),
            final(self).tags.len() == old(self).tags.len(),
            final(self).same_setup(old(self)),
            old(self).all_borrowed() ==> final(self).all_borrowed(),
            old(self).unmarked() ==> final(self).unmarked(),
    {
        let ghost before = self.tree();
        let input = self.input;
        match self.stack.pop() {
            Some(h) => {
                let i = h.0 as usize;
                if i < self.tags.len() {
                    match &mut self.tags[i] {
                        Node::Tag(t) => {
                            t._raw = Bytes::Borrowed(slice_span(input, t._start, end));
                        },
                        _ => {},
                    }
                }
                assert(nodes_view(self.tags@) =~= set_raw_end(
                    input@,
                    before.nodes,
                    h.index(),
                    end as int,
                ));
            },
            None => {},
        }
    }

    /// Closes open elements at `end`, innermost first, until only `keep`
    /// are open.
    fn close_down_to(&mut self, keep: usize, end: usize)
        ensures
            final(self).tree() == close_down_to(
                old(self).input@,
                old(self).tree(),
                keep as int,
                end as int,
            ),
            final(self).tags.len() == old(self).tags.len(),
            final(self).same_setup(old(self)),
            old(self).all_borrowed() ==> final(self).all_borrowed(),
            old(self).unmarked() ==> final(self).unmarked(),
    {
        while self.stack.len() > keep
            invariant
                self.same_setup(old(self)),
                old(self).all_borrowed() ==> self.all_borrowed(),
                old(self).unmarked() ==> self.unmarked(),
                self.tags.len() == old(self).tags.len(),
                close_down_to(old(self).input@, old(self).tree(), keep as int, end as int)
                    == close_down_to(self.input@, self.tree(), keep as int, end as int),
            decreases self.stack.len(),
        {
            self.close_top(end);
        }
    }

    /// The place in the stack of the innermost open element called `name`.
    fn find_open(&self, name: &[u8]) -> (r: Option<usize>)
        ensures
            match r {
                Some(j) => j < self.stack.len() && j == open_index(
                    self.tree(),
                    name@,
                    self.stack.len() - 1,
                ),
                None => open_index(self.tree(), name@, self.stack.len() - 1) < 0,
            },
    {
        let mut k = self.stack.len();
        while k > 0
            invariant
                k <= self.stack.len(),
                open_index(self.tree(), name@, self.stack.len() - 1) == open_index(
                    self.tree(),
                    name@,
                    k - 1,
                ),
            decreases k,
        {
            let i = self.stack[k - 1].0 as usize;
            if i < self.tags.len() {
                match &self.tags[i] {
                    Node::Tag(t) => {
                        if t._name.eq_bytes(name) {
                            return Some(k - 1);
                        }
                    },
                    _ => {},
                }
            }
            k -= 1;
        }
        None
    }

    /// Files the element `h` under each class name in `value`.
    fn index_classes(&mut self, value: &Bytes<'a>, h: NodeHandle)
        ensures
            entries_view(final(self).classes@) == entries_view(old(self).classes@) + class_entries(
                value@,
                0,
                h,
            ),
            *final(self) == (Parser { classes: final(self).classes, ..*old(self) }),
            old(self).all_borrowed() && value.is_borrowed() ==> final(self).all_borrowed(),
    {
        let bytes = value.as_bytes();
        let len = bytes.len();
        let mut cur: usize = 0;
        proof {
            assert(entries_view(self.classes@) + class_entries(value@, len as int, h) =~= entries_view(
                self.classes@,
            ));
        }
        while cur < len
            invariant
                len == bytes.len(),
                bytes@ == value@,
                cur <= len,
                *self == (Parser { classes: self.classes, ..*old(self) }),
                old(self).all_borrowed() && value.is_borrowed() ==> self.all_borrowed(),
                entries_view(old(self).classes@) + class_entries(value@, 0, h) == entries_view(
                    self.classes@,
                ) + class_entries(value@, cur as int, h),
            decreases len - cur,
        {
            let ghost filed = entries_view(self.classes@);
            let p = skip_spaces_at(bytes, cur);
            if p >= len {
                proof {
                    assert(class_entries(value@, cur as int, h) =~= Seq::<Entry>::empty());
                    assert(filed + Seq::<Entry>::empty() =~= filed);
                }
                return ;
            }
            let needles: [u8; 3] = [SPACE, LINE_FEED, LINE_FEED];
            let e = find3_at(bytes, needles, p);
            proof {
                lemma_find_token(value@, p as int);
            }
            let token = vstd::slice::slice_subrange(bytes, p, e);
            let seen = class_list_contains(vstd::slice::slice_subrange(bytes, 0, p), token);
            if !seen {
                self.classes.push(IndexEntry { key: value.slice(p, e), handle: h });
            }
            proof {
                let entry = Entry { key: value@.subrange(p as int, e as int), handle: h };
                let piece = if seen {
                    Seq::<Entry>::empty()
                } else {
                    seq![entry]
                };
                assert(entries_view(self.classes@) =~= filed + piece);
                assert(class_entries(value@, cur as int, h) =~= piece + class_entries(
                    value@,
                    e as int,
                    h,
                ));
                assert(filed + (piece + class_entries(value@, e as int, h)) =~= (filed + piece)
                    + class_entries(value@, e as int, h));
                if e == len {
                    assert(class_entries(value@, len as int, h) =~= Seq::<Entry>::empty());
                }
            }
            cur = e;
        }
        proof {
            assert(class_entries(value@, cur as int, h) =~= Seq::<Entry>::empty());
            assert(entries_view(self.classes@) + Seq::<Entry>::empty() =~= entries_view(
                self.classes@,
            ));
        }
    }

    /// Files the element `h`, which has the attributes `attributes`, in the
    /// indexes that the options ask for.
    fn index_tag(&mut self, h: NodeHandle, attributes: &Attributes<'a>)
        ensures
            entries_view(final(self).ids@) == index_tag(
                old(self).options,
                old(self).tree(),
                h,
                attributes@,
            ).ids,
            entries_view(final(self).classes@) == index_tag(
                old(self).options,
                old(self).tree(),
                h,
                attributes@,
            ).classes,
            *final(self) == (Parser {
                ids: final(self).ids,
                classes: final(self).classes,
                ..*old(self)
            }),
            old(self).all_borrowed() && attributes.all_borrowed() ==> final(self).all_borrowed(),
    {
        if self.options.track_ids {
            let id: [u8; 2] = [0x69, 0x64];
            assert(id@ =~= crate::parser::constants::id_name());
            match attributes.get(&id) {
                Some(Some(v)) => {
                    let ghost filed = entries_view(self.ids@);
                    self.ids.push(IndexEntry { key: v.clone(), handle: h });
                    assert(entries_view(self.ids@) =~= filed.push(Entry { key: v@, handle: h }));
                },
                _ => {},
            }
        }
        if self.options.track_classes {
            let class: [u8; 5] = [0x63, 0x6c, 0x61, 0x73, 0x73];
            assert(class@ =~= crate::parser::constants::class_name());
            match attributes.get(&class) {
                Some(Some(v)) => {
                    self.index_classes(v, h);
                },
                _ => {},
            }
        }
    }

    /// Reads the start tag at `pos`.
    fn read_start(&mut self, pos: usize) -> (next: usize)
        requires
            pos + 1 < old(self).input.len(),
            old(self).tags.len() < u32::MAX,
        ensures
            (Step { tree: final(self).tree(), next: next as int }) == start_tag(
                old(self).input@,
                old(self).options,
                old(self).tree(),
                pos as int,
            ),
            final(self).tags.len() == old(self).tags.len() + 1,
            final(self).same_setup(old(self)),
            next <= old(self).input.len(),
            old(self).all_borrowed() ==> final(self).all_borrowed(),
            old(self).unmarked() ==> final(self).unmarked(),
    {
        let ghost before = self.tree();
        let input = self.input;
        let name_end = ident_end_at(input, pos + 1);
        let name = slice_span(input, pos + 1, name_end);
        let (attributes, end, self_closing) = parse_attributes(input, name_end);
        let void = is_void(name);
        let h = NodeHandle(self.tags.len() as u32);
        self.index_tag(h, &attributes);
        let tag = HTMLTag::new(
            Bytes::Borrowed(name),
            attributes,
            Vec::new(),
            Bytes::Borrowed(slice_span(input, pos, end)),
            pos,
        );
        let ghost model = NodeModel::Tag(tag@);
        self.register_node(Node::Tag(tag));
        if !(self_closing || void) {
            self.stack.push(h);
        }
        proof {
            let want = start_tag(input@, self.options, before, pos as int);
            assert(tag@.children =~= Seq::empty());
            assert(self.tree().nodes == want.tree.nodes);
            assert(self.tree().stack =~= want.tree.stack);
        }
        end
    }

    /// Reads the end tag at `pos`.
    fn read_end(&mut self, pos: usize) -> (next: usize)
        requires
            pos + 1 < old(self).input.len(),
        ensures
            (Step { tree: final(self).tree(), next: next as int }) == end_tag(
                old(self).input@,
                old(self).tree(),
                pos as int,
            ),
            final(self).tags.len() == old(self).tags.len(),
            final(self).same_setup(old(self)),
            pos + 2 <= next <= old(self).input.len(),
            old(self).all_borrowed() ==> final(self).all_borrowed(),
            old(self).unmarked() ==> final(self).unmarked(),
    {
        let input = self.input;
        let name_end = ident_end_at(input, pos + 2);
        let name = slice_span(input, pos + 2, name_end);
        let gt = find_at(input, GT, name_end);
        let next = after_at(input, gt);
        match self.find_open(name) {
            Some(j) => {
                self.close_down_to(j + 1, pos);
                self.close_top(next);
            },
            None => {},
        }
        next
    }

    /// Reads the comment or declaration at `pos`.
    fn read_markdown(&mut self, pos: usize) -> (next: usize)
        requires
            pos + 1 < old(self).input.len(),
            old(self).tags.len() < u32::MAX,
        ensures
            (Step { tree: final(self).tree(), next: next as int }) == markup(
                old(self).input@,
                old(self).tree(),
                pos as int,
            ),
            final(self).tags.len() <= old(self).tags.len() + 1,
            final(self).same_setup(old(self)),
            pos + 2 <= next <= old(self).input.len(),
            old(self).all_borrowed() ==> final(self).all_borrowed(),
            old(self).unmarked() ==> final(self).unmarked(),
    {
        let input = self.input;
        let len = input.len();
        if len - pos > 3 && input[pos + 2] == DASH && input[pos + 3] == DASH {
            let end = comment_end_at(input, pos + 2);
            self.register_node(Node::Comment(Bytes::Borrowed(slice_span(input, pos, end))));
            end
        } else {
            let keyword_end = ident_end_at(input, pos + 2);
            let doctype: [u8; 7] = [0x64, 0x6f, 0x63, 0x74, 0x79, 0x70, 0x65];
            assert(doctype@ =~= crate::parser::constants::doctype_keyword());
            if matches_case_insensitive(slice_span(input, pos + 2, keyword_end), doctype) {
                let name_start = skip_spaces_at(input, keyword_end);
                let name_end = ident_end_at(input, name_start);
                let html: [u8; 4] = [0x68, 0x74, 0x6d, 0x6c];
                assert(html@ =~= crate::parser::constants::html_keyword());
                if matches_case_insensitive(slice_span(input, name_start, name_end), html) {
                    self.version = Some(HTMLVersion::HTML5);
                }
            }
            let gt = find_at(input, GT, keyword_end);
            after_at(input, gt)
        }
    }

    /// Reads text: the bytes from `pos` up to the next `<` at or after
    /// `from`.
    fn read_text(&mut self, pos: usize, from: usize) -> (next: usize)
        requires
            pos <= from <= old(self).input.len(),
            old(self).tags.len() < u32::MAX,
        ensures
            (Step { tree: final(self).tree(), next: next as int }) == text(
                old(self).input@,
                old(self).tree(),
                pos as int,
                from as int,
            ),
            final(self).tags.len() == old(self).tags.len() + 1,
            final(self).same_setup(old(self)),
            from <= next <= old(self).input.len(),
            old(self).all_borrowed() ==> final(self).all_borrowed(),
            old(self).unmarked() ==> final(self).unmarked(),
    {
        let input = self.input;
        let end = find_at(input, LT, from);
        self.register_node(Node::Raw(Bytes::Borrowed(slice_span(input, pos, end))));
        end
    }

    /// One round of the tokenizer at `pos`.
    fn parse_single(&mut self, pos: usize) -> (next: usize)
        requires
            pos < old(self).input.len(),
            old(self).tags.len() < u32::MAX,
        ensures
            (Step { tree: final(self).tree(), next: next as int }) == step(
                old(self).input@,
                old(self).options,
                old(self).tree(),
                pos as int,
            ),
            final(self).tags.len() <= old(self).tags.len() + 1,
            final(self).same_setup(old(self)),
            pos < next <= old(self).input.len(),
            old(self).all_borrowed() ==> final(self).all_borrowed(),
            old(self).unmarked() ==> final(self).unmarked(),
    {
        proof {
            lemma_step_advances(self.input@, self.options, self.tree(), pos as int);
        }
        let input = self.input;
        if input[pos] != LT {
            self.read_text(pos, pos)
        } else if pos + 1 < input.len() && input[pos + 1] == SLASH {
            self.read_end(pos)
        } else if pos + 1 < input.len() && input[pos + 1] == BANG {
            self.read_markdown(pos)
        } else if pos + 1 < input.len() && is_ident(input[pos + 1]) {
            self.read_start(pos)
        } else {
            self.read_text(pos, pos + 1)
        }
    }

    /// Parses `input` from the first byte to the last.
    ///
    /// Malformed markup is no error. The parse fails only when the input
    /// is longer than `u32::MAX` bytes, or when it holds more nodes than
    /// `options` allows; it then stops at the round that passed the limit.
    ///
    /// The store that comes back holds the tree that the grammar gives for
    /// `input`. It is sound and in document order, its indexes hold what its
    /// nodes file, no element in it is left open, and nothing in it is a copy.
    pub fn parse(input: &'a [u8], options: ParserOptions) -> (r: Result<Parser<'a>, ParseError>)
        ensures
            match r {
                Ok(p) => {
                    &&& parse_model(input@, options) == Ok::<Tree, ParseError>(p.tree())
                    &&& p.input == input
                    &&& p.options == options
                    &&& p.unmarked()
                    &&& p.all_borrowed()
                    &&& sound(input@, p.tree(), input@.len() as int)
                    &&& ordered(p.tree())
                    &&& indexed(options, p.tree())
                    &&& p.stack@.len() == 0
                },
                Err(e) => parse_model(input@, options) == Err::<Tree, ParseError>(e),
            },
    {
        if input.len() > 0xffff_ffff {
            return Err(ParseError::InvalidLength);
        }
        let mut parser = Parser::new(input, options);
        let mut pos: usize = 0;
        while pos < input.len()
            invariant
                input.len() <= u32::MAX,
                pos <= input.len(),
                parser.tags.len() <= pos,
                parser.input == input,
                parser.options == options,
                parser.unmarked(),
                parser.all_borrowed(),
                run(input@, options, start_tree(options), 0) == run(
                    input@,
                    options,
                    parser.tree(),
                    pos as int,
                ),
            decreases input.len() - pos,
        {
            if parser.tags.len() > options.max_nodes {
                return Err(ParseError::NodeLimitExceeded);
            }
            pos = parser.parse_single(pos);
        }
        if parser.tags.len() > options.max_nodes {
            return Err(ParseError::NodeLimitExceeded);
        }
        parser.close_down_to(0, input.len());
        proof {
            lemma_parse_sound(input@, options, parser.tree());
            lemma_parse_ordered(input@, options, parser.tree());
            lemma_parse_indexed(input@, options, parser.tree());
        }
        Ok(parser)
    }
}

} // verus!
