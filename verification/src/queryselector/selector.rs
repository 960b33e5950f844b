//! Selectors and what they match.

use vstd::prelude::*;
use crate::parser::attributes::{has_name, value_of};
use crate::parser::base::Parser;
use crate::parser::constants::{class_name, id_name};
use crate::parser::handle::NodeHandle;
use crate::parser::order::parent_of;
use crate::parser::tag::{nodes_view, HTMLTag, Node, NodeModel, TagModel};
use crate::parser::grammar::class_list_has;
use crate::parser::scan::class_list_contains;

verus! {

/// What one test of a compound selector asks of an element.
pub enum SimpleModel {
    /// `name`: the element is called so, letter for letter.
    Tag(Seq<u8>),
    /// `#id`: the `id` attribute has this value.
    Id(Seq<u8>),
    /// `.class`: the `class` attribute lists this name.
    Class(Seq<u8>),
    /// `[name]`: an attribute of this name is present.
    Attribute(Seq<u8>),
    /// `[name=value]`: the attribute of this name has this value.
    AttributeValue(Seq<u8>, Seq<u8>),
    /// `*`: nothing is asked.
    All,
}

/// How a compound selector relates to the one before it.
#[derive(Debug, Clone, Copy, PartialEq, Eq, Structural)]
pub enum Combinator {
    /// White space: the element lies somewhere below one that the
    /// selector before matches.
    Descendant,
    /// `>`: the element is a child of one that the selector before
    /// matches.
    Child,
}

/// What a compound selector says: tests that one element must all pass.
pub struct CompoundModel {
    /// The tests.
    pub tests: Seq<SimpleModel>,
    /// How the compound selector relates to the one before it.
    pub combinator: Combinator,
}

/// One test of a compound selector. Names and values are views into the
/// selector string.
#[derive(Debug, Clone, Copy)]
pub enum Simple<'s> {
    /// `name`
    Tag(&'s [u8]),
    /// `#id`
    Id(&'s [u8]),
    /// `.class`
    Class(&'s [u8]),
    /// `[name]`
    Attribute(&'s [u8]),
    /// `[name=value]`
    AttributeValue(&'s [u8], &'s [u8]),
    /// `*`
    All,
}

impl<'s> View for Simple<'s> {
    type V = SimpleModel;

    open spec fn view(&self) -> SimpleModel {
        match self {
            Simple::Tag(n) => SimpleModel::Tag(n@),
            Simple::Id(v) => SimpleModel::Id(v@),
            Simple::Class(c) => SimpleModel::Class(c@),
            Simple::Attribute(n) => SimpleModel::Attribute(n@),
            Simple::AttributeValue(n, v) => SimpleModel::AttributeValue(n@, v@),
            Simple::All => SimpleModel::All,
        }
    }
}

/// A compound selector, such as `div.note[lang]`, and how it relates to
/// the compound selector before it.
#[derive(Debug)]
pub struct Compound<'s> {
    /// The tests, all of which an element must pass.
    pub tests: Vec<Simple<'s>>,
    /// How the compound selector relates to the one before it.
    pub combinator: Combinator,
}

impl<'s> View for Compound<'s> {
    type V = CompoundModel;

    open spec fn view(&self) -> CompoundModel {
        CompoundModel {
            tests: Seq::new(self.tests@.len(), |i: int| self.tests@[i]@),
            combinator: self.combinator,
        }
    }
}

impl<'s> Clone for Compound<'s> {
    fn clone(&self) -> (r: Self)
        ensures
            r@ == self@,
    {
        let mut tests: Vec<Simple<'s>> = Vec::new();
        let mut i: usize = 0;
        while i < self.tests.len()
            invariant
                i <= self.tests.len(),
                tests@ == self.tests@.subrange(0, i as int),
            decreases self.tests.len() - i,
        {
            tests.push(self.tests[i]);
            assert(tests@ =~= self.tests@.subrange(0, i + 1));
            i += 1;
        }
        assert(tests@ =~= self.tests@);
        Compound { tests, combinator: self.combinator }
    }
}

/// A selector: compound selectors, each related to the one before it by a
/// combinator. The last one is tested on the element itself.
#[derive(Debug)]
pub struct Selector<'s> {
    /// The compound selectors, outermost first.
    pub compounds: Vec<Compound<'s>>,
}

impl<'s> View for Selector<'s> {
    type V = Seq<CompoundModel>;

    open spec fn view(&self) -> Seq<CompoundModel> {
        Seq::new(self.compounds@.len(), |i: int| self.compounds@[i]@)
    }
}

impl<'s> Clone for Selector<'s> {
    fn clone(&self) -> (r: Self)
        ensures
            r@ == self@,
    {
        let mut compounds: Vec<Compound<'s>> = Vec::new();
        let mut i: usize = 0;
        while i < self.compounds.len()
            invariant
                i <= self.compounds.len(),
                compounds@.len() == i,
                forall|j: int| 0 <= j < i ==> (#[trigger] compounds@[j])@ == self.compounds@[j]@,
            decreases self.compounds.len() - i,
        {
            compounds.push(self.compounds[i].clone());
            i += 1;
        }
        let r = Selector { compounds };
        assert(r@ =~= self@);
        r
    }
}

/// Whether the element `t` passes the test `test`.
pub open spec fn simple_matches(t: TagModel, test: SimpleModel) -> bool {
    match test {
        SimpleModel::Tag(name) => t.name == name,
        SimpleModel::Id(id) => value_of(t.attributes, id_name()) == Some(Some(id)),
        SimpleModel::Class(class) => match value_of(t.attributes, class_name()) {
            Some(Some(v)) => class_list_has(v, class),
            _ => false,
        },
        SimpleModel::Attribute(name) => has_name(t.attributes, name),
        SimpleModel::AttributeValue(name, value) => value_of(t.attributes, name) == Some(
            Some(value),
        ),
        SimpleModel::All => true,
    }
}

/// Whether `node` is an element that passes every one of `tests`.
pub open spec fn compound_matches(node: NodeModel, tests: Seq<SimpleModel>) -> bool {
    match node {
        NodeModel::Tag(t) => forall|i: int| 0 <= i < tests.len() ==> simple_matches(t, #[trigger] tests[i]),
        _ => false,
    }
}

/// Whether the compound selectors up to the `k`-th match with the `k`-th
/// on the node at `i`: that node passes the `k`-th, and the ones before
/// are matched by elements above it as the combinators say.
pub open spec fn matches_at(
    nodes: Seq<NodeModel>,
    parents: Seq<Option<NodeHandle>>,
    sel: Seq<CompoundModel>,
    k: int,
    i: int,
) -> bool
    decreases k, i, 0nat,
{
    &&& 0 <= k < sel.len()
    &&& 0 <= i < nodes.len()
    &&& compound_matches(nodes[i], sel[k].tests)
    &&& (k == 0 || match sel[k].combinator {
        Combinator::Child => match parent_of(parents, i) {
            Some(p) => matches_at(nodes, parents, sel, k - 1, p),
            None => false,
        },
        Combinator::Descendant => matches_above(nodes, parents, sel, k - 1, i),
    })
}

/// Whether the compound selectors up to the `k`-th match with the `k`-th
/// on some element above the node at `i`.
pub open spec fn matches_above(
    nodes: Seq<NodeModel>,
    parents: Seq<Option<NodeHandle>>,
    sel: Seq<CompoundModel>,
    k: int,
    i: int,
) -> bool
    decreases k, i, 1nat,
{
    match parent_of(parents, i) {
        Some(p) => matches_at(nodes, parents, sel, k, p) || matches_above(
            nodes,
            parents,
            sel,
            k,
            p,
        ),
        None => false,
    }
}

/// Whether the selector `sel` matches the node at `i`.
pub open spec fn selector_matches(
    nodes: Seq<NodeModel>,
    parents: Seq<Option<NodeHandle>>,
    sel: Seq<CompoundModel>,
    i: int,
) -> bool {
    matches_at(nodes, parents, sel, sel.len() - 1, i)
}

/// Whether the element `tag` passes the test `test`.
pub fn test_simple<'a, 's>(tag: &HTMLTag<'a>, test: &Simple<'s>) -> (r: bool)
    ensures
        r == simple_matches(tag@, test@),
{
    match test {
        Simple::Tag(name) => tag._name.eq_bytes(name),
        Simple::Id(id) => {
            let key: [u8; 2] = [0x69, 0x64];
            assert(key@ =~= id_name());
            match tag._attributes.get(&key) {
                Some(Some(v)) => v.eq_bytes(id),
                _ => false,
            }
        },
        Simple::Class(class) => {
            let key: [u8; 5] = [0x63, 0x6c, 0x61, 0x73, 0x73];
            assert(key@ =~= class_name());
            match tag._attributes.get(&key) {
                Some(Some(v)) => class_list_contains(v.as_bytes(), class),
                _ => false,
            }
        },
        Simple::Attribute(name) => tag._attributes.contains(name),
        Simple::AttributeValue(name, value) => match tag._attributes.get(name) {
            Some(Some(v)) => v.eq_bytes(value),
            _ => false,
        },
        Simple::All => true,
    }
}

/// Whether `node` is an element that passes every test of `compound`.
pub fn test_compound<'a, 's>(node: &Node<'a>, compound: &Compound<'s>) -> (r: bool)
    ensures
        r == compound_matches(node@, compound@.tests),
{
    match node {
        Node::Tag(tag) => {
            let mut i: usize = 0;
            while i < compound.tests.len()
                invariant
                    i <= compound.tests.len(),
                    *node == Node::Tag(*tag),
                    forall|j: int| 0 <= j < i ==> simple_matches(tag@, #[trigger] compound@.tests[j]),
                decreases compound.tests.len() - i,
            {
                if !test_simple(tag, &compound.tests[i]) {
                    assert(!simple_matches(tag@, compound@.tests[i as int]));
                    return false;
                }
                i += 1;
            }
            true
        },
        _ => false,
    }
}

/// The index of the element that the node at `i` was made a child of.
pub fn parent_index<'a>(parser: &Parser<'a>, i: usize) -> (r: Option<usize>)
    ensures
        match r {
            Some(p) => parent_of(parser.parents@, i as int) == Some(p as int) && p < i,
            None => parent_of(parser.parents@, i as int).is_none(),
        },
{
    if i < parser.parents.len() {
        match parser.parents[i] {
            Some(p) => {
                let p = p.0 as usize;
                if p < i {
                    Some(p)
                } else {
                    None
                }
            },
            None => None,
        }
    } else {
        None
    }
}

/// Whether the compound selectors up to the `k`-th match with the `k`-th
/// on the node at `i`.
pub fn test_at<'a, 's>(parser: &Parser<'a>, selector: &Selector<'s>, k: usize, i: usize) -> (r: bool)
    ensures
        r == matches_at(nodes_view(parser.tags@), parser.parents@, selector@, k as int, i as int),
    decreases k, i, 0nat,
{
    if k >= selector.compounds.len() || i >= parser.tags.len() {
        return false;
    }
    if !test_compound(&parser.tags[i], &selector.compounds[k]) {
        return false;
    }
    if k == 0 {
        return true;
    }
    match selector.compounds[k].combinator {
        Combinator::Child => match parent_index(parser, i) {
            Some(p) => test_at(parser, selector, k - 1, p),
            None => false,
        },
        Combinator::Descendant => test_above(parser, selector, k - 1, i),
    }
}

/// Whether the compound selectors up to the `k`-th match with the `k`-th
/// on some element above the node at `i`.
pub fn test_above<'a, 's>(parser: &Parser<'a>, selector: &Selector<'s>, k: usize, i: usize) -> (r:
    bool)
    ensures
        r == matches_above(nodes_view(parser.tags@), parser.parents@, selector@, k as int, i as int),
    decreases k, i, 1nat,
{
    match parent_index(parser, i) {
        Some(p) => test_at(parser, selector, k, p) || test_above(parser, selector, k, p),
        None => false,
    }
}

impl<'s> Selector<'s> {
    /// Whether this selector matches the node at `i` of `parser`.
    pub fn matches<'a>(&self, parser: &Parser<'a>, i: usize) -> (r: bool)
        ensures
            r == selector_matches(nodes_view(parser.tags@), parser.parents@, self@, i as int),
    {
        let n = self.compounds.len();
        if n == 0 {
            return false;
        }
        test_at(parser, self, n - 1, i)
    }
}

} // verus!
