//! The attributes of one element.

use vstd::prelude::*;
use crate::bytes::{bytes_eq, Bytes};

verus! {

/// What one attribute says: its name and, unless it was written without
/// one, its value.
pub struct Attr {
    /// The name.
    pub name: Seq<u8>,
    /// The value, if the attribute has one.
    pub value: Option<Seq<u8>>,
}

/// One attribute of an element.
#[derive(Debug)]
pub struct Attribute<'a> {
    /// The name, as written. Names are case-sensitive.
    pub name: Bytes<'a>,
    /// The value, or `None` for an attribute such as `disabled`.
    pub value: Option<Bytes<'a>>,
}

impl<'a> View for Attribute<'a> {
    type V = Attr;

    open spec fn view(&self) -> Attr {
        Attr {
            name: self.name@,
            value: match self.value {
                Some(v) => Some(v@),
                None => None,
            },
        }
    }
}

impl<'a> Attribute<'a> {
    /// Name and value are views of a buffer that lives elsewhere: nothing
    /// was copied to hold them.
    pub open spec fn is_borrowed(&self) -> bool {
        &&& self.name.is_borrowed()
        &&& match self.value {
            Some(v) => v.is_borrowed(),
            None => true,
        }
    }
}

impl<'a> Clone for Attribute<'a> {
    fn clone(&self) -> (r: Self)
        ensures
            r@ == self@,
    {
        Attribute {
            name: self.name.clone(),
            value: match &self.value {
                Some(v) => Some(v.clone()),
                None => None,
            },
        }
    }
}

/// The index of the first attribute at or after `from` that is called
/// `name`, or `attrs.len()` when there is none.
pub open spec fn name_index_from(attrs: Seq<Attr>, name: Seq<u8>, from: int) -> int
    decreases attrs.len() - from,
{
    if from < 0 || from >= attrs.len() {
        attrs.len() as int
    } else if attrs[from].name == name {
        from
    } else {
        name_index_from(attrs, name, from + 1)
    }
}

/// The index of the first attribute called `name`, or `attrs.len()`.
pub open spec fn name_index(attrs: Seq<Attr>, name: Seq<u8>) -> int {
    name_index_from(attrs, name, 0)
}

/// Whether an attribute called `name` is present.
pub open spec fn has_name(attrs: Seq<Attr>, name: Seq<u8>) -> bool {
    name_index(attrs, name) < attrs.len()
}

/// The value of the attribute called `name`: `None` when there is no such
/// attribute, `Some(None)` when it has no value.
pub open spec fn value_of(attrs: Seq<Attr>, name: Seq<u8>) -> Option<Option<Seq<u8>>> {
    if has_name(attrs, name) {
        Some(attrs[name_index(attrs, name)].value)
    } else {
        None
    }
}

/// No two attributes share a name.
pub open spec fn distinct_names(attrs: Seq<Attr>) -> bool {
    forall|i: int, j: int|
        0 <= i < j < attrs.len() ==> (#[trigger] attrs[i]).name != (#[trigger] attrs[j]).name
}

/// The attributes after `name` is given `value`: an attribute of that name
/// keeps its place and takes the value, a new one goes to the end.
pub open spec fn with_attr(attrs: Seq<Attr>, name: Seq<u8>, value: Option<Seq<u8>>) -> Seq<Attr> {
    if has_name(attrs, name) {
        attrs.update(name_index(attrs, name), Attr { name, value })
    } else {
        attrs.push(Attr { name, value })
    }
}

/// The attributes without the first one called `name`.
pub open spec fn without_attr(attrs: Seq<Attr>, name: Seq<u8>) -> Seq<Attr> {
    if has_name(attrs, name) {
        attrs.remove(name_index(attrs, name))
    } else {
        attrs
    }
}

/// The attributes with the first one called `name` stripped of its value.
pub open spec fn without_value(attrs: Seq<Attr>, name: Seq<u8>) -> Seq<Attr> {
    if has_name(attrs, name) {
        attrs.update(name_index(attrs, name), Attr { name, value: None })
    } else {
        attrs
    }
}

/// Where a search for a name stops: at an attribute of that name unless it
/// ran to the end, past attributes of other names only.
pub proof fn lemma_name_index_from(attrs: Seq<Attr>, name: Seq<u8>, from: int)
    requires
        0 <= from <= attrs.len(),
    ensures
        from <= name_index_from(attrs, name, from) <= attrs.len(),
        name_index_from(attrs, name, from) < attrs.len() ==> attrs[name_index_from(
            attrs,
            name,
            from,
        )].name == name,
        forall|j: int|
            from <= j < name_index_from(attrs, name, from) ==> (#[trigger] attrs[j]).name != name,
    decreases attrs.len() - from,
{
    if from < attrs.len() && attrs[from].name != name {
        lemma_name_index_from(attrs, name, from + 1);
    }
}

/// After an attribute was given a value, looking its name up finds that
/// value, and looking any other name up finds what it found before.
pub proof fn lemma_value_after_insert(
    attrs: Seq<Attr>,
    name: Seq<u8>,
    value: Option<Seq<u8>>,
    other: Seq<u8>,
)
    ensures
        value_of(with_attr(attrs, name, value), name) == Some(value),
        other != name ==> value_of(with_attr(attrs, name, value), other) == value_of(attrs, other),
        distinct_names(attrs) ==> distinct_names(with_attr(attrs, name, value)),
{
    let after = with_attr(attrs, name, value);
    lemma_name_index_from(attrs, name, 0);
    lemma_name_index_from(after, name, 0);
    lemma_name_index_from(attrs, other, 0);
    lemma_name_index_from(after, other, 0);
    let i = name_index(attrs, name);
    if has_name(attrs, name) {
        assert(after[i].name == name);
    } else {
        assert(after[attrs.len() as int].name == name);
    }
    if other != name {
        let a = name_index(attrs, other);
        let b = name_index(after, other);
        if a < attrs.len() {
            assert(after[a].name == other);
        }
        if b < after.len() {
            assert(b < attrs.len());
            assert(attrs[b].name == other);
        }
    }
}

/// After the value of an attribute was removed, the attribute is still
/// there, without a value; every other attribute is as it was.
pub proof fn lemma_value_after_remove_value(attrs: Seq<Attr>, name: Seq<u8>, other: Seq<u8>)
    ensures
        value_of(without_value(attrs, name), name) == if has_name(attrs, name) {
            Some(None::<Seq<u8>>)
        } else {
            None
        },
        other != name ==> value_of(without_value(attrs, name), other) == value_of(attrs, other),
        without_value(attrs, name).len() == attrs.len(),
{
    let after = without_value(attrs, name);
    lemma_name_index_from(attrs, name, 0);
    lemma_name_index_from(after, name, 0);
    lemma_name_index_from(attrs, other, 0);
    lemma_name_index_from(after, other, 0);
    let i = name_index(attrs, name);
    if has_name(attrs, name) {
        assert(after[i].name == name);
    } else {
        assert(after == attrs);
    }
    if other != name {
        let a = name_index(attrs, other);
        let b = name_index(after, other);
        if a < attrs.len() {
            assert(after[a].name == other);
        }
        if b < after.len() {
            assert(attrs[b].name == other);
        }
    }
}

/// After an attribute was removed from attributes with distinct names, no
/// attribute has its name, and every other attribute is as it was.
pub proof fn lemma_value_after_remove(attrs: Seq<Attr>, name: Seq<u8>, other: Seq<u8>)
    requires
        distinct_names(attrs),
    ensures
        value_of(without_attr(attrs, name), name).is_none(),
        other != name ==> value_of(without_attr(attrs, name), other) == value_of(attrs, other),
        distinct_names(without_attr(attrs, name)),
{
    let after = without_attr(attrs, name);
    lemma_name_index_from(attrs, name, 0);
    lemma_name_index_from(after, name, 0);
    lemma_name_index_from(attrs, other, 0);
    lemma_name_index_from(after, other, 0);
    let i = name_index(attrs, name);
    if has_name(attrs, name) {
        assert forall|j: int| 0 <= j < after.len() implies #[trigger] after[j] == attrs[if j < i {
            j
        } else {
            j + 1
        }] by {}
        let b = name_index(after, name);
        if b < after.len() {
            let src = if b < i {
                b
            } else {
                b + 1
            };
            assert(attrs[src].name == name);
            assert(attrs[i].name == name);
        }
        if other != name {
            let a = name_index(attrs, other);
            let c = name_index(after, other);
            if a < attrs.len() {
                let dst = if a < i {
                    a
                } else {
                    a - 1
                };
                assert(after[dst].name == other);
                if c < dst {
                    let src = if c < i {
                        c
                    } else {
                        c + 1
                    };
                    assert(attrs[src].name == other);
                }
            }
            if c < after.len() {
                let src = if c < i {
                    c
                } else {
                    c + 1
                };
                assert(attrs[src].name == other);
                assert(attrs[a].name == other);
            }
        }
    }
}

/// The attributes of an element, in the order in which they were written
/// or inserted. Looking a name up finds the first attribute of that name.
#[derive(Debug)]
pub struct Attributes<'a> {
    /// The attributes, in order.
    pub raw: Vec<Attribute<'a>>,
}

impl<'a> View for Attributes<'a> {
    type V = Seq<Attr>;

    open spec fn view(&self) -> Seq<Attr> {
        Seq::new(self.raw@.len(), |i: int| self.raw@[i]@)
    }
}

impl<'a> Attributes<'a> {
    /// No two attributes share a name. Holds of every set that the parser
    /// builds, and every method here keeps it.
    pub open spec fn wf(&self) -> bool {
        distinct_names(self@)
    }

    /// Every name and value is a view of a buffer that lives elsewhere.
    pub open spec fn all_borrowed(&self) -> bool {
        forall|i: int| 0 <= i < self.raw@.len() ==> (#[trigger] self.raw@[i]).is_borrowed()
    }

    /// An empty set of attributes.
    pub fn new() -> (r: Self)
        ensures
            r@ == Seq::<Attr>::empty(),
            r.wf(),
            r.all_borrowed(),
    {
        let r = Attributes { raw: Vec::new() };
        assert(r@ =~= Seq::<Attr>::empty());
        r
    }

    /// The number of attributes.
    pub fn len(&self) -> (r: usize)
        ensures
            r == self@.len(),
    {
        self.raw.len()
    }

    /// Whether there is no attribute.
    pub fn is_empty(&self) -> (r: bool)
        ensures
            r == (self@.len() == 0),
    {
        self.raw.len() == 0
    }

    /// The index of the first attribute called `name`, or `len()`.
    pub fn position(&self, name: &[u8]) -> (r: usize)
        ensures
            r == name_index(self@, name@),
            r <= self@.len(),
    {
        let mut i: usize = 0;
        while i < self.raw.len()
            invariant
                i <= self.raw.len(),
                name_index(self@, name@) == name_index_from(self@, name@, i as int),
            decreases self.raw.len() - i,
        {
            if bytes_eq(self.raw[i].name.as_bytes(), name) {
                return i;
            }
            i += 1;
        }
        i
    }

    /// Whether an attribute called `name` is present.
    pub fn contains(&self, name: &[u8]) -> (r: bool)
        ensures
            r == has_name(self@, name@),
    {
        self.position(name) < self.raw.len()
    }

    /// The value of the attribute called `name`: `None` when there is no
    /// such attribute, `Some(None)` when it has no value.
    pub fn get(&self, name: &[u8]) -> (r: Option<Option<&Bytes<'a>>>)
        ensures
            match r {
                Some(Some(v)) => value_of(self@, name@) == Some(Some(v@)) && (self.all_borrowed()
                    ==> v.is_borrowed()),
                Some(None) => value_of(self@, name@) == Some(None::<Seq<u8>>),
                None => value_of(self@, name@).is_none(),
            },
    {
        let i = self.position(name);
        if i < self.raw.len() {
            assert(self.all_borrowed() ==> self.raw@[i as int].is_borrowed());
            match &self.raw[i].value {
                Some(v) => Some(Some(v)),
                None => Some(None),
            }
        } else {
            None
        }
    }

    /// Mutable access to the value of the attribute called `name`, or
    /// `None` when there is no such attribute. The name stays as it is.
    pub fn get_mut(&mut self, name: &[u8]) -> (r: Option<&mut Option<Bytes<'a>>>)
        ensures
            r.is_some() == has_name(old(self)@, name@),
            r.is_none() ==> *final(self) == *old(self),
            r.is_some() ==> {
                let i = name_index(old(self)@, name@);
                &&& *r.unwrap() == old(self).raw@[i].value
                &&& final(self).raw@ == old(self).raw@.update(
                    i,
                    Attribute { name: old(self).raw@[i].name, value: *final(r.unwrap()) },
                )
            },
    {
        let i = self.position(name);
        if i < self.raw.len() {
            Some(&mut self.raw[i].value)
        } else {
            None
        }
    }

    /// Gives the attribute called `name` the value `value`. An attribute of
    /// that name keeps its place; a new one is added at the end.
    pub fn insert(&mut self, name: Bytes<'a>, value: Option<Bytes<'a>>)
        ensures
            final(self)@ == with_attr(
                old(self)@,
                name@,
                match value {
                    Some(v) => Some(v@),
                    None => None,
                },
            ),
            old(self).wf() ==> final(self).wf(),
            old(self).all_borrowed() && (Attribute { name, value }).is_borrowed()
                ==> final(self).all_borrowed(),
    {
        let ghost before = self@;
        let ghost model = (Attribute { name, value })@;
        let i = self.position(name.as_bytes());
        proof {
            lemma_name_index_from(before, name@, 0);
        }
        if i < self.raw.len() {
            self.raw.set(i, Attribute { name, value });
            assert(self@ =~= before.update(i as int, model));
        } else {
            self.raw.push(Attribute { name, value });
            assert(self@ =~= before.push(model));
        }
    }

    /// Removes the attribute called `name`, if there is one.
    pub fn remove(&mut self, name: &[u8])
        ensures
            final(self)@ == without_attr(old(self)@, name@),
            old(self).wf() ==> final(self).wf(),
    {
        let ghost before = self@;
        let i = self.position(name);
        if i < self.raw.len() {
            self.raw.remove(i);
            assert(self@ =~= before.remove(i as int));
        }
    }

    /// Strips the attribute called `name` of its value, so that only the
    /// name is left.
    pub fn remove_value(&mut self, name: &[u8])
        ensures
            final(self)@ == without_value(old(self)@, name@),
            old(self).wf() ==> final(self).wf(),
    {
        let ghost before = self@;
        let i = self.position(name);
        proof {
            lemma_name_index_from(before, name@, 0);
        }
        if i < self.raw.len() {
            let kept = self.raw[i].name.clone();
            self.raw.set(i, Attribute { name: kept, value: None });
            assert(self@ =~= before.update(i as int, Attr { name: name@, value: None }));
        }
    }
}

} // verus!
