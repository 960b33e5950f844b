//! A byte string that is either borrowed from the input or owned.

use vstd::prelude::*;
use vstd::utf8::valid_utf8;
use vstd::string::StringSliceAdditionalSpecFns;

verus! {

/// The longest byte string that `Bytes::set` stores.
pub const MAX_OWNED_LEN: usize = 0xffff_ffff;

/// Why a `Bytes` could not take a new value.
#[derive(Debug, Clone, Copy, PartialEq, Eq, Structural)]
pub enum SetBytesError {
    /// The new value is longer than `MAX_OWNED_LEN` bytes.
    LengthOverflow,
}

/// A byte string: a view into a buffer that lives elsewhere, or a heap
/// buffer of its own.
///
/// Two values are equal when they hold the same bytes, however they hold them.
#[derive(Debug)]
pub enum Bytes<'a> {
    /// Bytes that live in a buffer owned elsewhere, such as the parsed input.
    Borrowed(&'a [u8]),
    /// Bytes on the heap, owned by this value.
    Owned(Vec<u8>),
}

impl<'a> View for Bytes<'a> {
    type V = Seq<u8>;

    open spec fn view(&self) -> Seq<u8> {
        match self {
            Bytes::Borrowed(s) => s@,
            Bytes::Owned(v) => v@,
        }
    }
}

/// `core::str::from_utf8`: the bytes as a string slice when they are valid
/// UTF-8, and nothing when they are not.
#[verifier::external_body]
fn str_from_utf8<'b>(bytes: &'b [u8]) -> (r: Option<&'b str>)
    ensures
        r.is_some() <==> valid_utf8(bytes@),
        r.is_some() ==> r.unwrap().spec_bytes() == bytes@,
{
    match core::str::from_utf8(bytes) {
        Ok(s) => Some(s),
        Err(_) => None,
    }
}

// The text that `String::from_utf8_lossy` makes of bytes: what they decode
// to, with U+FFFD in the place of each sequence that is not valid UTF-8.
pub uninterp spec fn lossy_utf8(bytes: Seq<u8>) -> Seq<char>;

/// `String::from_utf8_lossy`: the bytes as a string, with each invalid
/// sequence replaced by U+FFFD. The text is a function of the bytes alone,
/// and valid UTF-8 comes back as it decodes.
#[verifier::external_body]
fn string_from_utf8_lossy(bytes: &[u8]) -> (r: String)
    ensures
        r@ == lossy_utf8(bytes@),
        valid_utf8(bytes@) ==> r@ == vstd::utf8::decode_utf8(bytes@),
{
    String::from_utf8_lossy(bytes).into_owned()
}

impl<'a> Bytes<'a> {
    /// Whether the bytes live in a buffer owned elsewhere.
    pub open spec fn is_borrowed(&self) -> bool {
        self is Borrowed
    }

    /// The empty byte string. Nothing is allocated.
    pub fn new() -> (r: Self)
        ensures
            r@ == Seq::<u8>::empty(),
            r.is_borrowed(),
    {
        let empty: &[u8] = &[];
        Bytes::Borrowed(empty)
    }

    /// A view of the bytes of `s`.
    pub fn from_str(s: &'a str) -> (r: Self)
        ensures
            r@ == s.spec_bytes(),
            r.is_borrowed(),
    {
        Bytes::Borrowed(s.as_bytes())
    }

    /// A view of `s`.
    pub fn from_slice(s: &'a [u8]) -> (r: Self)
        ensures
            r == Bytes::Borrowed(s),
    {
        Bytes::Borrowed(s)
    }

    /// The number of bytes held.
    pub fn len(&self) -> (r: usize)
        ensures
            r == self@.len(),
    {
        self.as_bytes().len()
    }

    /// The bytes held.
    pub fn as_bytes(&self) -> (r: &[u8])
        ensures
            r@ == self@,
    {
        match self {
            Bytes::Borrowed(s) => s,
            Bytes::Owned(v) => v.as_slice(),
        }
    }

    /// The bytes with the lifetime of the buffer they were borrowed from, or
    /// nothing when this value owns them.
    pub fn as_bytes_borrowed(&self) -> (r: Option<&'a [u8]>)
        ensures
            r.is_some() == self.is_borrowed(),
            r.is_some() ==> r.unwrap()@ == self@,
    {
        match self {
            Bytes::Borrowed(s) => Some(s),
            Bytes::Owned(_) => None,
        }
    }

    /// The bytes as a string slice, or nothing when they are not valid UTF-8.
    pub fn try_as_utf8_str(&self) -> (r: Option<&str>)
        ensures
            r.is_some() <==> valid_utf8(self@),
            r.is_some() ==> r.unwrap().spec_bytes() == self@,
    {
        str_from_utf8(self.as_bytes())
    }

    /// The bytes as a string; invalid UTF-8 sequences are replaced by U+FFFD.
    pub fn as_utf8_str(&self) -> (r: String)
        ensures
            r@ == lossy_utf8(self@),
            valid_utf8(self@) ==> r@ == vstd::utf8::decode_utf8(self@),
    {
        string_from_utf8_lossy(self.as_bytes())
    }

    /// Replaces the bytes by a copy of `data`, in a fresh heap buffer.
    ///
    /// Fails, and changes nothing, when `data` is longer than
    /// `MAX_OWNED_LEN` bytes.
    pub fn set(&mut self, data: &[u8]) -> (r: Result<(), SetBytesError>)
        ensures
            r.is_ok() <==> data@.len() <= MAX_OWNED_LEN,
            r.is_ok() ==> final(self)@ == data@ && !final(self).is_borrowed(),
            r.is_err() ==> *final(self) == *old(self),
    {
        if data.len() > MAX_OWNED_LEN {
            return Err(SetBytesError::LengthOverflow);
        }
        *self = Bytes::Owned(vstd::slice::slice_to_vec(data));
        Ok(())
    }

    /// The bytes from `start` up to `end` as a value of their own: a view
    /// of the same buffer when this value is one, a copy otherwise.
    pub fn slice(&self, start: usize, end: usize) -> (r: Bytes<'a>)
        requires
            start <= end <= self@.len(),
        ensures
            r@ == self@.subrange(start as int, end as int),
            r.is_borrowed() == self.is_borrowed(),
    {
        match self {
            Bytes::Borrowed(s) => Bytes::Borrowed(vstd::slice::slice_subrange(s, start, end)),
            Bytes::Owned(v) => Bytes::Owned(
                vstd::slice::slice_to_vec(vstd::slice::slice_subrange(v.as_slice(), start, end)),
            ),
        }
    }

    /// Whether this value holds exactly the bytes of `other`.
    pub fn eq_bytes(&self, other: &[u8]) -> (r: bool)
        ensures
            r == (self@ == other@),
    {
        bytes_eq(self.as_bytes(), other)
    }
}

/// Whether two byte slices hold the same bytes.
pub fn bytes_eq(a: &[u8], b: &[u8]) -> (r: bool)
    ensures
        r == (a@ == b@),
{
    if a.len() != b.len() {
        return false;
    }
    let mut i: usize = 0;
    while i < a.len()
        invariant
            i <= a.len(),
            a.len() == b.len(),
            forall|j: int| 0 <= j < i ==> a@[j] == b@[j],
        decreases a.len() - i,
    {
        if a[i] != b[i] {
            return false;
        }
        i += 1;
    }
    assert(a@ =~= b@);
    true
}

impl<'a> Clone for Bytes<'a> {
    /// A borrowed value is copied as a view of the same buffer; an owned
    /// value gets a buffer of its own.
    fn clone(&self) -> (r: Self)
        ensures
            r@ == self@,
            r.is_borrowed() == self.is_borrowed(),
            self.is_borrowed() ==> r == *self,
    {
        match self {
            Bytes::Borrowed(s) => Bytes::Borrowed(s),
            Bytes::Owned(v) => Bytes::Owned(vstd::slice::slice_to_vec(v.as_slice())),
        }
    }
}

impl<'a> PartialEq for Bytes<'a> {
    fn eq(&self, other: &Self) -> (r: bool) {
        bytes_eq(self.as_bytes(), other.as_bytes())
    }
}

impl<'a> Eq for Bytes<'a> {

}

impl<'a> vstd::std_specs::cmp::PartialEqSpecImpl for Bytes<'a> {
    open spec fn obeys_eq_spec() -> bool {
        true
    }

    open spec fn eq_spec(&self, other: &Self) -> bool {
        self@ == other@
    }
}

impl<'a> From<&'a [u8]> for Bytes<'a> {
    fn from(v: &'a [u8]) -> (r: Self) {
        Bytes::Borrowed(v)
    }
}

impl<'a> vstd::std_specs::convert::FromSpecImpl<&'a [u8]> for Bytes<'a> {
    open spec fn obeys_from_spec() -> bool {
        true
    }

    open spec fn from_spec(v: &'a [u8]) -> Self {
        Bytes::Borrowed(v)
    }
}

impl<'a> From<&'a str> for Bytes<'a> {
    fn from(v: &'a str) -> (r: Self)
        ensures
            r@ == v.spec_bytes(),
            r.is_borrowed(),
    {
        let bytes = v.as_bytes();
        let ghost chosen = choose|b: &'a [u8]| b@ == v.spec_bytes();
        assert(bytes =~= chosen);
        Bytes::Borrowed(bytes)
    }
}

impl<'a> vstd::std_specs::convert::FromSpecImpl<&'a str> for Bytes<'a> {
    open spec fn obeys_from_spec() -> bool {
        true
    }

    /// A view of the bytes of `v`.
    open spec fn from_spec(v: &'a str) -> Self {
        Bytes::Borrowed(choose|b: &'a [u8]| b@ == v.spec_bytes())
    }
}

impl<'a> From<Vec<u8>> for Bytes<'a> {
    fn from(v: Vec<u8>) -> (r: Self) {
        Bytes::Owned(v)
    }
}

impl<'a> vstd::std_specs::convert::FromSpecImpl<Vec<u8>> for Bytes<'a> {
    open spec fn obeys_from_spec() -> bool {
        true
    }

    open spec fn from_spec(v: Vec<u8>) -> Self {
        Bytes::Owned(v)
    }
}

} // verus!
