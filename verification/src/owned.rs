//! A document together with the input that it was parsed from.

use vstd::prelude::*;
use vstd::utf8::encode_utf8;
use crate::errors::ParseError;
use crate::parser::grammar::{parse_model, Tree};
use crate::parser::options::ParserOptions;
use crate::vdom::{parse, VDom};

verus! {

/// An input that is known to parse, kept so that the document and its
/// input travel as one.
///
/// The guard owns the input and nothing that borrows from it, so it can be
/// moved and handed to another thread freely. The document is read from the
/// input each time it is asked for.
#[derive(Debug)]
pub struct VDomGuard {
    input: String,
    options: ParserOptions,
}

impl VDomGuard {
    /// The input parses under the options.
    #[verifier::type_invariant]
    spec fn parses(self) -> bool {
        parse_model(encode_utf8(self.input@), self.options) is Ok
    }

    /// The input that the guard holds.
    pub closed spec fn input(self) -> Seq<char> {
        self.input@
    }

    /// The options that the guard holds.
    pub closed spec fn options(self) -> ParserOptions {
        self.options
    }

    /// The document that the input holds.
    pub fn get_ref<'a>(&'a self) -> (r: VDom<'a>)
        ensures
            parse_model(encode_utf8(self.input()), self.options()) == Ok::<Tree, ParseError>(
                r.parser.tree(),
            ),
            r.parser.input@ == encode_utf8(self.input()),
            r.parser.options == self.options(),
            r.parser.unmarked(),
            r.parser.all_borrowed(),
    {
        proof {
            use_type_invariant(self);
        }
        match parse(self.input.as_str(), self.options) {
            Ok(dom) => dom,
            Err(_) => vstd::pervasive::unreached(),
        }
    }

    /// The input, given back.
    pub fn into_input(self) -> (r: String)
        ensures
            r@ == self.input(),
    {
        self.input
    }
}

/// Parses `input` and keeps it together with what it holds.
///
/// Fails as `parse` does, on an input that is too long or holds more
/// nodes than `options` allows.
pub fn parse_owned(input: String, options: ParserOptions) -> (r: Result<VDomGuard, ParseError>)
    ensures
        match r {
            Ok(guard) => {
                &&& guard.input() == input@
                &&& guard.options() == options
                &&& parse_model(encode_utf8(input@), options) is Ok
            },
            Err(e) => parse_model(encode_utf8(input@), options) == Err::<Tree, ParseError>(e),
        },
{
    let failure = match parse(input.as_str(), options) {
        Ok(_) => None,
        Err(e) => Some(e),
    };
    match failure {
        None => Ok(VDomGuard { input, options }),
        Some(e) => Err(e),
    }
}

} // verus!
