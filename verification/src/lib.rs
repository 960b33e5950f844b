//! A fault-tolerant HTML parser that builds a document tree over the input
//! bytes, with CSS-style selectors to query it.
//!
//! `parse` reads a document once, left to right, and never fails on
//! malformed markup. The tree it returns holds views into the input; nodes
//! refer to each other by handles, which are indices into one store.

pub mod bytes;
pub mod errors;
pub mod owned;
pub mod parser;
pub mod queryselector;
pub mod render;
pub mod simd;
pub mod util;
pub mod vdom;

pub use crate::bytes::Bytes;
pub use crate::errors::ParseError;
pub use crate::owned::{parse_owned, VDomGuard};
pub use crate::parser::attributes::Attributes;
pub use crate::parser::base::Parser;
pub use crate::parser::children::Children;
pub use crate::parser::handle::NodeHandle;
pub use crate::parser::options::{HTMLVersion, ParserOptions};
pub use crate::parser::tag::{HTMLTag, Node};
pub use crate::queryselector::iterable::QuerySelectorIterator;
pub use crate::queryselector::selector::Selector;
pub use crate::vdom::{parse, parse_bytes, ClassNameIterator, VDom};
