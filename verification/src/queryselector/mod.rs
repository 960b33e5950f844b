//! CSS-style selectors: how they are written, what they match, and the
//! lazy sequence of matches.

pub mod iterable;
pub mod parser;
pub mod selector;
