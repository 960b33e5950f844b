//! What a caller can ask of a parse.

use vstd::prelude::*;

verus! {

/// A version of HTML.
#[derive(Debug, Clone, Copy, PartialEq, Eq, Structural)]
pub enum HTMLVersion {
    /// `<!DOCTYPE html>`
    HTML5,
    /// HTML 4.01 Strict
    StrictHTML401,
    /// HTML 4.01 Transitional
    TransitionalHTML401,
    /// HTML 4.01 Frameset
    FramesetHTML401,
}

/// Options of a parse.
#[derive(Debug, Clone, Copy, PartialEq, Eq)]
pub struct ParserOptions {
    /// Keep an index from `id` to element while parsing.
    pub track_ids: bool,
    /// Keep an index from class name to elements while parsing.
    pub track_classes: bool,
    /// The largest number of nodes a tree may hold.
    pub max_nodes: usize,
    /// The version of HTML that the document is taken to be in unless it
    /// declares one. This labels the document and changes nothing about how
    /// it is read.
    pub version: Option<HTMLVersion>,
}

impl ParserOptions {
    /// No index is kept and the number of nodes is not limited.
    pub open spec fn initial() -> ParserOptions {
        ParserOptions {
            track_ids: false,
            track_classes: false,
            max_nodes: usize::MAX,
            version: None,
        }
    }

    /// The default options: no index, no limit on the number of nodes, no
    /// version.
    pub fn new() -> (r: Self)
        ensures
            r == Self::initial(),
    {
        ParserOptions {
            track_ids: false,
            track_classes: false,
            max_nodes: usize::MAX,
            version: None,
        }
    }

    /// Turns the tracking of identifiers on: while parsing, an index from
    /// `id` to element and an index from class name to elements are kept, so
    /// that a lookup by id or by class does not walk the tree.
    pub fn track_ids(self) -> (r: Self)
        ensures
            r == (ParserOptions { track_ids: true, track_classes: true, ..self }),
    {
        ParserOptions {
            track_ids: true,
            track_classes: true,
            max_nodes: self.max_nodes,
            version: self.version,
        }
    }

    /// Keeps the index from class name to elements, with or without the
    /// index of ids.
    pub fn track_classes(self) -> (r: Self)
        ensures
            r == (ParserOptions { track_classes: true, ..self }),
    {
        ParserOptions {
            track_ids: self.track_ids,
            track_classes: true,
            max_nodes: self.max_nodes,
            version: self.version,
        }
    }

    /// Refuses inputs that hold more than `limit` nodes.
    pub fn max_nodes(self, limit: usize) -> (r: Self)
        ensures
            r == (ParserOptions { max_nodes: limit, ..self }),
    {
        ParserOptions {
            track_ids: self.track_ids,
            track_classes: self.track_classes,
            max_nodes: limit,
            version: self.version,
        }
    }

    /// Labels documents that declare no version as being in `version`.
    pub fn html_version(self, version: HTMLVersion) -> (r: Self)
        ensures
            r == (ParserOptions { version: Some(version), ..self }),
    {
        ParserOptions {
            track_ids: self.track_ids,
            track_classes: self.track_classes,
            max_nodes: self.max_nodes,
            version: Some(version),
        }
    }

    /// Whether elements are indexed by id.
    pub fn is_tracking_ids(&self) -> (r: bool)
        ensures
            r == self.track_ids,
    {
        self.track_ids
    }

    /// Whether elements are indexed by class.
    pub fn is_tracking_classes(&self) -> (r: bool)
        ensures
            r == self.track_classes,
    {
        self.track_classes
    }
}

impl Default for ParserOptions {
    fn default() -> (r: Self)
        ensures
            r == ParserOptions::initial(),
    {
        ParserOptions::new()
    }
}

} // verus!
