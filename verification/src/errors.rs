//! Why a parse can fail. Malformed markup is never a reason.

use vstd::prelude::*;

verus! {

/// Why no tree was built.
#[derive(Debug, Clone, Copy, PartialEq, Eq, Structural)]
pub enum ParseError {
    /// The input is longer than `u32::MAX` bytes, more than handles can
    /// address.
    InvalidLength,
    /// The input holds more nodes than the options allow.
    NodeLimitExceeded,
}

} // verus!
