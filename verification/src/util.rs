//! Byte classification shared by the scanners and the tokenizer.

use vstd::prelude::*;

verus! {

/// An identifier byte: an ASCII letter or digit, or one of `-`, `_`, `:`, `+`, `/`.
///
/// Tag names, attribute names and unquoted attribute values all end at the
/// first byte for which this is false.
pub open spec fn is_ident_byte(c: u8) -> bool {
    ||| 0x30 <= c <= 0x39
    ||| 0x41 <= c <= 0x5a
    ||| 0x61 <= c <= 0x7a
    ||| c == 0x2d
    ||| c == 0x5f
    ||| c == 0x3a
    ||| c == 0x2b
    ||| c == 0x2f
}

/// The ASCII lower-case form of a byte: upper-case letters move down by
/// `0x20`, every other byte is left alone.
pub open spec fn lower_byte(c: u8) -> u8 {
    if 0x41 <= c <= 0x5a {
        (c + 0x20) as u8
    } else {
        c
    }
}

/// Whether `c` may stand in an identifier.
pub fn is_ident(c: u8) -> (r: bool)
    ensures
        r == is_ident_byte(c),
{
    (0x30 <= c && c <= 0x39) || (0x41 <= c && c <= 0x5a) || (0x61 <= c && c <= 0x7a) || c == 0x2d
        || c == 0x5f || c == 0x3a || c == 0x2b || c == 0x2f
}

/// Folds an ASCII upper-case letter to lower case.
#[inline(always)]
pub fn to_lower(byte: u8) -> (r: u8)
    ensures
        r == lower_byte(byte),
{
    if 0x41 <= byte && byte <= 0x5a {
        byte + 0x20
    } else {
        byte
    }
}

} // verus!
