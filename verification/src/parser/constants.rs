//! The bytes and names that the grammar singles out.

use vstd::prelude::*;
use crate::bytes::bytes_eq;

verus! {

/// `<`
pub const LT: u8 = 0x3c;

/// `>`
pub const GT: u8 = 0x3e;

/// `/`
pub const SLASH: u8 = 0x2f;

/// `!`
pub const BANG: u8 = 0x21;

/// `-`
pub const DASH: u8 = 0x2d;

/// `=`
pub const EQUALS: u8 = 0x3d;

/// `"`
pub const DOUBLE_QUOTE: u8 = 0x22;

/// `'`
pub const SINGLE_QUOTE: u8 = 0x27;

/// The space character.
pub const SPACE: u8 = 0x20;

/// The line feed character.
pub const LINE_FEED: u8 = 0x0a;

/// `id`
pub open spec fn id_name() -> Seq<u8> {
    seq![0x69u8, 0x64u8]
}

/// `class`
pub open spec fn class_name() -> Seq<u8> {
    seq![0x63u8, 0x6cu8, 0x61u8, 0x73u8, 0x73u8]
}

/// `doctype`
pub open spec fn doctype_keyword() -> Seq<u8> {
    seq![0x64u8, 0x6fu8, 0x63u8, 0x74u8, 0x79u8, 0x70u8, 0x65u8]
}

/// `html`
pub open spec fn html_keyword() -> Seq<u8> {
    seq![0x68u8, 0x74u8, 0x6du8, 0x6cu8]
}

/// Whether `name` names a void element, one that never has content:
/// `area`, `base`, `br`, `col`, `embed`, `hr`, `img`, `input`, `keygen`,
/// `link`, `meta`, `param`, `source`, `track` or `wbr`.
pub open spec fn is_void_name(name: Seq<u8>) -> bool {
    ||| name == seq![0x61u8, 0x72u8, 0x65u8, 0x61u8]
    ||| name == seq![0x62u8, 0x61u8, 0x73u8, 0x65u8]
    ||| name == seq![0x62u8, 0x72u8]
    ||| name == seq![0x63u8, 0x6fu8, 0x6cu8]
    ||| name == seq![0x65u8, 0x6du8, 0x62u8, 0x65u8, 0x64u8]
    ||| name == seq![0x68u8, 0x72u8]
    ||| name == seq![0x69u8, 0x6du8, 0x67u8]
    ||| name == seq![0x69u8, 0x6eu8, 0x70u8, 0x75u8, 0x74u8]
    ||| name == seq![0x6bu8, 0x65u8, 0x79u8, 0x67u8, 0x65u8, 0x6eu8]
    ||| name == seq![0x6cu8, 0x69u8, 0x6eu8, 0x6bu8]
    ||| name == seq![0x6du8, 0x65u8, 0x74u8, 0x61u8]
    ||| name == seq![0x70u8, 0x61u8, 0x72u8, 0x61u8, 0x6du8]
    ||| name == seq![0x73u8, 0x6fu8, 0x75u8, 0x72u8, 0x63u8, 0x65u8]
    ||| name == seq![0x74u8, 0x72u8, 0x61u8, 0x63u8, 0x6bu8]
    ||| name == seq![0x77u8, 0x62u8, 0x72u8]
}

/// Whether `name` names a void element.
pub fn is_void(name: &[u8]) -> (r: bool)
    ensures
        r == is_void_name(name@),
{
    let area: [u8; 4] = [0x61, 0x72, 0x65, 0x61];
    let base: [u8; 4] = [0x62, 0x61, 0x73, 0x65];
    let br: [u8; 2] = [0x62, 0x72];
    let col: [u8; 3] = [0x63, 0x6f, 0x6c];
    let embed: [u8; 5] = [0x65, 0x6d, 0x62, 0x65, 0x64];
    let hr: [u8; 2] = [0x68, 0x72];
    let img: [u8; 3] = [0x69, 0x6d, 0x67];
    let input: [u8; 5] = [0x69, 0x6e, 0x70, 0x75, 0x74];
    let keygen: [u8; 6] = [0x6b, 0x65, 0x79, 0x67, 0x65, 0x6e];
    let link: [u8; 4] = [0x6c, 0x69, 0x6e, 0x6b];
    let meta: [u8; 4] = [0x6d, 0x65, 0x74, 0x61];
    let param: [u8; 5] = [0x70, 0x61, 0x72, 0x61, 0x6d];
    let source: [u8; 6] = [0x73, 0x6f, 0x75, 0x72, 0x63, 0x65];
    let track: [u8; 5] = [0x74, 0x72, 0x61, 0x63, 0x6b];
    let wbr: [u8; 3] = [0x77, 0x62, 0x72];
    assert(area@ =~= seq![0x61u8, 0x72u8, 0x65u8, 0x61u8]);
    assert(base@ =~= seq![0x62u8, 0x61u8, 0x73u8, 0x65u8]);
    assert(br@ =~= seq![0x62u8, 0x72u8]);
    assert(col@ =~= seq![0x63u8, 0x6fu8, 0x6cu8]);
    assert(embed@ =~= seq![0x65u8, 0x6du8, 0x62u8, 0x65u8, 0x64u8]);
    assert(hr@ =~= seq![0x68u8, 0x72u8]);
    assert(img@ =~= seq![0x69u8, 0x6du8, 0x67u8]);
    assert(input@ =~= seq![0x69u8, 0x6eu8, 0x70u8, 0x75u8, 0x74u8]);
    assert(keygen@ =~= seq![0x6bu8, 0x65u8, 0x79u8, 0x67u8, 0x65u8, 0x6eu8]);
    assert(link@ =~= seq![0x6cu8, 0x69u8, 0x6eu8, 0x6bu8]);
    assert(meta@ =~= seq![0x6du8, 0x65u8, 0x74u8, 0x61u8]);
    assert(param@ =~= seq![0x70u8, 0x61u8, 0x72u8, 0x61u8, 0x6du8]);
    assert(source@ =~= seq![0x73u8, 0x6fu8, 0x75u8, 0x72u8, 0x63u8, 0x65u8]);
    assert(track@ =~= seq![0x74u8, 0x72u8, 0x61u8, 0x63u8, 0x6bu8]);
    assert(wbr@ =~= seq![0x77u8, 0x62u8, 0x72u8]);
    bytes_eq(name, &area) || bytes_eq(name, &base) || bytes_eq(name, &br) || bytes_eq(name, &col)
        || bytes_eq(name, &embed) || bytes_eq(name, &hr) || bytes_eq(name, &img) || bytes_eq(
        name,
        &input,
    ) || bytes_eq(name, &keygen) || bytes_eq(name, &link) || bytes_eq(name, &meta) || bytes_eq(
        name,
        &param,
    ) || bytes_eq(name, &source) || bytes_eq(name, &track) || bytes_eq(name, &wbr)
}

} // verus!
