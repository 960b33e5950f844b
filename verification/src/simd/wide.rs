//! Scanning sixteen bytes at a time.
//!
//! Each chunk is classified lane by lane into a bit mask, one bit per byte,
//! and the first clear bit of the mask gives the offset of the first byte
//! that is no identifier byte.

use vstd::prelude::*;
use crate::util::{is_ident, is_ident_byte};
use crate::simd::fallback::{
    first_non_ident, ident_run_end, lemma_ident_run_end, lemma_ident_run_skip, lemma_ident_run_tail,
};

verus! {

/// Bytes per chunk. Shorter inputs, and what is left after the last whole
/// chunk, are scanned byte by byte.
pub const CHUNK: usize = 16;

/// Whether lane `k` of a chunk mask is set.
pub open spec fn lane_set(mask: u16, k: u16) -> bool {
    (mask >> k) & 1u16 == 1u16
}

/// Classifies the sixteen bytes at `offset`: lane `k` of the mask is set
/// exactly when byte `offset + k` is an identifier byte.
pub fn ident_mask(haystack: &[u8], offset: usize) -> (mask: u16)
    requires
        offset + 16 <= haystack.len(),
    ensures
        forall|k: u16| k < 16 ==> (#[trigger] lane_set(mask, k) <==> is_ident_byte(haystack@[offset + k])),
{
    let mut mask: u16 = 0;
    let mut k: u16 = 0;
    proof {
        assert forall|j: u16| j < 16 implies !lane_set(0u16, j) by {
            assert((0u16 >> j) & 1u16 != 1u16) by (bit_vector);
        }
    }
    while k < 16
        invariant
            k <= 16,
            offset + 16 <= haystack.len(),
            forall|j: u16| j < k ==> (#[trigger] lane_set(mask, j) <==> is_ident_byte(haystack@[offset + j])),
            forall|j: u16| k <= j < 16 ==> !#[trigger] lane_set(mask, j),
        decreases 16 - k,
    {
        if is_ident(haystack[offset + k as usize]) {
            let next: u16 = mask | (1u16 << k);
            proof {
                assert forall|j: u16| j < 16 implies (#[trigger] lane_set(next, j) <==> (j == k || lane_set(mask, j))) by {
                    assert(((mask | (1u16 << k)) >> j) & 1u16 == 1u16 <==> (j == k || (mask >> j) & 1u16 == 1u16))
                        by (bit_vector)
                        requires
                            j < 16,
                            k < 16,
                    ;
                }
            }
            mask = next;
        }
        k += 1;
    }
    mask
}

/// A mask is full exactly when each of its sixteen lanes is set.
pub proof fn lemma_full_mask(mask: u16)
    ensures
        mask == 0xffff <==> (forall|k: u16| k < 16 ==> #[trigger] lane_set(mask, k)),
{
    if mask == 0xffff {
        assert forall|k: u16| k < 16 implies #[trigger] lane_set(mask, k) by {
            assert((0xffffu16 >> k) & 1u16 == 1u16) by (bit_vector)
                requires
                    k < 16,
            ;
        }
    }
    if forall|k: u16| k < 16 ==> #[trigger] lane_set(mask, k) {
        assert(lane_set(mask, 0) && lane_set(mask, 1) && lane_set(mask, 2) && lane_set(mask, 3));
        assert(lane_set(mask, 4) && lane_set(mask, 5) && lane_set(mask, 6) && lane_set(mask, 7));
        assert(lane_set(mask, 8) && lane_set(mask, 9) && lane_set(mask, 10) && lane_set(mask, 11));
        assert(lane_set(mask, 12) && lane_set(mask, 13) && lane_set(mask, 14) && lane_set(
            mask,
            15,
        ));
        assert(mask == 0xffffu16) by (bit_vector)
            requires
                (mask >> 0u16) & 1u16 == 1u16,
                (mask >> 1u16) & 1u16 == 1u16,
                (mask >> 2u16) & 1u16 == 1u16,
                (mask >> 3u16) & 1u16 == 1u16,
                (mask >> 4u16) & 1u16 == 1u16,
                (mask >> 5u16) & 1u16 == 1u16,
                (mask >> 6u16) & 1u16 == 1u16,
                (mask >> 7u16) & 1u16 == 1u16,
                (mask >> 8u16) & 1u16 == 1u16,
                (mask >> 9u16) & 1u16 == 1u16,
                (mask >> 10u16) & 1u16 == 1u16,
                (mask >> 11u16) & 1u16 == 1u16,
                (mask >> 12u16) & 1u16 == 1u16,
                (mask >> 13u16) & 1u16 == 1u16,
                (mask >> 14u16) & 1u16 == 1u16,
                (mask >> 15u16) & 1u16 == 1u16,
        ;
    }
}

/// Whether some lane of the mask is clear: the chunk that the mask
/// classifies holds a byte that is no identifier byte.
pub fn has_clear_lane(mask: u16) -> (r: bool)
    ensures
        r == (exists|k: u16| k < 16 && !#[trigger] lane_set(mask, k)),
        r == (mask != 0xffff),
{
    proof {
        lemma_full_mask(mask);
    }
    mask != 0xffff
}

/// The lowest clear lane of a mask that has one.
pub fn first_clear_lane(mask: u16) -> (k: u16)
    requires
        mask != 0xffff,
    ensures
        k < 16,
        !lane_set(mask, k),
        forall|j: u16| j < k ==> #[trigger] lane_set(mask, j),
{
    let mut k: u16 = 0;
    while k < 15 && (mask >> k) & 1u16 == 1u16
        invariant
            k <= 15,
            forall|j: u16| j < k ==> #[trigger] lane_set(mask, j),
        decreases 15 - k,
    {
        k += 1;
    }
    proof {
        lemma_full_mask(mask);
    }
    k
}

/// Searches for the first non-identifier byte, sixteen bytes at a time.
///
/// Returns what the byte-at-a-time search returns, on every input.
pub fn search_non_ident_wide(haystack: &[u8]) -> (r: Option<usize>)
    ensures
        r == first_non_ident(haystack@),
{
    let len = haystack.len();
    if len < CHUNK {
        return crate::simd::fallback::search_non_ident(haystack);
    }
    let mut offset: usize = 0;
    while len - offset >= CHUNK
        invariant
            len == haystack.len(),
            offset <= len,
            ident_run_end(haystack@, 0) == ident_run_end(haystack@, offset as int),
        decreases len - offset,
    {
        let mask = ident_mask(haystack, offset);
        if has_clear_lane(mask) {
            let lane = first_clear_lane(mask);
            proof {
                assert forall|j: int| offset <= j < offset + lane implies is_ident_byte(
                    #[trigger] haystack@[j],
                ) by {
                    let d = (j - offset) as u16;
                    assert(lane_set(mask, d));
                }
                lemma_ident_run_skip(haystack@, offset as int, offset + lane);
            }
            return Some(offset + lane as usize);
        }
        proof {
            assert forall|j: int| offset <= j < offset + 16 implies is_ident_byte(
                #[trigger] haystack@[j],
            ) by {
                lemma_full_mask(mask);
                let d = (j - offset) as u16;
                assert(lane_set(mask, d));
            }
            lemma_ident_run_skip(haystack@, offset as int, offset + 16);
        }
        offset += CHUNK;
    }
    if offset < len {
        let rest = vstd::slice::slice_subrange(haystack, offset, len);
        proof {
            lemma_ident_run_tail(haystack@, offset as int, offset as int);
            lemma_ident_run_end(rest@, 0);
        }
        match crate::simd::fallback::search_non_ident(rest) {
            Some(x) => Some(offset + x),
            None => None,
        }
    } else {
        None
    }
}

} // verus!
