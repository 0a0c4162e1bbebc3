//! Sizing arithmetic for execution-result records.

use vstd::prelude::*;

verus! {

/// Size in bytes of one chunk of a chunked large value, as fixed by the
/// node's chunking scheme.
pub const CHUNK_SIZE_BYTES: usize = 8 * 1024 * 1024;

/// Number of chunks a value of `size` bytes occupies once partitioned into
/// chunks of `CHUNK_SIZE_BYTES`: the ceiling of `size / CHUNK_SIZE_BYTES`.
pub fn chunk_count_after_partition(size: usize) -> (count: usize)
    ensures
        count == (size as int + CHUNK_SIZE_BYTES as int - 1) / (CHUNK_SIZE_BYTES as int),
{
    let full: usize = size / CHUNK_SIZE_BYTES;
    let rem: usize = size % CHUNK_SIZE_BYTES;
    proof {
        let c = CHUNK_SIZE_BYTES as int;
        vstd::arithmetic::div_mod::lemma_fundamental_div_mod(size as int, c);
        assert(size as int == c * (full as int) + rem as int);
        assert((full as int + 1) * c == full as int * c + c) by (nonlinear_arith);
        assert(full as int * c == c * full as int) by (nonlinear_arith);
        vstd::arithmetic::div_mod::lemma_div_is_ordered_by_denominator(size as int, 2, c);
        vstd::arithmetic::div_mod::lemma_div_is_ordered(size as int, usize::MAX as int, 2);
        assert(full as int <= usize::MAX as int / 2);
        if rem == 0 {
            vstd::arithmetic::div_mod::lemma_fundamental_div_mod_converse(
                size as int + c - 1,
                c,
                full as int,
                c - 1,
            );
        } else {
            vstd::arithmetic::div_mod::lemma_fundamental_div_mod_converse(
                size as int + c - 1,
                c,
                full as int + 1,
                rem as int - 1,
            );
        }
    }
    if rem == 0 {
        full
    } else {
        full + 1
    }
}

} // verus!
