pub mod analytic;
pub mod bignum;
pub mod math;
pub mod monte_carlo;
pub mod occupancy;

use vstd::prelude::*;

verus! {

/// Operations charged for one fully realized scan of `items` items split
/// into `chunks` equal chunks of which `non_empty` contain a defect:
/// every chunk costs one inspection, and every non-empty chunk additionally
/// costs a full per-item pass over its chunk.
pub open spec fn cost_spec(items: nat, chunks: nat, non_empty: nat) -> int {
    chunks + non_empty * (items / chunks) as int
}

/// Exact operation count of the two-phase scan for one occupancy pattern.
pub fn cost(items: u32, chunks: u32, non_empty: u32) -> (r: u64)
    requires
        1 <= chunks <= items,
        items as int % chunks as int == 0,
        non_empty <= chunks,
    ensures
        r == cost_spec(items as nat, chunks as nat, non_empty as nat),
{
    let size: u64 = (items / chunks) as u64;
    proof {
        assert((non_empty as int) * (size as int) <= (chunks as int) * (size as int)
            <= 0xffff_ffffi64 * 0xffff_ffffi64) by (nonlinear_arith)
            requires
                non_empty <= chunks,
                chunks <= 0xffff_ffffu32,
                0 <= size <= 0xffff_ffffu64,
        ;
    }
    (chunks as u64) + (non_empty as u64) * size
}

} // verus!
