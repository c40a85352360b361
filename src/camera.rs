//! Integer parts of the camera's sampling set-up.
use vstd::prelude::*;

verus! {

/// Side of the stratified sub-pixel grid for a sample budget: the largest
/// `r` with `r * r <= samples_per_pixel`.
pub fn samples_grid_side(samples_per_pixel: usize) -> (r: usize)
    ensures
        r * r <= samples_per_pixel,
        samples_per_pixel < (r + 1) * (r + 1),
{
    let n: u128 = samples_per_pixel as u128;
    let mut lo: u128 = 0;
    let mut hi: u128 = 0x1_0000_0000;
    proof {
        assert(n < hi * hi) by (nonlinear_arith)
            requires
                n <= 0xffff_ffff_ffff_ffff,
                hi == 0x1_0000_0000,
        ;
    }
    while lo + 1 < hi
        invariant
            lo < hi <= 0x1_0000_0000,
            lo * lo <= n,
            n < hi * hi,
        decreases hi - lo,
    {
        let m: u128 = lo + (hi - lo) / 2;
        proof {
            assert(m * m <= 0x1_0000_0000 * 0x1_0000_0000) by (nonlinear_arith)
                requires
                    m <= 0x1_0000_0000,
            ;
        }
        if m * m <= n {
            lo = m;
        } else {
            hi = m;
        }
    }
    proof {
        assert(hi == lo + 1);
        assert(lo < 0x1_0000_0000);
    }
    lo as usize
}

} // verus!
