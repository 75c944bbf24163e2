use vstd::prelude::*;

verus! {

/// Relies on `macroquad::rand::gen_range` (quad-rand's global generator):
/// for `low = 0` and `high = n` it scales a 32-bit draw into `0..n`, the
/// high end excluded; for `n` up to `u32::MAX` the scaling is exact enough
/// that `n` itself never comes out.
#[verifier::external_body]
pub(crate) fn random_below(n: usize) -> (r: usize)
    requires
        0 < n <= u32::MAX,
    ensures
        r < n,
{
    macroquad::rand::gen_range(0, n)
}

} // verus!
