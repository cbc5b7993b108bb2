use vstd::prelude::*;

verus! {

/// The square of `val`.
pub fn sqr(val: i64) -> (r: i64)
    requires
        val * val <= i64::MAX,
    ensures
        r == val * val,
{
    assert(0 <= val * val) by (nonlinear_arith);
    val * val
}

/// Interpolates three values with barycentric weights: `e0 * bar[0] + e1 * bar[1] + e2 * bar[2]`.
pub fn barycentric_interp(bar: &[i64; 3], e0: &i64, e1: &i64, e2: &i64) -> (r: i64)
    requires
        i64::MIN <= *e0 * bar[0] <= i64::MAX,
        i64::MIN <= *e1 * bar[1] <= i64::MAX,
        i64::MIN <= *e2 * bar[2] <= i64::MAX,
        i64::MIN <= *e0 * bar[0] + *e1 * bar[1] <= i64::MAX,
        i64::MIN <= *e0 * bar[0] + *e1 * bar[1] + *e2 * bar[2] <= i64::MAX,
    ensures
        r == *e0 * bar[0] + *e1 * bar[1] + *e2 * bar[2],
{
    (*e0 * bar[0]) + (*e1 * bar[1]) + (*e2 * bar[2])
}

} // verus!
