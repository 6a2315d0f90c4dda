use vstd::prelude::*;
use crate::quote::MAX_PRICE;

verus! {

/// A signed relative difference, in hundredths of a percent.
#[derive(Clone, Copy, Debug, PartialEq, Eq, Structural)]
pub struct Percent(pub i128);

/// Relative difference of `quoted` over `base`, in hundredths of a percent,
/// rounded to the nearest hundredth (halves round up).
pub open spec fn premium_hundredths(base: nat, quoted: nat) -> int
    recommends
        base > 0,
{
    ((20000 * quoted + base) / (2 * base)) as int - 10000
}

/// How much more `quoted` costs than `base`, as a percentage:
/// `quoted / base * 100 - 100`, rounded to two decimals.
pub fn premium(base: u128, quoted: u128) -> (r: Percent)
    requires
        0 < base <= MAX_PRICE,
        quoted <= MAX_PRICE,
    ensures
        r.0 == premium_hundredths(base as nat, quoted as nat),
{
    let num: u128 = 20000 * quoted + base;
    let den: u128 = 2 * base;
    let q: u128 = num / den;
    assert(q <= num) by (nonlinear_arith)
        requires q == num / den, den >= 1;
    Percent(q as i128 - 10000)
}

} // verus!
