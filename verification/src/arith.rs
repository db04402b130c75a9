//! Clamped arithmetic on balances: a result that does not fit is pinned to
//! the nearest bound instead of wrapping or failing.

use vstd::prelude::*;
use crate::types::Balance;

verus! {

/// `a + b`, or the largest balance where the sum does not fit.
pub open spec fn clamped_add(a: int, b: int) -> int {
    if a + b > Balance::MAX { Balance::MAX as int } else { a + b }
}

/// `a - b`, or zero where `b` exceeds `a`.
pub open spec fn clamped_sub(a: int, b: int) -> int {
    if a - b < 0 { 0 } else { a - b }
}

/// `a * b`, or the largest balance where the product does not fit.
pub open spec fn clamped_mul(a: int, b: int) -> int {
    if a * b > Balance::MAX { Balance::MAX as int } else { a * b }
}

/// Multiplies two balances, clamping at the largest balance.
pub fn saturating_mul(a: Balance, b: Balance) -> (product: Balance)
    ensures
        product == clamped_mul(a as int, b as int),
{
    match a.checked_mul(b) {
        Some(p) => p,
        None => Balance::MAX,
    }
}

} // verus!
