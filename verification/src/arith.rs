//! Saturating products and small integer helpers.

use vstd::prelude::*;

verus! {

pub open spec fn spec_min(left: int, right: int) -> int {
    if left <= right {
        left
    } else {
        right
    }
}

pub open spec fn spec_max(left: int, right: int) -> int {
    if left <= right {
        right
    } else {
        left
    }
}

/// The nearest `usize` to a non-negative number.
pub open spec fn saturated(value: int) -> int {
    spec_min(value, usize::MAX as int)
}

/// The nearest `u64` to a non-negative number.
pub open spec fn saturated64(value: int) -> int {
    spec_min(value, u64::MAX as int)
}

pub fn saturating_product(left: usize, right: usize) -> (product: usize)
    ensures
        product == saturated(left * right),
{
    match left.checked_mul(right) {
        Some(product) => product,
        None => usize::MAX,
    }
}

pub fn saturating_product64(left: u64, right: u64) -> (product: u64)
    ensures
        product == saturated64(left * right),
{
    match left.checked_mul(right) {
        Some(product) => product,
        None => u64::MAX,
    }
}

pub fn min_usize(left: usize, right: usize) -> (least: usize)
    ensures
        least == spec_min(left as int, right as int),
{
    if left <= right {
        left
    } else {
        right
    }
}

pub fn max_usize(left: usize, right: usize) -> (greatest: usize)
    ensures
        greatest == spec_max(left as int, right as int),
{
    if left <= right {
        right
    } else {
        left
    }
}

} // verus!
