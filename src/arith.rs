//! Small checked integer helpers.
use vstd::prelude::*;

verus! {

/// Sum of two `i32`s; the sum must fit.
pub fn add(a: i32, b: i32) -> (r: i32)
    requires
        i32::MIN <= a + b <= i32::MAX,
    ensures
        r == a + b,
{
    a + b
}

/// Fused multiply-add `a * b + c` on `i32`s; the product and the result must fit.
pub fn fma(a: i32, b: i32, c: i32) -> (r: i32)
    requires
        i32::MIN <= a * b <= i32::MAX,
        i32::MIN <= a * b + c <= i32::MAX,
    ensures
        r == a * b + c,
{
    a * b + c
}

} // verus!
