//! The arithmetic that the clustering engine needs from its caller.

use vstd::prelude::*;

verus! {

/// Single-precision arithmetic on bit patterns, with a double-precision
/// accumulator for long sums.
///
/// The engine is verified for every implementation: nothing is assumed of
/// what these operations return. Narrow values are 32-bit patterns, wide
/// values are 64-bit patterns.
pub trait Arithmetic {
    /// `a - b`.
    fn difference(&self, a: u32, b: u32) -> u32;

    /// `a` raised to the second power.
    fn square(&self, a: u32) -> u32;

    /// `a + b`.
    fn sum(&self, a: u32, b: u32) -> u32;

    /// `a / b`.
    fn quotient(&self, a: u32, b: u32) -> u32;

    /// The non-negative square root of `a`.
    fn square_root(&self, a: u32) -> u32;

    /// The number nearest to the count `n`.
    fn from_count(&self, n: usize) -> u32;

    /// The wide value equal to `a`.
    fn widen(&self, a: u32) -> u64;

    /// `a + b` on wide values.
    fn wide_sum(&self, a: u64, b: u64) -> u64;
}

} // verus!
