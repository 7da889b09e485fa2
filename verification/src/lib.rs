//! Interpreter for the Weave language: a parser that turns source text
//! describing named fields of numeric parameters into an in-memory model,
//! and update operators (tension, drift, resolve, metaweave) that evolve
//! that model from external sensor and agent inputs.
//!
//! Numeric values are fixed point throughout: a value is a signed count of
//! millionths, so `1_000_000` stands for one and `9_810_000` for `9.81`.
pub mod engine;
pub mod parser;
pub mod source;
pub mod state;
pub mod model;
use vstd::prelude::*;

verus! {

/// Number of millionths in one whole unit of a fixed-point value.
pub const MICROS_PER_UNIT: i64 = 1_000_000;

/// Clamp a mathematical integer into the `i64` range.
pub open spec fn clamp_i64(x: int) -> int {
    if x > i64::MAX {
        i64::MAX as int
    } else if x < i64::MIN {
        i64::MIN as int
    } else {
        x
    }
}

/// `a + b`, saturating at the `i64` bounds.
pub fn sat_add(a: i64, b: i64) -> (r: i64)
    ensures
        r == clamp_i64(a + b),
{
    let wide: i128 = a as i128 + b as i128;
    if wide > i64::MAX as i128 {
        i64::MAX
    } else if wide < i64::MIN as i128 {
        i64::MIN
    } else {
        wide as i64
    }
}

} // verus!
