//! The scalar type of all lengths and coordinates, and its exact arithmetic.

use vstd::prelude::*;

verus! {

/// A length or a coordinate.
pub type Scalar = i32;

/// The value of the scalar range that lies nearest to `v`.
pub open spec fn saturated(v: int) -> int {
    if v < i32::MIN {
        i32::MIN as int
    } else if v > i32::MAX {
        i32::MAX as int
    } else {
        v
    }
}

/// The larger of two integers.
pub open spec fn larger(a: int, b: int) -> int {
    if a >= b {
        a
    } else {
        b
    }
}

/// The quotient of `a` by a positive `b`, rounded toward zero.
pub open spec fn quotient(a: int, b: int) -> int
    recommends
        b > 0,
{
    if a >= 0 {
        a / b
    } else {
        -((-a) / b)
    }
}

/// Clamps an exact value into the scalar range.
pub fn saturate(v: i128) -> (r: Scalar)
    ensures
        r == saturated(v as int),
{
    if v < i32::MIN as i128 {
        i32::MIN
    } else if v > i32::MAX as i128 {
        i32::MAX
    } else {
        v as i32
    }
}

/// The larger of two scalars.
pub fn scalar_max(a: Scalar, b: Scalar) -> (r: Scalar)
    ensures
        r == larger(a as int, b as int),
{
    if a >= b {
        a
    } else {
        b
    }
}

/// The negation of `v`, clamped into the scalar range: the one scalar without
/// a negation maps to the largest scalar.
pub fn saturating_negate(v: Scalar) -> (r: Scalar)
    ensures
        r == saturated(-(v as int)),
        r > i32::MIN,
{
    if v == i32::MIN {
        i32::MAX
    } else {
        -v
    }
}

} // verus!
