//! Anchor fractions.

use crate::scalar::{quotient, Scalar};
use vstd::prelude::*;

verus! {

/// The number of anchor parts that make up the whole extent of a parent.
pub const ANCHOR_WHOLE: u32 = 65536;

/// A fraction between zero and one of a parent's extent, held in parts of
/// [`ANCHOR_WHOLE`].
#[derive(Debug, Clone, Copy, PartialEq, Eq)]
pub struct Anchor {
    parts: u32,
}

impl Anchor {
    #[verifier::type_invariant]
    spec fn within_whole(self) -> bool {
        self.parts <= ANCHOR_WHOLE
    }

    /// The numerator of the fraction, over [`ANCHOR_WHOLE`].
    pub closed spec fn parts(self) -> int {
        self.parts as int
    }

    /// The distance from a parent's leading edge at which the anchor lies, in a
    /// parent of the given extent: the product rounded toward zero.
    pub open spec fn offset_in(self, extent: int) -> int {
        quotient(extent * self.parts(), ANCHOR_WHOLE as int)
    }

    /// The anchor of `parts` parts. More than the whole counts as the whole.
    pub fn new(parts: u32) -> (r: Anchor)
        ensures
            r.parts() == if parts <= ANCHOR_WHOLE { parts } else { ANCHOR_WHOLE },
    {
        if parts <= ANCHOR_WHOLE {
            Anchor { parts }
        } else {
            Anchor { parts: ANCHOR_WHOLE }
        }
    }

    /// The leading edge.
    pub fn zero() -> (r: Anchor)
        ensures
            r.parts() == 0,
    {
        Anchor { parts: 0 }
    }

    /// The trailing edge.
    pub fn one() -> (r: Anchor)
        ensures
            r.parts() == ANCHOR_WHOLE,
    {
        Anchor { parts: ANCHOR_WHOLE }
    }

    /// The numerator of the fraction.
    pub fn get(self) -> (r: u32)
        ensures
            r == self.parts(),
            r <= ANCHOR_WHOLE,
    {
        proof {
            use_type_invariant(self);
        }
        self.parts
    }

    /// Scales `extent` by the fraction.
    pub fn scale(self, extent: Scalar) -> (r: Scalar)
        ensures
            r == self.offset_in(extent as int),
    {
        proof {
            use_type_invariant(self);
        }
        let parts: i64 = self.parts as i64;
        let wide: i64 = extent as i64;
        assert(-0x8000_0000_0000 <= wide * parts <= 0x8000_0000_0000) by (nonlinear_arith)
            requires
                -0x8000_0000 <= wide <= 0x7fff_ffff,
                0 <= parts <= 0x1_0000,
        ;
        let product: i64 = wide * parts;
        let scaled: i64 = product / (ANCHOR_WHOLE as i64);
        proof {
            lemma_scaled_within(extent as int, self.parts());
        }
        scaled as i32
    }
}

/// A fraction of an extent lies between zero and the extent.
pub proof fn lemma_scaled_within(extent: int, parts: int)
    requires
        0 <= parts <= ANCHOR_WHOLE,
    ensures
        extent >= 0 ==> 0 <= quotient(extent * parts, ANCHOR_WHOLE as int) <= extent,
        extent <= 0 ==> extent <= quotient(extent * parts, ANCHOR_WHOLE as int) <= 0,
{
    if extent >= 0 {
        assert(0 <= extent * parts <= extent * 65536) by (nonlinear_arith)
            requires
                extent >= 0,
                0 <= parts <= 65536,
        ;
        assert((extent * 65536) / 65536 == extent) by (nonlinear_arith);
        assert((extent * parts) / 65536 <= (extent * 65536) / 65536) by (nonlinear_arith)
            requires
                extent * parts <= extent * 65536,
        ;
        assert(0 <= (extent * parts) / 65536) by (nonlinear_arith)
            requires
                0 <= extent * parts,
        ;
    } else {
        let e = -extent;
        assert(-(extent * parts) == e * parts) by (nonlinear_arith)
            requires
                e == -extent,
        ;
        assert(0 <= e * parts <= e * 65536) by (nonlinear_arith)
            requires
                e >= 0,
                0 <= parts <= 65536,
        ;
        assert((e * 65536) / 65536 == e) by (nonlinear_arith);
        assert((e * parts) / 65536 <= (e * 65536) / 65536) by (nonlinear_arith)
            requires
                e * parts <= e * 65536,
        ;
        assert(0 <= (e * parts) / 65536) by (nonlinear_arith)
            requires
                0 <= e * parts,
        ;
        if extent * parts >= 0 {
            assert(e * parts == 0);
            assert(extent * parts == 0);
        }
    }
}

} // verus!
