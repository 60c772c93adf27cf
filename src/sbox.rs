//! The non-linear layer of a round: the cube map or field inversion.
use vstd::prelude::*;
use crate::field::{Fe, fmul, finv, fe_mul, fe_invert};

verus! {

/// Which S-box a hash instance applies.
#[derive(Clone, Copy, Debug, PartialEq, Eq, Structural)]
pub enum SboxType {
    Cube,
    Inverse,
}

impl SboxType {
    /// The S-box on field values; `None` where it is undefined (inversion of zero).
    pub open spec fn spec_apply(self, x: nat) -> Option<nat> {
        match self {
            SboxType::Cube => Some(fmul(fmul(x, x), x)),
            SboxType::Inverse => if x == 0 {
                None
            } else {
                Some(finv(x))
            },
        }
    }

    /// Applies the S-box to one element: `x*x*x` for the cube, `x^-1` for the
    /// inverse, which fails on zero.
    pub fn apply_sbox(&self, elem: &Fe) -> (r: Option<Fe>)
        requires
            elem.wf(),
        ensures
            match r {
                Some(y) => y.wf() && self.spec_apply(elem.value()) == Some(y.value()),
                None => self.spec_apply(elem.value()).is_none(),
            },
            *self == SboxType::Inverse ==> (r.is_none() <==> elem.value() == 0),
            *self == SboxType::Cube ==> r.is_some(),
            *self == SboxType::Inverse && r.is_some() ==> fmul(r->0.value(), elem.value()) == 1,
    {
        match self {
            SboxType::Cube => {
                let sq = fe_mul(elem, elem);
                Some(fe_mul(&sq, elem))
            },
            SboxType::Inverse => {
                if elem.is_zero() {
                    None
                } else {
                    let inv = fe_invert(elem);
                    assert(fmul(inv.value(), elem.value()) == 1) by {
                        assert(inv.value() * elem.value() == elem.value() * inv.value())
                            by (nonlinear_arith);
                    }
                    Some(inv)
                }
            },
        }
    }
}

} // verus!
