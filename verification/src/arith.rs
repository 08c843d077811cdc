//! The arithmetic of a decode.
//!
//! Three operations on scalars come from the caller: the stable
//! `ln(exp(a) + exp(b))`, the sum `a + b`, and `w * ln(p)`. The library calls
//! them and decides on what they return. A contract that pins a result states
//! it over the functions that the operations compute, which exist where each
//! operation returns one value for each pair of arguments.

use vstd::prelude::*;
use crate::log_space::{LogSpace, Scalar, NEG_INFINITY_ORDINAL};

verus! {

/// The functions that the three operations compute.
pub struct ArithModel {
    pub log_add_exp: spec_fn(Scalar, Scalar) -> Scalar,
    pub plus: spec_fn(Scalar, Scalar) -> Scalar,
    pub scaled_ln: spec_fn(Scalar, Scalar) -> Scalar,
}

impl ArithModel {
    /// The sum of two probabilities, in log space: the other one where one
    /// of them is zero, and else what the arithmetic gives.
    pub open spec fn add(self, a: LogSpace, b: LogSpace) -> LogSpace {
        if a == LogSpace::spec_neg_infinity() {
            b
        } else if b == LogSpace::spec_neg_infinity() {
            a
        } else {
            LogSpace((self.log_add_exp)(a.0, b.0))
        }
    }

    /// The product of two probabilities, in log space.
    pub open spec fn mul(self, a: LogSpace, b: LogSpace) -> LogSpace {
        LogSpace((self.plus)(a.0, b.0))
    }

    /// The log of probability `p`, scaled by `weight`.
    pub open spec fn weighted_ln(self, weight: Scalar, p: Scalar) -> LogSpace {
        LogSpace((self.scaled_ln)(weight, p))
    }
}

/// The operation accepts every pair of arguments.
pub open spec fn accepts_all<F: Fn(Scalar, Scalar) -> Scalar>(f: &F) -> bool {
    forall|a: Scalar, b: Scalar| #[trigger] f.requires((a, b))
}

/// The operation returns one value for each pair of arguments.
pub open spec fn single_valued<F: Fn(Scalar, Scalar) -> Scalar>(f: &F) -> bool {
    forall|a: Scalar, b: Scalar, r1: Scalar, r2: Scalar|
        #[trigger] f.ensures((a, b), r1) && #[trigger] f.ensures((a, b), r2) ==> r1 == r2
}

/// The function that a single-valued operation computes.
pub open spec fn function_of<F: Fn(Scalar, Scalar) -> Scalar>(f: &F) -> spec_fn(Scalar, Scalar) -> Scalar {
    |a: Scalar, b: Scalar| choose|r: Scalar| f.ensures((a, b), r)
}

/// The three operations of a decode.
pub struct Arithmetic<A, P, L> {
    /// `ln(exp(a) + exp(b))`, asked for two numbers other than negative
    /// infinity.
    pub log_add_exp: A,
    /// `a + b`.
    pub plus: P,
    /// `w * ln(p)`.
    pub scaled_ln: L,
}

impl<A, P, L> Arithmetic<A, P, L> where
    A: Fn(Scalar, Scalar) -> Scalar,
    P: Fn(Scalar, Scalar) -> Scalar,
    L: Fn(Scalar, Scalar) -> Scalar,
 {
    /// Each operation accepts every pair of arguments.
    pub open spec fn total(&self) -> bool {
        &&& accepts_all(&self.log_add_exp)
        &&& accepts_all(&self.plus)
        &&& accepts_all(&self.scaled_ln)
    }

    /// Each operation is single-valued.
    pub open spec fn functional(&self) -> bool {
        &&& single_valued(&self.log_add_exp)
        &&& single_valued(&self.plus)
        &&& single_valued(&self.scaled_ln)
    }

    /// The functions that the operations compute.
    pub open spec fn model(&self) -> ArithModel {
        ArithModel {
            log_add_exp: function_of(&self.log_add_exp),
            plus: function_of(&self.plus),
            scaled_ln: function_of(&self.scaled_ln),
        }
    }

    /// Adds two probabilities in log space. The sum with probability zero
    /// is the other probability; only for two probabilities above zero is the
    /// arithmetic asked.
    pub fn add(&self, a: LogSpace, b: LogSpace) -> (r: LogSpace)
        requires
            self.total(),
        ensures
            self.functional() ==> r == self.model().add(a, b),
            a == LogSpace::spec_neg_infinity() ==> r == b,
            b == LogSpace::spec_neg_infinity() && a != LogSpace::spec_neg_infinity() ==> r == a,
    {
        if a.0.0 == NEG_INFINITY_ORDINAL {
            b
        } else if b.0.0 == NEG_INFINITY_ORDINAL {
            a
        } else {
            LogSpace((self.log_add_exp)(a.0, b.0))
        }
    }

    /// Multiplies two probabilities in log space.
    pub fn mul(&self, a: LogSpace, b: LogSpace) -> (r: LogSpace)
        requires
            self.total(),
        ensures
            self.functional() ==> r == self.model().mul(a, b),
    {
        LogSpace((self.plus)(a.0, b.0))
    }

    /// Gives `weight * ln(p)` as a log-probability.
    pub fn weighted_ln(&self, weight: Scalar, p: Scalar) -> (r: LogSpace)
        requires
            self.total(),
        ensures
            self.functional() ==> r == self.model().weighted_ln(weight, p),
    {
        LogSpace((self.scaled_ln)(weight, p))
    }
}

} // verus!
