//! Exact fractions, for positions along an edge.

use vstd::prelude::*;

verus! {

/// The fraction `num / den`.
#[derive(Clone, Copy, Debug, PartialEq, Eq, Structural)]
pub struct Ratio {
    pub num: u64,
    pub den: u64,
}

proof fn lemma_product_fits(a: u64, b: u64)
    by (nonlinear_arith)
    ensures
        0 <= a * b <= u128::MAX,
{
}

/// No fraction of one lies after one.
pub(crate) proof fn lemma_one_is_last(one: Ratio, r: Ratio)
    by (nonlinear_arith)
    requires
        one.num == 1,
        one.den == 1,
        r.num <= r.den,
    ensures
        !(one.num * r.den < r.num * one.den),
{
}

impl Ratio {
    /// The denominator is positive and the value lies between zero and one,
    /// both included.
    pub open spec fn wf(self) -> bool {
        0 < self.den && self.num <= self.den
    }

    /// `self < other` as rational numbers, for positive denominators.
    pub open spec fn lt_spec(self, other: Ratio) -> bool {
        self.num * other.den < other.num * self.den
    }

    /// The fraction one, which marks a vertex that is no intersection.
    pub fn one() -> (r: Ratio)
        ensures
            r == (Ratio { num: 1, den: 1 }),
    {
        Ratio { num: 1, den: 1 }
    }

    /// Compares two fractions by cross-multiplication.
    pub fn lt(&self, other: &Ratio) -> (b: bool)
        ensures
            b == self.lt_spec(*other),
    {
        proof {
            lemma_product_fits(self.num, other.den);
            lemma_product_fits(other.num, self.den);
        }
        (self.num as u128) * (other.den as u128) < (other.num as u128) * (self.den as u128)
    }
}

} // verus!
