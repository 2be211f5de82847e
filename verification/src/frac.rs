//! Exact positive rational numbers, the representation of conversion
//! factors. A factor is a pair `num / den` of positive integers; keeping it
//! exact is what lets the closure engine state precisely which value every
//! derived rule carries.

use vstd::prelude::*;

use crate::arith::{
    gcd, gcd_u128, lemma_divides_split, lemma_gcd_divides, lemma_gcd_pos, lemma_quotients_coprime,
};

verus! {

/// The largest value a component of a stored factor may take. Every factor
/// kept in the conversion table is reduced, and its parts then fit well
/// under this bound, so products of two stored factors never overflow.
pub const MAX_COMPONENT: u128 = 1000000000000;

/// A positive rational number `num / den`.
#[derive(Copy, Clone, Debug)]
pub struct Frac {
    pub num: u128,
    pub den: u128,
}

impl Frac {
    /// Both parts are positive.
    pub open spec fn positive(self) -> bool {
        self.num >= 1 && self.den >= 1
    }

    /// Both parts are small enough to be multiplied without overflow.
    pub open spec fn bounded(self) -> bool {
        self.num <= MAX_COMPONENT && self.den <= MAX_COMPONENT
    }

    /// The number one.
    pub fn one() -> (r: Frac)
        ensures
            r.num == 1,
            r.den == 1,
    {
        Frac { num: 1, den: 1 }
    }

    /// The exact product of two bounded fractions.
    pub fn mul(self, other: Frac) -> (r: Frac)
        requires
            self.positive(),
            self.bounded(),
            other.positive(),
            other.bounded(),
        ensures
            r.num == self.num * other.num,
            r.den == self.den * other.den,
            r.positive(),
    {
        proof {
            assert(self.num * other.num <= MAX_COMPONENT * MAX_COMPONENT && 1 <= self.num
                * other.num) by (nonlinear_arith)
                requires
                    1 <= self.num <= MAX_COMPONENT,
                    1 <= other.num <= MAX_COMPONENT,
            ;
            assert(self.den * other.den <= MAX_COMPONENT * MAX_COMPONENT && 1 <= self.den
                * other.den) by (nonlinear_arith)
                requires
                    1 <= self.den <= MAX_COMPONENT,
                    1 <= other.den <= MAX_COMPONENT,
            ;
        }
        Frac { num: self.num * other.num, den: self.den * other.den }
    }

    /// The reciprocal.
    pub fn invert(self) -> (r: Frac)
        requires
            self.positive(),
        ensures
            r.num == self.den,
            r.den == self.num,
    {
        Frac { num: self.den, den: self.num }
    }

    /// Whether the value is greater than one.
    pub fn gt_one(self) -> (r: bool)
        requires
            self.positive(),
        ensures
            r == (self.num > self.den),
    {
        self.num > self.den
    }

    /// The value rounded up to the nearest integer, as a fraction over one.
    pub fn ceil_value(self) -> (r: Frac)
        requires
            self.positive(),
            self.num <= u128::MAX - self.den,
        ensures
            r.den == 1,
            r.num as int == (self.num + self.den - 1) as int / self.den as int,
    {
        Frac { num: (self.num + self.den - 1) / self.den, den: 1 }
    }

    /// The same value in lowest terms: dividing both parts by their gcd
    /// keeps the value (the cross products of the two forms agree) and
    /// leaves a coprime pair.
    pub fn reduce(self) -> (r: Frac)
        requires
            self.positive(),
        ensures
            r.positive(),
            r.num <= self.num,
            r.den <= self.den,
            r.num as int * self.den as int == r.den as int * self.num as int,
            gcd(r.num as nat, r.den as nat) == 1,
    {
        let g = gcd_u128(self.num, self.den);
        proof {
            lemma_gcd_pos(self.num as nat, self.den as nat);
            lemma_gcd_divides(self.num as nat, self.den as nat);
            lemma_divides_split(g as int, self.num as int);
            lemma_divides_split(g as int, self.den as int);
        }
        let rn = self.num / g;
        let rd = self.den / g;
        proof {
            assert(rn >= 1 && rd >= 1) by (nonlinear_arith)
                requires
                    self.num as int == (rn as int) * (g as int),
                    self.den as int == (rd as int) * (g as int),
                    self.num >= 1,
                    self.den >= 1,
                    g >= 1,
            ;
            lemma_quotients_coprime(self.num as nat, self.den as nat, rn as nat, rd as nat);
            assert(rn as int * self.den as int == rd as int * self.num as int)
                by (nonlinear_arith)
                requires
                    self.num as int == (rn as int) * (g as int),
                    self.den as int == (rd as int) * (g as int),
            ;
            assert(rn <= self.num && rd <= self.den) by (nonlinear_arith)
                requires
                    self.num as int == (rn as int) * (g as int),
                    self.den as int == (rd as int) * (g as int),
                    rn >= 1,
                    rd >= 1,
                    g >= 1,
            ;
        }
        Frac { num: rn, den: rd }
    }
}

} // verus!
