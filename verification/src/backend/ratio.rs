//! Fractions between 0 and 1, kept exact.

use vstd::prelude::*;
use super::ClmError;

verus! {

/// A fraction between 0 and 1, both included, as a numerator over a
/// denominator. Ratios stand where a share of something is asked for: the share
/// of a dataset that goes to training, the size of a dictionary relative to its
/// training data.
#[derive(Debug, Clone, Copy)]
pub struct Ratio {
    numerator: u32,
    denominator: u32,
}

impl Ratio {
    #[verifier::type_invariant]
    spec fn well_formed(self) -> bool {
        0 < self.denominator && self.numerator <= self.denominator
    }

    /// The numerator.
    pub closed spec fn numerator(self) -> nat {
        self.numerator as nat
    }

    /// The denominator, which is positive and no smaller than the numerator.
    pub closed spec fn denominator(self) -> nat {
        self.denominator as nat
    }

    /// Whether the two numbers make a fraction between 0 and 1.
    pub open spec fn makes_ratio(numerator: nat, denominator: nat) -> bool {
        0 < denominator && numerator <= denominator
    }

    /// The share of `amount`, rounded down.
    pub open spec fn floor_of(self, amount: nat) -> nat {
        self.numerator() * amount / self.denominator()
    }

    /// The share of `amount`, rounded to the nearest whole number, halves up.
    pub open spec fn rounded_of(self, amount: nat) -> nat {
        (2 * self.numerator() * amount + self.denominator()) / (2 * self.denominator())
    }

    /// The ratio `numerator / denominator`, which must lie between 0 and 1.
    pub fn new(numerator: u32, denominator: u32) -> (ratio: Result<Ratio, ClmError>)
        ensures
            match ratio {
                Ok(r) => Ratio::makes_ratio(numerator as nat, denominator as nat) && r.numerator()
                    == numerator && r.denominator() == denominator,
                Err(e) => !Ratio::makes_ratio(numerator as nat, denominator as nat) && e
                    == ClmError::InvalidOptions,
            },
    {
        if denominator == 0 || numerator > denominator {
            Err(ClmError::InvalidOptions)
        } else {
            Ok(Ratio { numerator, denominator })
        }
    }

    /// The ratio 0.
    pub fn zero() -> (ratio: Ratio)
        ensures
            ratio.numerator() == 0,
            ratio.denominator() == 1,
    {
        Ratio { numerator: 0, denominator: 1 }
    }

    /// The ratio 1.
    pub fn one() -> (ratio: Ratio)
        ensures
            ratio.numerator() == 1,
            ratio.denominator() == 1,
    {
        Ratio { numerator: 1, denominator: 1 }
    }

    /// The numerator.
    pub fn get_numerator(&self) -> (n: u32)
        ensures
            n == self.numerator(),
            n <= self.denominator(),
    {
        proof {
            use_type_invariant(self);
        }
        self.numerator
    }

    /// The denominator.
    pub fn get_denominator(&self) -> (d: u32)
        ensures
            d == self.denominator(),
            d > 0,
    {
        proof {
            use_type_invariant(self);
        }
        self.denominator
    }

    /// Whether the ratio is 0.
    pub fn is_zero(&self) -> (zero: bool)
        ensures
            zero == (self.numerator() == 0),
    {
        self.numerator == 0
    }

    /// The share of `amount`, rounded down. It never exceeds `amount`.
    pub fn floor(&self, amount: usize) -> (share: usize)
        ensures
            share == self.floor_of(amount as nat),
            share <= amount,
    {
        proof {
            use_type_invariant(self);
        }
        let n: u128 = self.numerator as u128;
        let d: u128 = self.denominator as u128;
        let a: u128 = amount as u128;
        assert(n * a <= d * a && d * a <= 0x1_0000_0000 * 0x1_0000_0000_0000_0000) by (nonlinear_arith)
            requires
                n <= d < 0x1_0000_0000,
                0 <= a < 0x1_0000_0000_0000_0000,
        ;
        let share: u128 = n * a / d;
        proof {
            let (ni, di, ai) = (n as int, d as int, a as int);
            assert((ni * ai) / di <= ai) by (nonlinear_arith)
                requires
                    ni * ai <= di * ai,
                    0 < di,
                    0 <= ai,
            ;
        }
        share as usize
    }

    /// The share of `amount`, rounded to the nearest whole number, halves up.
    /// It never exceeds `amount`.
    pub fn round(&self, amount: usize) -> (share: usize)
        ensures
            share == self.rounded_of(amount as nat),
            share <= amount,
    {
        proof {
            use_type_invariant(self);
        }
        let n: u128 = self.numerator as u128;
        let d: u128 = self.denominator as u128;
        let a: u128 = amount as u128;
        assert(n * a <= d * a && d * a <= 0x1_0000_0000 * 0x1_0000_0000_0000_0000) by (nonlinear_arith)
            requires
                n <= d < 0x1_0000_0000,
                0 <= a < 0x1_0000_0000_0000_0000,
        ;
        let twice: u128 = 2 * (n * a) + d;
        let share: u128 = twice / (2 * d);
        proof {
            let (ni, di, ai) = (n as int, d as int, a as int);
            assert(2 * ni * ai == 2 * (ni * ai)) by (nonlinear_arith);
            assert((2 * (ni * ai) + di) / (2 * di) <= ai) by (nonlinear_arith)
                requires
                    ni * ai <= di * ai,
                    0 < di,
                    0 <= ai,
            ;
        }
        share as usize
    }
}

} // verus!
