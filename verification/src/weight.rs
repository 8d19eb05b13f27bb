//! Exact multiplicities: whole numbers of at most four limbs of 64 bits, with a sign.

use vstd::prelude::*;
use crate::statement::beyond;

verus! {

/// One more than the largest half of a magnitude.
pub open spec fn half() -> int {
    0x1_0000_0000_0000_0000_0000_0000_0000_0000int
}

/// One more than the largest magnitude.
pub open spec fn reach() -> int {
    half() * half()
}

/// The magnitude has at most four limbs.
pub open spec fn fits(weight: int) -> bool {
    -reach() < weight < reach()
}

pub proof fn lemma_reach()
    ensures
        reach() > half(),
{
    assert(half() * half() > half()) by (nonlinear_arith)
        requires
            half() > 1,
    ;
}

/// A weight. One below zero is kept as its distance from minus one, so that every
/// weight has one form.
#[derive(Clone, Copy, PartialEq, Eq, Structural, Debug)]
pub struct Weight {
    below: bool,
    high: u128,
    low: u128,
}

spec fn distance(high: u128, low: u128) -> int {
    high * half() + low
}

proof fn lemma_distance(high: u128, low: u128)
    ensures
        0 <= distance(high, low) < reach(),
{
    assert(0 <= high * half() <= (half() - 1) * half()) by (nonlinear_arith)
        requires
            0 <= high <= half() - 1,
            half() > 0,
    ;
    assert((half() - 1) * half() == half() * half() - half()) by (nonlinear_arith);
}

impl Weight {
    /// The number.
    pub closed spec fn view(&self) -> int {
        if self.below {
            -1 - distance(self.high, self.low)
        } else {
            distance(self.high, self.low)
        }
    }

    /// Every number that fits, and the one below the least of them.
    pub proof fn lemma_range(self)
        ensures
            -reach() <= self@ < reach(),
    {
        lemma_distance(self.high, self.low);
    }

    /// Equal numbers have equal forms.
    pub proof fn lemma_same(self, other: Weight)
        requires
            self@ == other@,
        ensures
            self == other,
    {
        lemma_distance(self.high, self.low);
        lemma_distance(other.high, other.low);
        assert(self.below == other.below);
        assert(self.high == other.high) by {
            assert(self.high * half() + self.low == other.high * half() + other.low);
        }
    }

    pub fn zero() -> (weight: Weight)
        ensures
            weight@ == 0,
    {
        Weight { below: false, high: 0, low: 0 }
    }

    pub fn one() -> (weight: Weight)
        ensures
            weight@ == 1,
    {
        Weight { below: false, high: 0, low: 1 }
    }

    /// A small number.
    pub fn of(value: i128) -> (weight: Weight)
        ensures
            weight@ == value,
            fits(weight@),
    {
        proof {
            lemma_reach();
        }
        if value < 0 {
            Weight { below: true, high: 0, low: (-1 - value) as u128 }
        } else {
            Weight { below: false, high: 0, low: value as u128 }
        }
    }

    /// The number, where it is small.
    pub fn small(self) -> (value: Option<i128>)
        ensures
            match value {
                Some(found) => found == self@,
                None => !(i128::MIN <= self@ <= i128::MAX),
            },
    {
        proof {
            assert(self.high > 0 ==> self.high * half() >= half());
        }
        if self.high > 0 || self.low > i128::MAX as u128 {
            return None;
        }
        if self.below {
            Some(-1 - self.low as i128)
        } else {
            Some(self.low as i128)
        }
    }

    pub fn is_zero(self) -> (zero: bool)
        ensures
            zero == (self@ == 0),
    {
        proof {
            lemma_distance(self.high, self.low);
        }
        !self.below && self.high == 0 && self.low == 0
    }

    pub fn is_negative(self) -> (negative: bool)
        ensures
            negative == (self@ < 0),
    {
        proof {
            lemma_distance(self.high, self.low);
        }
        self.below
    }

    /// Whether the magnitude has at most four limbs.
    pub fn is_fitting(self) -> (fitting: bool)
        ensures
            fitting == fits(self@),
    {
        proof {
            lemma_distance(self.high, self.low);
            assert(half() * half() == (half() - 1) * half() + half()) by (nonlinear_arith);
            if self.below && -1 - distance(self.high, self.low) == -reach() {
                assert(self.high == half() - 1 && self.low == half() - 1);
            }
        }
        !(self.below && self.high == u128::MAX && self.low == u128::MAX)
    }

    /// Whether the number is less than another.
    pub fn is_less(self, other: Weight) -> (less: bool)
        ensures
            less == (self@ < other@),
    {
        proof {
            lemma_distance(self.high, self.low);
            lemma_distance(other.high, other.low);
        }
        if self.below != other.below {
            return self.below;
        }
        let nearer = self.high < other.high || (self.high == other.high && self.low < other.low);
        let farther = self.high > other.high || (self.high == other.high && self.low > other.low);
        if self.below {
            farther
        } else {
            nearer
        }
    }

    /// Whether the number is more than a limit allows.
    pub fn is_beyond(self, limit: Option<u64>) -> (exceeded: bool)
        ensures
            exceeded == beyond(self@, limit),
    {
        proof {
            lemma_distance(self.high, self.low);
        }
        match limit {
            Some(most) => !self.below && (self.high > 0 || self.low > most as u128),
            None => false,
        }
    }

    fn flip(self) -> (flipped: Weight)
        ensures
            flipped@ == -1 - self@,
    {
        Weight { below: !self.below, high: self.high, low: self.low }
    }

    /// The distance between two distances, the first of which is no smaller.
    fn apart(self, other: Weight) -> (apart: (u128, u128))
        requires
            distance(self.high, self.low) >= distance(other.high, other.low),
        ensures
            distance(apart.0, apart.1) == distance(self.high, self.low) - distance(
                other.high,
                other.low,
            ),
    {
        if self.low >= other.low {
            (self.high - other.high, self.low - other.low)
        } else {
            (self.high - other.high - 1, u128::MAX - (other.low - self.low) + 1)
        }
    }

    /// The sum, where its form has room for it.
    fn sum(self, other: Weight) -> (sum: Option<Weight>)
        ensures
            match sum {
                Some(found) => found@ == self@ + other@,
                None => !(-reach() <= self@ + other@ < reach()),
            },
    {
        proof {
            lemma_distance(self.high, self.low);
            lemma_distance(other.high, other.low);
            assert(half() * half() == (half() - 1) * half() + half()) by (nonlinear_arith);
        }
        if self.below == other.below {
            // Two distances from minus one add up to one short of their sum.
            let extra: u128 = if self.below { 1 } else { 0 };
            let carried = self.low > u128::MAX - other.low;
            let low: u128 = if carried {
                self.low - (u128::MAX - other.low) - 1
            } else {
                self.low + other.low
            };
            let again = low > u128::MAX - extra;
            let low: u128 = if again {
                0
            } else {
                low + extra
            };
            let carry: u128 = (if carried { 1u128 } else { 0u128 }) + (if again {
                1u128
            } else {
                0u128
            });
            let ghost exact = self.high + other.high + carry;
            assert(distance(self.high, self.low) + distance(other.high, other.low) + extra == exact
                * half() + low);
            if self.high > u128::MAX - other.high {
                assert(exact * half() >= half() * half());
                return None;
            }
            let high = self.high + other.high;
            if high > u128::MAX - carry {
                assert(exact * half() >= half() * half());
                return None;
            }
            Some(Weight { below: self.below, high: high + carry, low })
        } else {
            let (above, under) = if self.below {
                (other, self)
            } else {
                (self, other)
            };
            if above.high > under.high || (above.high == under.high && above.low > under.low) {
                let (high, low) = above.apart(under);
                proof {
                    lemma_distance(high, low);
                }
                // At least one apart, and one of it is used up.
                let (high, low) = if low > 0 {
                    (high, (low - 1) as u128)
                } else {
                    ((high - 1) as u128, u128::MAX)
                };
                Some(Weight { below: false, high, low })
            } else {
                let (high, low) = under.apart(above);
                Some(Weight { below: true, high, low })
            }
        }
    }

    /// The sum, where it fits.
    pub fn checked_add(self, other: Weight) -> (sum: Option<Weight>)
        ensures
            match sum {
                Some(found) => found@ == self@ + other@ && fits(found@),
                None => !fits(self@ + other@),
            },
    {
        match self.sum(other) {
            Some(found) => if found.is_fitting() {
                Some(found)
            } else {
                None
            },
            None => None,
        }
    }

    /// The difference, where it fits.
    pub fn checked_sub(self, other: Weight) -> (difference: Option<Weight>)
        ensures
            match difference {
                Some(found) => found@ == self@ - other@ && fits(found@),
                None => !fits(self@ - other@),
            },
    {
        match self.flip().sum(other) {
            Some(found) => {
                let difference = found.flip();
                if difference.is_fitting() {
                    Some(difference)
                } else {
                    None
                }
            },
            None => None,
        }
    }
}

} // verus!
