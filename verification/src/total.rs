//! Sums of amounts that may exceed the largest amount.

use crate::primitives::U256;
use crate::text::amount_limit;
use vstd::prelude::*;

verus! {

/// A sum of amounts, as five 64-bit limbs, least significant first.
pub struct Total {
    limbs: [u64; 5],
}

/// How one total exceeds another.
pub enum Excess {
    /// It is not larger.
    Nothing,
    /// It is larger by this amount, which is not zero.
    Amount(U256),
    /// It is larger by more than the largest amount.
    TooLarge,
}

/// `a + b + carry`, as a limb and a carry.
fn add_limbs(a: u64, b: u64, carry: u64) -> (r: (u64, u64))
    requires
        carry <= 1,
    ensures
        r.0 + r.1 * 0x1_0000_0000_0000_0000 == a + b + carry,
        r.1 <= 1,
{
    let sum: u128 = a as u128 + b as u128 + carry as u128;
    ((sum % 0x1_0000_0000_0000_0000) as u64, (sum / 0x1_0000_0000_0000_0000) as u64)
}

/// `a - b - borrow`, as a limb and a borrow.
fn subtract_limbs(a: u64, b: u64, borrow: u64) -> (r: (u64, u64))
    requires
        borrow <= 1,
    ensures
        r.0 - r.1 * 0x1_0000_0000_0000_0000 == a - b - borrow,
        r.1 <= 1,
{
    let left: u128 = a as u128;
    let right: u128 = b as u128 + borrow as u128;
    if left >= right {
        ((left - right) as u64, 0)
    } else {
        ((left + 0x1_0000_0000_0000_0000 - right) as u64, 1)
    }
}

impl Total {
    /// The sum that the limbs write.
    pub closed spec fn value(self) -> nat {
        (self.limbs@[0] + self.limbs@[1] * 0x1_0000_0000_0000_0000nat + self.limbs@[2]
            * 0x1_0000_0000_0000_0000_0000_0000_0000_0000nat + self.limbs@[3]
            * 0x1_0000_0000_0000_0000_0000_0000_0000_0000_0000_0000_0000_0000nat + self.limbs@[4]
            * amount_limit()) as nat
    }

    /// The empty sum.
    pub fn new() -> (total: Total)
        ensures
            total.value() == 0,
    {
        Total { limbs: [0, 0, 0, 0, 0] }
    }

    /// Adds an amount.
    pub fn add(&mut self, amount: U256)
        requires
            old(self).value() + amount.value() < 0x1_0000_0000_0000_0000 * amount_limit(),
        ensures
            final(self).value() == old(self).value() + amount.value(),
    {
        let (limb0, carry0): (u64, u64) = add_limbs(self.limbs[0], amount.limbs[0], 0);
        let (limb1, carry1): (u64, u64) = add_limbs(self.limbs[1], amount.limbs[1], carry0);
        let (limb2, carry2): (u64, u64) = add_limbs(self.limbs[2], amount.limbs[2], carry1);
        let (limb3, carry3): (u64, u64) = add_limbs(self.limbs[3], amount.limbs[3], carry2);
        let limb4: u64 = self.limbs[4] + carry3;
        self.limbs = [limb0, limb1, limb2, limb3, limb4];
    }

    /// How `self` exceeds `other`.
    pub fn excess_over(&self, other: &Total) -> (r: Excess)
        ensures
            match r {
                Excess::Nothing => self.value() <= other.value(),
                Excess::Amount(amount) => self.value() - other.value() == amount.value()
                    && amount.value() > 0,
                Excess::TooLarge => self.value() - other.value() >= amount_limit(),
            },
    {
        let (limb0, borrow0): (u64, u64) = subtract_limbs(self.limbs[0], other.limbs[0], 0);
        let (limb1, borrow1): (u64, u64) = subtract_limbs(self.limbs[1], other.limbs[1], borrow0);
        let (limb2, borrow2): (u64, u64) = subtract_limbs(self.limbs[2], other.limbs[2], borrow1);
        let (limb3, borrow3): (u64, u64) = subtract_limbs(self.limbs[3], other.limbs[3], borrow2);
        let (limb4, borrow4): (u64, u64) = subtract_limbs(self.limbs[4], other.limbs[4], borrow3);
        if borrow4 != 0 {
            Excess::Nothing
        } else if limb4 != 0 {
            Excess::TooLarge
        } else if limb0 == 0 && limb1 == 0 && limb2 == 0 && limb3 == 0 {
            Excess::Nothing
        } else {
            Excess::Amount(U256 { limbs: [limb0, limb1, limb2, limb3] })
        }
    }
}

} // verus!
