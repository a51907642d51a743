//! Amounts of coins, as a whole number of the smallest unit.

use vstd::prelude::*;

verus! {

/// An amount of coins.
#[derive(Clone, Copy, Debug, Default, PartialEq, Eq, Structural, PartialOrd, Ord, Hash)]
pub struct Amount {
    pub raw: u64,
}

impl Amount {
    /// The amount of `raw` units.
    pub fn from_raw(raw: u64) -> (r: Amount)
        ensures
            r.raw == raw,
    {
        Amount { raw }
    }

    /// The number of units.
    pub fn to_raw(&self) -> (r: u64)
        ensures
            r == self.raw,
    {
        self.raw
    }

    /// Whether the amount is zero.
    pub fn is_zero(&self) -> (r: bool)
        ensures
            r == (self.raw == 0),
    {
        self.raw == 0
    }

    /// `self + other`, where it fits.
    pub fn checked_add(self, other: Amount) -> (r: Option<Amount>)
        ensures
            self.raw + other.raw <= u64::MAX ==> r == Some(
                Amount { raw: (self.raw + other.raw) as u64 },
            ),
            self.raw + other.raw > u64::MAX ==> r is None,
    {
        if self.raw <= u64::MAX - other.raw {
            Some(Amount { raw: self.raw + other.raw })
        } else {
            None
        }
    }

    /// `self - other`, where `other` is not larger.
    pub fn checked_sub(self, other: Amount) -> (r: Option<Amount>)
        ensures
            self.raw >= other.raw ==> r == Some(Amount { raw: (self.raw - other.raw) as u64 }),
            self.raw < other.raw ==> r is None,
    {
        if self.raw >= other.raw {
            Some(Amount { raw: self.raw - other.raw })
        } else {
            None
        }
    }
}

} // verus!
