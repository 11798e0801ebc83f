//! Unsigned 256-bit arithmetic for balances and transfer values.

use vstd::prelude::*;

verus! {

/// `2^64`, the base in which the limbs are read.
pub open spec fn limb_base() -> int {
    0x10000000000000000
}

/// The first value too large for 256 bits, `2^256`.
pub open spec fn amount_bound() -> int {
    limb_base() * limb_base() * limb_base() * limb_base()
}

/// An unsigned 256-bit quantity (a balance or a transfer value in wei),
/// held as four 64-bit limbs, least significant first.
#[derive(Clone, Copy, PartialEq, Eq, Structural, Debug, Hash)]
pub struct Amount {
    pub l0: u64,
    pub l1: u64,
    pub l2: u64,
    pub l3: u64,
}

impl Amount {
    /// The numeric value of the limbs in base `2^64`.
    pub open spec fn as_int(self) -> int {
        self.l0 as int
            + self.l1 as int * limb_base()
            + self.l2 as int * limb_base() * limb_base()
            + self.l3 as int * limb_base() * limb_base() * limb_base()
    }

    /// The zero amount.
    pub fn zero() -> (r: Amount)
        ensures
            r == (Amount { l0: 0, l1: 0, l2: 0, l3: 0 }),
            r.as_int() == 0,
    {
        Amount { l0: 0, l1: 0, l2: 0, l3: 0 }
    }

    /// The amount with the numeric value of `v`.
    pub fn from_u64(v: u64) -> (r: Amount)
        ensures
            r.as_int() == v,
    {
        Amount { l0: v, l1: 0, l2: 0, l3: 0 }
    }

    /// The amount with the numeric value of `v`.
    pub fn from_u128(v: u128) -> (r: Amount)
        ensures
            r.as_int() == v,
    {
        let lo: u64 = (v % 0x10000000000000000u128) as u64;
        let hi128: u128 = v / 0x10000000000000000u128;
        proof {
            assert(hi128 < 0x10000000000000000) by (nonlinear_arith)
                requires
                    hi128 == v / 0x10000000000000000,
                    v <= u128::MAX,
            {
            }
            assert(v == 0x10000000000000000 * hi128 + lo) by (nonlinear_arith)
                requires
                    lo == v % 0x10000000000000000,
                    hi128 == v / 0x10000000000000000,
            {
            }
        }
        let hi: u64 = hi128 as u64;
        Amount { l0: lo, l1: hi, l2: 0, l3: 0 }
    }

    /// The sum, or `None` when it does not fit in 256 bits.
    pub fn checked_add(&self, other: &Amount) -> (r: Option<Amount>)
        ensures
            match r {
                Some(s) => s.as_int() == self.as_int() + other.as_int(),
                None => self.as_int() + other.as_int() >= amount_bound(),
            },
    {
        let s0: u128 = self.l0 as u128 + other.l0 as u128;
        let (d0, c0): (u64, u64) = if s0 >= 0x10000000000000000u128 {
            ((s0 - 0x10000000000000000u128) as u64, 1)
        } else {
            (s0 as u64, 0)
        };
        let s1: u128 = self.l1 as u128 + other.l1 as u128 + c0 as u128;
        let (d1, c1): (u64, u64) = if s1 >= 0x10000000000000000u128 {
            ((s1 - 0x10000000000000000u128) as u64, 1)
        } else {
            (s1 as u64, 0)
        };
        let s2: u128 = self.l2 as u128 + other.l2 as u128 + c1 as u128;
        let (d2, c2): (u64, u64) = if s2 >= 0x10000000000000000u128 {
            ((s2 - 0x10000000000000000u128) as u64, 1)
        } else {
            (s2 as u64, 0)
        };
        let s3: u128 = self.l3 as u128 + other.l3 as u128 + c2 as u128;
        let (d3, c3): (u64, u64) = if s3 >= 0x10000000000000000u128 {
            ((s3 - 0x10000000000000000u128) as u64, 1)
        } else {
            (s3 as u64, 0)
        };
        if c3 == 1 {
            None
        } else {
            Some(Amount { l0: d0, l1: d1, l2: d2, l3: d3 })
        }
    }

    /// The difference, or `None` when `other` exceeds `self`.
    pub fn checked_sub(&self, other: &Amount) -> (r: Option<Amount>)
        ensures
            match r {
                Some(d) => d.as_int() == self.as_int() - other.as_int(),
                None => self.as_int() < other.as_int(),
            },
    {
        let t0: u128 = 0x10000000000000000u128 + self.l0 as u128 - other.l0 as u128;
        let (d0, b0): (u64, u64) = if t0 >= 0x10000000000000000u128 {
            ((t0 - 0x10000000000000000u128) as u64, 0)
        } else {
            (t0 as u64, 1)
        };
        let t1: u128 = 0x10000000000000000u128 + self.l1 as u128 - other.l1 as u128
            - b0 as u128;
        let (d1, b1): (u64, u64) = if t1 >= 0x10000000000000000u128 {
            ((t1 - 0x10000000000000000u128) as u64, 0)
        } else {
            (t1 as u64, 1)
        };
        let t2: u128 = 0x10000000000000000u128 + self.l2 as u128 - other.l2 as u128
            - b1 as u128;
        let (d2, b2): (u64, u64) = if t2 >= 0x10000000000000000u128 {
            ((t2 - 0x10000000000000000u128) as u64, 0)
        } else {
            (t2 as u64, 1)
        };
        let t3: u128 = 0x10000000000000000u128 + self.l3 as u128 - other.l3 as u128
            - b2 as u128;
        let (d3, b3): (u64, u64) = if t3 >= 0x10000000000000000u128 {
            ((t3 - 0x10000000000000000u128) as u64, 0)
        } else {
            (t3 as u64, 1)
        };
        if b3 == 1 {
            None
        } else {
            Some(Amount { l0: d0, l1: d1, l2: d2, l3: d3 })
        }
    }

    /// Whether `self` is numerically below `other`.
    pub fn lt(&self, other: &Amount) -> (r: bool)
        ensures
            r == (self.as_int() < other.as_int()),
    {
        match self.checked_sub(other) {
            Some(_) => false,
            None => true,
        }
    }
}

} // verus!
