//! Products of three machine words and sums of a few of them, held exactly.

use vstd::prelude::*;

verus! {

/// Two to the power 64.
pub open spec fn word() -> int {
    0x1_0000_0000_0000_0000
}

/// A natural number below two to the power 256, as two halves: `high` counts
/// the multiples of two to the power 128.
#[derive(Clone, Copy, Debug)]
pub struct Wide {
    pub high: u128,
    pub low: u128,
}

impl Wide {
    /// The number that the two halves stand for: `high` times two to the power
    /// 128, and `low`.
    pub open spec fn value(self) -> int {
        self.high * 0xffff_ffff_ffff_ffff_ffff_ffff_ffff_ffff + self.high + self.low
    }

    /// The product of three words.
    pub fn product(x: u64, y: u64, z: u64) -> (wide: Wide)
        ensures
            wide.value() == x * y * z,
            wide.high < word(),
    {
        assert(x * y <= 0xffff_ffff_ffff_ffff * 0xffff_ffff_ffff_ffff) by (nonlinear_arith)
            requires
                0 <= x <= 0xffff_ffff_ffff_ffff,
                0 <= y <= 0xffff_ffff_ffff_ffff,
        ;
        let pair: u128 = (x as u128) * (y as u128);
        let pair_high: u128 = pair / 0x1_0000_0000_0000_0000;
        let pair_low: u128 = pair % 0x1_0000_0000_0000_0000;
        assert(pair_low * z <= 0xffff_ffff_ffff_ffff * 0xffff_ffff_ffff_ffff) by (nonlinear_arith)
            requires
                0 <= pair_low <= 0xffff_ffff_ffff_ffff,
                0 <= z <= 0xffff_ffff_ffff_ffff,
        ;
        assert(pair_high * z <= 0xffff_ffff_ffff_ffff * 0xffff_ffff_ffff_ffff) by (nonlinear_arith)
            requires
                0 <= pair_high <= 0xffff_ffff_ffff_ffff,
                0 <= z <= 0xffff_ffff_ffff_ffff,
        ;
        let bottom: u128 = pair_low * (z as u128);
        let top: u128 = pair_high * (z as u128);
        let top_high: u128 = top / 0x1_0000_0000_0000_0000;
        let top_low: u128 = top % 0x1_0000_0000_0000_0000;
        let middle: u128 = top_low * 0x1_0000_0000_0000_0000;
        assert(x * y * z == top * word() + bottom) by (nonlinear_arith)
            requires
                x * y == pair_high * word() + pair_low,
                top == pair_high * z,
                bottom == pair_low * z,
        ;
        assert(top * word() == top_high * (word() * word()) + middle) by (nonlinear_arith)
            requires
                top == top_high * word() + top_low,
                middle == top_low * word(),
        ;
        assert(top_high * (word() * word()) == top_high * 0xffff_ffff_ffff_ffff_ffff_ffff_ffff_ffff
            + top_high) by (nonlinear_arith)
            requires
                word() * word() == 0xffff_ffff_ffff_ffff_ffff_ffff_ffff_ffff + 1,
        ;
        if bottom > u128::MAX - middle {
            Wide { high: top_high + 1, low: bottom - (u128::MAX - middle) - 1 }
        } else {
            Wide { high: top_high, low: middle + bottom }
        }
    }

    /// The sum of three numbers whose high halves are words.
    pub fn sum(a: Wide, b: Wide, c: Wide) -> (wide: Wide)
        requires
            a.high < word(),
            b.high < word(),
            c.high < word(),
        ensures
            wide.value() == a.value() + b.value() + c.value(),
    {
        let mut high: u128 = a.high + b.high + c.high;
        let mut low: u128 = a.low;
        if b.low > u128::MAX - low {
            low = b.low - (u128::MAX - low) - 1;
            high = high + 1;
        } else {
            low = low + b.low;
        }
        if c.low > u128::MAX - low {
            low = c.low - (u128::MAX - low) - 1;
            high = high + 1;
        } else {
            low = low + c.low;
        }
        Wide { high, low }
    }

    /// Whether this number is at least `other`.
    pub fn at_least(&self, other: &Wide) -> (result: bool)
        ensures
            result == (self.value() >= other.value()),
    {
        self.high > other.high || (self.high == other.high && self.low >= other.low)
    }
}

} // verus!
