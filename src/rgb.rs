use vstd::prelude::*;

verus! {

/// A colour accumulator: three wide channels.
#[derive(Debug, Clone, Copy, PartialEq, Eq, Structural)]
pub struct RGB {
    pub r: u64,
    pub g: u64,
    pub b: u64,
}

/// Channel `k` (0 = red, 1 = green, 2 = blue) of a colour, as an integer.
pub open spec fn ch(p: RGB, k: int) -> int {
    if k == 0 {
        p.r as int
    } else if k == 1 {
        p.g as int
    } else {
        p.b as int
    }
}

/// Values that have an additive identity.
pub trait Zero: Sized {
    fn zero() -> Self;
}

impl Zero for RGB {
    fn zero() -> (res: Self)
        ensures
            res == (RGB { r: 0, g: 0, b: 0 }),
    {
        RGB { r: 0, g: 0, b: 0 }
    }
}

impl RGB {
    pub fn new(r: u64, g: u64, b: u64) -> (res: Self)
        ensures
            res.r == r && res.g == g && res.b == b,
    {
        RGB { r, g, b }
    }

    /// Channel-wise sum, or `None` when some channel overflows.
    pub fn checked_add(self, rhs: Self) -> (res: Option<Self>)
        ensures
            match res {
                Some(s) => forall|k: int| 0 <= k < 3 ==> #[trigger] ch(s, k) == ch(self, k) + ch(rhs, k),
                None => exists|k: int| 0 <= k < 3 && ch(self, k) + ch(rhs, k) > u64::MAX,
            },
    {
        if self.r > u64::MAX - rhs.r {
            assert(ch(self, 0) + ch(rhs, 0) > u64::MAX);
            return None;
        }
        if self.g > u64::MAX - rhs.g {
            assert(ch(self, 1) + ch(rhs, 1) > u64::MAX);
            return None;
        }
        if self.b > u64::MAX - rhs.b {
            assert(ch(self, 2) + ch(rhs, 2) > u64::MAX);
            return None;
        }
        Some(RGB { r: self.r + rhs.r, g: self.g + rhs.g, b: self.b + rhs.b })
    }

    /// Channel-wise difference; no channel of `rhs` exceeds the same channel of `self`.
    pub fn sub(self, rhs: Self) -> (res: Self)
        requires
            forall|k: int| 0 <= k < 3 ==> #[trigger] ch(self, k) >= ch(rhs, k),
        ensures
            forall|k: int| 0 <= k < 3 ==> #[trigger] ch(res, k) == ch(self, k) - ch(rhs, k),
    {
        assert(ch(self, 0) >= ch(rhs, 0) && ch(self, 1) >= ch(rhs, 1) && ch(self, 2) >= ch(rhs, 2));
        RGB { r: self.r - rhs.r, g: self.g - rhs.g, b: self.b - rhs.b }
    }

    /// Every channel divided by `d`, truncating.
    pub fn div(self, d: u64) -> (res: Self)
        requires
            d > 0,
        ensures
            forall|k: int| 0 <= k < 3 ==> #[trigger] ch(res, k) == ch(self, k) / (d as int),
    {
        RGB { r: self.r / d, g: self.g / d, b: self.b / d }
    }

    /// Channel-wise product; each channel is at most 255 so the product fits.
    pub fn comp_prod(&self, other: Self) -> (res: Self)
        requires
            self.r <= 255 && self.g <= 255 && self.b <= 255,
            other.r <= 255 && other.g <= 255 && other.b <= 255,
        ensures
            forall|k: int| 0 <= k < 3 ==> #[trigger] ch(res, k) == ch(*self, k) * ch(other, k),
    {
        proof {
            assert(self.r * other.r <= 255 * 255) by (nonlinear_arith)
                requires self.r <= 255, other.r <= 255;
            assert(self.g * other.g <= 255 * 255) by (nonlinear_arith)
                requires self.g <= 255, other.g <= 255;
            assert(self.b * other.b <= 255 * 255) by (nonlinear_arith)
                requires self.b <= 255, other.b <= 255;
        }
        RGB { r: self.r * other.r, g: self.g * other.g, b: self.b * other.b }
    }
}

} // verus!
