//! Signed integers wider than 128 bits, held as two limbs `hi * 2^64 + lo`, for the exact
//! principal-axis iteration of the color fit.
use vstd::prelude::*;

verus! {

/// The base of the low limb, 2^64.
#[verifier::inline]
pub open spec fn base() -> int {
    0x1_0000_0000_0000_0000int
}

/// Largest magnitude of the high limb, 2^100.
#[verifier::inline]
pub open spec fn hi_limit() -> int {
    0x10_0000_0000_0000_0000_0000_0000int
}

/// Largest magnitude of a result, 2^163.
#[verifier::inline]
pub open spec fn wide_limit() -> int {
    base() * 0x8_0000_0000_0000_0000_0000_0000int
}

/// 2^140, a bound on the axes that the color fit iterates.
#[verifier::inline]
pub open spec fn axis_limit() -> int {
    base() * 0x1000_0000_0000_0000_0000int
}

/// A result within the limit has its high limb within bounds.
proof fn lemma_hi_bound(h: int, lo: int)
    requires
        0 <= lo < base(),
        -wide_limit() <= h * base() + lo <= wide_limit(),
    ensures
        -hi_limit() <= h <= hi_limit(),
{
    assert((hi_limit() + 1) * base() > wide_limit() + base()) by (nonlinear_arith);
    assert((-hi_limit() - 1) * base() < -wide_limit() - base()) by (nonlinear_arith);
    if h > hi_limit() {
        assert(h * base() >= (hi_limit() + 1) * base()) by (nonlinear_arith)
            requires
                h >= hi_limit() + 1,
        ;
    }
    if h < -hi_limit() {
        assert(h * base() <= (-hi_limit() - 1) * base()) by (nonlinear_arith)
            requires
                h <= -hi_limit() - 1,
        ;
    }
}

/// A wide signed integer.
#[derive(Clone, Copy)]
pub struct Wide {
    pub hi: i128,
    pub lo: i128,
}

impl Wide {
    /// The low limb is a digit of base 2^64 and the high limb is bounded.
    pub open spec fn ok(self) -> bool {
        &&& 0 <= self.lo < base()
        &&& -hi_limit() <= self.hi <= hi_limit()
    }

    /// The integer held.
    pub open spec fn value(self) -> int {
        self.hi * base() + self.lo
    }

    /// Split `t` into the floor of `t / 2^64` and the remainder.
    fn split(t: i128) -> (r: Wide)
        requires
            -0x1_0000_0000_0000_0000_0000_0000_0000 <= t <= 0x1_0000_0000_0000_0000_0000_0000_0000,
        ensures
            0 <= r.lo < base(),
            r.value() == t,
            -0x1_0000_0000_0000_0001 <= r.hi <= 0x1_0000_0000_0000_0000,
    {
        if t >= 0 {
            let u = t as u128;
            let q = u / 0x1_0000_0000_0000_0000u128;
            let m = u % 0x1_0000_0000_0000_0000u128;
            proof {
                vstd::arithmetic::div_mod::lemma_fundamental_div_mod(u as int, base());
                vstd::arithmetic::div_mod::lemma_mod_bound(u as int, base());
                vstd::arithmetic::div_mod::lemma_div_pos_is_pos(u as int, base());
            }
            Wide { hi: q as i128, lo: m as i128 }
        } else {
            let u = (-t) as u128;
            let q = u / 0x1_0000_0000_0000_0000u128;
            let m = u % 0x1_0000_0000_0000_0000u128;
            proof {
                vstd::arithmetic::div_mod::lemma_fundamental_div_mod(u as int, base());
                vstd::arithmetic::div_mod::lemma_mod_bound(u as int, base());
                vstd::arithmetic::div_mod::lemma_div_pos_is_pos(u as int, base());
            }
            if m == 0 {
                Wide { hi: -(q as i128), lo: 0 }
            } else {
                Wide { hi: -(q as i128) - 1, lo: 0x1_0000_0000_0000_0000i128 - m as i128 }
            }
        }
    }

    /// The wide form of `v`.
    pub fn from_i64(v: i64) -> (r: Wide)
        ensures
            r.ok(),
            r.value() == v,
    {
        Wide::split(v as i128)
    }

    /// The product with a small factor.
    pub fn mul(self, c: i64) -> (r: Wide)
        requires
            self.ok(),
            -0x20_0000 <= c <= 0x20_0000,
            -wide_limit() <= c * self.value() <= wide_limit(),
        ensures
            r.ok(),
            r.value() == c * self.value(),
    {
        let ci = c as i128;
        proof {
            assert(-0x20_0000 * base() <= ci * self.lo <= 0x20_0000 * base()) by (nonlinear_arith)
                requires
                    -0x20_0000 <= ci <= 0x20_0000,
                    0 <= self.lo < base(),
            ;
            assert(-0x20_0000 * hi_limit() <= ci * self.hi <= 0x20_0000 * hi_limit()) by (nonlinear_arith)
                requires
                    -0x20_0000 <= ci <= 0x20_0000,
                    -hi_limit() <= self.hi <= hi_limit(),
            ;
        }
        let low = Wide::split(ci * self.lo);
        let h = ci * self.hi + low.hi;
        let r = Wide { hi: h, lo: low.lo };
        proof {
            let x = self.value();
            assert(r.value() == c * x) by (nonlinear_arith)
                requires
                    h == ci * self.hi + low.hi,
                    low.hi * base() + low.lo == ci * self.lo,
                    x == self.hi * base() + self.lo,
                    r.value() == h * base() + low.lo,
                    ci == c,
            ;
            lemma_hi_bound(h as int, low.lo as int);
        }
        r
    }

    /// The sum.
    pub fn add(self, other: Wide) -> (r: Wide)
        requires
            self.ok(),
            other.ok(),
            -wide_limit() <= self.value() + other.value() <= wide_limit(),
        ensures
            r.ok(),
            r.value() == self.value() + other.value(),
    {
        let s = self.lo + other.lo;
        let h = self.hi + other.hi;
        if s >= 0x1_0000_0000_0000_0000i128 {
            proof {
                lemma_hi_bound(h + 1, s - base());
            }
            Wide { hi: h + 1, lo: s - 0x1_0000_0000_0000_0000i128 }
        } else {
            proof {
                lemma_hi_bound(h as int, s as int);
            }
            Wide { hi: h, lo: s }
        }
    }

    /// The absolute value.
    pub fn abs(self) -> (r: Wide)
        requires
            self.ok(),
            -wide_limit() <= self.value() <= wide_limit(),
        ensures
            r.ok(),
            r.value() == (if self.value() < 0 {
                -self.value()
            } else {
                self.value()
            }),
    {
        if self.hi >= 0 {
            self
        } else if self.lo == 0 {
            Wide { hi: -self.hi, lo: 0 }
        } else {
            Wide { hi: -self.hi - 1, lo: 0x1_0000_0000_0000_0000i128 - self.lo }
        }
    }

    /// The value is negative.
    pub fn is_negative(self) -> (r: bool)
        requires
            self.ok(),
        ensures
            r == (self.value() < 0),
    {
        self.hi < 0
    }

    /// The value is at least that of `other`.
    pub fn ge(self, other: Wide) -> (r: bool)
        requires
            self.ok(),
            other.ok(),
        ensures
            r == (self.value() >= other.value()),
    {
        self.hi > other.hi || (self.hi == other.hi && self.lo >= other.lo)
    }
}

} // verus!
