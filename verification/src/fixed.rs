//! Saturating decimal fixed-point numbers.
//!
//! A [`Fixed`] stores a real quantity as a signed count of millionths. Sums,
//! differences and products that leave the representable range stick at the
//! nearest end of it, quotients and products round toward zero, and the two
//! partial operations (division, square root) answer `None` where the real
//! operation has no value.

use vstd::prelude::*;

verus! {

/// Number of raw units in one whole.
pub const SCALE: i64 = 1_000_000;

/// The integer `v` clamped into the range of `i64`.
pub open spec fn saturate(v: int) -> int {
    if v < i64::MIN {
        i64::MIN as int
    } else if v > i64::MAX {
        i64::MAX as int
    } else {
        v
    }
}

/// The quotient `n / d` rounded toward zero (`d` nonzero).
pub open spec fn quot(n: int, d: int) -> int
    recommends
        d != 0,
{
    if n >= 0 && d > 0 {
        n / d
    } else if n >= 0 {
        -(n / (-d))
    } else if d > 0 {
        -((-n) / d)
    } else {
        (-n) / (-d)
    }
}

/// Scaling by [`SCALE`] is multiplication by a million.
pub proof fn lemma_scaled(v: int)
    ensures
        v * SCALE == v * 1_000_000,
{
    assert(v * SCALE == v * 1_000_000) by (nonlinear_arith)
        requires
            SCALE == 1_000_000,
    ;
}

/// The quotient rounded toward zero does not decrease when the numerator
/// grows over a positive denominator.
pub proof fn lemma_quot_monotone(n1: int, n2: int, d: int)
    requires
        d > 0,
        n1 <= n2,
    ensures
        quot(n1, d) <= quot(n2, d),
{
    if n1 >= 0 {
        assert(n1 / d <= n2 / d) by (nonlinear_arith)
            requires
                d > 0,
                0 <= n1 <= n2,
        ;
    } else if n2 >= 0 {
        assert((-n1) / d >= 0 && n2 / d >= 0) by (nonlinear_arith)
            requires
                d > 0,
                n1 < 0,
                n2 >= 0,
        ;
    } else {
        assert((-n2) / d <= (-n1) / d) by (nonlinear_arith)
            requires
                d > 0,
                n1 <= n2 < 0,
        ;
    }
}

/// The quotient rounded toward zero leaves a remainder smaller than the
/// denominator, on the side of the numerator.
pub proof fn lemma_quot_remainder(n: int, d: int)
    requires
        d > 0,
    ensures
        -d < n - d * quot(n, d) < d,
        n >= 0 ==> 0 <= n - d * quot(n, d),
        n <= 0 ==> n - d * quot(n, d) <= 0,
{
    if n >= 0 {
        assert(0 <= n - d * (n / d) < d) by (nonlinear_arith)
            requires
                d > 0,
                n >= 0,
        ;
    } else {
        let m = -n;
        assert(0 <= m - d * (m / d) < d) by (nonlinear_arith)
            requires
                d > 0,
                m >= 0,
        ;
        assert(d * (-(m / d)) == -(d * (m / d))) by (nonlinear_arith);
    }
}

/// The magnitude of a product over the scale is bounded by the bounds of
/// its factors.
pub proof fn lemma_times_bound(a: int, b: int, bound_a: int, bound_b: int)
    requires
        -bound_a <= a <= bound_a,
        -bound_b <= b <= bound_b,
    ensures
        -(bound_a * bound_b) <= a * b <= bound_a * bound_b,
        -(bound_a * bound_b) / 1_000_000 - 1 <= quot(a * b, SCALE as int) <= (bound_a * bound_b)
            / 1_000_000 + 1,
{
    assert(-(bound_a * bound_b) <= a * b <= bound_a * bound_b) by (nonlinear_arith)
        requires
            -bound_a <= a <= bound_a,
            -bound_b <= b <= bound_b,
    ;
    lemma_quot_remainder(a * b, SCALE as int);
    let q = quot(a * b, SCALE as int);
    let m = bound_a * bound_b;
    assert(SCALE == 1_000_000);
    assert(-1_000_000 < a * b - 1_000_000 * q < 1_000_000);
    assert(m - 1_000_000 * (m / 1_000_000) < 1_000_000 && m - 1_000_000 * (m / 1_000_000) >= 0)
        by (nonlinear_arith);
}

/// The product of a number that is not negative with a fraction of one is
/// neither negative nor more than the number.
pub proof fn lemma_times_fraction(a: int, f: int)
    requires
        0 <= a,
        0 <= f <= 1_000_000,
    ensures
        0 <= quot(a * f, SCALE as int) <= a,
{
    assert(0 <= a * f <= a * 1_000_000) by (nonlinear_arith)
        requires
            0 <= a,
            0 <= f <= 1_000_000,
    ;
    assert(SCALE == 1_000_000);
    assert(0 <= (a * f) / 1_000_000 <= a);
}

/// A quotient of a magnitude no more than the denominator's is a fraction
/// of one.
pub proof fn lemma_quot_fraction(x: int, len: int)
    requires
        len > 0,
        -len <= x <= len,
    ensures
        -1_000_000 <= quot(x * SCALE, len) <= 1_000_000,
{
    lemma_scaled(x);
    lemma_quot_monotone(x * SCALE, len * 1_000_000, len);
    lemma_quot_monotone(-(len * 1_000_000), x * SCALE, len);
    assert((len * 1_000_000) / len == 1_000_000) by (nonlinear_arith)
        requires
            len > 0,
    ;
}

/// `r` is the integer part of the square root of `n`.
pub open spec fn is_floor_sqrt(n: int, r: int) -> bool {
    0 <= r && r * r <= n && n < (r + 1) * (r + 1)
}

/// The integer part of the square root of `n` (for `n >= 0`).
pub open spec fn floor_sqrt(n: int) -> int
    recommends
        n >= 0,
{
    choose|r: int| is_floor_sqrt(n, r)
}

/// Every natural number has an integer square root.
pub proof fn lemma_floor_sqrt_exists(n: int)
    requires
        n >= 0,
    ensures
        is_floor_sqrt(n, floor_sqrt(n)),
    decreases n,
{
    if n == 0 {
        assert(is_floor_sqrt(0, 0));
    } else {
        lemma_floor_sqrt_exists(n - 1);
        let r = floor_sqrt(n - 1);
        if (r + 1) * (r + 1) <= n {
            assert(n < (r + 2) * (r + 2)) by (nonlinear_arith)
                requires
                    n - 1 < (r + 1) * (r + 1),
                    r >= 0,
            ;
            assert(is_floor_sqrt(n, r + 1));
        } else {
            assert(is_floor_sqrt(n, r));
        }
    }
}

/// The integer square root is unique.
pub proof fn lemma_floor_sqrt_unique(n: int, r: int)
    requires
        is_floor_sqrt(n, r),
    ensures
        r == floor_sqrt(n),
{
    assert(n >= 0) by (nonlinear_arith)
        requires
            r * r <= n,
    ;
    lemma_floor_sqrt_exists(n);
    let s = floor_sqrt(n);
    assert(r == s) by (nonlinear_arith)
        requires
            0 <= r,
            r * r <= n,
            n < (r + 1) * (r + 1),
            0 <= s,
            s * s <= n,
            n < (s + 1) * (s + 1),
    ;
}

/// Quotient rounded toward zero, taken on the magnitudes.
pub fn quot_wide(n: i128, d: i128) -> (q: i128)
    requires
        d != 0,
        i128::MIN < n,
        i128::MIN < d,
    ensures
        q == quot(n as int, d as int),
{
    let n_abs: u128 = if n < 0 {
        (-n) as u128
    } else {
        n as u128
    };
    let d_abs: u128 = if d < 0 {
        (-d) as u128
    } else {
        d as u128
    };
    let q_abs: u128 = n_abs / d_abs;
    assert(q_abs <= n_abs) by (nonlinear_arith)
        requires
            q_abs == n_abs / d_abs,
            d_abs > 0,
    ;
    if (n < 0) != (d < 0) {
        -(q_abs as i128)
    } else {
        q_abs as i128
    }
}

/// Integer square root of a 128-bit natural number.
pub fn isqrt(n: u128) -> (r: u128)
    ensures
        r == floor_sqrt(n as int),
        r < 0x1_0000_0000_0000_0000,
{
    let mut lo: u128 = 0;
    let mut hi: u128 = 0x1_0000_0000_0000_0000;
    assert(n < hi * hi) by (nonlinear_arith)
        requires
            hi == 0x1_0000_0000_0000_0000,
            n <= u128::MAX,
    ;
    while hi - lo > 1
        invariant
            lo < hi <= 0x1_0000_0000_0000_0000,
            lo * lo <= n < hi * hi,
        decreases hi - lo,
    {
        let mid: u128 = lo + (hi - lo) / 2;
        assert(mid * mid < 0x1_0000_0000_0000_0000 * 0x1_0000_0000_0000_0000) by (nonlinear_arith)
            requires
                mid < 0x1_0000_0000_0000_0000,
        ;
        if mid * mid <= n {
            lo = mid;
        } else {
            hi = mid;
        }
    }
    proof {
        assert(hi == lo + 1);
        lemma_floor_sqrt_unique(n as int, lo as int);
    }
    lo
}

/// A real number held as a whole count of millionths.
#[derive(Clone, Copy, Debug, PartialEq, Eq, PartialOrd, Ord, Hash, Structural)]
pub struct Fixed {
    /// The value multiplied by [`SCALE`].
    pub raw: i64,
}

impl View for Fixed {
    type V = int;

    open spec fn view(&self) -> int {
        self.raw as int
    }
}

impl Fixed {
    /// The number whose raw count is the saturation of `v`.
    pub open spec fn saturated(v: int) -> Fixed {
        Fixed { raw: saturate(v) as i64 }
    }

    /// The saturated sum.
    pub open spec fn plus(self, rhs: Fixed) -> Fixed {
        Fixed::saturated(self.raw + rhs.raw)
    }

    /// The saturated difference.
    pub open spec fn minus(self, rhs: Fixed) -> Fixed {
        Fixed::saturated(self.raw - rhs.raw)
    }

    /// The product rounded toward zero, saturated.
    pub open spec fn times(self, rhs: Fixed) -> Fixed {
        Fixed::saturated(quot(self.raw * rhs.raw, SCALE as int))
    }

    /// The saturated negation.
    pub open spec fn negated(self) -> Fixed {
        Fixed::saturated(-self.raw)
    }

    /// `self / rhs` rounded toward zero; `None` when `rhs` is zero.
    pub open spec fn div_spec(self, rhs: Fixed) -> Option<Fixed> {
        if rhs.raw == 0 {
            None
        } else {
            Some(Fixed::saturated(quot(self.raw * SCALE, rhs.raw as int)))
        }
    }

    /// The square root rounded down; `None` when `self` is negative.
    pub open spec fn sqrt_spec(self) -> Option<Fixed> {
        if self.raw < 0 {
            None
        } else {
            Some(Fixed { raw: floor_sqrt(self.raw * SCALE) as i64 })
        }
    }

    /// The smaller of two numbers.
    pub open spec fn min_spec(self, other: Fixed) -> Fixed {
        if other.raw < self.raw {
            other
        } else {
            self
        }
    }

    /// The square root of a number that is not negative is not negative, and
    /// its square does not exceed the number.
    pub proof fn lemma_sqrt_bounds(self)
        requires
            self.raw >= 0,
        ensures
            self.sqrt_spec().unwrap().raw == floor_sqrt(self.raw * SCALE),
            0 <= self.sqrt_spec().unwrap().raw,
            self.sqrt_spec().unwrap().raw * self.sqrt_spec().unwrap().raw <= self.raw * SCALE,
    {
        lemma_scaled(self.raw as int);
        lemma_floor_sqrt_exists(self.raw * SCALE);
        let root = floor_sqrt(self.raw * SCALE);
        assert(root <= i64::MAX) by (nonlinear_arith)
            requires
                0 <= root,
                root * root <= self.raw * 1_000_000,
                self.raw <= 0x7fff_ffff_ffff_ffff,
        ;
    }

    /// The number with the given raw count of millionths.
    pub fn from_raw(raw: i64) -> (r: Fixed)
        ensures
            r.raw == raw,
    {
        Fixed { raw }
    }

    /// The whole number `n`, saturated.
    pub fn from_int(n: i64) -> (r: Fixed)
        ensures
            r == Fixed::saturated(n * SCALE),
    {
        proof {
            lemma_scaled(n as int);
        }
        Fixed::from_wide(n as i128 * SCALE as i128)
    }

    /// Zero.
    pub fn zero() -> (r: Fixed)
        ensures
            r.raw == 0,
    {
        Fixed { raw: 0 }
    }

    /// One.
    pub fn one() -> (r: Fixed)
        ensures
            r.raw == SCALE,
    {
        Fixed { raw: SCALE }
    }

    /// The largest number; it stands for an unbounded limit.
    pub fn max_value() -> (r: Fixed)
        ensures
            r.raw == i64::MAX,
    {
        Fixed { raw: i64::MAX }
    }

    /// Saturates a wide raw count.
    pub fn from_wide(wide: i128) -> (r: Fixed)
        ensures
            r == Fixed::saturated(wide as int),
    {
        if wide > i64::MAX as i128 {
            Fixed { raw: i64::MAX }
        } else if wide < i64::MIN as i128 {
            Fixed { raw: i64::MIN }
        } else {
            Fixed { raw: wide as i64 }
        }
    }

    /// The smaller of two numbers.
    pub fn min(self, other: Fixed) -> (r: Fixed)
        ensures
            r == self.min_spec(other),
    {
        if other.raw < self.raw {
            other
        } else {
            self
        }
    }

    /// Division rounded toward zero. There is no quotient by zero.
    pub fn div(self, rhs: Fixed) -> (r: Option<Fixed>)
        ensures
            r == self.div_spec(rhs),
    {
        if rhs.raw == 0 {
            None
        } else {
            proof {
                lemma_scaled(self.raw as int);
            }
            let wide: i128 = self.raw as i128 * SCALE as i128;
            Some(Fixed::from_wide(quot_wide(wide, rhs.raw as i128)))
        }
    }

    /// Square root rounded down. A negative number has none.
    pub fn sqrt(self) -> (r: Option<Fixed>)
        ensures
            r == self.sqrt_spec(),
    {
        if self.raw < 0 {
            None
        } else {
            proof {
                lemma_scaled(self.raw as int);
            }
            let wide: u128 = self.raw as u128 * SCALE as u128;
            let root: u128 = isqrt(wide);
            proof {
                lemma_floor_sqrt_exists(wide as int);
                assert(root <= i64::MAX) by (nonlinear_arith)
                    requires
                        root * root <= wide,
                        wide <= 0x7fff_ffff_ffff_ffff * 1_000_000,
                ;
            }
            Some(Fixed { raw: root as i64 })
        }
    }
}

impl core::ops::Add for Fixed {
    type Output = Fixed;

    fn add(self, rhs: Fixed) -> (r: Fixed) {
        Fixed::from_wide(self.raw as i128 + rhs.raw as i128)
    }
}

impl vstd::std_specs::ops::AddSpecImpl for Fixed {
    open spec fn obeys_add_spec() -> bool {
        true
    }

    open spec fn add_req(self, rhs: Fixed) -> bool {
        true
    }

    open spec fn add_spec(self, rhs: Fixed) -> Fixed {
        self.plus(rhs)
    }
}

impl core::ops::Sub for Fixed {
    type Output = Fixed;

    fn sub(self, rhs: Fixed) -> (r: Fixed) {
        Fixed::from_wide(self.raw as i128 - rhs.raw as i128)
    }
}

impl vstd::std_specs::ops::SubSpecImpl for Fixed {
    open spec fn obeys_sub_spec() -> bool {
        true
    }

    open spec fn sub_req(self, rhs: Fixed) -> bool {
        true
    }

    open spec fn sub_spec(self, rhs: Fixed) -> Fixed {
        self.minus(rhs)
    }
}

impl core::ops::Mul for Fixed {
    type Output = Fixed;

    fn mul(self, rhs: Fixed) -> (r: Fixed) {
        assert(-0x4000_0000_0000_0000_0000_0000_0000_0000 <= self.raw * rhs.raw
            <= 0x4000_0000_0000_0000_0000_0000_0000_0000) by (nonlinear_arith)
            requires
                -0x8000_0000_0000_0000 <= self.raw <= 0x7fff_ffff_ffff_ffff,
                -0x8000_0000_0000_0000 <= rhs.raw <= 0x7fff_ffff_ffff_ffff,
        ;
        let wide: i128 = self.raw as i128 * rhs.raw as i128;
        Fixed::from_wide(quot_wide(wide, SCALE as i128))
    }
}

impl vstd::std_specs::ops::MulSpecImpl for Fixed {
    open spec fn obeys_mul_spec() -> bool {
        true
    }

    open spec fn mul_req(self, rhs: Fixed) -> bool {
        true
    }

    open spec fn mul_spec(self, rhs: Fixed) -> Fixed {
        self.times(rhs)
    }
}

impl core::ops::Neg for Fixed {
    type Output = Fixed;

    fn neg(self) -> (r: Fixed) {
        Fixed::from_wide(-(self.raw as i128))
    }
}

impl vstd::std_specs::ops::NegSpecImpl for Fixed {
    open spec fn obeys_neg_spec() -> bool {
        true
    }

    open spec fn neg_req(self) -> bool {
        true
    }

    open spec fn neg_spec(self) -> Fixed {
        self.negated()
    }
}

} // verus!
