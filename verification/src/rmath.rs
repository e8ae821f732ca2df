//! Vector algebra over [`Fixed`] numbers.

use crate::fixed::{
    floor_sqrt, isqrt, lemma_floor_sqrt_exists, lemma_quot_fraction, lemma_quot_remainder,
    lemma_scaled, lemma_times_bound, quot, quot_wide, saturate, Fixed, SCALE,
};
use crate::frame::{rgb8, rgb_channels};
use crate::physics::Ray;
use crate::trig::{PI_RAW, TWO_PI_RAW};
use core::ops::{Neg, Range};
use rand::Rng;
use vstd::prelude::*;

verus! {

/// How many candidates rejection sampling tries before it gives up.
pub const MAX_REJECTIONS: u32 = 64;

/// `x` limited to the interval from `min` to `max`; where the interval is
/// empty (`min > max`) the upper limit is tested first.
pub open spec fn clamp_spec(x: Fixed, min: Fixed, max: Fixed) -> Fixed {
    if x.raw > max.raw {
        max
    } else if x.raw < min.raw {
        min
    } else {
        x
    }
}

/// Limits `x` to the interval from `min` to `max`.
pub fn clamp(x: Fixed, min: Fixed, max: Fixed) -> (r: Fixed)
    ensures
        r == clamp_spec(x, min, max),
{
    if x.raw > max.raw {
        max
    } else if x.raw < min.raw {
        min
    } else {
        x
    }
}

/// The angle of `deg` degrees in radians, `deg * pi / 180`.
pub open spec fn deg_to_rad_spec(deg: Fixed) -> Fixed {
    deg.times(Fixed { raw: PI_RAW }).div_spec(Fixed::saturated(180 * SCALE)).unwrap()
}

/// The angle of `rad` radians in degrees, `rad * 180 / pi`.
pub open spec fn rad_to_deg_spec(rad: Fixed) -> Fixed {
    rad.times(Fixed::saturated(180 * SCALE)).div_spec(Fixed { raw: PI_RAW }).unwrap()
}

/// Converts degrees to radians.
pub fn deg_to_rad(deg: Fixed) -> (r: Fixed)
    ensures
        r == deg_to_rad_spec(deg),
{
    match (deg * Fixed::from_raw(PI_RAW)).div(Fixed::from_int(180)) {
        Some(rad) => rad,
        None => deg,
    }
}

/// Converts radians to degrees.
pub fn rad_to_deg(rad: Fixed) -> (r: Fixed)
    ensures
        r == rad_to_deg_spec(rad),
{
    match (rad * Fixed::from_int(180)).div(Fixed::from_raw(PI_RAW)) {
        Some(deg) => deg,
        None => rad,
    }
}

/// A raw count drawn by `rand::Rng::gen_range` from the thread's generator:
/// at least `low` and less than `high`, whatever the generator yields.
#[verifier::external_body]
fn uniform_raw(low: i64, high: i64) -> (r: i64)
    requires
        low < high,
    ensures
        low <= r < high,
{
    rand::thread_rng().gen_range(low, high)
}

/// A number drawn uniformly from zero (included) to one (excluded).
pub fn random_double() -> (r: Fixed)
    ensures
        0 <= r.raw < SCALE,
{
    Fixed::from_raw(uniform_raw(0, SCALE))
}

/// A number drawn uniformly from the interval, its start included and its
/// end excluded. The interval must not be empty.
pub fn random_interval(interval: Range<Fixed>) -> (r: Fixed)
    requires
        interval.start.raw < interval.end.raw,
    ensures
        interval.start.raw <= r.raw < interval.end.raw,
{
    Fixed::from_raw(uniform_raw(interval.start.raw, interval.end.raw))
}

/// The byte of a colour channel: `256 x` rounded toward zero and limited to
/// the range of a byte.
pub open spec fn channel_byte(x: Fixed) -> u8 {
    let level = quot(x.raw * 256, SCALE as int);
    if level < 0 {
        0u8
    } else if level > 255 {
        255u8
    } else {
        level as u8
    }
}

/// Converts a colour channel to its byte.
pub fn to_byte(x: Fixed) -> (b: u8)
    ensures
        b == channel_byte(x),
{
    let level: i128 = quot_wide(x.raw as i128 * 256, SCALE as i128);
    if level < 0 {
        0
    } else if level > 255 {
        255
    } else {
        level as u8
    }
}

/// The algebra behind the law of reflection on raw counts: with the products
/// `v_i n_i = S p_i + a_i`, `k n_i = S q_i + b_i` and
/// `(v_i - q_i) n_i = S w_i + c_i` for the scale `S`, and `k` twice the sum of
/// the `p_i`, the sum of all `w_i` and `p_i` is made of remainders and of the
/// defect `delta` of the squared length of `n`.
proof fn lemma_reflect_algebra(
    n: (int, int, int),
    p: (int, int, int),
    a: (int, int, int),
    q: (int, int, int),
    b: (int, int, int),
    w: (int, int, int),
    c: (int, int, int),
    v: (int, int, int),
    k: int,
    delta: int,
)
    requires
        v.0 * n.0 == 1_000_000 * p.0 + a.0,
        v.1 * n.1 == 1_000_000 * p.1 + a.1,
        v.2 * n.2 == 1_000_000 * p.2 + a.2,
        k == 2 * (p.0 + p.1 + p.2),
        n.0 * k == 1_000_000 * q.0 + b.0,
        n.1 * k == 1_000_000 * q.1 + b.1,
        n.2 * k == 1_000_000 * q.2 + b.2,
        (v.0 - q.0) * n.0 == 1_000_000 * w.0 + c.0,
        (v.1 - q.1) * n.1 == 1_000_000 * w.1 + c.1,
        (v.2 - q.2) * n.2 == 1_000_000 * w.2 + c.2,
        delta == n.0 * n.0 + n.1 * n.1 + n.2 * n.2 - 1_000_000 * 1_000_000,
    ensures
        1_000_000 * 1_000_000 * (w.0 + w.1 + w.2 + p.0 + p.1 + p.2) == 1_000_000 * (a.0 + a.1
            + a.2) - k * delta + (b.0 * n.0 + b.1 * n.1 + b.2 * n.2) - 1_000_000 * (c.0 + c.1
            + c.2),
{
    let d = p.0 + p.1 + p.2;
    let big = w.0 + w.1 + w.2;
    let qn = q.0 * n.0 + q.1 * n.1 + q.2 * n.2;
    let bn = b.0 * n.0 + b.1 * n.1 + b.2 * n.2;
    let nn = n.0 * n.0 + n.1 * n.1 + n.2 * n.2;
    assert((v.0 - q.0) * n.0 == v.0 * n.0 - q.0 * n.0) by (nonlinear_arith);
    assert((v.1 - q.1) * n.1 == v.1 * n.1 - q.1 * n.1) by (nonlinear_arith);
    assert((v.2 - q.2) * n.2 == v.2 * n.2 - q.2 * n.2) by (nonlinear_arith);
    // S (big + d) = 2 S d + (a) - qn - (c)
    assert(1_000_000 * (big + d) == 2 * (1_000_000 * d) + (a.0 + a.1 + a.2) - qn - (c.0 + c.1
        + c.2));
    // S qn = k nn - bn
    assert((n.0 * k) * n.0 == 1_000_000 * (q.0 * n.0) + b.0 * n.0) by (nonlinear_arith)
        requires
            n.0 * k == 1_000_000 * q.0 + b.0,
    ;
    assert((n.1 * k) * n.1 == 1_000_000 * (q.1 * n.1) + b.1 * n.1) by (nonlinear_arith)
        requires
            n.1 * k == 1_000_000 * q.1 + b.1,
    ;
    assert((n.2 * k) * n.2 == 1_000_000 * (q.2 * n.2) + b.2 * n.2) by (nonlinear_arith)
        requires
            n.2 * k == 1_000_000 * q.2 + b.2,
    ;
    assert((n.0 * k) * n.0 + (n.1 * k) * n.1 + (n.2 * k) * n.2 == k * nn) by (nonlinear_arith)
        requires
            nn == n.0 * n.0 + n.1 * n.1 + n.2 * n.2,
    ;
    assert(1_000_000 * qn == k * nn - bn);
    assert(k * nn == k * (1_000_000 * 1_000_000) + k * delta) by (nonlinear_arith)
        requires
            delta == nn - 1_000_000 * 1_000_000,
    ;
    assert(1_000_000 * (1_000_000 * (big + d)) == 1_000_000 * (2 * (1_000_000 * d)) + 1_000_000
        * (a.0 + a.1 + a.2) - 1_000_000 * qn - 1_000_000 * (c.0 + c.1 + c.2));
    assert(k * (1_000_000 * 1_000_000) == 1_000_000 * (2 * (1_000_000 * d))) by (nonlinear_arith)
        requires
            k == 2 * d,
    ;
}

/// The magnitude of a product is at most the magnitude of one factor times
/// a bound on the magnitude of the other.
proof fn lemma_magnitude_product(x: int, y: int, bound: int)
    requires
        -bound <= y <= bound,
    ensures
        -(vstd::math::abs(x) * bound) <= x * y <= vstd::math::abs(x) * bound,
{
    let m = vstd::math::abs(x);
    assert(-(m * bound) <= x * y <= m * bound) by (nonlinear_arith)
        requires
            -bound <= y <= bound,
            m == x || m == -x,
            m >= 0,
    ;
}

/// One component of the change of the squared length under reflection: with
/// `v n = S p + a` and `n k = S q + b` for the scale `S`, the square of
/// `v - q` less the square of `v`, times `S^2`.
proof fn lemma_square_change(v: int, n: int, p: int, a: int, q: int, b: int, k: int)
    requires
        v * n == 1_000_000 * p + a,
        n * k == 1_000_000 * q + b,
    ensures
        1_000_000_000_000 * ((v - q) * (v - q) - v * v) == (n * n) * (k * k) - 2 * (k * (n
            * b)) + b * b - 2_000_000_000_000 * (k * p) - 2_000_000 * (k * a) + 2_000_000
            * (v * b),
{
    let x = 1_000_000 * q;
    assert((v - q) * (v - q) - v * v == q * q - 2 * (v * q)) by (nonlinear_arith);
    assert(x * x == 1_000_000_000_000 * (q * q)) by (nonlinear_arith)
        requires
            x == 1_000_000 * q,
    ;
    assert(v * x == 1_000_000 * (v * q)) by (nonlinear_arith)
        requires
            x == 1_000_000 * q,
    ;
    let y = n * k;
    assert(x == y - b);
    assert(x * x == y * y - 2 * (y * b) + b * b) by (nonlinear_arith)
        requires
            x == y - b,
    ;
    assert(y * y == (n * n) * (k * k)) by (nonlinear_arith)
        requires
            y == n * k,
    ;
    assert(y * b == k * (n * b)) by (nonlinear_arith)
        requires
            y == n * k,
    ;
    assert(v * x == v * y - v * b) by (nonlinear_arith)
        requires
            x == y - b,
    ;
    assert(v * y == k * (v * n)) by (nonlinear_arith)
        requires
            y == n * k,
    ;
    assert(k * (v * n) == 1_000_000 * (k * p) + k * a) by (nonlinear_arith)
        requires
            v * n == 1_000_000 * p + a,
    ;
    let qq = q * q;
    let vq = v * q;
    let vx = v * x;
    let xx = x * x;
    let kp = k * p;
    let ka = k * a;
    let vb = v * b;
    let knb = k * (n * b);
    let nnkk = (n * n) * (k * k);
    assert(1_000_000_000_000 * (qq - 2 * vq) == xx - 2_000_000 * vx);
    assert(vx == 1_000_000 * kp + ka - vb);
    assert(xx == nnkk - 2 * knb + b * b);
    assert(xx - 2_000_000 * vx == nnkk - 2 * knb + b * b - 2_000_000_000_000 * kp - 2_000_000 * ka
        + 2_000_000 * vb);
}

/// Where two inner products cancel up to nine raw counts, the two rounded
/// products of a normal's component with their doubles cancel up to
/// nineteen.
proof fn lemma_twice_rounding(n: int, d: int, again: int)
    requires
        -1_000_000 <= n <= 1_000_000,
        -9 <= again + d <= 9,
    ensures
        -19 <= quot(n * (2 * d), SCALE as int) + quot(n * (2 * again), SCALE as int) <= 19,
{
    let s = SCALE as int;
    assert(s == 1_000_000);
    let q = quot(n * (2 * d), s);
    let p = quot(n * (2 * again), s);
    lemma_quot_remainder(n * (2 * d), s);
    lemma_quot_remainder(n * (2 * again), s);
    lemma_scaled(q);
    lemma_scaled(p);
    let e = again + d;
    assert(n * (2 * d) + n * (2 * again) == 2 * (n * e)) by (nonlinear_arith)
        requires
            e == again + d,
    ;
    assert(-9_000_000 <= n * e <= 9_000_000) by (nonlinear_arith)
        requires
            -1_000_000 <= n <= 1_000_000,
            -9 <= e <= 9,
    ;
}

/// A component divided by the length of its vector is a fraction of one.
proof fn lemma_component_fraction(x: int, norm_square: int, len: int)
    requires
        i64::MIN <= x <= i64::MAX,
        0 <= x * x <= norm_square,
        len == saturate(floor_sqrt(norm_square)),
        len != 0,
    ensures
        -1_000_000 <= quot(x * SCALE, len) <= 1_000_000,
{
    lemma_floor_sqrt_exists(norm_square);
    let f = floor_sqrt(norm_square);
    assert(-f <= x <= f) by (nonlinear_arith)
        requires
            0 <= f,
            x * x <= norm_square,
            norm_square < (f + 1) * (f + 1),
    ;
    if f <= i64::MAX || x > i64::MIN {
        lemma_quot_fraction(x, len);
    } else {
        assert(x * SCALE == -9_223_372_036_854_775_808_000_000);
        assert(9_223_372_036_854_775_808_000_000int / 9_223_372_036_854_775_807 == 1_000_000);
    }
}

/// The magnitude of a raw count.
fn magnitude(v: i64) -> (m: u128)
    ensures
        m * m == v * v,
        m <= 0x8000_0000_0000_0000,
        (m == 0) == (v == 0),
{
    let m: u128 = if v < 0 {
        (-(v as i128)) as u128
    } else {
        v as u128
    };
    assert(m * m == v * v) by (nonlinear_arith)
        requires
            m == v || m == -v,
    ;
    m
}

/// A triple of numbers: a point, a direction or a colour.
#[derive(Clone, Copy, Debug, PartialEq, Eq, Structural)]
pub struct Vector3(pub Fixed, pub Fixed, pub Fixed);

impl Vector3 {
    /// The sum of the squares of the three raw counts.
    pub open spec fn raw_norm_square(self) -> int {
        self.0.raw * self.0.raw + self.1.raw * self.1.raw + self.2.raw * self.2.raw
    }

    /// The sum, component by component.
    pub open spec fn plus(self, o: Vector3) -> Vector3 {
        Vector3(self.0.plus(o.0), self.1.plus(o.1), self.2.plus(o.2))
    }

    /// The difference, component by component.
    pub open spec fn minus(self, o: Vector3) -> Vector3 {
        Vector3(self.0.minus(o.0), self.1.minus(o.1), self.2.minus(o.2))
    }

    /// The opposite vector.
    pub open spec fn negated(self) -> Vector3 {
        Vector3(self.0.negated(), self.1.negated(), self.2.negated())
    }

    /// Every component multiplied by `s`.
    pub open spec fn scaled(self, s: Fixed) -> Vector3 {
        Vector3(self.0.times(s), self.1.times(s), self.2.times(s))
    }

    /// Every component divided by `s`; `None` when `s` is zero.
    pub open spec fn over(self, s: Fixed) -> Option<Vector3> {
        if s.raw == 0 {
            None
        } else {
            Some(
                Vector3(
                    self.0.div_spec(s).unwrap(),
                    self.1.div_spec(s).unwrap(),
                    self.2.div_spec(s).unwrap(),
                ),
            )
        }
    }

    /// The cross product.
    pub open spec fn cross(self, rhs: Vector3) -> Vector3 {
        Vector3(
            self.1.times(rhs.2).minus(self.2.times(rhs.1)),
            self.2.times(rhs.0).minus(self.0.times(rhs.2)),
            self.0.times(rhs.1).minus(self.1.times(rhs.0)),
        )
    }

    /// The inner product, each term rounded toward zero and the sum
    /// accumulated from the left.
    pub open spec fn dot_spec(self, other: Vector3) -> Fixed {
        self.0.times(other.0).plus(self.1.times(other.1)).plus(self.2.times(other.2))
    }

    /// The inner product of `self` and `other` is exact up to the rounding
    /// of its three products: neither a product nor a partial sum leaves the
    /// range in which a number and its negation are both held.
    pub open spec fn dot_unsaturated(self, other: Vector3) -> bool {
        let t0 = quot(self.0.raw * other.0.raw, SCALE as int);
        let t1 = quot(self.1.raw * other.1.raw, SCALE as int);
        let t2 = quot(self.2.raw * other.2.raw, SCALE as int);
        &&& -i64::MAX <= t0 <= i64::MAX
        &&& -i64::MAX <= t1 <= i64::MAX
        &&& -i64::MAX <= t2 <= i64::MAX
        &&& -i64::MAX <= t0 + t1 <= i64::MAX
        &&& -i64::MAX <= t0 + t1 + t2 <= i64::MAX
    }

    /// The inner product of the vector with itself.
    pub open spec fn length_square_spec(self) -> Fixed {
        self.dot_spec(self)
    }

    /// The Euclidean length, rounded down to a whole raw count.
    pub open spec fn length_spec(self) -> Fixed {
        Fixed::saturated(floor_sqrt(self.raw_norm_square()))
    }

    /// The product taken component by component.
    pub open spec fn mul_one_by_one_spec(self, other: Vector3) -> Vector3 {
        Vector3(self.0.times(other.0), self.1.times(other.1), self.2.times(other.2))
    }

    /// The vector of the same direction and length one; a vector of length
    /// zero has none.
    pub open spec fn unit_spec(self) -> Option<Vector3> {
        self.over(self.length_spec())
    }

    /// The mirror image of `self` about the plane with normal `normal`:
    /// `self - 2 (self . normal) normal`.
    pub open spec fn reflect_spec(self, normal: Vector3) -> Vector3 {
        self.minus(normal.scaled(Fixed::saturated(2 * SCALE).times(self.dot_spec(normal))))
    }

    /// The bent continuation of the unit vector `self` through a surface with
    /// unit normal `normal`, by Snell's law with the ratio `etai_over_etat` of
    /// the refractive indices: the part along the surface is
    /// `ratio (self + cos normal)` with `cos = self . (-normal)`, the part
    /// across it `-sqrt(1 - |along|^2) normal`. No ray continues where that
    /// root does not exist.
    pub open spec fn refract_spec(self, normal: Vector3, etai_over_etat: Fixed) -> Option<Vector3> {
        let cos_theta = self.dot_spec(normal.negated());
        let r_out_parallel = self.plus(normal.scaled(cos_theta)).scaled(etai_over_etat);
        match (Fixed { raw: SCALE }).minus(r_out_parallel.length_square_spec()).sqrt_spec() {
            Some(root) => Some(r_out_parallel.plus(normal.scaled(root.negated()))),
            None => None,
        }
    }

    /// The cosine of the angle between two vectors; there is none where one
    /// of them has no direction.
    pub open spec fn cos_of_angle_spec(self, other: Vector3) -> Option<Fixed> {
        match (self.unit_spec(), other.unit_spec()) {
            (Some(a), Some(b)) => Some(a.dot_spec(b)),
            _ => None,
        }
    }

    /// The point of the cylinder map at azimuth `a` and height `z`:
    /// `(r cos a, r sin a, z)` with `r = sqrt(1 - z^2)`, and `r = 0` where
    /// the height exceeds one.
    pub open spec fn from_cylinder_spec(a: Fixed, z: Fixed) -> Vector3 {
        let r = match (Fixed { raw: SCALE }).minus(z.times(z)).sqrt_spec() {
            Some(root) => root,
            None => Fixed { raw: 0 },
        };
        Vector3(r.times(a.cos_spec()), r.times(a.sin_spec()), z)
    }

    /// `self` is a point of the cylinder map at an azimuth of the full turn
    /// and a height from zero (included) to one (excluded).
    pub open spec fn is_cylinder_sample(self) -> bool {
        exists|a: Fixed, z: Fixed|
            0 <= a.raw < TWO_PI_RAW && 0 <= z.raw < SCALE && self == #[trigger] Vector3::from_cylinder_spec(a, z)
    }

    /// The cylinder map has a sample: the point at azimuth and height zero.
    pub proof fn lemma_cylinder_sample_exists()
        ensures
            Vector3::from_cylinder_spec(Fixed { raw: 0 }, Fixed { raw: 0 }).is_cylinder_sample(),
    {
        let a = Fixed { raw: 0 };
        let z = Fixed { raw: 0 };
        assert(0 <= a.raw < TWO_PI_RAW && 0 <= z.raw < SCALE);
        let v = Vector3::from_cylinder_spec(a, z);
        assert(v == Vector3::from_cylinder_spec(a, z));
    }

    /// The parts of a reflection that does not saturate: the inner product
    /// is the exact sum of its three rounded products, and each component of
    /// the mirror image is the component less the rounded product of the
    /// normal's component with twice the inner product.
    pub proof fn lemma_reflect_components(self, normal: Vector3, bound: int, dot_bound: int)
        requires
            self.bounded(bound),
            normal.bounded(1_000_000),
            0 <= bound,
            3 * bound + 3 <= i64::MAX,
            -dot_bound <= self.dot_spec(normal).raw <= dot_bound,
            bound + 2 * dot_bound + 1 <= i64::MAX,
        ensures
            self.dot_spec(normal).raw == quot(self.0.raw * normal.0.raw, SCALE as int) + quot(
                self.1.raw * normal.1.raw,
                SCALE as int,
            ) + quot(self.2.raw * normal.2.raw, SCALE as int),
            -(3 * bound + 3) <= self.dot_spec(normal).raw <= 3 * bound + 3,
            self.reflect_spec(normal).0.raw == self.0.raw - quot(
                normal.0.raw * (2 * self.dot_spec(normal).raw),
                SCALE as int,
            ),
            self.reflect_spec(normal).1.raw == self.1.raw - quot(
                normal.1.raw * (2 * self.dot_spec(normal).raw),
                SCALE as int,
            ),
            self.reflect_spec(normal).2.raw == self.2.raw - quot(
                normal.2.raw * (2 * self.dot_spec(normal).raw),
                SCALE as int,
            ),
            self.reflect_spec(normal).bounded(bound + 2 * dot_bound + 1),
    {
        let s = SCALE as int;
        assert(s == 1_000_000);
        let v = (self.0.raw as int, self.1.raw as int, self.2.raw as int);
        let n = (normal.0.raw as int, normal.1.raw as int, normal.2.raw as int);
        lemma_times_bound(v.0, n.0, bound, 1_000_000);
        lemma_times_bound(v.1, n.1, bound, 1_000_000);
        lemma_times_bound(v.2, n.2, bound, 1_000_000);
        assert((bound * 1_000_000) / 1_000_000 == bound);
        assert((-(bound * 1_000_000)) / 1_000_000 == -bound);
        let d = self.dot_spec(normal).raw as int;
        let k = 2 * d;
        lemma_quot_remainder(2_000_000 * d, s);
        lemma_scaled(quot(2_000_000 * d, s));
        assert(quot(2_000_000 * d, s) == k);
        let two = Fixed::saturated(2 * SCALE);
        assert(two.raw == 2_000_000);
        assert(two.times(self.dot_spec(normal)).raw == k);
        lemma_times_bound(n.0, k, 1_000_000, 2 * dot_bound);
        lemma_times_bound(n.1, k, 1_000_000, 2 * dot_bound);
        lemma_times_bound(n.2, k, 1_000_000, 2 * dot_bound);
        assert((1_000_000 * (2 * dot_bound)) / 1_000_000 == 2 * dot_bound);
        assert((-(1_000_000 * (2 * dot_bound))) / 1_000_000 == -(2 * dot_bound));
    }

    /// Reflection about a normal of length exactly one keeps the length: the
    /// squared lengths, as exact sums of the squared raw counts, differ by no
    /// more than `24 |v . n| + 2 (|v_x| + |v_y| + |v_z|) + 3`, which is of
    /// the order of the length itself, so that the lengths differ by a few
    /// raw counts. The bounds are those of the law of reflection.
    pub proof fn lemma_reflect_keeps_length(self, normal: Vector3)
        requires
            self.bounded(400_000_000_000_000_000),
            normal.bounded(1_000_000),
            normal.raw_norm_square() == 1_000_000 * 1_000_000,
        ensures
            ({
                let change = self.reflect_spec(normal).raw_norm_square() - self.raw_norm_square();
                let slack = 24 * vstd::math::abs(self.dot_spec(normal).raw as int) + 2 * (
                vstd::math::abs(self.0.raw as int) + vstd::math::abs(self.1.raw as int)
                    + vstd::math::abs(self.2.raw as int)) + 3;
                -slack <= change <= slack
            }),
    {
        let s = SCALE as int;
        assert(s == 1_000_000);
        let v = (self.0.raw as int, self.1.raw as int, self.2.raw as int);
        let n = (normal.0.raw as int, normal.1.raw as int, normal.2.raw as int);
        lemma_times_bound(v.0, n.0, 400_000_000_000_000_000, 1_000_000);
        lemma_times_bound(v.1, n.1, 400_000_000_000_000_000, 1_000_000);
        lemma_times_bound(v.2, n.2, 400_000_000_000_000_000, 1_000_000);
        self.lemma_reflect_components(normal, 400_000_000_000_000_000, 1_200_000_000_000_000_003);
        let p = (quot(v.0 * n.0, s), quot(v.1 * n.1, s), quot(v.2 * n.2, s));
        lemma_quot_remainder(v.0 * n.0, s);
        lemma_quot_remainder(v.1 * n.1, s);
        lemma_quot_remainder(v.2 * n.2, s);
        lemma_scaled(p.0);
        lemma_scaled(p.1);
        lemma_scaled(p.2);
        let a = (v.0 * n.0 - 1_000_000 * p.0, v.1 * n.1 - 1_000_000 * p.1, v.2 * n.2 - 1_000_000
            * p.2);
        let d = p.0 + p.1 + p.2;
        let k = 2 * d;
        let q = (quot(n.0 * k, s), quot(n.1 * k, s), quot(n.2 * k, s));
        lemma_quot_remainder(n.0 * k, s);
        lemma_quot_remainder(n.1 * k, s);
        lemma_quot_remainder(n.2 * k, s);
        lemma_scaled(q.0);
        lemma_scaled(q.1);
        lemma_scaled(q.2);
        let b = (n.0 * k - 1_000_000 * q.0, n.1 * k - 1_000_000 * q.1, n.2 * k - 1_000_000 * q.2);
        lemma_square_change(v.0, n.0, p.0, a.0, q.0, b.0, k);
        lemma_square_change(v.1, n.1, p.1, a.1, q.1, b.1, k);
        lemma_square_change(v.2, n.2, p.2, a.2, q.2, b.2, k);
        let nn = n.0 * n.0 + n.1 * n.1 + n.2 * n.2;
        let kk = k * k;
        assert((n.0 * n.0) * kk + (n.1 * n.1) * kk + (n.2 * n.2) * kk == nn * kk) by (nonlinear_arith)
            requires
                nn == n.0 * n.0 + n.1 * n.1 + n.2 * n.2,
        ;
        assert(nn * kk == 2_000_000_000_000 * (k * d)) by (nonlinear_arith)
            requires
                nn == 1_000_000_000_000,
                kk == k * k,
                k == 2 * d,
        ;
        assert(k * p.0 + k * p.1 + k * p.2 == k * d) by (nonlinear_arith)
            requires
                d == p.0 + p.1 + p.2,
        ;
        let r = self.reflect_spec(normal);
        let change = r.raw_norm_square() - self.raw_norm_square();
        let ka = k * a.0 + k * a.1 + k * a.2;
        let knb = k * (n.0 * b.0) + k * (n.1 * b.1) + k * (n.2 * b.2);
        let bb = b.0 * b.0 + b.1 * b.1 + b.2 * b.2;
        let vb = v.0 * b.0 + v.1 * b.1 + v.2 * b.2;
        let r0 = v.0 - q.0;
        let r1 = v.1 - q.1;
        let r2 = v.2 - q.2;
        assert(change == (r0 * r0 - v.0 * v.0) + (r1 * r1 - v.1 * v.1) + (r2 * r2 - v.2 * v.2));
        assert(1_000_000_000_000 * change == -2 * knb + bb - 2_000_000 * ka + 2_000_000 * vb);
        let ak = vstd::math::abs(k);
        lemma_magnitude_product(k, a.0, 1_000_000);
        lemma_magnitude_product(k, a.1, 1_000_000);
        lemma_magnitude_product(k, a.2, 1_000_000);
        lemma_magnitude_product(n.0, b.0, 1_000_000);
        lemma_magnitude_product(n.1, b.1, 1_000_000);
        lemma_magnitude_product(n.2, b.2, 1_000_000);
        lemma_magnitude_product(b.0, n.0, 1_000_000);
        lemma_magnitude_product(b.1, n.1, 1_000_000);
        lemma_magnitude_product(b.2, n.2, 1_000_000);
        assert(n.0 * b.0 == b.0 * n.0 && n.1 * b.1 == b.1 * n.1 && n.2 * b.2 == b.2 * n.2)
            by (nonlinear_arith);
        lemma_magnitude_product(k, n.0 * b.0, 1_000_000_000_000);
        lemma_magnitude_product(k, n.1 * b.1, 1_000_000_000_000);
        lemma_magnitude_product(k, n.2 * b.2, 1_000_000_000_000);
        lemma_magnitude_product(b.0, b.0, 1_000_000);
        lemma_magnitude_product(b.1, b.1, 1_000_000);
        lemma_magnitude_product(b.2, b.2, 1_000_000);
        lemma_magnitude_product(v.0, b.0, 1_000_000);
        lemma_magnitude_product(v.1, b.1, 1_000_000);
        lemma_magnitude_product(v.2, b.2, 1_000_000);
        assert(ak * 1_000_000_000_000 == 1_000_000_000_000 * ak) by (nonlinear_arith);
        assert(ak * 1_000_000 == 1_000_000 * ak) by (nonlinear_arith);
    }

    /// Reflecting twice about a normal of length exactly one gives the vector
    /// back, up to the rounding: no component differs by more than nineteen
    /// raw counts. The bounds are those of the law of reflection.
    pub proof fn lemma_reflect_twice(self, normal: Vector3)
        requires
            self.bounded(400_000_000_000_000_000),
            normal.bounded(1_000_000),
            normal.raw_norm_square() == 1_000_000 * 1_000_000,
        ensures
            ({
                let back = self.reflect_spec(normal).reflect_spec(normal);
                &&& -19 <= back.0.raw - self.0.raw <= 19
                &&& -19 <= back.1.raw - self.1.raw <= 19
                &&& -19 <= back.2.raw - self.2.raw <= 19
            }),
    {
        let s = SCALE as int;
        assert(s == 1_000_000);
        self.lemma_reflect_reverses_normal_part(normal);
        let d = self.dot_spec(normal).raw as int;
        lemma_times_bound(self.0.raw as int, normal.0.raw as int, 400_000_000_000_000_000, 1_000_000);
        lemma_times_bound(self.1.raw as int, normal.1.raw as int, 400_000_000_000_000_000, 1_000_000);
        lemma_times_bound(self.2.raw as int, normal.2.raw as int, 400_000_000_000_000_000, 1_000_000);
        self.lemma_reflect_components(normal, 400_000_000_000_000_000, 1_200_000_000_000_000_003);
        let r = self.reflect_spec(normal);
        let again = r.dot_spec(normal).raw as int;
        assert(-9 <= again + d <= 9);
        r.lemma_reflect_components(normal, 2_800_000_000_000_000_007, 1_200_000_000_000_000_012);
        let n = (normal.0.raw as int, normal.1.raw as int, normal.2.raw as int);
        lemma_twice_rounding(n.0, d, again);
        lemma_twice_rounding(n.1, d, again);
        lemma_twice_rounding(n.2, d, again);
    }

    /// A normalised vector has components between minus one and one.
    pub proof fn lemma_unit_bounded(self)
        ensures
            self.unit_spec() matches Some(u) ==> u.bounded(1_000_000),
    {
        let len = self.length_spec().raw as int;
        if len != 0 {
            let x = self.0.raw as int;
            let y = self.1.raw as int;
            let z = self.2.raw as int;
            assert(x * x >= 0 && y * y >= 0 && z * z >= 0) by (nonlinear_arith);
            lemma_component_fraction(x, self.raw_norm_square(), len);
            lemma_component_fraction(y, self.raw_norm_square(), len);
            lemma_component_fraction(z, self.raw_norm_square(), len);
        }
    }

    /// The magnitude of every raw count is at most `bound`.
    pub open spec fn bounded(self, bound: int) -> bool {
        &&& -bound <= self.0.raw <= bound
        &&& -bound <= self.1.raw <= bound
        &&& -bound <= self.2.raw <= bound
    }

    /// The law of reflection: reflecting `self` about `normal` reverses its
    /// part along the normal, `reflect(v, n) . n = -(v . n)`, up to the
    /// rounding of nine products and to the defect of the normal's length.
    /// The sum of the two inner products, in raw counts, is at most
    /// `9 + |2 (v . n)| |n . n - 1|`, where `n . n - 1` is taken exactly; for
    /// a normal of length exactly one it is at most nine raw counts. The
    /// normal has components up to one, as a unit vector has. The vector has
    /// raw counts up to `4 * 10^17`: the intermediate values grow to
    /// twenty-one times the vector's bound, and beyond this bound their sum
    /// would leave the range and stick at its end.
    pub proof fn lemma_reflect_reverses_normal_part(self, normal: Vector3)
        requires
            self.bounded(400_000_000_000_000_000),
            normal.bounded(1_000_000),
        ensures
            ({
                let sum = self.reflect_spec(normal).dot_spec(normal).raw + self.dot_spec(
                    normal,
                ).raw;
                let defect = normal.raw_norm_square() - 1_000_000 * 1_000_000;
                let slack = 9 * (1_000_000 * 1_000_000) + vstd::math::abs(
                    2 * self.dot_spec(normal).raw,
                ) * vstd::math::abs(defect);
                &&& -slack <= 1_000_000 * 1_000_000 * sum <= slack
                &&& defect == 0 ==> -9 <= sum <= 9
            }),
    {
        let v = (self.0.raw as int, self.1.raw as int, self.2.raw as int);
        let n = (normal.0.raw as int, normal.1.raw as int, normal.2.raw as int);
        let s = SCALE as int;
        assert(s == 1_000_000);
        let p = (quot(v.0 * n.0, s), quot(v.1 * n.1, s), quot(v.2 * n.2, s));
        lemma_times_bound(v.0, n.0, 400_000_000_000_000_000, 1_000_000);
        lemma_times_bound(v.1, n.1, 400_000_000_000_000_000, 1_000_000);
        lemma_times_bound(v.2, n.2, 400_000_000_000_000_000, 1_000_000);
        lemma_quot_remainder(v.0 * n.0, s);
        lemma_quot_remainder(v.1 * n.1, s);
        lemma_quot_remainder(v.2 * n.2, s);
        lemma_scaled(p.0);
        lemma_scaled(p.1);
        lemma_scaled(p.2);
        let a = (v.0 * n.0 - 1_000_000 * p.0, v.1 * n.1 - 1_000_000 * p.1, v.2 * n.2 - 1_000_000
            * p.2);
        let d = p.0 + p.1 + p.2;
        assert(self.dot_spec(normal).raw == d);
        let k = 2 * d;
        lemma_quot_remainder(2_000_000 * d, s);
        lemma_scaled(quot(2_000_000 * d, s));
        assert(quot(2_000_000 * d, s) == k);
        let two = Fixed::saturated(2 * SCALE);
        assert(two.raw == 2_000_000);
        assert(two.times(self.dot_spec(normal)).raw == k);
        let q = (quot(n.0 * k, s), quot(n.1 * k, s), quot(n.2 * k, s));
        lemma_times_bound(n.0, k, 1_000_000, 2_400_000_000_000_000_006);
        lemma_times_bound(n.1, k, 1_000_000, 2_400_000_000_000_000_006);
        lemma_times_bound(n.2, k, 1_000_000, 2_400_000_000_000_000_006);
        lemma_quot_remainder(n.0 * k, s);
        lemma_quot_remainder(n.1 * k, s);
        lemma_quot_remainder(n.2 * k, s);
        lemma_scaled(q.0);
        lemma_scaled(q.1);
        lemma_scaled(q.2);
        let b = (n.0 * k - 1_000_000 * q.0, n.1 * k - 1_000_000 * q.1, n.2 * k - 1_000_000 * q.2);
        let r = self.reflect_spec(normal);
        assert(r.0.raw == v.0 - q.0 && r.1.raw == v.1 - q.1 && r.2.raw == v.2 - q.2);
        let w = (quot((v.0 - q.0) * n.0, s), quot((v.1 - q.1) * n.1, s), quot((v.2 - q.2) * n.2, s));
        lemma_times_bound(v.0 - q.0, n.0, 2_800_000_000_000_000_008, 1_000_000);
        lemma_times_bound(v.1 - q.1, n.1, 2_800_000_000_000_000_008, 1_000_000);
        lemma_times_bound(v.2 - q.2, n.2, 2_800_000_000_000_000_008, 1_000_000);
        lemma_quot_remainder((v.0 - q.0) * n.0, s);
        lemma_quot_remainder((v.1 - q.1) * n.1, s);
        lemma_quot_remainder((v.2 - q.2) * n.2, s);
        lemma_scaled(w.0);
        lemma_scaled(w.1);
        lemma_scaled(w.2);
        let c = ((v.0 - q.0) * n.0 - 1_000_000 * w.0, (v.1 - q.1) * n.1 - 1_000_000 * w.1, (v.2
            - q.2) * n.2 - 1_000_000 * w.2);
        assert(r.dot_spec(normal).raw == w.0 + w.1 + w.2);
        let delta = normal.raw_norm_square() - 1_000_000 * 1_000_000;
        lemma_reflect_algebra(n, p, a, q, b, w, c, v, k, delta);
        let sum = w.0 + w.1 + w.2 + d;
        assert(-1_000_000 * 1_000_000 <= b.0 * n.0 <= 1_000_000 * 1_000_000) by (nonlinear_arith)
            requires
                -1_000_000 < b.0 < 1_000_000,
                -1_000_000 <= n.0 <= 1_000_000,
        ;
        assert(-1_000_000 * 1_000_000 <= b.1 * n.1 <= 1_000_000 * 1_000_000) by (nonlinear_arith)
            requires
                -1_000_000 < b.1 < 1_000_000,
                -1_000_000 <= n.1 <= 1_000_000,
        ;
        assert(-1_000_000 * 1_000_000 <= b.2 * n.2 <= 1_000_000 * 1_000_000) by (nonlinear_arith)
            requires
                -1_000_000 < b.2 < 1_000_000,
                -1_000_000 <= n.2 <= 1_000_000,
        ;
        let bend = vstd::math::abs(k) * vstd::math::abs(delta);
        assert(-bend <= k * delta <= bend) by (nonlinear_arith)
            requires
                bend == vstd::math::abs(k) * vstd::math::abs(delta),
        ;
        if delta == 0 {
            assert(k * delta == 0) by (nonlinear_arith)
                requires
                    delta == 0,
            ;
        }
    }

    /// The point lies in the unit ball: its squared length is at most one.
    pub open spec fn in_unit_ball_spec(self) -> bool {
        self.length_square_spec().raw <= SCALE
    }

    /// `self` is what rejection sampling gives for the candidates `draws`, in
    /// the order in which they were drawn from the cube from -1 to 1: every
    /// candidate but the last lies outside the unit ball; the last is taken
    /// if it lies inside; if it does not, it was candidate number
    /// [`MAX_REJECTIONS`] and the centre of the ball is given.
    pub open spec fn is_rejection_sample(self, draws: Seq<Vector3>) -> bool {
        &&& 1 <= draws.len() <= MAX_REJECTIONS
        &&& forall|i: int|
            0 <= i < draws.len() ==> (#[trigger] draws[i]).within(
                Fixed::saturated(-SCALE),
                Fixed { raw: SCALE },
            )
        &&& forall|i: int| 0 <= i < draws.len() - 1 ==> !(#[trigger] draws[i]).in_unit_ball_spec()
        &&& if draws.last().in_unit_ball_spec() {
            self == draws.last()
        } else {
            draws.len() == MAX_REJECTIONS && self == Vector3(
                Fixed { raw: 0 },
                Fixed { raw: 0 },
                Fixed { raw: 0 },
            )
        }
    }

    /// Every component is at least `low` and less than `high`.
    pub open spec fn within(self, low: Fixed, high: Fixed) -> bool {
        &&& low.raw <= self.0.raw < high.raw
        &&& low.raw <= self.1.raw < high.raw
        &&& low.raw <= self.2.raw < high.raw
    }

    /// All three components equal to `s`.
    pub fn new(s: Fixed) -> (r: Vector3)
        ensures
            r == Vector3(s, s, s),
    {
        Vector3(s, s, s)
    }

    /// The origin; as a colour, black.
    pub fn zero() -> (r: Vector3)
        ensures
            r == Vector3(Fixed { raw: 0 }, Fixed { raw: 0 }, Fixed { raw: 0 }),
    {
        Vector3(Fixed::zero(), Fixed::zero(), Fixed::zero())
    }

    /// Three independent draws from zero (included) to one (excluded).
    pub fn from_random() -> (r: Vector3)
        ensures
            r.within(Fixed { raw: 0 }, Fixed { raw: SCALE }),
    {
        Vector3(random_double(), random_double(), random_double())
    }

    /// Three independent draws from the interval, which must not be empty.
    pub fn from_interval_random(i: Range<Fixed>) -> (r: Vector3)
        requires
            i.start.raw < i.end.raw,
        ensures
            r.within(i.start, i.end),
    {
        let low = i.start;
        let high = i.end;
        Vector3(
            random_interval(Range { start: low, end: high }),
            random_interval(Range { start: low, end: high }),
            random_interval(Range { start: low, end: high }),
        )
    }

    /// A point of the unit ball, by rejection: candidates are drawn from the
    /// cube from -1 to 1 and the first of squared length at most one is
    /// taken. After [`MAX_REJECTIONS`] rejected candidates, an event of
    /// probability below 2^-64, the centre of the ball is given.
    pub fn from_random_in_unit_sphere() -> (r: Vector3)
        ensures
            r.in_unit_ball_spec(),
            r.within(Fixed::saturated(-SCALE), Fixed { raw: SCALE }),
            exists|draws: Seq<Vector3>| #[trigger] r.is_rejection_sample(draws),
    {
        let mut attempt: u32 = 0;
        let ghost mut draws: Seq<Vector3> = Seq::empty();
        while attempt < MAX_REJECTIONS
            invariant
                attempt <= MAX_REJECTIONS,
                draws.len() == attempt,
                forall|i: int|
                    0 <= i < draws.len() ==> (#[trigger] draws[i]).within(
                        Fixed::saturated(-SCALE),
                        Fixed { raw: SCALE },
                    ),
                forall|i: int| 0 <= i < draws.len() ==> !(#[trigger] draws[i]).in_unit_ball_spec(),
            decreases MAX_REJECTIONS - attempt,
        {
            let candidate = Vector3::from_interval_random(
                Range { start: Fixed::from_raw(-SCALE), end: Fixed::one() },
            );
            let ghost rejected = draws;
            proof {
                draws = draws.push(candidate);
                assert(draws.last() == candidate);
                assert forall|i: int| 0 <= i < draws.len() - 1 implies !(#[trigger] draws[i]).in_unit_ball_spec() by {
                    assert(draws[i] == rejected[i]);
                }
            }
            if candidate.in_unit_ball() {
                assert(candidate.is_rejection_sample(draws));
                return candidate;
            }
            attempt += 1;
        }
        let centre = Vector3::zero();
        assert(centre.is_rejection_sample(draws));
        assert(centre.length_square_spec().raw == 0) by {
            let zero = centre.0.raw as int;
            assert(zero * zero == 0) by (nonlinear_arith)
                requires
                    zero == 0,
            ;
            assert(quot(0, SCALE as int) == 0);
        }
        centre
    }

    /// Whether the point lies in the unit ball.
    pub fn in_unit_ball(&self) -> (r: bool)
        ensures
            r == self.in_unit_ball_spec(),
    {
        self.length_square().raw <= SCALE
    }

    /// The point of the cylinder map at azimuth `a` and height `z`.
    pub fn from_cylinder(a: Fixed, z: Fixed) -> (r: Vector3)
        ensures
            r == Vector3::from_cylinder_spec(a, z),
    {
        let radius = match (Fixed::one() - z * z).sqrt() {
            Some(root) => root,
            None => Fixed::zero(),
        };
        Vector3(radius * a.cos(), radius * a.sin(), z)
    }

    /// A direction drawn by the cylinder map: the azimuth uniform over the
    /// full turn, the height uniform from zero (included) to one (excluded).
    pub fn from_random_unit() -> (r: Vector3)
        ensures
            r.is_cylinder_sample(),
    {
        let a = random_interval(Range { start: Fixed::zero(), end: Fixed::from_raw(TWO_PI_RAW) });
        let z = random_interval(Range { start: Fixed::zero(), end: Fixed::one() });
        Vector3::from_cylinder(a, z)
    }

    /// The vector of the images of the three components under `func`.
    pub fn map<F: Fn(Fixed) -> Fixed>(&self, func: F) -> (r: Vector3)
        requires
            func.requires((self.0,)),
            func.requires((self.1,)),
            func.requires((self.2,)),
        ensures
            func.ensures((self.0,), r.0),
            func.ensures((self.1,), r.1),
            func.ensures((self.2,), r.2),
    {
        Vector3(func(self.0), func(self.1), func(self.2))
    }

    /// Refraction of the unit vector `self` at a surface with unit normal
    /// `normal`.
    pub fn refract(&self, normal: Vector3, etai_over_etat: Fixed) -> (r: Option<Vector3>)
        ensures
            r == self.refract_spec(normal, etai_over_etat),
    {
        let cos_theta = self.dot(normal.neg());
        let r_out_parallel = etai_over_etat * (*self + cos_theta * normal);
        match (Fixed::one() - r_out_parallel.length_square()).sqrt() {
            Some(root) => Some(r_out_parallel + root.neg() * normal),
            None => None,
        }
    }

    /// The cosine of the angle between `self` and `other`.
    pub fn cos_of_angle(self, other: Vector3) -> (r: Option<Fixed>)
        ensures
            r == self.cos_of_angle_spec(other),
    {
        match (self.unit(), other.unit()) {
            (Some(a), Some(b)) => Some(a.dot(b)),
            _ => None,
        }
    }

    /// The pixel of the colour: each channel scaled to a byte.
    pub fn into_rgb(self) -> (px: image::Rgb<u8>)
        ensures
            rgb_channels(px) == (channel_byte(self.0), channel_byte(self.1), channel_byte(self.2)),
    {
        rgb8(to_byte(self.0), to_byte(self.1), to_byte(self.2))
    }

    /// The first component.
    pub fn x(&self) -> (r: Fixed)
        ensures
            r == self.0,
    {
        self.0
    }

    /// The second component.
    pub fn y(&self) -> (r: Fixed)
        ensures
            r == self.1,
    {
        self.1
    }

    /// The third component.
    pub fn z(&self) -> (r: Fixed)
        ensures
            r == self.2,
    {
        self.2
    }

    /// The squared length.
    pub fn length_square(&self) -> (r: Fixed)
        ensures
            r == self.length_square_spec(),
    {
        self.0 * self.0 + self.1 * self.1 + self.2 * self.2
    }

    /// The length.
    pub fn length(&self) -> (r: Fixed)
        ensures
            r == self.length_spec(),
    {
        let mx: u128 = magnitude(self.0.raw);
        let my: u128 = magnitude(self.1.raw);
        let mz: u128 = magnitude(self.2.raw);
        assert(mx * mx <= 0x4000_0000_0000_0000_0000_0000_0000_0000) by (nonlinear_arith)
            requires
                mx <= 0x8000_0000_0000_0000,
        ;
        assert(my * my <= 0x4000_0000_0000_0000_0000_0000_0000_0000) by (nonlinear_arith)
            requires
                my <= 0x8000_0000_0000_0000,
        ;
        assert(mz * mz <= 0x4000_0000_0000_0000_0000_0000_0000_0000) by (nonlinear_arith)
            requires
                mz <= 0x8000_0000_0000_0000,
        ;
        let root: u128 = isqrt(mx * mx + my * my + mz * mz);
        if root > i64::MAX as u128 {
            Fixed::max_value()
        } else {
            Fixed { raw: root as i64 }
        }
    }

    /// The inner product.
    pub fn dot(&self, other: Vector3) -> (r: Fixed)
        ensures
            r == self.dot_spec(other),
    {
        self.x() * other.x() + self.y() * other.y() + self.z() * other.z()
    }

    /// The product taken component by component.
    pub fn mul_one_by_one(&self, other: Vector3) -> (r: Vector3)
        ensures
            r == self.mul_one_by_one_spec(other),
    {
        Vector3(self.0 * other.0, self.1 * other.1, self.2 * other.2)
    }

    /// Reflection about the plane with normal `normal`.
    pub fn reflect(&self, normal: Vector3) -> (r: Vector3)
        ensures
            r == self.reflect_spec(normal),
    {
        *self - Fixed::from_int(2) * self.dot(normal) * normal
    }

    /// Normalisation. A vector of length zero has no direction.
    pub fn unit(&self) -> (r: Option<Vector3>)
        ensures
            r == self.unit_spec(),
    {
        *self / self.length()
    }
}

impl Default for Vector3 {
    fn default() -> (r: Vector3)
        ensures
            r == Vector3(Fixed { raw: 0 }, Fixed { raw: 0 }, Fixed { raw: 0 }),
    {
        Vector3::zero()
    }
}

impl core::ops::Add for Vector3 {
    type Output = Vector3;

    fn add(self, o: Vector3) -> (r: Vector3) {
        Vector3(self.0 + o.0, self.1 + o.1, self.2 + o.2)
    }
}

impl vstd::std_specs::ops::AddSpecImpl for Vector3 {
    open spec fn obeys_add_spec() -> bool {
        true
    }

    open spec fn add_req(self, o: Vector3) -> bool {
        true
    }

    open spec fn add_spec(self, o: Vector3) -> Vector3 {
        self.plus(o)
    }
}

impl core::ops::Sub for Vector3 {
    type Output = Vector3;

    fn sub(self, o: Vector3) -> (r: Vector3) {
        Vector3(self.0 - o.0, self.1 - o.1, self.2 - o.2)
    }
}

impl vstd::std_specs::ops::SubSpecImpl for Vector3 {
    open spec fn obeys_sub_spec() -> bool {
        true
    }

    open spec fn sub_req(self, o: Vector3) -> bool {
        true
    }

    open spec fn sub_spec(self, o: Vector3) -> Vector3 {
        self.minus(o)
    }
}

/// Between two vectors `*` is the cross product.
impl core::ops::Mul for Vector3 {
    type Output = Vector3;

    fn mul(self, rhs: Vector3) -> (r: Vector3) {
        Vector3(
            self.1 * rhs.2 - self.2 * rhs.1,
            self.2 * rhs.0 - self.0 * rhs.2,
            self.0 * rhs.1 - self.1 * rhs.0,
        )
    }
}

impl vstd::std_specs::ops::MulSpecImpl for Vector3 {
    open spec fn obeys_mul_spec() -> bool {
        true
    }

    open spec fn mul_req(self, rhs: Vector3) -> bool {
        true
    }

    open spec fn mul_spec(self, rhs: Vector3) -> Vector3 {
        self.cross(rhs)
    }
}

impl core::ops::Mul<Fixed> for Vector3 {
    type Output = Vector3;

    fn mul(self, s: Fixed) -> (r: Vector3) {
        Vector3(self.0 * s, self.1 * s, self.2 * s)
    }
}

impl vstd::std_specs::ops::MulSpecImpl<Fixed> for Vector3 {
    open spec fn obeys_mul_spec() -> bool {
        true
    }

    open spec fn mul_req(self, s: Fixed) -> bool {
        true
    }

    open spec fn mul_spec(self, s: Fixed) -> Vector3 {
        self.scaled(s)
    }
}

impl core::ops::Mul<Vector3> for Fixed {
    type Output = Vector3;

    fn mul(self, v: Vector3) -> (r: Vector3) {
        v * self
    }
}

impl vstd::std_specs::ops::MulSpecImpl<Vector3> for Fixed {
    open spec fn obeys_mul_spec() -> bool {
        true
    }

    open spec fn mul_req(self, v: Vector3) -> bool {
        true
    }

    open spec fn mul_spec(self, v: Vector3) -> Vector3 {
        v.scaled(self)
    }
}

/// Division of every component by `s`; there is no quotient by zero.
impl core::ops::Div<Fixed> for Vector3 {
    type Output = Option<Vector3>;

    fn div(self, s: Fixed) -> (r: Option<Vector3>) {
        match (self.0.div(s), self.1.div(s), self.2.div(s)) {
            (Some(x), Some(y), Some(z)) => Some(Vector3(x, y, z)),
            _ => None,
        }
    }
}

impl vstd::std_specs::ops::DivSpecImpl<Fixed> for Vector3 {
    open spec fn obeys_div_spec() -> bool {
        true
    }

    open spec fn div_req(self, s: Fixed) -> bool {
        true
    }

    open spec fn div_spec(self, s: Fixed) -> Option<Vector3> {
        self.over(s)
    }
}

impl core::ops::Neg for Vector3 {
    type Output = Vector3;

    fn neg(self) -> (r: Vector3) {
        Vector3(self.0.neg(), self.1.neg(), self.2.neg())
    }
}

impl vstd::std_specs::ops::NegSpecImpl for Vector3 {
    open spec fn obeys_neg_spec() -> bool {
        true
    }

    open spec fn neg_req(self) -> bool {
        true
    }

    open spec fn neg_spec(self) -> Vector3 {
        self.negated()
    }
}

/// A pinhole camera: the eye and the rectangle of the image plane through
/// which it looks.
#[derive(Clone, Copy, Debug, PartialEq, Eq, Structural)]
pub struct Camera {
    /// The eye.
    pub origin: Vector3,
    /// The lower left corner of the image rectangle.
    pub low_left_corner: Vector3,
    /// The edge of the rectangle from left to right.
    pub horizontal: Vector3,
    /// The edge of the rectangle from bottom to top.
    pub vertical: Vector3,
}

impl Camera {
    /// The camera at `lookfrom` that looks at `lookat` with `vup` upwards, a
    /// vertical field of view of `vfov` degrees and an image `aspect_ratio`
    /// times as wide as high. With `w = unit(lookfrom - lookat)`,
    /// `u = unit(vup x w)`, `v = w x u`, `hh = tan(vfov / 2)` and
    /// `hw = aspect_ratio * hh`, the corner is `lookfrom - hw u - hh v - w`
    /// and the edges are `2 hw u` and `2 hh v`. There is no camera where the
    /// tangent does not exist, the eye is at the target, or `vup` points
    /// along the line of sight.
    pub open spec fn new_spec(
        lookfrom: Vector3,
        lookat: Vector3,
        vup: Vector3,
        vfov: Fixed,
        aspect_ratio: Fixed,
    ) -> Option<Camera> {
        let two = Fixed::saturated(2 * SCALE);
        let half_angle = deg_to_rad_spec(vfov).div_spec(two).unwrap();
        match (half_angle.tan_spec(), lookfrom.minus(lookat).unit_spec()) {
            (Some(half_height), Some(w)) => match vup.cross(w).unit_spec() {
                Some(u) => {
                    let half_width = aspect_ratio.times(half_height);
                    let v = w.cross(u);
                    Some(
                        Camera {
                            origin: lookfrom,
                            low_left_corner: lookfrom.minus(u.scaled(half_width)).minus(
                                v.scaled(half_height),
                            ).minus(w),
                            horizontal: u.scaled(two.times(half_width)),
                            vertical: v.scaled(two.times(half_height)),
                        },
                    )
                },
                None => None,
            },
            _ => None,
        }
    }

    /// The ray from the eye through the point of the image rectangle at the
    /// fraction `u` of its width and `v` of its height.
    pub open spec fn get_ray_spec(self, u: Fixed, v: Fixed) -> Ray {
        Ray {
            origin: self.origin,
            direction: self.low_left_corner.plus(self.horizontal.scaled(u)).plus(
                self.vertical.scaled(v),
            ).minus(self.origin),
        }
    }

    /// Sets up the camera.
    pub fn new(
        lookfrom: Vector3,
        lookat: Vector3,
        vup: Vector3,
        vfov: Fixed,
        aspect_ratio: Fixed,
    ) -> (res: Option<Camera>)
        ensures
            res == Camera::new_spec(lookfrom, lookat, vup, vfov, aspect_ratio),
    {
        let theta = deg_to_rad(vfov);
        let half_angle = match theta.div(Fixed::from_int(2)) {
            Some(half) => half,
            None => theta,
        };
        let half_height = match half_angle.tan() {
            Some(tangent) => tangent,
            None => {
                return None;
            },
        };
        let half_width = aspect_ratio * half_height;
        let w = match (lookfrom - lookat).unit() {
            Some(w) => w,
            None => {
                return None;
            },
        };
        let u = match (vup * w).unit() {
            Some(u) => u,
            None => {
                return None;
            },
        };
        let v = w * u;
        Some(
            Camera {
                origin: lookfrom,
                low_left_corner: lookfrom - half_width * u - half_height * v - w,
                horizontal: Fixed::from_int(2) * half_width * u,
                vertical: Fixed::from_int(2) * half_height * v,
            },
        )
    }

    /// The ray through the image point at the fractions `u` and `v`.
    pub fn get_ray(&self, u: Fixed, v: Fixed) -> (r: Ray)
        ensures
            r == self.get_ray_spec(u, v),
    {
        Ray::new(
            self.origin,
            self.low_left_corner + u * self.horizontal + v * self.vertical - self.origin,
        )
    }
}

} // verus!
