//! Sine, cosine and tangent of [`Fixed`] angles in radians.
//!
//! An angle is reduced to the first quarter turn by the symmetries of the
//! circle; there the two functions are the Taylor polynomials of degree
//! thirteen and twelve, evaluated from the innermost term outwards and cut to
//! the interval from zero to one.

use crate::fixed::{Fixed, SCALE};
use vstd::prelude::*;

verus! {

/// The raw count of pi.
pub const PI_RAW: i64 = 3_141_593;

/// The raw count of a full turn.
pub const TWO_PI_RAW: i64 = 6_283_185;

/// One Horner step of an alternating series, `1 - (x2 * inner) / k`, on raw
/// counts.
pub open spec fn series_step(x2: int, k: int, inner: int) -> int {
    1_000_000 - ((x2 * inner) / 1_000_000) / k
}

/// The raw count of the square of the raw count `x`.
pub open spec fn raw_square(x: int) -> int {
    (x * x) / 1_000_000
}

/// `v` cut to the raw counts of the interval from zero to one.
pub open spec fn unit_clip(v: int) -> int {
    if v < 0 {
        0
    } else if v > 1_000_000 {
        1_000_000
    } else {
        v
    }
}

/// The sine of the raw angle `x` of the first quarter turn:
/// `x (1 - x^2/6 (1 - x^2/20 (1 - x^2/42 (1 - x^2/72 (1 - x^2/110 (1 - x^2/156))))))`.
pub open spec fn sin_quarter(x: int) -> int {
    let x2 = raw_square(x);
    let inner = series_step(
        x2,
        6,
        series_step(
            x2,
            20,
            series_step(x2, 42, series_step(x2, 72, series_step(x2, 110, series_step(x2, 156, 1_000_000)))),
        ),
    );
    unit_clip((x * inner) / 1_000_000)
}

/// The cosine of the raw angle `x` of the first quarter turn:
/// `1 - x^2/2 (1 - x^2/12 (1 - x^2/30 (1 - x^2/56 (1 - x^2/90 (1 - x^2/132)))))`.
pub open spec fn cos_quarter(x: int) -> int {
    let x2 = raw_square(x);
    unit_clip(
        series_step(
            x2,
            2,
            series_step(
                x2,
                12,
                series_step(x2, 30, series_step(x2, 56, series_step(x2, 90, series_step(x2, 132, 1_000_000)))),
            ),
        ),
    )
}

/// The quarter turn, counted from zero, in which the reduced raw angle `m`
/// lies; the last raw count of the full turn belongs to the first.
pub open spec fn quadrant(m: int) -> int {
    (m / 1_570_796) % 4
}

/// The sine of the raw angle `a`.
pub open spec fn sin_raw(a: int) -> int {
    let m = (if a < 0 {
        -a
    } else {
        a
    }) % 6_283_185;
    let x = m % 1_570_796;
    let q = quadrant(m);
    let s = if q == 0 {
        sin_quarter(x)
    } else if q == 1 {
        cos_quarter(x)
    } else if q == 2 {
        -sin_quarter(x)
    } else {
        -cos_quarter(x)
    };
    if a < 0 {
        -s
    } else {
        s
    }
}

/// The cosine of the raw angle `a`.
pub open spec fn cos_raw(a: int) -> int {
    let m = (if a < 0 {
        -a
    } else {
        a
    }) % 6_283_185;
    let x = m % 1_570_796;
    let q = quadrant(m);
    if q == 0 {
        cos_quarter(x)
    } else if q == 1 {
        -sin_quarter(x)
    } else if q == 2 {
        -cos_quarter(x)
    } else {
        sin_quarter(x)
    }
}

/// At the angle zero the sine is zero and the cosine is one.
pub proof fn lemma_trig_at_zero()
    ensures
        (Fixed { raw: 0 }).sin_spec() == (Fixed { raw: 0 }),
        (Fixed { raw: 0 }).cos_spec() == (Fixed { raw: SCALE }),
        (Fixed { raw: 0 }).tan_spec() == Some(Fixed { raw: 0 }),
{
    assert(raw_square(0) == 0);
    assert(series_step(0, 156, 1_000_000) == 1_000_000);
    assert(series_step(0, 110, 1_000_000) == 1_000_000);
    assert(series_step(0, 72, 1_000_000) == 1_000_000);
    assert(series_step(0, 42, 1_000_000) == 1_000_000);
    assert(series_step(0, 20, 1_000_000) == 1_000_000);
    assert(series_step(0, 6, 1_000_000) == 1_000_000);
    assert(series_step(0, 132, 1_000_000) == 1_000_000);
    assert(series_step(0, 90, 1_000_000) == 1_000_000);
    assert(series_step(0, 56, 1_000_000) == 1_000_000);
    assert(series_step(0, 30, 1_000_000) == 1_000_000);
    assert(series_step(0, 12, 1_000_000) == 1_000_000);
    assert(series_step(0, 2, 1_000_000) == 1_000_000);
    assert(sin_quarter(0) == 0);
    assert(cos_quarter(0) == 1_000_000);
    assert(sin_raw(0) == 0);
    assert(cos_raw(0) == 1_000_000);
    assert(0int * SCALE == 0);
    assert(crate::fixed::quot(0, 1_000_000) == 0);
}

/// The sine and the cosine lie between minus one and one.
pub proof fn lemma_trig_range(a: int)
    ensures
        -1_000_000 <= sin_raw(a) <= 1_000_000,
        -1_000_000 <= cos_raw(a) <= 1_000_000,
{
}

/// The sine is odd and the cosine is even: `sin(-a) = -sin(a)` and
/// `cos(-a) = cos(a)`.
pub proof fn lemma_trig_symmetry(a: Fixed)
    requires
        a.raw > i64::MIN,
    ensures
        a.negated().sin_spec() == a.sin_spec().negated(),
        a.negated().cos_spec() == a.cos_spec(),
{
    let x = a.raw as int;
    lemma_trig_range(x);
    lemma_trig_range(-x);
    assert(a.negated().raw == -x);
    if x == 0 {
        lemma_trig_at_zero();
    }
    assert(sin_raw(-x) == -sin_raw(x));
    assert(cos_raw(-x) == cos_raw(x));
}

/// At the raw count of a quarter of pi the sine and the cosine agree, so
/// the tangent is exactly one.
pub proof fn lemma_tan_of_quarter_pi()
    ensures
        (Fixed { raw: 785_398 }).sin_spec() == (Fixed { raw: 707_107 }),
        (Fixed { raw: 785_398 }).cos_spec() == (Fixed { raw: 707_107 }),
        (Fixed { raw: 785_398 }).tan_spec() == Some(Fixed { raw: SCALE }),
{
    assert(785_398int * 785_398 == 616_850_018_404) by (nonlinear_arith);
    assert(raw_square(785_398) == 616_850);
    let x2 = 616_850int;
    assert(x2 * 1_000_000 == 616_850_000_000) by (nonlinear_arith)
        requires
            x2 == 616_850,
    ;
    assert(series_step(x2, 156, 1_000_000) == 996_046);
    assert(x2 * 996_046 == 614_410_975_100) by (nonlinear_arith)
        requires
            x2 == 616_850,
    ;
    assert(series_step(x2, 110, 996_046) == 994_415);
    assert(x2 * 994_415 == 613_404_892_750) by (nonlinear_arith)
        requires
            x2 == 616_850,
    ;
    assert(series_step(x2, 72, 994_415) == 991_481);
    assert(x2 * 991_481 == 611_595_054_850) by (nonlinear_arith)
        requires
            x2 == 616_850,
    ;
    assert(series_step(x2, 42, 991_481) == 985_439);
    assert(x2 * 985_439 == 607_868_047_150) by (nonlinear_arith)
        requires
            x2 == 616_850,
    ;
    assert(series_step(x2, 20, 985_439) == 969_607);
    assert(x2 * 969_607 == 598_102_077_950) by (nonlinear_arith)
        requires
            x2 == 616_850,
    ;
    assert(series_step(x2, 6, 969_607) == 900_317);
    assert(785_398int * 900_317 == 707_107_171_166) by (nonlinear_arith);
    assert(sin_quarter(785_398) == 707_107);
    assert(series_step(x2, 132, 1_000_000) == 995_327);
    assert(x2 * 995_327 == 613_967_459_950) by (nonlinear_arith)
        requires
            x2 == 616_850,
    ;
    assert(series_step(x2, 90, 995_327) == 993_179);
    assert(x2 * 993_179 == 612_642_466_150) by (nonlinear_arith)
        requires
            x2 == 616_850,
    ;
    assert(series_step(x2, 56, 993_179) == 989_060);
    assert(x2 * 989_060 == 610_101_661_000) by (nonlinear_arith)
        requires
            x2 == 616_850,
    ;
    assert(series_step(x2, 30, 989_060) == 979_664);
    assert(x2 * 979_664 == 604_305_738_400) by (nonlinear_arith)
        requires
            x2 == 616_850,
    ;
    assert(series_step(x2, 12, 979_664) == 949_642);
    assert(x2 * 949_642 == 585_786_667_700) by (nonlinear_arith)
        requires
            x2 == 616_850,
    ;
    assert(series_step(x2, 2, 949_642) == 707_107);
    assert(cos_quarter(785_398) == 707_107);
    assert(sin_raw(785_398) == 707_107);
    assert(cos_raw(785_398) == 707_107);
    assert(707_107int * SCALE == 707_107_000_000);
    assert(crate::fixed::quot(707_107_000_000, 707_107) == 1_000_000);
}

/// One Horner step on raw counts.
fn step(x2: i64, k: i64, inner: i64) -> (r: i64)
    requires
        0 <= x2 <= 2_500_000,
        2 <= k <= 156,
        0 <= inner <= 1_000_000,
    ensures
        r == series_step(x2 as int, k as int, inner as int),
        1_000_000 - x2 / k <= r <= 1_000_000,
{
    assert(0 <= x2 * inner <= x2 * 1_000_000 && x2 * 1_000_000 <= 2_500_000 * 1_000_000)
        by (nonlinear_arith)
        requires
            0 <= x2 <= 2_500_000,
            0 <= inner <= 1_000_000,
    ;
    let scaled: i64 = (x2 * inner) / 1_000_000;
    assert(0 <= scaled <= x2);
    let term: i64 = scaled / k;
    assert(0 <= term <= x2 / k) by (nonlinear_arith)
        requires
            0 <= scaled <= x2,
            term == scaled / k,
            k >= 2,
    ;
    1_000_000 - term
}

/// The square of a raw angle of the first quarter turn.
fn square(x: i64) -> (r: i64)
    requires
        0 <= x <= 1_570_796,
    ensures
        r == raw_square(x as int),
        0 <= r <= 2_500_000,
{
    assert(0 <= x * x <= 1_570_796 * 1_570_796) by (nonlinear_arith)
        requires
            0 <= x <= 1_570_796,
    ;
    (x * x) / 1_000_000
}

/// Cuts a raw count to the interval from zero to one.
fn clip(v: i64) -> (r: i64)
    ensures
        r == unit_clip(v as int),
        0 <= r <= 1_000_000,
{
    if v < 0 {
        0
    } else if v > 1_000_000 {
        1_000_000
    } else {
        v
    }
}

/// The sine on the first quarter turn.
fn sin_first_quarter(x: i64) -> (r: i64)
    requires
        0 <= x <= 1_570_796,
    ensures
        r == sin_quarter(x as int),
        0 <= r <= 1_000_000,
{
    let x2 = square(x);
    let t6 = step(x2, 156, 1_000_000);
    let t5 = step(x2, 110, t6);
    let t4 = step(x2, 72, t5);
    let t3 = step(x2, 42, t4);
    let t2 = step(x2, 20, t3);
    let t1 = step(x2, 6, t2);
    assert(0 <= x * t1 <= 1_570_796 * 1_000_000) by (nonlinear_arith)
        requires
            0 <= x <= 1_570_796,
            0 <= t1 <= 1_000_000,
    ;
    clip((x * t1) / 1_000_000)
}

/// The cosine on the first quarter turn.
fn cos_first_quarter(x: i64) -> (r: i64)
    requires
        0 <= x <= 1_570_796,
    ensures
        r == cos_quarter(x as int),
        0 <= r <= 1_000_000,
{
    let x2 = square(x);
    let t6 = step(x2, 132, 1_000_000);
    let t5 = step(x2, 90, t6);
    let t4 = step(x2, 56, t5);
    let t3 = step(x2, 30, t4);
    let t2 = step(x2, 12, t3);
    clip(step_signed(x2, t2))
}

/// The outermost step of the cosine, `1 - (x2 * inner) / 2`, which may fall
/// below zero.
fn step_signed(x2: i64, inner: i64) -> (r: i64)
    requires
        0 <= x2 <= 2_500_000,
        0 <= inner <= 1_000_000,
    ensures
        r == series_step(x2 as int, 2, inner as int),
{
    assert(0 <= x2 * inner <= 2_500_000 * 1_000_000) by (nonlinear_arith)
        requires
            0 <= x2 <= 2_500_000,
            0 <= inner <= 1_000_000,
    ;
    1_000_000 - ((x2 * inner) / 1_000_000) / 2
}

/// The magnitude of a raw angle reduced to one full turn.
fn reduce(a: i64) -> (m: i64)
    ensures
        m == (if a < 0 {
            -(a as int)
        } else {
            a as int
        }) % 6_283_185,
        0 <= m < 6_283_185,
{
    let magnitude: u64 = if a < 0 {
        (-(a as i128)) as u64
    } else {
        a as u64
    };
    (magnitude % 6_283_185) as i64
}

impl Fixed {
    /// The sine of `self` radians.
    pub open spec fn sin_spec(self) -> Fixed {
        Fixed { raw: sin_raw(self.raw as int) as i64 }
    }

    /// The cosine of `self` radians.
    pub open spec fn cos_spec(self) -> Fixed {
        Fixed { raw: cos_raw(self.raw as int) as i64 }
    }

    /// The tangent of `self` radians; there is none where the cosine is zero.
    pub open spec fn tan_spec(self) -> Option<Fixed> {
        self.sin_spec().div_spec(self.cos_spec())
    }

    /// The sine of `self` radians.
    pub fn sin(self) -> (r: Fixed)
        ensures
            r == self.sin_spec(),
            -SCALE <= r.raw <= SCALE,
    {
        let m = reduce(self.raw);
        let x = m % 1_570_796;
        let q = (m / 1_570_796) % 4;
        let s = if q == 0 {
            sin_first_quarter(x)
        } else if q == 1 {
            cos_first_quarter(x)
        } else if q == 2 {
            -sin_first_quarter(x)
        } else {
            -cos_first_quarter(x)
        };
        if self.raw < 0 {
            Fixed { raw: -s }
        } else {
            Fixed { raw: s }
        }
    }

    /// The cosine of `self` radians.
    pub fn cos(self) -> (r: Fixed)
        ensures
            r == self.cos_spec(),
            -SCALE <= r.raw <= SCALE,
    {
        let m = reduce(self.raw);
        let x = m % 1_570_796;
        let q = (m / 1_570_796) % 4;
        if q == 0 {
            Fixed { raw: cos_first_quarter(x) }
        } else if q == 1 {
            Fixed { raw: -sin_first_quarter(x) }
        } else if q == 2 {
            Fixed { raw: -cos_first_quarter(x) }
        } else {
            Fixed { raw: sin_first_quarter(x) }
        }
    }

    /// The tangent of `self` radians. Where the cosine is zero there is none.
    pub fn tan(self) -> (r: Option<Fixed>)
        ensures
            r == self.tan_spec(),
    {
        self.sin().div(self.cos())
    }
}

} // verus!
