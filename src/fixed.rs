//! Fixed-point scalars and vectors.
//!
//! Coordinates are integers counting `1 / UNIT` of a world unit. Every stored
//! coordinate lies within `[-COORD_LIMIT, COORD_LIMIT]`; a computed position that
//! would leave that range saturates at its edge. Dimensionless factors (a time
//! step, a damping factor, a restitution, a mass) are exact ratios of integers.
use vstd::arithmetic::div_mod::{lemma_fundamental_div_mod, lemma_fundamental_div_mod_converse};
use vstd::prelude::*;

verus! {

/// Fixed-point units in one world unit.
pub const UNIT: i64 = 1024;

/// Largest magnitude of a stored coordinate (2^30).
pub const COORD_LIMIT: i64 = 1073741824;

/// Largest magnitude of the numerator and of the denominator of a `Ratio` (2^24).
pub const RATIO_LIMIT: i64 = 16777216;

/// A coordinate that can be stored.
pub open spec fn in_range(v: int) -> bool {
    -COORD_LIMIT <= v <= COORD_LIMIT
}

/// `v` saturated to the storable range.
pub open spec fn sat(v: int) -> int {
    if v < -COORD_LIMIT {
        -COORD_LIMIT as int
    } else if v > COORD_LIMIT {
        COORD_LIMIT as int
    } else {
        v
    }
}

pub open spec fn clamp_int(v: int, lo: int, hi: int) -> int {
    if v < lo {
        lo
    } else if v > hi {
        hi
    } else {
        v
    }
}

pub open spec fn sgn(v: int) -> int {
    if v > 0 {
        1
    } else if v < 0 {
        -1
    } else {
        0
    }
}

pub open spec fn abs(v: int) -> int {
    if v < 0 {
        -v
    } else {
        v
    }
}

/// Division rounding toward zero (`b > 0`).
pub open spec fn trunc_div(a: int, b: int) -> int {
    if a >= 0 {
        a / b
    } else {
        -((-a) / b)
    }
}

/// `r` is the integer square root of `n`, rounded down.
pub open spec fn is_sqrt(n: int, r: int) -> bool {
    0 <= r && r * r <= n && n < (r + 1) * (r + 1)
}

/// The integer square root of `n`, rounded down.
pub open spec fn sqrt_floor(n: int) -> int {
    choose|r: int| is_sqrt(n, r)
}

/// A 2D vector of fixed-point coordinates.
#[derive(Clone, Copy, PartialEq, Eq, Debug, Structural)]
pub struct Vec2 {
    pub x: i64,
    pub y: i64,
}

/// An exact ratio `num / den` of integers, `den > 0`.
#[derive(Clone, Copy, PartialEq, Eq, Debug, Structural)]
pub struct Ratio {
    pub num: i64,
    pub den: i64,
}

/// `v * r`, rounded down.
pub open spec fn scale(v: int, r: Ratio) -> int {
    (v * r.num) / (r.den as int)
}

/// The vector along `(dx, dy)` whose length is `|m| / k` (see `along_comp`).
pub open spec fn along(dx: int, dy: int, m: int, k: int) -> (int, int) {
    let d2 = dx * dx + dy * dy;
    (along_comp(dx, d2, m, k), along_comp(dy, d2, m, k))
}

/// One component of the vector along `d` (with `|d|^2 == d2`) whose length is
/// `|m| / k`, pointing with `d` when `m > 0` and against it when `m < 0`. The
/// component's square is rounded down twice: `floor(sqrt(floor(di^2 m^2 / (d2 k^2))))`.
pub open spec fn along_comp(di: int, d2: int, m: int, k: int) -> int {
    let s = sqrt_floor((di * di * (m * m)) / (d2 * (k * k)));
    if di == 0 || m == 0 {
        0
    } else if (di > 0) == (m > 0) {
        s
    } else {
        -s
    }
}

impl Vec2 {
    /// Both coordinates can be stored.
    pub open spec fn wf(self) -> bool {
        in_range(self.x as int) && in_range(self.y as int)
    }

    pub fn new(x: i64, y: i64) -> (r: Vec2)
        ensures
            r.x == x,
            r.y == y,
    {
        Vec2 { x, y }
    }

    pub fn zero() -> (r: Vec2)
        ensures
            r.x == 0,
            r.y == 0,
    {
        Vec2 { x: 0, y: 0 }
    }
}

impl Ratio {
    pub open spec fn wf(self) -> bool {
        0 < self.den <= RATIO_LIMIT && -RATIO_LIMIT <= self.num <= RATIO_LIMIT
    }

    pub fn new(num: i64, den: i64) -> (r: Ratio)
        requires
            0 < den <= RATIO_LIMIT,
            -RATIO_LIMIT <= num <= RATIO_LIMIT,
        ensures
            r.num == num,
            r.den == den,
            r.wf(),
    {
        Ratio { num, den }
    }

    pub fn one() -> (r: Ratio)
        ensures
            r.num == 1,
            r.den == 1,
            r.wf(),
    {
        Ratio { num: 1, den: 1 }
    }
}

pub proof fn lemma_sqrt_unique(n: int, r1: int, r2: int)
    requires
        is_sqrt(n, r1),
        is_sqrt(n, r2),
    ensures
        r1 == r2,
{
    if r1 < r2 {
        assert((r1 + 1) * (r1 + 1) <= r2 * r2) by (nonlinear_arith)
            requires
                0 <= r1 + 1 <= r2,
        ;
    } else if r2 < r1 {
        assert((r2 + 1) * (r2 + 1) <= r1 * r1) by (nonlinear_arith)
            requires
                0 <= r2 + 1 <= r1,
        ;
    }
}

pub proof fn lemma_sqrt_floor(n: int, r: int)
    requires
        is_sqrt(n, r),
    ensures
        sqrt_floor(n) == r,
{
    let s = sqrt_floor(n);
    assert(is_sqrt(n, s));
    lemma_sqrt_unique(n, r, s);
}

/// Every non-negative integer has an integer square root.
pub proof fn lemma_sqrt_exists(n: int)
    requires
        n >= 0,
    ensures
        is_sqrt(n, sqrt_floor(n)),
    decreases n,
{
    if n == 0 {
        assert(is_sqrt(0, 0));
    } else {
        lemma_sqrt_exists(n - 1);
        let r = sqrt_floor(n - 1);
        if n < (r + 1) * (r + 1) {
            assert(is_sqrt(n, r));
        } else {
            assert((r + 1) * (r + 1) < (r + 2) * (r + 2)) by (nonlinear_arith)
                requires
                    r >= 0,
            ;
            assert(is_sqrt(n, r + 1));
        }
    }
}

/// The square root of a value in `[0, m^2]` lies in `[0, |m|]`.
pub proof fn lemma_sqrt_le(n: int, s: int, m: int)
    requires
        0 <= n <= m * m,
        is_sqrt(n, s),
    ensures
        0 <= s <= abs(m),
{
    let a = abs(m);
    assert(a * a == m * m) by (nonlinear_arith)
        requires
            a == abs(m),
    ;
    if s > a {
        assert(s * s > a * a) by (nonlinear_arith)
            requires
                s > a >= 0,
        ;
    }
}

/// `a <= b * q` with `b > 0` bounds the quotient `a / b` by `q`.
pub proof fn lemma_div_le(a: int, b: int, q: int)
    requires
        b > 0,
        0 <= a <= b * q,
    ensures
        0 <= a / b <= q,
{
    lemma_fundamental_div_mod(a, b);
    let d = a / b;
    let r = a % b;
    assert(0 <= r < b);
    assert(0 <= d <= q) by (nonlinear_arith)
        requires
            a == b * d + r,
            0 <= r < b,
            0 <= a <= b * q,
            b > 0,
    ;
}

/// A quotient by a positive divisor is no larger in magnitude than the dividend.
pub proof fn lemma_div_abs_le(a: int, b: int)
    requires
        b > 0,
    ensures
        abs(a / b) <= abs(a),
{
    lemma_fundamental_div_mod(a, b);
    let q = a / b;
    let r = a % b;
    assert(abs(q) <= abs(a)) by (nonlinear_arith)
        requires
            a == b * q + r,
            0 <= r < b,
    ;
}

/// `v * r` is at most `RATIO_LIMIT` times larger than `v`.
pub proof fn lemma_scale_bound(v: int, r: Ratio)
    requires
        r.wf(),
    ensures
        abs(scale(v, r)) <= abs(v) * RATIO_LIMIT,
{
    assert(abs(v * r.num) <= abs(v) * RATIO_LIMIT) by (nonlinear_arith)
        requires
            abs(r.num as int) <= RATIO_LIMIT,
    ;
    lemma_div_abs_le(v * r.num, r.den as int);
}

/// `v` saturated to the storable range.
pub fn sat_coord(v: i128) -> (r: i64)
    ensures
        r == sat(v as int),
        in_range(r as int),
{
    if v < -(COORD_LIMIT as i128) {
        -COORD_LIMIT
    } else if v > COORD_LIMIT as i128 {
        COORD_LIMIT
    } else {
        v as i64
    }
}

/// `a / b` rounded down.
pub fn floor_div(a: i128, b: i128) -> (q: i128)
    requires
        b > 0,
        a > i128::MIN,
    ensures
        q == a / b,
{
    if a >= 0 {
        let q = (a as u128 / b as u128) as i128;
        q
    } else {
        let na = (-a) as u128;
        let bb = b as u128;
        let q0 = na / bb;
        let r0 = na % bb;
        proof {
            lemma_fundamental_div_mod(na as int, bb as int);
        }
        assert(na == bb * q0 + r0);
        if r0 == 0 {
            proof {
                assert(a == (-(q0 as int)) * b + 0) by (nonlinear_arith)
                    requires
                        na == bb * q0 + r0,
                        r0 == 0,
                        na == -a,
                        bb == b,
                ;
                lemma_fundamental_div_mod_converse(a as int, b as int, -(q0 as int), 0);
            }
            -(q0 as i128)
        } else {
            proof {
                assert(a == (-(q0 as int) - 1) * b + (b - r0)) by (nonlinear_arith)
                    requires
                        na == bb * q0 + r0,
                        na == -a,
                        bb == b,
                ;
                lemma_fundamental_div_mod_converse(
                    a as int,
                    b as int,
                    -(q0 as int) - 1,
                    b - r0,
                );
            }
            -(q0 as i128) - 1
        }
    }
}

/// `a / b` rounded toward zero.
pub fn trunc_div_exec(a: i128, b: i128) -> (q: i128)
    requires
        b > 0,
        a > i128::MIN,
    ensures
        q == trunc_div(a as int, b as int),
{
    if a >= 0 {
        (a as u128 / b as u128) as i128
    } else {
        -(((-a) as u128 / b as u128) as i128)
    }
}

/// The integer square root of `n`, rounded down.
pub fn isqrt(n: u128) -> (r: u128)
    requires
        n < 0x4000_0000_0000_0000_0000_0000_0000_0000u128,
    ensures
        is_sqrt(n as int, r as int),
        r == sqrt_floor(n as int),
{
    let mut lo: u128 = 0;
    let mut hi: u128 = 0x8000_0000_0000_0001u128;
    assert(0x4000_0000_0000_0000_0000_0000_0000_0000int < 0x8000_0000_0000_0001int
        * 0x8000_0000_0000_0001int);
    while hi - lo > 1
        invariant
            lo < hi <= 0x8000_0000_0000_0001u128,
            lo * lo <= n,
            n < hi * hi,
        decreases hi - lo,
    {
        let mid = lo + (hi - lo) / 2;
        assert(mid * mid <= 0x4000_0000_0000_0000_0000_0000_0000_0000int) by (nonlinear_arith)
            requires
                0 <= mid <= 0x8000_0000_0000_0000int,
        ;
        if mid * mid <= n {
            lo = mid;
        } else {
            hi = mid;
        }
    }
    assert(is_sqrt(n as int, lo as int));
    proof {
        lemma_sqrt_floor(n as int, lo as int);
    }
    lo
}

/// `v * r`, rounded down.
pub fn scale_by(v: i128, r: Ratio) -> (out: i128)
    requires
        r.wf(),
        -0x1_0000_0000_0000_0000_0000i128 <= v <= 0x1_0000_0000_0000_0000_0000i128,
    ensures
        out == scale(v as int, r),
{
    assert(abs(v * r.num) <= 0x1_0000_0000_0000_0000_0000int * RATIO_LIMIT) by (nonlinear_arith)
        requires
            abs(v as int) <= 0x1_0000_0000_0000_0000_0000int,
            abs(r.num as int) <= RATIO_LIMIT,
    ;
    let p = v * r.num as i128;
    floor_div(p, r.den as i128)
}

/// The rounded square of a component of `along` brackets the exact one:
/// `c^2 d2 k^2 <= di^2 m^2 < (|c| + 1)^2 d2 k^2`.
pub proof fn lemma_along_comp(di: int, d2: int, m: int, k: int)
    requires
        d2 > 0,
        k > 0,
    ensures
        ({
            let c = abs(along_comp(di, d2, m, k));
            &&& c * c * (d2 * (k * k)) <= di * di * (m * m)
            &&& di * di * (m * m) < (c + 1) * (c + 1) * (d2 * (k * k))
        }),
        m > 0 ==> sgn(along_comp(di, d2, m, k)) == 0 || sgn(along_comp(di, d2, m, k)) == sgn(di),
        m < 0 ==> sgn(along_comp(di, d2, m, k)) == 0 || sgn(along_comp(di, d2, m, k)) == -sgn(di),
{
    let num = di * di * (m * m);
    let den = d2 * (k * k);
    assert(num >= 0 && den > 0) by (nonlinear_arith)
        requires
            d2 > 0,
            k > 0,
            num == di * di * (m * m),
            den == d2 * (k * k),
    ;
    let t = num / den;
    lemma_fundamental_div_mod(num, den);
    lemma_div_abs_le(num, den);
    lemma_sqrt_exists(t);
    let s = sqrt_floor(t);
    assert(s * s * den <= num && num < (s + 1) * (s + 1) * den) by (nonlinear_arith)
        requires
            num == den * t + num % den,
            0 <= num % den < den,
            s * s <= t,
            t < (s + 1) * (s + 1),
            den > 0,
    ;
    let c = along_comp(di, d2, m, k);
    if di == 0 || m == 0 {
        assert(num == 0) by (nonlinear_arith)
            requires
                di == 0 || m == 0,
                num == di * di * (m * m),
        ;
        assert(s * s * den <= 0);
        assert(s == 0) by (nonlinear_arith)
            requires
                s * s * den <= 0,
                s >= 0,
                den > 0,
        ;
    }
    assert(abs(c) == s);
}

/// A vector built by `along` has length at most `|m| / k`, and exceeds it by
/// less than one unit along each axis:
/// `(cx^2 + cy^2) k^2 <= m^2 < ((|cx| + 1)^2 + (|cy| + 1)^2) k^2`.
pub proof fn lemma_along(dx: int, dy: int, m: int, k: int)
    requires
        dx * dx + dy * dy > 0,
        k > 0,
    ensures
        ({
            let (cx, cy) = along(dx, dy, m, k);
            &&& (cx * cx + cy * cy) * (k * k) <= m * m
            &&& m * m < ((abs(cx) + 1) * (abs(cx) + 1) + (abs(cy) + 1) * (abs(cy) + 1)) * (k * k)
        }),
{
    let d2 = dx * dx + dy * dy;
    lemma_along_comp(dx, d2, m, k);
    lemma_along_comp(dy, d2, m, k);
    let (cx, cy) = along(dx, dy, m, k);
    let ax = abs(cx);
    let ay = abs(cy);
    assert(ax * ax == cx * cx && ay * ay == cy * cy) by (nonlinear_arith)
        requires
            ax == abs(cx),
            ay == abs(cy),
    ;
    let xx = dx * dx;
    let yy = dy * dy;
    let mm = m * m;
    let kk = k * k;
    let p = (ax + 1) * (ax + 1);
    let q = (ay + 1) * (ay + 1);
    let u = ax * ax;
    let w = ay * ay;
    assert((u + w) * (d2 * kk) <= (xx + yy) * mm) by (nonlinear_arith)
        requires
            u * (d2 * kk) <= xx * mm,
            w * (d2 * kk) <= yy * mm,
    ;
    assert((u + w) * kk <= mm) by (nonlinear_arith)
        requires
            (u + w) * (d2 * kk) <= d2 * mm,
            d2 > 0,
    ;
    assert((xx + yy) * mm < (p + q) * (d2 * kk)) by (nonlinear_arith)
        requires
            xx * mm < p * (d2 * kk),
            yy * mm < q * (d2 * kk),
    ;
    assert(mm < (p + q) * kk) by (nonlinear_arith)
        requires
            d2 * mm < (p + q) * (d2 * kk),
            d2 > 0,
    ;
}

/// One component of `along`: `di` is the component of `d`, `d2 == |d|^2`.
fn along_component(di: i64, d2: u128, m: i64, k: i64) -> (c: i64)
    requires
        -0x8000_0000 <= di <= 0x8000_0000,
        di * di <= d2 <= 0x8000_0000_0000_0000,
        d2 > 0,
        -0x1_0000_0000 <= m <= 0x1_0000_0000,
        1 <= k <= 2,
    ensures
        c == along_comp(di as int, d2 as int, m as int, k as int),
        abs(c as int) <= abs(m as int),
{
    let a: u128 = if di < 0 { (-(di as i128)) as u128 } else { di as u128 };
    let am: u128 = if m < 0 { (-(m as i128)) as u128 } else { m as u128 };
    assert(a * a <= 0x4000_0000_0000_0000int && am * am <= 0x1_0000_0000_0000_0000int)
        by (nonlinear_arith)
        requires
            a <= 0x8000_0000,
            am <= 0x1_0000_0000,
    ;
    let aa = a * a;
    let mm = am * am;
    assert(aa * mm <= 0x4000_0000_0000_0000_0000_0000_0000_0000int) by (nonlinear_arith)
        requires
            aa <= 0x4000_0000_0000_0000int,
            mm <= 0x1_0000_0000_0000_0000int,
    ;
    let num = aa * mm;
    let kk: u128 = if k == 1 { 1 } else { 4 };
    assert(kk == k * k);
    let den = d2 * kk;
    assert(aa == di * di && mm == m * m) by (nonlinear_arith)
        requires
            a == abs(di as int),
            am == abs(m as int),
            aa == a * a,
            mm == am * am,
    ;
    assert(num <= den * mm) by (nonlinear_arith)
        requires
            num == aa * mm,
            aa <= d2,
            den == d2 * kk,
            kk >= 1,
            mm >= 0,
    ;
    proof {
        lemma_div_le(num as int, den as int, mm as int);
    }
    let t = num / den;
    let s = isqrt(t);
    proof {
        lemma_sqrt_le(t as int, s as int, am as int);
    }
    assert(num == di * di * (m * m));
    assert(den == d2 * (k * k));
    assert(t == (di * di * (m * m)) / (d2 * (k * k)));
    if di == 0 || m == 0 {
        assert(num == 0) by (nonlinear_arith)
            requires
                num == aa * mm,
                aa == di * di,
                mm == m * m,
                di == 0 || m == 0,
        ;
        assert(s == 0) by (nonlinear_arith)
            requires
                s * s <= t,
                t == 0,
        ;
    }
    if (di < 0) != (m < 0) {
        -(s as i64)
    } else {
        s as i64
    }
}

/// The vector along `(dx, dy)` whose length is `|m| / k`; `(dx, dy)` must not be zero.
pub fn along_exec(dx: i64, dy: i64, m: i64, k: i64) -> (r: (i64, i64))
    requires
        -0x8000_0000 <= dx <= 0x8000_0000,
        -0x8000_0000 <= dy <= 0x8000_0000,
        dx != 0 || dy != 0,
        -0x1_0000_0000 <= m <= 0x1_0000_0000,
        1 <= k <= 2,
    ensures
        (r.0 as int, r.1 as int) == along(dx as int, dy as int, m as int, k as int),
        abs(r.0 as int) <= abs(m as int),
        abs(r.1 as int) <= abs(m as int),
{
    let ghost gx = dx as int;
    let ghost gy = dy as int;
    assert(0 <= gx * gx <= 0x4000_0000_0000_0000 && 0 <= gy * gy <= 0x4000_0000_0000_0000)
        by (nonlinear_arith)
        requires
            -0x8000_0000 <= gx <= 0x8000_0000,
            -0x8000_0000 <= gy <= 0x8000_0000,
    ;
    assert(gx * gx + gy * gy > 0) by (nonlinear_arith)
        requires
            gx != 0 || gy != 0,
    ;
    let d2 = (dx as i128 * dx as i128 + dy as i128 * dy as i128) as u128;
    let cx = along_component(dx, d2, m, k);
    let cy = along_component(dy, d2, m, k);
    (cx, cy)
}

/// The integer square root of `n`, rounded up.
pub open spec fn sqrt_ceil(n: int) -> int {
    let s = sqrt_floor(n);
    if s * s == n {
        s
    } else {
        s + 1
    }
}

/// One component of the vector along `d` (with `|d|^2 == d2`) whose length is
/// `m >= 0`, with the component's magnitude rounded up twice:
/// `ceil(sqrt(ceil(di^2 m^2 / d2)))`, so that the vector is at least `m` long.
pub open spec fn along_out_comp(di: int, d2: int, m: int) -> int {
    let s = sqrt_ceil((di * di * (m * m) + d2 - 1) / d2);
    if di == 0 {
        0
    } else if di > 0 {
        s
    } else {
        -s
    }
}

/// The vector along `(dx, dy)` of length `m`, rounded away from zero per axis.
pub open spec fn along_out(dx: int, dy: int, m: int) -> (int, int) {
    let d2 = dx * dx + dy * dy;
    (along_out_comp(dx, d2, m), along_out_comp(dy, d2, m))
}

/// A component of `along_out` brackets the exact one from above:
/// `di^2 m^2 <= c^2 d2`, and `(|c| - 1)^2 d2 < di^2 m^2` when `c != 0`; its
/// magnitude is at most `m` and it has the sign of `di`.
pub proof fn lemma_along_out_comp(di: int, d2: int, m: int)
    requires
        d2 > 0,
        di * di <= d2,
        m >= 0,
    ensures
        ({
            let c = along_out_comp(di, d2, m);
            let a = abs(c);
            &&& di * di * (m * m) <= a * a * d2
            &&& c != 0 ==> (a - 1) * (a - 1) * d2 < di * di * (m * m)
            &&& a <= m
            &&& (c == 0 || sgn(c) == sgn(di))
            &&& (di != 0 && m > 0 ==> c != 0)
        }),
{
    let num = di * di * (m * m);
    assert(0 <= num <= d2 * (m * m)) by (nonlinear_arith)
        requires
            num == di * di * (m * m),
            di * di <= d2,
    ;
    let t = (num + d2 - 1) / d2;
    lemma_fundamental_div_mod(num + d2 - 1, d2);
    let rr = (num + d2 - 1) % d2;
    assert(t * d2 >= num && (t - 1) * d2 < num && t >= 0) by (nonlinear_arith)
        requires
            num + d2 - 1 == d2 * t + rr,
            0 <= rr < d2,
            num >= 0,
            d2 > 0,
    ;
    assert(t <= m * m) by (nonlinear_arith)
        requires
            (t - 1) * d2 < num,
            num <= d2 * (m * m),
            d2 > 0,
    ;
    lemma_sqrt_exists(t);
    let f = sqrt_floor(t);
    let s = sqrt_ceil(t);
    lemma_sqrt_le(t, f, m);
    if f * f == t {
        assert(s == f);
    } else {
        assert(s == f + 1);
        assert(f < m) by (nonlinear_arith)
            requires
                f * f < t,
                t <= m * m,
                f >= 0,
                m >= 0,
        ;
    }
    assert(s * s >= t && s >= 0);
    if s == f {
        assert(s > 0 ==> (s - 1) * (s - 1) < t) by (nonlinear_arith)
            requires
                f * f == t,
                s == f,
                f >= 0,
        ;
    } else {
        assert((s - 1) * (s - 1) < t) by (nonlinear_arith)
            requires
                f * f <= t,
                f * f != t,
                s == f + 1,
        ;
    }
    assert(num <= s * s * d2) by (nonlinear_arith)
        requires
            t * d2 >= num,
            s * s >= t,
            d2 > 0,
    ;
    assert(s > 0 ==> (s - 1) * (s - 1) * d2 < num) by (nonlinear_arith)
        requires
            s > 0 ==> (s - 1) * (s - 1) < t,
            (t - 1) * d2 < num,
            d2 > 0,
    ;
    if di != 0 && m > 0 {
        assert(num > 0) by (nonlinear_arith)
            requires
                num == di * di * (m * m),
                di != 0,
                m > 0,
        ;
        assert(t >= 1) by (nonlinear_arith)
            requires
                t * d2 >= num,
                num > 0,
                d2 > 0,
        ;
        assert(s >= 1) by (nonlinear_arith)
            requires
                s * s >= t,
                t >= 1,
                s >= 0,
        ;
    }
    let c = along_out_comp(di, d2, m);
    if di == 0 {
        assert(num == 0) by (nonlinear_arith)
            requires
                num == di * di * (m * m),
                di == 0,
        ;
    } else {
        assert(abs(c) == s);
    }
}

/// A vector built by `along_out` is at least `m` long, and exceeds it by less
/// than one unit along each nonzero axis:
/// `((|cx| - 1)_+^2 + (|cy| - 1)_+^2) <= m^2 <= cx^2 + cy^2`.
pub proof fn lemma_along_out(dx: int, dy: int, m: int)
    requires
        dx * dx + dy * dy > 0,
        m >= 0,
    ensures
        ({
            let (cx, cy) = along_out(dx, dy, m);
            let ex = if cx == 0 { 0 } else { abs(cx) - 1 };
            let ey = if cy == 0 { 0 } else { abs(cy) - 1 };
            &&& m * m <= cx * cx + cy * cy
            &&& ex * ex + ey * ey <= m * m
        }),
{
    let d2 = dx * dx + dy * dy;
    assert(dx * dx <= d2 && dy * dy <= d2) by (nonlinear_arith)
        requires
            d2 == dx * dx + dy * dy,
    ;
    lemma_along_out_comp(dx, d2, m);
    lemma_along_out_comp(dy, d2, m);
    let (cx, cy) = along_out(dx, dy, m);
    let ax = abs(cx);
    let ay = abs(cy);
    let ex = if cx == 0 { 0 } else { ax - 1 };
    let ey = if cy == 0 { 0 } else { ay - 1 };
    let xx = dx * dx;
    let yy = dy * dy;
    let mm = m * m;
    assert(ax * ax == cx * cx && ay * ay == cy * cy) by (nonlinear_arith)
        requires
            ax == abs(cx),
            ay == abs(cy),
    ;
    assert(ex * ex * d2 <= xx * mm) by (nonlinear_arith)
        requires
            cx != 0 ==> (ax - 1) * (ax - 1) * d2 < xx * mm,
            ex == (if cx == 0 { 0 } else { ax - 1 }),
            xx * mm >= 0,
    ;
    assert(ey * ey * d2 <= yy * mm) by (nonlinear_arith)
        requires
            cy != 0 ==> (ay - 1) * (ay - 1) * d2 < yy * mm,
            ey == (if cy == 0 { 0 } else { ay - 1 }),
            yy * mm >= 0,
    ;
    let u = ax * ax;
    let w = ay * ay;
    assert((xx + yy) * mm <= (u + w) * d2) by (nonlinear_arith)
        requires
            xx * mm <= u * d2,
            yy * mm <= w * d2,
    ;
    assert(mm <= u + w) by (nonlinear_arith)
        requires
            d2 * mm <= (u + w) * d2,
            d2 > 0,
    ;
    let g = ex * ex;
    let h = ey * ey;
    assert((g + h) * d2 <= (xx + yy) * mm) by (nonlinear_arith)
        requires
            g * d2 <= xx * mm,
            h * d2 <= yy * mm,
    ;
    assert(g + h <= mm) by (nonlinear_arith)
        requires
            (g + h) * d2 <= d2 * mm,
            d2 > 0,
    ;
}

/// One component of `along_out`.
fn along_out_component(di: i64, d2: u128, m: i64) -> (c: i64)
    requires
        -0x8000_0000 <= di <= 0x8000_0000,
        di * di <= d2 <= 0x8000_0000_0000_0000,
        d2 > 0,
        0 <= m <= 0x1_0000_0000,
    ensures
        c == along_out_comp(di as int, d2 as int, m as int),
        abs(c as int) <= m,
{
    proof {
        lemma_along_out_comp(di as int, d2 as int, m as int);
    }
    let a: u128 = if di < 0 { (-(di as i128)) as u128 } else { di as u128 };
    let mu = m as u128;
    assert(a * a <= 0x4000_0000_0000_0000int && mu * mu <= 0x1_0000_0000_0000_0000int)
        by (nonlinear_arith)
        requires
            a <= 0x8000_0000,
            mu <= 0x1_0000_0000,
    ;
    let aa = a * a;
    let mm = mu * mu;
    assert(aa * mm <= 0x4000_0000_0000_0000_0000_0000_0000_0000int) by (nonlinear_arith)
        requires
            aa <= 0x4000_0000_0000_0000int,
            mm <= 0x1_0000_0000_0000_0000int,
    ;
    assert(aa == di * di && mm == m * m) by (nonlinear_arith)
        requires
            a == abs(di as int),
            aa == a * a,
            mm == mu * mu,
            mu == m,
    ;
    let num = aa * mm;
    assert(num + d2 - 1 <= d2 * (mm + 1)) by (nonlinear_arith)
        requires
            num == aa * mm,
            aa <= d2,
            d2 > 0,
    ;
    let t = (num + d2 - 1) / d2;
    proof {
        lemma_div_le((num + d2 - 1) as int, d2 as int, (mm + 1) as int);
    }
    let f = isqrt(t);
    proof {
        lemma_sqrt_le(t as int, f as int, 0x2_0000_0000);
    }
    let s = if f * f == t {
        f
    } else {
        f + 1
    };
    assert(s == sqrt_ceil(t as int));
    if di == 0 {
        0
    } else if di > 0 {
        s as i64
    } else {
        -(s as i64)
    }
}

/// The vector along `(dx, dy)` of length `m >= 0`, rounded away from zero per
/// axis (see `along_out`); `(dx, dy)` must not be zero.
pub fn along_out_exec(dx: i64, dy: i64, m: i64) -> (r: (i64, i64))
    requires
        -0x8000_0000 <= dx <= 0x8000_0000,
        -0x8000_0000 <= dy <= 0x8000_0000,
        dx != 0 || dy != 0,
        0 <= m <= 0x1_0000_0000,
    ensures
        (r.0 as int, r.1 as int) == along_out(dx as int, dy as int, m as int),
        abs(r.0 as int) <= m,
        abs(r.1 as int) <= m,
{
    let ghost gx = dx as int;
    let ghost gy = dy as int;
    assert(0 <= gx * gx <= 0x4000_0000_0000_0000 && 0 <= gy * gy <= 0x4000_0000_0000_0000)
        by (nonlinear_arith)
        requires
            -0x8000_0000 <= gx <= 0x8000_0000,
            -0x8000_0000 <= gy <= 0x8000_0000,
    ;
    assert(gx * gx + gy * gy > 0) by (nonlinear_arith)
        requires
            gx != 0 || gy != 0,
    ;
    let d2 = (dx as i128 * dx as i128 + dy as i128 * dy as i128) as u128;
    let cx = along_out_component(dx, d2, m);
    let cy = along_out_component(dy, d2, m);
    (cx, cy)
}

} // verus!
