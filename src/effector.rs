//! The effector: a disc swept along a segment during one tick, treated as a capsule.
use crate::fixed::{
    abs, along_out, along_out_exec, floor_div, in_range, lemma_along_out, lemma_along_out_comp,
    sat, sat_coord, sgn, Vec2, COORD_LIMIT, UNIT,
};
use crate::point::vec_of;
use vstd::arithmetic::div_mod::lemma_fundamental_div_mod;
use vstd::prelude::*;

verus! {

/// Default effector radius, in world units.
pub const MOUSE_RADIUS: i64 = 40;

/// The disc's previous and current centres, and its radius.
#[derive(Clone, Copy, PartialEq, Eq, Debug, Structural)]
pub struct EffectorState {
    pub radius: i64,
    pub prev: Vec2,
    pub curr: Vec2,
}

impl Default for EffectorState {
    fn default() -> (r: EffectorState)
        ensures
            r.radius == MOUSE_RADIUS * UNIT,
            r.prev == (Vec2 { x: 0, y: 0 }),
            r.curr == (Vec2 { x: 0, y: 0 }),
    {
        EffectorState::new()
    }
}

impl EffectorState {
    pub open spec fn wf(self) -> bool {
        &&& self.prev.wf()
        &&& self.curr.wf()
        &&& 0 <= self.radius <= COORD_LIMIT
    }

    /// An effector at the origin with the default radius.
    pub fn new() -> (r: EffectorState)
        ensures
            r.radius == MOUSE_RADIUS * UNIT,
            r.prev == (Vec2 { x: 0, y: 0 }),
            r.curr == (Vec2 { x: 0, y: 0 }),
            r.wf(),
    {
        EffectorState { radius: MOUSE_RADIUS * UNIT, prev: Vec2::zero(), curr: Vec2::zero() }
    }

    /// Starts a new sample: the current centre becomes the previous one, and the
    /// cursor position, when there is one, becomes the current centre.
    pub fn track(&mut self, cursor: Option<Vec2>)
        ensures
            final(self).radius == old(self).radius,
            final(self).prev == old(self).curr,
            final(self).curr == (match cursor {
                Some(c) => c,
                None => old(self).curr,
            }),
    {
        self.prev = self.curr;
        if let Some(c) = cursor {
            self.curr = c;
        }
    }
}

pub open spec fn seg_len2(a: Vec2, b: Vec2) -> int {
    (b.x - a.x) * (b.x - a.x) + (b.y - a.y) * (b.y - a.y)
}

/// `(p - a) . (b - a)`: the projection of `p` on the segment, scaled by `|b - a|^2`.
pub open spec fn seg_dot(p: Vec2, a: Vec2, b: Vec2) -> int {
    (p.x - a.x) * (b.x - a.x) + (p.y - a.y) * (b.y - a.y)
}

/// `(p - a) x (b - a)`: the distance of `p` from the segment's line, scaled by
/// `|b - a|` and signed by the side.
pub open spec fn seg_cross(p: Vec2, a: Vec2, b: Vec2) -> int {
    (p.x - a.x) * (b.y - a.y) - (p.y - a.y) * (b.x - a.x)
}

/// The point of the swept path nearest to `p` when that is an end: the centre
/// `b` when the disc did not move, else `a` or `b` when the projection of `p`
/// falls outside the open segment. `None` when it falls strictly inside.
pub open spec fn nearest_end(p: Vec2, a: Vec2, b: Vec2) -> Option<Vec2> {
    if a == b {
        Some(b)
    } else if seg_dot(p, a, b) <= 0 {
        Some(a)
    } else if seg_dot(p, a, b) >= seg_len2(a, b) {
        Some(b)
    } else {
        None
    }
}

/// `num / den` (`den > 0`) rounded up when `dir > 0`, down otherwise.
pub open spec fn div_toward(num: int, den: int, dir: int) -> int {
    if dir > 0 {
        -((-num) / den)
    } else {
        num / den
    }
}

/// The normal of the segment `(s.y, -s.x)` (`s = b - a`) turned toward `p`'s side.
pub open spec fn side_normal(p: Vec2, a: Vec2, b: Vec2) -> (int, int) {
    if seg_cross(p, a, b) > 0 {
        (b.y - a.y, -(b.x - a.x))
    } else {
        (-(b.y - a.y), b.x - a.x)
    }
}

/// Where the capsule of radius `r` around the swept path `[a, b]` leaves `p`.
///
/// Inside and outside are decided exactly: against the nearest end, `|p - e|^2 < r^2`;
/// against the open segment, `cross^2 < r^2 |b - a|^2`. A point at distance zero
/// stays. A point strictly inside moves out along the direction from its
/// nearest point of the path, by a vector of length `r` rounded away from zero
/// per axis; between the ends, the nearest point itself is rounded away from the
/// segment per axis. So a moved point ends at distance at least `r` from the
/// nearest point (from the segment's line, between the ends).
pub open spec fn swept_collision(p: Vec2, a: Vec2, b: Vec2, r: int) -> Vec2 {
    match nearest_end(p, a, b) {
        Some(e) => {
            let dx = p.x - e.x;
            let dy = p.y - e.y;
            let d2 = dx * dx + dy * dy;
            if 0 < d2 < r * r {
                let (cx, cy) = along_out(dx, dy, r);
                vec_of(sat(e.x + cx), sat(e.y + cy))
            } else {
                p
            }
        },
        None => {
            let cr = seg_cross(p, a, b);
            let l2 = seg_len2(a, b);
            let dot = seg_dot(p, a, b);
            if cr != 0 && cr * cr < r * r * l2 {
                let (nx, ny) = side_normal(p, a, b);
                let ux = div_toward((b.x - a.x) * dot, l2, nx);
                let uy = div_toward((b.y - a.y) * dot, l2, ny);
                let (cx, cy) = along_out(nx, ny, r);
                vec_of(sat(a.x + ux + cx), sat(a.y + uy + cy))
            } else {
                p
            }
        },
    }
}

/// `s * t / l2` rounded either way lies between `0` and `s` when `0 <= t <= l2`.
proof fn lemma_lerp_between(s: int, t: int, l2: int, dir: int)
    requires
        l2 > 0,
        0 <= t <= l2,
    ensures
        s >= 0 ==> 0 <= div_toward(s * t, l2, dir) <= s,
        s < 0 ==> s <= div_toward(s * t, l2, dir) <= 0,
{
    lemma_floor_between(s, t, l2);
    lemma_floor_between(-s, t, l2);
    assert((-s) * t == -(s * t)) by (nonlinear_arith);
}

proof fn lemma_floor_between(s: int, t: int, l2: int)
    requires
        l2 > 0,
        0 <= t <= l2,
    ensures
        s >= 0 ==> 0 <= (s * t) / l2 <= s,
        s < 0 ==> s <= (s * t) / l2 <= 0,
{
    let n = s * t;
    lemma_fundamental_div_mod(n, l2);
    let q = n / l2;
    let r = n % l2;
    if s >= 0 {
        assert(0 <= n <= s * l2) by (nonlinear_arith)
            requires
                s >= 0,
                0 <= t <= l2,
                n == s * t,
        ;
        assert(0 <= q <= s) by (nonlinear_arith)
            requires
                n == l2 * q + r,
                0 <= r < l2,
                0 <= n <= s * l2,
                l2 > 0,
        ;
    } else {
        assert(s * l2 <= n <= 0) by (nonlinear_arith)
            requires
                s < 0,
                0 <= t <= l2,
                n == s * t,
        ;
        assert(s <= q <= 0) by (nonlinear_arith)
            requires
                n == l2 * q + r,
                0 <= r < l2,
                s * l2 <= n <= 0,
                l2 > 0,
        ;
    }
}

/// The rounding of `div_toward` never goes against `dir`:
/// `dir * (den * q) >= dir * num`.
proof fn lemma_div_toward(num: int, den: int, dir: int)
    requires
        den > 0,
    ensures
        dir * (den * div_toward(num, den, dir)) >= dir * num,
{
    let q = div_toward(num, den, dir);
    if dir > 0 {
        lemma_fundamental_div_mod(-num, den);
        let f = (-num) / den;
        assert(den * q >= num) by (nonlinear_arith)
            requires
                -num == den * f + (-num) % den,
                0 <= (-num) % den < den,
                q == -f,
        ;
        assert(dir * (den * q) >= dir * num) by (nonlinear_arith)
            requires
                den * q >= num,
                dir > 0,
        ;
    } else {
        lemma_fundamental_div_mod(num, den);
        assert(den * q <= num) by (nonlinear_arith)
            requires
                num == den * q + num % den,
                0 <= num % den < den,
        ;
        assert(dir * (den * q) >= dir * num) by (nonlinear_arith)
            requires
                den * q <= num,
                dir <= 0,
        ;
    }
}

fn div_toward_exec(num: i128, den: i128, dir: i128) -> (q: i128)
    requires
        den > 0,
        -0x10_0000_0000_0000_0000_0000_0000 <= num <= 0x10_0000_0000_0000_0000_0000_0000,
    ensures
        q == div_toward(num as int, den as int, dir as int),
{
    proof {
        crate::fixed::lemma_div_abs_le(-num, den as int);
    }
    if dir > 0 {
        -floor_div(-num, den)
    } else {
        floor_div(num, den)
    }
}

/// Pushes `p` out of the capsule of radius `r` swept by the effector from
/// `seg_a` to `seg_b` (see `swept_collision`).
pub fn collide_point_with_swept_effector(p: &mut Vec2, seg_a: Vec2, seg_b: Vec2, r: i64)
    requires
        old(p).wf(),
        seg_a.wf(),
        seg_b.wf(),
        0 <= r <= COORD_LIMIT,
    ensures
        *final(p) == swept_collision(*old(p), seg_a, seg_b, r as int),
        final(p).wf(),
{
    let sx = seg_b.x as i128 - seg_a.x as i128;
    let sy = seg_b.y as i128 - seg_a.y as i128;
    let wx = p.x as i128 - seg_a.x as i128;
    let wy = p.y as i128 - seg_a.y as i128;
    assert(-0x4000_0000_0000_0000 <= wx * sx <= 0x4000_0000_0000_0000
        && -0x4000_0000_0000_0000 <= wy * sy <= 0x4000_0000_0000_0000
        && -0x4000_0000_0000_0000 <= wx * sy <= 0x4000_0000_0000_0000
        && -0x4000_0000_0000_0000 <= wy * sx <= 0x4000_0000_0000_0000
        && 0 <= sx * sx <= 0x4000_0000_0000_0000 && 0 <= sy * sy <= 0x4000_0000_0000_0000)
        by (nonlinear_arith)
        requires
            -0x8000_0000 <= sx <= 0x8000_0000,
            -0x8000_0000 <= sy <= 0x8000_0000,
            -0x8000_0000 <= wx <= 0x8000_0000,
            -0x8000_0000 <= wy <= 0x8000_0000,
    ;
    assert(0 <= r * r <= 0x1000_0000_0000_0000) by (nonlinear_arith)
        requires
            0 <= r <= COORD_LIMIT,
    ;
    let l2 = sx * sx + sy * sy;
    let dot = wx * sx + wy * sy;
    let rr = r as i128 * r as i128;
    let ghost gp = *p;
    assert(l2 == seg_len2(seg_a, seg_b));
    assert(dot == seg_dot(gp, seg_a, seg_b));
    let end: Option<Vec2> = if l2 == 0 {
        assert(seg_a == seg_b) by (nonlinear_arith)
            requires
                sx * sx + sy * sy == 0,
                sx == seg_b.x - seg_a.x,
                sy == seg_b.y - seg_a.y,
        ;
        Some(seg_b)
    } else {
        assert(seg_a != seg_b) by {
            if seg_a == seg_b {
                assert(l2 == 0) by (nonlinear_arith)
                    requires
                        sx == 0,
                        sy == 0,
                        l2 == sx * sx + sy * sy,
                ;
            }
        }
        if dot <= 0 {
            Some(seg_a)
        } else if dot >= l2 {
            Some(seg_b)
        } else {
            None
        }
    };
    assert(end == nearest_end(gp, seg_a, seg_b));
    match end {
        Some(e) => {
            let dx = p.x as i128 - e.x as i128;
            let dy = p.y as i128 - e.y as i128;
            assert(0 <= dx * dx <= 0x4000_0000_0000_0000 && 0 <= dy * dy
                <= 0x4000_0000_0000_0000) by (nonlinear_arith)
                requires
                    -0x8000_0000 <= dx <= 0x8000_0000,
                    -0x8000_0000 <= dy <= 0x8000_0000,
            ;
            let d2 = dx * dx + dy * dy;
            if 0 < d2 && d2 < rr {
                assert(dx != 0 || dy != 0) by (nonlinear_arith)
                    requires
                        d2 == dx * dx + dy * dy,
                        d2 > 0,
                ;
                let (cx, cy) = along_out_exec(dx as i64, dy as i64, r);
                *p = Vec2 {
                    x: sat_coord(e.x as i128 + cx as i128),
                    y: sat_coord(e.y as i128 + cy as i128),
                };
            }
        },
        None => {
            let cr = wx * sy - wy * sx;
            assert(cr == seg_cross(gp, seg_a, seg_b));
            assert(0 <= cr * cr <= 0x4000_0000_0000_0000_0000_0000_0000_0000 && 0 <= rr * l2
                <= 0x1000_0000_0000_0000_0000_0000_0000_0000) by (nonlinear_arith)
                requires
                    -0x8000_0000_0000_0000 <= cr <= 0x8000_0000_0000_0000,
                    0 <= rr <= 0x1000_0000_0000_0000,
                    0 <= l2 <= 0x8000_0000_0000_0000,
            ;
            if cr != 0 && cr * cr < rr * l2 {
                let (nx, ny): (i128, i128) = if cr > 0 {
                    (sy, -sx)
                } else {
                    (-sy, sx)
                };
                assert(-0x10_0000_0000_0000_0000_0000_0000 <= sx * dot
                    <= 0x10_0000_0000_0000_0000_0000_0000
                    && -0x10_0000_0000_0000_0000_0000_0000 <= sy * dot
                    <= 0x10_0000_0000_0000_0000_0000_0000) by (nonlinear_arith)
                    requires
                        -0x8000_0000 <= sx <= 0x8000_0000,
                        -0x8000_0000 <= sy <= 0x8000_0000,
                        0 < dot < 0x8000_0000_0000_0000,
                ;
                proof {
                    lemma_lerp_between(sx as int, dot as int, l2 as int, nx as int);
                    lemma_lerp_between(sy as int, dot as int, l2 as int, ny as int);
                }
                let ux = div_toward_exec(sx * dot, l2, nx);
                let uy = div_toward_exec(sy * dot, l2, ny);
                let (cx, cy) = along_out_exec(nx as i64, ny as i64, r);
                *p = Vec2 {
                    x: sat_coord(seg_a.x as i128 + ux + cx as i128),
                    y: sat_coord(seg_a.y as i128 + uy + cy as i128),
                };
            }
        },
    }
}

/// The point `a + (k / den) (b - a)` of the segment (`0 <= k <= den`) is at
/// distance at least `r` from `p`.
pub open spec fn far_from_segment_point(p: Vec2, a: Vec2, b: Vec2, r: int, k: int, den: int) -> bool {
    let ex = den * (p.x - a.x) - k * (b.x - a.x);
    let ey = den * (p.y - a.y) - k * (b.y - a.y);
    ex * ex + ey * ey >= r * r * (den * den)
}

/// A particle at distance at least `r` from every (rational) point of the
/// swept segment `[a, b]` is left where it is.
pub proof fn lemma_swept_collision_keeps_distant(p: Vec2, a: Vec2, b: Vec2, r: int)
    requires
        forall|k: int, den: int|
            den > 0 && 0 <= k <= den ==> #[trigger] far_from_segment_point(p, a, b, r, k, den),
    ensures
        swept_collision(p, a, b, r) == p,
{
    assert(far_from_segment_point(p, a, b, r, 0, 1));
    assert(far_from_segment_point(p, a, b, r, 1, 1));
    let sx = b.x - a.x;
    let sy = b.y - a.y;
    let wx = p.x - a.x;
    let wy = p.y - a.y;
    assert(1 * wx - 0 * sx == wx && 1 * wy - 0 * sy == wy && r * r * (1 * 1) == r * r);
    assert(1 * wx - 1 * sx == p.x - b.x && 1 * wy - 1 * sy == p.y - b.y);
    match nearest_end(p, a, b) {
        Some(e) => {},
        None => {
            let l2 = seg_len2(a, b);
            let dot = seg_dot(p, a, b);
            let cr = seg_cross(p, a, b);
            assert(far_from_segment_point(p, a, b, r, dot, l2));
            let ex = l2 * wx - dot * sx;
            let ey = l2 * wy - dot * sy;
            assert(ex == sy * cr) by (nonlinear_arith)
                requires
                    ex == l2 * wx - dot * sx,
                    l2 == sx * sx + sy * sy,
                    dot == wx * sx + wy * sy,
                    cr == wx * sy - wy * sx,
            ;
            assert(ey == -sx * cr) by (nonlinear_arith)
                requires
                    ey == l2 * wy - dot * sy,
                    l2 == sx * sx + sy * sy,
                    dot == wx * sx + wy * sy,
                    cr == wx * sy - wy * sx,
            ;
            assert(ex * ex + ey * ey == l2 * (cr * cr)) by (nonlinear_arith)
                requires
                    ex == sy * cr,
                    ey == -sx * cr,
                    l2 == sx * sx + sy * sy,
            ;
            assert(cr * cr >= r * r * l2) by (nonlinear_arith)
                requires
                    l2 * (cr * cr) >= r * r * (l2 * l2),
                    l2 > 0,
            ;
        },
    }
}

/// A particle strictly inside the capsule and nearest to an end `e` of the
/// path moves to `e + c`, where `c` points from `e` along the particle's own
/// direction (componentwise sign agreement) and has length `r` rounded up:
/// `r^2 <= |c|^2`, and `(|cx| - 1)_+^2 + (|cy| - 1)_+^2 <= r^2`. Stated where the
/// moved position does not saturate.
pub proof fn lemma_swept_collision_end_push(p: Vec2, a: Vec2, b: Vec2, r: int)
    requires
        r >= 0,
        nearest_end(p, a, b) is Some,
        ({
            let e = nearest_end(p, a, b).unwrap();
            let d2 = (p.x - e.x) * (p.x - e.x) + (p.y - e.y) * (p.y - e.y);
            let (cx, cy) = along_out(p.x - e.x, p.y - e.y, r);
            &&& 0 < d2 < r * r
            &&& in_range(e.x + cx)
            &&& in_range(e.y + cy)
        }),
    ensures
        ({
            let e = nearest_end(p, a, b).unwrap();
            let np = swept_collision(p, a, b, r);
            let cx = np.x - e.x;
            let cy = np.y - e.y;
            let ex = if cx == 0 { 0 } else { abs(cx) - 1 };
            let ey = if cy == 0 { 0 } else { abs(cy) - 1 };
            &&& r * r <= cx * cx + cy * cy
            &&& ex * ex + ey * ey <= r * r
            &&& (cx == 0 || sgn(cx) == sgn(p.x - e.x))
            &&& (cy == 0 || sgn(cy) == sgn(p.y - e.y))
        }),
{
    let e = nearest_end(p, a, b).unwrap();
    let dx = p.x - e.x;
    let dy = p.y - e.y;
    let d2 = dx * dx + dy * dy;
    assert(dx * dx <= d2 && dy * dy <= d2) by (nonlinear_arith)
        requires
            d2 == dx * dx + dy * dy,
    ;
    lemma_along_out(dx, dy, r);
    lemma_along_out_comp(dx, d2, r);
    lemma_along_out_comp(dy, d2, r);
}

/// `(x1 b1 + x2 b2)^2 >= r^2 (b1^2 + b2^2)` when `xi^2 (b1^2 + b2^2) >= bi^2 r^2`
/// for non-negative `xi`, `bi`.
proof fn lemma_projection_bound(x1: int, x2: int, b1: int, b2: int, r: int)
    requires
        x1 >= 0,
        x2 >= 0,
        b1 >= 0,
        b2 >= 0,
        r >= 0,
        x1 * x1 * (b1 * b1 + b2 * b2) >= b1 * b1 * (r * r),
        x2 * x2 * (b1 * b1 + b2 * b2) >= b2 * b2 * (r * r),
    ensures
        (x1 * b1 + x2 * b2) * (x1 * b1 + x2 * b2) >= r * r * (b1 * b1 + b2 * b2),
{
    let n = b1 * b1 + b2 * b2;
    let rr = r * r;
    let p1 = x1 * x1 * n;
    let p2 = x2 * x2 * n;
    assert(p1 * p2 >= (b1 * b1 * rr) * (b2 * b2 * rr)) by (nonlinear_arith)
        requires
            p1 >= b1 * b1 * rr,
            p2 >= b2 * b2 * rr,
            b1 * b1 * rr >= 0,
            b2 * b2 * rr >= 0,
    ;
    let m = x1 * x2 * n;
    let q = rr * b1 * b2;
    assert(m * m == p1 * p2) by (nonlinear_arith)
        requires
            m == x1 * x2 * n,
            p1 == x1 * x1 * n,
            p2 == x2 * x2 * n,
    ;
    assert(q * q == (b1 * b1 * rr) * (b2 * b2 * rr)) by (nonlinear_arith)
        requires
            q == rr * b1 * b2,
    ;
    assert(m >= 0 && q >= 0) by (nonlinear_arith)
        requires
            m == x1 * x2 * n,
            q == rr * b1 * b2,
            x1 >= 0,
            x2 >= 0,
            n >= 0,
            rr >= 0,
            b1 >= 0,
            b2 >= 0,
    ;
    assert(m >= q) by (nonlinear_arith)
        requires
            m * m >= q * q,
            m >= 0,
            q >= 0,
    ;
    let x = x1 * b1 + x2 * b2;
    let aa = x1 * b1;
    let bb = x2 * b2;
    assert(x * x == aa * aa + 2 * (aa * bb) + bb * bb) by (nonlinear_arith)
        requires
            x == aa + bb,
    ;
    assert(aa * aa * n == p1 * (b1 * b1)) by (nonlinear_arith)
        requires
            aa == x1 * b1,
            p1 == x1 * x1 * n,
    ;
    assert(bb * bb * n == p2 * (b2 * b2)) by (nonlinear_arith)
        requires
            bb == x2 * b2,
            p2 == x2 * x2 * n,
    ;
    assert(aa * bb * n == m * (b1 * b2)) by (nonlinear_arith)
        requires
            aa == x1 * b1,
            bb == x2 * b2,
            m == x1 * x2 * n,
    ;
    assert(x * x * n == aa * aa * n + 2 * (aa * bb * n) + bb * bb * n) by (nonlinear_arith)
        requires
            x * x == aa * aa + 2 * (aa * bb) + bb * bb,
    ;
    let c1 = b1 * b1;
    let c2 = b2 * b2;
    let cc = b1 * b2;
    assert(p1 * c1 >= rr * (c1 * c1)) by (nonlinear_arith)
        requires
            p1 >= c1 * rr,
            c1 >= 0,
    ;
    assert(p2 * c2 >= rr * (c2 * c2)) by (nonlinear_arith)
        requires
            p2 >= c2 * rr,
            c2 >= 0,
    ;
    assert(m * cc >= rr * (cc * cc)) by (nonlinear_arith)
        requires
            m >= q,
            q == rr * b1 * b2,
            cc == b1 * b2,
            cc >= 0,
    ;
    assert(cc * cc == c1 * c2) by (nonlinear_arith)
        requires
            cc == b1 * b2,
            c1 == b1 * b1,
            c2 == b2 * b2,
    ;
    assert(rr * (c1 * c1) + 2 * (rr * (cc * cc)) + rr * (c2 * c2) == rr * (n * n)) by (nonlinear_arith)
        requires
            cc * cc == c1 * c2,
            n == c1 + c2,
    ;
    assert(x * x * n >= rr * (n * n));
    if n > 0 {
        assert(x * x >= rr * n) by (nonlinear_arith)
            requires
                x * x * n >= rr * (n * n),
                n > 0,
        ;
    } else {
        assert(x * x >= 0) by (nonlinear_arith);
        assert(rr * n == 0) by (nonlinear_arith)
            requires
                n == 0,
        ;
    }
}

/// A particle strictly inside the capsule whose nearest point lies strictly
/// between the ends moves away from the segment on its own side, to at least
/// `r` from the segment's line: the new cross product has the old one's sign
/// and `cross^2 >= r^2 |b - a|^2`. Stated where the moved position does not
/// saturate.
pub proof fn lemma_swept_collision_side_push(p: Vec2, a: Vec2, b: Vec2, r: int)
    requires
        r >= 0,
        nearest_end(p, a, b) is None,
        ({
            let cr = seg_cross(p, a, b);
            let l2 = seg_len2(a, b);
            let dot = seg_dot(p, a, b);
            let (nx, ny) = side_normal(p, a, b);
            let ux = div_toward((b.x - a.x) * dot, l2, nx);
            let uy = div_toward((b.y - a.y) * dot, l2, ny);
            let (cx, cy) = along_out(nx, ny, r);
            &&& cr != 0
            &&& cr * cr < r * r * l2
            &&& in_range(a.x + ux + cx)
            &&& in_range(a.y + uy + cy)
        }),
    ensures
        ({
            let np = swept_collision(p, a, b, r);
            let cr = seg_cross(p, a, b);
            let ncr = seg_cross(np, a, b);
            &&& sgn(ncr) == sgn(cr)
            &&& ncr * ncr >= r * r * seg_len2(a, b)
        }),
{
    let sx = b.x - a.x;
    let sy = b.y - a.y;
    let cr = seg_cross(p, a, b);
    let l2 = seg_len2(a, b);
    let dot = seg_dot(p, a, b);
    let (nx, ny) = side_normal(p, a, b);
    let sg: int = if cr > 0 { 1 } else { -1 };
    assert(nx == sg * sy && ny == -sg * sx);
    assert(nx * nx + ny * ny == l2) by (nonlinear_arith)
        requires
            nx == sg * sy,
            ny == -sg * sx,
            sg * sg == 1,
            l2 == sx * sx + sy * sy,
    ;
    assert(l2 > 0) by (nonlinear_arith)
        requires
            cr * cr < r * r * l2,
            l2 >= 0 ==> l2 == sx * sx + sy * sy,
            l2 == sx * sx + sy * sy,
    ;
    let ux = div_toward(sx * dot, l2, nx);
    let uy = div_toward(sy * dot, l2, ny);
    lemma_div_toward(sx * dot, l2, nx);
    lemma_div_toward(sy * dot, l2, ny);
    let un = ux * nx + uy * ny;
    assert(l2 * un == nx * (l2 * ux) + ny * (l2 * uy)) by (nonlinear_arith)
        requires
            un == ux * nx + uy * ny,
    ;
    assert(nx * (sx * dot) + ny * (sy * dot) == 0) by (nonlinear_arith)
        requires
            nx == sg * sy,
            ny == -sg * sx,
    ;
    assert(l2 * un >= 0);
    assert(un >= 0) by (nonlinear_arith)
        requires
            l2 * un >= 0,
            l2 > 0,
    ;
    let (cx, cy) = along_out(nx, ny, r);
    assert(nx * nx <= l2 && ny * ny <= l2) by (nonlinear_arith)
        requires
            nx * nx + ny * ny == l2,
    ;
    lemma_along_out_comp(nx, l2, r);
    lemma_along_out_comp(ny, l2, r);
    let x1 = abs(cx);
    let x2 = abs(cy);
    let b1 = abs(nx);
    let b2 = abs(ny);
    assert(b1 * b1 == nx * nx && b2 * b2 == ny * ny && x1 * x1 == cx * cx && x2 * x2 == cy * cy)
        by (nonlinear_arith)
        requires
            x1 == abs(cx),
            x2 == abs(cy),
            b1 == abs(nx),
            b2 == abs(ny),
    ;
    assert(cx * nx == x1 * b1 && cy * ny == x2 * b2) by (nonlinear_arith)
        requires
            x1 == abs(cx),
            x2 == abs(cy),
            b1 == abs(nx),
            b2 == abs(ny),
            cx == 0 || sgn(cx) == sgn(nx),
            cy == 0 || sgn(cy) == sgn(ny),
    ;
    assert(x1 * x1 * (b1 * b1 + b2 * b2) >= b1 * b1 * (r * r));
    assert(x2 * x2 * (b1 * b1 + b2 * b2) >= b2 * b2 * (r * r));
    lemma_projection_bound(x1, x2, b1, b2, r);
    let cn = cx * nx + cy * ny;
    assert(cn >= 0 && cn * cn >= r * r * l2) by (nonlinear_arith)
        requires
            cn == x1 * b1 + x2 * b2,
            (x1 * b1 + x2 * b2) * (x1 * b1 + x2 * b2) >= r * r * (b1 * b1 + b2 * b2),
            b1 * b1 + b2 * b2 == l2,
            x1 >= 0,
            x2 >= 0,
            b1 >= 0,
            b2 >= 0,
    ;
    let np = swept_collision(p, a, b, r);
    assert(np.x == a.x + ux + cx && np.y == a.y + uy + cy);
    let ncr = seg_cross(np, a, b);
    let vx = ux + cx;
    let vy = uy + cy;
    assert(ncr == vx * sy - vy * sx);
    assert(un + cn == vx * nx + vy * ny) by (nonlinear_arith)
        requires
            un == ux * nx + uy * ny,
            cn == cx * nx + cy * ny,
            vx == ux + cx,
            vy == uy + cy,
    ;
    assert(vx * nx + vy * ny == sg * (vx * sy - vy * sx)) by (nonlinear_arith)
        requires
            nx == sg * sy,
            ny == -sg * sx,
    ;
    assert(ncr == sg * (un + cn)) by (nonlinear_arith)
        requires
            un + cn == sg * ncr,
            sg * sg == 1,
    ;
    assert(ncr * ncr >= r * r * l2) by (nonlinear_arith)
        requires
            ncr == sg * (un + cn),
            sg * sg == 1,
            un >= 0,
            cn >= 0,
            cn * cn >= r * r * l2,
    ;
    assert(r > 0) by (nonlinear_arith)
        requires
            cr != 0,
            cr * cr < r * r * l2,
            r >= 0,
    ;
    assert(cn > 0) by (nonlinear_arith)
        requires
            cn * cn >= r * r * l2,
            r > 0,
            l2 > 0,
            cn >= 0,
    ;
}

} // verus!
