//! A single Verlet-integrated particle.
use crate::fixed::{
    abs, along, along_exec, floor_div, in_range, lemma_scale_bound, sat, sat_coord, scale,
    scale_by, Ratio, Vec2, COORD_LIMIT, UNIT,
};
use vstd::prelude::*;

verus! {

/// A particle. Its velocity is implicit: `position - previous_position` per tick.
#[derive(Clone, Copy, PartialEq, Eq, Debug, Structural)]
pub struct Point {
    pub index: usize,
    /// Current position.
    pub position: Vec2,
    /// Position one tick ago.
    pub previous_position: Vec2,
    /// Acceleration accumulated since the last integration, per second squared.
    pub acceleration: Vec2,
    pub mass: Ratio,
    /// Collision radius.
    pub radius: i64,
    /// Restitution when reflecting off the bounds.
    pub bounciness: Ratio,
}

/// The displacement `a * dt^2` that an acceleration adds in one step, rounded down.
pub open spec fn accel_term(a: int, dt: Ratio) -> int {
    (a * (dt.num * dt.num)) / (dt.den * dt.den)
}

/// The Verlet prediction `x + (x - xp) * damping + a * dt^2`, saturated.
pub open spec fn predict(x: int, xp: int, a: int, dt: Ratio, damping: Ratio) -> int {
    sat(x + scale(x - xp, damping) + accel_term(a, dt))
}

/// Clamps a predicted coordinate `xn` with step velocity `v` to `[lo, hi]`,
/// reflecting and scaling the velocity by `b` at each side that it crosses.
/// The two sides are tested in turn, so an inverted range `lo > hi` ends at `hi`.
/// Returns the clamped coordinate and the new velocity.
pub open spec fn bounce_axis(xn: int, v: int, lo: int, hi: int, b: Ratio) -> (int, int) {
    let (x1, v1) = if xn < lo {
        (lo, scale(-v, b))
    } else {
        (xn, v)
    };
    if x1 > hi {
        (hi, scale(-v1, b))
    } else {
        (x1, v1)
    }
}

/// One integration step along one axis: the new position and previous position.
pub open spec fn integrate_axis(
    x: int,
    xp: int,
    a: int,
    lo: int,
    hi: int,
    b: Ratio,
    dt: Ratio,
    damping: Ratio,
) -> (int, int) {
    let xn = predict(x, xp, a, dt, damping);
    let (x2, v2) = bounce_axis(xn, xn - x, lo, hi, b);
    let pos = sat(x2);
    (pos, sat(pos - v2))
}

/// Clamps a coordinate to `[lo, hi]` with reflection, one side or the other
/// (`bounce_in_bounds`): the new position and previous position.
pub open spec fn reflect_axis(x: int, xp: int, lo: int, hi: int, b: Ratio) -> (int, int) {
    let v = x - xp;
    let (x1, v1) = if x < lo {
        (lo, scale(-v, b))
    } else if x > hi {
        (hi, scale(-v, b))
    } else {
        (x, v)
    };
    let pos = sat(x1);
    (pos, sat(pos - v1))
}

pub open spec fn clamp_coord(v: int, lo: int, hi: int) -> int {
    let m = if v < lo {
        lo
    } else {
        v
    };
    if m > hi {
        hi
    } else {
        m
    }
}

pub open spec fn vec_of(x: int, y: int) -> Vec2 {
    Vec2 { x: x as i64, y: y as i64 }
}

/// `a * dt^2`, rounded down.
fn accel_term_exec(a: i128, dt: Ratio) -> (r: i128)
    requires
        dt.wf(),
        -0x1_0000_0000 <= a <= 0x1_0000_0000,
    ensures
        r == accel_term(a as int, dt),
        abs(r as int) <= 0x1_0000_0000_0000_0000_0000,
{
    assert(0 <= dt.num * dt.num <= 0x1_0000_0000_0000 && 0 < dt.den * dt.den
        <= 0x1_0000_0000_0000) by (nonlinear_arith)
        requires
            dt.wf(),
    ;
    let nn = dt.num as i128 * dt.num as i128;
    let dd = dt.den as i128 * dt.den as i128;
    assert(abs(a * nn) <= 0x1_0000_0000_0000_0000_0000) by (nonlinear_arith)
        requires
            -0x1_0000_0000 <= a <= 0x1_0000_0000,
            0 <= nn <= 0x1_0000_0000_0000,
    ;
    proof {
        crate::fixed::lemma_div_abs_le(a * nn, dd as int);
    }
    floor_div(a * nn, dd)
}

/// The prediction `x + (x - xp) * damping + a * dt^2`, saturated.
fn predict_exec(x: i64, xp: i64, a: i128, dt: Ratio, damping: Ratio) -> (r: i64)
    requires
        in_range(x as int),
        in_range(xp as int),
        dt.wf(),
        damping.wf(),
        -0x1_0000_0000 <= a <= 0x1_0000_0000,
    ensures
        r == predict(x as int, xp as int, a as int, dt, damping),
        in_range(r as int),
{
    proof {
        lemma_scale_bound(x - xp, damping);
    }
    let vel = scale_by(x as i128 - xp as i128, damping);
    let acc = accel_term_exec(a, dt);
    sat_coord(x as i128 + vel + acc)
}

/// One integration step along one axis (see `integrate_axis`).
fn integrate_axis_exec(
    x: i64,
    xp: i64,
    a: i128,
    lo: i128,
    hi: i128,
    b: Ratio,
    dt: Ratio,
    damping: Ratio,
) -> (r: (i64, i64))
    requires
        in_range(x as int),
        in_range(xp as int),
        -0x1_0000_0000 <= a <= 0x1_0000_0000,
        -0x1_0000_0000 <= lo <= 0x1_0000_0000,
        -0x1_0000_0000 <= hi <= 0x1_0000_0000,
        b.wf(),
        dt.wf(),
        damping.wf(),
    ensures
        (r.0 as int, r.1 as int) == integrate_axis(
            x as int,
            xp as int,
            a as int,
            lo as int,
            hi as int,
            b,
            dt,
            damping,
        ),
        in_range(r.0 as int),
        in_range(r.1 as int),
{
    let xn = predict_exec(x, xp, a, dt, damping);
    let mut xc = xn as i128;
    let mut v = xn as i128 - x as i128;
    proof {
        lemma_scale_bound(-v, b);
    }
    if xc < lo {
        xc = lo;
        v = scale_by(-v, b);
    }
    proof {
        lemma_scale_bound(-v, b);
    }
    if xc > hi {
        xc = hi;
        v = scale_by(-v, b);
    }
    let pos = sat_coord(xc);
    let prev = sat_coord(pos as i128 - v);
    (pos, prev)
}

/// Clamping with reflection along one axis (see `reflect_axis`).
fn reflect_axis_exec(x: i64, xp: i64, lo: i128, hi: i128, b: Ratio) -> (r: (i64, i64))
    requires
        in_range(x as int),
        in_range(xp as int),
        -0x1_0000_0000 <= lo <= 0x1_0000_0000,
        -0x1_0000_0000 <= hi <= 0x1_0000_0000,
        b.wf(),
    ensures
        (r.0 as int, r.1 as int) == reflect_axis(x as int, xp as int, lo as int, hi as int, b),
        in_range(r.0 as int),
        in_range(r.1 as int),
{
    let mut xc = x as i128;
    let mut v = x as i128 - xp as i128;
    proof {
        lemma_scale_bound(-v, b);
    }
    if xc < lo {
        xc = lo;
        v = scale_by(-v, b);
    } else if xc > hi {
        xc = hi;
        v = scale_by(-v, b);
    }
    let pos = sat_coord(xc);
    let prev = sat_coord(pos as i128 - v);
    (pos, prev)
}

fn clamp_exec(v: i64, lo: i64, hi: i64) -> (r: i64)
    ensures
        r == clamp_coord(v as int, lo as int, hi as int),
{
    let m = if v < lo {
        lo
    } else {
        v
    };
    if m > hi {
        hi
    } else {
        m
    }
}

impl Default for Point {
    /// A particle at rest at the origin (see `Point::new`).
    fn default() -> (r: Point)
        ensures
            r == Point::new_spec(vec_of(0, 0), 0),
    {
        Point::new(Vec2::zero(), 0)
    }
}

impl Point {
    pub open spec fn wf(self) -> bool {
        &&& self.position.wf()
        &&& self.previous_position.wf()
        &&& self.acceleration.wf()
        &&& self.mass.wf()
        &&& self.mass.num > 0
        &&& 0 <= self.radius <= COORD_LIMIT
        &&& self.bounciness.wf()
    }

    /// The particle after one integration step under `gravity` with damping
    /// factor `damping` per tick, reflected off the box of half extents `half`
    /// shrunk by its radius; the accumulated acceleration is cleared.
    pub open spec fn integrated(self, dt: Ratio, damping: Ratio, gravity: Vec2, half: Vec2) -> Point {
        let (px, ppx) = integrate_axis(
            self.position.x as int,
            self.previous_position.x as int,
            self.acceleration.x + gravity.x,
            -half.x + self.radius,
            half.x - self.radius,
            self.bounciness,
            dt,
            damping,
        );
        let (py, ppy) = integrate_axis(
            self.position.y as int,
            self.previous_position.y as int,
            self.acceleration.y + gravity.y,
            -half.y + self.radius,
            half.y - self.radius,
            self.bounciness,
            dt,
            damping,
        );
        Point {
            position: vec_of(px, py),
            previous_position: vec_of(ppx, ppy),
            acceleration: vec_of(0, 0),
            ..self
        }
    }

    /// The particle after `verlet_step`.
    pub open spec fn verlet_stepped(self, dt: Ratio, damping: Ratio) -> Point {
        let nx = predict(
            self.position.x as int,
            self.previous_position.x as int,
            self.acceleration.x as int,
            dt,
            damping,
        );
        let ny = predict(
            self.position.y as int,
            self.previous_position.y as int,
            self.acceleration.y as int,
            dt,
            damping,
        );
        Point {
            position: vec_of(nx, ny),
            previous_position: self.position,
            acceleration: vec_of(0, 0),
            ..self
        }
    }

    /// A particle at rest at `pos`: mass 1, radius 5 world units, bounciness 1/2.
    pub fn new(pos: Vec2, index: usize) -> (r: Point)
        requires
            pos.wf(),
        ensures
            r.position == pos,
            r.previous_position == pos,
            r.index == index,
            r.acceleration == vec_of(0, 0),
            r.mass == (Ratio { num: 1, den: 1 }),
            r.radius == 5 * UNIT,
            r.bounciness == (Ratio { num: 1, den: 2 }),
            r.wf(),
    {
        Point {
            index,
            position: pos,
            previous_position: pos,
            acceleration: Vec2::zero(),
            mass: Ratio { num: 1, den: 1 },
            radius: 5 * UNIT,
            bounciness: Ratio { num: 1, den: 2 },
        }
    }

    /// A particle at `pos` moving with velocity `v0` per second, encoded as
    /// `previous_position = pos - v0 * dt`.
    pub fn with_initial_velocity(pos: Vec2, v0: Vec2, dt: Ratio, index: usize) -> (r: Point)
        requires
            pos.wf(),
            v0.wf(),
            dt.wf(),
        ensures
            r == (Point {
                previous_position: vec_of(
                    sat(pos.x - scale(v0.x as int, dt)),
                    sat(pos.y - scale(v0.y as int, dt)),
                ),
                ..Point::new_spec(pos, index)
            }),
            r.wf(),
    {
        let mut p = Point::new(pos, index);
        proof {
            lemma_scale_bound(v0.x as int, dt);
            lemma_scale_bound(v0.y as int, dt);
        }
        let ox = scale_by(v0.x as i128, dt);
        let oy = scale_by(v0.y as i128, dt);
        p.previous_position = Vec2 {
            x: sat_coord(pos.x as i128 - ox),
            y: sat_coord(pos.y as i128 - oy),
        };
        p
    }

    pub open spec fn new_spec(pos: Vec2, index: usize) -> Point {
        Point {
            index,
            position: pos,
            previous_position: pos,
            acceleration: vec_of(0, 0),
            mass: Ratio { num: 1, den: 1 },
            radius: (5 * UNIT) as i64,
            bounciness: Ratio { num: 1, den: 2 },
        }
    }

    /// One integration step: the Verlet prediction under the accumulated
    /// acceleration plus `gravity`, with the step's velocity damped by
    /// `damping_per_tick`, clamped to the box of half extents `half` shrunk by the
    /// radius with the velocity reflected and scaled by the bounciness at each
    /// crossed side; the accumulated acceleration is cleared.
    pub fn integrate(&mut self, dt: Ratio, damping_per_tick: Ratio, gravity: Vec2, half: Vec2)
        requires
            old(self).wf(),
            dt.wf(),
            damping_per_tick.wf(),
            gravity.wf(),
            half.wf(),
        ensures
            *final(self) == old(self).integrated(dt, damping_per_tick, gravity, half),
            final(self).wf(),
    {
        let (px, ppx) = integrate_axis_exec(
            self.position.x,
            self.previous_position.x,
            self.acceleration.x as i128 + gravity.x as i128,
            -(half.x as i128) + self.radius as i128,
            half.x as i128 - self.radius as i128,
            self.bounciness,
            dt,
            damping_per_tick,
        );
        let (py, ppy) = integrate_axis_exec(
            self.position.y,
            self.previous_position.y,
            self.acceleration.y as i128 + gravity.y as i128,
            -(half.y as i128) + self.radius as i128,
            half.y as i128 - self.radius as i128,
            self.bounciness,
            dt,
            damping_per_tick,
        );
        self.position = Vec2 { x: px, y: py };
        self.previous_position = Vec2 { x: ppx, y: ppy };
        self.acceleration = Vec2::zero();
    }

    /// One Verlet step without bounds: `x' = x + (x - xp) * damping + a * dt^2`
    /// (saturated); the previous position becomes `x`, the acceleration is
    /// cleared, and the step's velocity `x' - x` is returned.
    pub fn verlet_step(&mut self, dt: Ratio, damping: Ratio) -> (v: Vec2)
        requires
            old(self).wf(),
            dt.wf(),
            damping.wf(),
        ensures
            *final(self) == old(self).verlet_stepped(dt, damping),
            v.x == final(self).position.x - old(self).position.x,
            v.y == final(self).position.y - old(self).position.y,
            final(self).wf(),
    {
        let x_t = self.position;
        let nx = predict_exec(
            self.position.x,
            self.previous_position.x,
            self.acceleration.x as i128,
            dt,
            damping,
        );
        let ny = predict_exec(
            self.position.y,
            self.previous_position.y,
            self.acceleration.y as i128,
            dt,
            damping,
        );
        let v = Vec2 { x: nx - x_t.x, y: ny - x_t.y };
        self.previous_position = x_t;
        self.position = Vec2 { x: nx, y: ny };
        self.acceleration = Vec2::zero();
        v
    }

    /// Clamps the current position into the box of half extents `half_extents`
    /// shrunk by the radius, one side per axis, reflecting that axis's implicit
    /// velocity scaled by the bounciness; the previous position is rebuilt from it.
    pub fn bounce_in_bounds(&mut self, half_extents: Vec2)
        requires
            old(self).wf(),
            half_extents.wf(),
        ensures
            ({
                let o = *old(self);
                let (px, ppx) = reflect_axis(
                    o.position.x as int,
                    o.previous_position.x as int,
                    -half_extents.x + o.radius,
                    half_extents.x - o.radius,
                    o.bounciness,
                );
                let (py, ppy) = reflect_axis(
                    o.position.y as int,
                    o.previous_position.y as int,
                    -half_extents.y + o.radius,
                    half_extents.y - o.radius,
                    o.bounciness,
                );
                *final(self) == (Point {
                    position: vec_of(px, py),
                    previous_position: vec_of(ppx, ppy),
                    ..o
                })
            }),
            final(self).wf(),
    {
        let (px, ppx) = reflect_axis_exec(
            self.position.x,
            self.previous_position.x,
            -(half_extents.x as i128) + self.radius as i128,
            half_extents.x as i128 - self.radius as i128,
            self.bounciness,
        );
        let (py, ppy) = reflect_axis_exec(
            self.position.y,
            self.previous_position.y,
            -(half_extents.y as i128) + self.radius as i128,
            half_extents.y as i128 - self.radius as i128,
            self.bounciness,
        );
        self.position = Vec2 { x: px, y: py };
        self.previous_position = Vec2 { x: ppx, y: ppy };
    }

    /// Clamps both positions componentwise: `min(max(v, min), max)`.
    pub fn clamp_to_bounds(&mut self, min: Vec2, max: Vec2)
        requires
            old(self).wf(),
            min.wf(),
            max.wf(),
        ensures
            ({
                let o = *old(self);
                *final(self) == (Point {
                    position: vec_of(
                        clamp_coord(o.position.x as int, min.x as int, max.x as int),
                        clamp_coord(o.position.y as int, min.y as int, max.y as int),
                    ),
                    previous_position: vec_of(
                        clamp_coord(o.previous_position.x as int, min.x as int, max.x as int),
                        clamp_coord(o.previous_position.y as int, min.y as int, max.y as int),
                    ),
                    ..o
                })
            }),
            final(self).wf(),
    {
        self.position = Vec2 {
            x: clamp_exec(self.position.x, min.x, max.x),
            y: clamp_exec(self.position.y, min.y, max.y),
        };
        self.previous_position = Vec2 {
            x: clamp_exec(self.previous_position.x, min.x, max.x),
            y: clamp_exec(self.previous_position.y, min.y, max.y),
        };
    }

    /// When `mouse_pressed`, a particle strictly within `push_dist` of
    /// `mouse_pos` (and not at it) is put at rest at distance `push_dist` from it,
    /// along its own direction; returns whether it moved.
    pub fn collide_with_mouse(&mut self, mouse_pos: Vec2, mouse_pressed: bool, push_dist: i64) -> (moved: bool)
        requires
            old(self).wf(),
            mouse_pos.wf(),
            -COORD_LIMIT <= push_dist <= COORD_LIMIT,
        ensures
            ({
                let o = *old(self);
                let dx = o.position.x - mouse_pos.x;
                let dy = o.position.y - mouse_pos.y;
                let d2 = dx * dx + dy * dy;
                let hit = mouse_pressed && 0 < d2 < push_dist * push_dist;
                let (cx, cy) = along(dx, dy, push_dist as int, 1);
                let np = vec_of(sat(mouse_pos.x + cx), sat(mouse_pos.y + cy));
                &&& moved == hit
                &&& hit ==> *final(self) == (Point { position: np, previous_position: np, ..o })
                &&& !hit ==> *final(self) == o
            }),
            final(self).wf(),
    {
        if !mouse_pressed {
            return false;
        }
        let dx = self.position.x as i128 - mouse_pos.x as i128;
        let dy = self.position.y as i128 - mouse_pos.y as i128;
        assert(0 <= dx * dx <= 0x4000_0000_0000_0000 && 0 <= dy * dy <= 0x4000_0000_0000_0000)
            by (nonlinear_arith)
            requires
                -0x8000_0000 <= dx <= 0x8000_0000,
                -0x8000_0000 <= dy <= 0x8000_0000,
        ;
        assert(0 <= push_dist * push_dist <= 0x1000_0000_0000_0000) by (nonlinear_arith)
            requires
                -COORD_LIMIT <= push_dist <= COORD_LIMIT,
        ;
        let d2 = dx * dx + dy * dy;
        if d2 < push_dist as i128 * push_dist as i128 && d2 > 0 {
            let (cx, cy) = along_exec(dx as i64, dy as i64, push_dist, 1);
            let np = Vec2 {
                x: sat_coord(mouse_pos.x as i128 + cx as i128),
                y: sat_coord(mouse_pos.y as i128 + cy as i128),
            };
            self.position = np;
            self.previous_position = np;
            return true;
        }
        false
    }

    /// Moves the particle to `new_pos` at rest (both positions).
    pub fn set_position(&mut self, new_pos: Vec2)
        ensures
            *final(self) == (Point { position: new_pos, previous_position: new_pos, ..*old(self) }),
    {
        self.position = new_pos;
        self.previous_position = new_pos;
    }

    pub fn set_position_xy(&mut self, x: i64, y: i64)
        ensures
            *final(self) == (Point {
                position: Vec2 { x, y },
                previous_position: Vec2 { x, y },
                ..*old(self)
            }),
    {
        self.set_position(Vec2::new(x, y));
    }

    pub fn set_previous_position(&mut self, new_prev: Vec2)
        ensures
            *final(self) == (Point { previous_position: new_prev, ..*old(self) }),
    {
        self.previous_position = new_prev;
    }

    pub fn set_previous_position_xy(&mut self, x: i64, y: i64)
        ensures
            *final(self) == (Point { previous_position: Vec2 { x, y }, ..*old(self) }),
    {
        self.set_previous_position(Vec2::new(x, y));
    }

    /// Sets the current position only, which changes the implicit velocity.
    pub fn set_current_position(&mut self, pos: Vec2)
        ensures
            *final(self) == (Point { position: pos, ..*old(self) }),
    {
        self.position = pos;
    }

    pub fn set_current_position_xy(&mut self, x: i64, y: i64)
        ensures
            *final(self) == (Point { position: Vec2 { x, y }, ..*old(self) }),
    {
        self.set_current_position(Vec2::new(x, y));
    }

    /// Accumulates the acceleration `force / mass`, rounded down and saturated.
    pub fn apply_force(&mut self, force: Vec2)
        requires
            old(self).wf(),
            force.wf(),
        ensures
            *final(self) == (Point {
                acceleration: vec_of(
                    sat(old(self).acceleration.x + (force.x * old(self).mass.den) / (old(
                        self,
                    ).mass.num as int)),
                    sat(old(self).acceleration.y + (force.y * old(self).mass.den) / (old(
                        self,
                    ).mass.num as int)),
                ),
                ..*old(self)
            }),
            final(self).wf(),
    {
        let inv = Ratio { num: self.mass.den, den: self.mass.num };
        proof {
            lemma_scale_bound(force.x as int, inv);
            lemma_scale_bound(force.y as int, inv);
        }
        let ax = scale_by(force.x as i128, inv);
        let ay = scale_by(force.y as i128, inv);
        self.acceleration = Vec2 {
            x: sat_coord(self.acceleration.x as i128 + ax),
            y: sat_coord(self.acceleration.y as i128 + ay),
        };
    }

    /// Translates both positions by `delta`, keeping the implicit velocity
    /// (up to saturation).
    pub fn move_by(&mut self, delta: Vec2)
        requires
            old(self).wf(),
            delta.wf(),
        ensures
            *final(self) == (Point {
                position: vec_of(
                    sat(old(self).position.x + delta.x),
                    sat(old(self).position.y + delta.y),
                ),
                previous_position: vec_of(
                    sat(old(self).previous_position.x + delta.x),
                    sat(old(self).previous_position.y + delta.y),
                ),
                ..*old(self)
            }),
            final(self).wf(),
    {
        self.position = Vec2 {
            x: sat_coord(self.position.x as i128 + delta.x as i128),
            y: sat_coord(self.position.y as i128 + delta.y as i128),
        };
        self.previous_position = Vec2 {
            x: sat_coord(self.previous_position.x as i128 + delta.x as i128),
            y: sat_coord(self.previous_position.y as i128 + delta.y as i128),
        };
    }
}

/// A coordinate predicted past a wall of a non-inverted range is clamped
/// exactly onto that wall, and leaves with the incoming step velocity reversed
/// and scaled by the bounciness `b` (stated where the rebuilt previous position
/// does not saturate).
pub proof fn lemma_wall_rebound(
    x: int,
    xp: int,
    a: int,
    lo: int,
    hi: int,
    b: Ratio,
    dt: Ratio,
    damping: Ratio,
)
    requires
        lo <= hi,
        in_range(lo),
        in_range(hi),
    ensures
        ({
            let xn = predict(x, xp, a, dt, damping);
            let v = xn - x;
            let (pos, prev) = integrate_axis(x, xp, a, lo, hi, b, dt, damping);
            &&& (xn > hi && in_range(hi - scale(-v, b))) ==> pos == hi && pos - prev == scale(-v, b)
            &&& (xn < lo && in_range(lo - scale(-v, b))) ==> pos == lo && pos - prev == scale(-v, b)
        }),
{
}

/// `bounce_in_bounds` on a coordinate past a wall of a non-inverted range puts
/// it exactly on that wall, with the velocity reversed and scaled by the
/// bounciness `b` (stated where the rebuilt previous position does not saturate).
pub proof fn lemma_reflect_rebound(x: int, xp: int, lo: int, hi: int, b: Ratio)
    requires
        lo <= hi,
        in_range(lo),
        in_range(hi),
    ensures
        ({
            let v = x - xp;
            let (pos, prev) = reflect_axis(x, xp, lo, hi, b);
            &&& (x > hi && in_range(hi - scale(-v, b))) ==> pos == hi && pos - prev == scale(-v, b)
            &&& (x < lo && in_range(lo - scale(-v, b))) ==> pos == lo && pos - prev == scale(-v, b)
        }),
{
}

/// `k` calls of `verlet_step` in a row.
pub open spec fn verlet_n(p: Point, k: nat, dt: Ratio, damping: Ratio) -> Point
    decreases k,
{
    if k == 0 {
        p
    } else {
        verlet_n(p, (k - 1) as nat, dt, damping).verlet_stepped(dt, damping)
    }
}

/// Without damping or acceleration, repeated `verlet_step` moves a particle in a
/// straight line: after `k` steps it has moved by `k` times its per-tick
/// velocity, which it keeps (while the path stays in the storable range).
pub proof fn lemma_verlet_drift(p: Point, k: nat, dt: Ratio, damping: Ratio)
    requires
        p.wf(),
        dt.wf(),
        damping.wf(),
        damping.num == damping.den,
        p.acceleration == vec_of(0, 0),
        forall|j: int| 0 <= j <= k ==> in_range(#[trigger] (p.position.x + j * (p.position.x - p.previous_position.x))),
        forall|j: int| 0 <= j <= k ==> in_range(#[trigger] (p.position.y + j * (p.position.y - p.previous_position.y))),
    ensures
        ({
            let q = verlet_n(p, k, dt, damping);
            let vx = p.position.x - p.previous_position.x;
            let vy = p.position.y - p.previous_position.y;
            &&& q.position.x == p.position.x + k * vx
            &&& q.position.y == p.position.y + k * vy
            &&& q.position.x - q.previous_position.x == vx
            &&& q.position.y - q.previous_position.y == vy
            &&& q.acceleration == vec_of(0, 0)
        }),
    decreases k,
{
    let vx = p.position.x - p.previous_position.x;
    let vy = p.position.y - p.previous_position.y;
    if k > 0 {
        let k1 = (k - 1) as nat;
        let x0 = p.position.x as int;
        let y0 = p.position.y as int;
        lemma_verlet_drift(p, k1, dt, damping);
        lemma_undamped(vx, damping);
        lemma_undamped(vy, damping);
        let nn = dt.num * dt.num;
        let dd = dt.den * dt.den;
        assert(dd > 0) by (nonlinear_arith)
            requires
                dt.den > 0,
                dd == dt.den * dt.den,
        ;
        assert((0 * nn) / dd == 0) by (nonlinear_arith)
            requires
                dd > 0,
        ;
        assert(accel_term(0, dt) == 0);
        assert(x0 + k1 * vx + vx == x0 + k * vx) by (nonlinear_arith)
            requires
                k1 == k - 1,
        ;
        assert(y0 + k1 * vy + vy == y0 + k * vy) by (nonlinear_arith)
            requires
                k1 == k - 1,
        ;
        let kk = k as int;
        assert(in_range(x0 + kk * vx));
        assert(in_range(y0 + kk * vy));
        assert(in_range(x0 + k1 * vx));
        assert(in_range(y0 + k1 * vy));
    }
}

/// `k` integration steps in a row.
pub open spec fn integrated_n(
    p: Point,
    k: nat,
    dt: Ratio,
    damping: Ratio,
    gravity: Vec2,
    half: Vec2,
) -> Point
    decreases k,
{
    if k == 0 {
        p
    } else {
        integrated_n(p, (k - 1) as nat, dt, damping, gravity, half).integrated(
            dt,
            damping,
            gravity,
            half,
        )
    }
}

/// The stretch `x0 + j v` for `0 <= j <= k` stays inside `[lo, hi]` and the
/// storable range.
pub open spec fn path_clear(x0: int, v: int, k: int, lo: int, hi: int) -> bool {
    forall|j: int| 0 <= j <= k ==> lo <= #[trigger] (x0 + j * v) <= hi && in_range(x0 + j * v)
}

proof fn lemma_undamped(v: int, damping: Ratio)
    requires
        damping.wf(),
        damping.num == damping.den,
    ensures
        scale(v, damping) == v,
{
    let n = damping.num as int;
    assert((v * n) / n == v) by (nonlinear_arith)
        requires
            n > 0,
    {
        vstd::arithmetic::div_mod::lemma_div_multiples_vanish(v, n);
        vstd::arithmetic::mul::lemma_mul_is_commutative(v, n);
    }
}

/// Without damping (`damping == 1`), acceleration or gravity, a particle whose
/// straight path stays clear of the walls moves in a straight line: after `k`
/// steps it has moved by exactly `k` times its per-tick velocity
/// `v = position - previous_position`.
pub proof fn lemma_free_drift(p: Point, k: nat, dt: Ratio, damping: Ratio, half: Vec2)
    requires
        p.wf(),
        dt.wf(),
        damping.wf(),
        damping.num == damping.den,
        p.acceleration == vec_of(0, 0),
        path_clear(
            p.position.x as int,
            p.position.x - p.previous_position.x,
            k as int,
            -half.x + p.radius,
            half.x - p.radius,
        ),
        path_clear(
            p.position.y as int,
            p.position.y - p.previous_position.y,
            k as int,
            -half.y + p.radius,
            half.y - p.radius,
        ),
    ensures
        ({
            let q = integrated_n(p, k, dt, damping, vec_of(0, 0), half);
            let vx = p.position.x - p.previous_position.x;
            let vy = p.position.y - p.previous_position.y;
            &&& q.position.x == p.position.x + k * vx
            &&& q.position.y == p.position.y + k * vy
            &&& q.position.x - q.previous_position.x == vx
            &&& q.position.y - q.previous_position.y == vy
            &&& q.acceleration == vec_of(0, 0)
            &&& q.radius == p.radius
            &&& q.bounciness == p.bounciness
        }),
    decreases k,
{
    let vx = p.position.x - p.previous_position.x;
    let vy = p.position.y - p.previous_position.y;
    if k > 0 {
        let k1 = (k - 1) as nat;
        let x0 = p.position.x as int;
        let y0 = p.position.y as int;
        assert(path_clear(x0, vx, k1 as int, -half.x + p.radius, half.x - p.radius));
        assert(path_clear(y0, vy, k1 as int, -half.y + p.radius, half.y - p.radius));
        lemma_free_drift(p, k1, dt, damping, half);
        let q = integrated_n(p, k1, dt, damping, vec_of(0, 0), half);
        lemma_undamped(vx, damping);
        lemma_undamped(vy, damping);
        let nn = dt.num * dt.num;
        let dd = dt.den * dt.den;
        assert(dd > 0) by (nonlinear_arith)
            requires
                dt.den > 0,
                dd == dt.den * dt.den,
        ;
        assert((0 * nn) / dd == 0) by (nonlinear_arith)
            requires
                dd > 0,
        ;
        assert(accel_term(0, dt) == 0);
        assert(x0 + k1 * vx + vx == x0 + k * vx) by (nonlinear_arith)
            requires
                k1 == k - 1,
        ;
        assert(y0 + k1 * vy + vy == y0 + k * vy) by (nonlinear_arith)
            requires
                k1 == k - 1,
        ;
        let kk = k as int;
        assert(-half.x + p.radius <= x0 + kk * vx <= half.x - p.radius && in_range(x0 + kk * vx));
        assert(-half.y + p.radius <= y0 + kk * vy <= half.y - p.radius && in_range(y0 + kk * vy));
        assert(-half.x + p.radius <= x0 + k1 * vx <= half.x - p.radius && in_range(x0 + k1 * vx));
        assert(-half.y + p.radius <= y0 + k1 * vy <= half.y - p.radius && in_range(y0 + k1 * vy));
    }
}

/// Integration is a function of the particle and the step's inputs alone.
pub proof fn lemma_integration_deterministic(
    p: Point,
    q: Point,
    dt: Ratio,
    damping: Ratio,
    gravity: Vec2,
    half: Vec2,
)
    requires
        p == q,
    ensures
        p.integrated(dt, damping, gravity, half) == q.integrated(dt, damping, gravity, half),
{
}

} // verus!
