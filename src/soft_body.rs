//! A ring of particles kept in shape by edge-length and area constraints.
use crate::effector::{collide_point_with_swept_effector, swept_collision, EffectorState};
use crate::fixed::{
    abs, clamp_int, along, along_exec, floor_div, in_range, isqrt, lemma_sqrt_le,
    sat, sat_coord, sqrt_floor, trunc_div, trunc_div_exec, Ratio, Vec2, COORD_LIMIT,
};
use crate::point::{vec_of, Point};
use vstd::prelude::*;

verus! {

/// Largest number of particles in a ring.
pub const MAX_POINTS: usize = 65536;

/// Solver iterations per tick.
pub const CONSTRAINT_ITERATIONS: usize = 10;

/// Numerator of the ratio that stands for pi.
pub const PI_NUM: i64 = 355;

/// Denominator of the ratio that stands for pi.
pub const PI_DEN: i64 = 113;

/// Bound on a ring's circumference and chord length (2^33).
pub const LENGTH_LIMIT: i64 = 8589934592;

/// Half extents of the world box, centred at the origin.
#[derive(Clone, Copy, PartialEq, Eq, Debug, Structural)]
pub struct WorldBounds {
    pub half: Vec2,
}

/// A closed ring of particles and its geometric targets.
pub struct SoftBody {
    pub points: Vec<Point>,
    pub num_points: usize,
    /// Nominal ring radius.
    pub radius: i64,
    /// Scale of the target area.
    pub puffiness: Ratio,
    /// Target area: `pi r^2 puffiness`, rounded down.
    pub desired_area: i128,
    /// `2 pi r`, rounded down.
    pub circumference: i64,
    /// Target edge length: `circumference / num_points`, rounded down.
    pub chord_length: i64,
}

pub open spec fn desired_area_of(radius: int, puffiness: Ratio) -> int {
    (radius * radius * PI_NUM * puffiness.num) / (PI_DEN * puffiness.den)
}

pub open spec fn circumference_of(radius: int) -> int {
    (2 * radius * PI_NUM) / (PI_DEN as int)
}

pub open spec fn next_index(n: int, i: int) -> int {
    if i + 1 == n {
        0
    } else {
        i + 1
    }
}

pub open spec fn prev_index(n: int, i: int) -> int {
    if i == 0 {
        n - 1
    } else {
        i - 1
    }
}

/// Every position can be stored.
pub open spec fn ring_wf(ps: Seq<Vec2>) -> bool {
    forall|i: int| 0 <= i < ps.len() ==> (#[trigger] ps[i]).wf()
}

/// The vector from particle `i` to its successor.
pub open spec fn edge(ps: Seq<Vec2>, i: int) -> (int, int) {
    let j = next_index(ps.len() as int, i);
    (ps[j].x - ps[i].x, ps[j].y - ps[i].y)
}

pub open spec fn edge_len2(ps: Seq<Vec2>, i: int) -> int {
    let (dx, dy) = edge(ps, i);
    dx * dx + dy * dy
}

/// Edge `i` is longer than `chord`.
pub open spec fn edge_stretched(ps: Seq<Vec2>, chord: int, i: int) -> bool {
    edge_len2(ps, i) > chord * chord
}

/// The correction of a stretched edge `i`: along the edge, with length half its
/// excess over `chord`; particle `i` moves by it and its successor against it.
pub open spec fn edge_offset(ps: Seq<Vec2>, chord: int, i: int) -> (int, int) {
    let (dx, dy) = edge(ps, i);
    if edge_stretched(ps, chord, i) {
        along(dx, dy, sqrt_floor(edge_len2(ps, i)) - chord, 2)
    } else {
        (0, 0)
    }
}

/// The shoelace term of edge `i`: twice its signed contribution to the area.
pub open spec fn shoelace_term(ps: Seq<Vec2>, i: int) -> int {
    let j = next_index(ps.len() as int, i);
    (ps[i].x - ps[j].x) * (ps[i].y + ps[j].y)
}

pub open spec fn shoelace(ps: Seq<Vec2>, k: int) -> int
    decreases k,
{
    if k <= 0 {
        0
    } else {
        shoelace(ps, k - 1) + shoelace_term(ps, k - 1)
    }
}

/// Twice the signed area of the ring (counter-clockwise positive); zero under
/// three points.
pub open spec fn doubled_area(ps: Seq<Vec2>) -> int {
    if ps.len() < 3 {
        0
    } else {
        shoelace(ps, ps.len() as int)
    }
}

/// How far each particle moves along its normal to correct the area:
/// `(desired - area) / circumference`, rounded toward zero and saturated; zero
/// for a zero circumference.
pub open spec fn area_offset(ps: Seq<Vec2>, desired: int, circ: int) -> int {
    if circ == 0 {
        0
    } else {
        clamp_int(
            trunc_div(2 * desired - doubled_area(ps), 2 * circ),
            -COORD_LIMIT as int,
            COORD_LIMIT as int,
        )
    }
}

/// The area correction of particle `i`: length `|off|` along the normal
/// `(s.y, -s.x)` of the secant `s` from its predecessor to its successor (the
/// outward normal of a counter-clockwise ring), or zero for a zero secant.
pub open spec fn dilation(ps: Seq<Vec2>, off: int, i: int) -> (int, int) {
    let n = ps.len() as int;
    let a = ps[prev_index(n, i)];
    let b = ps[next_index(n, i)];
    let sx = b.x - a.x;
    let sy = b.y - a.y;
    if sx == 0 && sy == 0 {
        (0, 0)
    } else {
        along(sy, -sx, off, 1)
    }
}

/// The number of corrections that particle `i` averages: its two edges when
/// stretched, and the area correction.
pub open spec fn weight(ps: Seq<Vec2>, chord: int, i: int) -> int {
    let n = ps.len() as int;
    (if edge_stretched(ps, chord, i) {
        1int
    } else {
        0int
    }) + (if edge_stretched(ps, chord, prev_index(n, i)) {
        1int
    } else {
        0int
    }) + 1
}

/// Particle `i` moved by the average of its corrections (rounded toward zero).
pub open spec fn relaxed_position(
    ps: Seq<Vec2>,
    chord: int,
    desired: int,
    circ: int,
    i: int,
) -> Vec2 {
    let n = ps.len() as int;
    let (ox, oy) = edge_offset(ps, chord, i);
    let (qx, qy) = edge_offset(ps, chord, prev_index(n, i));
    let (ax, ay) = dilation(ps, area_offset(ps, desired, circ), i);
    let w = weight(ps, chord, i);
    vec_of(
        sat(ps[i].x + trunc_div(ox - qx + ax, w)),
        sat(ps[i].y + trunc_div(oy - qy + ay, w)),
    )
}

/// One pass of the distance and area constraints over the ring.
pub open spec fn relaxed(ps: Seq<Vec2>, chord: int, desired: int, circ: int) -> Seq<Vec2> {
    Seq::new(ps.len(), |i: int| relaxed_position(ps, chord, desired, circ, i))
}

/// Every position pushed out of the effector's capsule, when there is one.
pub open spec fn pushed(ps: Seq<Vec2>, effector: Option<EffectorState>) -> Seq<Vec2> {
    match effector {
        Some(e) => Seq::new(
            ps.len(),
            |i: int| swept_collision(ps[i], e.prev, e.curr, e.radius as int),
        ),
        None => ps,
    }
}

/// One solver iteration: constraints, then the effector.
pub open spec fn solver_iteration(
    ps: Seq<Vec2>,
    chord: int,
    desired: int,
    circ: int,
    effector: Option<EffectorState>,
) -> Seq<Vec2> {
    pushed(relaxed(ps, chord, desired, circ), effector)
}

pub open spec fn solved(
    ps: Seq<Vec2>,
    k: nat,
    chord: int,
    desired: int,
    circ: int,
    effector: Option<EffectorState>,
) -> Seq<Vec2>
    decreases k,
{
    if k == 0 {
        ps
    } else {
        solver_iteration(solved(ps, (k - 1) as nat, chord, desired, circ, effector), chord, desired, circ, effector)
    }
}

pub open spec fn effector_wf(effector: Option<EffectorState>) -> bool {
    match effector {
        Some(e) => e.wf(),
        None => true,
    }
}

/// The targets that the solver can work with.
pub open spec fn targets_wf(chord: int, desired: int, circ: int) -> bool {
    &&& 0 <= chord <= LENGTH_LIMIT
    &&& 0 <= circ <= LENGTH_LIMIT
    &&& -0x1_0000_0000_0000_0000_0000_0000 <= desired <= 0x1_0000_0000_0000_0000_0000_0000
}

/// A ring the solver can work on.
pub open spec fn solvable(ps: Seq<Vec2>) -> bool {
    3 <= ps.len() <= MAX_POINTS && ring_wf(ps)
}

fn next_of(n: usize, i: usize) -> (j: usize)
    requires
        i < n,
    ensures
        j == next_index(n as int, i as int),
        j < n,
{
    if i + 1 == n {
        0
    } else {
        i + 1
    }
}

fn prev_of(n: usize, i: usize) -> (j: usize)
    requires
        i < n,
    ensures
        j == prev_index(n as int, i as int),
        j < n,
{
    if i == 0 {
        n - 1
    } else {
        i - 1
    }
}

proof fn lemma_square_bound(d: int)
    requires
        -0x8000_0000 <= d <= 0x8000_0000,
    ensures
        0 <= d * d <= 0x4000_0000_0000_0000,
{
    assert(0 <= d * d <= 0x4000_0000_0000_0000) by (nonlinear_arith)
        requires
            -0x8000_0000 <= d <= 0x8000_0000,
    ;
}

/// The correction of edge `i` and whether it is stretched.
fn edge_offset_exec(ps: &Vec<Vec2>, chord: i64, i: usize) -> (r: (Vec2, bool))
    requires
        solvable(ps@),
        0 <= chord <= LENGTH_LIMIT,
        i < ps.len(),
    ensures
        (r.0.x as int, r.0.y as int) == edge_offset(ps@, chord as int, i as int),
        r.1 == edge_stretched(ps@, chord as int, i as int),
        abs(r.0.x as int) <= 0x1_0000_0000,
        abs(r.0.y as int) <= 0x1_0000_0000,
{
    let n = ps.len();
    let j = next_of(n, i);
    assert(ps@[i as int].wf() && ps@[j as int].wf());
    let dx = ps[j].x as i128 - ps[i].x as i128;
    let dy = ps[j].y as i128 - ps[i].y as i128;
    proof {
        lemma_square_bound(dx as int);
        lemma_square_bound(dy as int);
    }
    let d2 = dx * dx + dy * dy;
    assert(0 <= chord * chord <= 0x4_0000_0000_0000_0000) by (nonlinear_arith)
        requires
            0 <= chord <= LENGTH_LIMIT,
    ;
    let cc = chord as i128 * chord as i128;
    if d2 > cc {
        let len = isqrt(d2 as u128);
        proof {
            lemma_sqrt_le(d2 as int, len as int, 0x1_0000_0000);
            assert(len >= chord) by (nonlinear_arith)
                requires
                    d2 < (len + 1) * (len + 1),
                    d2 > chord * chord,
                    len >= 0,
                    chord >= 0,
            ;
        }
        let m = len as i64 - chord;
        let (ox, oy) = along_exec(dx as i64, dy as i64, m, 2);
        (Vec2 { x: ox, y: oy }, true)
    } else {
        (Vec2 { x: 0, y: 0 }, false)
    }
}

/// Twice the signed area of the ring.
fn doubled_area_exec(ps: &Vec<Vec2>) -> (a: i128)
    requires
        solvable(ps@),
    ensures
        a == doubled_area(ps@),
        abs(a as int) <= 0x1_0000_0000_0000_0000_0000,
{
    let n = ps.len();
    let mut acc: i128 = 0;
    let mut i: usize = 0;
    while i < n
        invariant
            solvable(ps@),
            n == ps.len(),
            i <= n,
            acc == shoelace(ps@, i as int),
            abs(acc as int) <= i * 0x8000_0000_0000_0000,
        decreases n - i,
    {
        let j = next_of(n, i);
        assert(ps@[i as int].wf() && ps@[j as int].wf());
        let a = ps[i].x as i128 - ps[j].x as i128;
        let b = ps[i].y as i128 + ps[j].y as i128;
        assert(abs(a * b) <= 0x4000_0000_0000_0000) by (nonlinear_arith)
            requires
                -0x8000_0000 <= a <= 0x8000_0000,
                -0x8000_0000 <= b <= 0x8000_0000,
        ;
        acc = acc + a * b;
        i = i + 1;
    }
    acc
}

/// How far each particle moves to correct the area (see `area_offset`).
fn area_offset_exec(ps: &Vec<Vec2>, desired: i128, circ: i64) -> (off: i64)
    requires
        solvable(ps@),
        targets_wf(0, desired as int, circ as int),
    ensures
        off == area_offset(ps@, desired as int, circ as int),
        in_range(off as int),
{
    if circ == 0 {
        0
    } else {
        let area2 = doubled_area_exec(ps);
        let q = trunc_div_exec(2 * desired - area2, 2 * circ as i128);
        if q < -(COORD_LIMIT as i128) {
            -COORD_LIMIT
        } else if q > COORD_LIMIT as i128 {
            COORD_LIMIT
        } else {
            q as i64
        }
    }
}

/// The area correction of particle `i` (see `dilation`).
fn dilation_exec(ps: &Vec<Vec2>, off: i64, i: usize) -> (c: Vec2)
    requires
        solvable(ps@),
        in_range(off as int),
        i < ps.len(),
    ensures
        (c.x as int, c.y as int) == dilation(ps@, off as int, i as int),
        c.wf(),
{
    let n = ps.len();
    let a = prev_of(n, i);
    let b = next_of(n, i);
    assert(ps@[a as int].wf() && ps@[b as int].wf());
    let sx = ps[b].x - ps[a].x;
    let sy = ps[b].y - ps[a].y;
    if sx == 0 && sy == 0 {
        Vec2 { x: 0, y: 0 }
    } else {
        let (cx, cy) = along_exec(sy, -sx, off, 1);
        Vec2 { x: cx, y: cy }
    }
}

/// The area corrections of every particle, in ring order.
pub fn dilation_corrections(ps: &Vec<Vec2>, desired_area: i128, circumference: i64) -> (out: Vec<Vec2>)
    requires
        solvable(ps@),
        targets_wf(0, desired_area as int, circumference as int),
    ensures
        out.len() == ps.len(),
        forall|i: int|
            0 <= i < ps.len() ==> ((#[trigger] out@[i]).x as int, out@[i].y as int) == dilation(
                ps@,
                area_offset(ps@, desired_area as int, circumference as int),
                i,
            ),
        ring_wf(out@),
{
    let off = area_offset_exec(ps, desired_area, circumference);
    let n = ps.len();
    let mut out: Vec<Vec2> = Vec::new();
    let mut i: usize = 0;
    while i < n
        invariant
            solvable(ps@),
            n == ps.len(),
            i <= n,
            in_range(off as int),
            off == area_offset(ps@, desired_area as int, circumference as int),
            out.len() == i,
            forall|k: int|
                0 <= k < i ==> ((#[trigger] out@[k]).x as int, out@[k].y as int) == dilation(
                    ps@,
                    off as int,
                    k,
                ),
            ring_wf(out@),
        decreases n - i,
    {
        let c = dilation_exec(ps, off, i);
        out.push(c);
        i = i + 1;
    }
    out
}

/// The signed area of a polygon (counter-clockwise positive), rounded toward
/// zero; zero under three points.
pub fn polygon_area_signed(pts: &Vec<Vec2>) -> (a: i128)
    requires
        pts.len() <= MAX_POINTS,
        ring_wf(pts@),
    ensures
        a == trunc_div(doubled_area(pts@), 2),
{
    if pts.len() < 3 {
        0
    } else {
        let a2 = doubled_area_exec(pts);
        trunc_div_exec(a2, 2)
    }
}

/// One pass of the distance and area constraints (see `relaxed`).
fn relax(ps: &Vec<Vec2>, chord: i64, desired: i128, circ: i64) -> (out: Vec<Vec2>)
    requires
        solvable(ps@),
        targets_wf(chord as int, desired as int, circ as int),
    ensures
        out@ == relaxed(ps@, chord as int, desired as int, circ as int),
        solvable(out@),
{
    let n = ps.len();
    let mut offs: Vec<Vec2> = Vec::new();
    let mut stretched: Vec<bool> = Vec::new();
    let mut i: usize = 0;
    while i < n
        invariant
            solvable(ps@),
            n == ps.len(),
            i <= n,
            0 <= chord <= LENGTH_LIMIT,
            offs.len() == i,
            stretched.len() == i,
            forall|k: int|
                0 <= k < i ==> ((#[trigger] offs@[k]).x as int, offs@[k].y as int) == edge_offset(
                    ps@,
                    chord as int,
                    k,
                ),
            forall|k: int| 0 <= k < i ==> abs((#[trigger] offs@[k]).x as int) <= 0x1_0000_0000,
            forall|k: int| 0 <= k < i ==> abs((#[trigger] offs@[k]).y as int) <= 0x1_0000_0000,
            forall|k: int|
                0 <= k < i ==> #[trigger] stretched@[k] == edge_stretched(ps@, chord as int, k),
        decreases n - i,
    {
        let (o, s) = edge_offset_exec(ps, chord, i);
        offs.push(o);
        stretched.push(s);
        i = i + 1;
    }
    let off = area_offset_exec(ps, desired, circ);
    let mut out: Vec<Vec2> = Vec::new();
    let mut i: usize = 0;
    while i < n
        invariant
            solvable(ps@),
            n == ps.len(),
            i <= n,
            in_range(off as int),
            off == area_offset(ps@, desired as int, circ as int),
            offs.len() == n,
            stretched.len() == n,
            forall|k: int|
                0 <= k < n ==> ((#[trigger] offs@[k]).x as int, offs@[k].y as int) == edge_offset(
                    ps@,
                    chord as int,
                    k,
                ),
            forall|k: int| 0 <= k < n ==> abs((#[trigger] offs@[k]).x as int) <= 0x1_0000_0000,
            forall|k: int| 0 <= k < n ==> abs((#[trigger] offs@[k]).y as int) <= 0x1_0000_0000,
            forall|k: int|
                0 <= k < n ==> #[trigger] stretched@[k] == edge_stretched(ps@, chord as int, k),
            out.len() == i,
            forall|k: int|
                0 <= k < i ==> #[trigger] out@[k] == relaxed_position(
                    ps@,
                    chord as int,
                    desired as int,
                    circ as int,
                    k,
                ),
            ring_wf(out@),
        decreases n - i,
    {
        let ip = prev_of(n, i);
        let a = dilation_exec(ps, off, i);
        let w: i128 = 1 + (if stretched[i] {
            1
        } else {
            0
        }) + (if stretched[ip] {
            1
        } else {
            0
        });
        let sx = offs[i].x as i128 - offs[ip].x as i128 + a.x as i128;
        let sy = offs[i].y as i128 - offs[ip].y as i128 + a.y as i128;
        let mx = trunc_div_exec(sx, w);
        let my = trunc_div_exec(sy, w);
        assert(ps@[i as int].wf());
        let p = Vec2 {
            x: sat_coord(ps[i].x as i128 + mx),
            y: sat_coord(ps[i].y as i128 + my),
        };
        proof {
            crate::fixed::lemma_div_abs_le(abs(sx as int), w as int);
            crate::fixed::lemma_div_abs_le(abs(sy as int), w as int);
        }
        out.push(p);
        i = i + 1;
    }
    assert(out@ =~= relaxed(ps@, chord as int, desired as int, circ as int));
    out
}

/// Every position pushed out of the effector's capsule.
fn push_out(ps: &mut Vec<Vec2>, e: EffectorState)
    requires
        solvable(old(ps)@),
        e.wf(),
    ensures
        final(ps)@ == pushed(old(ps)@, Some(e)),
        solvable(final(ps)@),
{
    let n = ps.len();
    let mut i: usize = 0;
    while i < n
        invariant
            n == ps.len(),
            n == old(ps).len(),
            solvable(old(ps)@),
            e.wf(),
            i <= n,
            forall|k: int|
                0 <= k < i ==> #[trigger] ps@[k] == swept_collision(
                    old(ps)@[k],
                    e.prev,
                    e.curr,
                    e.radius as int,
                ),
            forall|k: int| i <= k < n ==> #[trigger] ps@[k] == old(ps)@[k],
            ring_wf(ps@),
        decreases n - i,
    {
        let mut p = ps[i];
        assert(ps@[i as int] == old(ps)@[i as int]);
        collide_point_with_swept_effector(&mut p, e.prev, e.curr, e.radius);
        ps.set(i, p);
        i = i + 1;
    }
    assert(ps@ =~= pushed(old(ps)@, Some(e)));
}

/// One solver iteration: the distance and area constraints, then the effector
/// (when there is one) pushing every particle out of its capsule.
pub fn solve_iteration(
    ps: &Vec<Vec2>,
    chord: i64,
    desired: i128,
    circ: i64,
    effector: Option<EffectorState>,
) -> (out: Vec<Vec2>)
    requires
        solvable(ps@),
        targets_wf(chord as int, desired as int, circ as int),
        effector_wf(effector),
    ensures
        out@ == solver_iteration(ps@, chord as int, desired as int, circ as int, effector),
        solvable(out@),
{
    let mut out = relax(ps, chord, desired, circ);
    if let Some(e) = effector {
        push_out(&mut out, e);
    }
    out
}

/// The ring's positions.
pub open spec fn positions_of(pts: Seq<Point>) -> Seq<Vec2> {
    Seq::new(pts.len(), |i: int| pts[i].position)
}

/// The particles with their positions replaced by `ps`.
pub open spec fn with_positions(pts: Seq<Point>, ps: Seq<Vec2>) -> Seq<Point> {
    Seq::new(pts.len(), |i: int| Point { position: ps[i], ..pts[i] })
}

/// Every particle after one integration step.
pub open spec fn integrated_points(
    pts: Seq<Point>,
    dt: Ratio,
    damping: Ratio,
    gravity: Vec2,
    half: Vec2,
) -> Seq<Point> {
    Seq::new(pts.len(), |i: int| pts[i].integrated(dt, damping, gravity, half))
}

/// The particle that a spawned ring holds at index `i`: at `center + offset`,
/// moving with `v0` per second over a tick `dt`, accelerated by `gravity`.
pub open spec fn spawned_point(
    center: Vec2,
    offset: Vec2,
    v0: Vec2,
    dt: Ratio,
    gravity: Vec2,
    particle_radius: i64,
    mass: Ratio,
    bounciness: Ratio,
    i: int,
) -> Point {
    let pos = vec_of(sat(center.x + offset.x), sat(center.y + offset.y));
    Point {
        index: i as usize,
        position: pos,
        previous_position: vec_of(
            sat(pos.x - crate::fixed::scale(v0.x as int, dt)),
            sat(pos.y - crate::fixed::scale(v0.y as int, dt)),
        ),
        acceleration: gravity,
        mass,
        radius: particle_radius,
        bounciness,
    }
}

impl SoftBody {
    pub open spec fn wf(self) -> bool {
        &&& self.points.len() == self.num_points
        &&& 3 <= self.num_points <= MAX_POINTS
        &&& forall|i: int| 0 <= i < self.points.len() ==> (#[trigger] self.points@[i]).wf()
        &&& targets_wf(
            self.chord_length as int,
            self.desired_area as int,
            self.circumference as int,
        )
    }

    pub open spec fn positions(self) -> Seq<Vec2> {
        positions_of(self.points@)
    }

    /// A body with no particles yet and the targets of a ring of `num_points`
    /// particles on a circle of radius `radius`.
    pub fn new(num_points: usize, radius: i64, puffiness: Ratio) -> (r: SoftBody)
        requires
            3 <= num_points <= MAX_POINTS,
            0 <= radius <= COORD_LIMIT,
            puffiness.wf(),
        ensures
            r.points.len() == 0,
            r.num_points == num_points,
            r.radius == radius,
            r.puffiness == puffiness,
            r.desired_area == desired_area_of(radius as int, puffiness),
            r.circumference == circumference_of(radius as int),
            r.chord_length == circumference_of(radius as int) / (num_points as int),
            targets_wf(r.chord_length as int, r.desired_area as int, r.circumference as int),
    {
        assert(0 <= radius * radius <= 0x1000_0000_0000_0000) by (nonlinear_arith)
            requires
                0 <= radius <= COORD_LIMIT,
        ;
        let rr = radius as i128 * radius as i128;
        assert(abs(rr * 355 * puffiness.num) <= 0x1000_0000_0000_0000int * 355 * 0x100_0000)
            by (nonlinear_arith)
            requires
                0 <= rr <= 0x1000_0000_0000_0000,
                puffiness.wf(),
        ;
        let an = rr * PI_NUM as i128 * puffiness.num as i128;
        assert(PI_DEN == 113 && PI_NUM == 355);
        let ad = 113 * puffiness.den as i128;
        proof {
            crate::fixed::lemma_div_abs_le(an as int, ad as int);
        }
        let desired_area = floor_div(an, ad);
        let circumference = (2 * radius as i128 * PI_NUM as i128 / PI_DEN as i128) as i64;
        let chord_length = circumference / num_points as i64;
        SoftBody {
            points: Vec::new(),
            num_points,
            radius,
            puffiness,
            desired_area,
            circumference,
            chord_length,
        }
    }

    /// The current positions, in ring order.
    pub fn ring_positions(&self) -> (ps: Vec<Vec2>)
        requires
            self.wf(),
        ensures
            ps@ == self.positions(),
            solvable(ps@),
    {
        let n = self.points.len();
        let mut ps: Vec<Vec2> = Vec::new();
        let mut i: usize = 0;
        while i < n
            invariant
                self.wf(),
                n == self.points.len(),
                i <= n,
                ps.len() == i,
                forall|k: int| 0 <= k < i ==> #[trigger] ps@[k] == self.points@[k].position,
                ring_wf(ps@),
            decreases n - i,
        {
            assert(self.points@[i as int].wf());
            ps.push(self.points[i].position);
            i = i + 1;
        }
        assert(ps@ =~= self.positions());
        ps
    }

    /// Replaces every position by the matching entry of `ps`.
    fn set_positions(&mut self, ps: &Vec<Vec2>)
        requires
            old(self).wf(),
            ps.len() == old(self).points.len(),
            ring_wf(ps@),
        ensures
            final(self).points@ == with_positions(old(self).points@, ps@),
            final(self).num_points == old(self).num_points,
            final(self).radius == old(self).radius,
            final(self).puffiness == old(self).puffiness,
            final(self).desired_area == old(self).desired_area,
            final(self).circumference == old(self).circumference,
            final(self).chord_length == old(self).chord_length,
            final(self).wf(),
    {
        let n = self.points.len();
        let mut i: usize = 0;
        while i < n
            invariant
                n == self.points.len(),
                n == old(self).points.len(),
                n == ps.len(),
                ring_wf(ps@),
                i <= n,
                forall|k: int|
                    0 <= k < i ==> #[trigger] self.points@[k] == (Point {
                        position: ps@[k],
                        ..old(self).points@[k]
                    }),
                forall|k: int| i <= k < n ==> #[trigger] self.points@[k] == old(self).points@[k],
                forall|k: int| 0 <= k < n ==> (#[trigger] old(self).points@[k]).wf(),
                self.num_points == old(self).num_points,
                self.radius == old(self).radius,
                self.puffiness == old(self).puffiness,
                self.desired_area == old(self).desired_area,
                self.circumference == old(self).circumference,
                self.chord_length == old(self).chord_length,
            decreases n - i,
        {
            let mut p = self.points[i];
            p.position = ps[i];
            self.points.set(i, p);
            i = i + 1;
        }
        assert(self.points@ =~= with_positions(old(self).points@, ps@));
        assert forall|k: int| 0 <= k < self.points.len() implies (#[trigger] self.points@[k]).wf() by {
            assert(ps@[k].wf());
        }
    }
}

/// A ring of `ring_offsets.len()` particles around `center`, particle `i` at
/// `center + ring_offsets[i]` (the caller lays the offsets out on a circle of
/// radius `ring_radius`), each moving with `initial_vel` per second over a tick
/// `dt` and starting with the acceleration `gravity`.
pub fn spawn_soft_body(
    center: Vec2,
    ring_offsets: &Vec<Vec2>,
    ring_radius: i64,
    puffiness: Ratio,
    initial_vel: Vec2,
    dt: Ratio,
    gravity: Vec2,
    particle_radius: i64,
    mass: Ratio,
    bounciness: Ratio,
) -> (soft: SoftBody)
    requires
        3 <= ring_offsets.len() <= MAX_POINTS,
        ring_wf(ring_offsets@),
        center.wf(),
        0 <= ring_radius <= COORD_LIMIT,
        puffiness.wf(),
        initial_vel.wf(),
        dt.wf(),
        gravity.wf(),
        0 <= particle_radius <= COORD_LIMIT,
        mass.wf(),
        mass.num > 0,
        bounciness.wf(),
    ensures
        soft.wf(),
        soft.num_points == ring_offsets.len(),
        soft.radius == ring_radius,
        soft.puffiness == puffiness,
        soft.desired_area == desired_area_of(ring_radius as int, puffiness),
        soft.circumference == circumference_of(ring_radius as int),
        soft.chord_length == circumference_of(ring_radius as int) / (ring_offsets.len() as int),
        forall|i: int|
            0 <= i < soft.points.len() ==> #[trigger] soft.points@[i] == spawned_point(
                center,
                ring_offsets@[i],
                initial_vel,
                dt,
                gravity,
                particle_radius,
                mass,
                bounciness,
                i,
            ),
{
    let n = ring_offsets.len();
    let mut soft = SoftBody::new(n, ring_radius, puffiness);
    let mut i: usize = 0;
    while i < n
        invariant
            n == ring_offsets.len(),
            3 <= n <= MAX_POINTS,
            ring_wf(ring_offsets@),
            center.wf(),
            initial_vel.wf(),
            dt.wf(),
            gravity.wf(),
            0 <= particle_radius <= COORD_LIMIT,
            mass.wf(),
            mass.num > 0,
            bounciness.wf(),
            i <= n,
            soft.points.len() == i,
            soft.num_points == n,
            soft.radius == ring_radius,
            soft.puffiness == puffiness,
            soft.desired_area == desired_area_of(ring_radius as int, puffiness),
            soft.circumference == circumference_of(ring_radius as int),
            soft.chord_length == circumference_of(ring_radius as int) / (n as int),
            targets_wf(
                soft.chord_length as int,
                soft.desired_area as int,
                soft.circumference as int,
            ),
            forall|k: int|
                0 <= k < i ==> #[trigger] soft.points@[k] == spawned_point(
                    center,
                    ring_offsets@[k],
                    initial_vel,
                    dt,
                    gravity,
                    particle_radius,
                    mass,
                    bounciness,
                    k,
                ),
            forall|k: int| 0 <= k < i ==> (#[trigger] soft.points@[k]).wf(),
        decreases n - i,
    {
        assert(ring_offsets@[i as int].wf());
        let off = ring_offsets[i];
        let curr = Vec2 {
            x: sat_coord(center.x as i128 + off.x as i128),
            y: sat_coord(center.y as i128 + off.y as i128),
        };
        let mut point = Point::with_initial_velocity(curr, initial_vel, dt, i);
        point.mass = mass;
        point.radius = particle_radius;
        point.bounciness = bounciness;
        point.acceleration = gravity;
        soft.points.push(point);
        i = i + 1;
    }
    soft
}

/// One fixed tick: every particle is integrated (gravity added afresh, damped
/// by `damping_per_tick`, reflected off `bounds`), then the solver runs
/// `CONSTRAINT_ITERATIONS` iterations over the ring, pushing the particles out of
/// the effector's capsule after each when there is an effector. Only positions
/// move in the solver; previous positions keep the integration's values.
pub fn softbody_step(
    soft: &mut SoftBody,
    dt: Ratio,
    damping_per_tick: Ratio,
    gravity: Vec2,
    bounds: WorldBounds,
    effector: Option<EffectorState>,
)
    requires
        old(soft).wf(),
        dt.wf(),
        damping_per_tick.wf(),
        gravity.wf(),
        bounds.half.wf(),
        effector_wf(effector),
    ensures
        final(soft).wf(),
        ({
            let o = *old(soft);
            let ints = integrated_points(o.points@, dt, damping_per_tick, gravity, bounds.half);
            let fin = solved(
                positions_of(ints),
                CONSTRAINT_ITERATIONS as nat,
                o.chord_length as int,
                o.desired_area as int,
                o.circumference as int,
                effector,
            );
            final(soft).points@ == with_positions(ints, fin)
        }),
        final(soft).num_points == old(soft).num_points,
        final(soft).radius == old(soft).radius,
        final(soft).puffiness == old(soft).puffiness,
        final(soft).desired_area == old(soft).desired_area,
        final(soft).circumference == old(soft).circumference,
        final(soft).chord_length == old(soft).chord_length,
{
    let n = soft.points.len();
    let ghost ints = integrated_points(old(soft).points@, dt, damping_per_tick, gravity, bounds.half);
    let mut i: usize = 0;
    while i < n
        invariant
            n == soft.points.len(),
            n == old(soft).points.len(),
            old(soft).wf(),
            dt.wf(),
            damping_per_tick.wf(),
            gravity.wf(),
            bounds.half.wf(),
            i <= n,
            ints == integrated_points(old(soft).points@, dt, damping_per_tick, gravity, bounds.half),
            forall|k: int| 0 <= k < i ==> #[trigger] soft.points@[k] == ints[k],
            forall|k: int| i <= k < n ==> #[trigger] soft.points@[k] == old(soft).points@[k],
            forall|k: int| 0 <= k < n ==> (#[trigger] soft.points@[k]).wf(),
            soft.num_points == old(soft).num_points,
            soft.radius == old(soft).radius,
            soft.puffiness == old(soft).puffiness,
            soft.desired_area == old(soft).desired_area,
            soft.circumference == old(soft).circumference,
            soft.chord_length == old(soft).chord_length,
        decreases n - i,
    {
        let mut p = soft.points[i];
        p.integrate(dt, damping_per_tick, gravity, bounds.half);
        soft.points.set(i, p);
        i = i + 1;
    }
    assert(soft.points@ =~= ints);
    let mut ps = soft.ring_positions();
    let ghost ps0 = ps@;
    let mut it: usize = 0;
    while it < CONSTRAINT_ITERATIONS
        invariant
            soft.wf(),
            soft.points@ == ints,
            ps0 == positions_of(ints),
            it <= CONSTRAINT_ITERATIONS,
            effector_wf(effector),
            ps.len() == n,
            ps@ == solved(
                ps0,
                it as nat,
                soft.chord_length as int,
                soft.desired_area as int,
                soft.circumference as int,
                effector,
            ),
            solvable(ps@),
            n == soft.points.len(),
            soft.num_points == old(soft).num_points,
            soft.radius == old(soft).radius,
            soft.puffiness == old(soft).puffiness,
            soft.desired_area == old(soft).desired_area,
            soft.circumference == old(soft).circumference,
            soft.chord_length == old(soft).chord_length,
        decreases CONSTRAINT_ITERATIONS - it,
    {
        ps = solve_iteration(&ps, soft.chord_length, soft.desired_area, soft.circumference, effector);
        it = it + 1;
    }
    soft.set_positions(&ps);
}

/// When `pressed`, pushes every particle of the ring out of the effector's capsule.
pub fn effector_swept_collision_system(soft: &mut SoftBody, pressed: bool, eff: EffectorState)
    requires
        old(soft).wf(),
        eff.wf(),
    ensures
        final(soft).wf(),
        pressed ==> final(soft).points@ == with_positions(
            old(soft).points@,
            pushed(old(soft).positions(), Some(eff)),
        ),
        !pressed ==> final(soft).points@ == old(soft).points@,
        final(soft).num_points == old(soft).num_points,
        final(soft).radius == old(soft).radius,
        final(soft).puffiness == old(soft).puffiness,
        final(soft).desired_area == old(soft).desired_area,
        final(soft).circumference == old(soft).circumference,
        final(soft).chord_length == old(soft).chord_length,
{
    if !pressed {
        return;
    }
    let mut ps = soft.ring_positions();
    push_out(&mut ps, eff);
    soft.set_positions(&ps);
}

/// A ring with no edge longer than `chord` and an area within rounding of the
/// target (its area offset is zero) is a fixed point of the solver without an
/// effector: one iteration leaves every position where it is.
pub proof fn lemma_satisfied_ring_is_fixed(ps: Seq<Vec2>, chord: int, desired: int, circ: int)
    requires
        solvable(ps),
        forall|i: int| 0 <= i < ps.len() ==> !#[trigger] edge_stretched(ps, chord, i),
        area_offset(ps, desired, circ) == 0,
    ensures
        solver_iteration(ps, chord, desired, circ, None) == ps,
{
    let r = relaxed(ps, chord, desired, circ);
    let n = ps.len() as int;
    assert forall|i: int| 0 <= i < n implies #[trigger] r[i] == ps[i] by {
        assert(!edge_stretched(ps, chord, prev_index(n, i)));
        assert(!edge_stretched(ps, chord, i));
        assert(ps[i].wf());
    }
    assert(r =~= ps);
}

/// The fixed point persists over any number of iterations.
pub proof fn lemma_satisfied_ring_stays(
    ps: Seq<Vec2>,
    k: nat,
    chord: int,
    desired: int,
    circ: int,
)
    requires
        solvable(ps),
        forall|i: int| 0 <= i < ps.len() ==> !#[trigger] edge_stretched(ps, chord, i),
        area_offset(ps, desired, circ) == 0,
    ensures
        solved(ps, k, chord, desired, circ, None) == ps,
    decreases k,
{
    if k > 0 {
        lemma_satisfied_ring_stays(ps, (k - 1) as nat, chord, desired, circ);
        lemma_satisfied_ring_is_fixed(ps, chord, desired, circ);
    }
}

/// The area correction pushes along the outward normal `(s.y, -s.x)` of the
/// secant (componentwise) when the ring is smaller than its target, and
/// against it when larger.
pub proof fn lemma_area_correction_direction(ps: Seq<Vec2>, desired: int, circ: int, i: int)
    requires
        solvable(ps),
        circ > 0,
        0 <= i < ps.len(),
    ensures
        ({
            let n = ps.len() as int;
            let off = area_offset(ps, desired, circ);
            let sx = ps[next_index(n, i)].x - ps[prev_index(n, i)].x;
            let sy = ps[next_index(n, i)].y - ps[prev_index(n, i)].y;
            let (ax, ay) = dilation(ps, off, i);
            &&& doubled_area(ps) < 2 * desired ==> off >= 0
                && (crate::fixed::sgn(ax) == 0 || crate::fixed::sgn(ax) == crate::fixed::sgn(sy))
                && (crate::fixed::sgn(ay) == 0 || crate::fixed::sgn(ay) == crate::fixed::sgn(-sx))
            &&& doubled_area(ps) > 2 * desired ==> off <= 0
                && (crate::fixed::sgn(ax) == 0 || crate::fixed::sgn(ax) == -crate::fixed::sgn(sy))
                && (crate::fixed::sgn(ay) == 0 || crate::fixed::sgn(ay) == -crate::fixed::sgn(-sx))
        }),
{
    let n = ps.len() as int;
    let num = 2 * desired - doubled_area(ps);
    let den = 2 * circ;
    if num >= 0 {
        assert(num <= den * num) by (nonlinear_arith)
            requires
                num >= 0,
                den >= 1,
        ;
        crate::fixed::lemma_div_le(num, den, num);
    } else {
        assert(-num <= den * (-num)) by (nonlinear_arith)
            requires
                num < 0,
                den >= 1,
        ;
        crate::fixed::lemma_div_le(-num, den, -num);
    }
    let off = area_offset(ps, desired, circ);
    let sx = ps[next_index(n, i)].x - ps[prev_index(n, i)].x;
    let sy = ps[next_index(n, i)].y - ps[prev_index(n, i)].y;
    if !(sx == 0 && sy == 0) {
        let d2 = sy * sy + (-sx) * (-sx);
        assert(d2 > 0) by (nonlinear_arith)
            requires
                !(sx == 0 && sy == 0),
                d2 == sy * sy + (-sx) * (-sx),
        ;
        crate::fixed::lemma_along_comp(sy, d2, off, 1);
        crate::fixed::lemma_along_comp(-sx, d2, off, 1);
    }
}

/// The sum of the x coordinates of the first `k` positions.
pub open spec fn sum_x(ps: Seq<Vec2>, k: int) -> int
    decreases k,
{
    if k <= 0 {
        0
    } else {
        sum_x(ps, k - 1) + ps[k - 1].x
    }
}

/// The sum of the y coordinates of the first `k` positions.
pub open spec fn sum_y(ps: Seq<Vec2>, k: int) -> int
    decreases k,
{
    if k <= 0 {
        0
    } else {
        sum_y(ps, k - 1) + ps[k - 1].y
    }
}

/// Moving one position by `t` and another by `-t` shifts the prefix sums by
/// the moves that fall inside the prefix.
proof fn lemma_sum_opposite_moves(
    a: Seq<Vec2>,
    b: Seq<Vec2>,
    j: int,
    j1: int,
    tx: int,
    ty: int,
    k: int,
)
    requires
        a.len() == b.len(),
        0 <= j < a.len(),
        0 <= j1 < a.len(),
        j != j1,
        0 <= k <= a.len(),
        forall|i: int| 0 <= i < a.len() && i != j && i != j1 ==> #[trigger] b[i] == a[i],
        b[j].x == a[j].x + tx,
        b[j].y == a[j].y + ty,
        b[j1].x == a[j1].x - tx,
        b[j1].y == a[j1].y - ty,
    ensures
        sum_x(b, k) == sum_x(a, k) + (if j < k {
            tx
        } else {
            0
        }) - (if j1 < k {
            tx
        } else {
            0
        }),
        sum_y(b, k) == sum_y(a, k) + (if j < k {
            ty
        } else {
            0
        }) - (if j1 < k {
            ty
        } else {
            0
        }),
    decreases k,
{
    if k > 0 {
        lemma_sum_opposite_moves(a, b, j, j1, tx, ty, k - 1);
        if k - 1 != j && k - 1 != j1 {
            assert(b[k - 1] == a[k - 1]);
        }
    }
}

/// With `c^2 * 4 d2 <= d^2 m^2`, `0 <= m <= L` and `L^2 <= d2`, the correction
/// `c` is at most half of `d`.
proof fn lemma_half_of_component(d: int, c: int, d2: int, m: int, l: int)
    requires
        c >= 0,
        c * c * (d2 * (2 * 2)) <= d * d * (m * m),
        0 <= m <= l,
        l * l <= d2,
        d2 > 0,
    ensures
        2 * c <= abs(d),
{
    assert(m * m <= d2) by (nonlinear_arith)
        requires
            0 <= m <= l,
            l * l <= d2,
    ;
    assert(d * d * (m * m) <= d * d * d2) by (nonlinear_arith)
        requires
            m * m <= d2,
    ;
    assert(4 * (c * c) <= d * d) by (nonlinear_arith)
        requires
            c * c * (d2 * (2 * 2)) <= d * d * d2,
            d2 > 0,
    ;
    let ad = abs(d);
    assert(ad * ad == d * d) by (nonlinear_arith)
        requires
            ad == abs(d),
    ;
    assert(2 * c <= ad) by (nonlinear_arith)
        requires
            4 * (c * c) <= ad * ad,
            c >= 0,
            ad >= 0,
    ;
}

/// Moving both ends of an edge component `d` toward each other by
/// `t = trunc(c / 2)` with `2 |c| <= |d|` shortens it, strictly when `|c| >= 2`.
proof fn lemma_component_shrinks(d: int, c: int)
    requires
        2 * abs(c) <= abs(d),
        crate::fixed::sgn(c) == 0 || crate::fixed::sgn(c) == crate::fixed::sgn(d),
    ensures
        ({
            let t = trunc_div(c, 2);
            &&& (d - 2 * t) * (d - 2 * t) <= d * d
            &&& abs(c) >= 2 ==> (d - 2 * t) * (d - 2 * t) < d * d
            &&& 4 * abs(t) <= abs(d)
            &&& (t == 0 || crate::fixed::sgn(t) == crate::fixed::sgn(d))
            &&& trunc_div(-c, 2) == -t
        }),
{
    let t = trunc_div(c, 2);
    if c >= 0 {
        assert(0 <= 2 * t <= c);
        assert(c >= 2 ==> t >= 1);
        if c > 0 {
            assert(d > 0);
        }
        assert((d - 2 * t) * (d - 2 * t) <= d * d) by (nonlinear_arith)
            requires
                0 <= 2 * t <= c,
                2 * c <= abs(d),
                c > 0 ==> d > 0,
                t == 0 || c > 0,
        ;
        if c >= 2 {
            assert((d - 2 * t) * (d - 2 * t) < d * d) by (nonlinear_arith)
                requires
                    1 <= t,
                    2 * t <= c,
                    2 * c <= d,
            ;
        }
    } else {
        assert(c <= 2 * t <= 0);
        assert(c <= -2 ==> t <= -1);
        assert(d < 0);
        assert((d - 2 * t) * (d - 2 * t) <= d * d) by (nonlinear_arith)
            requires
                c <= 2 * t <= 0,
                -2 * c <= -d,
                d < 0,
        ;
        if c <= -2 {
            assert((d - 2 * t) * (d - 2 * t) < d * d) by (nonlinear_arith)
                requires
                    t <= -1,
                    c <= 2 * t,
                    -2 * c <= -d,
            ;
        }
    }
}

/// When exactly one edge is stretched (by at least six units beyond `chord`,
/// so that rounding cannot swallow the correction) and the area needs no
/// correction, one solver iteration without an effector strictly shortens that
/// edge and keeps the sum of the positions, hence the centroid.
pub proof fn lemma_single_stretched_edge_relaxes(
    ps: Seq<Vec2>,
    chord: int,
    desired: int,
    circ: int,
    j: int,
)
    requires
        solvable(ps),
        chord >= 0,
        0 <= j < ps.len(),
        sqrt_floor(edge_len2(ps, j)) >= chord + 6,
        forall|i: int| 0 <= i < ps.len() && i != j ==> !#[trigger] edge_stretched(ps, chord, i),
        area_offset(ps, desired, circ) == 0,
    ensures
        ({
            let r = solver_iteration(ps, chord, desired, circ, None);
            &&& r.len() == ps.len()
            &&& edge_len2(r, j) < edge_len2(ps, j)
            &&& sum_x(r, ps.len() as int) == sum_x(ps, ps.len() as int)
            &&& sum_y(r, ps.len() as int) == sum_y(ps, ps.len() as int)
        }),
{
    let n = ps.len() as int;
    let r = relaxed(ps, chord, desired, circ);
    let j1 = next_index(n, j);
    assert(prev_index(n, j1) == j);
    assert(j1 != j);
    let (dx, dy) = edge(ps, j);
    let d2 = edge_len2(ps, j);
    assert(d2 >= 0) by (nonlinear_arith)
        requires
            d2 == dx * dx + dy * dy,
    ;
    crate::fixed::lemma_sqrt_exists(d2);
    let l = sqrt_floor(d2);
    let m = l - chord;
    assert(d2 > chord * chord) by (nonlinear_arith)
        requires
            l * l <= d2,
            l >= chord + 6,
            chord >= 0,
    ;
    assert(edge_stretched(ps, chord, j));
    assert(!edge_stretched(ps, chord, prev_index(n, j)));
    assert(!edge_stretched(ps, chord, j1));
    let (cx, cy) = along(dx, dy, m, 2);
    assert(edge_offset(ps, chord, j) == (cx, cy));
    crate::fixed::lemma_along_comp(dx, d2, m, 2);
    crate::fixed::lemma_along_comp(dy, d2, m, 2);
    crate::fixed::lemma_along(dx, dy, m, 2);
    lemma_half_of_component(dx, abs(cx), d2, m, l);
    lemma_half_of_component(dy, abs(cy), d2, m, l);
    assert(abs(cx) >= 2 || abs(cy) >= 2) by (nonlinear_arith)
        requires
            m * m < ((abs(cx) + 1) * (abs(cx) + 1) + (abs(cy) + 1) * (abs(cy) + 1)) * (2 * 2),
            m >= 6,
            abs(cx) >= 0,
            abs(cy) >= 0,
    ;
    lemma_component_shrinks(dx, cx);
    lemma_component_shrinks(dy, cy);
    let tx = trunc_div(cx, 2);
    let ty = trunc_div(cy, 2);
    assert(dilation(ps, 0, j) == (0int, 0int));
    assert(dilation(ps, 0, j1) == (0int, 0int));
    assert(ps[j].wf() && ps[j1].wf());
    assert(r[j].x == ps[j].x + tx);
    assert(r[j].y == ps[j].y + ty);
    assert(r[j1].x == ps[j1].x - tx);
    assert(r[j1].y == ps[j1].y - ty);
    assert forall|i: int| 0 <= i < n && i != j && i != j1 implies #[trigger] r[i] == ps[i] by {
        assert(prev_index(n, i) != j);
        assert(!edge_stretched(ps, chord, prev_index(n, i)));
        assert(!edge_stretched(ps, chord, i));
        assert(ps[i].wf());
    }
    lemma_sum_opposite_moves(ps, r, j, j1, tx, ty, n);
    assert(edge(r, j) == (dx - 2 * tx, dy - 2 * ty));
}

} // verus!
