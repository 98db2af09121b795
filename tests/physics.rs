use blob_physics::effector::{collide_point_with_swept_effector, EffectorState};
use blob_physics::fixed::{isqrt, Ratio, Vec2, COORD_LIMIT, UNIT};
use blob_physics::outline::{chaikin_closed_once, outline_vertices};
use blob_physics::point::Point;
use blob_physics::soft_body::{
    dilation_corrections, effector_swept_collision_system, polygon_area_signed, softbody_step,
    solve_iteration, spawn_soft_body, SoftBody, WorldBounds, CONSTRAINT_ITERATIONS,
};

fn v(x: i64, y: i64) -> Vec2 {
    Vec2::new(x, y)
}

fn len2(a: Vec2, b: Vec2) -> i128 {
    let dx = (b.x - a.x) as i128;
    let dy = (b.y - a.y) as i128;
    dx * dx + dy * dy
}

fn square(side: i64) -> Vec<Vec2> {
    vec![v(0, 0), v(side, 0), v(side, side), v(0, side)]
}

fn ring_offsets(n: usize, radius: f64) -> Vec<Vec2> {
    (0..n)
        .map(|i| {
            let theta = i as f64 * std::f64::consts::TAU / n as f64;
            v((theta.cos() * radius).round() as i64, (theta.sin() * radius).round() as i64)
        })
        .collect()
}

#[test]
fn isqrt_rounds_down() {
    assert_eq!(isqrt(0), 0);
    assert_eq!(isqrt(1), 1);
    assert_eq!(isqrt(15), 3);
    assert_eq!(isqrt(16), 4);
    assert_eq!(isqrt(1u128 << 62), 1u128 << 31);
}

#[test]
fn integration_is_deterministic() {
    let mut p = Point::new(v(100, 200), 0);
    p.previous_position = v(90, 210);
    p.acceleration = v(5000, -7000);
    let mut q = p;
    let dt = Ratio::new(1, 120);
    let damping = Ratio::new(1019, 1024);
    let half = v(100000, 100000);
    p.integrate(dt, damping, v(0, -1003520), half);
    q.integrate(dt, damping, v(0, -1003520), half);
    assert_eq!(p, q);
    assert_eq!(p.acceleration, v(0, 0));
}

#[test]
fn undamped_particle_drifts_in_a_straight_line() {
    let mut p = Point::new(v(1000, -500), 0);
    p.previous_position = v(1000 - 37, -500 + 11);
    let dt = Ratio::new(1, 120);
    let half = v(1 << 24, 1 << 24);
    let k = 50;
    for _ in 0..k {
        p.integrate(dt, Ratio::one(), v(0, 0), half);
    }
    assert_eq!(p.position, v(1000 + 37 * k, -500 - 11 * k));
    assert_eq!(p.position.x - p.previous_position.x, 37);
    assert_eq!(p.position.y - p.previous_position.y, -11);
}

#[test]
fn repeated_verlet_steps_drift_in_a_straight_line() {
    let mut p = Point::with_initial_velocity(v(0, 0), v(120 * 5, -120 * 2), Ratio::new(1, 120), 0);
    for _ in 0..30 {
        p.verlet_step(Ratio::new(1, 120), Ratio::one());
    }
    assert_eq!(p.position, v(150, -60));
    assert_eq!(p.position.x - p.previous_position.x, 5);
}

#[test]
fn wall_rebound_scales_speed_and_clamps_to_wall() {
    // right wall at 1000 - 10 = 990; predicted x = 980 + 40 = 1020
    let mut p = Point::new(v(980, 0), 0);
    p.previous_position = v(940, 0);
    p.radius = 10;
    p.bounciness = Ratio::new(1, 2);
    p.integrate(Ratio::new(1, 120), Ratio::one(), v(0, 0), v(1000, 1000));
    assert_eq!(p.position.x, 990);
    assert_eq!(p.position.x - p.previous_position.x, -20);
    assert_eq!(p.position.y, 0);
}

#[test]
fn wall_rebound_with_full_bounciness_keeps_speed() {
    let mut p = Point::new(v(-980, 500), 0);
    p.previous_position = v(-950, 500);
    p.radius = 10;
    p.bounciness = Ratio::one();
    p.integrate(Ratio::new(1, 120), Ratio::one(), v(0, 0), v(1000, 1000));
    assert_eq!(p.position.x, -990);
    assert_eq!(p.position.x - p.previous_position.x, 30);
}

#[test]
fn inverted_bounds_do_not_panic() {
    let mut p = Point::new(v(3, 3), 0);
    p.radius = 50;
    p.integrate(Ratio::new(1, 120), Ratio::one(), v(0, 0), v(10, 10));
    // left = 40, right = -40: clamped to left, then to right
    assert_eq!(p.position, v(-40, -40));
}

#[test]
fn bounce_in_bounds_reflects_one_side() {
    let mut p = Point::new(v(120, 0), 0);
    p.previous_position = v(100, 0);
    p.radius = 0;
    p.bounciness = Ratio::new(1, 2);
    p.bounce_in_bounds(v(110, 110));
    assert_eq!(p.position, v(110, 0));
    assert_eq!(p.previous_position, v(120, 0));
}

#[test]
fn verlet_step_returns_step_velocity() {
    let mut p = Point::new(v(0, 0), 0);
    p.previous_position = v(-10, 4);
    p.acceleration = v(14400, 0);
    let vel = p.verlet_step(Ratio::new(1, 120), Ratio::one());
    assert_eq!(vel, v(11, -4));
    assert_eq!(p.position, v(11, -4));
    assert_eq!(p.previous_position, v(0, 0));
    assert_eq!(p.acceleration, v(0, 0));
}

#[test]
fn apply_force_divides_by_mass() {
    let mut p = Point::new(v(0, 0), 0);
    p.mass = Ratio::new(2, 1);
    p.apply_force(v(100, -7));
    assert_eq!(p.acceleration, v(50, -4));
}

#[test]
fn move_by_keeps_velocity() {
    let mut p = Point::new(v(5, 5), 0);
    p.previous_position = v(4, 6);
    p.move_by(v(10, -10));
    assert_eq!(p.position, v(15, -5));
    assert_eq!(p.previous_position, v(14, -4));
}

#[test]
fn move_by_saturates() {
    let mut p = Point::new(v(COORD_LIMIT - 1, 0), 0);
    p.move_by(v(10, 0));
    assert_eq!(p.position.x, COORD_LIMIT);
}

#[test]
fn setters_touch_the_named_positions() {
    let mut p = Point::new(v(1, 2), 3);
    p.set_current_position_xy(7, 8);
    assert_eq!(p.position, v(7, 8));
    assert_eq!(p.previous_position, v(1, 2));
    p.set_previous_position_xy(5, 6);
    assert_eq!(p.previous_position, v(5, 6));
    p.set_position_xy(9, 9);
    assert_eq!(p.position, v(9, 9));
    assert_eq!(p.previous_position, v(9, 9));
    assert_eq!(p.index, 3);
}

#[test]
fn initial_velocity_is_encoded_in_previous_position() {
    let p = Point::with_initial_velocity(v(0, 0), v(120 * 3, -240), Ratio::new(1, 120), 4);
    assert_eq!(p.previous_position, v(-3, 2));
    assert_eq!(p.index, 4);
}

#[test]
fn clamp_to_bounds_clamps_both_positions() {
    let mut p = Point::new(v(50, -50), 0);
    p.previous_position = v(-70, 0);
    p.clamp_to_bounds(v(-20, -20), v(20, 20));
    assert_eq!(p.position, v(20, -20));
    assert_eq!(p.previous_position, v(-20, 0));
}

#[test]
fn mouse_pushes_point_to_push_distance() {
    let mut p = Point::new(v(30, 0), 0);
    assert!(!p.collide_with_mouse(v(0, 0), false, 100));
    assert_eq!(p.position, v(30, 0));
    assert!(p.collide_with_mouse(v(0, 0), true, 100));
    assert_eq!(p.position, v(100, 0));
    assert_eq!(p.previous_position, v(100, 0));
    assert!(!p.collide_with_mouse(v(0, 0), true, 100));
}

#[test]
fn swept_collision_leaves_distant_particle() {
    let mut p = v(500, 300);
    collide_point_with_swept_effector(&mut p, v(0, 0), v(1000, 0), 200);
    assert_eq!(p, v(500, 300));
    let mut p = v(-300, 0);
    collide_point_with_swept_effector(&mut p, v(0, 0), v(1000, 0), 200);
    assert_eq!(p, v(-300, 0));
}

#[test]
fn swept_collision_pushes_to_capsule_boundary() {
    // nearest segment point is (500, 0); pushed straight up to radius 200
    let mut p = v(500, 50);
    collide_point_with_swept_effector(&mut p, v(0, 0), v(1000, 0), 200);
    assert_eq!(p, v(500, 200));
    // beyond the end: pushed radially from the end point
    let mut p = v(1030, 40);
    collide_point_with_swept_effector(&mut p, v(0, 0), v(1000, 0), 200);
    assert_eq!(p, v(1120, 160));
    // oblique direction: length within rounding of the radius
    let mut p = v(400, -37);
    collide_point_with_swept_effector(&mut p, v(0, 0), v(1000, 300), 1000);
    let t = (400 * 1000 + (-37) * 300) as f64 / (1000.0 * 1000.0 + 300.0 * 300.0);
    let q = (1000.0 * t, 300.0 * t);
    let d = (((p.x as f64) - q.0).powi(2) + ((p.y as f64) - q.1).powi(2)).sqrt();
    assert!(d >= 1000.0 && d < 1002.0, "distance {}", d);
    assert!(p.y < -37);
}

#[test]
fn particle_outside_capsule_is_not_pushed() {
    // squared distance to the segment is 121/29 > 4, although the particle is
    // within 2 of a lattice point next to the segment
    let mut p = v(-1, -3);
    collide_point_with_swept_effector(&mut p, v(0, 0), v(4, -10), 2);
    assert_eq!(p, v(-1, -3));
}

#[test]
fn pushed_particle_is_not_pushed_again() {
    let mut p = v(-3, -2);
    collide_point_with_swept_effector(&mut p, v(0, 0), v(0, 0), 7);
    assert_eq!(p, v(-6, -4));
    assert!(p.x * p.x + p.y * p.y >= 49);
    let once = p;
    collide_point_with_swept_effector(&mut p, v(0, 0), v(0, 0), 7);
    assert_eq!(p, once);
    // between the ends: the moved particle is at least the radius from the line
    let mut p = v(400, -37);
    collide_point_with_swept_effector(&mut p, v(0, 0), v(1000, 300), 1000);
    let cross = (p.x as i128) * 300 - (p.y as i128) * 1000;
    assert!(cross * cross >= 1000 * 1000 * (1000 * 1000 + 300 * 300));
    let once = p;
    collide_point_with_swept_effector(&mut p, v(0, 0), v(1000, 300), 1000);
    assert_eq!(p, once);
}

#[test]
fn stationary_effector_is_a_circle() {
    let mut p = v(0, 30);
    collide_point_with_swept_effector(&mut p, v(0, 0), v(0, 0), 100);
    assert_eq!(p, v(0, 100));
    // exactly at the centre: left alone
    let mut p = v(0, 0);
    collide_point_with_swept_effector(&mut p, v(0, 0), v(0, 0), 100);
    assert_eq!(p, v(0, 0));
}

#[test]
fn effector_track_shifts_samples() {
    let mut e = EffectorState::new();
    assert_eq!(e.radius, 40 * UNIT);
    e.track(Some(v(10, 20)));
    assert_eq!(e.prev, v(0, 0));
    assert_eq!(e.curr, v(10, 20));
    e.track(None);
    assert_eq!(e.prev, v(10, 20));
    assert_eq!(e.curr, v(10, 20));
}

#[test]
fn chaikin_doubles_ring() {
    let ring = square(400);
    let mut out = Vec::new();
    chaikin_closed_once(&ring, &mut out);
    assert_eq!(out.len(), 8);
    assert_eq!(out[0], v(100, 0));
    assert_eq!(out[1], v(300, 0));
    assert_eq!(out[2], v(400, 100));
    assert_eq!(out[7], v(0, 100));
}

#[test]
fn chaikin_keeps_short_ring() {
    let ring = vec![v(1, 2), v(3, 4)];
    let mut out = vec![v(9, 9)];
    chaikin_closed_once(&ring, &mut out);
    assert_eq!(out, ring);
    chaikin_closed_once(&[], &mut out);
    assert!(out.is_empty());
}

#[test]
fn outline_is_closed() {
    let verts = outline_vertices(&square(400));
    assert_eq!(verts.len(), 9);
    assert_eq!(verts[8], verts[0]);
}

#[test]
fn signed_area_of_square() {
    assert_eq!(polygon_area_signed(&square(100)), 10000);
    let mut cw = square(100);
    cw.reverse();
    assert_eq!(polygon_area_signed(&cw), -10000);
    // doubled area 3: reversing keeps the magnitude
    let tri = vec![v(0, 0), v(3, 0), v(0, 1)];
    assert_eq!(polygon_area_signed(&tri), 1);
    let rev = vec![v(0, 1), v(3, 0), v(0, 0)];
    assert_eq!(polygon_area_signed(&rev), -1);
    assert_eq!(polygon_area_signed(&vec![v(0, 0), v(5, 5)]), 0);
}

#[test]
fn satisfied_ring_is_fixed_point() {
    let ring = square(100);
    // every edge exactly at the chord length and the area exactly at its target
    let out = solve_iteration(&ring, 100, 10000, 400, None);
    assert_eq!(out, ring);
}

#[test]
fn stretched_edge_shrinks_and_keeps_centroid() {
    let ring = vec![v(0, 0), v(320, 0), v(300, 100), v(0, 100)];
    let a2 = 2 * polygon_area_signed(&ring);
    let out = solve_iteration(&ring, 300, (a2 + 1) / 2, 1_000_000, None);
    assert!(len2(out[0], out[1]) < len2(ring[0], ring[1]));
    let sx: i64 = out.iter().map(|p| p.x).sum();
    let sy: i64 = out.iter().map(|p| p.y).sum();
    assert_eq!(sx, 620);
    assert_eq!(sy, 200);
    assert_eq!(out[2], ring[2]);
    assert_eq!(out[3], ring[3]);
}

#[test]
fn small_ring_dilates_outward() {
    let ring = square(1000);
    let corr = dilation_corrections(&ring, 4_000_000, 4000);
    // offset (4e6 - 1e6) / 4000 = 750 along each corner's outward diagonal
    assert_eq!(corr[0], v(-530, -530));
    assert_eq!(corr[2], v(530, 530));
    let out = solve_iteration(&ring, 1 << 20, 4_000_000, 4000, None);
    assert!(polygon_area_signed(&out) > polygon_area_signed(&ring));
    let big = dilation_corrections(&ring, 100_000, 4000);
    assert!(big[2].x < 0 && big[2].y < 0);
    let out = solve_iteration(&ring, 1 << 20, 100_000, 4000, None);
    assert!(polygon_area_signed(&out) < polygon_area_signed(&ring));
}

#[test]
fn soft_body_targets() {
    let s = SoftBody::new(16, 50 * UNIT, Ratio::new(5, 4));
    assert_eq!(s.circumference, 2 * 50 * UNIT * 355 / 113);
    assert_eq!(s.chord_length, s.circumference / 16);
    assert_eq!(s.desired_area, (50 * UNIT as i128).pow(2) * 355 * 5 / (113 * 4));
    assert!(s.points.is_empty());
}

#[test]
fn effector_system_only_when_pressed() {
    let mut s = spawn_soft_body(
        v(0, 0),
        &ring_offsets(8, 1000.0),
        1000,
        Ratio::one(),
        v(0, 0),
        Ratio::new(1, 120),
        v(0, 0),
        0,
        Ratio::one(),
        Ratio::one(),
    );
    let eff = EffectorState { radius: 500, prev: v(1000, 0), curr: v(1000, 0) };
    let before: Vec<Vec2> = s.ring_positions();
    effector_swept_collision_system(&mut s, false, eff);
    assert_eq!(s.ring_positions(), before);
    effector_swept_collision_system(&mut s, true, eff);
    let after = s.ring_positions();
    assert_eq!(after[0], before[0]);
    assert!(len2(after[1], v(1000, 0)) >= 499 * 499);
}

#[test]
fn concrete_ring_falls_and_inflates() {
    let unit = UNIT as f64;
    let dt = Ratio::new(1, 120);
    let mut s = spawn_soft_body(
        v(0, 0),
        &ring_offsets(16, 50.0 * unit),
        50 * UNIT,
        Ratio::new(5, 4),
        v(0, 0),
        dt,
        v(0, -980 * UNIT),
        5 * UNIT,
        Ratio::one(),
        Ratio::one(),
    );
    let damping_num = (0.5f64.powf(1.0 / 120.0) * (1 << 20) as f64).round() as i64;
    let damping = Ratio::new(damping_num, 1 << 20);
    let bounds = WorldBounds { half: v(640 * UNIT, 360 * UNIT) };
    let before = s.ring_positions();
    let gravity = v(0, -980 * UNIT);
    let integrated: Vec<Vec2> = s
        .points
        .iter()
        .map(|p| {
            let mut q = *p;
            q.integrate(dt, damping, gravity, bounds.half);
            q.position
        })
        .collect();
    softbody_step(&mut s, dt, damping, gravity, bounds, None);
    let after = s.ring_positions();
    for i in 0..16 {
        assert!(integrated[i].y < before[i].y, "particle {}", i);
    }
    let desired = s.desired_area;
    let gap_free = (desired - polygon_area_signed(&integrated)).abs();
    let gap_solved = (desired - polygon_area_signed(&after)).abs();
    assert!(gap_solved < gap_free, "{} vs {}", gap_solved, gap_free);
    assert_eq!(CONSTRAINT_ITERATIONS, 10);
}
