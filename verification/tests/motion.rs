use ball_physics::ball::{
    apply_velocity_system, ball_warp_system, Ball, Mass, Velocity, MASS_LIMIT,
};
use ball_physics::fixed::{LIMIT, SCALE};
use ball_physics::vector::Vector;

fn units(value: f64) -> i64 {
    (value * SCALE as f64) as i64
}

fn ball(x: f64, y: f64, vx: f64, vy: f64, mass: f64, radius: f64) -> Ball {
    Ball::new(
        Vector::new(units(x), units(y)),
        Velocity(Vector::new(units(vx), units(vy))),
        Mass(units(mass)),
        units(radius),
    )
    .unwrap()
}

#[test]
fn new_keeps_what_it_is_given() {
    let b = ball(1.5, -2.0, 3.0, -4.5, 2.0, 0.5);
    assert_eq!(b.position(), Vector::new(98304, -131072));
    assert_eq!(b.velocity(), Velocity(Vector::new(196608, -294912)));
    assert_eq!(b.mass(), Mass(131072));
    assert_eq!(b.radius(), 32768);
}

#[test]
fn new_rejects_mass_that_is_not_positive() {
    let origin = Vector::new(0, 0);
    let still = Velocity(Vector::new(0, 0));
    assert!(Ball::new(origin, still, Mass(0), SCALE).is_none());
    assert!(Ball::new(origin, still, Mass(-1), SCALE).is_none());
    assert!(Ball::new(origin, still, Mass(1), SCALE).is_some());
}

#[test]
fn mass_limit_is_512_units() {
    assert_eq!(MASS_LIMIT, 512 * SCALE);
}

#[test]
fn new_rejects_radius_that_is_not_positive() {
    let origin = Vector::new(0, 0);
    let still = Velocity(Vector::new(0, 0));
    assert!(Ball::new(origin, still, Mass(SCALE), 0).is_none());
    assert!(Ball::new(origin, still, Mass(SCALE), -SCALE).is_none());
    assert!(Ball::new(origin, still, Mass(SCALE), 1).is_some());
}

#[test]
fn new_rejects_quantities_out_of_range() {
    let origin = Vector::new(0, 0);
    let still = Velocity(Vector::new(0, 0));
    assert!(Ball::new(Vector::new(LIMIT + 1, 0), still, Mass(SCALE), SCALE).is_none());
    assert!(Ball::new(Vector::new(0, -LIMIT - 1), still, Mass(SCALE), SCALE).is_none());
    assert!(Ball::new(origin, Velocity(Vector::new(LIMIT + 1, 0)), Mass(SCALE), SCALE).is_none());
    assert!(Ball::new(origin, Velocity(Vector::new(0, -LIMIT - 1)), Mass(SCALE), SCALE).is_none());
    assert!(Ball::new(origin, still, Mass(MASS_LIMIT + 1), SCALE).is_none());
    assert!(Ball::new(origin, still, Mass(SCALE), LIMIT + 1).is_none());
    assert!(Ball::new(Vector::new(LIMIT, -LIMIT), Velocity(Vector::new(-LIMIT, LIMIT)), Mass(MASS_LIMIT), LIMIT).is_some());
}

#[test]
fn bounds_are_centre_minus_and_plus_radius() {
    let b = ball(10.0, 3.0, 0.0, 0.0, 1.0, 2.5);
    assert_eq!(b.left_bound(), units(7.5));
    assert_eq!(b.right_bound(), units(12.5));
}

#[test]
fn advance_adds_velocity_times_time_step() {
    let mut b = ball(1.0, 2.0, 100.0, -50.0, 1.0, 1.0);
    b.advance(SCALE / 128);
    assert_eq!(b.position(), Vector::new(units(1.78125), units(1.609375)));
    assert_eq!(b.velocity(), Velocity(Vector::new(units(100.0), units(-50.0))));
    assert_eq!(b.mass(), Mass(units(1.0)));
    assert_eq!(b.radius(), units(1.0));
}

#[test]
fn advance_rounds_the_step_toward_zero() {
    let origin = Vector::new(0, 0);
    let mut forth = Ball::new(origin, Velocity(Vector::new(3, 3)), Mass(SCALE), SCALE).unwrap();
    let mut back = Ball::new(origin, Velocity(Vector::new(-3, -3)), Mass(SCALE), SCALE).unwrap();
    forth.advance(SCALE / 2);
    back.advance(SCALE / 2);
    assert_eq!(forth.position(), Vector::new(1, 1));
    assert_eq!(back.position(), Vector::new(-1, -1));
}

#[test]
fn advance_saturates_at_the_limit() {
    let mut b = Ball::new(
        Vector::new(LIMIT - 10, -LIMIT + 10),
        Velocity(Vector::new(LIMIT, -LIMIT)),
        Mass(SCALE),
        SCALE,
    )
    .unwrap();
    b.advance(SCALE);
    assert_eq!(b.position(), Vector::new(LIMIT, -LIMIT));
}

#[test]
fn integrator_moves_every_ball() {
    let mut balls = vec![
        ball(0.0, 0.0, 64.0, 0.0, 1.0, 1.0),
        ball(5.0, 5.0, 0.0, -128.0, 1.0, 1.0),
        ball(-3.0, 4.0, 0.0, 0.0, 1.0, 1.0),
    ];
    apply_velocity_system(&mut balls, SCALE / 64);
    assert_eq!(balls.len(), 3);
    assert_eq!(balls[0].position(), Vector::new(units(1.0), 0));
    assert_eq!(balls[1].position(), Vector::new(units(5.0), units(3.0)));
    assert_eq!(balls[2].position(), Vector::new(units(-3.0), units(4.0)));
}

#[test]
fn wrap_is_exact_just_beyond_the_right_edge() {
    let half_width = units(300.0);
    let half_height = units(200.0);
    let radius = units(10.0);
    let mut b = Ball::new(
        Vector::new(half_width + radius + 1, 0),
        Velocity(Vector::new(SCALE, 0)),
        Mass(SCALE),
        radius,
    )
    .unwrap();
    b.wrap(half_width, half_height);
    assert_eq!(b.position(), Vector::new(-half_width - radius, 0));
    assert_eq!(b.velocity(), Velocity(Vector::new(SCALE, 0)));
}

#[test]
fn wrap_leaves_a_ball_that_is_still_in_sight() {
    let half_width = units(300.0);
    let half_height = units(200.0);
    let radius = units(10.0);
    let mut at_edge = Ball::new(
        Vector::new(half_width + radius, -half_height - radius),
        Velocity(Vector::new(0, 0)),
        Mass(SCALE),
        radius,
    )
    .unwrap();
    at_edge.wrap(half_width, half_height);
    assert_eq!(at_edge.position(), Vector::new(half_width + radius, -half_height - radius));
}

#[test]
fn wrap_covers_all_four_edges() {
    let half_width = units(300.0);
    let half_height = units(200.0);
    let mut balls = vec![
        ball(311.0, 0.0, 0.0, 0.0, 1.0, 10.0),
        ball(-311.0, 0.0, 0.0, 0.0, 1.0, 10.0),
        ball(0.0, 211.0, 0.0, 0.0, 1.0, 10.0),
        ball(0.0, -211.0, 0.0, 0.0, 1.0, 10.0),
        ball(400.0, -400.0, 0.0, 0.0, 1.0, 5.0),
    ];
    ball_warp_system(&mut balls, half_width, half_height);
    assert_eq!(balls[0].position(), Vector::new(units(-310.0), 0));
    assert_eq!(balls[1].position(), Vector::new(units(310.0), 0));
    assert_eq!(balls[2].position(), Vector::new(0, units(-210.0)));
    assert_eq!(balls[3].position(), Vector::new(0, units(210.0)));
    assert_eq!(balls[4].position(), Vector::new(units(-305.0), units(205.0)));
}

#[test]
fn wrap_honours_the_radius_of_each_ball() {
    let half_width = units(100.0);
    let half_height = units(100.0);
    let mut small = ball(103.0, 0.0, 0.0, 0.0, 1.0, 2.0);
    let mut large = ball(103.0, 0.0, 0.0, 0.0, 1.0, 4.0);
    small.wrap(half_width, half_height);
    large.wrap(half_width, half_height);
    assert_eq!(small.position(), Vector::new(units(-102.0), 0));
    assert_eq!(large.position(), Vector::new(units(103.0), 0));
}
