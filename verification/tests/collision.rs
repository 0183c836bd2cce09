use ball_physics::ball::{Ball, Mass, Velocity};
use ball_physics::cache::{update_sorted_balls_cache, SortedBallsCache};
use ball_physics::collision::{
    naive_ball_collision_system, resolve_pairs, sweep_and_prune_collision_system,
    sweep_and_prune_collision_system_with_cache, Stats,
};
use ball_physics::fixed::SCALE;
use ball_physics::narrow_phase::{overlaps, Contact, Restitution};
use ball_physics::vector::Vector;

fn units(value: f64) -> i64 {
    (value * SCALE as f64) as i64
}

fn in_units(raw: i64) -> f64 {
    raw as f64 / SCALE as f64
}

fn ball(x: f64, y: f64, vx: f64, vy: f64, mass: f64, radius: f64) -> Ball {
    Ball::new(
        Vector::new(units(x), units(y)),
        Velocity(Vector::new(units(vx), units(vy))),
        Mass(units(mass)),
        units(radius),
    )
    .unwrap()
}

fn snapshot(balls: &Vec<Ball>) -> Vec<(Vector, Velocity)> {
    balls.iter().map(|b| (b.position(), b.velocity())).collect()
}

fn no_stats() -> Stats {
    Stats { num_collisions: 0, num_degenerate: 0 }
}

fn two_pairs_far_apart() -> Vec<Ball> {
    vec![
        ball(0.0, 0.0, 5.0, 0.0, 1.0, 1.0),
        ball(100.0, 50.0, 0.0, -2.0, 1.0, 1.0),
        ball(1.5, 0.0, -5.0, 0.0, 1.0, 1.0),
        ball(100.0, 49.0, 0.0, 2.0, 1.0, 1.0),
        ball(-50.0, -50.0, 1.0, 1.0, 1.0, 3.0),
    ]
}

fn check_two_pairs_resolved(balls: &Vec<Ball>) {
    assert_eq!(in_units(balls[0].position().x), -0.25);
    assert_eq!(in_units(balls[2].position().x), 1.75);
    assert_eq!(in_units(balls[0].velocity().0.x), -2.5);
    assert_eq!(in_units(balls[2].velocity().0.x), 2.5);
    assert_eq!(in_units(balls[1].position().y), 50.5);
    assert_eq!(in_units(balls[3].position().y), 48.5);
    assert_eq!(in_units(balls[1].velocity().0.y), 1.0);
    assert_eq!(in_units(balls[3].velocity().0.y), -1.0);
    assert_eq!(balls[4].position(), Vector::new(units(-50.0), units(-50.0)));
    assert_eq!(balls[4].velocity(), Velocity(Vector::new(units(1.0), units(1.0))));
}

#[test]
fn stats_start_at_zero() {
    assert_eq!(Stats::default(), Stats { num_collisions: 0, num_degenerate: 0 });
}

#[test]
fn stats_count_what_is_reported() {
    let mut stats = Stats::default();
    stats.record(Contact::Apart);
    assert_eq!(stats, Stats { num_collisions: 0, num_degenerate: 0 });
    stats.record(Contact::Resolved);
    stats.record(Contact::Resolved);
    assert_eq!(stats, Stats { num_collisions: 2, num_degenerate: 0 });
    stats.record(Contact::Degenerate);
    assert_eq!(stats, Stats { num_collisions: 3, num_degenerate: 1 });
}

#[test]
fn stats_stop_at_the_largest_count() {
    let mut stats = Stats { num_collisions: usize::MAX, num_degenerate: usize::MAX - 1 };
    stats.record(Contact::Resolved);
    assert_eq!(stats, Stats { num_collisions: usize::MAX, num_degenerate: usize::MAX - 1 });
    stats.record(Contact::Degenerate);
    assert_eq!(stats, Stats { num_collisions: usize::MAX, num_degenerate: usize::MAX });
    stats.record(Contact::Degenerate);
    assert_eq!(stats, Stats { num_collisions: usize::MAX, num_degenerate: usize::MAX });
}

#[test]
fn resolve_pairs_leaves_pairs_that_are_apart() {
    let mut balls = vec![
        ball(0.0, 0.0, 5.0, 1.0, 1.0, 1.0),
        ball(3.0, 0.0, -5.0, 0.0, 2.0, 1.0),
        ball(0.0, 3.0, 0.0, -5.0, 3.0, 1.0),
    ];
    let before = snapshot(&balls);
    let mut stats = Stats { num_collisions: 7, num_degenerate: 1 };
    resolve_pairs(&mut balls, &vec![(0, 1), (0, 2), (1, 2), (2, 0)], &mut stats, Restitution::default());
    assert_eq!(snapshot(&balls), before);
    assert_eq!(stats, Stats { num_collisions: 7, num_degenerate: 1 });
}

#[test]
fn resolve_pairs_tests_each_pair_in_the_state_the_others_left() {
    let mut balls = vec![
        ball(0.0, 0.0, 0.0, 0.0, 1.0, 1.0),
        ball(1.0, 0.0, 0.0, 0.0, 1.0, 1.0),
        ball(2.5, 0.0, 0.0, 0.0, 1.0, 1.0),
    ];
    assert!(!overlaps(&balls[0], &balls[2]));
    let mut stats = no_stats();
    resolve_pairs(&mut balls, &vec![(1, 2), (0, 1), (1, 2)], &mut stats, Restitution::default());
    assert_eq!(in_units(balls[0].position().x), -0.625);
    assert_eq!(in_units(balls[1].position().x), 1.0625);
    assert_eq!(in_units(balls[2].position().x), 3.0625);
    assert_eq!(stats, Stats { num_collisions: 3, num_degenerate: 0 });
}

#[test]
fn resolve_pairs_does_not_resolve_a_pair_twice() {
    let mut balls = vec![
        ball(0.0, 0.0, 5.0, 0.0, 1.0, 1.0),
        ball(1.5, 0.0, -5.0, 0.0, 1.0, 1.0),
    ];
    let mut stats = no_stats();
    resolve_pairs(&mut balls, &vec![(0, 1), (0, 1), (1, 0)], &mut stats, Restitution::default());
    assert_eq!(in_units(balls[0].position().x), -0.25);
    assert_eq!(in_units(balls[1].position().x), 1.75);
    assert_eq!(in_units(balls[0].velocity().0.x), -2.5);
    assert_eq!(in_units(balls[1].velocity().0.x), 2.5);
    assert_eq!(stats, Stats { num_collisions: 1, num_degenerate: 0 });
}

#[test]
fn resolve_pairs_counts_coincident_centres() {
    let mut balls = vec![
        ball(0.0, 0.0, 1.0, 0.0, 1.0, 1.0),
        ball(0.0, 0.0, -1.0, 0.0, 1.0, 1.0),
        ball(0.5, 0.0, 0.0, 0.0, 1.0, 1.0),
    ];
    let mut stats = no_stats();
    resolve_pairs(&mut balls, &vec![(0, 1)], &mut stats, Restitution::default());
    assert_eq!(stats, Stats { num_collisions: 1, num_degenerate: 1 });
    assert_eq!(balls[0].position(), Vector::new(0, 0));
    assert_eq!(balls[1].position(), Vector::new(0, 0));
    resolve_pairs(&mut balls, &vec![(0, 2)], &mut stats, Restitution::default());
    assert_eq!(stats, Stats { num_collisions: 2, num_degenerate: 1 });
}

#[test]
fn naive_system_resolves_every_overlapping_pair() {
    let mut balls = two_pairs_far_apart();
    let mut stats = no_stats();
    naive_ball_collision_system(&mut balls, &mut stats, Restitution::default());
    check_two_pairs_resolved(&balls);
    assert_eq!(stats, Stats { num_collisions: 2, num_degenerate: 0 });
}

#[test]
fn sweep_system_resolves_every_overlapping_pair() {
    let mut balls = two_pairs_far_apart();
    let mut stats = no_stats();
    sweep_and_prune_collision_system(&mut balls, &mut stats, Restitution::default());
    check_two_pairs_resolved(&balls);
    assert_eq!(stats, Stats { num_collisions: 2, num_degenerate: 0 });
}

#[test]
fn cached_sweep_system_resolves_every_overlapping_pair() {
    let mut balls = two_pairs_far_apart();
    let mut stats = no_stats();
    let mut cache = SortedBallsCache::new();
    update_sorted_balls_cache(&mut cache, &balls);
    sweep_and_prune_collision_system_with_cache(&mut balls, &mut stats, &cache, Restitution::default());
    check_two_pairs_resolved(&balls);
    assert_eq!(stats, Stats { num_collisions: 2, num_degenerate: 0 });
}

#[test]
fn systems_leave_balls_that_are_apart() {
    let start = vec![
        ball(0.0, 0.0, 5.0, 0.0, 1.0, 1.0),
        ball(2.0, 0.0, -5.0, 0.0, 1.0, 1.0),
        ball(0.0, 2.5, 0.0, -5.0, 1.0, 1.0),
        ball(1.0, 40.0, 0.0, -5.0, 1.0, 1.0),
    ];
    let before = snapshot(&start);
    let mut stats = no_stats();

    let mut balls = start.clone();
    naive_ball_collision_system(&mut balls, &mut stats, Restitution::default());
    assert_eq!(snapshot(&balls), before);

    let mut balls = start.clone();
    sweep_and_prune_collision_system(&mut balls, &mut stats, Restitution::default());
    assert_eq!(snapshot(&balls), before);

    let mut balls = start.clone();
    let mut cache = SortedBallsCache::new();
    update_sorted_balls_cache(&mut cache, &balls);
    sweep_and_prune_collision_system_with_cache(&mut balls, &mut stats, &cache, Restitution::default());
    assert_eq!(snapshot(&balls), before);

    assert_eq!(stats, no_stats());
}

#[test]
fn cached_sweep_system_ignores_balls_without_an_entry() {
    let mut balls = vec![
        ball(0.0, 0.0, 0.0, 0.0, 1.0, 1.0),
        ball(1.0, 0.0, 0.0, 0.0, 1.0, 1.0),
    ];
    let before = snapshot(&balls);
    let mut stats = no_stats();
    let mut cache = SortedBallsCache::new();
    cache.add(0, &balls[0]);
    sweep_and_prune_collision_system_with_cache(&mut balls, &mut stats, &cache, Restitution::default());
    assert_eq!(snapshot(&balls), before);
    assert_eq!(stats, no_stats());
    cache.add(1, &balls[1]);
    sweep_and_prune_collision_system_with_cache(&mut balls, &mut stats, &cache, Restitution::default());
    assert_eq!(in_units(balls[0].position().x), -0.5);
    assert_eq!(in_units(balls[1].position().x), 1.5);
    assert_eq!(stats, Stats { num_collisions: 1, num_degenerate: 0 });
}

#[test]
fn systems_agree_on_isolated_pairs() {
    let mut start = Vec::new();
    for k in 0..30 {
        let x = -600.0 + 40.0 * k as f64;
        let y = ((k * 7) % 11) as f64 * 20.0 - 100.0;
        start.push(ball(x, y, 3.0, 1.0, 1.0 + (k % 3) as f64, 4.0));
        start.push(ball(x + 2.0 + (k % 5) as f64, y + 1.5, -2.0, 0.5, 2.0, 3.0));
    }
    let mut naive = start.clone();
    let mut naive_stats = no_stats();
    naive_ball_collision_system(&mut naive, &mut naive_stats, Restitution::default());

    let mut sweep = start.clone();
    let mut sweep_stats = no_stats();
    sweep_and_prune_collision_system(&mut sweep, &mut sweep_stats, Restitution::default());

    let mut cached = start.clone();
    let mut cached_stats = no_stats();
    let mut cache = SortedBallsCache::new();
    update_sorted_balls_cache(&mut cache, &cached);
    sweep_and_prune_collision_system_with_cache(&mut cached, &mut cached_stats, &cache, Restitution::default());

    assert_eq!(naive_stats, Stats { num_collisions: 30, num_degenerate: 0 });
    assert_eq!(sweep_stats, naive_stats);
    assert_eq!(cached_stats, naive_stats);
    assert_eq!(snapshot(&sweep), snapshot(&naive));
    assert_eq!(snapshot(&cached), snapshot(&naive));
    assert!(snapshot(&naive) != snapshot(&start));
    for k in 0..30 {
        assert!(!overlaps(&naive[2 * k], &naive[2 * k + 1]));
    }
}

#[test]
fn collide_at_resolves_the_pair_in_the_store() {
    let mut balls = vec![
        ball(50.0, 50.0, 0.0, 0.0, 1.0, 1.0),
        ball(0.0, 0.0, 5.0, 0.0, 1.0, 1.0),
        ball(1.5, 0.0, -5.0, 0.0, 1.0, 1.0),
    ];
    let mut stats = no_stats();
    ball_physics::collision::collide_at(&mut balls, 1, 2, &mut stats, Restitution::default());
    assert_eq!(in_units(balls[1].position().x), -0.25);
    assert_eq!(in_units(balls[2].position().x), 1.75);
    assert_eq!(in_units(balls[1].velocity().0.x), -2.5);
    assert_eq!(in_units(balls[2].velocity().0.x), 2.5);
    assert_eq!(balls[0].position(), Vector::new(units(50.0), units(50.0)));
    assert_eq!(stats, Stats { num_collisions: 1, num_degenerate: 0 });
    ball_physics::collision::collide_at(&mut balls, 0, 1, &mut stats, Restitution::default());
    assert_eq!(stats, Stats { num_collisions: 1, num_degenerate: 0 });
}

#[test]
fn naive_system_resolves_pairs_that_an_earlier_collision_made() {
    let mut balls = vec![
        ball(0.0, 0.0, 0.0, 0.0, 1.0, 1.0),
        ball(1.0, 0.0, 0.0, 0.0, 1.0, 1.0),
        ball(3.25, 0.0, 0.0, 0.0, 1.0, 1.0),
    ];
    assert!(!overlaps(&balls[1], &balls[2]));
    let mut stats = no_stats();
    naive_ball_collision_system(&mut balls, &mut stats, Restitution::default());
    assert_eq!(in_units(balls[0].position().x), -0.5);
    assert_eq!(in_units(balls[1].position().x), 1.375);
    assert_eq!(in_units(balls[2].position().x), 3.375);
    assert_eq!(stats, Stats { num_collisions: 2, num_degenerate: 0 });
}

#[test]
fn systems_use_the_given_restitution() {
    let start = vec![
        ball(0.0, 0.0, 5.0, 0.0, 1.0, 1.0),
        ball(1.5, 0.0, -5.0, 0.0, 1.0, 1.0),
    ];
    let elastic = Restitution::new(100).unwrap();
    let mut stats = no_stats();

    let mut balls = start.clone();
    naive_ball_collision_system(&mut balls, &mut stats, elastic);
    assert_eq!(in_units(balls[0].velocity().0.x), -5.0);
    assert_eq!(in_units(balls[1].velocity().0.x), 5.0);

    let mut balls = start.clone();
    sweep_and_prune_collision_system(&mut balls, &mut stats, Restitution::new(0).unwrap());
    assert_eq!(in_units(balls[0].velocity().0.x), 0.0);
    assert_eq!(in_units(balls[1].velocity().0.x), 0.0);

    let mut balls = start.clone();
    let mut cache = SortedBallsCache::new();
    update_sorted_balls_cache(&mut cache, &balls);
    sweep_and_prune_collision_system_with_cache(&mut balls, &mut stats, &cache, Restitution::new(20).unwrap());
    assert_eq!(in_units(balls[0].velocity().0.x), -1.0);
    assert_eq!(in_units(balls[1].velocity().0.x), 1.0);

    let mut balls = start.clone();
    resolve_pairs(&mut balls, &vec![(1, 0)], &mut stats, elastic);
    assert_eq!(in_units(balls[0].velocity().0.x), -5.0);
    assert_eq!(in_units(balls[1].velocity().0.x), 5.0);
    assert_eq!(stats, Stats { num_collisions: 4, num_degenerate: 0 });
}
