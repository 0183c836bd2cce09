use ball_physics::ball::{Ball, Mass, Velocity};
use ball_physics::cache::SortedEntity;
use ball_physics::collision::Stats;
use ball_physics::context::{BroadPhase, SimulationContext, TickError};
use ball_physics::fixed::{LIMIT, SCALE};
use ball_physics::narrow_phase::Restitution;
use ball_physics::vector::Vector;

fn units(value: f64) -> i64 {
    (value * SCALE as f64) as i64
}

fn in_units(raw: i64) -> f64 {
    raw as f64 / SCALE as f64
}

fn ball(x: f64, y: f64, vx: f64, vy: f64, mass: f64, radius: f64) -> Ball {
    Ball::new(
        Vector::new(units(x), units(y)),
        Velocity(Vector::new(units(vx), units(vy))),
        Mass(units(mass)),
        units(radius),
    )
    .unwrap()
}

fn snapshot(context: &SimulationContext) -> Vec<(Vector, Velocity)> {
    (0..context.len())
        .map(|i| context.ball(i).unwrap())
        .map(|b| (b.position(), b.velocity()))
        .collect()
}

fn order(context: &SimulationContext) -> Vec<usize> {
    let mut indices = Vec::new();
    let mut slot = 0;
    while let Some(entry) = context.cache_entry(slot) {
        indices.push(entry.index);
        slot += 1;
    }
    indices
}

const TICK: i64 = SCALE / 64;

#[test]
fn new_context_is_empty() {
    let context = SimulationContext::new();
    assert_eq!(context.len(), 0);
    assert!(context.ball(0).is_none());
    assert_eq!(context.cache_entry(0), None);
    assert_eq!(context.stats(), Stats { num_collisions: 0, num_degenerate: 0 });
    assert_eq!(context.restitution(), Restitution::default());
}

#[test]
fn context_keeps_its_restitution() {
    let elastic = Restitution::new(100).unwrap();
    let mut context = SimulationContext::with_restitution(elastic);
    assert_eq!(context.len(), 0);
    assert_eq!(context.restitution(), elastic);
    context.spawn(ball(-1.0, 0.0, 16.0, 0.0, 1.0, 1.0));
    context.spawn(ball(1.0, 0.0, -16.0, 0.0, 1.0, 1.0));
    assert_eq!(context.restitution(), elastic);
    assert_eq!(context.step(TICK, units(100.0), units(100.0), BroadPhase::Naive), Ok(()));
    assert_eq!(context.restitution(), elastic);
    assert_eq!(in_units(context.ball(0).unwrap().velocity().0.x), -16.0);
    assert_eq!(in_units(context.ball(1).unwrap().velocity().0.x), 16.0);
    assert_eq!(context.step(0, units(100.0), units(100.0), BroadPhase::Naive), Err(TickError::InvalidTimeStep));
    assert_eq!(context.restitution(), elastic);
}

#[test]
fn spawn_stores_and_registers_the_ball() {
    let mut context = SimulationContext::new();
    assert_eq!(context.spawn(ball(5.0, 1.0, 0.0, 0.0, 1.0, 2.0)), 0);
    assert_eq!(context.spawn(ball(-5.0, 1.0, 1.0, 2.0, 1.0, 1.0)), 1);
    assert_eq!(context.len(), 2);
    assert_eq!(context.ball(1).unwrap().position(), Vector::new(units(-5.0), units(1.0)));
    assert_eq!(context.ball(1).unwrap().velocity(), Velocity(Vector::new(units(1.0), units(2.0))));
    assert!(context.ball(2).is_none());
    assert_eq!(
        context.cache_entry(0),
        Some(SortedEntity { index: 0, left_bound: units(3.0), right_bound: units(7.0) }),
    );
    assert_eq!(
        context.cache_entry(1),
        Some(SortedEntity { index: 1, left_bound: units(-6.0), right_bound: units(-4.0) }),
    );
    assert_eq!(context.cache_entry(2), None);
}

#[test]
fn step_rejects_a_time_step_that_is_not_positive() {
    let mut context = SimulationContext::new();
    context.spawn(ball(0.0, 0.0, 64.0, 0.0, 1.0, 1.0));
    let before = snapshot(&context);
    assert_eq!(context.step(0, units(100.0), units(100.0), BroadPhase::Naive), Err(TickError::InvalidTimeStep));
    assert_eq!(context.step(-TICK, units(100.0), units(100.0), BroadPhase::Naive), Err(TickError::InvalidTimeStep));
    assert_eq!(context.step(LIMIT + 1, units(100.0), units(100.0), BroadPhase::Naive), Err(TickError::InvalidTimeStep));
    assert_eq!(context.step(0, 0, 0, BroadPhase::Naive), Err(TickError::InvalidTimeStep));
    assert_eq!(snapshot(&context), before);
}

#[test]
fn step_rejects_bounds_that_are_not_positive() {
    let mut context = SimulationContext::new();
    context.spawn(ball(0.0, 0.0, 64.0, 0.0, 1.0, 1.0));
    let before = snapshot(&context);
    for phase in [BroadPhase::Naive, BroadPhase::SweepAndPrune, BroadPhase::CachedSweepAndPrune] {
        assert_eq!(context.step(TICK, 0, units(100.0), phase), Err(TickError::InvalidBounds));
        assert_eq!(context.step(TICK, units(100.0), 0, phase), Err(TickError::InvalidBounds));
        assert_eq!(context.step(TICK, -1, units(100.0), phase), Err(TickError::InvalidBounds));
        assert_eq!(context.step(TICK, units(100.0), LIMIT + 1, phase), Err(TickError::InvalidBounds));
    }
    assert_eq!(snapshot(&context), before);
    assert_eq!(context.step(TICK, 1, LIMIT, BroadPhase::Naive), Ok(()));
}

#[test]
fn step_moves_then_collides_then_wraps() {
    for phase in [BroadPhase::Naive, BroadPhase::SweepAndPrune, BroadPhase::CachedSweepAndPrune] {
        let mut context = SimulationContext::new();
        context.spawn(ball(-1.0, 0.0, 16.0, 0.0, 1.0, 1.0));
        context.spawn(ball(1.0, 0.0, -16.0, 0.0, 1.0, 1.0));
        context.spawn(ball(109.75, 50.0, 64.0, 0.0, 1.0, 10.0));
        assert_eq!(context.step(TICK, units(100.0), units(100.0), phase), Ok(()));
        let a = context.ball(0).unwrap();
        let b = context.ball(1).unwrap();
        let c = context.ball(2).unwrap();
        assert_eq!(in_units(a.position().x), -1.0);
        assert_eq!(in_units(b.position().x), 1.0);
        assert_eq!(in_units(a.velocity().0.x), -8.0);
        assert_eq!(in_units(b.velocity().0.x), 8.0);
        assert_eq!(in_units(c.position().x), -110.0);
        assert_eq!(in_units(c.position().y), 50.0);
        assert_eq!(in_units(c.velocity().0.x), 64.0);
        assert_eq!(context.stats(), Stats { num_collisions: 1, num_degenerate: 0 });
    }
}

#[test]
fn step_with_the_cache_sorts_the_cache() {
    let mut context = SimulationContext::new();
    context.spawn(ball(30.0, 0.0, 0.0, 0.0, 1.0, 1.0));
    context.spawn(ball(-30.0, 0.0, 0.0, 0.0, 1.0, 1.0));
    context.spawn(ball(0.0, 0.0, 64.0, 0.0, 1.0, 1.0));
    assert_eq!(order(&context), vec![0, 1, 2]);
    assert_eq!(context.step(TICK, units(100.0), units(100.0), BroadPhase::Naive), Ok(()));
    assert_eq!(order(&context), vec![0, 1, 2]);
    assert_eq!(context.step(TICK, units(100.0), units(100.0), BroadPhase::SweepAndPrune), Ok(()));
    assert_eq!(order(&context), vec![0, 1, 2]);
    assert_eq!(context.step(TICK, units(100.0), units(100.0), BroadPhase::CachedSweepAndPrune), Ok(()));
    assert_eq!(order(&context), vec![1, 2, 0]);
    assert_eq!(
        context.cache_entry(1),
        Some(SortedEntity { index: 2, left_bound: units(2.0), right_bound: units(4.0) }),
    );
}

#[test]
fn ball_spawned_between_ticks_takes_part_in_the_next() {
    let mut context = SimulationContext::new();
    context.spawn(ball(0.0, 0.0, 0.0, 0.0, 1.0, 1.0));
    assert_eq!(context.step(TICK, units(100.0), units(100.0), BroadPhase::CachedSweepAndPrune), Ok(()));
    assert_eq!(context.stats().num_collisions, 0);
    context.spawn(ball(-1.0, 0.0, 0.0, 0.0, 1.0, 1.0));
    assert_eq!(context.step(TICK, units(100.0), units(100.0), BroadPhase::CachedSweepAndPrune), Ok(()));
    assert_eq!(context.stats().num_collisions, 1);
    assert_eq!(order(&context), vec![1, 0]);
    assert_eq!(in_units(context.ball(0).unwrap().position().x), 0.5);
    assert_eq!(in_units(context.ball(1).unwrap().position().x), -1.5);
}

#[test]
fn broad_phases_give_the_same_simulation_of_sparse_balls() {
    let mut contexts = [SimulationContext::new(), SimulationContext::new(), SimulationContext::new()];
    let phases = [BroadPhase::Naive, BroadPhase::SweepAndPrune, BroadPhase::CachedSweepAndPrune];
    for context in contexts.iter_mut() {
        for k in 0..20 {
            let x = -180.0 + 40.0 * (k % 10) as f64;
            let y = if k < 10 { -50.0 } else { 50.0 };
            let offset = (k % 3) as f64 * 0.5;
            context.spawn(ball(x + 3.0, y, -8.0, 0.0, 1.0 + (k % 4) as f64, 2.0));
            context.spawn(ball(x - 3.0, y + offset, 8.0, 0.5, 2.0, 2.0));
        }
    }
    for _ in 0..200 {
        for (context, phase) in contexts.iter_mut().zip(phases) {
            assert_eq!(context.step(TICK, units(200.0), units(200.0), phase), Ok(()));
        }
        assert_eq!(contexts[0].stats(), contexts[1].stats());
        assert_eq!(contexts[0].stats(), contexts[2].stats());
    }
    assert!(contexts[0].stats().num_collisions >= 20);
    assert_eq!(contexts[0].stats().num_degenerate, 0);
    assert_eq!(snapshot(&contexts[1]), snapshot(&contexts[0]));
    assert_eq!(snapshot(&contexts[2]), snapshot(&contexts[0]));
}
