//! The simulation context: the particle store, the sorted index cache and the
//! statistics, and the tick that runs the phases over them in their order.

use crate::ball::{
    apply_velocity_system, ball_warp_system, moved, states, wrapped, Ball, BallState,
};
use crate::broad_phase::{all_pairs, reach_pairs};
use crate::cache::{
    covers, distinct, entry_of, fits, fresh, indices, sorted, staged, update_sorted_balls_cache,
    with_left_bound, SortedBallsCache, SortedEntity,
};
use crate::collision::{
    is_sweep_order, naive_ball_collision_system, resolve_all, sweep_and_prune_collision_system,
    sweep_and_prune_collision_system_with_cache, tallied, Stats,
};
use crate::fixed::LIMIT;
use crate::narrow_phase::Restitution;
use vstd::prelude::*;

verus! {

/// Which broad phase a tick uses.
#[derive(Clone, Copy, Debug, PartialEq, Eq, Structural)]
pub enum BroadPhase {
    /// Every pair of particles is tested.
    Naive,
    /// Sweep-and-prune over an order that is sorted anew in every tick.
    SweepAndPrune,
    /// Sweep-and-prune over the sorted index cache, which is brought up to date
    /// first.
    CachedSweepAndPrune,
}

/// Why a tick could not be run.
#[derive(Clone, Copy, Debug, PartialEq, Eq, Structural)]
pub enum TickError {
    /// The time step is not positive, or larger than a stored quantity may be.
    InvalidTimeStep,
    /// The half-width or the half-height of the plane is not positive, or
    /// larger than a stored quantity may be.
    InvalidBounds,
}

/// Whether `dt` can be the time step of a tick.
pub open spec fn valid_time_step(dt: int) -> bool {
    0 < dt <= LIMIT
}

/// Whether a plane can have the given half-width and half-height.
pub open spec fn valid_bounds(half_width: int, half_height: int) -> bool {
    0 < half_width <= LIMIT && 0 < half_height <= LIMIT
}

/// Whether `after` is what an update of the cache makes of the entries
/// `before` for the given store: the entries of `before` with fresh bounds, in
/// non-decreasing order of the left bounds, those with equal left bounds in
/// the order they had.
pub open spec fn is_update_of(
    after: Seq<SortedEntity>,
    before: Seq<SortedEntity>,
    store: Seq<BallState>,
) -> bool {
    &&& sorted(after)
    &&& after.to_multiset() == staged(before, store).to_multiset()
    &&& forall|key: i64| with_left_bound(after, key) == with_left_bound(staged(before, store), key)
    &&& fresh(after, store)
}

/// A simulation: the particles, the sorted index cache over them and the
/// statistics. Every particle has exactly one entry in the cache, from the
/// moment it is spawned.
pub struct SimulationContext {
    balls: Vec<Ball>,
    cache: SortedBallsCache,
    stats: Stats,
    restitution: Restitution,
}

impl SimulationContext {
    /// The states of the particles, by index.
    pub closed spec fn store(&self) -> Seq<BallState> {
        states(self.balls@)
    }

    /// The entries of the sorted index cache, in their order.
    pub closed spec fn order(&self) -> Seq<SortedEntity> {
        self.cache@
    }

    /// The statistics.
    pub closed spec fn statistics(&self) -> Stats {
        self.stats
    }

    /// The coefficient of restitution of the collisions, in hundredths.
    pub closed spec fn bounce(&self) -> int {
        self.restitution@
    }

    /// What holds of every simulation: every particle has exactly one entry in
    /// the cache, and every entry refers to a particle.
    #[verifier::type_invariant]
    pub open spec fn wf(&self) -> bool {
        &&& distinct(self.order())
        &&& fits(self.order(), self.store().len())
        &&& covers(self.order(), self.store().len())
    }

    /// A simulation without particles, whose collisions have a coefficient of
    /// restitution of one half.
    pub fn new() -> (context: SimulationContext)
        ensures
            context.store().len() == 0,
            context.order().len() == 0,
            context.statistics() == (Stats { num_collisions: 0, num_degenerate: 0 }),
            context.bounce() == 50,
    {
        SimulationContext::with_restitution(Restitution::default())
    }

    /// A simulation without particles, whose collisions have the given
    /// coefficient of restitution.
    pub fn with_restitution(restitution: Restitution) -> (context: SimulationContext)
        ensures
            context.store().len() == 0,
            context.order().len() == 0,
            context.statistics() == (Stats { num_collisions: 0, num_degenerate: 0 }),
            context.bounce() == restitution@,
    {
        SimulationContext {
            balls: Vec::new(),
            cache: SortedBallsCache::new(),
            stats: Stats { num_collisions: 0, num_degenerate: 0 },
            restitution,
        }
    }

    /// The coefficient of restitution of the collisions.
    pub fn restitution(&self) -> (restitution: Restitution)
        ensures
            restitution@ == self.bounce(),
    {
        self.restitution
    }

    /// The number of particles.
    pub fn len(&self) -> (count: usize)
        ensures
            count == self.store().len(),
    {
        self.balls.len()
    }

    /// The particle at `index`, if there is one.
    pub fn ball(&self, index: usize) -> (ball: Option<Ball>)
        ensures
            ball is Some <==> index < self.store().len(),
            ball is Some ==> ball->0@ == self.store()[index as int],
    {
        if index < self.balls.len() {
            Some(self.balls[index])
        } else {
            None
        }
    }

    /// The statistics.
    pub fn stats(&self) -> (stats: Stats)
        ensures
            stats == self.statistics(),
    {
        self.stats
    }

    /// The entry at position `slot` of the sorted index cache, if there is one.
    pub fn cache_entry(&self, slot: usize) -> (entry: Option<SortedEntity>)
        ensures
            entry == if slot < self.order().len() {
                Some(self.order()[slot as int])
            } else {
                None
            },
    {
        self.cache.get(slot)
    }

    /// Adds a particle to the store and registers it in the sorted index
    /// cache. Returns its index.
    pub fn spawn(&mut self, ball: Ball) -> (index: usize)
        ensures
            index == old(self).store().len(),
            final(self).store() == old(self).store().push(ball@),
            final(self).order() == old(self).order().push(entry_of(index, ball@)),
            final(self).statistics() == old(self).statistics(),
            final(self).bounce() == old(self).bounce(),
    {
        // The store and the cache are changed one after the other: they are
        // taken out of the context for that, and put back together.
        let mut taken: SimulationContext = SimulationContext::new();
        core::mem::swap(self, &mut taken);
        proof {
            use_type_invariant(&taken);
        }
        let SimulationContext { mut balls, mut cache, stats, restitution } = taken;
        let index: usize = balls.len();
        let ghost before = cache@;
        proof {
            if indices(before).contains(index) {
                let p = choose|p: int| 0 <= p < before.len() && indices(before)[p] == index;
                assert(before[p].index < index);
            }
        }
        let ghost first = balls@;
        balls.push(ball);
        let added: bool = cache.add(index, &ball);
        proof {
            assert(added);
            let after = cache@;
            assert(states(balls@) =~= states(first).push(ball@));
            assert forall|p: int, q: int|
                0 <= p < after.len() && 0 <= q < after.len() && p != q implies after[p].index
                != after[q].index by {
                if p < before.len() {
                    assert(before[p].index < index);
                }
                if q < before.len() {
                    assert(before[q].index < index);
                }
            }
            assert forall|i: usize| i < index + 1 implies #[trigger] indices(after).contains(i) by {
                if i < index {
                    assert(indices(before).contains(i));
                    let p = choose|p: int| 0 <= p < before.len() && indices(before)[p] == i;
                    assert(indices(after)[p] == i);
                } else {
                    assert(indices(after)[before.len() as int] == i);
                }
            }
        }
        *self = SimulationContext { balls, cache, stats, restitution };
        index
    }

    /// Runs one tick: moves every particle for `dt` seconds, finds and
    /// resolves the collisions with the chosen broad phase, and wraps the
    /// particles around the edges of a plane with the given half-width and
    /// half-height. With an invalid time step or invalid bounds the tick is not
    /// run and nothing changes.
    pub fn step(
        &mut self,
        dt: i64,
        half_width: i64,
        half_height: i64,
        broad_phase: BroadPhase,
    ) -> (outcome: Result<(), TickError>)
        ensures
            outcome == Err::<(), TickError>(TickError::InvalidTimeStep) <==> !valid_time_step(
                dt as int,
            ),
            outcome == Err::<(), TickError>(TickError::InvalidBounds) <==> valid_time_step(dt as int)
                && !valid_bounds(half_width as int, half_height as int),
            final(self).bounce() == old(self).bounce(),
            outcome is Err ==> final(self).store() == old(self).store() && final(self).order()
                == old(self).order() && final(self).statistics() == old(self).statistics(),
            outcome is Ok ==> ({
                let start = moved(old(self).store(), dt as int);
                let percent = old(self).bounce();
                match broad_phase {
                    BroadPhase::Naive => {
                        &&& final(self).order() == old(self).order()
                        &&& final(self).store() == wrapped(
                            resolve_all(start, all_pairs(start.len() as int), percent),
                            half_width as int,
                            half_height as int,
                        )
                        &&& final(self).statistics() == tallied(
                            old(self).statistics(),
                            start,
                            all_pairs(start.len() as int),
                            percent,
                        )
                    },
                    BroadPhase::SweepAndPrune => {
                        &&& final(self).order() == old(self).order()
                        &&& exists|entries: Seq<SortedEntity>|
                            {
                                &&& #[trigger] is_sweep_order(entries, start)
                                &&& final(self).store() == wrapped(
                                    resolve_all(start, reach_pairs(entries), percent),
                                    half_width as int,
                                    half_height as int,
                                )
                                &&& final(self).statistics() == tallied(
                                    old(self).statistics(),
                                    start,
                                    reach_pairs(entries),
                                    percent,
                                )
                            }
                    },
                    BroadPhase::CachedSweepAndPrune => {
                        &&& is_update_of(final(self).order(), old(self).order(), start)
                        &&& final(self).store() == wrapped(
                            resolve_all(start, reach_pairs(final(self).order()), percent),
                            half_width as int,
                            half_height as int,
                        )
                        &&& final(self).statistics() == tallied(
                            old(self).statistics(),
                            start,
                            reach_pairs(final(self).order()),
                            percent,
                        )
                    },
                }
            }),
    {
        if dt <= 0 || dt > LIMIT {
            return Err(TickError::InvalidTimeStep);
        }
        if half_width <= 0 || half_width > LIMIT || half_height <= 0 || half_height > LIMIT {
            return Err(TickError::InvalidBounds);
        }
        // The phases work on the parts of the context: they are taken out of
        // it for the tick, and put back together.
        let mut taken: SimulationContext = SimulationContext::new();
        core::mem::swap(self, &mut taken);
        proof {
            use_type_invariant(&taken);
        }
        let SimulationContext { mut balls, mut cache, mut stats, restitution } = taken;
        apply_velocity_system(&mut balls, dt);
        match broad_phase {
            BroadPhase::Naive => {
                naive_ball_collision_system(&mut balls, &mut stats, restitution);
            },
            BroadPhase::SweepAndPrune => {
                sweep_and_prune_collision_system(&mut balls, &mut stats, restitution);
            },
            BroadPhase::CachedSweepAndPrune => {
                update_sorted_balls_cache(&mut cache, &balls);
                sweep_and_prune_collision_system_with_cache(
                    &mut balls,
                    &mut stats,
                    &cache,
                    restitution,
                );
            },
        }
        ball_warp_system(&mut balls, half_width, half_height);
        proof {
            use_type_invariant(&cache);
        }
        *self = SimulationContext { balls, cache, stats, restitution };
        Ok(())
    }
}

} // verus!
