//! The collision phase of a tick: the broad phase names the candidate pairs,
//! the narrow phase tests and resolves each of them as soon as it is named, and
//! the statistics count what was resolved.

use crate::ball::{states, Ball, BallState};
use crate::broad_phase::{
    all_pairs, all_pairs_before, lemma_sweep_stops, reach_pairs, reach_pairs_before, reach_row,
    row_pairs, within_reach,
};
use crate::cache::{
    built, covers, fits, fresh, sorted, update_sorted_balls_cache, with_left_bound,
    SortedBallsCache, SortedEntity,
};
use crate::narrow_phase::{collide, collided, contact_of, overlapping, Contact, Restitution};
use vstd::prelude::*;

verus! {

/// Counters of what the narrow phase resolved since the simulation began.
#[derive(Clone, Copy, Debug, PartialEq, Eq, Structural)]
pub struct Stats {
    /// The number of collisions resolved.
    pub num_collisions: usize,
    /// How many of them had coincident centres, so that the distance was
    /// clamped.
    pub num_degenerate: usize,
}

impl Default for Stats {
    fn default() -> (stats: Stats)
        ensures
            stats.num_collisions == 0,
            stats.num_degenerate == 0,
    {
        Stats { num_collisions: 0, num_degenerate: 0 }
    }
}

/// A counter after `more` further events. It stops at the largest value that
/// it can hold.
pub open spec fn counted(count: usize, more: nat) -> usize {
    if count + more > usize::MAX {
        usize::MAX
    } else {
        (count + more) as usize
    }
}

/// The statistics after the narrow phase has reported `contact`.
pub open spec fn recorded(stats: Stats, contact: Contact) -> Stats {
    match contact {
        Contact::Apart => stats,
        Contact::Resolved => Stats { num_collisions: counted(stats.num_collisions, 1), ..stats },
        Contact::Degenerate => Stats {
            num_collisions: counted(stats.num_collisions, 1),
            num_degenerate: counted(stats.num_degenerate, 1),
        },
    }
}

impl Stats {
    /// Counts what the narrow phase reported of a pair.
    pub fn record(&mut self, contact: Contact)
        ensures
            *final(self) == recorded(*old(self), contact),
    {
        match contact {
            Contact::Apart => {},
            Contact::Resolved => {
                if self.num_collisions < usize::MAX {
                    self.num_collisions = self.num_collisions + 1;
                }
            },
            Contact::Degenerate => {
                if self.num_collisions < usize::MAX {
                    self.num_collisions = self.num_collisions + 1;
                }
                if self.num_degenerate < usize::MAX {
                    self.num_degenerate = self.num_degenerate + 1;
                }
            },
        }
    }
}

/// Whether both particles of every pair are in a store of `count` particles.
pub open spec fn pairs_fit(pairs: Seq<(usize, usize)>, count: nat) -> bool {
    forall|k: int| 0 <= k < pairs.len() ==> (#[trigger] pairs[k]).0 < count && pairs[k].1 < count
}

/// The store after the narrow phase has dealt with one pair, for a
/// coefficient of restitution of `percent` hundredths.
pub open spec fn resolve_pair(store: Seq<BallState>, pair: (usize, usize), percent: int) -> Seq<
    BallState,
> {
    let (a, b) = collided(store[pair.0 as int], store[pair.1 as int], percent);
    store.update(pair.0 as int, a).update(pair.1 as int, b)
}

/// The store after the narrow phase has dealt with the pairs one after the
/// other. Each pair is tested and resolved in the state that the pairs before
/// it have left.
pub open spec fn resolve_all(store: Seq<BallState>, pairs: Seq<(usize, usize)>, percent: int) -> Seq<
    BallState,
>
    decreases pairs.len(),
{
    if pairs.len() == 0 {
        store
    } else {
        resolve_pair(resolve_all(store, pairs.drop_last(), percent), pairs.last(), percent)
    }
}

/// The statistics after the narrow phase has dealt with the pairs one after
/// the other.
pub open spec fn tallied(
    stats: Stats,
    store: Seq<BallState>,
    pairs: Seq<(usize, usize)>,
    percent: int,
) -> Stats
    decreases pairs.len(),
{
    if pairs.len() == 0 {
        stats
    } else {
        let before = resolve_all(store, pairs.drop_last(), percent);
        recorded(
            tallied(stats, store, pairs.drop_last(), percent),
            contact_of(before[pairs.last().0 as int], before[pairs.last().1 as int]),
        )
    }
}

/// Narrow phase for the pair of the particles at `i` and `j`: tests the
/// circles exactly, resolves the collision if they overlap, and counts it.
pub fn collide_at(
    balls: &mut Vec<Ball>,
    i: usize,
    j: usize,
    stats: &mut Stats,
    restitution: Restitution,
)
    requires
        i < old(balls)@.len(),
        j < old(balls)@.len(),
    ensures
        final(balls)@.len() == old(balls)@.len(),
        states(final(balls)@) == resolve_pair(states(old(balls)@), (i, j), restitution@),
        *final(stats) == recorded(
            *old(stats),
            contact_of(old(balls)@[i as int]@, old(balls)@[j as int]@),
        ),
{
    let mut a: Ball = balls[i];
    let mut b: Ball = balls[j];
    let contact: Contact = collide(&mut a, &mut b, restitution);
    balls[i] = a;
    balls[j] = b;
    stats.record(contact);
    assert(states(balls@) =~= resolve_pair(states(old(balls)@), (i, j), restitution@));
}

/// What one more candidate adds: the narrow phase deals with it in the state
/// that the candidates before it have left.
proof fn lemma_one_more(
    stats: Stats,
    store: Seq<BallState>,
    pairs: Seq<(usize, usize)>,
    pair: (usize, usize),
    percent: int,
)
    ensures
        resolve_all(store, pairs.push(pair), percent) == resolve_pair(
            resolve_all(store, pairs, percent),
            pair,
            percent,
        ),
        tallied(stats, store, pairs.push(pair), percent) == recorded(
            tallied(stats, store, pairs, percent),
            contact_of(
                resolve_all(store, pairs, percent)[pair.0 as int],
                resolve_all(store, pairs, percent)[pair.1 as int],
            ),
        ),
{
    assert(pairs.push(pair).drop_last() =~= pairs);
    assert(pairs.push(pair).last() == pair);
}

/// Narrow phase for a list of candidate pairs: tests and resolves each pair in
/// turn, in the state that the pairs before it have left, and counts the
/// collisions.
pub fn resolve_pairs(
    balls: &mut Vec<Ball>,
    pairs: &Vec<(usize, usize)>,
    stats: &mut Stats,
    restitution: Restitution,
)
    requires
        pairs_fit(pairs@, old(balls)@.len()),
    ensures
        final(balls)@.len() == old(balls)@.len(),
        states(final(balls)@) == resolve_all(states(old(balls)@), pairs@, restitution@),
        *final(stats) == tallied(*old(stats), states(old(balls)@), pairs@, restitution@),
{
    let ghost store = states(balls@);
    let ghost first_stats = *stats;
    let mut k: usize = 0;
    assert(pairs@.take(0) =~= Seq::empty());
    while k < pairs.len()
        invariant
            k <= pairs@.len(),
            balls@.len() == store.len(),
            pairs_fit(pairs@, store.len()),
            states(balls@) == resolve_all(store, pairs@.take(k as int), restitution@),
            *stats == tallied(first_stats, store, pairs@.take(k as int), restitution@),
        decreases pairs@.len() - k,
    {
        let pair: (usize, usize) = pairs[k];
        proof {
            lemma_one_more(first_stats, store, pairs@.take(k as int), pair, restitution@);
            assert(pairs@.take(k + 1) =~= pairs@.take(k as int).push(pair));
        }
        collide_at(balls, pair.0, pair.1, stats, restitution);
        k = k + 1;
    }
    assert(pairs@.take(pairs@.len() as int) =~= pairs@);
}

/// Collision phase with the naive broad phase: takes every pair of particles
/// in lexicographic order and lets the narrow phase deal with it at once.
pub fn naive_ball_collision_system(
    balls: &mut Vec<Ball>,
    stats: &mut Stats,
    restitution: Restitution,
)
    ensures
        final(balls)@.len() == old(balls)@.len(),
        states(final(balls)@) == resolve_all(
            states(old(balls)@),
            all_pairs(old(balls)@.len() as int),
            restitution@,
        ),
        *final(stats) == tallied(
            *old(stats),
            states(old(balls)@),
            all_pairs(old(balls)@.len() as int),
            restitution@,
        ),
{
    let ghost store = states(balls@);
    let ghost first_stats = *stats;
    let ghost percent = restitution@;
    let count: usize = balls.len();
    let mut i: usize = 0;
    while i < count
        invariant
            i <= count,
            count == balls@.len(),
            count == store.len(),
            percent == restitution@,
            states(balls@) == resolve_all(store, all_pairs_before(count as int, i as int), percent),
            *stats == tallied(
                first_stats,
                store,
                all_pairs_before(count as int, i as int),
                percent,
            ),
        decreases count - i,
    {
        let mut j: usize = i + 1;
        proof {
            assert(all_pairs_before(count as int, i as int) + row_pairs(i as int, j as int)
                =~= all_pairs_before(count as int, i as int));
        }
        while j < count
            invariant
                i < j <= count,
                count == balls@.len(),
                count == store.len(),
                percent == restitution@,
                states(balls@) == resolve_all(
                    store,
                    all_pairs_before(count as int, i as int) + row_pairs(i as int, j as int),
                    percent,
                ),
                *stats == tallied(
                    first_stats,
                    store,
                    all_pairs_before(count as int, i as int) + row_pairs(i as int, j as int),
                    percent,
                ),
            decreases count - j,
        {
            proof {
                let before = all_pairs_before(count as int, i as int);
                let row = row_pairs(i as int, j as int);
                assert(before + row.push((i, j)) =~= (before + row).push((i, j)));
                lemma_one_more(first_stats, store, before + row, (i, j), percent);
            }
            collide_at(balls, i, j, stats, restitution);
            j = j + 1;
        }
        i = i + 1;
    }
}

/// Collision phase with sweep-and-prune over a cache: walks the entries of
/// the cache, as they are; for each entry in turn, it walks the later entries
/// up to the first one that begins beyond the right bound of the entry, and
/// lets the narrow phase deal with each pair at once. The bounds are those of
/// the entries; the narrow phase tests the particles as they are. A particle
/// without an entry takes no part.
pub fn sweep_and_prune_collision_system_with_cache(
    balls: &mut Vec<Ball>,
    stats: &mut Stats,
    cache: &SortedBallsCache,
    restitution: Restitution,
)
    requires
        fits(cache@, old(balls)@.len()),
    ensures
        final(balls)@.len() == old(balls)@.len(),
        states(final(balls)@) == resolve_all(
            states(old(balls)@),
            reach_pairs(cache@),
            restitution@,
        ),
        *final(stats) == tallied(
            *old(stats),
            states(old(balls)@),
            reach_pairs(cache@),
            restitution@,
        ),
{
    let ghost store = states(balls@);
    let ghost first_stats = *stats;
    let ghost percent = restitution@;
    let entries: &Vec<SortedEntity> = cache.entries();
    let count: usize = entries.len();
    let mut p: usize = 0;
    while p < count
        invariant
            p <= count,
            count == entries@.len(),
            balls@.len() == store.len(),
            fits(entries@, store.len()),
            percent == restitution@,
            states(balls@) == resolve_all(store, reach_pairs_before(entries@, p as int), percent),
            *stats == tallied(first_stats, store, reach_pairs_before(entries@, p as int), percent),
        decreases count - p,
    {
        let first: SortedEntity = entries[p];
        let mut q: usize = p + 1;
        proof {
            assert(reach_pairs_before(entries@, p as int) + reach_row(entries@, p as int, q as int)
                =~= reach_pairs_before(entries@, p as int));
        }
        while q < count
            invariant_except_break
                within_reach(entries@, p as int, q - 1),
                states(balls@) == resolve_all(
                    store,
                    reach_pairs_before(entries@, p as int) + reach_row(
                        entries@,
                        p as int,
                        q as int,
                    ),
                    percent,
                ),
                *stats == tallied(
                    first_stats,
                    store,
                    reach_pairs_before(entries@, p as int) + reach_row(
                        entries@,
                        p as int,
                        q as int,
                    ),
                    percent,
                ),
            invariant
                p < q <= count,
                count == entries@.len(),
                balls@.len() == store.len(),
                fits(entries@, store.len()),
                percent == restitution@,
                first == entries@[p as int],
            ensures
                states(balls@) == resolve_all(
                    store,
                    reach_pairs_before(entries@, p as int) + reach_row(
                        entries@,
                        p as int,
                        count as int,
                    ),
                    percent,
                ),
                *stats == tallied(
                    first_stats,
                    store,
                    reach_pairs_before(entries@, p as int) + reach_row(
                        entries@,
                        p as int,
                        count as int,
                    ),
                    percent,
                ),
            decreases count - q,
        {
            let second: SortedEntity = entries[q];
            if second.left_bound > first.right_bound {
                proof {
                    lemma_sweep_stops(entries@, p as int, q as int, count as int);
                }
                break ;
            }
            proof {
                assert(within_reach(entries@, p as int, q as int));
                let before = reach_pairs_before(entries@, p as int);
                let row = reach_row(entries@, p as int, q as int);
                let pair = (first.index, second.index);
                assert(before + row.push(pair) =~= (before + row).push(pair));
                lemma_one_more(first_stats, store, before + row, pair, percent);
            }
            collide_at(balls, first.index, second.index, stats, restitution);
            q = q + 1;
        }
        p = p + 1;
    }
}

/// Whether `entries` is the order in which sweep-and-prune walks the particles
/// of `store`: every particle once, with its current bounds, in non-decreasing
/// order of the left bounds, particles with equal left bounds in the order of
/// the store.
pub open spec fn is_sweep_order(entries: Seq<SortedEntity>, store: Seq<BallState>) -> bool {
    &&& sorted(entries)
    &&& entries.to_multiset() == built(store).to_multiset()
    &&& forall|key: i64| with_left_bound(entries, key) == with_left_bound(built(store), key)
    &&& fresh(entries, store)
    &&& covers(entries, store.len())
}

/// Collision phase with sweep-and-prune: sorts the particles by the left ends
/// of their extents and sweeps over them in that order, as over a cache that
/// has just been built.
pub fn sweep_and_prune_collision_system(
    balls: &mut Vec<Ball>,
    stats: &mut Stats,
    restitution: Restitution,
)
    ensures
        final(balls)@.len() == old(balls)@.len(),
        exists|entries: Seq<SortedEntity>|
            {
                &&& #[trigger] is_sweep_order(entries, states(old(balls)@))
                &&& states(final(balls)@) == resolve_all(
                    states(old(balls)@),
                    reach_pairs(entries),
                    restitution@,
                )
                &&& *final(stats) == tallied(
                    *old(stats),
                    states(old(balls)@),
                    reach_pairs(entries),
                    restitution@,
                )
            },
{
    let mut cache: SortedBallsCache = SortedBallsCache::new();
    update_sorted_balls_cache(&mut cache, balls);
    assert(is_sweep_order(cache@, states(balls@)));
    sweep_and_prune_collision_system_with_cache(balls, stats, &cache, restitution);
}

/// Where no candidate pair overlaps, the collision phase changes neither a
/// particle nor the statistics.
pub proof fn lemma_apart_stay(
    stats: Stats,
    store: Seq<BallState>,
    pairs: Seq<(usize, usize)>,
    percent: int,
)
    requires
        pairs_fit(pairs, store.len()),
        forall|k: int|
            0 <= k < pairs.len() ==> !overlapping(
                store[(#[trigger] pairs[k]).0 as int],
                store[pairs[k].1 as int],
            ),
    ensures
        resolve_all(store, pairs, percent) == store,
        tallied(stats, store, pairs, percent) == stats,
    decreases pairs.len(),
{
    if pairs.len() > 0 {
        let rest = pairs.drop_last();
        assert(pairs_fit(rest, store.len()));
        assert forall|k: int| 0 <= k < rest.len() implies !overlapping(
            store[(#[trigger] rest[k]).0 as int],
            store[rest[k].1 as int],
        ) by {
            assert(rest[k] == pairs[k]);
        }
        lemma_apart_stay(stats, store, rest, percent);
        let last = pairs[pairs.len() - 1];
        assert(pairs.last() == last);
        assert(resolve_pair(store, last, percent) =~= store);
    }
}

} // verus!
