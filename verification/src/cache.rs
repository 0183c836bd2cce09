//! The sorted index cache: the particles of a store, by index, ordered by the
//! left end of their extent along the x-axis. It is kept from one tick to the
//! next, so that re-sorting starts from an order that is nearly right.

use crate::ball::{states, Ball, BallState};
use vstd::prelude::*;

verus! {

/// An entry of the cache: the index of a particle in its store, and the ends of
/// its extent along the x-axis as they were when the entry was last refreshed.
#[derive(Clone, Copy, Debug, PartialEq, Eq, Structural)]
pub struct SortedEntity {
    pub index: usize,
    pub left_bound: i64,
    pub right_bound: i64,
}

/// The entry that describes the particle at `index`, whose state is `state`.
pub open spec fn entry_of(index: usize, state: BallState) -> SortedEntity {
    SortedEntity {
        index,
        left_bound: state.left() as i64,
        right_bound: state.right() as i64,
    }
}

/// The particle indices of the entries, in order.
pub open spec fn indices(entries: Seq<SortedEntity>) -> Seq<usize> {
    entries.map_values(|e: SortedEntity| e.index)
}

/// Whether no particle has two entries.
pub open spec fn distinct(entries: Seq<SortedEntity>) -> bool {
    forall|p: int, q: int|
        0 <= p < entries.len() && 0 <= q < entries.len() && p != q ==> entries[p].index
            != entries[q].index
}

/// Whether every entry refers to a particle of a store of `count` particles.
pub open spec fn fits(entries: Seq<SortedEntity>, count: nat) -> bool {
    forall|p: int| 0 <= p < entries.len() ==> (#[trigger] entries[p]).index < count
}

/// Whether every particle of a store of `count` particles has an entry.
pub open spec fn covers(entries: Seq<SortedEntity>, count: nat) -> bool {
    forall|i: usize| i < count ==> #[trigger] indices(entries).contains(i)
}

/// Whether the entries are in non-decreasing order of their left bounds.
pub open spec fn sorted(entries: Seq<SortedEntity>) -> bool {
    forall|p: int, q: int|
        0 <= p <= q < entries.len() ==> entries[p].left_bound <= entries[q].left_bound
}

/// Whether every entry holds the bounds that its particle has in `store`.
pub open spec fn fresh(entries: Seq<SortedEntity>, store: Seq<BallState>) -> bool {
    forall|p: int|
        0 <= p < entries.len() ==> (#[trigger] entries[p]).index < store.len() && entries[p]
            == entry_of(entries[p].index, store[entries[p].index as int])
}

/// The entries for all particles of `store`, in the order of the store.
pub open spec fn built(store: Seq<BallState>) -> Seq<SortedEntity> {
    Seq::new(store.len(), |i: int| entry_of(i as usize, store[i]))
}

/// The entries with their bounds taken anew from `store`.
pub open spec fn refreshed(entries: Seq<SortedEntity>, store: Seq<BallState>) -> Seq<SortedEntity> {
    entries.map_values(|e: SortedEntity| entry_of(e.index, store[e.index as int]))
}

/// What an update sorts: all particles of the store where the cache is still
/// empty, else the entries that the cache holds, with fresh bounds.
pub open spec fn staged(entries: Seq<SortedEntity>, store: Seq<BallState>) -> Seq<SortedEntity> {
    if entries.len() == 0 {
        built(store)
    } else {
        refreshed(entries, store)
    }
}

/// The entries of `entries` whose left bound is `key`, in order.
pub open spec fn with_left_bound(entries: Seq<SortedEntity>, key: i64) -> Seq<SortedEntity> {
    entries.filter(|e: SortedEntity| e.left_bound == key)
}

/// Sorts the entries by their left bounds with `slice::sort_by_key` of the
/// standard library, whose documentation promises an ascending order of the
/// keys and a stable sort. The contract claims no more: the result holds the
/// same entries, each as often as before; the left bounds do not decrease;
/// entries with equal left bounds keep their order.
#[verifier::external_body]
fn sort_by_left_bound(entries: &mut Vec<SortedEntity>)
    ensures
        final(entries)@.to_multiset() == old(entries)@.to_multiset(),
        sorted(final(entries)@),
        forall|key: i64| with_left_bound(final(entries)@, key) == with_left_bound(old(entries)@, key),
{
    entries.sort_by_key(|e| e.left_bound);
}

/// The cache of particle indices in sweep order. No particle has two entries.
#[derive(Debug)]
pub struct SortedBallsCache {
    sorted_entities: Vec<SortedEntity>,
}

impl View for SortedBallsCache {
    type V = Seq<SortedEntity>;

    closed spec fn view(&self) -> Seq<SortedEntity> {
        self.sorted_entities@
    }
}

impl Default for SortedBallsCache {
    fn default() -> (cache: SortedBallsCache)
        ensures
            cache@.len() == 0,
    {
        SortedBallsCache { sorted_entities: Vec::new() }
    }
}

/// Two sequences that hold the same entries, each as often as the other, are
/// of one length, and an entry occurs in one if and only if it occurs in the
/// other.
proof fn lemma_same_entries(before: Seq<SortedEntity>, after: Seq<SortedEntity>)
    requires
        before.to_multiset() == after.to_multiset(),
    ensures
        after.len() == before.len(),
        forall|e: SortedEntity| before.contains(e) <==> after.contains(e),
{
    before.to_multiset_ensures();
    after.to_multiset_ensures();
    assert forall|e: SortedEntity| before.contains(e) <==> after.contains(e) by {
        assert(before.contains(e) <==> before.to_multiset().count(e) > 0);
        assert(after.contains(e) <==> after.to_multiset().count(e) > 0);
    }
}

/// A sequence that holds the same entries as one without duplicate indices has
/// no duplicate indices either.
proof fn lemma_permutation_distinct(before: Seq<SortedEntity>, after: Seq<SortedEntity>)
    requires
        distinct(before),
        before.to_multiset() == after.to_multiset(),
    ensures
        distinct(after),
        after.len() == before.len(),
{
    lemma_same_entries(before, after);
    assert(before.no_duplicates());
    before.lemma_multiset_has_no_duplicates();
    after.lemma_multiset_has_no_duplicates_conv();
    assert forall|p: int, q: int|
        0 <= p < after.len() && 0 <= q < after.len() && p != q implies after[p].index
        != after[q].index by {
        assert(after.contains(after[p]));
        assert(after.contains(after[q]));
        assert(before.contains(after[p]));
        assert(before.contains(after[q]));
        let bp = choose|k: int| 0 <= k < before.len() && before[k] == after[p];
        let bq = choose|k: int| 0 <= k < before.len() && before[k] == after[q];
        assert(after[p] != after[q]);
        assert(bp != bq);
    }
}

/// A sequence that holds the same entries as one whose entries are fresh and
/// fit a store has fresh entries that fit it too, and covers the store if the
/// other did.
proof fn lemma_permutation_fresh(
    before: Seq<SortedEntity>,
    after: Seq<SortedEntity>,
    store: Seq<BallState>,
)
    requires
        fresh(before, store),
        before.to_multiset() == after.to_multiset(),
    ensures
        fresh(after, store),
        fits(after, store.len()),
        covers(before, store.len()) ==> covers(after, store.len()),
{
    lemma_same_entries(before, after);
    assert forall|p: int| 0 <= p < after.len() implies (#[trigger] after[p]).index < store.len()
        && after[p] == entry_of(after[p].index, store[after[p].index as int]) by {
        assert(after.contains(after[p]));
        assert(before.contains(after[p]));
        let k = choose|k: int| 0 <= k < before.len() && before[k] == after[p];
        assert(before[k].index < store.len());
    }
    if covers(before, store.len()) {
        assert forall|i: usize| i < store.len() implies #[trigger] indices(after).contains(i) by {
            assert(indices(before).contains(i));
            let k = choose|k: int| 0 <= k < before.len() && indices(before)[k] == i;
            assert(before.contains(before[k]));
            assert(after.contains(before[k]));
            let p = choose|p: int| 0 <= p < after.len() && after[p] == before[k];
            assert(indices(after)[p] == i);
        }
    }
}

impl SortedBallsCache {
    /// What holds of every cache: no particle has two entries.
    #[verifier::type_invariant]
    pub open spec fn well_formed(self) -> bool {
        distinct(self@)
    }

    /// An empty cache.
    pub fn new() -> (cache: SortedBallsCache)
        ensures
            cache@.len() == 0,
    {
        SortedBallsCache { sorted_entities: Vec::new() }
    }

    /// The number of entries.
    pub fn len(&self) -> (count: usize)
        ensures
            count == self@.len(),
    {
        self.sorted_entities.len()
    }

    /// The entry at position `slot` of the sweep order, if there is one.
    pub fn get(&self, slot: usize) -> (entry: Option<SortedEntity>)
        ensures
            entry == if slot < self@.len() {
                Some(self@[slot as int])
            } else {
                None
            },
    {
        if slot < self.sorted_entities.len() {
            Some(self.sorted_entities[slot])
        } else {
            None
        }
    }

    /// Whether the particle at `index` has an entry.
    pub fn contains(&self, index: usize) -> (found: bool)
        ensures
            found == indices(self@).contains(index),
    {
        let mut slot: usize = 0;
        while slot < self.sorted_entities.len()
            invariant
                slot <= self.sorted_entities@.len(),
                forall|p: int| 0 <= p < slot ==> self.sorted_entities@[p].index != index,
            decreases self.sorted_entities@.len() - slot,
        {
            if self.sorted_entities[slot].index == index {
                assert(indices(self@)[slot as int] == index);
                return true;
            }
            slot = slot + 1;
        }
        false
    }

    /// Whether every entry refers to a particle of a store of `count`
    /// particles.
    pub fn fits_store(&self, count: usize) -> (ok: bool)
        ensures
            ok == fits(self@, count as nat),
    {
        let mut slot: usize = 0;
        while slot < self.sorted_entities.len()
            invariant
                slot <= self.sorted_entities@.len(),
                forall|p: int| 0 <= p < slot ==> (#[trigger] self.sorted_entities@[p]).index < count,
            decreases self.sorted_entities@.len() - slot,
        {
            if self.sorted_entities[slot].index >= count {
                return false;
            }
            slot = slot + 1;
        }
        true
    }

    /// Registers the particle at `index`, whose current state is that of
    /// `ball`: appends an entry with the particle's bounds. A particle that has
    /// an entry already is not registered again. The new entry stands at the
    /// end, whatever its bounds, until the next update sorts the cache.
    pub fn add(&mut self, index: usize, ball: &Ball) -> (added: bool)
        ensures
            added == !indices(old(self)@).contains(index),
            added ==> final(self)@ == old(self)@.push(entry_of(index, ball@)),
            !added ==> final(self)@ == old(self)@,
    {
        proof {
            use_type_invariant(&*self);
            use_type_invariant(ball);
        }
        if self.contains(index) {
            false
        } else {
            let entry = SortedEntity {
                index,
                left_bound: ball.left_bound(),
                right_bound: ball.right_bound(),
            };
            assert forall|p: int| 0 <= p < self@.len() implies self@[p].index != index by {
                assert(indices(self@)[p] == self@[p].index);
            }
            let ghost before = self.sorted_entities@;
            let mut entries: Vec<SortedEntity> = Vec::new();
            core::mem::swap(&mut self.sorted_entities, &mut entries);
            entries.push(entry);
            assert(entries@ == before.push(entry));
            self.sorted_entities = entries;
            true
        }
    }

    /// The entries, in sweep order.
    pub(crate) fn entries(&self) -> (entries: &Vec<SortedEntity>)
        ensures
            entries@ == self@,
            distinct(entries@),
    {
        proof {
            use_type_invariant(self);
        }
        &self.sorted_entities
    }
}

/// Brings the cache up to date with the store and sorts it. A cache that is
/// still empty is built from scratch, with an entry for every particle of the
/// store; one that has entries keeps them and takes their bounds anew from the
/// store. Then the entries are sorted by their left bounds; entries with equal
/// left bounds keep their order.
pub fn update_sorted_balls_cache(cache: &mut SortedBallsCache, balls: &Vec<Ball>)
    requires
        fits(old(cache)@, balls@.len()),
    ensures
        sorted(final(cache)@),
        final(cache)@.to_multiset() == staged(old(cache)@, states(balls@)).to_multiset(),
        forall|key: i64|
            with_left_bound(final(cache)@, key) == with_left_bound(
                staged(old(cache)@, states(balls@)),
                key,
            ),
        final(cache)@.len() == staged(old(cache)@, states(balls@)).len(),
        fresh(final(cache)@, states(balls@)),
        fits(final(cache)@, balls@.len()),
        old(cache)@.len() == 0 || covers(old(cache)@, balls@.len()) ==> covers(
            final(cache)@,
            balls@.len(),
        ),
{
    proof {
        use_type_invariant(&*cache);
    }
    let ghost store = states(balls@);
    let ghost before = cache@;
    // The entries are out of the cache while they are brought up to date.
    let mut entries: Vec<SortedEntity> = Vec::new();
    core::mem::swap(&mut cache.sorted_entities, &mut entries);
    if entries.len() == 0 {
        let mut index: usize = 0;
        while index < balls.len()
            invariant
                index <= balls@.len(),
                store == states(balls@),
                entries@ == built(store).take(index as int),
            decreases balls@.len() - index,
        {
            let ball: &Ball = &balls[index];
            proof {
                use_type_invariant(ball);
            }
            entries.push(
                SortedEntity {
                    index,
                    left_bound: ball.left_bound(),
                    right_bound: ball.right_bound(),
                },
            );
            assert(entries@ =~= built(store).take(index + 1));
            index = index + 1;
        }
        assert(entries@ =~= built(store));
        assert(covers(entries@, balls@.len())) by {
            assert forall|i: usize| i < balls@.len() implies #[trigger] indices(entries@).contains(
                i,
            ) by {
                assert(indices(entries@)[i as int] == i);
            }
        }
    } else {
        let mut slot: usize = 0;
        while slot < entries.len()
            invariant
                slot <= entries@.len(),
                entries@.len() == before.len(),
                fits(before, balls@.len()),
                store == states(balls@),
                forall|k: int|
                    0 <= k < slot ==> #[trigger] entries@[k] == entry_of(
                        before[k].index,
                        store[before[k].index as int],
                    ),
                forall|k: int| slot <= k < entries@.len() ==> #[trigger] entries@[k] == before[k],
            decreases entries@.len() - slot,
        {
            let index: usize = entries[slot].index;
            assert(before[slot as int].index < balls@.len());
            let ball: &Ball = &balls[index];
            proof {
                use_type_invariant(ball);
            }
            entries[slot] = SortedEntity {
                index,
                left_bound: ball.left_bound(),
                right_bound: ball.right_bound(),
            };
            slot = slot + 1;
        }
        assert(entries@ =~= refreshed(before, store));
        proof {
            if covers(before, balls@.len()) {
                assert forall|i: usize| i < balls@.len() implies #[trigger] indices(
                    entries@,
                ).contains(i) by {
                    assert(indices(before).contains(i));
                    let k = choose|k: int| 0 <= k < before.len() && indices(before)[k] == i;
                    assert(indices(entries@)[k] == i);
                }
            }
        }
    }
    assert(entries@ == staged(before, store));
    assert(distinct(entries@));
    assert(fresh(entries@, store));
    let ghost unsorted = entries@;
    sort_by_left_bound(&mut entries);
    proof {
        lemma_permutation_distinct(unsorted, entries@);
        lemma_permutation_fresh(unsorted, entries@, store);
    }
    cache.sorted_entities = entries;
}

} // verus!
