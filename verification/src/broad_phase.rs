//! Broad phase: which pairs of particles are candidates for a collision, and
//! which of them collide. The naive detector takes every pair for a candidate.
//! Sweep-and-prune walks the particles in the order of the left ends of their
//! extents along the x-axis and, for each particle, stops at the first later
//! one whose extent begins beyond its own.

use crate::ball::{states, Ball, BallState};
use crate::cache::{covers, fits, fresh, indices, sorted, SortedEntity};
use crate::collision_laws::lemma_overlapping_symmetric;
use crate::narrow_phase::{overlapping, overlaps};
use vstd::prelude::*;
use vstd::seq_lib::{lemma_seq_concat_contains_all_elements, lemma_seq_contains_after_push};

verus! {

/// The pairs `(i, j)` with `i < j < upto`, in ascending order of `j`.
pub open spec fn row_pairs(i: int, upto: int) -> Seq<(usize, usize)>
    decreases upto - i,
{
    if upto <= i + 1 {
        Seq::empty()
    } else {
        row_pairs(i, upto - 1).push((i as usize, (upto - 1) as usize))
    }
}

/// The pairs `(i, j)` with `i < rows` and `i < j < count`, in lexicographic
/// order.
pub open spec fn all_pairs_before(count: int, rows: int) -> Seq<(usize, usize)>
    decreases rows,
{
    if rows <= 0 {
        Seq::empty()
    } else {
        all_pairs_before(count, rows - 1) + row_pairs(rows - 1, count)
    }
}

/// The candidates of the naive broad phase among `count` particles: every pair
/// `(i, j)` with `i < j`, in lexicographic order.
pub open spec fn all_pairs(count: int) -> Seq<(usize, usize)> {
    all_pairs_before(count, count)
}

/// Whether the sweep that starts at position `p` reaches position `q`: no
/// entry after `p` up to `q` begins beyond the right bound of the entry at `p`.
pub open spec fn within_reach(entries: Seq<SortedEntity>, p: int, q: int) -> bool {
    forall|t: int| p < t <= q ==> (#[trigger] entries[t]).left_bound <= entries[p].right_bound
}

/// The particles at the positions after `p` and before `upto` that the sweep
/// from `p` reaches, each paired with the particle at `p`, in the order of the
/// positions.
pub open spec fn reach_row(entries: Seq<SortedEntity>, p: int, upto: int) -> Seq<(usize, usize)>
    decreases upto - p,
{
    if upto <= p + 1 {
        Seq::empty()
    } else if within_reach(entries, p, upto - 1) {
        reach_row(entries, p, upto - 1).push((entries[p].index, entries[upto - 1].index))
    } else {
        reach_row(entries, p, upto - 1)
    }
}

/// The pairs that the sweeps from the positions before `rows` reach.
pub open spec fn reach_pairs_before(entries: Seq<SortedEntity>, rows: int) -> Seq<(usize, usize)>
    decreases rows,
{
    if rows <= 0 {
        Seq::empty()
    } else {
        reach_pairs_before(entries, rows - 1) + reach_row(entries, rows - 1, entries.len() as int)
    }
}

/// The candidates of sweep-and-prune over the given entries: for each position
/// in turn, the particle at that position paired with the particles at the
/// later positions that its sweep reaches.
pub open spec fn reach_pairs(entries: Seq<SortedEntity>) -> Seq<(usize, usize)> {
    reach_pairs_before(entries, entries.len() as int)
}

/// The test of a pair of particles of `store` for overlap.
pub open spec fn overlapping_in(store: Seq<BallState>) -> spec_fn((usize, usize)) -> bool {
    |pair: (usize, usize)| overlapping(store[pair.0 as int], store[pair.1 as int])
}

/// What the naive detector finds: every pair `(i, j)` with `i < j` whose
/// circles overlap, in lexicographic order.
pub open spec fn naive_pairs(store: Seq<BallState>) -> Seq<(usize, usize)> {
    all_pairs(store.len() as int).filter(overlapping_in(store))
}

/// What sweep-and-prune finds over the given entries: the candidates whose
/// circles overlap, in the order of the sweep.
pub open spec fn sweep_pairs(entries: Seq<SortedEntity>, store: Seq<BallState>) -> Seq<
    (usize, usize),
> {
    reach_pairs(entries).filter(overlapping_in(store))
}

/// Once an entry begins beyond the right bound of the entry at `p`, the sweep
/// from `p` reaches nothing more.
pub proof fn lemma_sweep_stops(entries: Seq<SortedEntity>, p: int, stop: int, upto: int)
    requires
        p < stop <= upto,
        entries[stop].left_bound > entries[p].right_bound,
    ensures
        reach_row(entries, p, upto) == reach_row(entries, p, stop),
    decreases upto - stop,
{
    if upto > stop {
        lemma_sweep_stops(entries, p, stop, upto - 1);
        assert(!within_reach(entries, p, upto - 1)) by {
            assert(entries[stop].left_bound > entries[p].right_bound);
        }
    }
}

/// Naive broad phase: tests every pair of particles.
pub fn naive_collision_pairs(balls: &Vec<Ball>) -> (pairs: Vec<(usize, usize)>)
    ensures
        pairs@ == naive_pairs(states(balls@)),
{
    let ghost store = states(balls@);
    let ghost hit = overlapping_in(store);
    let count: usize = balls.len();
    let mut pairs: Vec<(usize, usize)> = Vec::new();
    let mut i: usize = 0;
    proof {
        assert(all_pairs_before(count as int, 0).filter(hit) =~= Seq::empty()) by {
            all_pairs_before(count as int, 0).lemma_filter_len(hit);
        }
    }
    while i < count
        invariant
            i <= count,
            count == balls@.len(),
            store == states(balls@),
            hit == overlapping_in(store),
            pairs@ == all_pairs_before(count as int, i as int).filter(hit),
        decreases count - i,
    {
        let mut j: usize = i + 1;
        proof {
            assert(all_pairs_before(count as int, i as int) + row_pairs(i as int, j as int)
                =~= all_pairs_before(count as int, i as int));
        }
        while j < count
            invariant
                i < j <= count,
                count == balls@.len(),
                store == states(balls@),
                hit == overlapping_in(store),
                pairs@ == (all_pairs_before(count as int, i as int) + row_pairs(
                    i as int,
                    j as int,
                )).filter(hit),
            decreases count - j,
        {
            proof {
                let before = all_pairs_before(count as int, i as int);
                let row = row_pairs(i as int, j as int);
                assert(before + row.push((i, j)) =~= (before + row).push((i, j)));
                (before + row).lemma_filter_push((i, j), hit);
            }
            if overlaps(&balls[i], &balls[j]) {
                pairs.push((i, j));
            }
            j = j + 1;
        }
        i = i + 1;
    }
    pairs
}

/// Sweep-and-prune broad phase over the given entries: for each entry in
/// turn, walks the later entries up to the first one that begins beyond the
/// right bound of the entry, and tests the particles of each pair exactly.
pub fn sweep_collision_pairs(entries: &Vec<SortedEntity>, balls: &Vec<Ball>) -> (pairs: Vec<
    (usize, usize),
>)
    requires
        fits(entries@, balls@.len()),
    ensures
        pairs@ == sweep_pairs(entries@, states(balls@)),
{
    let ghost store = states(balls@);
    let ghost hit = overlapping_in(store);
    let count: usize = entries.len();
    let mut pairs: Vec<(usize, usize)> = Vec::new();
    let mut p: usize = 0;
    proof {
        assert(reach_pairs_before(entries@, 0).filter(hit) =~= Seq::empty()) by {
            reach_pairs_before(entries@, 0).lemma_filter_len(hit);
        }
    }
    while p < count
        invariant
            p <= count,
            count == entries@.len(),
            store == states(balls@),
            hit == overlapping_in(store),
            fits(entries@, balls@.len()),
            pairs@ == reach_pairs_before(entries@, p as int).filter(hit),
        decreases count - p,
    {
        let first: SortedEntity = entries[p];
        let mut q: usize = p + 1;
        proof {
            assert(reach_pairs_before(entries@, p as int) + reach_row(entries@, p as int, q as int)
                =~= reach_pairs_before(entries@, p as int));
        }
        while q < count
            invariant_except_break
                within_reach(entries@, p as int, q - 1),
                pairs@ == (reach_pairs_before(entries@, p as int) + reach_row(
                    entries@,
                    p as int,
                    q as int,
                )).filter(hit),
            invariant
                p < q <= count,
                count == entries@.len(),
                store == states(balls@),
                hit == overlapping_in(store),
                fits(entries@, balls@.len()),
                first == entries@[p as int],
            ensures
                pairs@ == (reach_pairs_before(entries@, p as int) + reach_row(
                    entries@,
                    p as int,
                    count as int,
                )).filter(hit),
            decreases count - q,
        {
            let second: SortedEntity = entries[q];
            if second.left_bound > first.right_bound {
                proof {
                    lemma_sweep_stops(entries@, p as int, q as int, count as int);
                }
                break ;
            }
            proof {
                assert(within_reach(entries@, p as int, q as int));
                let before = reach_pairs_before(entries@, p as int);
                let row = reach_row(entries@, p as int, q as int);
                let pair = (first.index, second.index);
                assert(before + row.push(pair) =~= (before + row).push(pair));
                (before + row).lemma_filter_push(pair, hit);
            }
            if overlaps(&balls[first.index], &balls[second.index]) {
                pairs.push((first.index, second.index));
            }
            q = q + 1;
        }
        p = p + 1;
    }
    pairs
}

/// Which pairs a row of the naive candidates holds.
proof fn lemma_row_pairs_contains(i: int, upto: int, pair: (usize, usize))
    requires
        0 <= i,
        upto <= usize::MAX + 1,
    ensures
        row_pairs(i, upto).contains(pair) <==> pair.0 == i && i < pair.1 < upto,
    decreases upto - i,
{
    if upto > i + 1 {
        lemma_row_pairs_contains(i, upto - 1, pair);
        lemma_seq_contains_after_push(
            row_pairs(i, upto - 1),
            (i as usize, (upto - 1) as usize),
            pair,
        );
    }
}

/// Which pairs the rows before `rows` of the naive candidates hold.
proof fn lemma_all_pairs_before_contains(count: int, rows: int, pair: (usize, usize))
    requires
        rows <= count <= usize::MAX + 1,
    ensures
        all_pairs_before(count, rows).contains(pair) <==> pair.0 < rows && pair.0 < pair.1 < count,
    decreases rows,
{
    if rows > 0 {
        lemma_all_pairs_before_contains(count, rows - 1, pair);
        lemma_row_pairs_contains(rows - 1, count, pair);
        lemma_seq_concat_contains_all_elements(
            all_pairs_before(count, rows - 1),
            row_pairs(rows - 1, count),
            pair,
        );
    }
}

/// The candidates of the naive broad phase are exactly the pairs `(i, j)` with
/// `i < j < count`.
pub proof fn lemma_all_pairs_contains(count: int, pair: (usize, usize))
    requires
        0 <= count <= usize::MAX + 1,
    ensures
        all_pairs(count).contains(pair) <==> pair.0 < pair.1 < count,
{
    lemma_all_pairs_before_contains(count, count, pair);
}

/// A sequence filtered by a test holds exactly the elements of the sequence
/// that pass the test.
proof fn lemma_filter_holds(all: Seq<(usize, usize)>, test: spec_fn((usize, usize)) -> bool, pair: (
    usize,
    usize,
))
    ensures
        all.filter(test).contains(pair) <==> all.contains(pair) && test(pair),
{
    if all.filter(test).contains(pair) {
        all.lemma_filter_contains_rev(test, pair);
        let k = choose|k: int| 0 <= k < all.filter(test).len() && all.filter(test)[k] == pair;
        all.lemma_filter_pred(test, k);
    }
    if all.contains(pair) && test(pair) {
        let k = choose|k: int| 0 <= k < all.len() && all[k] == pair;
        all.lemma_filter_contains(test, k);
    }
}

/// The naive detector finds exactly the pairs `(i, j)` with `i < j` whose
/// circles overlap.
pub proof fn lemma_naive_pairs_contains(store: Seq<BallState>, pair: (usize, usize))
    requires
        store.len() <= usize::MAX,
    ensures
        naive_pairs(store).contains(pair) <==> pair.0 < pair.1 < store.len() && overlapping(
            store[pair.0 as int],
            store[pair.1 as int],
        ),
{
    lemma_all_pairs_contains(store.len() as int, pair);
    lemma_filter_holds(all_pairs(store.len() as int), overlapping_in(store), pair);
}

/// Whether sweep-and-prune takes the particles at the positions `p` and `q`
/// for a candidate pair: `q` comes after `p` and the sweep from `p` reaches it.
pub open spec fn reached(entries: Seq<SortedEntity>, p: int, q: int) -> bool {
    0 <= p < q < entries.len() && within_reach(entries, p, q)
}

/// Which pairs the sweep from position `p` reaches.
proof fn lemma_reach_row_contains(
    entries: Seq<SortedEntity>,
    p: int,
    upto: int,
    pair: (usize, usize),
)
    requires
        0 <= p,
        upto <= entries.len(),
    ensures
        reach_row(entries, p, upto).contains(pair) <==> exists|q: int|
            q < upto && #[trigger] reached(entries, p, q) && pair == (
                entries[p].index,
                entries[q].index,
            ),
    decreases upto - p,
{
    if upto > p + 1 {
        lemma_reach_row_contains(entries, p, upto - 1, pair);
        let rest = reach_row(entries, p, upto - 1);
        let last = upto - 1;
        if reached(entries, p, last) {
            lemma_seq_contains_after_push(rest, (entries[p].index, entries[last].index), pair);
        }
        if reach_row(entries, p, upto).contains(pair) {
            if rest.contains(pair) {
                let q = choose|q: int|
                    q < upto - 1 && #[trigger] reached(entries, p, q) && pair == (
                        entries[p].index,
                        entries[q].index,
                    );
                assert(q < upto && reached(entries, p, q));
            } else {
                assert(reached(entries, p, last));
            }
        }
        if exists|q: int|
            q < upto && #[trigger] reached(entries, p, q) && pair == (
                entries[p].index,
                entries[q].index,
            ) {
            let q = choose|q: int|
                q < upto && #[trigger] reached(entries, p, q) && pair == (
                    entries[p].index,
                    entries[q].index,
                );
            if q < upto - 1 {
                assert(rest.contains(pair));
            }
        }
    } else {
        assert forall|q: int| q < upto implies !(#[trigger] reached(entries, p, q)) by {}
    }
}

/// Which pairs the sweeps from the positions before `rows` reach.
proof fn lemma_reach_pairs_before_contains(
    entries: Seq<SortedEntity>,
    rows: int,
    pair: (usize, usize),
)
    requires
        rows <= entries.len(),
    ensures
        reach_pairs_before(entries, rows).contains(pair) <==> exists|p: int, q: int|
            p < rows && #[trigger] reached(entries, p, q) && pair == (
                entries[p].index,
                entries[q].index,
            ),
    decreases rows,
{
    if rows > 0 {
        let row = rows - 1;
        let m = entries.len() as int;
        lemma_reach_pairs_before_contains(entries, row, pair);
        lemma_reach_row_contains(entries, row, m, pair);
        lemma_seq_concat_contains_all_elements(
            reach_pairs_before(entries, row),
            reach_row(entries, row, m),
            pair,
        );
        if reach_pairs_before(entries, rows).contains(pair) {
            if reach_pairs_before(entries, row).contains(pair) {
                let (p, q) = choose|p: int, q: int|
                    p < row && #[trigger] reached(entries, p, q) && pair == (
                        entries[p].index,
                        entries[q].index,
                    );
                assert(p < rows && reached(entries, p, q));
            } else {
                let q = choose|q: int|
                    q < m && #[trigger] reached(entries, row, q) && pair == (
                        entries[row].index,
                        entries[q].index,
                    );
                assert(row < rows && reached(entries, row, q));
            }
        }
        if exists|p: int, q: int|
            p < rows && #[trigger] reached(entries, p, q) && pair == (
                entries[p].index,
                entries[q].index,
            ) {
            let (p, q) = choose|p: int, q: int|
                p < rows && #[trigger] reached(entries, p, q) && pair == (
                    entries[p].index,
                    entries[q].index,
                );
            if p < row {
                assert(reach_pairs_before(entries, row).contains(pair));
            } else {
                assert(q < m && reached(entries, row, q));
                assert(reach_row(entries, row, m).contains(pair));
            }
        }
    } else {
        assert forall|p: int, q: int| p < rows implies !(#[trigger] reached(entries, p, q)) by {}
    }
}

/// The candidates of sweep-and-prune are exactly the pairs of particles at two
/// positions of which the sweep from the first reaches the second.
pub proof fn lemma_reach_pairs_contains(entries: Seq<SortedEntity>, pair: (usize, usize))
    ensures
        reach_pairs(entries).contains(pair) <==> exists|p: int, q: int| #[trigger]
            reached(entries, p, q) && pair == (entries[p].index, entries[q].index),
{
    lemma_reach_pairs_before_contains(entries, entries.len() as int, pair);
    if exists|p: int, q: int| #[trigger]
        reached(entries, p, q) && pair == (entries[p].index, entries[q].index) {
        let (p, q) = choose|p: int, q: int| #[trigger]
            reached(entries, p, q) && pair == (entries[p].index, entries[q].index);
        assert(p < entries.len() && reached(entries, p, q));
    }
}

/// Sweep-and-prune finds exactly the candidate pairs whose circles overlap.
pub proof fn lemma_sweep_pairs_contains(
    entries: Seq<SortedEntity>,
    store: Seq<BallState>,
    pair: (usize, usize),
)
    ensures
        sweep_pairs(entries, store).contains(pair) <==> overlapping(
            store[pair.0 as int],
            store[pair.1 as int],
        ) && exists|p: int, q: int| #[trigger]
            reached(entries, p, q) && pair == (entries[p].index, entries[q].index),
{
    lemma_reach_pairs_contains(entries, pair);
    lemma_filter_holds(reach_pairs(entries), overlapping_in(store), pair);
}

/// Two circles that overlap also overlap in their extents along the x-axis:
/// each begins before the other ends.
pub proof fn lemma_overlap_in_extent(a: BallState, b: BallState)
    requires
        a.radius > 0,
        b.radius > 0,
        overlapping(a, b),
    ensures
        b.left() < a.right(),
        a.left() < b.right(),
{
    let dx = b.x - a.x;
    let dy = b.y - a.y;
    let reach = a.radius + b.radius;
    assert(-reach < dx < reach) by (nonlinear_arith)
        requires
            dx * dx + dy * dy < reach * reach,
            reach > 0,
    ;
}

/// The two detectors find the same pairs: where the entries hold every
/// particle of the store, with its current bounds, in non-decreasing order of
/// the left bounds, sweep-and-prune finds a pair of particles, in one order or
/// the other, if and only if the naive detector finds it.
pub proof fn lemma_detectors_agree(
    entries: Seq<SortedEntity>,
    store: Seq<BallState>,
    i: usize,
    j: usize,
)
    requires
        store.len() <= usize::MAX,
        forall|k: int| 0 <= k < store.len() ==> (#[trigger] store[k]).valid(),
        sorted(entries),
        fresh(entries, store),
        covers(entries, store.len()),
        i < j,
    ensures
        naive_pairs(store).contains((i, j)) <==> sweep_pairs(entries, store).contains((i, j))
            || sweep_pairs(entries, store).contains((j, i)),
{
    lemma_naive_pairs_contains(store, (i, j));
    lemma_sweep_pairs_contains(entries, store, (i, j));
    lemma_sweep_pairs_contains(entries, store, (j, i));
    if i < store.len() && j < store.len() {
        lemma_overlapping_symmetric(store[i as int], store[j as int]);
    }
    if naive_pairs(store).contains((i, j)) {
        assert(indices(entries).contains(i));
        assert(indices(entries).contains(j));
        let p = choose|p: int| 0 <= p < entries.len() && indices(entries)[p] == i;
        let q = choose|q: int| 0 <= q < entries.len() && indices(entries)[q] == j;
        assert(entries[p].index == i && entries[q].index == j);
        assert(store[i as int].valid() && store[j as int].valid());
        lemma_overlap_in_extent(store[i as int], store[j as int]);
        if p < q {
            assert(within_reach(entries, p, q)) by {
                assert forall|t: int| p < t <= q implies (#[trigger] entries[t]).left_bound
                    <= entries[p].right_bound by {
                    assert(entries[t].left_bound <= entries[q].left_bound);
                }
            }
            assert(reached(entries, p, q));
        } else {
            assert(within_reach(entries, q, p)) by {
                assert forall|t: int| q < t <= p implies (#[trigger] entries[t]).left_bound
                    <= entries[q].right_bound by {
                    assert(entries[t].left_bound <= entries[p].left_bound);
                }
            }
            assert(reached(entries, q, p));
        }
    }
    if sweep_pairs(entries, store).contains((i, j)) {
        let (p, q) = choose|p: int, q: int| #[trigger]
            reached(entries, p, q) && (i, j) == (entries[p].index, entries[q].index);
        assert(entries[q].index < store.len());
    }
    if sweep_pairs(entries, store).contains((j, i)) {
        let (p, q) = choose|p: int, q: int| #[trigger]
            reached(entries, p, q) && (j, i) == (entries[p].index, entries[q].index);
        assert(entries[p].index < store.len());
    }
}

} // verus!
