//! The broad phase: sweep and prune along the horizontal axis.
//!
//! The bodies are put in the order in which their bounding intervals
//! begin. Each body in turn is paired with those before it whose interval
//! has not yet ended where its own begins: these are the candidates that
//! the narrow phase has to look at, and no other pair can collide.

use vstd::prelude::*;
use crate::ball::Ball;
use crate::body::Body;
use crate::contact::{collides, lemma_collides_implies_spans_meet, spans_meet};
use crate::resolve::{lemma_resolve_all_push, models, out_of_contact, resolve_all};

verus! {

/// Body `i` comes before body `j` in the sweep: its interval begins
/// earlier, or at the same place and `i` is the smaller index.
pub open spec fn sweeps_before(s: Seq<Body>, i: int, j: int) -> bool {
    s[i].min_extent() < s[j].min_extent() || (s[i].min_extent() == s[j].min_extent() && i < j)
}

/// `order` lists the indices of `s` in the order of the sweep.
pub open spec fn is_sweep_order(s: Seq<Body>, order: Seq<int>) -> bool {
    &&& order.len() == s.len()
    &&& forall|k: int| 0 <= k < order.len() ==> 0 <= #[trigger] order[k] < s.len()
    &&& forall|a: int, b: int|
        0 <= a < b < order.len() ==> sweeps_before(s, #[trigger] order[a], #[trigger] order[b])
}

/// The indices of `s` in the order of the sweep.
pub open spec fn sweep_order(s: Seq<Body>) -> Seq<int> {
    choose|order: Seq<int>| is_sweep_order(s, order)
}

/// Of `ranks`, those whose body reaches at least to `threshold`.
pub open spec fn keep(s: Seq<Body>, order: Seq<int>, ranks: Seq<int>, threshold: int) -> Seq<int>
    decreases ranks.len(),
{
    if ranks.len() == 0 {
        Seq::empty()
    } else {
        let rest = keep(s, order, ranks.drop_last(), threshold);
        if s[order[ranks.last()]].max_extent() >= threshold {
            rest.push(ranks.last())
        } else {
            rest
        }
    }
}

/// The active set: of the first `k` ranks of the sweep, in rising order,
/// those whose body reaches at least to `threshold`.
pub open spec fn live(s: Seq<Body>, order: Seq<int>, k: int, threshold: int) -> Seq<int>
    decreases k,
{
    if k <= 0 {
        Seq::empty()
    } else {
        let rest = live(s, order, k - 1, threshold);
        if s[order[k - 1]].max_extent() >= threshold {
            rest.push(k - 1)
        } else {
            rest
        }
    }
}

/// The body at rank `rank`, paired with the body at each of `ranks`.
pub open spec fn pairs_with(order: Seq<int>, rank: int, ranks: Seq<int>) -> Seq<(int, int)> {
    Seq::new(ranks.len(), |t: int| (order[rank], order[ranks[t]]))
}

/// The candidates that the body at rank `rank` yields: itself with every
/// member of the active set.
pub open spec fn sweep_row(s: Seq<Body>, order: Seq<int>, rank: int) -> Seq<(int, int)> {
    pairs_with(order, rank, live(s, order, rank, s[order[rank]].min_extent()))
}

/// The candidates of the first `rows` bodies of the sweep.
pub open spec fn sweep_rows(s: Seq<Body>, order: Seq<int>, rows: int) -> Seq<(int, int)>
    decreases rows,
{
    if rows <= 0 {
        Seq::empty()
    } else {
        sweep_rows(s, order, rows - 1) + sweep_row(s, order, rows - 1)
    }
}

/// The candidate pairs of a population, in the order in which the sweep
/// yields them.
pub open spec fn sweep_pairs(s: Seq<Body>) -> Seq<(int, int)> {
    sweep_rows(s, sweep_order(s), s.len() as int)
}

/// A sweep order names every body.
pub proof fn lemma_sweep_order_onto(s: Seq<Body>, order: Seq<int>, v: int)
    requires
        is_sweep_order(s, order),
        0 <= v < s.len(),
    ensures
        exists|k: int| 0 <= k < order.len() && order[k] == v,
{
    let n = s.len() as int;
    assert(order.no_duplicates()) by {
        assert forall|i: int, j: int|
            0 <= i < order.len() && 0 <= j < order.len() && i != j implies order[i] != order[j] by {
            if i < j {
                assert(sweeps_before(s, order[i], order[j]));
            } else {
                assert(sweeps_before(s, order[j], order[i]));
            }
        }
    }
    order.unique_seq_to_set();
    let named = order.to_set();
    let every = vstd::set_lib::set_int_range(0, n);
    vstd::set_lib::lemma_int_range(0, n);
    assert(named.subset_of(every)) by {
        assert forall|x: int| named.contains(x) implies every.contains(x) by {
            let k = choose|k: int| 0 <= k < order.len() && order[k] == x;
            assert(0 <= order[k] < n);
        }
    }
    vstd::set_lib::lemma_len_subset(named, every);
    vstd::set_lib::lemma_subset_equality(named, every);
    assert(every.contains(v));
    assert(named.contains(v));
    assert(order.contains(v));
}

/// Two sweep orders of one population agree on their first `k` places.
proof fn lemma_sweep_orders_agree(s: Seq<Body>, first: Seq<int>, second: Seq<int>, k: int)
    requires
        is_sweep_order(s, first),
        is_sweep_order(s, second),
        0 <= k <= s.len(),
    ensures
        forall|t: int| 0 <= t < k ==> first[t] == second[t],
    decreases k,
{
    if k > 0 {
        lemma_sweep_orders_agree(s, first, second, k - 1);
        let at = k - 1;
        let v = first[at];
        let w = second[at];
        lemma_sweep_order_onto(s, second, v);
        lemma_sweep_order_onto(s, first, w);
        let m = choose|m: int| 0 <= m < second.len() && second[m] == v;
        let l = choose|l: int| 0 <= l < first.len() && first[l] == w;
        if m < at {
            assert(first[m] == second[m]);
            assert(sweeps_before(s, first[m], first[at]));
        } else if m > at {
            assert(sweeps_before(s, second[at], second[m]));
            if l < at {
                assert(first[l] == second[l]);
                assert(sweeps_before(s, second[l], second[at]));
            } else if l > at {
                assert(sweeps_before(s, first[at], first[l]));
            }
        }
    }
}

/// A population has at most one sweep order.
pub proof fn lemma_sweep_order_unique(s: Seq<Body>, first: Seq<int>, second: Seq<int>)
    requires
        is_sweep_order(s, first),
        is_sweep_order(s, second),
    ensures
        first == second,
{
    lemma_sweep_orders_agree(s, first, second, s.len() as int);
    assert(first =~= second);
}

/// Where the sweep order of the first `k` bodies has to make room for
/// body `k`: behind every body whose interval begins no later.
proof fn lemma_insertion_point(s: Seq<Body>, order: Seq<int>, key: int, from: int) -> (p: int)
    requires
        0 <= from <= order.len(),
        forall|t: int| 0 <= t < order.len() ==> 0 <= #[trigger] order[t] < s.len(),
    ensures
        from <= p <= order.len(),
        forall|t: int| from <= t < p ==> s[#[trigger] order[t]].min_extent() <= key,
        p < order.len() ==> s[order[p]].min_extent() > key,
    decreases order.len() - from,
{
    if from < order.len() && s[order[from]].min_extent() <= key {
        lemma_insertion_point(s, order, key, from + 1)
    } else {
        from
    }
}

/// Every population has a sweep order.
pub proof fn lemma_sweep_order_exists(s: Seq<Body>)
    ensures
        is_sweep_order(s, sweep_order(s)),
    decreases s.len(),
{
    if s.len() == 0 {
        assert(is_sweep_order(s, Seq::<int>::empty()));
    } else {
        let fewer = s.drop_last();
        let k = fewer.len() as int;
        lemma_sweep_order_exists(fewer);
        let before = sweep_order(fewer);
        let key = s[k].min_extent();
        let p = lemma_insertion_point(fewer, before, key, 0);
        let order = Seq::new(
            s.len(),
            |t: int|
                if t < p {
                    before[t]
                } else if t == p {
                    k
                } else {
                    before[t - 1]
                },
        );
        assert forall|a: int, b: int| 0 <= a < b < order.len() implies sweeps_before(
            s,
            #[trigger] order[a],
            #[trigger] order[b],
        ) by {
            if b < p {
                assert(sweeps_before(fewer, before[a], before[b]));
            } else if b == p {
                assert(0 <= before[a] < k);
            } else if a < p {
                assert(sweeps_before(fewer, before[a], before[b - 1]));
            } else if a == p {
                assert(0 <= before[b - 1] < k);
                if p < b - 1 {
                    assert(sweeps_before(fewer, before[p], before[b - 1]));
                }
            } else {
                assert(sweeps_before(fewer, before[a - 1], before[b - 1]));
            }
        }
        assert forall|t: int| 0 <= t < order.len() implies 0 <= #[trigger] order[t] < s.len() by {
            if t < p {
                assert(0 <= before[t] < k);
            } else if t > p {
                assert(0 <= before[t - 1] < k);
            }
        }
        assert(is_sweep_order(s, order));
    }
}

/// Filtering one more rank.
proof fn lemma_keep_push(s: Seq<Body>, order: Seq<int>, ranks: Seq<int>, rank: int, threshold: int)
    ensures
        keep(s, order, ranks.push(rank), threshold) == if s[order[rank]].max_extent() >= threshold {
            keep(s, order, ranks, threshold).push(rank)
        } else {
            keep(s, order, ranks, threshold)
        },
{
    assert(ranks.push(rank).drop_last() =~= ranks);
}

/// Evicting from the active set what ends before a later threshold leaves
/// the active set of that threshold.
proof fn lemma_keep_live(s: Seq<Body>, order: Seq<int>, k: int, earlier: int, later: int)
    requires
        earlier <= later,
    ensures
        keep(s, order, live(s, order, k, earlier), later) == live(s, order, k, later),
    decreases k,
{
    if k > 0 {
        lemma_keep_live(s, order, k - 1, earlier, later);
        if s[order[k - 1]].max_extent() >= earlier {
            lemma_keep_push(s, order, live(s, order, k - 1, earlier), k - 1, later);
        }
    }
}

/// The active set holds ranks below `k` only, each of a body that reaches
/// the threshold.
pub proof fn lemma_live_members(s: Seq<Body>, order: Seq<int>, k: int, threshold: int)
    ensures
        forall|t: int|
            0 <= t < live(s, order, k, threshold).len() ==> {
                let rank = #[trigger] live(s, order, k, threshold)[t];
                0 <= rank < k && s[order[rank]].max_extent() >= threshold
            },
    decreases k,
{
    if k > 0 {
        lemma_live_members(s, order, k - 1, threshold);
        let fewer = live(s, order, k - 1, threshold);
        let all = live(s, order, k, threshold);
        assert forall|t: int| 0 <= t < all.len() implies {
            let rank = #[trigger] all[t];
            0 <= rank < k && s[order[rank]].max_extent() >= threshold
        } by {
            if t < fewer.len() {
                assert(all[t] == fewer[t]);
            }
        }
    }
}

/// A rank below `k` whose body reaches the threshold is in the active set.
pub proof fn lemma_live_contains(s: Seq<Body>, order: Seq<int>, k: int, threshold: int, rank: int)
    requires
        0 <= rank < k,
        s[order[rank]].max_extent() >= threshold,
    ensures
        live(s, order, k, threshold).contains(rank),
    decreases k,
{
    let all = live(s, order, k, threshold);
    let fewer = live(s, order, k - 1, threshold);
    if rank == k - 1 {
        assert(all[fewer.len() as int] == rank);
    } else {
        lemma_live_contains(s, order, k - 1, threshold, rank);
        let t = choose|t: int| 0 <= t < fewer.len() && fewer[t] == rank;
        assert(all[t] == rank);
    }
}

/// What a row yields, the rows together yield.
pub proof fn lemma_rows_contain_row(
    s: Seq<Body>,
    order: Seq<int>,
    rows: int,
    rank: int,
    pair: (int, int),
)
    requires
        0 <= rank < rows,
        sweep_row(s, order, rank).contains(pair),
    ensures
        sweep_rows(s, order, rows).contains(pair),
    decreases rows,
{
    let before = sweep_rows(s, order, rows - 1);
    let row = sweep_row(s, order, rows - 1);
    if rank == rows - 1 {
        let t = choose|t: int| 0 <= t < row.len() && row[t] == pair;
        assert((before + row)[before.len() + t] == pair);
    } else {
        lemma_rows_contain_row(s, order, rows - 1, rank, pair);
        let t = choose|t: int| 0 <= t < before.len() && before[t] == pair;
        assert((before + row)[t] == pair);
    }
}

/// More rows yield no fewer candidates.
proof fn lemma_rows_grow(s: Seq<Body>, order: Seq<int>, fewer: int, more: int)
    requires
        0 <= fewer <= more,
    ensures
        sweep_rows(s, order, fewer).len() <= sweep_rows(s, order, more).len(),
    decreases more - fewer,
{
    if fewer < more {
        lemma_rows_grow(s, order, fewer, more - 1);
    }
}

/// The active set lists its ranks in rising order.
pub proof fn lemma_live_rising(s: Seq<Body>, order: Seq<int>, k: int, threshold: int)
    ensures
        forall|t: int, u: int|
            0 <= t < u < live(s, order, k, threshold).len() ==> #[trigger] live(
                s,
                order,
                k,
                threshold,
            )[t] < #[trigger] live(s, order, k, threshold)[u],
    decreases k,
{
    if k > 0 {
        lemma_live_rising(s, order, k - 1, threshold);
        lemma_live_members(s, order, k - 1, threshold);
        let fewer = live(s, order, k - 1, threshold);
        let all = live(s, order, k, threshold);
        assert forall|t: int, u: int| 0 <= t < u < all.len() implies #[trigger] all[t]
            < #[trigger] all[u] by {
            assert(all[t] == fewer[t]);
            if u < fewer.len() {
                assert(all[u] == fewer[u]);
            }
        }
    }
}

/// What the rows together yield, one of them yields: the candidate at
/// place `k` is found in the row `at.0` at the place `at.1`, behind all
/// that the rows before it yield.
pub proof fn lemma_rows_member(s: Seq<Body>, order: Seq<int>, rows: int, k: int) -> (at: (int, int))
    requires
        0 <= k < sweep_rows(s, order, rows).len(),
    ensures
        0 <= at.0 < rows,
        0 <= at.1 < sweep_row(s, order, at.0).len(),
        sweep_rows(s, order, rows)[k] == sweep_row(s, order, at.0)[at.1],
        k == sweep_rows(s, order, at.0).len() + at.1,
    decreases rows,
{
    let before = sweep_rows(s, order, rows - 1);
    if k < before.len() {
        lemma_rows_member(s, order, rows - 1, k)
    } else {
        (rows - 1, k - before.len())
    }
}

/// The sweep is sound: every candidate is a pair of two different bodies
/// whose bounding intervals meet, the first of which comes later in the
/// sweep.
pub proof fn lemma_sweep_pairs_meet(s: Seq<Body>, k: int)
    requires
        forall|t: int| 0 <= t < s.len() ==> 0 <= (#[trigger] s[t]).radius,
        0 <= k < sweep_pairs(s).len(),
    ensures
        ({
            let pair = sweep_pairs(s)[k];
            &&& 0 <= pair.0 < s.len()
            &&& 0 <= pair.1 < s.len()
            &&& pair.0 != pair.1
            &&& sweeps_before(s, pair.1, pair.0)
            &&& spans_meet(s[pair.0], s[pair.1])
        }),
{
    lemma_sweep_order_exists(s);
    let order = sweep_order(s);
    let at = lemma_rows_member(s, order, s.len() as int, k);
    let threshold = s[order[at.0]].min_extent();
    lemma_live_members(s, order, at.0, threshold);
    let rank = live(s, order, at.0, threshold)[at.1];
    assert(sweeps_before(s, order[rank], order[at.0]));
    assert(0 <= order[rank] < s.len());
    assert(0 <= order[at.0] < s.len());
}

/// The sweep yields no pair twice, in either order: a collision is
/// resolved once in a frame.
pub proof fn lemma_sweep_pairs_distinct(s: Seq<Body>, k: int, l: int)
    requires
        0 <= k < l < sweep_pairs(s).len(),
    ensures
        sweep_pairs(s)[k] != sweep_pairs(s)[l],
        sweep_pairs(s)[k] != (sweep_pairs(s)[l].1, sweep_pairs(s)[l].0),
{
    lemma_sweep_order_exists(s);
    let order = sweep_order(s);
    let n = s.len() as int;
    let first = lemma_rows_member(s, order, n, k);
    let second = lemma_rows_member(s, order, n, l);
    let first_live = live(s, order, first.0, s[order[first.0]].min_extent());
    let second_live = live(s, order, second.0, s[order[second.0]].min_extent());
    lemma_live_members(s, order, first.0, s[order[first.0]].min_extent());
    lemma_live_members(s, order, second.0, s[order[second.0]].min_extent());
    lemma_live_rising(s, order, second.0, s[order[second.0]].min_extent());
    let first_low = first_live[first.1];
    let second_low = second_live[second.1];
    assert(sweep_pairs(s)[k] == (order[first.0], order[first_low]));
    assert(sweep_pairs(s)[l] == (order[second.0], order[second_low]));
    assert forall|a: int, b: int| 0 <= a < n && 0 <= b < n && a != b implies order[a]
        != order[b] by {
        if a < b {
            assert(sweeps_before(s, order[a], order[b]));
        } else {
            assert(sweeps_before(s, order[b], order[a]));
        }
    }
    if first.0 > second.0 {
        lemma_rows_grow(s, order, second.0 + 1, first.0);
    }
    if sweep_pairs(s)[k] == sweep_pairs(s)[l] {
        assert(first.0 == second.0);
        assert(first_low == second_low);
    }
    if sweep_pairs(s)[k] == (sweep_pairs(s)[l].1, sweep_pairs(s)[l].0) {
        assert(first.0 == second_low);
        assert(first_low == second.0);
    }
}

/// The sweep is complete for meeting intervals: two different bodies
/// whose bounding intervals meet make a candidate pair.
pub proof fn lemma_sweep_finds_meeting_spans(s: Seq<Body>, i: int, j: int)
    requires
        0 <= i < s.len(),
        0 <= j < s.len(),
        i != j,
        spans_meet(s[i], s[j]),
    ensures
        sweep_pairs(s).contains((i, j)) || sweep_pairs(s).contains((j, i)),
{
    lemma_sweep_order_exists(s);
    let order = sweep_order(s);
    lemma_sweep_order_onto(s, order, i);
    lemma_sweep_order_onto(s, order, j);
    let ri = choose|k: int| 0 <= k < order.len() && order[k] == i;
    let rj = choose|k: int| 0 <= k < order.len() && order[k] == j;
    let (low, high) = if ri < rj { (ri, rj) } else { (rj, ri) };
    let threshold = s[order[high]].min_extent();
    lemma_live_contains(s, order, high, threshold, low);
    let active = live(s, order, high, threshold);
    let t = choose|t: int| 0 <= t < active.len() && active[t] == low;
    let row = sweep_row(s, order, high);
    assert(row[t] == (order[high], order[low]));
    lemma_rows_contain_row(s, order, s.len() as int, high, (order[high], order[low]));
}

/// No false negatives in the broad phase: every pair of bodies whose
/// discs overlap or touch is among the candidates of the sweep.
pub proof fn lemma_sweep_finds_collisions(s: Seq<Body>, i: int, j: int)
    requires
        forall|t: int| 0 <= t < s.len() ==> (#[trigger] s[t]).valid(),
        0 <= i < s.len(),
        0 <= j < s.len(),
        i != j,
        collides(s[i], s[j]),
    ensures
        sweep_pairs(s).contains((i, j)) || sweep_pairs(s).contains((j, i)),
{
    assert(s[i].valid() && s[j].valid());
    lemma_collides_implies_spans_meet(s[i], s[j]);
    lemma_sweep_finds_meeting_spans(s, i, j);
}

/// The machine indices as numbers.
pub open spec fn indices(v: Seq<usize>) -> Seq<int> {
    Seq::new(v.len(), |k: int| v[k] as int)
}

/// The machine index pairs as pairs of numbers.
pub open spec fn index_pairs(v: Seq<(usize, usize)>) -> Seq<(int, int)> {
    Seq::new(v.len(), |k: int| (v[k].0 as int, v[k].1 as int))
}

impl Ball {
    /// Puts the indices of the balls in the order of the sweep, by
    /// insertion.
    pub fn sort_for_sweep(balls: &Vec<Ball>) -> (order: Vec<usize>)
        ensures
            order.len() == balls.len(),
            indices(order@) == sweep_order(models(balls@)),
            is_sweep_order(models(balls@), indices(order@)),
    {
        let n = balls.len();
        let ghost s = models(balls@);
        let mut order: Vec<usize> = Vec::new();
        let mut k: usize = 0;
        while k < n
            invariant
                k <= n,
                n == balls.len(),
                s == models(balls@),
                order.len() == k,
                forall|t: int| 0 <= t < k ==> (#[trigger] order[t]) < k,
                forall|a: int, b: int|
                    0 <= a < b < k ==> sweeps_before(
                        s,
                        (#[trigger] order[a]) as int,
                        (#[trigger] order[b]) as int,
                    ),
            decreases n - k,
        {
            let key = balls[k].min_extent();
            order.push(k);
            let mut p: usize = k;
            while p > 0 && balls[order[p - 1]].min_extent() > key
                invariant
                    p <= k < n,
                    n == balls.len(),
                    s == models(balls@),
                    order.len() == k + 1,
                    order[p as int] == k,
                    key == s[k as int].min_extent(),
                    forall|t: int| 0 <= t <= k && t != p ==> (#[trigger] order[t]) < k,
                    forall|a: int, b: int|
                        0 <= a < b <= k && a != p && b != p ==> sweeps_before(
                            s,
                            (#[trigger] order[a]) as int,
                            (#[trigger] order[b]) as int,
                        ),
                    forall|t: int|
                        p < t <= k ==> key < s[(#[trigger] order[t]) as int].min_extent(),
                decreases p,
            {
                let earlier = order[p - 1];
                order.set(p, earlier);
                order.set(p - 1, k);
                p -= 1;
            }
            proof {
                assert forall|a: int, b: int| 0 <= a < b < k + 1 implies sweeps_before(
                    s,
                    (#[trigger] order[a]) as int,
                    (#[trigger] order[b]) as int,
                ) by {
                    if b == p {
                        if a < p - 1 {
                            assert(sweeps_before(s, order[a] as int, order[p - 1] as int));
                        }
                        assert(order[a] < k);
                    }
                }
            }
            k += 1;
        }
        proof {
            let o = indices(order@);
            assert(is_sweep_order(s, o)) by {
                assert forall|a: int, b: int| 0 <= a < b < o.len() implies sweeps_before(
                    s,
                    #[trigger] o[a],
                    #[trigger] o[b],
                ) by {
                    assert(sweeps_before(s, order[a] as int, order[b] as int));
                }
            }
            lemma_sweep_order_unique(s, o, sweep_order(s));
        }
        order
    }

    /// The broad phase: the candidate pairs of the population, each made
    /// of a ball and of one that comes before it in the sweep and whose
    /// bounding interval meets its own.
    pub fn sweep_candidates(balls: &Vec<Ball>) -> (pairs: Vec<(usize, usize)>)
        ensures
            index_pairs(pairs@) == sweep_pairs(models(balls@)),
            forall|k: int|
                0 <= k < pairs.len() ==> {
                    let pair = #[trigger] pairs[k];
                    pair.0 < balls.len() && pair.1 < balls.len() && pair.0 != pair.1
                },
    {
        let order = Self::sort_for_sweep(balls);
        let n = balls.len();
        let ghost s = models(balls@);
        let ghost o = indices(order@);
        let mut pairs: Vec<(usize, usize)> = Vec::new();
        let mut active: Vec<usize> = Vec::new();
        let ghost mut threshold: int = 0;
        let mut rank: usize = 0;
        while rank < n
            invariant
                rank <= n,
                n == balls.len(),
                n == order.len(),
                s == models(balls@),
                o == indices(order@),
                is_sweep_order(s, o),
                indices(active@) == live(s, o, rank as int, threshold),
                rank > 0 ==> threshold == s[o[rank - 1]].min_extent(),
                index_pairs(pairs@) == sweep_rows(s, o, rank as int),
                forall|k: int|
                    0 <= k < pairs.len() ==> {
                        let pair = #[trigger] pairs[k];
                        pair.0 < n && pair.1 < n && pair.0 != pair.1
                    },
            decreases n - rank,
        {
            let current = order[rank];
            assert(0 <= o[rank as int] < n);
            let ball = balls[current];
            let begin = ball.min_extent();
            let mut kept: Vec<usize> = Vec::new();
            let ghost base = index_pairs(pairs@);
            let ghost members = indices(active@);
            proof {
                lemma_live_members(s, o, rank as int, threshold);
                assert forall|t: int| 0 <= t < active.len() implies (#[trigger] active[t])
                    < rank by {
                    assert(members[t] == active[t]);
                }
                assert(members.take(0) =~= Seq::<int>::empty());
                assert(index_pairs(pairs@) =~= base + pairs_with(
                    o,
                    rank as int,
                    indices(kept@),
                ));
            }
            let mut t: usize = 0;
            while t < active.len()
                invariant
                    t <= active.len(),
                    rank < n,
                    n == balls.len(),
                    n == order.len(),
                    s == models(balls@),
                    o == indices(order@),
                    is_sweep_order(s, o),
                    members == indices(active@),
                    current == order[rank as int],
                    current < n,
                    begin == s[o[rank as int]].min_extent(),
                    forall|x: int| 0 <= x < active.len() ==> (#[trigger] active[x]) < rank,
                    indices(kept@) == keep(s, o, members.take(t as int), begin as int),
                    index_pairs(pairs@) == base + pairs_with(o, rank as int, indices(kept@)),
                    forall|k: int|
                        0 <= k < pairs.len() ==> {
                            let pair = #[trigger] pairs[k];
                            pair.0 < n && pair.1 < n && pair.0 != pair.1
                        },
                decreases active.len() - t,
            {
                let member = active[t];
                let other = order[member];
                proof {
                    assert(o[member as int] == other);
                    assert(0 <= o[member as int] < n);
                    assert(sweeps_before(s, o[member as int], o[rank as int]));
                    assert(members.take(t + 1) =~= members.take(t as int).push(member as int));
                    lemma_keep_push(s, o, members.take(t as int), member as int, begin as int);
                }
                let ghost kept_before = indices(kept@);
                let ghost pairs_before = index_pairs(pairs@);
                if balls[other].max_extent() >= begin {
                    kept.push(member);
                    pairs.push((current, other));
                    proof {
                        assert(indices(kept@) =~= kept_before.push(member as int));
                        assert(index_pairs(pairs@) =~= pairs_before.push(
                            (current as int, other as int),
                        ));
                        assert(index_pairs(pairs@) =~= base + pairs_with(
                            o,
                            rank as int,
                            indices(kept@),
                        ));
                    }
                }
                t += 1;
            }
            proof {
                assert(members.take(active.len() as int) =~= members);
                if rank > 0 {
                    assert(sweeps_before(s, o[rank - 1], o[rank as int]));
                    lemma_keep_live(s, o, rank as int, threshold, begin as int);
                } else {
                    assert(members =~= Seq::<int>::empty());
                    assert(indices(kept@) =~= live(s, o, 0, begin as int));
                }
                assert(indices(kept@) == live(s, o, rank as int, begin as int));
                use_type_invariant(&ball);
                threshold = begin as int;
            }
            let ghost kept_before = indices(kept@);
            kept.push(rank);
            proof {
                assert(indices(kept@) =~= kept_before.push(rank as int));
            }
            active = kept;
            rank += 1;
        }
        pairs
    }

    /// The narrow phase and the resolver on a stream of candidates: tests
    /// each pair in turn and resolves the collisions it finds, each on
    /// the state that the pairs before it left.
    pub fn resolve_candidates(balls: &mut Vec<Ball>, pairs: &Vec<(usize, usize)>)
        requires
            forall|k: int|
                0 <= k < pairs.len() ==> {
                    let pair = #[trigger] pairs[k];
                    pair.0 < old(balls).len() && pair.1 < old(balls).len() && pair.0 != pair.1
                },
        ensures
            final(balls).len() == old(balls).len(),
            models(final(balls)@) == resolve_all(models(old(balls)@), index_pairs(pairs@)),
    {
        let ghost start = models(balls@);
        let ghost all = index_pairs(pairs@);
        let n = balls.len();
        let mut k: usize = 0;
        proof {
            assert(all.take(0) =~= Seq::<(int, int)>::empty());
        }
        while k < pairs.len()
            invariant
                k <= pairs.len(),
                balls.len() == n,
                all == index_pairs(pairs@),
                forall|t: int|
                    0 <= t < pairs.len() ==> {
                        let pair = #[trigger] pairs[t];
                        pair.0 < n && pair.1 < n && pair.0 != pair.1
                    },
                models(balls@) == resolve_all(start, all.take(k as int)),
            decreases pairs.len() - k,
        {
            let pair = pairs[k];
            proof {
                assert(all.take(k + 1) =~= all.take(k as int).push((pair.0 as int, pair.1 as int)));
                lemma_resolve_all_push(start, all.take(k as int), (pair.0 as int, pair.1 as int));
            }
            Self::check_and_resolve_collision(balls, pair.0, pair.1);
            k += 1;
        }
        proof {
            assert(all.take(pairs.len() as int) =~= all);
        }
    }

    /// The collision pass of one frame: clears the contact marks, sweeps
    /// for candidates and resolves the collisions among them.
    pub fn handle_swept_collision(balls: &mut Vec<Ball>)
        ensures
            final(balls).len() == old(balls).len(),
            models(final(balls)@) == resolve_all(
                out_of_contact(models(old(balls)@)),
                sweep_pairs(models(old(balls)@)),
            ),
    {
        let pairs = Self::sweep_candidates(balls);
        Self::clear_contacts(balls);
        Self::resolve_candidates(balls, &pairs);
    }
}

} // verus!
