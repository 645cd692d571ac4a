//! Resolving the collisions of a population, pair by pair.

use vstd::prelude::*;
use crate::ball::Ball;
use crate::body::Body;
use crate::contact::{collides, rebound};

verus! {

/// The bodies that a sequence of balls stands for.
pub open spec fn models(balls: Seq<Ball>) -> Seq<Body> {
    Seq::new(balls.len(), |k: int| balls[k]@)
}

/// The population with every contact mark removed.
pub open spec fn out_of_contact(s: Seq<Body>) -> Seq<Body> {
    Seq::new(s.len(), |k: int| Body { contact: false, ..s[k] })
}

/// The population after the pair `(i, j)` has been tested and, where the
/// two collide, resolved: both are marked as in contact, pushed apart and
/// sent on their new courses; everything else stays as it is.
pub open spec fn resolve_pair(s: Seq<Body>, i: int, j: int) -> Seq<Body> {
    if collides(s[i], s[j]) {
        let (a, b) = rebound(s[i], s[j]);
        s.update(i, a).update(j, b)
    } else {
        s
    }
}

/// The population after the pairs have been resolved one after the
/// other, each on the state that the ones before it left.
pub open spec fn resolve_all(s: Seq<Body>, pairs: Seq<(int, int)>) -> Seq<Body>
    decreases pairs.len(),
{
    if pairs.len() == 0 {
        s
    } else {
        let last = pairs.last();
        resolve_pair(resolve_all(s, pairs.drop_last()), last.0, last.1)
    }
}

/// The pairs `(i, i + 1)`, ..., `(i, hi - 1)`.
pub open spec fn row_pairs(i: int, hi: int) -> Seq<(int, int)>
    decreases hi - i,
{
    if hi <= i + 1 {
        Seq::empty()
    } else {
        row_pairs(i, hi - 1).push((i, hi - 1))
    }
}

/// The rows of the first `rows` of `n` bodies, one after the other.
pub open spec fn scan_pairs(n: int, rows: int) -> Seq<(int, int)>
    decreases rows,
{
    if rows <= 0 {
        Seq::empty()
    } else {
        scan_pairs(n, rows - 1) + row_pairs(rows - 1, n)
    }
}

/// Every pair `(i, j)` with `i < j < n`, in dictionary order.
pub open spec fn all_pairs(n: int) -> Seq<(int, int)> {
    scan_pairs(n, n)
}

/// Resolving one more pair is resolving the ones before it, then that one.
pub proof fn lemma_resolve_all_push(s: Seq<Body>, pairs: Seq<(int, int)>, pair: (int, int))
    ensures
        resolve_all(s, pairs.push(pair)) == resolve_pair(resolve_all(s, pairs), pair.0, pair.1),
{
    assert(pairs.push(pair).drop_last() =~= pairs);
}

/// A row holds the pairs of its body with each later one, in order.
pub proof fn lemma_row_pairs(i: int, hi: int)
    ensures
        row_pairs(i, hi).len() == (if hi <= i + 1 { 0 } else { hi - i - 1 }),
        forall|t: int|
            0 <= t < row_pairs(i, hi).len() ==> #[trigger] row_pairs(i, hi)[t] == (i, i + 1 + t),
    decreases hi - i,
{
    if hi > i + 1 {
        lemma_row_pairs(i, hi - 1);
    }
}

/// Every entry of a scan is a pair `(i, j)` with `i < j < n` from one of
/// its rows.
pub proof fn lemma_scan_pairs_member(n: int, rows: int, k: int)
    requires
        0 <= k < scan_pairs(n, rows).len(),
    ensures
        ({
            let pair = scan_pairs(n, rows)[k];
            0 <= pair.0 < rows && pair.0 < pair.1 < n
        }),
    decreases rows,
{
    let before = scan_pairs(n, rows - 1);
    lemma_row_pairs(rows - 1, n);
    if k < before.len() {
        lemma_scan_pairs_member(n, rows - 1, k);
    }
}

/// A scan lists its pairs in rising dictionary order.
pub proof fn lemma_scan_pairs_rising(n: int, rows: int, k: int, l: int)
    requires
        0 <= k < l < scan_pairs(n, rows).len(),
    ensures
        ({
            let earlier = scan_pairs(n, rows)[k];
            let later = scan_pairs(n, rows)[l];
            earlier.0 < later.0 || (earlier.0 == later.0 && earlier.1 < later.1)
        }),
    decreases rows,
{
    let before = scan_pairs(n, rows - 1);
    lemma_row_pairs(rows - 1, n);
    if l < before.len() {
        lemma_scan_pairs_rising(n, rows - 1, k, l);
    } else if k < before.len() {
        lemma_scan_pairs_member(n, rows - 1, k);
    }
}

/// A scan holds every pair of its rows.
pub proof fn lemma_scan_pairs_contains(n: int, rows: int, i: int, j: int)
    requires
        0 <= i < rows,
        i < j < n,
    ensures
        scan_pairs(n, rows).contains((i, j)),
    decreases rows,
{
    let before = scan_pairs(n, rows - 1);
    let row = row_pairs(rows - 1, n);
    if i == rows - 1 {
        lemma_row_pairs(rows - 1, n);
        assert((before + row)[before.len() + (j - i - 1)] == (i, j));
    } else {
        lemma_scan_pairs_contains(n, rows - 1, i, j);
        let t = choose|t: int| 0 <= t < before.len() && before[t] == (i, j);
        assert((before + row)[t] == (i, j));
    }
}

/// The full scan tests every unordered pair of a population of `n`
/// exactly once: each pair `(i, j)` with `i < j < n` is listed, nothing
/// else is, and no pair is listed twice.
pub proof fn lemma_all_pairs_once(n: int)
    ensures
        forall|i: int, j: int| 0 <= i < j < n ==> all_pairs(n).contains((i, j)),
        forall|k: int|
            0 <= k < all_pairs(n).len() ==> {
                let pair = #[trigger] all_pairs(n)[k];
                0 <= pair.0 < pair.1 < n
            },
        forall|k: int, l: int|
            0 <= k < l < all_pairs(n).len() ==> #[trigger] all_pairs(n)[k] != #[trigger] all_pairs(
                n,
            )[l],
{
    assert forall|i: int, j: int| 0 <= i < j < n implies all_pairs(n).contains((i, j)) by {
        lemma_scan_pairs_contains(n, n, i, j);
    }
    assert forall|k: int| 0 <= k < all_pairs(n).len() implies {
        let pair = #[trigger] all_pairs(n)[k];
        0 <= pair.0 < pair.1 < n
    } by {
        lemma_scan_pairs_member(n, n, k);
    }
    assert forall|k: int, l: int| 0 <= k < l < all_pairs(n).len() implies #[trigger] all_pairs(
        n,
    )[k] != #[trigger] all_pairs(n)[l] by {
        lemma_scan_pairs_rising(n, n, k, l);
    }
}

impl Ball {
    /// Tests the pair `(i, j)` and, where the two balls collide, resolves
    /// the collision in place.
    pub fn check_and_resolve_collision(balls: &mut Vec<Ball>, i: usize, j: usize)
        requires
            i < old(balls).len(),
            j < old(balls).len(),
            i != j,
        ensures
            models(final(balls)@) == resolve_pair(models(old(balls)@), i as int, j as int),
            final(balls).len() == old(balls).len(),
    {
        let first = balls[i];
        let second = balls[j];
        if !first.collide_with(&second) {
            return ;
        }
        let (first, second) = first.rebound(&second);
        balls.set(i, first);
        balls.set(j, second);
        assert(models(balls@) =~= models(old(balls)@).update(i as int, first@).update(
            j as int,
            second@,
        ));
    }

    /// Resolves the collisions of a whole population by testing every
    /// unordered pair once, in dictionary order, after it has cleared the
    /// contact marks of the frame before.
    pub fn handle_balls_collision(balls: &mut Vec<Ball>)
        ensures
            final(balls).len() == old(balls).len(),
            models(final(balls)@) == resolve_all(
                out_of_contact(models(old(balls)@)),
                all_pairs(old(balls).len() as int),
            ),
    {
        Self::clear_contacts(balls);
        let n = balls.len();
        let ghost start = models(balls@);
        let mut i: usize = 0;
        while i < n
            invariant
                i <= n,
                balls.len() == n,
                models(balls@) == resolve_all(start, scan_pairs(n as int, i as int)),
            decreases n - i,
        {
            let mut j: usize = i + 1;
            while j < n
                invariant
                    i < n,
                    i < j <= n,
                    balls.len() == n,
                    models(balls@) == resolve_all(
                        start,
                        scan_pairs(n as int, i as int) + row_pairs(i as int, j as int),
                    ),
                decreases n - j,
            {
                proof {
                    let done = scan_pairs(n as int, i as int) + row_pairs(i as int, j as int);
                    lemma_resolve_all_push(start, done, (i as int, j as int));
                    assert(done.push((i as int, j as int)) =~= scan_pairs(n as int, i as int)
                        + row_pairs(i as int, j + 1));
                }
                Self::check_and_resolve_collision(balls, i, j);
                j += 1;
            }
            i += 1;
        }
    }

    /// Clears the contact mark of every ball.
    pub fn clear_contacts(balls: &mut Vec<Ball>)
        ensures
            final(balls).len() == old(balls).len(),
            models(final(balls)@) == out_of_contact(models(old(balls)@)),
    {
        let n = balls.len();
        let mut k: usize = 0;
        while k < n
            invariant
                k <= n,
                balls.len() == n,
                old(balls).len() == n,
                forall|t: int| 0 <= t < k ==> (#[trigger] balls[t])@ == (Body { contact: false, ..old(balls)[t]@ }),
                forall|t: int| k <= t < n ==> (#[trigger] balls[t]) == old(balls)[t],
            decreases n - k,
        {
            let mut ball = balls[k];
            ball.clear_contact();
            balls.set(k, ball);
            k += 1;
        }
        assert(models(balls@) =~= out_of_contact(models(old(balls)@)));
    }
}

} // verus!
