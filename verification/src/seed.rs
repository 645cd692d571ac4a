//! The population seeder: balls of random size at random places, none
//! overlapping another.

use rand::Rng;
use vstd::prelude::*;
use crate::ball::{launched, Ball, GeometryError};
use crate::body::Body;
use crate::contact::outer_distance;
use crate::resolve::models;
use crate::vector::Vec2;

verus! {

/// How often the seeder may try again for one ball before it gives up.
pub const RETRY_BUDGET: u32 = 1000;

/// The number of hues that a ball can have.
pub const HUES: u16 = 360;

/// The shorter side of the arena.
pub open spec fn short_side(width: int, height: int) -> int {
    if width < height {
        width
    } else {
        height
    }
}

/// The arena is large enough for the seeder: a twentieth of its shorter
/// side is at least one tick.
pub open spec fn seedable(width: int, height: int) -> bool {
    short_side(width, height) >= 20
}

/// What holds of every ball that the seeder makes for an arena: its
/// radius is between a twentieth and a tenth of the arena's shorter side,
/// each rounded down to a whole tick, its disc lies inside the arena,
/// and it is in the launch state.
pub open spec fn fresh(b: Body, width: int, height: int) -> bool {
    &&& short_side(width, height) / 20 <= b.radius < short_side(width, height) / 10
    &&& b.radius <= b.pos.x < width - b.radius
    &&& b.radius <= b.pos.y < height - b.radius
    &&& 0 <= b.hue < HUES
    &&& b == launched(b.pos, b.radius, b.hue)
}

/// `b` overlaps or touches none of `s`.
pub open spec fn clear_of(s: Seq<Body>, b: Body) -> bool {
    forall|k: int| 0 <= k < s.len() ==> outer_distance(#[trigger] s[k], b) > 0
}

/// No two bodies of `s` overlap or touch.
pub open spec fn pairwise_clear(s: Seq<Body>) -> bool {
    forall|i: int, j: int|
        0 <= i < j < s.len() ==> outer_distance(#[trigger] s[i], #[trigger] s[j]) > 0
}

/// How far a seeding has come.
pub struct Seeding {
    /// The bodies placed so far, in the order of their placing.
    pub placed: Seq<Body>,
    /// The number of bodies that the seeding aims for.
    pub target: int,
    /// How many candidates in a row have found no place.
    pub failures: int,
    /// Whether the seeding has ended.
    pub finished: bool,
}

impl Seeding {
    /// What every seeding keeps: it never places more bodies than it aims
    /// for nor two that overlap or touch, and it ends when it has placed
    /// them all.
    pub open spec fn sound(self) -> bool {
        &&& self.placed.len() <= self.target
        &&& pairwise_clear(self.placed)
        &&& 0 <= self.failures <= RETRY_BUDGET
        &&& self.placed.len() >= self.target ==> self.finished
    }
}

/// A seeding at its start.
pub open spec fn begun(target: int) -> Seeding {
    Seeding { placed: Seq::empty(), target, failures: 0, finished: target <= 0 }
}

/// A seeding after it has been offered a candidate. A candidate that is
/// clear of the bodies already placed is placed, and the count of
/// failures starts anew; the seeding ends when it has placed as many as
/// it aims for. Any other candidate is rejected; after `RETRY_BUDGET`
/// rejections in a row the next one ends the seeding with what is placed.
pub open spec fn offered(s: Seeding, candidate: Body) -> Seeding {
    if s.finished {
        s
    } else if clear_of(s.placed, candidate) {
        Seeding {
            placed: s.placed.push(candidate),
            failures: 0,
            finished: s.placed.len() + 1 >= s.target,
            ..s
        }
    } else if s.failures >= RETRY_BUDGET {
        Seeding { finished: true, ..s }
    } else {
        Seeding { failures: s.failures + 1, ..s }
    }
}

/// A seeding after it has been offered the candidates one after the
/// other.
pub open spec fn offered_all(s: Seeding, candidates: Seq<Body>) -> Seeding
    decreases candidates.len(),
{
    if candidates.len() == 0 {
        s
    } else {
        offered(offered_all(s, candidates.drop_last()), candidates.last())
    }
}

/// `candidates` is a run of the seeder that ends with the population
/// `s`: each of them is fresh for the arena, and a seeding that aims for
/// `count` bodies and is offered them in turn has then ended, having
/// placed `s`. Such a seeding has gone on until it reached its target or
/// spent its retries.
pub open spec fn seeding_run(
    candidates: Seq<Body>,
    s: Seq<Body>,
    count: int,
    width: int,
    height: int,
) -> bool {
    &&& forall|k: int| 0 <= k < candidates.len() ==> fresh(#[trigger] candidates[k], width, height)
    &&& offered_all(begun(count), candidates).finished
    &&& offered_all(begun(count), candidates).placed == s
}

/// What holds of every population that the seeder returns for a target
/// of `count` balls: it is what some run of the seeder ends with, where
/// the arena can be seeded at all, and empty where it cannot.
pub open spec fn seeded(s: Seq<Body>, count: int, width: int, height: int) -> bool {
    &&& s.len() <= count
    &&& pairwise_clear(s)
    &&& forall|k: int| 0 <= k < s.len() ==> fresh(#[trigger] s[k], width, height)
    &&& seedable(width, height) && count > 0 ==> s.len() >= 1
    &&& !seedable(width, height) ==> s.len() == 0
    &&& seedable(width, height) ==> exists|candidates: Seq<Body>| #[trigger]
        seeding_run(candidates, s, count, width, height)
}

/// Seeder non-overlap: whatever candidate a sound seeding is offered, it
/// stays sound; in particular no two of the bodies it has placed overlap
/// or touch.
pub proof fn lemma_offered_sound(s: Seeding, candidate: Body)
    requires
        s.sound(),
    ensures
        offered(s, candidate).sound(),
{
    if !s.finished && clear_of(s.placed, candidate) {
        let placed = s.placed.push(candidate);
        assert forall|i: int, j: int| 0 <= i < j < placed.len() implies outer_distance(
            #[trigger] placed[i],
            #[trigger] placed[j],
        ) > 0 by {
            if j == s.placed.len() {
                assert(outer_distance(s.placed[i], candidate) > 0);
            } else {
                assert(outer_distance(s.placed[i], s.placed[j]) > 0);
            }
        }
    }
}

/// A seeding in progress.
pub struct Seeder {
    balls: Vec<Ball>,
    target: usize,
    failures: u32,
    finished: bool,
}

impl View for Seeder {
    type V = Seeding;

    closed spec fn view(&self) -> Seeding {
        Seeding {
            placed: models(self.balls@),
            target: self.target as int,
            failures: self.failures as int,
            finished: self.finished,
        }
    }
}

impl Seeder {
    /// Every seeder is sound.
    #[verifier::type_invariant]
    pub open spec fn well_formed(self) -> bool {
        self@.sound()
    }

    /// Begins a seeding that aims for `target` balls.
    pub fn new(target: usize) -> (seeder: Seeder)
        ensures
            seeder@ == begun(target as int),
    {
        let seeder = Seeder { balls: Vec::new(), target, failures: 0, finished: target == 0 };
        assert(models(seeder.balls@) =~= Seq::<Body>::empty());
        seeder
    }

    /// Whether the seeding has ended.
    pub fn finished(&self) -> (done: bool)
        ensures
            done == self@.finished,
    {
        self.finished
    }

    /// Offers a candidate to the seeding, and says whether it was placed.
    pub fn offer(&mut self, candidate: Ball) -> (placed: bool)
        ensures
            final(self)@ == offered(old(self)@, candidate@),
            placed == (!old(self)@.finished && clear_of(old(self)@.placed, candidate@)),
    {
        proof {
            use_type_invariant(&*self);
        }
        if self.finished {
            false
        } else if candidate.clear_of(&self.balls) {
            let ghost before = models(self.balls@);
            if self.balls.len() + 1 >= self.target {
                self.finished = true;
            }
            self.failures = 0;
            let mut balls: Vec<Ball> = Vec::new();
            proof {
                assert(models(balls@) =~= Seq::<Body>::empty());
            }
            std::mem::swap(&mut balls, &mut self.balls);
            balls.push(candidate);
            proof {
                assert(models(balls@) =~= before.push(candidate@));
                lemma_offered_sound(old(self)@, candidate@);
            }
            self.balls = balls;
            true
        } else {
            if self.failures >= RETRY_BUDGET {
                self.finished = true;
            } else {
                self.failures = self.failures + 1;
            }
            false
        }
    }

    /// Ends the seeding with the balls placed so far.
    pub fn give_up(&mut self)
        ensures
            final(self)@ == (Seeding { finished: true, ..old(self)@ }),
    {
        proof {
            use_type_invariant(&*self);
        }
        self.finished = true;
    }

    /// The balls that the seeding has placed.
    pub fn into_balls(self) -> (balls: Vec<Ball>)
        ensures
            models(balls@) == self@.placed,
            self@.sound(),
    {
        proof {
            use_type_invariant(&self);
        }
        self.balls
    }
}

/// Draws a number from `lo..hi` with `rand`'s `Rng::gen_range` on the
/// generator that `rand::thread_rng` hands out. Which number comes is left
/// open; the contract claims only that it lies in the range, as the
/// integer sampler behind `gen_range` has it. `gen_range` panics on an
/// empty range, which the precondition excludes. The generator panics
/// where the operating system has no entropy for it, when `thread_rng`
/// first seeds it and when it reseeds itself later; nothing here can
/// exclude that.
#[verifier::external_body]
fn draw(lo: i64, hi: i64) -> (r: i64)
    requires
        lo < hi,
    ensures
        lo <= r < hi,
{
    rand::thread_rng().gen_range(lo..hi)
}

impl Ball {
    /// Makes a ball of random size, place and hue for the arena
    /// `[0, width] x [0, height]`, or reports that the arena is too small
    /// to seed.
    pub fn new_random(width: u32, height: u32) -> (r: Result<Ball, GeometryError>)
        ensures
            seedable(width as int, height as int) ==> r is Ok && fresh(
                r->Ok_0@,
                width as int,
                height as int,
            ),
            !seedable(width as int, height as int) ==> r == Err::<Ball, GeometryError>(
                GeometryError::ArenaTooSmall,
            ),
    {
        let side: i64 = if width < height { width as i64 } else { height as i64 };
        if side < 20 {
            return Err(GeometryError::ArenaTooSmall);
        }
        let radius = draw(side / 20, side / 10);
        let x = draw(radius, width as i64 - radius);
        let y = draw(radius, height as i64 - radius);
        let hue = draw(0, HUES as i64) as u16;
        Ball::new(Vec2 { x, y }, radius, hue)
    }

    /// Whether the ball overlaps or touches none of `others`.
    pub fn clear_of(&self, others: &Vec<Ball>) -> (clear: bool)
        ensures
            clear == clear_of(models(others@), self@),
    {
        let mut k: usize = 0;
        while k < others.len()
            invariant
                k <= others.len(),
                forall|t: int| 0 <= t < k ==> outer_distance((#[trigger] others[t])@, self@) > 0,
            decreases others.len() - k,
        {
            if others[k].collide_with(self) {
                proof {
                    assert(models(others@)[k as int] == others[k as int]@);
                }
                return false;
            }
            k += 1;
        }
        proof {
            assert forall|t: int| 0 <= t < models(others@).len() implies outer_distance(
                #[trigger] models(others@)[t],
                self@,
            ) > 0 by {
                assert(outer_distance(others[t]@, self@) > 0);
            }
        }
        true
    }

    /// Seeds an arena: offers balls made at random to a seeding that aims
    /// for `count` balls until the seeding ends, and returns what it has
    /// placed. An arena too small to make a ball for is left empty.
    pub fn seed(count: usize, width: u32, height: u32) -> (balls: Vec<Ball>)
        ensures
            seeded(models(balls@), count as int, width as int, height as int),
    {
        let mut seeder = Seeder::new(count);
        let ghost mut candidates: Seq<Body> = Seq::empty();
        while !seeder.finished()
            invariant
                seeder@.target == count,
                forall|k: int|
                    0 <= k < candidates.len() ==> fresh(
                        #[trigger] candidates[k],
                        width as int,
                        height as int,
                    ),
                seedable(width as int, height as int) ==> seeder@ == offered_all(
                    begun(count as int),
                    candidates,
                ),
                forall|k: int|
                    0 <= k < seeder@.placed.len() ==> fresh(
                        #[trigger] seeder@.placed[k],
                        width as int,
                        height as int,
                    ),
                !seedable(width as int, height as int) ==> seeder@.placed.len() == 0,
                seeder@.finished && seedable(width as int, height as int) && count > 0
                    ==> seeder@.placed.len() >= 1,
            decreases
                    count - seeder@.placed.len(),
                    RETRY_BUDGET - seeder@.failures,
                    if seeder@.finished { 0int } else { 1int },
        {
            proof {
                use_type_invariant(&seeder);
            }
            let ghost before = seeder@;
            match Ball::new_random(width, height) {
                Ok(candidate) => {
                    seeder.offer(candidate);
                    proof {
                        assert(candidates.push(candidate@).drop_last() =~= candidates);
                        candidates = candidates.push(candidate@);
                        assert forall|k: int| 0 <= k < seeder@.placed.len() implies fresh(
                            #[trigger] seeder@.placed[k],
                            width as int,
                            height as int,
                        ) by {
                            if k < before.placed.len() {
                                assert(fresh(before.placed[k], width as int, height as int));
                            }
                        }
                    }
                },
                Err(_) => {
                    seeder.give_up();
                },
            }
        }
        proof {
            if seedable(width as int, height as int) {
                assert(seeding_run(
                    candidates,
                    seeder@.placed,
                    count as int,
                    width as int,
                    height as int,
                ));
            }
        }
        seeder.into_balls()
    }
}

} // verus!
