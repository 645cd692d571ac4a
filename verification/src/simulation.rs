//! The simulation: a population of balls in an arena, advanced frame by
//! frame.

use vstd::prelude::*;
use crate::ball::Ball;
use crate::body::{advance, elapsed, Body};
use crate::resolve::{models, out_of_contact, resolve_all};
use crate::seed::seeded;
use crate::sweep::sweep_pairs;

verus! {

/// The number of balls that the simulation aims for unless told otherwise.
pub const POPULATION: usize = 60;

/// The state of a simulation.
pub struct World {
    /// The population, in the order of its indices.
    pub bodies: Seq<Body>,
    /// The extents of the arena for which the population was seeded.
    pub width: int,
    pub height: int,
    /// The number of balls that a seeding aims for.
    pub target: int,
}

/// Every body after a frame on its own: free motion, then the walls.
pub open spec fn advance_all(s: Seq<Body>, dt: int, width: int, height: int) -> Seq<Body> {
    Seq::new(s.len(), |k: int| advance(s[k], dt, width, height))
}

/// The population after one frame: every body is advanced on its own,
/// then the collisions among the candidates of the sweep are resolved on
/// the advanced state.
pub open spec fn frame(s: Seq<Body>, dt: int, width: int, height: int) -> Seq<Body> {
    let moved = advance_all(s, dt, width, height);
    resolve_all(out_of_contact(moved), sweep_pairs(moved))
}

/// A simulation has to seed its arena anew: the arena has changed its
/// extents, or there is no population.
pub open spec fn reseed_due(w: World, width: int, height: int) -> bool {
    w.width != width || w.height != height || w.bodies.len() == 0
}

/// A population of balls and the arena it was seeded for.
pub struct Simulation {
    balls: Vec<Ball>,
    width: u32,
    height: u32,
    target: usize,
}

impl View for Simulation {
    type V = World;

    closed spec fn view(&self) -> World {
        World {
            bodies: models(self.balls@),
            width: self.width as int,
            height: self.height as int,
            target: self.target as int,
        }
    }
}

impl Simulation {
    /// A simulation without population, which the first frame will seed
    /// with up to `target` balls.
    pub fn new(target: usize) -> (sim: Simulation)
        ensures
            sim@.bodies.len() == 0,
            sim@.width == 0,
            sim@.height == 0,
            sim@.target == target,
    {
        let sim = Simulation { balls: Vec::new(), width: 0, height: 0, target };
        assert(models(sim.balls@) =~= Seq::<Body>::empty());
        sim
    }

    /// The population, for a renderer to read.
    pub fn balls(&self) -> (balls: &Vec<Ball>)
        ensures
            models(balls@) == self@.bodies,
    {
        &self.balls
    }

    /// Whether the next frame in an arena of these extents seeds anew.
    pub fn needs_reseed(&self, width: u32, height: u32) -> (due: bool)
        ensures
            due == reseed_due(self@, width as int, height as int),
    {
        self.width != width || self.height != height || self.balls.len() == 0
    }

    /// Discards the population and seeds the arena afresh.
    pub fn reseed(&mut self, width: u32, height: u32)
        ensures
            final(self)@.width == width,
            final(self)@.height == height,
            final(self)@.target == old(self)@.target,
            seeded(final(self)@.bodies, old(self)@.target, width as int, height as int),
    {
        self.balls = Ball::seed(self.target, width, height);
        self.width = width;
        self.height = height;
    }

    /// Advances the population by one frame of `dt_micros` microseconds
    /// in the arena it was seeded for, a negative time counting as none.
    pub fn advance(&mut self, dt_micros: i64)
        ensures
            final(self)@.width == old(self)@.width,
            final(self)@.height == old(self)@.height,
            final(self)@.target == old(self)@.target,
            final(self)@.bodies == frame(
                old(self)@.bodies,
                elapsed(dt_micros as int),
                old(self)@.width,
                old(self)@.height,
            ),
    {
        let n = self.balls.len();
        let width = self.width;
        let height = self.height;
        let ghost start = self.balls@;
        let mut k: usize = 0;
        while k < n
            invariant
                k <= n,
                self.balls.len() == n,
                start.len() == n,
                self.width == width,
                self.height == height,
                self.target == old(self).target,
                forall|t: int|
                    0 <= t < k ==> (#[trigger] self.balls[t])@ == advance(
                        start[t]@,
                        elapsed(dt_micros as int),
                        width as int,
                        height as int,
                    ),
                forall|t: int| k <= t < n ==> (#[trigger] self.balls[t]) == start[t],
            decreases n - k,
        {
            let mut ball = self.balls[k];
            ball.update(dt_micros, width, height);
            self.balls.set(k, ball);
            k += 1;
        }
        assert(models(self.balls@) =~= advance_all(
            models(start),
            elapsed(dt_micros as int),
            width as int,
            height as int,
        ));
        Ball::handle_swept_collision(&mut self.balls);
    }

    /// One frame: seeds the arena anew where its extents have changed or
    /// the population is empty, then advances the population by
    /// `dt_micros` microseconds, a negative time counting as none.
    pub fn step(&mut self, dt_micros: i64, width: u32, height: u32)
        ensures
            final(self)@.width == width,
            final(self)@.height == height,
            final(self)@.target == old(self)@.target,
            !reseed_due(old(self)@, width as int, height as int) ==> final(self)@.bodies == frame(
                old(self)@.bodies,
                elapsed(dt_micros as int),
                width as int,
                height as int,
            ),
            reseed_due(old(self)@, width as int, height as int) ==> exists|population: Seq<Body>|
                #[trigger] seeded(population, old(self)@.target, width as int, height as int)
                    && final(self)@.bodies == frame(
                    population,
                    elapsed(dt_micros as int),
                    width as int,
                    height as int,
                ),
    {
        if self.needs_reseed(width, height) {
            self.reseed(width, height);
        }
        self.advance(dt_micros);
    }
}

} // verus!
