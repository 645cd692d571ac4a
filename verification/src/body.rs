//! The mathematical model of a body and of its motion between collisions.

use vstd::prelude::*;
use crate::fixed::{saturate, trunc_div, MAX_COORD, MAX_RADIUS, MAX_SPEED, MICROS_PER_SECOND, UNIT};
use crate::vector::Vector;

verus! {

/// The state of one circular body.
pub struct Body {
    /// Centre, in ticks.
    pub pos: Vector,
    /// Ticks per second.
    pub velocity: Vector,
    /// Ticks per second squared; constant over the body's life.
    pub acceleration: Vector,
    /// Ticks; also the body's mass.
    pub radius: int,
    /// Colour, as a hue in degrees.
    pub hue: int,
    /// Whether the body touched another one in the current frame.
    pub contact: bool,
}

impl Body {
    /// The bounds that every body of the simulation keeps.
    pub open spec fn valid(self) -> bool {
        &&& 0 < self.radius <= MAX_RADIUS
        &&& self.pos.within(MAX_COORD as int)
        &&& self.velocity.within(MAX_SPEED as int)
        &&& self.acceleration.within(MAX_SPEED as int)
        &&& 0 <= self.hue <= u16::MAX
    }

    /// Mass grows with size: a body weighs as much as its radius is long,
    /// so that its inverse mass is the reciprocal of the radius.
    pub open spec fn mass(self) -> int {
        self.radius
    }

    /// Mass times velocity.
    pub open spec fn momentum(self) -> Vector {
        self.velocity.scaled(self.mass())
    }

    /// Where the body's bounding interval on the sweep axis begins.
    pub open spec fn min_extent(self) -> int {
        self.pos.x - self.radius
    }

    /// Where the body's bounding interval on the sweep axis ends.
    pub open spec fn max_extent(self) -> int {
        self.pos.x + self.radius
    }

    /// The whole disc lies inside the arena `[0, width] x [0, height]`.
    pub open spec fn inside(self, width: int, height: int) -> bool {
        &&& self.radius <= self.pos.x <= width - self.radius
        &&& self.radius <= self.pos.y <= height - self.radius
    }

    /// The body fits into the arena with room to be set back from a wall.
    pub open spec fn fits(self, width: int, height: int) -> bool {
        &&& 2 * self.radius + UNIT < width
        &&& 2 * self.radius + UNIT < height
    }
}

/// The time that a frame may take as elapsed: what the host reports,
/// unless that is negative.
pub open spec fn elapsed(dt: int) -> int {
    if dt < 0 {
        0
    } else {
        dt
    }
}

/// The change that a rate of `rate` per second makes in `dt` microseconds.
pub open spec fn travel(rate: int, dt: int) -> int {
    trunc_div(rate * dt, MICROS_PER_SECOND as int)
}

/// One semi-implicit Euler step: the position moves by the velocity the
/// body had before the step, then the velocity takes up the acceleration.
pub open spec fn integrate(b: Body, dt: int) -> Body {
    Body {
        pos: Vector {
            x: saturate(b.pos.x + travel(b.velocity.x, dt), MAX_COORD as int),
            y: saturate(b.pos.y + travel(b.velocity.y, dt), MAX_COORD as int),
        },
        velocity: Vector {
            x: saturate(b.velocity.x + travel(b.acceleration.x, dt), MAX_SPEED as int),
            y: saturate(b.velocity.y + travel(b.acceleration.y, dt), MAX_SPEED as int),
        },
        ..b
    }
}

/// Position and velocity on one axis after the walls at `0` and `extent`
/// have acted on a body of radius `r`: a body whose edge has reached or
/// passed a wall is set one unit inside it and turned round.
pub open spec fn reflect(p: int, v: int, r: int, extent: int) -> (int, int) {
    if p <= r {
        (r + UNIT, -v)
    } else if p >= extent - r {
        (extent - r - UNIT, -v)
    } else {
        (p, v)
    }
}

/// The walls of the arena act on each axis independently.
pub open spec fn bounce(b: Body, width: int, height: int) -> Body {
    let (px, vx) = reflect(b.pos.x, b.velocity.x, b.radius, width);
    let (py, vy) = reflect(b.pos.y, b.velocity.y, b.radius, height);
    Body { pos: Vector { x: px, y: py }, velocity: Vector { x: vx, y: vy }, ..b }
}

/// What one frame does to a body on its own: integration, then the walls.
pub open spec fn advance(b: Body, dt: int, width: int, height: int) -> Body {
    bounce(integrate(b, dt), width, height)
}

/// Integration keeps a body within its bounds.
pub proof fn lemma_integrate_valid(b: Body, dt: int)
    requires
        b.valid(),
    ensures
        integrate(b, dt).valid(),
{
}

/// The walls keep a body within its bounds, whatever the arena.
pub proof fn lemma_bounce_valid(b: Body, width: int, height: int)
    requires
        b.valid(),
        0 <= width <= u32::MAX,
        0 <= height <= u32::MAX,
    ensures
        bounce(b, width, height).valid(),
{
}

/// Once the walls have acted, a body that fits into the arena lies wholly
/// inside it, strictly clear of every wall.
pub proof fn lemma_bounce_inside(b: Body, width: int, height: int)
    requires
        b.fits(width, height),
    ensures
        ({
            let c = bounce(b, width, height);
            &&& c.radius < c.pos.x < width - c.radius
            &&& c.radius < c.pos.y < height - c.radius
            &&& c.inside(width, height)
        }),
{
}

/// The walls act at most once per frame: on a body that fits into the
/// arena, handling the bounds a second time changes nothing, so that a
/// body which has just been turned round at a wall is not turned again.
pub proof fn lemma_bounce_idempotent(b: Body, width: int, height: int)
    requires
        b.fits(width, height),
    ensures
        bounce(bounce(b, width, height), width, height) == bounce(b, width, height),
{
}

} // verus!
