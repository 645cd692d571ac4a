//! The executable body: a ball with machine-integer state that is kept
//! within its bounds by construction.

use vstd::prelude::*;
use crate::body::{advance, bounce, elapsed, integrate, reflect, travel, Body};
use crate::contact::{
    approach, collides, contact_axis, correction, kick, lemma_collides_implies_spans_meet,
    outer_distance, rebound,
};
use crate::fixed::{
    isqrt_ceil, lemma_ceil_sqrt_exists, lemma_ceil_sqrt_le, lemma_trunc_div_bounds, saturate,
    trunc_div, saturating, MAX_COORD, MAX_RADIUS, MAX_SPEED, MICROS_PER_SECOND, NORMAL_SCALE,
    UNIT,
};
use crate::vector::{Vec2, Vector};

verus! {

/// Horizontal velocity of a newly made ball: 200 units per second.
pub const LAUNCH_VX: i64 = 204_800;

/// Vertical velocity of a newly made ball: 300 units per second, upward.
pub const LAUNCH_VY: i64 = -307_200;

/// Gravity: 50 units per second squared, downward.
pub const GRAVITY: i64 = 51_200;

/// Why a ball could not be made.
#[derive(Clone, Copy, Debug, PartialEq, Eq, Structural)]
pub enum GeometryError {
    /// The radius is zero or negative.
    NonPositiveRadius,
    /// The radius exceeds `MAX_RADIUS`.
    RadiusTooLarge,
    /// A coordinate of the centre exceeds `MAX_COORD` in magnitude.
    PositionOutOfRange,
    /// A component of a velocity or acceleration exceeds `MAX_SPEED` in
    /// magnitude.
    RateOutOfRange,
    /// The arena is too small to hold a ball of the smallest size.
    ArenaTooSmall,
}

/// One circular body of the simulation.
#[derive(Clone, Copy, Debug, PartialEq, Eq)]
pub struct Ball {
    pos: Vec2,
    velocity: Vec2,
    acceleration: Vec2,
    radius: i64,
    hue: u16,
    contact: bool,
}

/// The state in which a ball starts its life.
pub open spec fn launched(pos: Vector, radius: int, hue: int) -> Body {
    Body {
        pos,
        velocity: Vector { x: LAUNCH_VX as int, y: LAUNCH_VY as int },
        acceleration: Vector { x: 0, y: GRAVITY as int },
        radius,
        hue,
        contact: false,
    }
}

/// What is wrong with a centre and a radius, if anything.
pub open spec fn placement_error(pos: Vector, radius: int) -> Option<GeometryError> {
    if radius <= 0 {
        Some(GeometryError::NonPositiveRadius)
    } else if radius > MAX_RADIUS {
        Some(GeometryError::RadiusTooLarge)
    } else if !pos.within(MAX_COORD as int) {
        Some(GeometryError::PositionOutOfRange)
    } else {
        None
    }
}

/// The number of sides of the polygon that draws a disc of this radius:
/// one for every two units of radius, at least 20 and at most 255.
pub open spec fn polygon_sides(radius: int) -> int {
    let wanted = radius / (2 * UNIT);
    if wanted < 20 {
        20
    } else if wanted > 255 {
        255
    } else {
        wanted
    }
}

impl View for Ball {
    type V = Body;

    closed spec fn view(&self) -> Body {
        Body {
            pos: self.pos@,
            velocity: self.velocity@,
            acceleration: self.acceleration@,
            radius: self.radius as int,
            hue: self.hue as int,
            contact: self.contact,
        }
    }
}

/// Moves `value` by what `rate` amounts to over `dt` microseconds.
fn moved(value: i64, rate: i64, dt: i64, limit: i64) -> (r: i64)
    requires
        -MAX_SPEED <= rate <= MAX_SPEED,
        0 <= dt,
        0 <= limit,
    ensures
        r == saturate(value + travel(rate as int, dt as int), limit as int),
{
    assert(-0x1_0000_0000 * 0x8000_0000_0000_0000 <= rate * dt <= 0x1_0000_0000
        * 0x8000_0000_0000_0000) by (nonlinear_arith)
        requires
            -0x1_0000_0000 <= rate <= 0x1_0000_0000,
            0 <= dt <= 0x7fff_ffff_ffff_ffff,
    ;
    let product: i128 = (rate as i128) * (dt as i128);
    let delta: i128 = product / (MICROS_PER_SECOND as i128);
    saturating(value as i128 + delta, limit)
}

/// What the walls at `0` and `extent` do to one axis of a ball.
fn reflected(p: i64, v: i64, r: i64, extent: u32) -> (out: (i64, i64))
    requires
        0 < r <= MAX_RADIUS,
        -MAX_COORD <= p <= MAX_COORD,
        -MAX_SPEED <= v <= MAX_SPEED,
    ensures
        (out.0 as int, out.1 as int) == reflect(p as int, v as int, r as int, extent as int),
{
    let far: i64 = extent as i64 - r;
    if p <= r {
        (r + UNIT, -v)
    } else if p >= far {
        (far - UNIT, -v)
    } else {
        (p, v)
    }
}

impl Ball {
    /// Every ball stays within the bounds of the model.
    #[verifier::type_invariant]
    pub open spec fn well_formed(self) -> bool {
        self@.valid()
    }

    /// Makes a ball in the launch state: centred at `pos`, with the launch
    /// velocity, under gravity, and out of contact. A radius that is not
    /// positive is refused, as is any value outside the range that the
    /// simulation can represent. Of its colour a ball holds the hue, in
    /// degrees; saturation, lightness and opacity are the renderer's to
    /// choose.
    pub fn new(pos: Vec2, radius: i64, hue: u16) -> (r: Result<Ball, GeometryError>)
        ensures
            match placement_error(pos@, radius as int) {
                Some(e) => r == Err::<Ball, GeometryError>(e),
                None => r is Ok && r->Ok_0@ == launched(pos@, radius as int, hue as int),
            },
            r is Ok ==> r->Ok_0@.valid(),
    {
        if radius <= 0 {
            Err(GeometryError::NonPositiveRadius)
        } else if radius > MAX_RADIUS {
            Err(GeometryError::RadiusTooLarge)
        } else if pos.x < -MAX_COORD || pos.x > MAX_COORD || pos.y < -MAX_COORD || pos.y
            > MAX_COORD {
            Err(GeometryError::PositionOutOfRange)
        } else {
            Ok(
                Ball {
                    pos,
                    velocity: Vec2 { x: LAUNCH_VX, y: LAUNCH_VY },
                    acceleration: Vec2 { x: 0, y: GRAVITY },
                    radius,
                    hue,
                    contact: false,
                },
            )
        }
    }

    /// The same ball with another velocity, unless a component of it is
    /// out of range.
    pub fn with_velocity(self, velocity: Vec2) -> (r: Result<Ball, GeometryError>)
        ensures
            velocity@.within(MAX_SPEED as int) ==> r is Ok && r->Ok_0@ == (Body {
                velocity: velocity@,
                ..self@
            }),
            !velocity@.within(MAX_SPEED as int) ==> r == Err::<Ball, GeometryError>(
                GeometryError::RateOutOfRange,
            ),
    {
        proof {
            use_type_invariant(&self);
        }
        if velocity.x < -MAX_SPEED || velocity.x > MAX_SPEED || velocity.y < -MAX_SPEED
            || velocity.y > MAX_SPEED {
            Err(GeometryError::RateOutOfRange)
        } else {
            Ok(Ball { velocity, ..self })
        }
    }

    /// The same ball under another acceleration, unless a component of it
    /// is out of range.
    pub fn with_acceleration(self, acceleration: Vec2) -> (r: Result<Ball, GeometryError>)
        ensures
            acceleration@.within(MAX_SPEED as int) ==> r is Ok && r->Ok_0@ == (Body {
                acceleration: acceleration@,
                ..self@
            }),
            !acceleration@.within(MAX_SPEED as int) ==> r == Err::<Ball, GeometryError>(
                GeometryError::RateOutOfRange,
            ),
    {
        proof {
            use_type_invariant(&self);
        }
        if acceleration.x < -MAX_SPEED || acceleration.x > MAX_SPEED || acceleration.y
            < -MAX_SPEED || acceleration.y > MAX_SPEED {
            Err(GeometryError::RateOutOfRange)
        } else {
            Ok(Ball { acceleration, ..self })
        }
    }

    /// The centre of the ball.
    pub fn pos(&self) -> (p: Vec2)
        ensures
            p@ == self@.pos,
    {
        self.pos
    }

    /// The velocity of the ball.
    pub fn velocity(&self) -> (v: Vec2)
        ensures
            v@ == self@.velocity,
    {
        self.velocity
    }

    /// The acceleration that the ball is under.
    pub fn acceleration(&self) -> (a: Vec2)
        ensures
            a@ == self@.acceleration,
    {
        self.acceleration
    }

    /// The radius of the ball, which is also its mass.
    pub fn radius(&self) -> (r: i64)
        ensures
            r == self@.radius,
            0 < r <= MAX_RADIUS,
    {
        proof {
            use_type_invariant(self);
        }
        self.radius
    }

    /// The hue of the ball.
    pub fn hue(&self) -> (h: u16)
        ensures
            h == self@.hue,
    {
        self.hue
    }

    /// Whether the ball touched another one in the current frame.
    pub fn in_contact(&self) -> (touched: bool)
        ensures
            touched == self@.contact,
    {
        self.contact
    }

    /// The number of sides of the polygon that draws the ball.
    pub fn sides(&self) -> (n: u8)
        ensures
            n == polygon_sides(self@.radius),
    {
        proof {
            use_type_invariant(self);
        }
        let wanted: i64 = self.radius / (2 * UNIT);
        if wanted < 20 {
            20
        } else if wanted > 255 {
            255
        } else {
            wanted as u8
        }
    }

    /// Advances the ball by `dt_micros` microseconds of free motion: the
    /// position by the velocity it had, then the velocity by the
    /// acceleration. Time does not run backwards: a negative `dt_micros`
    /// counts as none.
    pub fn integrate(&mut self, dt_micros: i64)
        ensures
            final(self)@ == integrate(old(self)@, elapsed(dt_micros as int)),
    {
        proof {
            use_type_invariant(&*self);
        }
        let dt_micros: i64 = if dt_micros < 0 { 0 } else { dt_micros };
        let pos = Vec2 {
            x: moved(self.pos.x, self.velocity.x, dt_micros, MAX_COORD),
            y: moved(self.pos.y, self.velocity.y, dt_micros, MAX_COORD),
        };
        let velocity = Vec2 {
            x: moved(self.velocity.x, self.acceleration.x, dt_micros, MAX_SPEED),
            y: moved(self.velocity.y, self.acceleration.y, dt_micros, MAX_SPEED),
        };
        self.pos = pos;
        self.velocity = velocity;
    }

    /// Lets the walls of the arena `[0, width] x [0, height]` act on the
    /// ball, on each axis by itself.
    pub fn handle_bound_collision(&mut self, width: u32, height: u32)
        ensures
            final(self)@ == bounce(old(self)@, width as int, height as int),
            old(self)@.fits(width as int, height as int) ==> final(self)@.inside(
                width as int,
                height as int,
            ),
    {
        proof {
            use_type_invariant(&*self);
        }
        let (px, vx) = reflected(self.pos.x, self.velocity.x, self.radius, width);
        let (py, vy) = reflected(self.pos.y, self.velocity.y, self.radius, height);
        self.pos = Vec2 { x: px, y: py };
        self.velocity = Vec2 { x: vx, y: vy };
    }

    /// One frame of a ball on its own: free motion over `dt_micros`
    /// microseconds, then the walls.
    pub fn update(&mut self, dt_micros: i64, width: u32, height: u32)
        ensures
            final(self)@ == advance(
                old(self)@,
                elapsed(dt_micros as int),
                width as int,
                height as int,
            ),
            old(self)@.fits(width as int, height as int) ==> final(self)@.inside(
                width as int,
                height as int,
            ),
    {
        self.integrate(dt_micros);
        self.handle_bound_collision(width, height);
    }

    /// The distance between the rims of the two balls, rounded up to a
    /// whole tick; negative where they overlap.
    pub fn outer_distance(&self, other: &Ball) -> (d: i64)
        ensures
            d == outer_distance(self@, other@),
    {
        proof {
            use_type_invariant(self);
            use_type_invariant(other);
        }
        let dx: i128 = self.pos.x as i128 - other.pos.x as i128;
        let dy: i128 = self.pos.y as i128 - other.pos.y as i128;
        assert(0 <= dx * dx <= 0x200_0000_0000 * 0x200_0000_0000) by (nonlinear_arith)
            requires
                -0x200_0000_0000 <= dx <= 0x200_0000_0000,
        ;
        assert(0 <= dy * dy <= 0x200_0000_0000 * 0x200_0000_0000) by (nonlinear_arith)
            requires
                -0x200_0000_0000 <= dy <= 0x200_0000_0000,
        ;
        let square: i128 = dx * dx + dy * dy;
        let distance: u128 = isqrt_ceil(square as u128);
        proof {
            lemma_ceil_sqrt_le(square as int, 0x400_0000_0000);
        }
        (distance as i128 - self.radius as i128 - other.radius as i128) as i64
    }

    /// The two balls after their collision has been resolved: pushed apart
    /// along the line of centres, with the elastic impulse exchanged.
    pub(crate) fn rebound(&self, other: &Ball) -> (out: (Ball, Ball))
        requires
            collides(self@, other@),
        ensures
            (out.0@, out.1@) == rebound(self@, other@),
    {
        proof {
            use_type_invariant(self);
            use_type_invariant(other);
            lemma_collides_implies_spans_meet(self@, other@);
        }
        let reach: i128 = self.radius as i128 + other.radius as i128;
        let dx: i128 = self.pos.x as i128 - other.pos.x as i128;
        let dy: i128 = self.pos.y as i128 - other.pos.y as i128;
        let coincide: bool = dx == 0 && dy == 0;
        let ex: i128 = if coincide { 1 } else { dx };
        let ey: i128 = if coincide { 0 } else { dy };
        assert(Vector { x: ex as int, y: ey as int } == contact_axis(self@, other@));

        assert(0 <= dx * dx <= 0x4000_0000 * 0x4000_0000) by (nonlinear_arith)
            requires
                -0x4000_0000 <= dx <= 0x4000_0000,
        ;
        assert(0 <= dy * dy <= 0x4000_0000 * 0x4000_0000) by (nonlinear_arith)
            requires
                -0x4000_0000 <= dy <= 0x4000_0000,
        ;
        assert(0 <= ex * ex <= 0x4000_0000 * 0x4000_0000) by (nonlinear_arith)
            requires
                -0x4000_0000 <= ex <= 0x4000_0000,
        ;
        assert(0 <= ey * ey <= 0x4000_0000 * 0x4000_0000) by (nonlinear_arith)
            requires
                -0x4000_0000 <= ey <= 0x4000_0000,
        ;
        assert(1 <= ex * ex + ey * ey) by (nonlinear_arith)
            requires
                ex != 0 || ey != 0,
        ;
        let q: i128 = ex * ex + ey * ey;
        let scale: i128 = NORMAL_SCALE as i128;
        assert(scale == 0x4000_0000);
        assert(1 <= q <= 0x2000_0000_0000_0000);
        let scaled: i128 = q * scale * scale;
        let len: i128 = isqrt_ceil(scaled as u128) as i128;
        proof {
            lemma_ceil_sqrt_le(scaled as int, 0x2000_0000_0000_0000);
            lemma_ceil_sqrt_exists(scaled as int);
        }
        let square: i128 = dx * dx + dy * dy;
        let gap: i128 = isqrt_ceil(square as u128) as i128 - reach;
        proof {
            lemma_ceil_sqrt_exists(square as int);
        }
        assert(gap == outer_distance(self@, other@));
        assert(-0x4000_0000 * 0x4000_0000 <= gap * ex <= 0x4000_0000 * 0x4000_0000)
            by (nonlinear_arith)
            requires
                -0x4000_0000 <= gap <= 0,
                -0x4000_0000 <= ex <= 0x4000_0000,
        ;
        assert(-0x4000_0000 * 0x4000_0000 <= gap * ey <= 0x4000_0000 * 0x4000_0000)
            by (nonlinear_arith)
            requires
                -0x4000_0000 <= gap <= 0,
                -0x4000_0000 <= ey <= 0x4000_0000,
        ;
        let sx: i128 = (gap * ex * scale) / (2 * len);
        let sy: i128 = (gap * ey * scale) / (2 * len);
        assert(Vector { x: sx as int, y: sy as int } == correction(self@, other@));

        let dvx: i128 = self.velocity.x as i128 - other.velocity.x as i128;
        let dvy: i128 = self.velocity.y as i128 - other.velocity.y as i128;
        assert(-0x2_0000_0000 * 0x4000_0000 <= dvx * ex <= 0x2_0000_0000 * 0x4000_0000)
            by (nonlinear_arith)
            requires
                -0x2_0000_0000 <= dvx <= 0x2_0000_0000,
                -0x4000_0000 <= ex <= 0x4000_0000,
        ;
        assert(-0x2_0000_0000 * 0x4000_0000 <= dvy * ey <= 0x2_0000_0000 * 0x4000_0000)
            by (nonlinear_arith)
            requires
                -0x2_0000_0000 <= dvy <= 0x2_0000_0000,
                -0x4000_0000 <= ey <= 0x4000_0000,
        ;
        let closing: i128 = dvx * ex + dvy * ey;
        assert(closing == approach(self@, other@));
        assert(0 < q * reach <= 0x2000_0000_0000_0000 * 0x4000_0000) by (nonlinear_arith)
            requires
                1 <= q <= 0x2000_0000_0000_0000,
                1 <= reach <= 0x4000_0000,
        ;
        let den: i128 = q * reach;
        let twice: i128 = 2 * closing;
        let for_self: i128 = Self::weighted(twice, other.radius);
        let for_other: i128 = Self::weighted(twice, self.radius);
        let kick_self = (
            Self::along(for_self, ex, den),
            Self::along(for_self, ey, den),
        );
        let kick_other = (
            Self::along(for_other, ex, den),
            Self::along(for_other, ey, den),
        );
        assert(Vector { x: kick_self.0 as int, y: kick_self.1 as int } == kick(
            self@,
            other@,
            other@.mass(),
        ));
        assert(Vector { x: kick_other.0 as int, y: kick_other.1 as int } == kick(
            self@,
            other@,
            self@.mass(),
        ));
        let first = Ball {
            pos: Vec2 {
                x: saturating(self.pos.x as i128 - sx, MAX_COORD),
                y: saturating(self.pos.y as i128 - sy, MAX_COORD),
            },
            velocity: Vec2 {
                x: saturating(self.velocity.x as i128 - kick_self.0, MAX_SPEED),
                y: saturating(self.velocity.y as i128 - kick_self.1, MAX_SPEED),
            },
            acceleration: self.acceleration,
            radius: self.radius,
            hue: self.hue,
            contact: true,
        };
        let second = Ball {
            pos: Vec2 {
                x: saturating(other.pos.x as i128 + sx, MAX_COORD),
                y: saturating(other.pos.y as i128 + sy, MAX_COORD),
            },
            velocity: Vec2 {
                x: saturating(other.velocity.x as i128 + kick_other.0, MAX_SPEED),
                y: saturating(other.velocity.y as i128 + kick_other.1, MAX_SPEED),
            },
            acceleration: other.acceleration,
            radius: other.radius,
            hue: other.hue,
            contact: true,
        };
        (first, second)
    }

    /// Twice the approach speed, weighted by the partner's mass.
    fn weighted(twice: i128, mass: i64) -> (w: i128)
        requires
            -0x2_0000_0000_0000_0000 <= twice <= 0x2_0000_0000_0000_0000,
            0 < mass <= MAX_RADIUS,
        ensures
            w == twice * mass,
            -0x2_0000_0000_0000_0000 * 0x2000_0000 <= w <= 0x2_0000_0000_0000_0000 * 0x2000_0000,
    {
        assert(-0x2_0000_0000_0000_0000 * 0x2000_0000 <= twice * mass <= 0x2_0000_0000_0000_0000
            * 0x2000_0000) by (nonlinear_arith)
            requires
                -0x2_0000_0000_0000_0000 <= twice <= 0x2_0000_0000_0000_0000,
                0 < mass <= 0x2000_0000,
        ;
        twice * (mass as i128)
    }

    /// One component of a velocity change: the weighted approach speed
    /// projected on a component of the contact axis.
    fn along(weight: i128, component: i128, den: i128) -> (k: i128)
        requires
            -0x2_0000_0000_0000_0000 * 0x2000_0000 <= weight <= 0x2_0000_0000_0000_0000
                * 0x2000_0000,
            -0x4000_0000 <= component <= 0x4000_0000,
            0 < den,
        ensures
            k == trunc_div(weight * component, den as int),
            -0x2_0000_0000_0000_0000 * 0x2000_0000 * 0x4000_0000 <= k <= 0x2_0000_0000_0000_0000
                * 0x2000_0000 * 0x4000_0000,
    {
        assert(-0x2_0000_0000_0000_0000 * 0x2000_0000 * 0x4000_0000 <= weight * component
            <= 0x2_0000_0000_0000_0000 * 0x2000_0000 * 0x4000_0000) by (nonlinear_arith)
            requires
                -0x2_0000_0000_0000_0000 * 0x2000_0000 <= weight <= 0x2_0000_0000_0000_0000
                    * 0x2000_0000,
                -0x4000_0000 <= component <= 0x4000_0000,
        ;
        proof {
            lemma_trunc_div_bounds(weight * component, den as int);
        }
        (weight * component) / den
    }

    /// Where the ball's bounding interval on the sweep axis begins.
    pub fn min_extent(&self) -> (e: i64)
        ensures
            e == self@.min_extent(),
    {
        proof {
            use_type_invariant(self);
        }
        self.pos.x - self.radius
    }

    /// Where the ball's bounding interval on the sweep axis ends.
    pub fn max_extent(&self) -> (e: i64)
        ensures
            e == self@.max_extent(),
    {
        proof {
            use_type_invariant(self);
        }
        self.pos.x + self.radius
    }

    /// Forgets that the ball was in contact in an earlier frame.
    pub fn clear_contact(&mut self)
        ensures
            final(self)@ == (Body { contact: false, ..old(self)@ }),
    {
        proof {
            use_type_invariant(&*self);
        }
        self.contact = false;
    }

    /// Whether the two balls overlap or touch.
    pub fn collide_with(&self, other: &Ball) -> (hit: bool)
        ensures
            hit == collides(self@, other@),
    {
        self.outer_distance(other) <= 0
    }
}

} // verus!
