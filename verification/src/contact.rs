//! The narrow phase and the collision response, as mathematics.
//!
//! Two bodies collide when their discs overlap or touch. A colliding pair
//! is pushed apart along the line of centres and exchanges an impulse
//! along that line, weighted by inverse mass, that reverses the velocity
//! with which the two approach each other.

use vstd::prelude::*;
use crate::body::Body;
use crate::fixed::{
    ceil_sqrt, lemma_ceil_sqrt_le, trunc_div, MAX_COORD, MAX_SPEED, NORMAL_SCALE,
};
use crate::vector::Vector;

verus! {

/// The squared distance between the centres of `a` and `b`.
pub open spec fn dist_sq(a: Body, b: Body) -> int {
    let d = a.pos.minus(b.pos);
    d.dot(d)
}

/// The distance between the rims of the two discs, rounded up to a whole
/// tick; negative by the depth of the overlap where they overlap.
pub open spec fn outer_distance(a: Body, b: Body) -> int {
    ceil_sqrt(dist_sq(a, b)) - a.radius - b.radius
}

/// The discs of `a` and `b` overlap or touch.
pub open spec fn collides(a: Body, b: Body) -> bool {
    outer_distance(a, b) <= 0
}

/// The bounding intervals of `a` and `b` on the sweep axis meet.
pub open spec fn spans_meet(a: Body, b: Body) -> bool {
    a.min_extent() <= b.max_extent() && b.min_extent() <= a.max_extent()
}

/// The direction of the collision normal, from the centre of `b` to the
/// centre of `a`. Two bodies whose centres coincide have no line of
/// centres; they are parted along the sweep axis.
pub open spec fn contact_axis(a: Body, b: Body) -> Vector {
    if a.pos == b.pos {
        Vector { x: 1, y: 0 }
    } else {
        a.pos.minus(b.pos)
    }
}

/// Half the outer distance along the collision normal: what `a` gives up
/// and `b` takes so that the two no longer overlap. The normal is the
/// contact axis divided by its length; the length is taken of the axis
/// scaled up by `NORMAL_SCALE`, so that its rounding does not shorten
/// the push.
pub open spec fn correction(a: Body, b: Body) -> Vector {
    let axis = contact_axis(a, b);
    let len = ceil_sqrt(axis.dot(axis) * NORMAL_SCALE * NORMAL_SCALE);
    let gap = outer_distance(a, b);
    Vector {
        x: trunc_div(gap * axis.x * NORMAL_SCALE, 2 * len),
        y: trunc_div(gap * axis.y * NORMAL_SCALE, 2 * len),
    }
}

/// The velocity of `a` relative to `b` along the contact axis, times the
/// length of the axis.
pub open spec fn approach(a: Body, b: Body) -> int {
    a.velocity.minus(b.velocity).dot(contact_axis(a, b))
}

/// The velocity change that the elastic impulse between `a` and `b` gives
/// to the one of them whose partner has mass `partner`.
pub open spec fn kick(a: Body, b: Body, partner: int) -> Vector {
    let axis = contact_axis(a, b);
    let den = axis.dot(axis) * (a.radius + b.radius);
    Vector {
        x: trunc_div(2 * approach(a, b) * partner * axis.x, den),
        y: trunc_div(2 * approach(a, b) * partner * axis.y, den),
    }
}

/// The two bodies after their collision has been resolved.
pub open spec fn rebound(a: Body, b: Body) -> (Body, Body) {
    let shift = correction(a, b);
    (
        Body {
            pos: a.pos.minus(shift).saturated(MAX_COORD as int),
            velocity: a.velocity.minus(kick(a, b, b.mass())).saturated(MAX_SPEED as int),
            contact: true,
            ..a
        },
        Body {
            pos: b.pos.plus(shift).saturated(MAX_COORD as int),
            velocity: b.velocity.plus(kick(a, b, a.mass())).saturated(MAX_SPEED as int),
            contact: true,
            ..b
        },
    )
}

/// Neither velocity leaves the representable range in the rebound.
pub open spec fn rebound_in_range(a: Body, b: Body) -> bool {
    &&& a.velocity.minus(kick(a, b, b.mass())).within(MAX_SPEED as int)
    &&& b.velocity.plus(kick(a, b, a.mass())).within(MAX_SPEED as int)
}

/// Two bodies collide exactly when their centres are no further apart
/// than the sum of their radii; bodies that just touch do collide.
pub proof fn lemma_collides_iff_in_reach(a: Body, b: Body)
    requires
        0 <= a.radius,
        0 <= b.radius,
    ensures
        collides(a, b) <==> dist_sq(a, b) <= (a.radius + b.radius) * (a.radius + b.radius),
{
    let d = a.pos.minus(b.pos);
    assert(0 <= d.x * d.x) by (nonlinear_arith);
    assert(0 <= d.y * d.y) by (nonlinear_arith);
    lemma_ceil_sqrt_le(dist_sq(a, b), a.radius + b.radius);
}

/// Colliding is mutual.
pub proof fn lemma_collides_symmetric(a: Body, b: Body)
    ensures
        collides(a, b) == collides(b, a),
{
    let d = a.pos.minus(b.pos);
    let e = b.pos.minus(a.pos);
    assert(d.x * d.x == e.x * e.x) by (nonlinear_arith)
        requires
            d.x == -e.x,
    ;
    assert(d.y * d.y == e.y * e.y) by (nonlinear_arith)
        requires
            d.y == -e.y,
    ;
}

/// Bodies that collide are no further apart on either axis than the sum
/// of their radii, so their bounding intervals meet.
pub proof fn lemma_collides_implies_spans_meet(a: Body, b: Body)
    requires
        0 <= a.radius,
        0 <= b.radius,
        collides(a, b),
    ensures
        spans_meet(a, b),
        -(a.radius + b.radius) <= a.pos.x - b.pos.x <= a.radius + b.radius,
        -(a.radius + b.radius) <= a.pos.y - b.pos.y <= a.radius + b.radius,
{
    lemma_collides_iff_in_reach(a, b);
    let d = a.pos.minus(b.pos);
    let reach = a.radius + b.radius;
    assert(0 <= d.x * d.x) by (nonlinear_arith);
    assert(0 <= d.y * d.y) by (nonlinear_arith);
    assert(-reach <= d.x <= reach) by (nonlinear_arith)
        requires
            d.x * d.x <= reach * reach,
            0 <= reach,
    ;
    assert(-reach <= d.y <= reach) by (nonlinear_arith)
        requires
            d.y * d.y <= reach * reach,
            0 <= reach,
    ;
}

} // verus!
