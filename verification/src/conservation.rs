//! What the collision response conserves.
//!
//! The impulse is computed in whole ticks, so each law holds up to the
//! rounding of one division per body and component; the bounds below say
//! how much that is. They speak of rebounds in which neither velocity
//! leaves the representable range, as is the case of all bodies that are
//! no faster than a seventh of the largest speed.

use vstd::prelude::*;
use crate::body::Body;
use crate::contact::{approach, contact_axis, kick, rebound, rebound_in_range};
use crate::fixed::{
    lemma_shares_balance, lemma_shares_total, lemma_trunc_div_remainder, lemma_trunc_div_within,
    trunc_div, MAX_SPEED,
};
use crate::vector::Vector;

verus! {

/// The larger of the two masses.
pub open spec fn heavier(a: Body, b: Body) -> int {
    if a.mass() < b.mass() {
        b.mass()
    } else {
        a.mass()
    }
}

/// The momentum of the pair.
pub open spec fn total_momentum(a: Body, b: Body) -> Vector {
    a.momentum().plus(b.momentum())
}

/// The contact axis is never the zero vector.
pub proof fn lemma_contact_axis_nonzero(a: Body, b: Body)
    ensures
        contact_axis(a, b).dot(contact_axis(a, b)) >= 1,
        contact_axis(a, b).taxicab() >= 1,
{
    let e = contact_axis(a, b);
    assert(e.x != 0 || e.y != 0);
    assert(e.x * e.x + e.y * e.y >= 1) by (nonlinear_arith)
        requires
            e.x != 0 || e.y != 0,
    ;
}

/// The denominator of the impulse is positive.
proof fn lemma_denominator_positive(a: Body, b: Body)
    requires
        0 < a.radius,
        0 < b.radius,
    ensures
        contact_axis(a, b).dot(contact_axis(a, b)) * (a.radius + b.radius) > 0,
{
    lemma_contact_axis_nonzero(a, b);
    let q = contact_axis(a, b).dot(contact_axis(a, b));
    let reach = a.radius + b.radius;
    assert(q * reach > 0) by (nonlinear_arith)
        requires
            q >= 1,
            reach >= 1,
    ;
}

/// One component of the momentum that the two kicks fail to cancel.
proof fn lemma_kicks_balance(s: int, e: int, ra: int, rb: int, den: int)
    requires
        0 < ra,
        0 < rb,
        0 < den,
    ensures
        ({
            let ka = trunc_div(2 * s * rb * e, den);
            let kb = trunc_div(2 * s * ra * e, den);
            let top = if ra < rb { rb } else { ra };
            -top < rb * kb - ra * ka < top
        }),
{
    let n: int = 2 * s * e;
    assert(2 * s * rb * e == n * rb) by (nonlinear_arith)
        requires
            n == 2 * s * e,
    ;
    assert(2 * s * ra * e == n * ra) by (nonlinear_arith)
        requires
            n == 2 * s * e,
    ;
    lemma_shares_balance(n, ra, rb, den);
}

/// Momentum conservation: resolving a collision changes each component of
/// the pair's total momentum by less than the mass of the heavier body,
/// that is, by less than one tick per second of its velocity.
pub proof fn lemma_momentum_conserved(a: Body, b: Body)
    requires
        a.valid(),
        b.valid(),
        rebound_in_range(a, b),
    ensures
        ({
            let (a2, b2) = rebound(a, b);
            let before = total_momentum(a, b);
            let after = total_momentum(a2, b2);
            &&& -heavier(a, b) < after.x - before.x < heavier(a, b)
            &&& -heavier(a, b) < after.y - before.y < heavier(a, b)
        }),
{
    let e = contact_axis(a, b);
    let s = approach(a, b);
    let den = e.dot(e) * (a.radius + b.radius);
    let ka = kick(a, b, b.mass());
    let kb = kick(a, b, a.mass());
    let (a2, b2) = rebound(a, b);
    lemma_denominator_positive(a, b);
    lemma_kicks_balance(s, e.x, a.radius, b.radius, den);
    lemma_kicks_balance(s, e.y, a.radius, b.radius, den);
    assert(a2.velocity == a.velocity.minus(ka));
    assert(b2.velocity == b.velocity.plus(kb));
    let ra = a.radius;
    let rb = b.radius;
    assert(ra * (a.velocity.x - ka.x) + rb * (b.velocity.x + kb.x) - (ra * a.velocity.x + rb
        * b.velocity.x) == rb * kb.x - ra * ka.x) by (nonlinear_arith);
    assert(ra * (a.velocity.y - ka.y) + rb * (b.velocity.y + kb.y) - (ra * a.velocity.y + rb
        * b.velocity.y) == rb * kb.y - ra * ka.y) by (nonlinear_arith);
}

/// One component's part in the approach speed that the kicks fail to
/// reverse: `q` times it has the sign of `s` and is smaller than `2 * q`
/// times the magnitude of the component.
proof fn lemma_kicks_total(s: int, e: int, ra: int, rb: int, q: int)
    requires
        0 < ra,
        0 < rb,
        0 < q,
    ensures
        ({
            let den = q * (ra + rb);
            let total = trunc_div(2 * s * rb * e, den) + trunc_div(2 * s * ra * e, den);
            let rest = (2 * s * e - q * total) * e;
            let size = if e < 0 { -e } else { e };
            &&& -(2 * q * size) <= rest <= 2 * q * size
            &&& e != 0 ==> -(2 * q * size) < rest < 2 * q * size
        }),
{
    let den: int = q * (ra + rb);
    let n: int = 2 * s * e;
    assert(2 * s * rb * e == n * rb) by (nonlinear_arith)
        requires
            n == 2 * s * e,
    ;
    assert(2 * s * ra * e == n * ra) by (nonlinear_arith)
        requires
            n == 2 * s * e,
    ;
    lemma_shares_total(n, ra, rb, q);
    let total: int = trunc_div(n * rb, den) + trunc_div(n * ra, den);
    let short: int = n - q * total;
    let size: int = if e < 0 { -e } else { e };
    assert(-2 * q < short < 2 * q);
    assert(-(2 * q * size) <= short * e <= 2 * q * size && (e != 0 ==> -(2 * q * size) < short * e
        < 2 * q * size)) by (nonlinear_arith)
        requires
            -2 * q < short < 2 * q,
            size == (if e < 0 { -e } else { e }),
            0 < q,
    ;
}

/// Separating-velocity reversal: after the collision has been resolved,
/// the velocity of the first body relative to the second along the
/// collision normal is the negation of what it was before. Measured
/// against the contact axis, the two differ by less than twice the sum of
/// the magnitudes of the axis's components, which is less than three
/// ticks per second along the normal.
pub proof fn lemma_separating_velocity_reversed(a: Body, b: Body)
    requires
        a.valid(),
        b.valid(),
        rebound_in_range(a, b),
    ensures
        ({
            let (a2, b2) = rebound(a, b);
            let axis = contact_axis(a, b);
            let after = a2.velocity.minus(b2.velocity).dot(axis);
            -2 * axis.taxicab() < after + approach(a, b) < 2 * axis.taxicab()
        }),
{
    let e = contact_axis(a, b);
    let s = approach(a, b);
    let q = e.dot(e);
    let ra = a.radius;
    let rb = b.radius;
    let den = q * (ra + rb);
    let ka = kick(a, b, b.mass());
    let kb = kick(a, b, a.mass());
    let (a2, b2) = rebound(a, b);
    lemma_contact_axis_nonzero(a, b);
    lemma_kicks_total(s, e.x, ra, rb, q);
    lemma_kicks_total(s, e.y, ra, rb, q);
    assert(a2.velocity == a.velocity.minus(ka));
    assert(b2.velocity == b.velocity.plus(kb));
    let tx: int = ka.x + kb.x;
    let ty: int = ka.y + kb.y;
    let after: int = a2.velocity.minus(b2.velocity).dot(e);
    let dvx: int = a.velocity.x - b.velocity.x;
    let dvy: int = a.velocity.y - b.velocity.y;
    assert(s == dvx * e.x + dvy * e.y);
    assert(after == (dvx - tx) * e.x + (dvy - ty) * e.y);
    assert(after + s == 2 * s - (tx * e.x + ty * e.y)) by (nonlinear_arith)
        requires
            s == dvx * e.x + dvy * e.y,
            after == (dvx - tx) * e.x + (dvy - ty) * e.y,
    ;
    let rest_x: int = (2 * s * e.x - q * tx) * e.x;
    let rest_y: int = (2 * s * e.y - q * ty) * e.y;
    assert(q * (after + s) == rest_x + rest_y) by (nonlinear_arith)
        requires
            after + s == 2 * s - (tx * e.x + ty * e.y),
            q == e.x * e.x + e.y * e.y,
            rest_x == (2 * s * e.x - q * tx) * e.x,
            rest_y == (2 * s * e.y - q * ty) * e.y,
    ;
    let span: int = e.taxicab();
    let size_x: int = if e.x < 0 { -e.x } else { e.x };
    let size_y: int = if e.y < 0 { -e.y } else { e.y };
    assert(2 * q * size_x + 2 * q * size_y == q * (2 * span)) by (nonlinear_arith)
        requires
            span == size_x + size_y,
    ;
    assert(-(2 * q * size_x) <= rest_x <= 2 * q * size_x);
    assert(-(2 * q * size_y) <= rest_y <= 2 * q * size_y);
    assert(e.x != 0 || e.y != 0);
    assert(-(q * (2 * span)) < q * (after + s) < q * (2 * span));
    assert(-2 * span < after + s < 2 * span) by (nonlinear_arith)
        requires
            -(q * (2 * span)) < q * (after + s) < q * (2 * span),
            q >= 1,
    ;
}

/// A kick is parallel to the contact axis, up to rounding: its cross
/// product with the axis is smaller than the sum of the magnitudes of
/// the axis's components.
proof fn lemma_kick_parallel(s: int, ex: int, ey: int, w: int, den: int)
    requires
        0 < den,
        ex != 0 || ey != 0,
    ensures
        ({
            let kx = trunc_div(2 * s * w * ex, den);
            let ky = trunc_div(2 * s * w * ey, den);
            let span = (Vector { x: ex, y: ey }).taxicab();
            -span < kx * ey - ky * ex < span
        }),
{
    let nx: int = 2 * s * w * ex;
    let ny: int = 2 * s * w * ey;
    let kx: int = trunc_div(nx, den);
    let ky: int = trunc_div(ny, den);
    let rx: int = nx - den * kx;
    let ry: int = ny - den * ky;
    let turn: int = kx * ey - ky * ex;
    let size_x: int = if ex < 0 { -ex } else { ex };
    let size_y: int = if ey < 0 { -ey } else { ey };
    lemma_trunc_div_remainder(nx, den);
    lemma_trunc_div_remainder(ny, den);
    assert(nx * ey == ny * ex) by (nonlinear_arith)
        requires
            nx == 2 * s * w * ex,
            ny == 2 * s * w * ey,
    ;
    assert(den * turn == ry * ex - rx * ey) by (nonlinear_arith)
        requires
            turn == kx * ey - ky * ex,
            rx == nx - den * kx,
            ry == ny - den * ky,
            nx * ey == ny * ex,
    ;
    assert(-(den * size_x) <= ry * ex <= den * size_x && (ex != 0 ==> -(den * size_x) < ry * ex
        < den * size_x)) by (nonlinear_arith)
        requires
            -den < ry < den,
            size_x == (if ex < 0 { -ex } else { ex }),
            0 < den,
    ;
    assert(-(den * size_y) <= rx * ey <= den * size_y && (ey != 0 ==> -(den * size_y) < rx * ey
        < den * size_y)) by (nonlinear_arith)
        requires
            -den < rx < den,
            size_y == (if ey < 0 { -ey } else { ey }),
            0 < den,
    ;
    let span: int = size_x + size_y;
    assert(den * size_x + den * size_y == den * span) by (nonlinear_arith)
        requires
            span == size_x + size_y,
    ;
    assert(-(den * span) < den * turn < den * span);
    assert(-span < turn < span) by (nonlinear_arith)
        requires
            -(den * span) < den * turn < den * span,
            0 < den,
    ;
}

/// No friction: resolving a collision changes the velocity of either
/// body along the collision normal only. The change has no component
/// across the contact axis but what rounding leaves, which is less than
/// two ticks per second.
pub proof fn lemma_tangential_velocity_kept(a: Body, b: Body)
    requires
        a.valid(),
        b.valid(),
        rebound_in_range(a, b),
    ensures
        ({
            let (a2, b2) = rebound(a, b);
            let axis = contact_axis(a, b);
            &&& -axis.taxicab() < a2.velocity.minus(a.velocity).cross(axis) < axis.taxicab()
            &&& -axis.taxicab() < b2.velocity.minus(b.velocity).cross(axis) < axis.taxicab()
        }),
{
    let e = contact_axis(a, b);
    let s = approach(a, b);
    let den = e.dot(e) * (a.radius + b.radius);
    let ka = kick(a, b, b.mass());
    let kb = kick(a, b, a.mass());
    let (a2, b2) = rebound(a, b);
    lemma_denominator_positive(a, b);
    lemma_kick_parallel(s, e.x, e.y, b.radius, den);
    lemma_kick_parallel(s, e.x, e.y, a.radius, den);
    assert(a2.velocity == a.velocity.minus(ka));
    assert(b2.velocity == b.velocity.plus(kb));
    assert(a2.velocity.minus(a.velocity).cross(e) == -(ka.x * e.y - ka.y * e.x)) by (nonlinear_arith)
        requires
            a2.velocity.minus(a.velocity).cross(e) == (a.velocity.x - ka.x - a.velocity.x) * e.y - (
            a.velocity.y - ka.y - a.velocity.y) * e.x,
    ;
    assert(b2.velocity.minus(b.velocity).cross(e) == kb.x * e.y - kb.y * e.x) by (nonlinear_arith)
        requires
            b2.velocity.minus(b.velocity).cross(e) == (b.velocity.x + kb.x - b.velocity.x) * e.y - (
            b.velocity.y + kb.y - b.velocity.y) * e.x,
    ;
}

/// A seventh of the largest speed: bodies that are no faster than this
/// on either axis cannot leave the representable range in a collision.
pub open spec fn unhurried(a: Body, b: Body) -> bool {
    &&& a.velocity.within(MAX_SPEED / 7)
    &&& b.velocity.within(MAX_SPEED / 7)
}

/// One component of a kick is no larger than three times the largest
/// component of the relative velocity.
proof fn lemma_kick_bounded(dvx: int, dvy: int, ex: int, ey: int, w: int, reach: int, top: int)
    requires
        -top <= dvx <= top,
        -top <= dvy <= top,
        0 < w <= reach,
        ex != 0 || ey != 0,
    ensures
        ({
            let s = dvx * ex + dvy * ey;
            let den = (ex * ex + ey * ey) * reach;
            -(3 * top) <= trunc_div(2 * s * w * ex, den) <= 3 * top
        }),
{
    let s: int = dvx * ex + dvy * ey;
    let q: int = ex * ex + ey * ey;
    let den: int = q * reach;
    let p: int = if ex < 0 { -ex } else { ex };
    let r: int = if ey < 0 { -ey } else { ey };
    assert(q == p * p + r * r && q >= 1 && 2 * (p * r) <= q) by (nonlinear_arith)
        requires
            q == ex * ex + ey * ey,
            p == ex || p == -ex,
            r == ey || r == -ey,
            ex != 0 || ey != 0,
    ;
    assert(-(top * p) <= dvx * ex <= top * p) by (nonlinear_arith)
        requires
            -top <= dvx <= top,
            (p == ex || p == -ex) && 0 <= p,
    ;
    assert(-(top * r) <= dvy * ey <= top * r) by (nonlinear_arith)
        requires
            -top <= dvy <= top,
            (r == ey || r == -ey) && 0 <= r,
    ;
    let span: int = top * p + top * r;
    assert(-span <= s <= span);
    assert(0 <= span) by (nonlinear_arith)
        requires
            span == top * p + top * r,
            0 <= top,
            0 <= p,
            0 <= r,
    ;
    let t: int = s * ex;
    assert(-(span * p) <= t <= span * p) by (nonlinear_arith)
        requires
            t == s * ex,
            -span <= s <= span,
            (p == ex || p == -ex) && 0 <= p,
    ;
    assert(2 * (span * p) <= 3 * (top * q)) by (nonlinear_arith)
        requires
            span == top * p + top * r,
            q == p * p + r * r,
            2 * (p * r) <= q,
            0 <= top,
    ;
    let tq: int = top * q;
    assert(0 <= tq) by (nonlinear_arith)
        requires
            tq == top * q,
            0 <= top,
            1 <= q,
    ;
    let n: int = 2 * s * w * ex;
    assert(n == (2 * t) * w) by (nonlinear_arith)
        requires
            n == 2 * s * w * ex,
            t == s * ex,
    ;
    assert(-(3 * tq * reach) <= (2 * t) * w <= 3 * tq * reach) by (nonlinear_arith)
        requires
            -(3 * tq) <= 2 * t <= 3 * tq,
            0 < w <= reach,
            0 <= tq,
    ;
    assert(3 * tq * reach == (3 * top) * den) by (nonlinear_arith)
        requires
            tq == top * q,
            den == q * reach,
    ;
    assert(0 < den) by (nonlinear_arith)
        requires
            den == q * reach,
            1 <= q,
            0 < reach,
    ;
    lemma_trunc_div_within(n, den, 3 * top);
}

/// Bodies that are no faster than a seventh of the largest speed keep
/// their velocities in range when they collide, so that the laws of
/// this file hold of them.
pub proof fn lemma_unhurried_rebound_in_range(a: Body, b: Body)
    requires
        a.valid(),
        b.valid(),
        unhurried(a, b),
    ensures
        rebound_in_range(a, b),
{
    let e = contact_axis(a, b);
    let dv = a.velocity.minus(b.velocity);
    let top: int = 2 * (MAX_SPEED / 7);
    let reach: int = a.radius + b.radius;
    assert(e.x != 0 || e.y != 0);
    lemma_kick_bounded(dv.x, dv.y, e.x, e.y, b.radius, reach, top);
    lemma_kick_bounded(dv.x, dv.y, e.x, e.y, a.radius, reach, top);
    lemma_kick_bounded(dv.y, dv.x, e.y, e.x, b.radius, reach, top);
    lemma_kick_bounded(dv.y, dv.x, e.y, e.x, a.radius, reach, top);
    assert(dv.y * e.y + dv.x * e.x == dv.x * e.x + dv.y * e.y);
    assert(e.y * e.y + e.x * e.x == e.x * e.x + e.y * e.y);
}

} // verus!
