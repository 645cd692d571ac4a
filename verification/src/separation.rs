//! How far apart the positional correction leaves a colliding pair.
//!
//! Each body is moved by half the depth of the overlap along the line of
//! centres, in whole ticks. The law at the end of this file says what
//! that comes to: the two are left touching, or overlapping by a few
//! ticks at most.

use vstd::arithmetic::mul::{
    lemma_mul_inequality, lemma_mul_inequality_converse, lemma_mul_is_distributive_add,
    lemma_mul_is_distributive_add_other_way, lemma_mul_nonnegative,
};
use vstd::prelude::*;
use crate::body::Body;
use crate::contact::{collides, contact_axis, correction, dist_sq, outer_distance, rebound};
use crate::fixed::{
    ceil_sqrt, lemma_ceil_sqrt_exists, lemma_ceil_sqrt_is, lemma_ceil_sqrt_le,
    lemma_square_monotone, lemma_square_order, lemma_trunc_div_bounds, lemma_trunc_div_remainder,
    lemma_trunc_div_within, trunc_div, MAX_COORD, MAX_RADIUS, NORMAL_SCALE,
};

verus! {

/// Factors of a product may change places.
proof fn lemma_mul_swap(a: int, b: int, c: int)
    ensures
        a * (b * c) == b * (a * c),
{
    assert(a * (b * c) == b * (a * c)) by (nonlinear_arith);
}

/// The product of two products, regrouped.
proof fn lemma_mul_pairs(a: int, b: int, c: int, d: int)
    ensures
        (a * b) * (c * d) == (a * c) * (b * d),
{
    let cd: int = c * d;
    let bd: int = b * d;
    assert((a * b) * cd == a * (b * cd)) by (nonlinear_arith);
    lemma_mul_swap(b, c, d);
    assert(a * (c * bd) == (a * c) * bd) by (nonlinear_arith);
}

/// The square of a sum.
proof fn lemma_binomial(x: int, y: int)
    ensures
        (x + y) * (x + y) == x * x + 2 * (x * y) + y * y,
{
    assert((x + y) * (x + y) == x * x + 2 * (x * y) + y * y) by (nonlinear_arith);
}

/// The squared length `q * m * m` of a vector of squared length `q`
/// stretched by `m = len + g * scale`, by the powers of `g`.
proof fn lemma_stretch_expand(q: int, len: int, scale: int, g: int)
    ensures
        q * ((len + g * scale) * (len + g * scale)) == q * (len * len) + 2 * ((g * len) * (q
            * scale)) + (g * g) * (q * scale * scale),
{
    let p: int = g * scale;
    let m: int = len + p;
    let u: int = q * scale;
    lemma_binomial(len, p);
    let a: int = len * len;
    let b: int = len * p;
    let c: int = p * p;
    assert(q * (a + 2 * b + c) == q * a + 2 * (q * b) + q * c) by (nonlinear_arith);
    // q * (len * p) == (g * len) * u
    lemma_mul_swap(len, g, scale);
    assert(g * (len * scale) == (g * len) * scale) by (nonlinear_arith);
    lemma_mul_swap(q, g * len, scale);
    // q * (p * p) == (g * g) * (u * scale)
    lemma_mul_pairs(g, scale, g, scale);
    assert(u * scale == q * (scale * scale)) by (nonlinear_arith)
        requires
            u == q * scale,
    ;
    lemma_mul_swap(q, g * g, scale * scale);
}

/// A vector of squared length `q`, stretched from a length of about `d`
/// by a further `g`, is no longer than `d + g`. Here `d` is no less than
/// the root of `q`, and `len` no less than `scale` times that root.
proof fn lemma_stretch_upper(q: int, d: int, len: int, scale: int, g: int)
    requires
        0 <= q,
        0 <= d,
        0 <= len,
        0 <= scale,
        0 <= g,
        q <= d * d,
        q * scale * scale <= len * len,
    ensures
        q * ((len + g * scale) * (len + g * scale)) <= ((d + g) * len) * ((d + g) * len),
{
    let u: int = q * scale;
    let w: int = q * scale * scale;
    let v: int = d * len;
    let h: int = g * len;
    let ll: int = len * len;
    lemma_stretch_expand(q, len, scale, g);
    lemma_mul_nonnegative(len, len);
    lemma_mul_nonnegative(q, scale);
    lemma_mul_nonnegative(d, len);
    lemma_mul_nonnegative(g, len);
    lemma_mul_nonnegative(g, g);
    // u <= v, by their squares
    lemma_mul_swap(u, q, scale);
    assert(u * u == q * w);
    lemma_mul_inequality(w, ll, q);
    lemma_mul_inequality(q, d * d, ll);
    lemma_mul_pairs(d, d, len, len);
    assert(q * w == w * q && q * ll == ll * q) by (nonlinear_arith);
    assert((d * d) * ll == v * v);
    lemma_square_order(u, v);
    // term by term
    lemma_mul_inequality(u, v, h);
    assert(h * u == u * h && h * v == v * h) by (nonlinear_arith);
    lemma_mul_inequality(w, ll, g * g);
    assert((g * g) * w == w * (g * g) && (g * g) * ll == ll * (g * g)) by (nonlinear_arith);
    // the square of (d + g) * len
    lemma_mul_is_distributive_add_other_way(len, d, g);
    lemma_binomial(v, h);
    lemma_mul_pairs(g, g, len, len);
    assert((g * g) * ll == h * h);
}

/// A vector of squared length `q`, stretched from a length of about `d`
/// by a further `g`, is longer than `d + g - 2`. Here `d` is less than
/// one above the root of `q`, `len` less than one above `scale` times
/// that root, and `g` no more than `len`.
proof fn lemma_stretch_lower(q: int, d: int, len: int, scale: int, g: int)
    requires
        0 <= q,
        1 <= d,
        1 <= len,
        0 <= scale,
        0 <= g <= len,
        (d - 1) * (d - 1) <= q,
        (len - 1) * (len - 1) <= q * scale * scale,
        2 <= d + g,
    ensures
        ((d + g - 2) * len) * ((d + g - 2) * len) <= q * ((len + g * scale) * (len + g * scale)),
{
    let u: int = q * scale;
    let w: int = q * scale * scale;
    let d1: int = d - 1;
    let l1: int = len - 1;
    let v: int = d1 * l1;
    let h: int = g * len;
    let ll: int = len * len;
    let l1l1: int = l1 * l1;
    lemma_stretch_expand(q, len, scale, g);
    lemma_mul_nonnegative(len, len);
    lemma_mul_nonnegative(l1, l1);
    lemma_mul_nonnegative(d1, d1);
    lemma_mul_nonnegative(q, scale);
    lemma_mul_nonnegative(d1, l1);
    lemma_mul_nonnegative(g, len);
    lemma_mul_nonnegative(g, g);
    // v <= u, by their squares
    lemma_mul_swap(u, q, scale);
    assert(u * u == q * w);
    lemma_mul_pairs(d1, l1, d1, l1);
    assert(v * v == (d1 * d1) * l1l1);
    lemma_mul_inequality(d1 * d1, q, l1l1);
    lemma_mul_inequality(l1l1, w, q);
    assert(q * l1l1 == l1l1 * q && q * w == w * q) by (nonlinear_arith);
    lemma_square_order(v, u);
    // term by term
    lemma_mul_inequality(d1 * d1, q, ll);
    lemma_mul_inequality(v, u, h);
    assert(h * u == u * h && h * v == v * h) by (nonlinear_arith);
    lemma_mul_inequality(l1l1, w, g * g);
    assert((g * g) * w == w * (g * g) && (g * g) * l1l1 == l1l1 * (g * g)) by (nonlinear_arith);
    // the square of d1 * len + g * l1
    let x: int = d1 * len;
    let y: int = g * l1;
    let low: int = x + y;
    lemma_binomial(x, y);
    lemma_mul_pairs(d1, len, d1, len);
    assert(x * x == (d1 * d1) * ll);
    lemma_mul_pairs(g, l1, g, l1);
    assert(y * y == (g * g) * l1l1);
    lemma_mul_pairs(d1, len, g, l1);
    lemma_mul_pairs(g, len, d1, l1);
    assert(d1 * g == g * d1 && len * l1 == l1 * len) by (nonlinear_arith);
    assert(x * y == h * v);
    assert(low * low <= q * ((len + g * scale) * (len + g * scale)));
    // (d + g - 2) * len <= low
    lemma_mul_is_distributive_add_other_way(len, d1, g - 1);
    lemma_mul_is_distributive_add(g, l1, 1);
    lemma_mul_is_distributive_add_other_way(len, g - 1, 1);
    assert((d + g - 2) * len == x + (g - 1) * len);
    assert((g - 1) * len + len == h);
    assert(y + g == h);
    lemma_mul_nonnegative(d + g - 2, len);
    lemma_square_monotone((d + g - 2) * len, low);
}

/// A vector no longer than `t` whose components each grow by two grows
/// by less than three.
proof fn lemma_grow_by_two(x: int, y: int, t: int)
    requires
        0 <= x,
        0 <= y,
        0 <= t,
        x * x + y * y <= t * t,
    ensures
        (x + 2) * (x + 2) + (y + 2) * (y + 2) <= (t + 3) * (t + 3),
{
    let s: int = 2 * (x + y);
    assert(s * s <= 8 * (x * x + y * y)) by (nonlinear_arith)
        requires
            s == 2 * (x + y),
    ;
    assert(8 * (t * t) <= (3 * t) * (3 * t)) by (nonlinear_arith);
    lemma_square_order(s, 3 * t);
    lemma_binomial(x, 2);
    lemma_binomial(y, 2);
    lemma_binomial(t, 3);
}

/// One component of the line of centres after the correction: it has
/// grown, by what the stretch of the whole line by `-gap` comes to, less
/// the rounding of the push on either body.
proof fn lemma_pushed_offset(gap: int, e: int, scale: int, len: int)
    requires
        gap <= 0,
        0 < len,
        0 <= scale,
    ensures
        ({
            let shift = trunc_div(gap * e * scale, 2 * len);
            let moved = e - 2 * shift;
            let size = if e < 0 { -e } else { e };
            let grown = if moved < 0 { -moved } else { moved };
            let m = len + (-gap) * scale;
            &&& moved * moved == grown * grown
            &&& e * e == size * size
            &&& 0 <= grown * len <= size * m
            &&& 0 <= size * m <= (grown + 2) * len
        }),
{
    let n: int = gap * e * scale;
    let shift: int = trunc_div(n, 2 * len);
    let moved: int = e - 2 * shift;
    let size: int = if e < 0 { -e } else { e };
    let grown: int = if moved < 0 { -moved } else { moved };
    let gs: int = (-gap) * scale;
    let m: int = len + gs;
    let r: int = n - (2 * len) * shift;
    lemma_trunc_div_remainder(n, 2 * len);
    lemma_trunc_div_bounds(n, 2 * len);
    lemma_mul_nonnegative(-gap, scale);
    lemma_mul_nonnegative(size, m);
    assert(n == -(e * gs)) by (nonlinear_arith)
        requires
            n == gap * e * scale,
            gs == (-gap) * scale,
    ;
    lemma_mul_nonnegative(size, gs);
    assert(moved * moved == grown * grown) by (nonlinear_arith)
        requires
            grown == moved || grown == -moved,
    ;
    assert(e * e == size * size) by (nonlinear_arith)
        requires
            size == e || size == -e,
    ;
    if e >= 0 {
        assert(n <= 0);
        assert(grown * len == size * m + r) by (nonlinear_arith)
            requires
                grown == e - 2 * shift,
                size == e,
                m == len + gs,
                n == -(e * gs),
                r == n - (2 * len) * shift,
        ;
    } else {
        assert(e * gs == -(size * gs)) by (nonlinear_arith)
            requires
                size == -e,
        ;
        assert(n >= 0);
        assert(grown * len == size * m - r) by (nonlinear_arith)
            requires
                grown == -e + 2 * shift,
                size == -e,
                m == len + gs,
                n == -(e * gs),
                r == n - (2 * len) * shift,
        ;
    }
    lemma_mul_is_distributive_add_other_way(len, grown, 2);
    lemma_mul_nonnegative(grown, len);
}

/// The square of a natural number has that number for its root.
proof fn lemma_ceil_sqrt_of_square(x: int)
    requires
        0 <= x,
    ensures
        ceil_sqrt(x * x) == x,
{
    if x > 0 {
        assert((x - 1) * (x - 1) < x * x) by (nonlinear_arith)
            requires
                0 < x,
        ;
    }
    lemma_ceil_sqrt_is(x * x, x);
}

/// Neither position leaves the representable range in the correction.
pub open spec fn correction_in_range(a: Body, b: Body) -> bool {
    &&& a.pos.minus(correction(a, b)).within(MAX_COORD as int)
    &&& b.pos.plus(correction(a, b)).within(MAX_COORD as int)
}

/// The correction moves neither body of a colliding pair by more than
/// half the sum of the radii, rounded up, on either axis.
pub proof fn lemma_correction_bounded(a: Body, b: Body)
    requires
        a.valid(),
        b.valid(),
        collides(a, b),
    ensures
        correction(a, b).within((a.radius + b.radius + 1) / 2),
{
    let e = contact_axis(a, b);
    let q: int = e.dot(e);
    let scale: int = NORMAL_SCALE as int;
    assert(scale == 0x4000_0000);
    let reach: int = a.radius + b.radius;
    let gap: int = outer_distance(a, b);
    let off = a.pos.minus(b.pos);
    assert(0 <= off.x * off.x) by (nonlinear_arith);
    assert(0 <= off.y * off.y) by (nonlinear_arith);
    lemma_ceil_sqrt_exists(dist_sq(a, b));
    let g: int = -gap;
    assert(0 <= g <= reach);
    let bound: int = (reach + 1) / 2;
    assert(0 <= e.x * e.x) by (nonlinear_arith);
    assert(0 <= e.y * e.y) by (nonlinear_arith);
    assert(e.x != 0 || e.y != 0);
    assert(q >= 1) by (nonlinear_arith)
        requires
            q == e.x * e.x + e.y * e.y,
            e.x != 0 || e.y != 0,
    ;
    let len: int = ceil_sqrt(q * scale * scale);
    lemma_ceil_sqrt_exists(q * scale * scale);
    assert(len >= 1) by (nonlinear_arith)
        requires
            1 <= q * scale * scale <= len * len,
            0 <= len,
    ;
    lemma_component_bounded(gap, e.x, e.y * e.y, scale, len, bound);
    lemma_component_bounded(gap, e.y, e.x * e.x, scale, len, bound);
}

/// One component of the correction is no larger than half the depth of
/// the overlap, rounded up.
proof fn lemma_component_bounded(gap: int, e: int, rest: int, scale: int, len: int, bound: int)
    requires
        gap <= 0,
        0 <= rest,
        0 <= scale,
        1 <= len,
        (e * e + rest) * scale * scale <= len * len,
        -gap <= 2 * bound,
    ensures
        -bound <= trunc_div(gap * e * scale, 2 * len) <= bound,
{
    let size: int = if e < 0 { -e } else { e };
    let x: int = size * scale;
    lemma_mul_nonnegative(size, scale);
    assert(x * x <= (e * e + rest) * scale * scale) by (nonlinear_arith)
        requires
            x == size * scale,
            size == e || size == -e,
            0 <= rest,
    ;
    lemma_square_order(x, len);
    let n: int = gap * e * scale;
    let g: int = -gap;
    assert(n == -(g * (e * scale)) && (e * scale == x || e * scale == -x)) by (nonlinear_arith)
        requires
            n == gap * e * scale,
            g == -gap,
            x == size * scale,
            size == e || size == -e,
    ;
    assert(0 <= g * x <= (2 * bound) * len) by (nonlinear_arith)
        requires
            0 <= g <= 2 * bound,
            0 <= x <= len,
    ;
    assert(-(g * x) <= n <= g * x) by (nonlinear_arith)
        requires
            n == -(g * (e * scale)),
            e * scale == x || e * scale == -x,
            0 <= g,
            0 <= x,
    ;
    assert((2 * bound) * len == bound * (2 * len)) by (nonlinear_arith);
    lemma_trunc_div_within(n, 2 * len, bound);
}

/// Bodies that collide a radius or more away from the edge of the
/// representable plane stay within it when they are pushed apart.
pub proof fn lemma_correction_in_range(a: Body, b: Body)
    requires
        a.valid(),
        b.valid(),
        collides(a, b),
        a.pos.within(MAX_COORD - MAX_RADIUS),
        b.pos.within(MAX_COORD - MAX_RADIUS),
    ensures
        correction_in_range(a, b),
{
    lemma_correction_bounded(a, b);
}

/// The positional correction parts a colliding pair: once their
/// collision has been resolved, the two bodies touch, or overlap by no
/// more than five ticks, which the rounding of the two pushes to whole
/// ticks accounts for.
pub proof fn lemma_rebound_separates(a: Body, b: Body)
    requires
        a.valid(),
        b.valid(),
        collides(a, b),
        correction_in_range(a, b),
    ensures
        ({
            let (a2, b2) = rebound(a, b);
            -5 <= outer_distance(a2, b2) <= 0
        }),
{
    let e = contact_axis(a, b);
    let q: int = e.dot(e);
    let scale: int = NORMAL_SCALE as int;
    assert(scale == 0x4000_0000);
    let reach: int = a.radius + b.radius;
    let gap: int = outer_distance(a, b);
    let shift = correction(a, b);
    let (a2, b2) = rebound(a, b);
    assert(a2.pos == a.pos.minus(shift));
    assert(b2.pos == b.pos.plus(shift));
    let mx: int = a2.pos.x - b2.pos.x;
    let my: int = a2.pos.y - b2.pos.y;
    assert(dist_sq(a2, b2) == mx * mx + my * my);
    assert(e.x != 0 || e.y != 0);
    assert(q >= 1) by (nonlinear_arith)
        requires
            q == e.x * e.x + e.y * e.y,
            e.x != 0 || e.y != 0,
    ;
    let len: int = ceil_sqrt(q * scale * scale);
    lemma_ceil_sqrt_exists(q * scale * scale);
    assert(len >= 1) by (nonlinear_arith)
        requires
            1 <= q * scale * scale <= len * len,
            0 <= len,
    ;
    if a.pos == b.pos {
        assert(e.x == 1 && e.y == 0);
        assert(e.x * e.x + e.y * e.y == 1) by (nonlinear_arith)
            requires
                e.x == 1,
                e.y == 0,
        ;
        assert(q == 1);
        assert(q * scale * scale == scale * scale);
        lemma_ceil_sqrt_is(scale * scale, scale);
        assert(len == scale);
        lemma_ceil_sqrt_is(0, 0);
        let off = a.pos.minus(b.pos);
        assert(off.x == 0 && off.y == 0);
        assert(off.x * off.x + off.y * off.y == 0) by (nonlinear_arith)
            requires
                off.x == 0,
                off.y == 0,
        ;
        assert(dist_sq(a, b) == 0);
        assert(gap == -reach);
        let half: int = reach / 2;
        assert(gap * e.x == gap && gap * e.y == 0) by (nonlinear_arith)
            requires
                e.x == 1,
                e.y == 0,
        ;
        assert(gap * e.x * scale == -(reach * scale));
        assert(gap * e.y * scale == 0);
        let odd: int = reach % 2;
        vstd::arithmetic::div_mod::lemma_fundamental_div_mod_converse(
            reach * 0x4000_0000,
            0x8000_0000,
            half,
            odd * 0x4000_0000,
        );
        assert((reach * 0x4000_0000) / 0x8000_0000 == half);
        assert(trunc_div(-(reach * scale), 2 * len) == -half);
        assert(shift.x == -half);
        assert(shift.y == 0);
        assert(mx == 2 * half && my == 0);
        lemma_ceil_sqrt_of_square(2 * half);
    } else {
        assert(dist_sq(a, b) == q);
        let d: int = ceil_sqrt(q);
        lemma_ceil_sqrt_exists(q);
        let g: int = reach - d;
        assert(d >= 1) by (nonlinear_arith)
            requires
                1 <= q <= d * d,
                0 <= d,
        ;
        lemma_pushed_offset(gap, e.x, scale, len);
        lemma_pushed_offset(gap, e.y, scale, len);
        let gx: int = if mx < 0 { -mx } else { mx };
        let gy: int = if my < 0 { -my } else { my };
        let ax: int = if e.x < 0 { -e.x } else { e.x };
        let ay: int = if e.y < 0 { -e.y } else { e.y };
        let m: int = len + g * scale;
        let mm: int = m * m;
        let ll: int = len * len;
        let n2: int = gx * gx + gy * gy;
        assert(dist_sq(a2, b2) == n2);
        assert(q == ax * ax + ay * ay);
        lemma_mul_nonnegative(len, len);
        assert(ll >= 1) by (nonlinear_arith)
            requires
                ll == len * len,
                len >= 1,
        ;
        lemma_mul_nonnegative(gx, gx);
        lemma_mul_nonnegative(gy, gy);
        // no further apart than the reach
        lemma_square_monotone(gx * len, ax * m);
        lemma_square_monotone(gy * len, ay * m);
        lemma_mul_pairs(gx, len, gx, len);
        lemma_mul_pairs(gy, len, gy, len);
        lemma_mul_pairs(ax, m, ax, m);
        lemma_mul_pairs(ay, m, ay, m);
        lemma_mul_is_distributive_add_other_way(ll, gx * gx, gy * gy);
        lemma_mul_is_distributive_add_other_way(mm, ax * ax, ay * ay);
        assert(n2 * ll <= q * mm);
        lemma_stretch_upper(q, d, len, scale, g);
        lemma_mul_pairs(reach, len, reach, len);
        assert(n2 * ll <= (reach * reach) * ll);
        lemma_mul_inequality_converse(n2, reach * reach, ll);
        lemma_ceil_sqrt_le(n2, reach);
        // no nearer than five ticks short of it
        lemma_square_monotone(ax * m, (gx + 2) * len);
        lemma_square_monotone(ay * m, (gy + 2) * len);
        lemma_mul_pairs(gx + 2, len, gx + 2, len);
        lemma_mul_pairs(gy + 2, len, gy + 2, len);
        let wide: int = (gx + 2) * (gx + 2) + (gy + 2) * (gy + 2);
        lemma_mul_is_distributive_add_other_way(ll, (gx + 2) * (gx + 2), (gy + 2) * (gy + 2));
        assert(q * mm <= wide * ll);
        assert(scale * scale <= q * scale * scale);
        lemma_square_order(scale, len);
        lemma_stretch_lower(q, d, len, scale, g);
        lemma_mul_pairs(reach - 2, len, reach - 2, len);
        assert(((reach - 2) * (reach - 2)) * ll <= wide * ll);
        lemma_mul_inequality_converse((reach - 2) * (reach - 2), wide, ll);
        let t: int = ceil_sqrt(n2);
        lemma_ceil_sqrt_exists(n2);
        lemma_grow_by_two(gx, gy, t);
        lemma_square_order(reach - 2, t + 3);
    }
}

} // verus!
