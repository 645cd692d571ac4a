//! Fixed-point scalars.
//!
//! Every quantity of the simulation is an integer. Lengths are counted in
//! ticks, `UNIT` of them to one arena unit; velocities in ticks per second,
//! accelerations in ticks per second squared, and time in microseconds.
//! Divisions round toward zero and results that leave the representable
//! range stop at its edge.

use vstd::prelude::*;

verus! {

/// Ticks in one arena unit.
pub const UNIT: i64 = 1024;

/// Largest magnitude of a position coordinate, in ticks.
pub const MAX_COORD: i64 = 1_099_511_627_776;

/// Largest magnitude of a velocity or acceleration component.
pub const MAX_SPEED: i64 = 4_294_967_296;

/// Largest radius of a body, in ticks.
pub const MAX_RADIUS: i64 = 536_870_912;

/// Microseconds in one second.
pub const MICROS_PER_SECOND: i64 = 1_000_000;

/// The length to which a collision normal is scaled before it is used:
/// two to the thirtieth, so that rounding its length to a whole number
/// costs less than a billionth of it.
pub const NORMAL_SCALE: i64 = 1_073_741_824;

/// `v` held inside `[-limit, limit]`.
pub open spec fn saturate(v: int, limit: int) -> int {
    if v < -limit {
        -limit
    } else if v > limit {
        limit
    } else {
        v
    }
}

/// The quotient of `a` by a positive `d`, rounded toward zero.
pub open spec fn trunc_div(a: int, d: int) -> int {
    if a >= 0 {
        a / d
    } else {
        -((-a) / d)
    }
}

/// Rounding toward zero never grows a number, nor changes its sign.
pub proof fn lemma_trunc_div_bounds(a: int, d: int)
    requires
        1 <= d,
    ensures
        a >= 0 ==> 0 <= trunc_div(a, d) <= a,
        a <= 0 ==> a <= trunc_div(a, d) <= 0,
{
    let n: int = if a >= 0 { a } else { -a };
    assert(0 <= n / d <= n) by (nonlinear_arith)
        requires
            0 <= n,
            1 <= d,
    ;
}

/// A quotient rounded toward zero is no larger than the bound that its
/// dividend keeps against the divisor.
pub proof fn lemma_trunc_div_within(n: int, den: int, bound: int)
    requires
        0 < den,
        0 <= bound,
        -(bound * den) <= n <= bound * den,
    ensures
        -bound <= trunc_div(n, den) <= bound,
{
    let k: int = trunc_div(n, den);
    lemma_trunc_div_remainder(n, den);
    if n >= 0 {
        assert(k <= bound) by (nonlinear_arith)
            requires
                0 <= n - den * k,
                n <= bound * den,
                0 < den,
        ;
        assert(0 <= k) by (nonlinear_arith)
            requires
                n - den * k < den,
                0 <= n,
                0 < den,
        ;
    } else {
        assert(-bound <= k) by (nonlinear_arith)
            requires
                n - den * k <= 0,
                -(bound * den) <= n,
                0 < den,
        ;
        assert(k <= 0) by (nonlinear_arith)
            requires
                -den < n - den * k,
                n < 0,
                0 < den,
        ;
    }
}

/// What rounding toward zero leaves over is smaller than the divisor and
/// has the sign of the dividend.
pub proof fn lemma_trunc_div_remainder(a: int, d: int)
    requires
        1 <= d,
    ensures
        a >= 0 ==> 0 <= a - d * trunc_div(a, d) < d,
        a <= 0 ==> -d < a - d * trunc_div(a, d) <= 0,
{
    let n: int = if a >= 0 { a } else { -a };
    vstd::arithmetic::div_mod::lemma_fundamental_div_mod(n, d);
    vstd::arithmetic::div_mod::lemma_mod_pos_bound(n, d);
    if a < 0 {
        assert(d * (-(n / d)) == -(d * (n / d))) by (nonlinear_arith);
    }
}

/// Where a quantity `n / den` is shared out to two parties in proportion
/// to the weights `wb` and `wa` and each share is rounded toward zero,
/// the shares weighted crosswise differ by less than the larger weight.
pub proof fn lemma_shares_balance(n: int, wa: int, wb: int, den: int)
    requires
        0 < wa,
        0 < wb,
        0 < den,
    ensures
        ({
            let ka = trunc_div(n * wb, den);
            let kb = trunc_div(n * wa, den);
            let top = if wa < wb { wb } else { wa };
            -top < wa * ka - wb * kb < top
        }),
{
    let a: int = n * wb;
    let b: int = n * wa;
    let ka: int = trunc_div(a, den);
    let kb: int = trunc_div(b, den);
    let ra: int = a - den * ka;
    let rb: int = b - den * kb;
    let x: int = wa * ka - wb * kb;
    lemma_trunc_div_remainder(a, den);
    lemma_trunc_div_remainder(b, den);
    assert(wa * a == wb * b) by (nonlinear_arith)
        requires
            a == n * wb,
            b == n * wa,
    ;
    assert(den * x == wb * rb - wa * ra) by (nonlinear_arith)
        requires
            x == wa * ka - wb * kb,
            ra == a - den * ka,
            rb == b - den * kb,
            wa * a == wb * b,
    ;
    if n >= 0 {
        assert(a >= 0 && b >= 0) by (nonlinear_arith)
            requires
                a == n * wb,
                b == n * wa,
                n >= 0,
                wa > 0,
                wb > 0,
        ;
        assert(-wa < x < wb) by (nonlinear_arith)
            requires
                den * x == wb * rb - wa * ra,
                0 <= ra < den,
                0 <= rb < den,
                0 < wa,
                0 < wb,
                0 < den,
        ;
    } else {
        assert(a <= 0 && b <= 0) by (nonlinear_arith)
            requires
                a == n * wb,
                b == n * wa,
                n < 0,
                wa > 0,
                wb > 0,
        ;
        assert(-wb < x < wa) by (nonlinear_arith)
            requires
                den * x == wb * rb - wa * ra,
                -den < ra <= 0,
                -den < rb <= 0,
                0 < wa,
                0 < wb,
                0 < den,
        ;
    }
}

/// Where a quantity `n / q` is shared out to two parties in proportion to
/// the weights `wa` and `wb` and each share is rounded toward zero, the
/// shares together fall short of the whole by less than two, on the side
/// of zero.
pub proof fn lemma_shares_total(n: int, wa: int, wb: int, q: int)
    requires
        0 < wa,
        0 < wb,
        0 < q,
    ensures
        ({
            let den = q * (wa + wb);
            let total = trunc_div(n * wb, den) + trunc_div(n * wa, den);
            &&& n >= 0 ==> 0 <= n - q * total < 2 * q
            &&& n <= 0 ==> -2 * q < n - q * total <= 0
        }),
{
    let den: int = q * (wa + wb);
    assert(0 < den) by (nonlinear_arith)
        requires
            den == q * (wa + wb),
            0 < q,
            0 < wa,
            0 < wb,
    ;
    let a: int = n * wb;
    let b: int = n * wa;
    let ka: int = trunc_div(a, den);
    let kb: int = trunc_div(b, den);
    let ra: int = a - den * ka;
    let rb: int = b - den * kb;
    let total: int = ka + kb;
    let rest: int = n - q * total;
    lemma_trunc_div_remainder(a, den);
    lemma_trunc_div_remainder(b, den);
    assert((wa + wb) * rest == ra + rb) by (nonlinear_arith)
        requires
            rest == n - q * total,
            total == ka + kb,
            ra == a - den * ka,
            rb == b - den * kb,
            a == n * wb,
            b == n * wa,
            den == q * (wa + wb),
    ;
    if n >= 0 {
        assert(a >= 0 && b >= 0) by (nonlinear_arith)
            requires
                a == n * wb,
                b == n * wa,
                n >= 0,
                wa > 0,
                wb > 0,
        ;
        assert(0 <= rest < 2 * q) by (nonlinear_arith)
            requires
                (wa + wb) * rest == ra + rb,
                0 <= ra < den,
                0 <= rb < den,
                den == q * (wa + wb),
                0 < wa,
                0 < wb,
                0 < q,
        ;
    }
    if n <= 0 {
        assert(a <= 0 && b <= 0) by (nonlinear_arith)
            requires
                a == n * wb,
                b == n * wa,
                n <= 0,
                wa > 0,
                wb > 0,
        ;
        assert(-2 * q < rest <= 0) by (nonlinear_arith)
            requires
                (wa + wb) * rest == ra + rb,
                -den < ra <= 0,
                -den < rb <= 0,
                den == q * (wa + wb),
                0 < wa,
                0 < wb,
                0 < q,
        ;
    }
}

/// Squaring keeps the order of natural numbers.
pub proof fn lemma_square_monotone(x: int, y: int)
    requires
        0 <= x <= y,
    ensures
        x * x <= y * y,
{
    assert(x * x <= y * y) by (nonlinear_arith)
        requires
            0 <= x <= y,
    ;
}

/// Natural numbers stand in the order of their squares.
pub proof fn lemma_square_order(x: int, y: int)
    requires
        0 <= x,
        0 <= y,
        x * x <= y * y,
    ensures
        x <= y,
{
    if y < x {
        assert(y * y < x * x) by (nonlinear_arith)
            requires
                0 <= y < x,
        ;
    }
}

/// `r` is the least natural number whose square reaches `x`.
pub open spec fn is_ceil_sqrt(x: int, r: int) -> bool {
    &&& 0 <= r
    &&& x <= r * r
    &&& r > 0 ==> (r - 1) * (r - 1) < x
}

/// The square root of `x`, rounded up.
pub open spec fn ceil_sqrt(x: int) -> int {
    choose|r: int| is_ceil_sqrt(x, r)
}

/// At most one number is the rounded-up square root of `x`.
pub proof fn lemma_ceil_sqrt_unique(x: int, r1: int, r2: int)
    requires
        is_ceil_sqrt(x, r1),
        is_ceil_sqrt(x, r2),
    ensures
        r1 == r2,
{
    if r1 < r2 {
        assert(r1 * r1 <= (r2 - 1) * (r2 - 1)) by (nonlinear_arith)
            requires
                0 <= r1 <= r2 - 1,
        ;
    } else if r2 < r1 {
        assert(r2 * r2 <= (r1 - 1) * (r1 - 1)) by (nonlinear_arith)
            requires
                0 <= r2 <= r1 - 1,
        ;
    }
}

/// Every natural number has a rounded-up square root.
pub proof fn lemma_ceil_sqrt_exists(x: int)
    requires
        0 <= x,
    ensures
        is_ceil_sqrt(x, ceil_sqrt(x)),
    decreases x,
{
    if x == 0 {
        assert(is_ceil_sqrt(0, 0));
    } else {
        lemma_ceil_sqrt_exists(x - 1);
        let r: int = ceil_sqrt(x - 1);
        if x <= r * r {
            assert(is_ceil_sqrt(x, r));
        } else {
            assert((r + 1) * (r + 1) == r * r + 2 * r + 1) by (nonlinear_arith);
            assert(is_ceil_sqrt(x, r + 1));
        }
    }
}

/// A number that meets the definition is the rounded-up square root.
pub proof fn lemma_ceil_sqrt_is(x: int, r: int)
    requires
        is_ceil_sqrt(x, r),
    ensures
        ceil_sqrt(x) == r,
{
    lemma_ceil_sqrt_unique(x, r, ceil_sqrt(x));
}

/// The rounded-up root is at most `bound` exactly when `x` is at most
/// `bound` squared.
pub proof fn lemma_ceil_sqrt_le(x: int, bound: int)
    requires
        0 <= x,
        0 <= bound,
    ensures
        ceil_sqrt(x) <= bound <==> x <= bound * bound,
{
    lemma_ceil_sqrt_exists(x);
    let r: int = ceil_sqrt(x);
    if r <= bound {
        assert(r * r <= bound * bound) by (nonlinear_arith)
            requires
                0 <= r <= bound,
        ;
    } else {
        assert(bound * bound <= (r - 1) * (r - 1)) by (nonlinear_arith)
            requires
                0 <= bound <= r - 1,
        ;
    }
}

/// Computes the square root of `x`, rounded up, by bisection.
pub fn isqrt_ceil(x: u128) -> (r: u128)
    ensures
        r == ceil_sqrt(x as int),
        r <= 0x1_0000_0000_0000_0000,
{
    let mut lo: u128 = 0;
    let mut hi: u128 = 0x1_0000_0000_0000_0000;
    assert(x <= hi * hi) by (nonlinear_arith)
        requires
            hi == 0x1_0000_0000_0000_0000,
            x <= u128::MAX,
    ;
    while lo < hi
        invariant
            lo <= hi <= 0x1_0000_0000_0000_0000,
            x <= hi * hi,
            lo > 0 ==> (lo - 1) * (lo - 1) < x,
        decreases hi - lo,
    {
        let mid: u128 = lo + (hi - lo) / 2;
        assert(mid * mid <= 0xffff_ffff_ffff_ffff * 0xffff_ffff_ffff_ffff) by (nonlinear_arith)
            requires
                0 <= mid <= 0xffff_ffff_ffff_ffff,
        ;
        if mid * mid >= x {
            hi = mid;
        } else {
            lo = mid + 1;
        }
    }
    proof {
        lemma_ceil_sqrt_is(x as int, lo as int);
    }
    lo
}

/// Brings a wide intermediate result back into `[-limit, limit]`.
pub(crate) fn saturating(v: i128, limit: i64) -> (r: i64)
    requires
        0 <= limit,
    ensures
        r == saturate(v as int, limit as int),
{
    if v < -(limit as i128) {
        -limit
    } else if v > limit as i128 {
        limit
    } else {
        v as i64
    }
}

} // verus!
