//! Rounded-down division and linear interpolation on integers.
use vstd::prelude::*;
use vstd::arithmetic::div_mod::{lemma_fundamental_div_mod, lemma_fundamental_div_mod_converse, lemma_mod_bound};

verus! {

/// The absolute value of `v`.
pub open spec fn abs(v: int) -> int {
    if v < 0 { -v } else { v }
}

/// The quotient by a positive divisor is the multiple of it next below.
pub proof fn lemma_floor_bounds(x: int, d: int)
    requires
        d > 0,
    ensures
        (x / d) * d <= x < (x / d) * d + d,
{
    lemma_fundamental_div_mod(x, d);
    lemma_mod_bound(x, d);
    assert(d * (x / d) == (x / d) * d) by (nonlinear_arith);
}

/// A number whose multiple lies next below `x` is the quotient.
pub proof fn lemma_floor_unique(x: int, d: int, q: int)
    requires
        d > 0,
        q * d <= x < q * d + d,
    ensures
        x / d == q,
{
    lemma_fundamental_div_mod_converse(x, d, q, x - q * d);
}

/// Division by a positive divisor keeps the order.
pub proof fn lemma_floor_ordered(x: int, y: int, d: int)
    requires
        d > 0,
        x <= y,
    ensures
        x / d <= y / d,
{
    lemma_floor_bounds(x, d);
    lemma_floor_bounds(y, d);
    let a = x / d;
    let b = y / d;
    assert(a <= b) by (nonlinear_arith)
        requires
            d > 0,
            a * d <= x,
            x <= y,
            y < b * d + d,
    ;
}

/// `k * d <= x` holds exactly when `k` is at most the quotient.
pub proof fn lemma_floor_at_least(x: int, d: int, k: int)
    requires
        d > 0,
    ensures
        k <= x / d <==> k * d <= x,
{
    lemma_floor_bounds(x, d);
    let q = x / d;
    assert(k <= q ==> k * d <= q * d) by (nonlinear_arith)
        requires
            d > 0,
    ;
    assert(k > q ==> k * d >= q * d + d) by (nonlinear_arith)
        requires
            d > 0,
    ;
}

/// Division that rounds towards minus infinity.
pub fn floor_div(a: i128, b: i128) -> (q: i128)
    requires
        b > 0,
    ensures
        q == a / b,
{
    if a >= 0 {
        a / b
    } else {
        let m: i128 = -(a + 1);
        let t: i128 = m / b;
        proof {
            lemma_fundamental_div_mod(m as int, b as int);
            lemma_mod_bound(m as int, b as int);
            let r = (m as int) % (b as int);
            assert(b * t == t * b) by (nonlinear_arith);
            assert((-t - 1) * b == -(t * b) - b) by (nonlinear_arith);
            assert(0 <= t) by {
                lemma_floor_ordered(0, m as int, b as int);
            }
            assert(t <= m) by (nonlinear_arith)
                requires
                    m == t * b + r,
                    r >= 0,
                    b >= 1,
                    t >= 0,
            ;
            lemma_floor_unique(a as int, b as int, -t - 1);
        }
        -t - 1
    }
}

/// The second coordinate of the point of the segment from `(a0, b0)` to
/// `(a1, b1)` whose first coordinate is `a`, rounded down. Both directions of
/// one segment give the same value.
pub open spec fn interpolate(a0: int, b0: int, a1: int, b1: int, a: int) -> int {
    b0 + ((b1 - b0) * abs(a - a0)) / abs(a1 - a0)
}

/// The interpolated value lies between the two ends.
pub proof fn lemma_interpolate_between(a0: int, b0: int, a1: int, b1: int, a: int)
    requires
        a0 != a1,
        a0 <= a <= a1 || a1 <= a <= a0,
    ensures
        b0 <= interpolate(a0, b0, a1, b1, a) <= b1 || b1 <= interpolate(a0, b0, a1, b1, a) <= b0,
        a == a0 ==> interpolate(a0, b0, a1, b1, a) == b0,
        a == a1 ==> interpolate(a0, b0, a1, b1, a) == b1,
{
    let n = abs(a - a0);
    let d = abs(a1 - a0);
    let h = b1 - b0;
    let v = h * n;
    assert(0 <= n <= d);
    if h >= 0 {
        assert(0 <= v <= h * d) by (nonlinear_arith)
            requires
                v == h * n,
                0 <= n <= d,
                h >= 0,
        ;
        lemma_floor_ordered(0, v, d);
        lemma_floor_ordered(v, h * d, d);
    } else {
        assert(h * d <= v <= 0) by (nonlinear_arith)
            requires
                v == h * n,
                0 <= n <= d,
                h < 0,
        ;
        lemma_floor_ordered(v, 0, d);
        lemma_floor_ordered(h * d, v, d);
    }
    lemma_floor_unique(h * d, d, h);
    lemma_floor_unique(0, d, 0);
    if a == a0 {
        assert(v == 0) by (nonlinear_arith)
            requires
                v == h * n,
                n == 0,
        ;
    }
    if a == a1 {
        assert(v == h * d);
    }
}

/// Both directions of one segment give the same interpolated value.
pub proof fn lemma_interpolate_symmetric(a0: int, b0: int, a1: int, b1: int, a: int)
    requires
        a0 != a1,
        a0 <= a <= a1 || a1 <= a <= a0,
    ensures
        interpolate(a0, b0, a1, b1, a) == interpolate(a1, b1, a0, b0, a),
{
    let d = abs(a1 - a0);
    let n = abs(a - a0);
    let h = b1 - b0;
    let q = (h * n) / d;
    assert(abs(a0 - a1) == d);
    assert(abs(a - a1) == d - n);
    assert((b0 - b1) * (d - n) == h * n - h * d) by (nonlinear_arith)
        requires
            h == b1 - b0,
    ;
    lemma_floor_bounds(h * n, d);
    assert((q - h) * d == q * d - h * d) by (nonlinear_arith);
    lemma_floor_unique(h * n - h * d, d, q - h);
}

/// Computes [`interpolate`] on machine integers.
pub fn interpolate_at(a0: i32, b0: i32, a1: i32, b1: i32, a: i32) -> (b: i32)
    requires
        a0 != a1,
        a0 <= a <= a1 || a1 <= a <= a0,
    ensures
        b == interpolate(a0 as int, b0 as int, a1 as int, b1 as int, a as int),
        b0 <= b <= b1 || b1 <= b <= b0,
{
    let n: i128 = if a >= a0 { a as i128 - a0 as i128 } else { a0 as i128 - a as i128 };
    let d: i128 = if a1 >= a0 { a1 as i128 - a0 as i128 } else { a0 as i128 - a1 as i128 };
    let h: i128 = b1 as i128 - b0 as i128;
    proof {
        lemma_interpolate_between(a0 as int, b0 as int, a1 as int, b1 as int, a as int);
        assert(-0x1_0000_0000_0000_0000 <= h * n <= 0x1_0000_0000_0000_0000) by (nonlinear_arith)
            requires
                -0x1_0000_0000 <= h <= 0x1_0000_0000,
                0 <= n <= 0x1_0000_0000,
        ;
    }
    let v: i128 = h * n;
    let q: i128 = floor_div(v, d);
    (b0 as i128 + q) as i32
}

/// The interpolated value reaches `bound` where the exact value does.
pub proof fn lemma_interpolate_at_least(a0: int, b0: int, a1: int, b1: int, a: int, bound: int)
    requires
        a0 != a1,
        (bound - b0) * abs(a1 - a0) <= (b1 - b0) * abs(a - a0),
    ensures
        bound <= interpolate(a0, b0, a1, b1, a),
{
    lemma_floor_at_least((b1 - b0) * abs(a - a0), abs(a1 - a0), bound - b0);
}

/// The interpolated value stays at or below `bound` where the exact value
/// does.
pub proof fn lemma_interpolate_at_most(a0: int, b0: int, a1: int, b1: int, a: int, bound: int)
    requires
        a0 != a1,
        (b1 - b0) * abs(a - a0) <= (bound - b0) * abs(a1 - a0),
    ensures
        interpolate(a0, b0, a1, b1, a) <= bound,
{
    let d = abs(a1 - a0);
    lemma_floor_ordered((b1 - b0) * abs(a - a0), (bound - b0) * d, d);
    lemma_floor_unique((bound - b0) * d, d, bound - b0);
}

} // verus!
