//! Rounding to the single-precision binary format, on whole numbers.
//!
//! A number that is not negative is held as a count of a unit, and the unit
//! is a power of two. With 2^-149 as the unit, the smallest positive value
//! of the format, every finite value of the format is a whole count, and
//! `spacing` is the distance between neighbouring values of the format: one
//! unit below 2^24 units, where the subnormal values and the first binade
//! of the normal ones lie, and twice as much in each binade after that.
//! What is to be rounded is a quotient of two counts. A coarser unit gives
//! the same values as long as nothing finer than it arises:
//! `lemma_nearest_scale` says when.
use vstd::arithmetic::power2::{lemma2_to64, lemma_pow2_unfold, pow2};
use vstd::prelude::*;

verus! {

/// The distance between neighbouring values of the format at `t`: the power
/// of two that leaves `t` with at most 24 significant bits above it.
pub open spec fn spacing(t: int) -> int
    decreases t,
{
    if t < 0x100_0000 {
        1
    } else {
        2 * spacing(t / 2)
    }
}

/// The value of the format nearest to the quotient `n / d`, a tie going to
/// the neighbour with the even significand.
pub open spec fn nearest(n: int, d: int) -> int {
    let s = spacing(n / d);
    let q = n / (d * s);
    let r = n % (d * s);
    if 2 * r < d * s || (2 * r == d * s && q % 2 == 0) {
        q * s
    } else {
        (q + 1) * s
    }
}

/// What floor division and its remainder are, for a positive divisor.
pub proof fn lemma_quotient(n: int, d: int)
    by (nonlinear_arith)
    requires
        0 <= n,
        0 < d,
    ensures
        0 <= n / d,
        d * (n / d) <= n < d * (n / d) + d,
        n % d == n - d * (n / d),
        0 <= n % d < d,
{
}

/// A value of the format: a whole number of the spacing at its own size.
pub open spec fn is_value(x: int) -> bool {
    0 <= x && x % spacing(x) == 0
}

/// The spacing at `t` is positive and leaves `t` a significand below 2^24,
/// and of 24 bits wherever the spacing is more than one.
pub proof fn lemma_spacing_bounds(t: int)
    requires
        0 <= t,
    ensures
        1 <= spacing(t),
        t < spacing(t) * 0x100_0000,
        spacing(t) == 1 || spacing(t) * 0x80_0000 <= t,
    decreases t,
{
    if t >= 0x100_0000 {
        lemma_spacing_bounds(t / 2);
    }
}

/// Two numbers in the same binade have the same spacing.
pub proof fn lemma_spacing_same(t: int, u: int)
    requires
        0 <= t,
        0 <= u < spacing(t) * 0x100_0000,
        spacing(t) == 1 || spacing(t) * 0x80_0000 <= u,
    ensures
        spacing(u) == spacing(t),
    decreases t,
{
    if t >= 0x100_0000 {
        lemma_spacing_bounds(t / 2);
        lemma_spacing_same(t / 2, u / 2);
    }
}

/// The spacing of a number whose binade is known.
pub proof fn lemma_spacing_in_binade(t: int, j: nat)
    requires
        0x80_0000 * pow2(j) <= t < 0x100_0000 * pow2(j),
    ensures
        spacing(t) == pow2(j),
    decreases j,
{
    if j == 0 {
        lemma2_to64();
    } else {
        lemma_pow2_unfold(j);
        lemma_spacing_in_binade(t / 2, (j - 1) as nat);
    }
}

/// The spacing grows with the number, and a smaller spacing divides a
/// larger one.
pub proof fn lemma_spacing_monotone(a: int, b: int)
    requires
        0 <= a <= b,
    ensures
        spacing(a) <= spacing(b),
        spacing(b) == spacing(a) * (spacing(b) / spacing(a)),
        1 <= spacing(b) / spacing(a),
    decreases b,
{
    lemma_spacing_bounds(a);
    lemma_spacing_bounds(b);
    if a >= 0x100_0000 {
        lemma_spacing_monotone(a / 2, b / 2);
        lemma_spacing_bounds(a / 2);
        let sa = spacing(a / 2);
        let sb = spacing(b / 2);
        let m = sb / sa;
        assert(2 * sb == (2 * sa) * m) by (nonlinear_arith)
            requires
                sb == sa * m,
        ;
        assert((2 * sb) / (2 * sa) == m) by (nonlinear_arith)
            requires
                2 * sb == (2 * sa) * m,
                sa >= 1,
        ;
        assert(spacing(a) == 2 * sa);
        assert(spacing(b) == 2 * sb);
    } else {
        let sa = spacing(a);
        let sb = spacing(b);
        assert(sb / sa == sb && sb == sa * (sb / sa)) by (nonlinear_arith)
            requires
                sa == 1,
        ;
    }
}

/// The rounded quotient is one of the two neighbours of the quotient, and
/// within half a spacing of it.
pub proof fn lemma_nearest_error(n: int, d: int)
    requires
        0 <= n,
        0 < d,
    ensures
        0 <= nearest(n, d),
        2 * (nearest(n, d) * d - n) <= d * spacing(n / d),
        2 * (n - nearest(n, d) * d) <= d * spacing(n / d),
        nearest(n, d) == (n / (d * spacing(n / d))) * spacing(n / d) || nearest(n, d) == (n / (d
            * spacing(n / d)) + 1) * spacing(n / d),
{
    lemma_quotient(n, d);
    let s = spacing(n / d);
    lemma_spacing_bounds(n / d);
    let ds = d * s;
    assert(0 < ds) by (nonlinear_arith)
        requires
            ds == d * s,
            0 < d,
            1 <= s,
    ;
    lemma_quotient(n, ds);
    let q = n / ds;
    let r = n % ds;
    assert((q * s) * d == ds * q && ((q + 1) * s) * d == ds * q + ds && 0 <= q * s && 0 <= (q + 1)
        * s) by (nonlinear_arith)
        requires
            ds == d * s,
            0 <= q,
            1 <= s,
    ;
}

/// How the significand of the rounded quotient lies: `q` is the quotient
/// cut to a whole number of spacings.
pub proof fn lemma_significand(n: int, d: int)
    requires
        0 <= n,
        0 < d,
    ensures
        ({
            let s = spacing(n / d);
            let q = n / (d * s);
            &&& 1 <= s
            &&& 0 < d * s
            &&& 0 <= q < 0x100_0000
            &&& s == 1 || 0x80_0000 <= q
            &&& q * s <= n / d < (q + 1) * s
            &&& (d * s) * q <= n < (d * s) * q + d * s
            &&& n % (d * s) == n - (d * s) * q
        }),
{
    lemma_quotient(n, d);
    let t = n / d;
    let s = spacing(t);
    lemma_spacing_bounds(t);
    let ds = d * s;
    assert(0 < ds) by (nonlinear_arith)
        requires
            ds == d * s,
            0 < d,
            1 <= s,
    ;
    lemma_quotient(n, ds);
    let q = n / ds;
    assert(q * s <= t < (q + 1) * s) by (nonlinear_arith)
        requires
            ds == d * s,
            ds * q <= n < ds * q + ds,
            d * t <= n < d * t + d,
            0 < d,
            1 <= s,
            0 <= q,
    ;
    assert(q < 0x100_0000 && (s == 1 || 0x80_0000 <= q)) by (nonlinear_arith)
        requires
            q * s <= t < (q + 1) * s,
            t < s * 0x100_0000,
            s == 1 || s * 0x80_0000 <= t,
            1 <= s,
            0 <= q,
    ;
}

/// Rounding never passes a value of the format that lies at or above the
/// quotient.
pub proof fn lemma_nearest_at_most(n: int, d: int, b: int)
    requires
        0 <= n,
        0 < d,
        is_value(b),
        n <= b * d,
    ensures
        nearest(n, d) <= b,
{
    lemma_significand(n, d);
    lemma_nearest_error(n, d);
    lemma_quotient(n, d);
    let t = n / d;
    let s = spacing(t);
    let q = n / (d * s);
    assert(t <= b) by (nonlinear_arith)
        requires
            d * t <= n,
            n <= b * d,
            0 < d,
    ;
    lemma_spacing_monotone(t, b);
    let sb = spacing(b);
    lemma_quotient(b, sb);
    let m = (b / sb) * (sb / s);
    assert(b == s * m) by (nonlinear_arith)
        requires
            b == sb * (b / sb),
            sb == s * (sb / s),
            m == (b / sb) * (sb / s),
    ;
    if n % (d * s) == 0 {
        assert(q * s <= b) by (nonlinear_arith)
            requires
                (d * s) * q == n,
                n <= b * d,
                0 < d,
        ;
    } else {
        assert(q + 1 <= m) by (nonlinear_arith)
            requires
                (d * s) * q < n,
                n <= b * d,
                b == s * m,
                0 < d,
                1 <= s,
        ;
        assert((q + 1) * s <= b && q * s <= b) by (nonlinear_arith)
            requires
                q + 1 <= m,
                b == s * m,
                1 <= s,
        ;
    }
}

/// Rounding never passes a value of the format that lies at or below the
/// quotient.
pub proof fn lemma_nearest_at_least(n: int, d: int, b: int)
    requires
        0 <= n,
        0 < d,
        is_value(b),
        b * d <= n,
    ensures
        b <= nearest(n, d),
{
    lemma_significand(n, d);
    lemma_nearest_error(n, d);
    lemma_quotient(n, d);
    let t = n / d;
    let s = spacing(t);
    let q = n / (d * s);
    assert(b <= t) by (nonlinear_arith)
        requires
            n < d * t + d,
            b * d <= n,
            0 < d,
    ;
    lemma_spacing_monotone(b, t);
    lemma_spacing_bounds(b);
    let sb = spacing(b);
    let m = s / sb;
    if m == 1 {
        assert(s == sb) by (nonlinear_arith)
            requires
                s == sb * m,
                m == 1,
        ;
        lemma_quotient(b, s);
        let k = b / s;
        assert(k <= q) by (nonlinear_arith)
            requires
                b == s * k,
                b * d <= n,
                n < (d * s) * q + d * s,
                0 < d,
                1 <= s,
        ;
        assert(b <= q * s) by (nonlinear_arith)
            requires
                b == s * k,
                k <= q,
                1 <= s,
        ;
    } else {
        assert(b < q * s) by (nonlinear_arith)
            requires
                s == sb * m,
                2 <= m,
                b < sb * 0x100_0000,
                0x80_0000 <= q,
                1 <= sb,
        ;
    }
    assert(q * s <= (q + 1) * s) by (nonlinear_arith)
        requires
            1 <= s,
    ;
}

/// A value of the format rounds to itself.
pub proof fn lemma_nearest_exact(x: int, d: int)
    requires
        is_value(x),
        0 < d,
    ensures
        nearest(x * d, d) == x,
{
    assert(0 <= x * d) by (nonlinear_arith)
        requires
            0 <= x,
            0 < d,
    ;
    lemma_nearest_at_most(x * d, d, x);
    lemma_nearest_at_least(x * d, d, x);
}

/// What rounding gives is a value of the format.
pub proof fn lemma_nearest_is_value(n: int, d: int)
    requires
        0 <= n,
        0 < d,
    ensures
        is_value(nearest(n, d)),
{
    lemma_significand(n, d);
    lemma_nearest_error(n, d);
    let t = n / d;
    let s = spacing(t);
    let q = n / (d * s);
    let r = nearest(n, d);
    let p = if r == q * s { q } else { q + 1 };
    assert(r == p * s);
    if p < 0x100_0000 {
        assert(p * s < s * 0x100_0000 && (s == 1 || s * 0x80_0000 <= p * s) && 0 <= p * s)
            by (nonlinear_arith)
            requires
                0 <= p < 0x100_0000,
                s == 1 || 0x80_0000 <= p,
                1 <= s,
        ;
        lemma_spacing_same(t, r);
        vstd::arithmetic::div_mod::lemma_mod_multiples_basic(p, s);
    } else {
        let h = 0x80_0000 * s;
        assert(r == 2 * h) by (nonlinear_arith)
            requires
                r == p * s,
                p == 0x100_0000,
                h == 0x80_0000 * s,
        ;
        lemma_spacing_same(t, h);
        assert(h >= 0x80_0000);
        assert(r / 2 == h);
        assert(spacing(r) == 2 * s);
        assert(r == 0x80_0000 * (2 * s));
        vstd::arithmetic::div_mod::lemma_mod_multiples_basic(0x80_0000, 2 * s);
    }
}

/// A quotient and its remainder, known from one equation.
pub proof fn lemma_quotient_is(n: int, d: int, q: int, r: int)
    requires
        0 <= r < d,
        n == d * q + r,
    ensures
        n / d == q,
        n % d == r,
{
    assert(n == q * d + r) by (nonlinear_arith)
        requires
            n == d * q + r,
    ;
    vstd::arithmetic::div_mod::lemma_fundamental_div_mod_converse(n, d, q, r);
}

/// A quotient does not change when both of its sides are multiplied.
pub proof fn lemma_quotient_cancel(n: int, d: int, m: int)
    requires
        0 <= n,
        0 < d,
        0 < m,
    ensures
        (n * m) / (d * m) == n / d,
        (n * m) % (d * m) == (n % d) * m,
{
    lemma_quotient(n, d);
    let t = n / d;
    let r = n % d;
    assert(n * m == (d * m) * t + r * m && 0 <= r * m < d * m) by (nonlinear_arith)
        requires
            n == d * t + r,
            0 <= r < d,
            0 < m,
    ;
    lemma_quotient_is(n * m, d * m, t, r * m);
}

/// Rounding does not change when both sides of the quotient are multiplied.
pub proof fn lemma_nearest_cancel(n: int, d: int, m: int)
    requires
        0 <= n,
        0 < d,
        0 < m,
    ensures
        nearest(n * m, d * m) == nearest(n, d),
{
    lemma_significand(n, d);
    lemma_quotient_cancel(n, d, m);
    let s = spacing(n / d);
    let ds = d * s;
    let q = n / ds;
    let r = n % ds;
    lemma_quotient_cancel(n, ds, m);
    assert((d * m) * s == ds * m) by (nonlinear_arith)
        requires
            ds == d * s,
    ;
    assert((2 * (r * m) < ds * m) == (2 * r < ds) && (2 * (r * m) == ds * m) == (2 * r == ds))
        by (nonlinear_arith)
        requires
            0 < m,
    ;
}

/// Rounding twice the quotient gives twice the rounded quotient, once the
/// quotient has its 24 bits or is a whole number.
pub proof fn lemma_nearest_double(n: int, d: int)
    requires
        0 <= n,
        0 < d,
        n / d >= 0x80_0000 || n % d == 0,
    ensures
        nearest(2 * n, d) == 2 * nearest(n, d),
        (2 * n) / d >= 0x80_0000 || (2 * n) % d == 0,
{
    lemma_quotient(n, d);
    lemma_quotient(2 * n, d);
    let t = n / d;
    let t2 = (2 * n) / d;
    assert(2 * t <= t2 <= 2 * t + 1) by (nonlinear_arith)
        requires
            d * t <= n < d * t + d,
            d * t2 <= 2 * n < d * t2 + d,
            0 < d,
    ;
    if t >= 0x80_0000 {
        lemma_significand(n, d);
        let s = spacing(t);
        assert(t2 / 2 == t);
        assert(spacing(t2) == 2 * s);
        let ds = d * s;
        let q = n / ds;
        let r = n % ds;
        assert(2 * n == (d * (2 * s)) * q + 2 * r && d * (2 * s) == 2 * ds) by (nonlinear_arith)
            requires
                n == ds * q + r,
                ds == d * s,
        ;
        lemma_quotient_is(2 * n, d * (2 * s), q, 2 * r);
        assert(q * (2 * s) == 2 * (q * s) && (q + 1) * (2 * s) == 2 * ((q + 1) * s))
            by (nonlinear_arith);
    } else {
        assert(t * d == n && (2 * t) * d == 2 * n && 2 * n == d * (2 * t) + 0)
            by (nonlinear_arith)
            requires
                n == d * t,
        ;
        lemma_quotient_is(2 * n, d, 2 * t, 0);
        assert(spacing(t) == 1 && spacing(2 * t) == 1);
        assert(t % 1 == 0 && (2 * t) % 1 == 0);
        lemma_nearest_exact(t, d);
        lemma_nearest_exact(2 * t, d);
    }
}

/// Rounding commutes with a change of the unit by a power of two, once the
/// quotient has its 24 bits or is a whole number.
pub proof fn lemma_nearest_scale(n: int, d: int, j: nat)
    requires
        0 <= n,
        0 < d,
        n / d >= 0x80_0000 || n % d == 0,
    ensures
        nearest(n * pow2(j), d) == nearest(n, d) * pow2(j),
    decreases j,
{
    if j == 0 {
        lemma2_to64();
        assert(n * 1 == n && nearest(n, d) * 1 == nearest(n, d));
    } else {
        let h = pow2((j - 1) as nat) as int;
        lemma_pow2_unfold(j);
        lemma_nearest_double(n, d);
        lemma_nearest_scale(2 * n, d, (j - 1) as nat);
        let r = nearest(n, d);
        assert((2 * n) * h == n * (2 * h) && (2 * r) * h == r * (2 * h)) by (nonlinear_arith);
    }
}

/// Rounds the quotient `n / d` to the nearest value of the format.
pub fn round(n: u128, d: u128) -> (r: u128)
    requires
        0 < d,
        n <= u128::MAX / 2,
    ensures
        r == nearest(n as int, d as int),
{
    let t: u128 = n / d;
    let mut s: u128 = 1;
    let mut x: u128 = t;
    while x >= 0x100_0000
        invariant
            1 <= s,
            s * x <= t,
            s == 1 || x >= 0x80_0000,
            spacing(t as int) == s * spacing(x as int),
        decreases x,
    {
        proof {
            let x2 = (x / 2) as int;
            assert(s * 0x100_0000 <= t) by (nonlinear_arith)
                requires
                    s * x <= t,
                    x >= 0x100_0000,
                    s >= 0,
            ;
            assert((2 * s) * x2 <= t) by (nonlinear_arith)
                requires
                    s * x <= t,
                    2 * x2 <= x,
                    s >= 0,
            ;
            assert(s * spacing(x as int) == (2 * s) * spacing(x2)) by (nonlinear_arith)
                requires
                    spacing(x as int) == 2 * spacing(x2),
            ;
        }
        x = x / 2;
        s = s * 2;
    }
    proof {
        lemma_quotient(n as int, d as int);
        assert(s <= t || s == 1) by (nonlinear_arith)
            requires
                s == 1 || x >= 0x80_0000,
                s * x <= t,
                s >= 1,
        ;
        assert(1 <= d * s <= n || s == 1) by (nonlinear_arith)
            requires
                s <= t || s == 1,
                d * t <= n,
                d > 0,
                s >= 1,
        ;
    }
    let ds: u128 = d * s;
    let q: u128 = n / ds;
    let r: u128 = n % ds;
    proof {
        lemma_quotient(n as int, ds as int);
        assert(q * s <= t) by (nonlinear_arith)
            requires
                ds == d * s,
                ds * q <= n,
                n < d * t + d,
                d > 0,
                s >= 1,
        ;
        assert((q + 1) * s == q * s + s) by (nonlinear_arith);
        assert(t <= n) by (nonlinear_arith)
            requires
                d * t <= n,
                d >= 1,
                t >= 0,
        ;
    }
    if r < ds - r || (r == ds - r && q % 2 == 0) {
        q * s
    } else {
        (q + 1) * s
    }
}

} // verus!
