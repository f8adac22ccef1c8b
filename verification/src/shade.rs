//! The arithmetic of one ink level under one black level, step by step.
//!
//! The steps are those of the conversion in single precision: both levels
//! as fractions of 255, the share `c * (1 - k) + k` that ink and black cover
//! together, the light `(1 - covered) * 255` that the rest lets through, and
//! the light cut down to a whole number. Every step rounds as the format
//! does. The functions take the number one as a count of units, so that the
//! same steps can be read in the unit of the format and in the coarser unit
//! that the machine computes in.
use crate::single::{
    is_value, lemma_nearest_at_least, lemma_nearest_at_most, lemma_nearest_cancel,
    lemma_nearest_error, lemma_nearest_exact, lemma_nearest_is_value, lemma_nearest_scale,
    lemma_quotient, lemma_quotient_cancel, lemma_spacing_in_binade, lemma_spacing_monotone,
    lemma_spacing_same, nearest, spacing,
};
use vstd::arithmetic::power2::{lemma2_to64, lemma2_to64_rest, lemma_pow2_adds, lemma_pow2_pos, pow2};
use vstd::prelude::*;

verus! {

/// The number one as the machine counts it, in steps of 2^-62. No value
/// that arises in the conversion is finer.
pub const ONE: u128 = 0x4000_0000_0000_0000;

/// An 8-bit level as a fraction of 255.
pub open spec fn fraction(one: int, level: int) -> int {
    nearest(level * one, 255)
}

/// One minus `x`, for `x` between nothing and one.
pub open spec fn complement(one: int, x: int) -> int {
    nearest(one - x, 1)
}

/// The share of a pixel that ink covers once black is laid over the colour:
/// `c * (1 - k) + k`.
pub open spec fn covered(one: int, ink: int, key: int) -> int {
    let c = fraction(one, ink);
    let k = fraction(one, key);
    nearest(nearest(c * complement(one, k), one) + k, 1)
}

/// The light that the uncovered share lets through, on the scale to 255:
/// `(1 - covered) * 255`.
pub open spec fn light(one: int, ink: int, key: int) -> int {
    nearest(complement(one, covered(one, ink, key)) * 255, 1)
}

/// The light with its fraction cut off: a whole level.
pub open spec fn shade(one: int, ink: int, key: int) -> int {
    light(one, ink, key) / one
}

/// The landmarks of the scale are values of the format, and the spacing
/// below each of them.
proof fn lemma_landmarks()
    ensures
        is_value(0),
        is_value(ONE as int),
        is_value(255 * ONE),
        is_value(0x40_0000_0000_0000),
        is_value(ONE - 0x40_0000_0000_0000),
        spacing(ONE - 1) == 0x40_0000_0000,
        spacing(ONE as int) == 0x80_0000_0000,
        spacing(2 * ONE) == 0x100_0000_0000,
        spacing(255 * ONE) == 0x4000_0000_0000,
{
    lemma2_to64();
    lemma2_to64_rest();
    lemma_spacing_in_binade(ONE as int, 39);
    lemma_spacing_in_binade(ONE - 1, 38);
    lemma_spacing_in_binade(2 * ONE, 40);
    lemma_spacing_in_binade(255 * ONE, 46);
    lemma_spacing_in_binade(0x40_0000_0000_0000, 31);
    lemma_spacing_in_binade(ONE - 0x40_0000_0000_0000, 38);
}

/// A level as a fraction: between nothing and one, within half a spacing of
/// the quotient, and away from both ends unless the level is at one.
proof fn lemma_fraction(level: int)
    requires
        0 <= level <= 255,
    ensures
        is_value(fraction(ONE as int, level)),
        0 <= fraction(ONE as int, level) <= ONE,
        -255 * 0x40_0000_0000 <= 255 * fraction(ONE as int, level) - level * ONE <= 255
            * 0x40_0000_0000,
        level == 0 ==> fraction(ONE as int, level) == 0,
        level == 255 ==> fraction(ONE as int, level) == ONE,
        level >= 1 ==> fraction(ONE as int, level) >= 0x40_0000_0000_0000,
        level <= 254 ==> fraction(ONE as int, level) <= ONE - 0x40_0000_0000_0000,
{
    lemma_landmarks();
    let n = level * ONE;
    lemma_nearest_is_value(n, 255);
    lemma_nearest_error(n, 255);
    lemma_nearest_at_most(n, 255, ONE as int);
    lemma_spacing_monotone(n / 255, ONE as int);
    if level == 0 {
        lemma_nearest_exact(0, 255);
    }
    if level == 255 {
        lemma_nearest_exact(ONE as int, 255);
    }
    if level >= 1 {
        lemma_nearest_at_least(n, 255, 0x40_0000_0000_0000);
    }
    if level <= 254 {
        lemma_nearest_at_most(n, 255, ONE - 0x40_0000_0000_0000);
    }
}

/// One minus a value between nothing and one.
proof fn lemma_complement(x: int)
    requires
        0 <= x <= ONE,
    ensures
        is_value(complement(ONE as int, x)),
        0 <= complement(ONE as int, x) <= ONE,
        -0x40_0000_0000 <= complement(ONE as int, x) - (ONE - x) <= 0x40_0000_0000,
        x > 0 ==> complement(ONE as int, x) - (ONE - x) <= 0x20_0000_0000,
        x == 0 ==> complement(ONE as int, x) == ONE,
        x == ONE ==> complement(ONE as int, x) == 0,
        x <= ONE - 0x40_0000_0000_0000 ==> complement(ONE as int, x) >= 0x40_0000_0000_0000,
{
    lemma_landmarks();
    let n = ONE - x;
    lemma_nearest_is_value(n, 1);
    lemma_nearest_error(n, 1);
    lemma_nearest_at_most(n, 1, ONE as int);
    lemma_spacing_monotone(n, ONE as int);
    if x > 0 {
        lemma_spacing_monotone(n, ONE - 1);
    }
    if x == 0 {
        lemma_nearest_exact(ONE as int, 1);
    }
    if x == ONE {
        lemma_nearest_exact(0, 1);
    }
    if x <= ONE - 0x40_0000_0000_0000 {
        lemma_nearest_at_least(n, 1, 0x40_0000_0000_0000);
    }
}

/// A fraction of a value: the product stays under the value, within half a
/// spacing of the exact product.
proof fn lemma_spread(c: int, w: int)
    requires
        0 <= c <= ONE,
        is_value(w),
        w <= ONE,
    ensures
        is_value(nearest(c * w, ONE as int)),
        0 <= nearest(c * w, ONE as int) <= w,
        -ONE * 0x40_0000_0000 <= ONE * nearest(c * w, ONE as int) - c * w <= ONE * 0x40_0000_0000,
{
    lemma_landmarks();
    let n = c * w;
    assert(0 <= n <= w * ONE) by (nonlinear_arith)
        requires
            n == c * w,
            0 <= c <= ONE,
            0 <= w,
    ;
    lemma_nearest_is_value(n, ONE as int);
    lemma_nearest_error(n, ONE as int);
    lemma_nearest_at_most(n, ONE as int, w);
    lemma_quotient(n, ONE as int);
    lemma_spacing_monotone(n / (ONE as int), ONE as int);
}

/// A product laid under the value it was taken from: the sum does not pass
/// one.
proof fn lemma_cover(p: int, k: int)
    requires
        0 <= k <= ONE,
        0 <= p <= complement(ONE as int, k),
    ensures
        is_value(nearest(p + k, 1)),
        0 <= nearest(p + k, 1) <= ONE,
        -0x80_0000_0000 <= nearest(p + k, 1) - (p + k) <= 0x80_0000_0000,
{
    lemma_landmarks();
    lemma_complement(k);
    let n = p + k;
    lemma_nearest_is_value(n, 1);
    lemma_nearest_error(n, 1);
    assert(n <= ONE + 0x20_0000_0000);
    lemma_spacing_monotone(n, 2 * ONE);
    if n <= ONE {
        lemma_nearest_at_most(n, 1, ONE as int);
    } else {
        lemma_spacing_same(ONE as int, n);
        assert(spacing(n / 1) == 0x80_0000_0000);
        assert(n / (1 * 0x80_0000_0000int) == 0x80_0000);
        assert(n % (1 * 0x80_0000_0000int) == n - ONE);
        assert(nearest(n, 1) == ONE);
    }
}

/// The uncovered share on the scale to 255.
proof fn lemma_scaled(x: int)
    requires
        0 <= x <= ONE,
    ensures
        0 <= nearest(x * 255, 1) <= 255 * ONE,
        -0x2000_0000_0000 <= nearest(x * 255, 1) - x * 255 <= 0x2000_0000_0000,
{
    lemma_landmarks();
    let n = x * 255;
    lemma_nearest_error(n, 1);
    lemma_nearest_at_most(n, 1, 255 * ONE);
    lemma_spacing_monotone(n, 255 * ONE);
}

/// Every step of the conversion stays between nothing and one, and the
/// light between nothing and 255.
pub proof fn lemma_ranges(ink: int, key: int)
    requires
        0 <= ink <= 255,
        0 <= key <= 255,
    ensures
        ({
            let c = fraction(ONE as int, ink);
            let k = fraction(ONE as int, key);
            let w = complement(ONE as int, k);
            let p = nearest(c * w, ONE as int);
            let v = covered(ONE as int, ink, key);
            &&& 0 <= c <= ONE
            &&& 0 <= k <= ONE
            &&& 0 <= w <= ONE
            &&& 0 <= p <= w
            &&& 0 <= v <= ONE
            &&& 0 <= complement(ONE as int, v) <= ONE
            &&& 0 <= light(ONE as int, ink, key) <= 255 * ONE
            &&& 0 <= shade(ONE as int, ink, key) <= 255
        }),
{
    let c = fraction(ONE as int, ink);
    let k = fraction(ONE as int, key);
    let w = complement(ONE as int, k);
    let p = nearest(c * w, ONE as int);
    let v = covered(ONE as int, ink, key);
    lemma_fraction(ink);
    lemma_fraction(key);
    lemma_complement(k);
    lemma_spread(c, w);
    lemma_cover(p, k);
    lemma_complement(v);
    lemma_scaled(complement(ONE as int, v));
}

/// The product of two bounded numbers is bounded by the product of the
/// bounds.
proof fn lemma_product_bound(a: int, b: int, m: int, n: int)
    by (nonlinear_arith)
    requires
        -m <= a <= m,
        -n <= b <= n,
    ensures
        -(m * n) <= a * b <= m * n,
{
}

/// The product of two sums, term by term.
proof fn lemma_expand(a: int, b: int, c: int, d: int)
    by (nonlinear_arith)
    ensures
        (a + b) * (c + d) == a * c + a * d + c * b + b * d,
{
}

/// The light stays close to the exact product of the two uncovered shares,
/// `(255 - ink) * (255 - key) / 255`: the roundings of the six steps
/// together move it by less than a thirtieth of a level.
pub proof fn lemma_light_error(ink: int, key: int)
    requires
        0 <= ink <= 255,
        0 <= key <= 255,
    ensures
        -552841 * 0x40_0000_0000 <= 255 * light(ONE as int, ink, key) - (255 - ink) * (255 - key)
            * ONE <= 552841 * 0x40_0000_0000,
{
    let one = ONE as int;
    let h = 0x40_0000_0000int;
    let c = fraction(one, ink);
    let k = fraction(one, key);
    let w = complement(one, k);
    let p = nearest(c * w, one);
    let v = covered(one, ink, key);
    let rest = complement(one, v);
    let l = light(one, ink, key);
    lemma_fraction(ink);
    lemma_fraction(key);
    lemma_complement(k);
    lemma_spread(c, w);
    lemma_cover(p, k);
    lemma_complement(v);
    lemma_scaled(rest);
    let m = ink * (255 - key);
    assert(0 <= m <= 65025 && (255 - ink) * (255 - key) == 65025 - m - 255 * key)
        by (nonlinear_arith)
        requires
            m == ink * (255 - key),
            0 <= ink <= 255,
            0 <= key <= 255,
    ;
    let e1 = 255 * c - ink * one;
    let e4 = 255 * w - (255 - key) * one;
    assert(-510 * h <= e4 <= 510 * h);
    let x = ink * one;
    let y = (255 - key) * one;
    assert((255 * c) * (255 * w) == 65025 * (c * w)) by (nonlinear_arith);
    lemma_expand(x, e1, y, e4);
    assert(x * y == m * (one * one)) by (nonlinear_arith)
        requires
            m == ink * (255 - key),
            x == ink * one,
            y == (255 - key) * one,
    ;
    assert(65025 * (c * w) == m * (one * one) + x * e4 + y * e1 + e1 * e4);
    lemma_product_bound(x, e4, 255 * one, 510 * h);
    lemma_product_bound(y, e1, 255 * one, 255 * h);
    lemma_product_bound(e1, e4, 255 * h, 510 * h);
    assert((255 * one) * (510 * h) + (255 * one) * (255 * h) + (255 * h) * (510 * h) <= 195076
        * (one * h)) by (nonlinear_arith)
        requires
            one == 0x4000_0000_0000_0000,
            h == 0x40_0000_0000,
    ;
    let cw = c * w;
    let eh = one * h;
    let ee = one * one;
    assert(-195076 * eh <= 65025 * cw - m * ee <= 195076 * eh);
    assert(eh == 0x4000_0000_0000_0000 * 0x40_0000_0000 && ee == 0x4000_0000_0000_0000
        * 0x4000_0000_0000_0000) by (nonlinear_arith)
        requires
            eh == one * h,
            ee == one * one,
            one == 0x4000_0000_0000_0000,
            h == 0x40_0000_0000,
    ;
    assert(-260101 * h <= 65025 * p - m * one <= 260101 * h);
    assert(-455176 * h <= 65025 * v - (m + 255 * key) * one <= 455176 * h);
    assert(-520201 * h <= 65025 * rest - (65025 - m - 255 * key) * one <= 520201 * h);
}

/// The level is the exact quotient `(255 - ink) * (255 - key) / 255` with
/// its fraction cut off, never more; where the quotient is whole, it may be
/// one less.
pub proof fn lemma_shade_close(ink: int, key: int)
    requires
        0 <= ink <= 255,
        0 <= key <= 255,
    ensures
        ({
            let exact = (255 - ink) * (255 - key);
            let level = shade(ONE as int, ink, key);
            &&& 0 <= level <= exact / 255
            &&& exact / 255 - 1 <= level
            &&& exact % 255 != 0 ==> level == exact / 255
        }),
{
    let one = ONE as int;
    let exact = (255 - ink) * (255 - key);
    let l = light(one, ink, key);
    lemma_light_error(ink, key);
    lemma_ranges(ink, key);
    assert(0 <= exact) by (nonlinear_arith)
        requires
            exact == (255 - ink) * (255 - key),
            0 <= ink <= 255,
            0 <= key <= 255,
    ;
    let f = exact / 255;
    let r = exact % 255;
    assert(exact == 255 * f + r);
    assert(exact * one == 255 * (f * one) + r * one) by (nonlinear_arith)
        requires
            exact == 255 * f + r,
    ;
    let fe = f * one;
    assert(l < fe + one);
    assert(fe - one < l);
    assert(r != 0 ==> fe < l);
    assert(fe == one * f) by (nonlinear_arith)
        requires
            fe == f * one,
    ;
    lemma_quotient(l, one);
}

/// No ink and no black give full light.
pub proof fn lemma_no_ink()
    ensures
        shade(ONE as int, 0, 0) == 255,
{
    let one = ONE as int;
    lemma_landmarks();
    lemma_fraction(0);
    lemma_complement(0);
    assert(0 * one == 0);
    lemma_nearest_exact(0, one);
    assert(nearest(0, one) == 0);
    lemma_nearest_exact(0, 1);
    assert(covered(one, 0, 0) == 0);
    lemma_nearest_exact(255 * one, 1);
    assert(light(one, 0, 0) == 255 * one);
}

/// One, counted in the smallest step of the format, 2^-149: in this unit
/// `spacing` is the spacing of the format over its whole range.
pub open spec fn unit() -> int {
    pow2(149) as int
}

/// The conversion does not depend on the unit: counted in steps of 2^-62 it
/// gives what it gives in the smallest steps of the format, because no
/// value that arises on the way is finer than 2^-62.
pub proof fn lemma_scale_free(ink: int, key: int)
    requires
        0 <= ink <= 255,
        0 <= key <= 255,
    ensures
        light(unit(), ink, key) == light(ONE as int, ink, key) * pow2(87),
        shade(unit(), ink, key) == shade(ONE as int, ink, key),
{
    let e = ONE as int;
    let f = pow2(87) as int;
    let u = unit();
    lemma2_to64_rest();
    lemma_pow2_adds(62, 87);
    lemma_pow2_pos(87);
    assert(u == e * f);
    let ce = fraction(e, ink);
    let ke = fraction(e, key);
    let we = complement(e, ke);
    let pe = nearest(ce * we, e);
    let ve = covered(e, ink, key);
    let re = complement(e, ve);
    let le = light(e, ink, key);
    lemma_fraction(ink);
    lemma_fraction(key);
    lemma_complement(ke);
    lemma_ranges(ink, key);
    let cu = fraction(u, ink);
    let ku = fraction(u, key);
    let wu = complement(u, ku);
    let pu = nearest(cu * wu, u);
    let vu = covered(u, ink, key);
    let ru = complement(u, vu);
    let lu = light(u, ink, key);
    assert(cu == ce * f) by {
        assert(ink * u == (ink * e) * f) by (nonlinear_arith)
            requires
                u == e * f,
        ;
        lemma_nearest_scale(ink * e, 255, 87);
    }
    assert(ku == ke * f) by {
        assert(key * u == (key * e) * f) by (nonlinear_arith)
            requires
                u == e * f,
        ;
        lemma_nearest_scale(key * e, 255, 87);
    }
    assert(wu == we * f) by {
        assert(u - ku == (e - ke) * f) by (nonlinear_arith)
            requires
                u == e * f,
                ku == ke * f,
        ;
        lemma_nearest_scale(e - ke, 1, 87);
    }
    assert(pu == pe * f) by {
        let n = ce * we;
        assert(cu * wu == (n * f) * f && 0 <= n && 0 <= n * f) by (nonlinear_arith)
            requires
                cu == ce * f,
                wu == we * f,
                n == ce * we,
                0 <= ce,
                0 <= we,
                0 < f,
        ;
        lemma_nearest_cancel(n * f, e, f);
        if ce == 0 || we == 0 {
            assert(n == 0) by (nonlinear_arith)
                requires
                    n == ce * we,
                    ce == 0 || we == 0,
            ;
        } else {
            assert(n >= 0x40_0000_0000_0000 * 0x40_0000_0000_0000) by (nonlinear_arith)
                requires
                    n == ce * we,
                    ce >= 0x40_0000_0000_0000,
                    we >= 0x40_0000_0000_0000,
            ;
        }
        lemma_nearest_scale(n, e, 87);
    }
    assert(vu == ve * f) by {
        assert(pu + ku == (pe + ke) * f) by (nonlinear_arith)
            requires
                pu == pe * f,
                ku == ke * f,
        ;
        lemma_nearest_scale(pe + ke, 1, 87);
    }
    assert(ru == re * f) by {
        assert(u - vu == (e - ve) * f) by (nonlinear_arith)
            requires
                u == e * f,
                vu == ve * f,
        ;
        lemma_nearest_scale(e - ve, 1, 87);
    }
    assert(lu == le * f) by {
        assert(ru * 255 == (re * 255) * f) by (nonlinear_arith)
            requires
                ru == re * f,
        ;
        lemma_nearest_scale(re * 255, 1, 87);
    }
    lemma_quotient_cancel(le, e, f);
}

} // verus!
