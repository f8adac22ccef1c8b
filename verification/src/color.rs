//! From four inks to three lights, one pixel at a time.
use crate::shade::{
    lemma_no_ink, lemma_ranges, lemma_scale_free, lemma_shade_close, shade, unit, ONE,
};
use crate::single::round;
use vstd::prelude::*;

verus! {

/// The light level that an ink level leaves under a black level: the
/// conversion in the arithmetic of the single-precision format, its result
/// cut down to a whole number.
pub open spec fn level(ink: u8, key: u8) -> u8 {
    shade(unit(), ink as int, key as int) as u8
}

/// 255 times the light that exact arithmetic would give.
pub open spec fn exact(ink: u8, key: u8) -> int {
    (255 - ink) * (255 - key)
}

/// The level is the exact light with its fraction cut off, never more;
/// only where the exact light is a whole number may it be one less.
pub proof fn lemma_level_close(ink: u8, key: u8)
    ensures
        level(ink, key) == shade(unit(), ink as int, key as int),
        level(ink, key) <= exact(ink, key) / 255,
        exact(ink, key) / 255 - 1 <= level(ink, key),
        exact(ink, key) % 255 != 0 ==> level(ink, key) == exact(ink, key) / 255,
{
    lemma_scale_free(ink as int, key as int);
    lemma_shade_close(ink as int, key as int);
    assert((255 - ink) * (255 - key) <= 65025) by (nonlinear_arith);
}

/// The more black, the less light: with the ink held, a higher black level
/// never gives a higher light level.
pub proof fn lemma_key_monotone(ink: u8, low: u8, high: u8)
    requires
        low <= high,
    ensures
        level(ink, high) <= level(ink, low),
{
    lemma_level_close(ink, low);
    lemma_level_close(ink, high);
    let a = 255 - ink as int;
    let n1 = exact(ink, low);
    let n2 = exact(ink, high);
    if low < high && ink < 255 {
        assert(n2 < n1) by (nonlinear_arith)
            requires
                n1 == a * (255 - low as int),
                n2 == a * (255 - high as int),
                a > 0,
                low < high,
        ;
    } else {
        assert(low == high || (n1 == 0 && n2 == 0)) by (nonlinear_arith)
            requires
                n1 == a * (255 - low as int),
                n2 == a * (255 - high as int),
                a == 0 || low == high,
        ;
    }
}

/// Full black gives no light, whatever the ink.
pub proof fn lemma_full_key(ink: u8)
    ensures
        level(ink, 255) == 0,
{
    lemma_level_close(ink, 255);
    assert((255 - ink as int) * (255 - 255) == 0) by (nonlinear_arith);
}

/// Full ink gives no light, whatever the black.
pub proof fn lemma_full_ink(key: u8)
    ensures
        level(255, key) == 0,
{
    lemma_level_close(255, key);
    assert((255 - 255) * (255 - key as int) == 0) by (nonlinear_arith);
}

/// No ink and no black give full light.
pub proof fn lemma_blank()
    ensures
        level(0, 0) == 255,
{
    lemma_scale_free(0, 0);
    lemma_no_ink();
}

/// Converts one ink level under one black level to a light level.
pub fn channel(ink: u8, key: u8) -> (light: u8)
    ensures
        light == level(ink, key),
{
    proof {
        lemma_ranges(ink as int, key as int);
        lemma_scale_free(ink as int, key as int);
    }
    let c: u128 = round(ink as u128 * ONE, 255);
    let k: u128 = round(key as u128 * ONE, 255);
    let w: u128 = round(ONE - k, 1);
    assert(c * w <= ONE * ONE) by (nonlinear_arith)
        requires
            0 <= c <= ONE,
            0 <= w <= ONE,
    ;
    let p: u128 = round(c * w, ONE);
    let v: u128 = round(p + k, 1);
    let rest: u128 = round(ONE - v, 1);
    let scaled: u128 = round(rest * 255, 1);
    (scaled / ONE) as u8
}

/// The light levels of the pixels of `input`, three for the four ink
/// levels of each pixel; bytes after the last whole pixel are not counted.
pub open spec fn rgb_of(input: Seq<u8>) -> Seq<u8> {
    Seq::new(
        (input.len() / 4 * 3) as nat,
        |j: int| level(input[j / 3 * 4 + j % 3], input[j / 3 * 4 + 3]),
    )
}

/// A pixel without ink comes out white.
pub proof fn lemma_blank_pixel()
    ensures
        rgb_of(seq![0u8, 0u8, 0u8, 0u8]) == seq![255u8, 255u8, 255u8],
{
    lemma_blank();
    let out = rgb_of(seq![0u8, 0u8, 0u8, 0u8]);
    assert(out.len() == 3);
    assert(out[0] == 255 && out[1] == 255 && out[2] == 255);
    assert(out =~= seq![255u8, 255u8, 255u8]);
}

/// A pixel under full black comes out black, whatever its inks.
pub proof fn lemma_full_key_pixel(cyan: u8, magenta: u8, yellow: u8)
    ensures
        rgb_of(seq![cyan, magenta, yellow, 255u8]) == seq![0u8, 0u8, 0u8],
{
    lemma_full_key(cyan);
    lemma_full_key(magenta);
    lemma_full_key(yellow);
    let out = rgb_of(seq![cyan, magenta, yellow, 255u8]);
    assert(out.len() == 3);
    assert(out[0] == 0 && out[1] == 0 && out[2] == 0);
    assert(out =~= seq![0u8, 0u8, 0u8]);
}

/// Raising the black of some pixels and leaving their inks alone raises no
/// red, green or blue.
pub proof fn lemma_key_monotone_pixels(lighter: Seq<u8>, darker: Seq<u8>)
    requires
        lighter.len() == darker.len(),
        forall|i: int| 0 <= i < lighter.len() && i % 4 != 3 ==> lighter[i] == darker[i],
        forall|i: int| 0 <= i < lighter.len() && i % 4 == 3 ==> lighter[i] <= darker[i],
    ensures
        rgb_of(lighter).len() == rgb_of(darker).len(),
        forall|j: int| 0 <= j < rgb_of(lighter).len() ==> rgb_of(darker)[j] <= rgb_of(lighter)[j],
{
    assert forall|j: int| 0 <= j < rgb_of(lighter).len() implies rgb_of(darker)[j] <= rgb_of(
        lighter,
    )[j] by {
        let ink = j / 3 * 4 + j % 3;
        let key = j / 3 * 4 + 3;
        assert(0 <= ink < key < lighter.len());
        assert(ink % 4 != 3 && key % 4 == 3);
        lemma_key_monotone(lighter[ink], lighter[key], darker[key]);
    }
}

/// Converts pixels of cyan, magenta, yellow and black to pixels of red,
/// green and blue, in the same order.
pub fn cmyk_to_rgb(input: &[u8]) -> (output: Vec<u8>)
    ensures
        output@ == rgb_of(input@),
        output.len() == 3 * (input.len() / 4),
{
    let pixels: usize = input.len() / 4;
    let mut output: Vec<u8> = Vec::with_capacity(input.len() - pixels);
    let mut i: usize = 0;
    while i < pixels
        invariant
            pixels == input.len() / 4,
            i <= pixels,
            output.len() == 3 * i,
            forall|j: int| 0 <= j < 3 * i ==> output[j] == rgb_of(input@)[j],
        decreases pixels - i,
    {
        let key: u8 = input[4 * i + 3];
        let red: u8 = channel(input[4 * i], key);
        let green: u8 = channel(input[4 * i + 1], key);
        let blue: u8 = channel(input[4 * i + 2], key);
        output.push(red);
        output.push(green);
        output.push(blue);
        i = i + 1;
    }
    assert(output@ =~= rgb_of(input@));
    output
}

} // verus!
