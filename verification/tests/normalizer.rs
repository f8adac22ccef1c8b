use still_decode::color::{channel, cmyk_to_rgb};
use still_decode::single::round;

/// The same conversion in the machine's own single-precision arithmetic.
fn in_single_precision(ink: u8, key: u8) -> u8 {
    let c = ink as f32 / 255.0;
    let k = key as f32 / 255.0;
    let c = c * (1.0 - k) + k;
    let r = (1.0 - c) * 255.0;
    r as u8
}

#[test]
fn every_pair_agrees_with_single_precision() {
    for ink in 0..=255u8 {
        for key in 0..=255u8 {
            assert_eq!(channel(ink, key), in_single_precision(ink, key), "ink {} key {}", ink, key);
        }
    }
}

#[test]
fn every_pair_is_the_exact_quotient_or_one_less() {
    for ink in 0..=255u32 {
        for key in 0..=255u32 {
            let exact = (255 - ink) * (255 - key);
            let level = channel(ink as u8, key as u8) as u32;
            assert!(level <= exact / 255);
            assert!(level + 1 >= exact / 255);
            if exact % 255 != 0 {
                assert_eq!(level, exact / 255);
            }
        }
    }
}

#[test]
fn more_black_never_gives_more_light() {
    for ink in 0..=255u8 {
        for key in 0..255u8 {
            assert!(channel(ink, key + 1) <= channel(ink, key), "ink {} key {}", ink, key);
        }
    }
    assert_eq!(cmyk_to_rgb(&[10, 20, 30, 40]), vec![206, 198, 189]);
    assert_eq!(cmyk_to_rgb(&[10, 20, 30, 41]), vec![205, 197, 188]);
}

#[test]
fn no_ink_is_white() {
    assert_eq!(cmyk_to_rgb(&[0, 0, 0, 0]), vec![255, 255, 255]);
}

#[test]
fn full_ink_is_black() {
    assert_eq!(cmyk_to_rgb(&[255, 255, 255, 255]), vec![0, 0, 0]);
}

#[test]
fn full_black_hides_every_ink() {
    for ink in 0..=255u8 {
        assert_eq!(channel(ink, 255), 0);
        assert_eq!(channel(255, ink), 0);
    }
    assert_eq!(cmyk_to_rgb(&[0, 17, 200, 255]), vec![0, 0, 0]);
}

#[test]
fn half_cyan_is_cut_not_rounded() {
    assert_eq!(cmyk_to_rgb(&[128, 0, 0, 0]), vec![126, 255, 255]);
}

#[test]
fn half_black_is_cut_not_rounded() {
    assert_eq!(cmyk_to_rgb(&[0, 0, 0, 128]), vec![126, 126, 126]);
}

#[test]
fn a_fraction_is_cut_off() {
    // (255 - 100) * (255 - 50) / 255 = 124.6...
    assert_eq!(channel(100, 50), 124);
    // (255 - 1) * (255 - 1) / 255 = 253.003...
    assert_eq!(channel(1, 1), 253);
    // (255 - 254) * (255 - 254) / 255 = 0.003...
    assert_eq!(channel(254, 254), 0);
}

#[test]
fn three_bytes_come_out_for_every_four() {
    for pixels in 0..40usize {
        let input = vec![9u8; 4 * pixels];
        assert_eq!(cmyk_to_rgb(&input).len(), 3 * pixels);
    }
}

#[test]
fn bytes_after_the_last_whole_pixel_are_dropped() {
    assert_eq!(cmyk_to_rgb(&[]), Vec::<u8>::new());
    assert_eq!(cmyk_to_rgb(&[1]), Vec::<u8>::new());
    assert_eq!(cmyk_to_rgb(&[1, 2, 3]), Vec::<u8>::new());
    assert_eq!(cmyk_to_rgb(&[0, 0, 0, 0, 77]), vec![255, 255, 255]);
    assert_eq!(cmyk_to_rgb(&[0, 0, 0, 0, 77, 78]), vec![255, 255, 255]);
    assert_eq!(cmyk_to_rgb(&[0, 0, 0, 0, 77, 78, 79]), vec![255, 255, 255]);
}

#[test]
fn pixels_keep_their_order() {
    let input = [0, 0, 0, 0, 255, 255, 255, 255, 128, 0, 0, 0, 0, 255, 0, 0];
    assert_eq!(
        cmyk_to_rgb(&input),
        vec![255, 255, 255, 0, 0, 0, 126, 255, 255, 255, 0, 255]
    );
}

#[test]
fn each_channel_takes_its_own_ink() {
    let out = cmyk_to_rgb(&[10, 100, 200, 30]);
    assert_eq!(out, vec![channel(10, 30), channel(100, 30), channel(200, 30)]);
    assert_eq!(out, vec![216, 136, 48]);
}

#[test]
fn round_keeps_what_has_24_bits() {
    assert_eq!(round(0, 255), 0);
    assert_eq!(round(12, 4), 3);
    assert_eq!(round(0xff_ffff, 1), 0xff_ffff);
    assert_eq!(round(1 << 62, 1), 1 << 62);
    assert_eq!(round(255 << 62, 1), 255 << 62);
}

#[test]
fn round_goes_to_the_nearer_neighbour() {
    assert_eq!(round(10, 3), 3);
    assert_eq!(round(11, 3), 4);
    assert_eq!(round(0x200_0001, 1), 0x200_0000);
    assert_eq!(round(0x200_0003, 1), 0x200_0004);
    assert_eq!(round(0x200_0001, 2), 0x100_0000);
    assert_eq!(round(0x200_0003, 2), 0x100_0002);
}

#[test]
fn round_breaks_a_tie_to_the_even_significand() {
    assert_eq!(round(5, 2), 2);
    assert_eq!(round(7, 2), 4);
    assert_eq!(round(0x100_0001, 1), 0x100_0000);
    assert_eq!(round(0x100_0003, 1), 0x100_0004);
    assert_eq!(round(0x200_0002, 1), 0x200_0000);
    assert_eq!(round(0x200_0006, 1), 0x200_0008);
    assert_eq!(round(0x1ff_ffff, 1), 0x200_0000);
}

#[test]
fn round_gives_the_single_precision_quotient() {
    for level in 0..=255u32 {
        let quotient = level as f32 / 255.0;
        let counted = (quotient as f64 * (1u64 << 62) as f64) as u128;
        assert_eq!(round((level as u128) << 62, 255), counted, "level {}", level);
    }
}
