use still_decode::adapter::decode_image;
use still_decode::color::channel;
use still_decode::format::{DecodeFailure, ImageInfo, PixelFormat};
use still_decode::gateway::{decoder, normalize, Decoded};

/// A stand-in for a bitstream decoder: one byte for the layout, one for the
/// width, one for the height, then the pixels as they are.
fn stand_in(bytes: &[u8]) -> (Result<Vec<u8>, DecodeFailure>, Option<ImageInfo>) {
    if bytes.len() < 3 {
        return (Err(DecodeFailure), None);
    }
    let pixel_format = match bytes[0] {
        1 => PixelFormat::Gray8,
        3 => PixelFormat::Rgb24,
        4 => PixelFormat::Cmyk32,
        _ => return (Err(DecodeFailure), None),
    };
    let info = ImageInfo { width: bytes[1] as u16, height: bytes[2] as u16, pixel_format };
    let wanted = bytes[0] as usize * bytes[1] as usize * bytes[2] as usize;
    if bytes.len() - 3 < wanted {
        return (Err(DecodeFailure), None);
    }
    (Ok(bytes[3..3 + wanted].to_vec()), Some(info))
}

fn decode(bytes: &[u8]) -> Decoded {
    let (decoded, info) = stand_in(bytes);
    decoder(decoded, info)
}

fn assert_failure(out: &Decoded) {
    assert_eq!(out.height, 0);
    assert_eq!(out.width, 0);
    assert_eq!(out.channels, 0);
    assert!(out.pixels.is_none());
}

#[test]
fn gray_image_of_four_by_four() {
    let mut bytes = vec![1, 4, 4];
    bytes.extend(0..16u8);
    let out = decode(&bytes);
    assert_eq!(out.channels, 1);
    assert_eq!(out.width, 4);
    assert_eq!(out.height, 4);
    let pixels = out.pixels.unwrap();
    assert_eq!(pixels.len(), 16);
    assert_eq!(pixels, (0..16u8).collect::<Vec<u8>>());
}

#[test]
fn rgb_image_of_two_by_three_passes_unchanged() {
    let mut bytes = vec![3, 2, 3];
    bytes.extend((0..18u8).map(|b| b * 13));
    let out = decode(&bytes);
    assert_eq!(out.channels, 3);
    assert_eq!(out.width, 2);
    assert_eq!(out.height, 3);
    let pixels = out.pixels.unwrap();
    assert_eq!(pixels.len(), 18);
    assert_eq!(pixels, (0..18u8).map(|b| b * 13).collect::<Vec<u8>>());
}

#[test]
fn cmyk_image_of_two_by_two_comes_out_in_three_channels() {
    let inks = [0, 0, 0, 0, 255, 255, 255, 255, 128, 0, 0, 0, 10, 100, 200, 30];
    let mut bytes = vec![4, 2, 2];
    bytes.extend(inks);
    let out = decode(&bytes);
    assert_eq!(out.channels, 3);
    assert_eq!(out.width, 2);
    assert_eq!(out.height, 2);
    let pixels = out.pixels.unwrap();
    assert_eq!(pixels.len(), 12);
    assert_eq!(pixels, vec![255, 255, 255, 0, 0, 0, 126, 255, 255, 216, 136, 48]);
    for pixel in 0..4 {
        for ink in 0..3 {
            assert_eq!(pixels[3 * pixel + ink], channel(inks[4 * pixel + ink], inks[4 * pixel + 3]));
        }
    }
}

#[test]
fn empty_input_is_a_failure() {
    assert_failure(&decode(&[]));
}

#[test]
fn rejected_input_is_a_failure() {
    assert_failure(&decode(&[9, 1, 1, 0]));
    assert_failure(&decode(&[3, 2, 2, 1, 2, 3]));
    assert_failure(&decoder(Err(DecodeFailure), None));
}

#[test]
fn a_failed_decoding_hides_what_the_decoder_reports() {
    let info = ImageInfo { width: 2, height: 2, pixel_format: PixelFormat::Gray8 };
    assert_failure(&decoder(Err(DecodeFailure), Some(info)));
}

#[test]
fn pixels_without_a_description_are_a_failure() {
    assert_failure(&decoder(Ok(vec![1, 2, 3, 4]), None));
}

#[test]
fn an_image_without_pixels_is_a_failure() {
    let flat = ImageInfo { width: 4, height: 0, pixel_format: PixelFormat::Gray8 };
    assert_failure(&decoder(Ok(vec![]), Some(flat)));
    let thin = ImageInfo { width: 0, height: 4, pixel_format: PixelFormat::Rgb24 };
    assert_failure(&decoder(Ok(vec![]), Some(thin)));
}

#[test]
fn a_buffer_of_the_wrong_length_is_a_failure() {
    let info = ImageInfo { width: 2, height: 2, pixel_format: PixelFormat::Cmyk32 };
    assert_failure(&decoder(Ok(vec![0; 15]), Some(info)));
    assert_failure(&decoder(Ok(vec![0; 17]), Some(info)));
    assert_failure(&decoder(Ok(vec![0; 12]), Some(info)));
    assert!(decoder(Ok(vec![0; 16]), Some(info)).pixels.is_some());
}

#[test]
fn a_success_tells_the_length_of_its_buffer() {
    for format in [PixelFormat::Gray8, PixelFormat::Rgb24, PixelFormat::Cmyk32] {
        for (width, height) in [(1u16, 1u16), (3, 5), (7, 2), (16, 16)] {
            let len = width as usize * height as usize * format.channels() as usize;
            let info = ImageInfo { width, height, pixel_format: format };
            let out = decoder(Ok(vec![42; len]), Some(info));
            assert!(out.height > 0 && out.width > 0);
            assert!(out.channels == 1 || out.channels == 3);
            let pixels = out.pixels.unwrap();
            assert_eq!(pixels.len(), out.height as usize * out.width as usize * out.channels as usize);
        }
    }
}

#[test]
fn decode_image_hands_both_answers_on() {
    let info = ImageInfo { width: 3, height: 1, pixel_format: PixelFormat::Rgb24 };
    let pixels = vec![1, 2, 3, 4, 5, 6, 7, 8, 9];
    assert_eq!(decode_image(Ok(pixels.clone()), Some(info)), Ok((pixels, info)));
}

#[test]
fn decode_image_fails_on_anything_else() {
    let info = ImageInfo { width: 3, height: 1, pixel_format: PixelFormat::Rgb24 };
    assert_eq!(decode_image(Err(DecodeFailure), Some(info)), Err(DecodeFailure));
    assert_eq!(decode_image(Err(DecodeFailure), None), Err(DecodeFailure));
    assert_eq!(decode_image(Ok(vec![0; 9]), None), Err(DecodeFailure));
    assert_eq!(decode_image(Ok(vec![0; 8]), Some(info)), Err(DecodeFailure));
    let none = ImageInfo { width: 0, height: 0, pixel_format: PixelFormat::Gray8 };
    assert_eq!(decode_image(Ok(vec![]), Some(none)), Err(DecodeFailure));
}

#[test]
fn normalize_leaves_grey_and_lights_alone() {
    assert_eq!(normalize(vec![5, 6, 7], PixelFormat::Gray8), (vec![5, 6, 7], 1));
    assert_eq!(normalize(vec![5, 6, 7], PixelFormat::Rgb24), (vec![5, 6, 7], 3));
}

#[test]
fn normalize_turns_inks_into_lights() {
    assert_eq!(normalize(vec![128, 0, 0, 0], PixelFormat::Cmyk32), (vec![126, 255, 255], 3));
}

#[test]
fn channels_of_each_layout() {
    assert_eq!(PixelFormat::Gray8.channels(), 1);
    assert_eq!(PixelFormat::Rgb24.channels(), 3);
    assert_eq!(PixelFormat::Cmyk32.channels(), 4);
}

#[test]
fn buffer_len_of_the_largest_image() {
    let info = ImageInfo { width: 65535, height: 65535, pixel_format: PixelFormat::Cmyk32 };
    assert_eq!(info.buffer_len(), 17179344900);
    let small = ImageInfo { width: 2, height: 3, pixel_format: PixelFormat::Rgb24 };
    assert_eq!(small.buffer_len(), 18);
}
