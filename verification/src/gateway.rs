//! What crosses to the caller: three numbers and, on success, the pixels.
use crate::adapter::{decode_image, succeeded};
use crate::color::{cmyk_to_rgb, rgb_of};
use crate::format::{DecodeFailure, ImageInfo, PixelFormat};
use vstd::prelude::*;

verus! {

/// The outcome of one call: the three numbers that are always written, and
/// the pixels that are handed over on success.
#[derive(Debug)]
pub struct Decoded {
    pub height: u16,
    pub width: u16,
    pub channels: u16,
    pub pixels: Option<Vec<u8>>,
}

impl Decoded {
    /// A failure is three zeros and no pixels. A success is an image of at
    /// least one pixel in one or three channels, and the three numbers tell
    /// the length of its buffer.
    pub open spec fn wf(self) -> bool {
        match self.pixels {
            None => self.height == 0 && self.width == 0 && self.channels == 0,
            Some(pixels) => {
                &&& self.height > 0
                &&& self.width > 0
                &&& (self.channels == 1 || self.channels == 3)
                &&& pixels.len() == self.height * self.width * self.channels
            },
        }
    }
}

/// The number of channels in which an image of the given layout is handed
/// over.
pub open spec fn delivered_channels(format: PixelFormat) -> int {
    match format {
        PixelFormat::Gray8 => 1,
        PixelFormat::Rgb24 => 3,
        PixelFormat::Cmyk32 => 3,
    }
}

/// The pixels as they are handed over: inks are turned into lights, grey
/// and lights are left as they are.
pub open spec fn delivered_pixels(pixels: Seq<u8>, format: PixelFormat) -> Seq<u8> {
    match format {
        PixelFormat::Cmyk32 => rgb_of(pixels),
        _ => pixels,
    }
}

/// Brings the pixels of a decoded image to one of the layouts that are
/// handed over, and tells its number of channels.
pub fn normalize(pixels: Vec<u8>, format: PixelFormat) -> (out: (Vec<u8>, u16))
    ensures
        out.0@ == delivered_pixels(pixels@, format),
        out.1 == delivered_channels(format),
{
    match format {
        PixelFormat::Gray8 => (pixels, 1),
        PixelFormat::Rgb24 => (pixels, 3),
        PixelFormat::Cmyk32 => (cmyk_to_rgb(pixels.as_slice()), 3),
    }
}

/// Turns the answers of a bitstream decoder to one decoding attempt into
/// what the caller receives. On failure that is three zeros and no pixels;
/// on success the height, the width, the number of channels, and the
/// pixels in that many channels.
pub fn decoder(decoded: Result<Vec<u8>, DecodeFailure>, info: Option<ImageInfo>) -> (out: Decoded)
    ensures
        out.wf(),
        succeeded(decoded, info) <==> out.pixels is Some,
        match (decoded, info, out.pixels) {
            (Ok(decoded), Some(info), Some(pixels)) => {
                &&& out.height == info.height
                &&& out.width == info.width
                &&& out.channels == delivered_channels(info.pixel_format)
                &&& pixels@ == delivered_pixels(decoded@, info.pixel_format)
            },
            _ => out.pixels is None,
        },
{
    match decode_image(decoded, info) {
        Ok((pixels, info)) => {
            let (pixels, channels) = normalize(pixels, info.pixel_format);
            proof {
                let area = info.width * info.height;
                assert(info.byte_count() == area * info.pixel_format.channel_count());
                assert(pixels.len() == area * channels);
                assert(area * channels == info.height * info.width * channels) by (nonlinear_arith)
                    requires
                        area == info.width * info.height,
                ;
            }
            Decoded { height: info.height, width: info.width, channels, pixels: Some(pixels) }
        },
        Err(_) => Decoded { height: 0, width: 0, channels: 0, pixels: None },
    }
}

} // verus!
