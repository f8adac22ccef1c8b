//! What a decoded image is made of.
use vstd::prelude::*;

verus! {

/// How the bytes of one pixel are laid out.
#[derive(Clone, Copy, Debug, PartialEq, Eq, Structural)]
pub enum PixelFormat {
    /// One byte of grey.
    Gray8,
    /// Red, green and blue light, one byte each.
    Rgb24,
    /// Cyan, magenta, yellow and black ink, one byte each.
    Cmyk32,
}

impl PixelFormat {
    /// The number of bytes in one pixel.
    pub open spec fn channel_count(self) -> int {
        match self {
            PixelFormat::Gray8 => 1,
            PixelFormat::Rgb24 => 3,
            PixelFormat::Cmyk32 => 4,
        }
    }

    /// The number of bytes in one pixel.
    pub fn channels(&self) -> (count: u16)
        ensures
            count == self.channel_count(),
    {
        match self {
            PixelFormat::Gray8 => 1,
            PixelFormat::Rgb24 => 3,
            PixelFormat::Cmyk32 => 4,
        }
    }
}

/// The size and layout of a decoded image.
#[derive(Clone, Copy, Debug, PartialEq, Eq, Structural)]
pub struct ImageInfo {
    pub width: u16,
    pub height: u16,
    pub pixel_format: PixelFormat,
}

impl ImageInfo {
    /// The number of bytes that the pixels of the image take.
    pub open spec fn byte_count(self) -> int {
        self.width * self.height * self.pixel_format.channel_count()
    }

    /// The number of bytes that the pixels of the image take.
    pub fn buffer_len(&self) -> (len: u64)
        ensures
            len == self.byte_count(),
    {
        assert(self.width * self.height <= 0xffff * 0xffff) by (nonlinear_arith)
            requires
                self.width <= 0xffff,
                self.height <= 0xffff,
        ;
        let area: u64 = self.width as u64 * self.height as u64;
        let channels: u64 = self.pixel_format.channels() as u64;
        assert(area * channels <= 0xffff * 0xffff * 4) by (nonlinear_arith)
            requires
                area <= 0xffff * 0xffff,
                channels <= 4,
        ;
        area * channels
    }
}

/// An image could not be decoded. Why is not told.
#[derive(Clone, Copy, Debug, PartialEq, Eq, Structural)]
pub struct DecodeFailure;

} // verus!
