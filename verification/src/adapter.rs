//! From the answers of a bitstream decoder to a decoded image, or a failure.
use crate::format::{DecodeFailure, ImageInfo};
use vstd::prelude::*;

verus! {

/// Whether `pixels` is the buffer that `info` describes: an image with at
/// least one pixel, and every byte of it.
pub open spec fn fits(pixels: Seq<u8>, info: ImageInfo) -> bool {
    &&& info.width > 0
    &&& info.height > 0
    &&& pixels.len() == info.byte_count()
}

/// Whether a decoding attempt succeeded: the decoder gave pixels, told
/// their size and layout, and the two fit.
pub open spec fn succeeded(decoded: Result<Vec<u8>, DecodeFailure>, info: Option<ImageInfo>) -> bool {
    match (decoded, info) {
        (Ok(pixels), Some(info)) => fits(pixels@, info),
        _ => false,
    }
}

/// Takes what a bitstream decoder answered to one decoding attempt, the
/// pixels from its decoding and the size and layout it reports afterwards,
/// and gives both back where the attempt succeeded. Anything else is a
/// failure, and nothing of it is handed on.
pub fn decode_image(decoded: Result<Vec<u8>, DecodeFailure>, info: Option<ImageInfo>) -> (result:
    Result<(Vec<u8>, ImageInfo), DecodeFailure>)
    ensures
        succeeded(decoded, info) <==> result is Ok,
        match (decoded, info, result) {
            (Ok(pixels), Some(info), Ok(image)) => image.0 == pixels && image.1 == info,
            _ => result is Err,
        },
{
    match (decoded, info) {
        (Ok(pixels), Some(info)) => {
            if info.width > 0 && info.height > 0 && pixels.len() as u64 == info.buffer_len() {
                Ok((pixels, info))
            } else {
                Err(DecodeFailure)
            }
        },
        _ => Err(DecodeFailure),
    }
}

} // verus!
