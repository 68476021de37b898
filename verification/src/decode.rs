//! Decoding image files into RGBA pixels, with the `image` crate.
use vstd::prelude::*;
use crate::model::RawImage;
use image::ImageReader;
use std::io::Cursor;

verus! {

/// What the `image` crate makes of the bytes of an image file: width,
/// height and RGBA8 pixels of the decoded image, or `None` where the format
/// is not recognised or decoding fails.
pub uninterp spec fn decoded_rgba(bytes: Seq<u8>) -> Option<(u32, u32, Seq<u8>)>;

/// Decodes with `ImageReader::new(Cursor::new(bytes))`, then
/// `with_guessed_format`, `decode` and `into_rgba8`.
///
/// Claimed of it: the result depends on the bytes alone; a decoded image
/// holds exactly `width * height` four-byte pixels (`ImageBuffer::into_raw`
/// of an RGBA8 buffer); and `width * height <= 2^29`, because the reader's
/// default `Limits` cap the decoder's buffer (`width * height` times at least
/// one byte per pixel) at 512 MiB. Which files decode, and to what pixels,
/// is left to the `image` crate (format guessing consults the crate's
/// process-wide format hooks, of which this library registers none).
#[verifier::external_body]
fn decode_rgba8(bytes: &[u8]) -> (r: Option<(u32, u32, Vec<u8>)>)
    ensures
        match r {
            Some(d) => decoded_rgba(bytes@) == Some((d.0, d.1, d.2@)),
            None => decoded_rgba(bytes@) is None,
        },
        r matches Some(d) ==> d.2@.len() == d.0 * d.1 * 4,
        r matches Some(d) ==> d.0 * d.1 <= 0x2000_0000,
{
    let reader = ImageReader::new(Cursor::new(bytes)).with_guessed_format().ok()?;
    let img = reader.decode().ok()?.into_rgba8();
    let (width, height) = img.dimensions();
    Some((width, height, img.into_raw()))
}

/// Decodes an image file (any format the `image` crate recognises) into
/// RGBA pixels.
pub fn decode_image(bytes: &[u8]) -> (r: Option<RawImage>)
    ensures
        match r {
            Some(img) => decoded_rgba(bytes@) == Some((img.width, img.height, img.pixels@)),
            None => decoded_rgba(bytes@) is None,
        },
        r matches Some(img) ==> img.pixels@.len() == img.width * img.height * 4,
        r matches Some(img) ==> img.width * img.height <= 0x2000_0000,
{
    match decode_rgba8(bytes) {
        Some((width, height, pixels)) => Some(RawImage { width, height, pixels }),
        None => None,
    }
}

} // verus!
