//! The calls into the `image` crate: decoding and resampling.
use vstd::prelude::*;
use crate::image::{Picture, well_formed_rgba};
use ::image::imageops::FilterType;
use ::image::RgbaImage;

verus! {

/// The RGBA bytes that `image::imageops::resize` with the triangle filter
/// makes of a `width` x `height` RGBA picture resampled to `new_width` x
/// `new_height`.
pub uninterp spec fn resized(width: u32, height: u32, rgba: Seq<u8>, new_width: u32, new_height: u32) -> Seq<u8>;

/// Whether `image::load_from_memory`, given `bytes`, gave a `width` x
/// `height` picture with these RGBA bytes (after `to_rgba8`). The decoder
/// also consults hooks registered in the process, so nothing is claimed of
/// two calls on the same bytes agreeing: this only records that a picture
/// came from these bytes.
pub uninterp spec fn decodes_to(bytes: Seq<u8>, width: u32, height: u32, rgba: Seq<u8>) -> bool;

/// Why the `image` crate could not decode a file.
#[verifier::external_type_specification]
#[verifier::external_body]
pub struct ExImageError(::image::ImageError);

/// Decodes image bytes with `image::load_from_memory` and converts the result
/// with `DynamicImage::to_rgba8`, or hands back the crate's error. Nothing is
/// claimed of which picture comes back, or whether one does: the decoder
/// consults format and decoding hooks that any code in the process may
/// register, so the outcome is not a function of the bytes alone. A picture
/// that comes back is one the decoder gave for these bytes (`decodes_to`),
/// and fills its size, as an `RgbaImage` does. Reading the hook tables takes a lock that
/// panics where another thread panicked while holding it; that cannot be
/// excluded through the bytes and is left unsaid.
#[verifier::external_body]
pub(crate) fn decode(bytes: &[u8]) -> (out: Result<Picture, ::image::ImageError>)
    ensures
        out matches Ok(p) ==> decodes_to(bytes@, p@.0, p@.1, p@.2),
{
    let image = match ::image::load_from_memory(bytes) {
        Ok(image) => image.to_rgba8(),
        Err(err) => return Err(err),
    };
    let (width, height) = image.dimensions();
    let rgba: Vec<u8> = image.pixels().flat_map(|p| p.0).collect();
    Ok(Picture { width, height, rgba })
}

/// Resamples a picture with `image::imageops::resize` and the triangle
/// filter. The result is what `resized` names; `resize` returns a buffer of
/// exactly the requested size, which gives its length.
#[verifier::external_body]
pub(crate) fn resize_rgba(picture: &Picture, new_width: u32, new_height: u32) -> (out: Vec<u8>)
    requires
        new_width > 0,
        new_height > 0,
    ensures
        out@ == resized(picture@.0, picture@.1, picture@.2, new_width, new_height),
        well_formed_rgba(new_width, new_height, out@),
{
    let source = RgbaImage::from_raw(picture.width, picture.height, picture.rgba.clone()).unwrap();
    let scaled = ::image::imageops::resize(&source, new_width, new_height, FilterType::Triangle);
    scaled.pixels().flat_map(|p| p.0).collect()
}

} // verus!
