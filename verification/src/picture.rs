use vstd::prelude::*;

verus! {

/// A decoded picture of the `image` crate.
#[verifier::external_type_specification]
#[verifier::external_body]
pub struct ExDynamicImage(image::DynamicImage);

/// Error that the `image` crate reports when it cannot encode a picture.
#[verifier::external_type_specification]
#[verifier::external_body]
pub struct ExImageError(image::ImageError);

/// Width and height, in pixels, of the box a catalog preview fits in.
pub const PREVIEW_SIDE: u32 = 512;

/// The picture that `DynamicImage::resize` returns for `img`, the box `width`
/// by `height` and the nearest-neighbour filter: `img` scaled, with its
/// proportions kept, to the largest size that fits the box. It is a function
/// of its arguments alone.
pub uninterp spec fn fitted(img: image::DynamicImage, width: u32, height: u32) -> image::DynamicImage;

/// The bytes that `DynamicImage::write_to` writes for `img` in the PNG format,
/// or `None` where it reports an error. It is a function of the picture alone.
pub uninterp spec fn png_of(img: image::DynamicImage) -> Option<Seq<u8>>;

/// Calls `DynamicImage::resize` with the nearest-neighbour filter. The
/// contract claims that the result is `fitted` of the picture and the box:
/// what the pixels of that picture are is left to the `image` crate.
#[verifier::external_body]
fn fit_within(img: &image::DynamicImage, width: u32, height: u32) -> (r: image::DynamicImage)
    ensures
        r == fitted(*img, width, height),
{
    img.resize(width, height, image::imageops::FilterType::Nearest)
}

/// Calls `DynamicImage::write_to` with the PNG format on an in-memory
/// buffer. The contract claims that the bytes returned are `png_of` the
/// picture, and that an error comes exactly where `png_of` is `None`.
#[verifier::external_body]
fn png_encoding(img: &image::DynamicImage) -> (r: Result<Vec<u8>, image::ImageError>)
    ensures
        match r {
            Ok(b) => png_of(*img) == Some(b@),
            Err(_) => png_of(*img) is None,
        },
{
    let mut bytes: Vec<u8> = Vec::new();
    match img.write_to(&mut std::io::Cursor::new(&mut bytes), image::ImageOutputFormat::Png) {
        Ok(()) => Ok(bytes),
        Err(e) => Err(e),
    }
}

/// The preview of a picture offered in a catalog: the picture scaled to fit
/// `PREVIEW_SIDE` by `PREVIEW_SIDE` pixels with its proportions kept, encoded
/// as PNG; the encoder's error when encoding fails.
pub fn preview(img: &image::DynamicImage) -> (r: Result<Vec<u8>, image::ImageError>)
    ensures
        match r {
            Ok(b) => png_of(fitted(*img, PREVIEW_SIDE, PREVIEW_SIDE)) == Some(b@),
            Err(_) => png_of(fitted(*img, PREVIEW_SIDE, PREVIEW_SIDE)) is None,
        },
{
    let small = fit_within(img, PREVIEW_SIDE, PREVIEW_SIDE);
    png_encoding(&small)
}

/// The picture that `image::load_from_memory` decodes from `bytes`, guessing
/// the format from them, or `None` where it reports an error. It is a
/// function of the bytes alone.
pub uninterp spec fn decoded(bytes: Seq<u8>) -> Option<image::DynamicImage>;

/// Calls `image::load_from_memory`. The contract claims that the picture
/// returned is `decoded` of the bytes, and that an error comes exactly where
/// `decoded` is `None`.
#[verifier::external_body]
fn load_picture(bytes: &[u8]) -> (r: Result<image::DynamicImage, image::ImageError>)
    ensures
        match r {
            Ok(p) => decoded(bytes@) == Some(p),
            Err(_) => decoded(bytes@) is None,
        },
{
    image::load_from_memory(bytes)
}

/// The picture held in received picture bytes; the decoder's error when they
/// hold none it can read.
pub fn decode_picture(bytes: &[u8]) -> (r: Result<image::DynamicImage, image::ImageError>)
    ensures
        match r {
            Ok(p) => decoded(bytes@) == Some(p),
            Err(_) => decoded(bytes@) is None,
        },
{
    load_picture(bytes)
}

} // verus!
