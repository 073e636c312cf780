//! The outside decoders, reached through small trusted wrappers. The JPEG and PNG
//! decoders are stateful objects; each wrapper runs one decoding session over the
//! bytes (make the decoder, read the headers, and the one step the caller needs) and
//! converts what comes back into plain values. Header parsing and the PNG decoder are
//! deterministic in the bytes, so what those sessions give is named. The pixels of a
//! JPEG decode are not: `jpeg_decoder` picks SIMD routines for the inverse DCT and
//! the colour conversion at run time, whose output differs slightly from the scalar
//! one, so only the size that a scaled JPEG decode settles on is stated. An image
//! decoded by the `image` crate is a pixel collection; its size and luma samples are
//! named, and so is what the bytes decode to. The verified callers check what they
//! rely on (buffer lengths, dimensions) before using a result.

use vstd::prelude::*;
use zune_core::colorspace::ColorSpace;
use zune_core::bit_depth::BitDepth;

verus! {

#[verifier::external_type_specification]
#[verifier::external_body]
pub struct ExDynamicImage(image::DynamicImage);

/// Pixel layouts a JPEG decode can produce.
#[derive(Debug, Clone, Copy, PartialEq, Eq, Structural)]
pub enum JpegPixels {
    L8,
    L16,
    Rgb24,
    Cmyk32,
}

/// Colour layouts of a decoded PNG that the thumbnail path tells apart.
#[derive(Debug, Clone, Copy, PartialEq, Eq, Structural)]
pub enum PngColors {
    Luma,
    LumaA,
    Rgb,
    Rgba,
    Other,
}

/// What `jpeg_decoder` reads from the headers of these bytes (`Decoder::new`, then
/// `read_info` and `info`): output width, height and pixel layout, or `None` where the
/// headers do not read.
pub uninterp spec fn jpeg_header(bytes: Seq<u8>) -> Option<(u16, u16, JpegPixels)>;

/// What `zune_png` reads from the headers of these bytes (`PngDecoder::new` over a
/// cursor, then `decode_headers`): the dimensions, colour layout and whether samples
/// are 8-bit, each as its getter gives it, or `None` where the headers do not read.
pub uninterp spec fn png_header(bytes: Seq<u8>) -> Option<(Option<(usize, usize)>, Option<PngColors>, Option<bool>)>;

/// What `zune_png` decodes from these bytes (`PngDecoder::new` over a cursor,
/// `decode_headers`, then `decode_raw`): the samples, or `None` where a step fails.
pub uninterp spec fn png_pixels(bytes: Seq<u8>) -> Option<Seq<u8>>;

/// Reads the JPEG headers: `jpeg_decoder::Decoder::new`, `read_info`, `info`.
#[verifier::external_body]
pub(crate) fn jpeg_read_header(bytes: &[u8]) -> (res: Option<(u16, u16, JpegPixels)>)
    ensures
        res == jpeg_header(bytes@),
{
    let mut d = jpeg_decoder::Decoder::new(bytes);
    d.read_info().ok()?;
    let i = d.info()?;
    Some((i.width, i.height, match i.pixel_format {
        jpeg_decoder::PixelFormat::L8 => JpegPixels::L8,
        jpeg_decoder::PixelFormat::L16 => JpegPixels::L16,
        jpeg_decoder::PixelFormat::RGB24 => JpegPixels::Rgb24,
        jpeg_decoder::PixelFormat::CMYK32 => JpegPixels::Cmyk32,
    }))
}

/// One side of a `len`-pixel image decoded at DCT scale `s` eighths: `len * s / 8`
/// rounded up.
pub open spec fn scaled_side(len: int, s: int) -> int {
    (len * s - 1) / 8 + 1
}

/// The DCT scale (in eighths) that `jpeg_decoder` picks for a `w` x `h` image asked
/// for `rw` x `rh`: the smallest of 1, 2, 4 that reaches the request on one side,
/// else 8 (full size).
pub open spec fn idct_scale(w: int, h: int, rw: int, rh: int) -> int {
    if scaled_side(w, 1) >= rw || scaled_side(h, 1) >= rh {
        1
    } else if scaled_side(w, 2) >= rw || scaled_side(h, 2) >= rh {
        2
    } else if scaled_side(w, 4) >= rw || scaled_side(h, 4) >= rh {
        4
    } else {
        8
    }
}

/// The output size of a scaled decode of a `w` x `h` image asked for `rw` x `rh`.
pub open spec fn jpeg_scaled_size(w: int, h: int, rw: int, rh: int) -> (int, int) {
    let s = idct_scale(w, h, rw, rh);
    (scaled_side(w, s), scaled_side(h, s))
}

/// Decodes the JPEG scaled toward `w` x `h`: `jpeg_decoder::Decoder::new`, `read_info`,
/// `scale`, `decode`. The decoder is made afresh over the bytes, so the headers are
/// read again. On success the size is the one `scale` settles on for the frame that
/// the headers give. The pixels, and their number, are left unsaid: the inverse DCT
/// and colour conversion run through SIMD routines chosen at run time, whose output is
/// not bit for bit the scalar one.
#[verifier::external_body]
pub(crate) fn jpeg_decode_scaled(bytes: &[u8], w: u16, h: u16) -> (res: Option<((u16, u16), Vec<u8>)>)
    ensures
        res matches Some((size, _)) ==> jpeg_header(bytes@) matches Some((fw, fh, _)) && (
        size.0 as int, size.1 as int) == jpeg_scaled_size(fw as int, fh as int, w as int, h as int),
{
    let mut d = jpeg_decoder::Decoder::new(bytes);
    d.read_info().ok()?;
    let size = d.scale(w, h).ok()?;
    let px = d.decode().ok()?;
    Some((size, px))
}

/// Reads the PNG headers: `zune_png::PngDecoder::new`, `decode_headers`, then the
/// `dimensions`, `colorspace` and `depth` getters.
#[verifier::external_body]
pub(crate) fn png_read_header(bytes: &[u8]) -> (res: Option<(Option<(usize, usize)>, Option<PngColors>, Option<bool>)>)
    ensures
        res == png_header(bytes@),
{
    let mut d = zune_png::PngDecoder::new(std::io::Cursor::new(bytes));
    d.decode_headers().ok()?;
    let colors = d.colorspace().map(|c| match c {
        ColorSpace::Luma => PngColors::Luma,
        ColorSpace::LumaA => PngColors::LumaA,
        ColorSpace::RGB => PngColors::Rgb,
        ColorSpace::RGBA => PngColors::Rgba,
        _ => PngColors::Other,
    });
    let eight = d.depth().map(|b| matches!(b, BitDepth::Eight));
    Some((d.dimensions(), colors, eight))
}

/// Decodes the PNG samples: `zune_png::PngDecoder::new`, `decode_headers`,
/// `decode_raw`. The decoder is made afresh over the bytes, so the headers are read
/// again.
#[verifier::external_body]
pub(crate) fn png_decode_pixels(bytes: &[u8]) -> (res: Option<Vec<u8>>)
    ensures
        match res {
            Some(px) => png_pixels(bytes@) == Some(px@),
            None => png_pixels(bytes@) is None,
        },
{
    let mut d = zune_png::PngDecoder::new(std::io::Cursor::new(bytes));
    d.decode_headers().ok()?;
    d.decode_raw().ok()
}

/// The size (width, height) of a decoded image.
pub uninterp spec fn image_size(img: image::DynamicImage) -> (u32, u32);

/// The 8-bit luma samples of a decoded image, row-major, as `to_luma8` gives them.
pub uninterp spec fn image_luma(img: image::DynamicImage) -> Seq<u8>;

/// What `image::load_from_memory` decodes from these bytes: the image's size and luma
/// samples, or `None` where it fails.
pub uninterp spec fn image_decoded(bytes: Seq<u8>) -> Option<((u32, u32), Seq<u8>)>;

/// `image::load_from_memory`: the image decoded by the `image` crate, format guessed
/// from the bytes. Its outcome is named by `image_decoded`.
#[verifier::external_body]
pub(crate) fn image_load(bytes: &[u8]) -> (img: Option<image::DynamicImage>)
    ensures
        match img {
            Some(i) => image_decoded(bytes@) == Some((image_size(i), image_luma(i))),
            None => image_decoded(bytes@) is None,
        },
{
    image::load_from_memory(bytes).ok()
}

/// `image::GenericImageView::dimensions` of a decoded image: its size.
#[verifier::external_body]
pub(crate) fn image_dimensions(img: &image::DynamicImage) -> (dims: (u32, u32))
    ensures
        dims == image_size(*img),
{
    image::GenericImageView::dimensions(img)
}

/// `image::DynamicImage::to_luma8`, then `into_raw`: its 8-bit luma samples, row-major.
/// (Their number is left unsaid: an image buffer may hold more samples than its size.)
#[verifier::external_body]
pub(crate) fn image_to_luma(img: &image::DynamicImage) -> (pixels: Vec<u8>)
    ensures
        pixels@ == image_luma(*img),
{
    img.to_luma8().into_raw()
}

} // verus!
